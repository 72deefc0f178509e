//! The file tree keyed by full paths, folded from the top down, sorted at
//! every level with folders first and names compared case-insensitively, and
//! walked into rows that leave out what a collapsed folder holds.

use vstd::prelude::*;
use vstd::multiset::Multiset;
use crate::keyed_tree::{concat_slash, is_collapsed, join_key, key_set, less_chars, str_lt};
use crate::model::{files_view, FileDiff, FileV};
use crate::nested_tree::named_files;
use crate::paths::{components, path_components, same_chars};
use crate::text::{chars_of, push_all, push_char, string_of};

verus! {

/// `str::to_lowercase`: the full Unicode lower-case mapping of the text.
/// What the mapping is, is Unicode's; only its name stands here.
pub uninterp spec fn lowercase(s: Seq<char>) -> Seq<char>;

/// `str::to_lowercase` of std.
#[verifier::external_body]
fn to_lower(s: &str) -> (r: String)
    ensures
        r@ == lowercase(s@),
{
    s.to_lowercase()
}

/// A node: a file when `file` is set, else a folder; `key` is its full path.
pub struct LNode {
    pub name: String,
    pub file: Option<usize>,
    pub key: String,
    pub children: Vec<LNode>,
}

pub struct LNodeV {
    pub name: Seq<char>,
    pub file: Option<usize>,
    pub key: Seq<char>,
    pub children: Seq<LNodeV>,
}

pub open spec fn lnode_view(n: LNode) -> LNodeV
    decreases n,
{
    LNodeV { name: n.name@, file: n.file, key: n.key@, children: lnodes_view(n.children@) }
}

pub open spec fn lnodes_view(s: Seq<LNode>) -> Seq<LNodeV>
    decreases s,
{
    if s.len() == 0 {
        Seq::empty()
    } else {
        lnodes_view(s.subrange(0, s.len() - 1)).push(lnode_view(s[s.len() - 1]))
    }
}

pub proof fn lemma_lnodes_view(s: Seq<LNode>)
    ensures
        lnodes_view(s).len() == s.len(),
        forall|i: int| 0 <= i < s.len() ==> #[trigger] lnodes_view(s)[i] == lnode_view(s[i]),
    decreases s.len(),
{
    if s.len() > 0 {
        lemma_lnodes_view(s.subrange(0, s.len() - 1));
        assert forall|i: int| 0 <= i < s.len() implies #[trigger] lnodes_view(s)[i] == lnode_view(s[i]) by {
            if i < s.len() - 1 {
                assert(s.subrange(0, s.len() - 1)[i] == s[i]);
            }
        }
    }
}

/// The first folder of that name.
pub open spec fn find_lfolder(ns: Seq<LNodeV>, c: Seq<char>) -> Option<int>
    decreases ns.len(),
{
    if ns.len() == 0 {
        None
    } else if ns[0].file is None && ns[0].name == c {
        Some(0)
    } else {
        match find_lfolder(ns.drop_first(), c) {
            Some(i) => Some(i + 1),
            None => None,
        }
    }
}

pub proof fn lemma_find_lfolder(ns: Seq<LNodeV>, c: Seq<char>)
    ensures
        match find_lfolder(ns, c) {
            Some(p) => 0 <= p < ns.len() && ns[p].file is None && ns[p].name == c && forall|j: int|
                0 <= j < p ==> !((#[trigger] ns[j]).file is None && ns[j].name == c),
            None => forall|j: int| 0 <= j < ns.len() ==> !((#[trigger] ns[j]).file is None && ns[j].name == c),
        },
    decreases ns.len(),
{
    if ns.len() > 0 {
        lemma_find_lfolder(ns.drop_first(), c);
        assert forall|j: int| 1 <= j < ns.len() implies ns[j] == ns.drop_first()[j - 1] by {}
    }
}

/// Adds file `idx` under the components `comps`, below the path `prefix`:
/// each node's key is its path so far.
pub open spec fn lins(ns: Seq<LNodeV>, comps: Seq<Seq<char>>, prefix: Seq<char>, idx: usize) -> Seq<LNodeV>
    decreases comps.len(),
{
    if comps.len() == 0 {
        ns
    } else {
        let key = join_key(prefix, comps[0]);
        if comps.len() == 1 {
            ns.push(LNodeV { name: comps[0], file: Some(idx), key, children: Seq::empty() })
        } else {
            match find_lfolder(ns, comps[0]) {
                Some(p) => ns.update(p, LNodeV { children: lins(ns[p].children, comps.drop_first(), key, idx), ..ns[p] }),
                None => ns.push(
                    LNodeV { name: comps[0], file: None, key, children: lins(Seq::empty(), comps.drop_first(), key, idx) },
                ),
            }
        }
    }
}

pub open spec fn chars_view(v: Seq<Vec<char>>) -> Seq<Seq<char>> {
    v.map_values(|c: Vec<char>| c@)
}

fn position_lfolder(ns: &Vec<LNode>, c: &Vec<char>) -> (r: Option<usize>)
    ensures
        match r {
            Some(p) => find_lfolder(lnodes_view(ns@), c@) == Some(p as int),
            None => find_lfolder(lnodes_view(ns@), c@) is None,
        },
{
    let ghost vs = lnodes_view(ns@);
    proof {
        lemma_lnodes_view(ns@);
        lemma_find_lfolder(vs, c@);
    }
    let mut i: usize = 0;
    while i < ns.len()
        invariant
            vs == lnodes_view(ns@),
            vs.len() == ns@.len(),
            forall|j: int| 0 <= j < ns@.len() ==> #[trigger] vs[j] == lnode_view(ns@[j]),
            i <= ns@.len(),
            forall|j: int| 0 <= j < i ==> !((#[trigger] vs[j]).file is None && vs[j].name == c@),
            match find_lfolder(vs, c@) {
                Some(p) => 0 <= p < vs.len() && vs[p].file is None && vs[p].name == c@ && forall|j: int|
                    0 <= j < p ==> !((#[trigger] vs[j]).file is None && vs[j].name == c@),
                None => forall|j: int| 0 <= j < vs.len() ==> !((#[trigger] vs[j]).file is None && vs[j].name == c@),
            },
        decreases ns@.len() - i,
    {
        assert(vs[i as int] == lnode_view(ns@[i as int]));
        if ns[i].file.is_none() && same_chars(&chars_of(ns[i].name.as_str()), c) {
            return Some(i);
        }
        i = i + 1;
    }
    None
}

fn insert_path(ns: &mut Vec<LNode>, comps: &Vec<Vec<char>>, from: usize, prefix: &Vec<char>, idx: usize)
    requires
        from <= comps@.len(),
    ensures
        lnodes_view(final(ns)@) == lins(lnodes_view(old(ns)@), chars_view(comps@).skip(from as int), prefix@, idx),
    decreases comps@.len() - from,
{
    let ghost cs = chars_view(comps@).skip(from as int);
    let ghost vs = lnodes_view(ns@);
    proof {
        lemma_lnodes_view(ns@);
    }
    if from == comps.len() {
        assert(cs.len() == 0);
        return;
    }
    assert(cs[0] == comps@[from as int]@);
    assert(cs.drop_first() =~= chars_view(comps@).skip(from + 1));
    let key = if prefix.len() == 0 {
        chars_of(string_of(&comps[from]).as_str())
    } else {
        concat_slash(prefix, &comps[from])
    };
    if from + 1 == comps.len() {
        ns.push(LNode { name: string_of(&comps[from]), file: Some(idx), key: string_of(&key), children: Vec::new() });
        proof {
            lemma_lnodes_view(ns@);
            assert(lnodes_view(Seq::<LNode>::empty()) =~= Seq::<LNodeV>::empty());
            assert(lnodes_view(ns@) =~= lins(vs, cs, prefix@, idx));
        }
        return;
    }
    match position_lfolder(ns, &comps[from]) {
        Some(p) => {
            proof {
                lemma_find_lfolder(vs, cs[0]);
            }
            let mut node = ns.remove(p);
            assert(lnode_view(node) == vs[p as int]);
            insert_path(&mut node.children, comps, from + 1, &key, idx);
            ns.insert(p, node);
            proof {
                lemma_lnodes_view(ns@);
                assert(lnodes_view(ns@) =~= lins(vs, cs, prefix@, idx));
            }
        },
        None => {
            let mut node = LNode { name: string_of(&comps[from]), file: None, key: string_of(&key), children: Vec::new() };
            proof {
                assert(lnodes_view(Seq::<LNode>::empty()) =~= Seq::<LNodeV>::empty());
            }
            insert_path(&mut node.children, comps, from + 1, &key, idx);
            ns.push(node);
            proof {
                lemma_lnodes_view(ns@);
                assert(lnodes_view(ns@) =~= lins(vs, cs, prefix@, idx));
            }
        },
    }
}

/// The forest of the files, added in diff order; a path without components
/// adds nothing.
pub open spec fn lforest(files: Seq<FileV>) -> Seq<LNodeV>
    decreases files.len(),
{
    if files.len() == 0 {
        Seq::empty()
    } else {
        lins(lforest(files.drop_last()), components(files.last().path), Seq::empty(), (files.len() - 1) as usize)
    }
}

pub fn build_lforest(files: &Vec<FileDiff>) -> (roots: Vec<LNode>)
    ensures
        lnodes_view(roots@) == lforest(files_view(files@)),
{
    let ghost fs = files_view(files@);
    let mut roots: Vec<LNode> = Vec::new();
    let top: Vec<char> = Vec::new();
    assert(top@ =~= Seq::<char>::empty());
    let mut i: usize = 0;
    while i < files.len()
        invariant
            fs == files_view(files@),
            top@ == Seq::<char>::empty(),
            i <= files@.len(),
            lnodes_view(roots@) == lforest(fs.take(i as int)),
        decreases files@.len() - i,
    {
        proof {
            assert(fs.take(i + 1).drop_last() =~= fs.take(i as int));
            assert(fs.take(i + 1).last() == files@[i as int]@);
        }
        let comps = path_components(files[i].path.as_str());
        assert(chars_view(comps@).skip(0) =~= components(files@[i as int].path@));
        insert_path(&mut roots, &comps, 0, &top, i);
        i = i + 1;
    }
    assert(fs.take(files@.len() as int) =~= fs);
    roots
}

/// The number of nodes of a tree.
pub open spec fn lsize(n: LNodeV) -> nat
    decreases n,
{
    1 + lsizes(n.children)
}

pub open spec fn lsizes(ns: Seq<LNodeV>) -> nat
    decreases ns,
{
    if ns.len() == 0 {
        0
    } else {
        lsizes(ns.subrange(0, ns.len() - 1)) + lsize(ns[ns.len() - 1])
    }
}

pub proof fn lemma_lsizes_elem(ns: Seq<LNodeV>, i: int)
    requires
        0 <= i < ns.len(),
    ensures
        lsize(ns[i]) <= lsizes(ns),
        ns.len() == 1 ==> lsizes(ns) == lsize(ns[0]),
    decreases ns.len(),
{
    if i < ns.len() - 1 {
        lemma_lsizes_elem(ns.subrange(0, ns.len() - 1), i);
    }
    if ns.len() == 1 {
        assert(lsizes(ns.subrange(0, 0)) == 0);
    }
}

/// A folder's name, key and children after folding in its single subfolder
/// as long as it has exactly one child and that child is a folder: the names
/// join with `/` and the key becomes the subfolder's.
pub open spec fn lfold(name: Seq<char>, key: Seq<char>, children: Seq<LNodeV>) -> (Seq<char>, Seq<char>, Seq<LNodeV>)
    decreases lsizes(children),
{
    if children.len() == 1 && children[0].file is None {
        proof {
            lemma_lsizes_elem(children, 0);
        }
        lfold(name.push('/') + children[0].name, children[0].key, children[0].children)
    } else {
        (name, key, children)
    }
}

pub proof fn lemma_lfold_size(name: Seq<char>, key: Seq<char>, children: Seq<LNodeV>)
    ensures
        lsizes(lfold(name, key, children).2) <= lsizes(children),
    decreases lsizes(children),
{
    if children.len() == 1 && children[0].file is None {
        lemma_lsizes_elem(children, 0);
        lemma_lfold_size(name.push('/') + children[0].name, children[0].key, children[0].children);
    }
}

/// Folding from the top down: a folder first takes in its chain of single
/// subfolders, then each child is folded.
pub open spec fn lcollapse(n: LNodeV) -> LNodeV
    decreases lsize(n), 0nat,
{
    if n.file is None {
        proof {
            lemma_lfold_size(n.name, n.key, n.children);
        }
        let (name, key, children) = lfold(n.name, n.key, n.children);
        LNodeV { name, key, children: lcollapse_list(children), ..n }
    } else {
        n
    }
}

pub open spec fn lcollapse_list(ns: Seq<LNodeV>) -> Seq<LNodeV>
    decreases lsizes(ns), 1nat,
{
    if ns.len() == 0 {
        Seq::empty()
    } else {
        proof {
            lemma_lsizes_elem(ns, ns.len() - 1);
        }
        lcollapse_list(ns.subrange(0, ns.len() - 1)).push(lcollapse(ns[ns.len() - 1]))
    }
}

pub proof fn lemma_lcollapse_list(ns: Seq<LNodeV>)
    ensures
        lcollapse_list(ns).len() == ns.len(),
        forall|i: int| 0 <= i < ns.len() ==> #[trigger] lcollapse_list(ns)[i] == lcollapse(ns[i]),
    decreases ns.len(),
{
    if ns.len() > 0 {
        let pre = ns.subrange(0, ns.len() - 1);
        lemma_lcollapse_list(pre);
        assert forall|i: int| 0 <= i < ns.len() implies #[trigger] lcollapse_list(ns)[i] == lcollapse(ns[i]) by {
            if i < ns.len() - 1 {
                assert(pre[i] == ns[i]);
            }
        }
    }
}

fn collapse_chain(n: LNode) -> (r: LNode)
    ensures
        lnode_view(r) == lcollapse(lnode_view(n)),
    decreases lsize(lnode_view(n)), 0nat,
{
    proof {
        lemma_lnodes_view(n.children@);
    }
    if n.file.is_some() {
        return n;
    }
    let LNode { name, file, key, children } = n;
    let ghost name0 = name@;
    let ghost key0 = key@;
    let ghost kids0 = lnodes_view(children@);
    let mut name = name;
    let mut key = key;
    let mut children = children;
    proof {
        lemma_lfold_size(name0, key0, kids0);
    }
    while children.len() == 1 && children[0].file.is_none()
        invariant
            lfold(name@, key@, lnodes_view(children@)) == lfold(name0, key0, kids0),
            lsizes(lnodes_view(children@)) <= lsizes(kids0),
        decreases lsizes(lnodes_view(children@)),
    {
        proof {
            lemma_lnodes_view(children@);
            lemma_lsizes_elem(lnodes_view(children@), 0);
        }
        let only = children.remove(0);
        push_char(&mut name, '/');
        push_all(&mut name, &chars_of(only.name.as_str()));
        key = only.key;
        children = only.children;
    }
    proof {
        lemma_lnodes_view(children@);
        assert(lfold(name@, key@, lnodes_view(children@)) == (name@, key@, lnodes_view(children@)));
    }
    let children = lcollapse_nodes(children);
    LNode { name, file, key, children }
}

fn lcollapse_nodes(v: Vec<LNode>) -> (r: Vec<LNode>)
    ensures
        lnodes_view(r@) == lcollapse_list(lnodes_view(v@)),
    decreases lsizes(lnodes_view(v@)), 1nat,
{
    let ghost vs = lnodes_view(v@);
    proof {
        lemma_lnodes_view(v@);
        lemma_lcollapse_list(vs);
    }
    let mut rest = v;
    let mut out: Vec<LNode> = Vec::new();
    while rest.len() > 0
        invariant
            vs == lnodes_view(v@),
            vs.len() == v@.len(),
            forall|j: int| 0 <= j < v@.len() ==> #[trigger] vs[j] == lnode_view(v@[j]),
            out@.len() + rest@.len() == v@.len(),
            rest@ == v@.subrange(out@.len() as int, v@.len() as int),
            forall|j: int| 0 <= j < out@.len() ==> lnode_view(#[trigger] out@[j]) == lcollapse(vs[j]),
        decreases rest@.len(),
    {
        let ghost k = out@.len();
        proof {
            lemma_lsizes_elem(vs, k as int);
            assert(rest@[0] == v@[k as int]);
        }
        let e = rest.remove(0);
        out.push(collapse_chain(e));
        assert(rest@ =~= v@.subrange(out@.len() as int, v@.len() as int));
    }
    proof {
        lemma_lnodes_view(out@);
        assert(lnodes_view(out@) =~= lcollapse_list(vs));
    }
    out
}

/// Folders before files; then the lower-cased names in string order.
pub open spec fn lkey_lt(a: LNodeV, b: LNodeV) -> bool {
    (a.file is None && b.file is Some) || ((a.file is None) == (b.file is None) && str_lt(
        lowercase(a.name),
        lowercase(b.name),
    ))
}

pub open spec fn lins_pos(s: Seq<LNodeV>, x: LNodeV) -> nat
    decreases s.len(),
{
    if s.len() == 0 {
        0
    } else if lkey_lt(x, s[0]) {
        0
    } else {
        1 + lins_pos(s.drop_first(), x)
    }
}

pub proof fn lemma_lins_pos(s: Seq<LNodeV>, x: LNodeV)
    ensures
        lins_pos(s, x) <= s.len(),
    decreases s.len(),
{
    if s.len() > 0 && !lkey_lt(x, s[0]) {
        lemma_lins_pos(s.drop_first(), x);
    }
}

/// A stable sort in that order.
pub open spec fn lsort_seq(ns: Seq<LNodeV>) -> Seq<LNodeV>
    decreases ns.len(),
{
    if ns.len() == 0 {
        Seq::empty()
    } else {
        let s = lsort_seq(ns.drop_last());
        s.insert(lins_pos(s, ns.last()) as int, ns.last())
    }
}

/// Every level sorted.
pub open spec fn lsorted(n: LNodeV) -> LNodeV
    decreases lsize(n), 0nat,
{
    LNodeV { children: lsort_seq(lsorted_list(n.children)), ..n }
}

pub open spec fn lsorted_list(ns: Seq<LNodeV>) -> Seq<LNodeV>
    decreases lsizes(ns), 1nat,
{
    if ns.len() == 0 {
        Seq::empty()
    } else {
        proof {
            lemma_lsizes_elem(ns, ns.len() - 1);
        }
        lsorted_list(ns.subrange(0, ns.len() - 1)).push(lsorted(ns[ns.len() - 1]))
    }
}

pub proof fn lemma_lsorted_list(ns: Seq<LNodeV>)
    ensures
        lsorted_list(ns).len() == ns.len(),
        forall|i: int| 0 <= i < ns.len() ==> #[trigger] lsorted_list(ns)[i] == lsorted(ns[i]),
    decreases ns.len(),
{
    if ns.len() > 0 {
        let pre = ns.subrange(0, ns.len() - 1);
        lemma_lsorted_list(pre);
        assert forall|i: int| 0 <= i < ns.len() implies #[trigger] lsorted_list(ns)[i] == lsorted(ns[i]) by {
            if i < ns.len() - 1 {
                assert(pre[i] == ns[i]);
            }
        }
    }
}

fn lkey_less(a: &LNode, b: &LNode) -> (r: bool)
    ensures
        r == lkey_lt(lnode_view(*a), lnode_view(*b)),
{
    let a_dir = a.file.is_none();
    let b_dir = b.file.is_none();
    if a_dir && !b_dir {
        true
    } else if a_dir == b_dir {
        let la = to_lower(a.name.as_str());
        let lb = to_lower(b.name.as_str());
        less_chars(&chars_of(la.as_str()), &chars_of(lb.as_str()))
    } else {
        false
    }
}

fn lsort_vec(v: Vec<LNode>) -> (out: Vec<LNode>)
    ensures
        lnodes_view(out@) == lsort_seq(lnodes_view(v@)),
{
    let ghost vs = lnodes_view(v@);
    proof {
        lemma_lnodes_view(v@);
    }
    let mut rest = v;
    let mut out: Vec<LNode> = Vec::new();
    while rest.len() > 0
        invariant
            vs == lnodes_view(v@),
            vs.len() == v@.len(),
            forall|j: int| 0 <= j < v@.len() ==> #[trigger] vs[j] == lnode_view(v@[j]),
            rest@.len() <= v@.len(),
            rest@ == v@.subrange(v@.len() - rest@.len(), v@.len() as int),
            lnodes_view(out@) == lsort_seq(vs.take(v@.len() - rest@.len())),
        decreases rest@.len(),
    {
        let ghost i = v@.len() - rest@.len();
        let x = rest.remove(0);
        let ghost s = lnodes_view(out@);
        proof {
            lemma_lnodes_view(out@);
            assert(x == v@[i]);
            assert(vs.take(i + 1).drop_last() =~= vs.take(i));
            assert(vs.take(i + 1).last() == lnode_view(x));
            lemma_lins_pos(s, lnode_view(x));
        }
        let mut p: usize = 0;
        assert(s.skip(0) =~= s);
        while p < out.len() && !lkey_less(&x, &out[p])
            invariant
                s == lnodes_view(out@),
                s.len() == out@.len(),
                forall|j: int| 0 <= j < out@.len() ==> #[trigger] s[j] == lnode_view(out@[j]),
                p <= out@.len(),
                lins_pos(s, lnode_view(x)) == p + lins_pos(s.skip(p as int), lnode_view(x)),
            decreases out@.len() - p,
        {
            proof {
                assert(s.skip(p as int)[0] == s[p as int]);
                assert(s.skip(p as int).drop_first() =~= s.skip(p + 1));
            }
            p = p + 1;
        }
        proof {
            if p < out@.len() {
                assert(s.skip(p as int)[0] == s[p as int]);
            }
        }
        let ghost xv = lnode_view(x);
        out.insert(p, x);
        proof {
            lemma_lnodes_view(out@);
            assert(lnodes_view(out@) =~= s.insert(p as int, xv));
            assert(rest@ =~= v@.subrange(v@.len() - rest@.len(), v@.len() as int));
        }
    }
    assert(vs.take(v@.len() as int) =~= vs);
    out
}

fn lsort_node(n: LNode) -> (r: LNode)
    ensures
        lnode_view(r) == lsorted(lnode_view(n)),
    decreases lsize(lnode_view(n)), 0nat,
{
    let LNode { name, file, key, children } = n;
    proof {
        lemma_lnodes_view(children@);
    }
    let each = sort_forest(children);
    let children = lsort_vec(each);
    LNode { name, file, key, children }
}

fn sort_forest(v: Vec<LNode>) -> (r: Vec<LNode>)
    ensures
        lnodes_view(r@) == lsorted_list(lnodes_view(v@)),
    decreases lsizes(lnodes_view(v@)), 1nat,
{
    let ghost vs = lnodes_view(v@);
    proof {
        lemma_lnodes_view(v@);
        lemma_lsorted_list(vs);
    }
    let mut rest = v;
    let mut out: Vec<LNode> = Vec::new();
    while rest.len() > 0
        invariant
            vs == lnodes_view(v@),
            vs.len() == v@.len(),
            forall|j: int| 0 <= j < v@.len() ==> #[trigger] vs[j] == lnode_view(v@[j]),
            out@.len() + rest@.len() == v@.len(),
            rest@ == v@.subrange(out@.len() as int, v@.len() as int),
            forall|j: int| 0 <= j < out@.len() ==> lnode_view(#[trigger] out@[j]) == lsorted(vs[j]),
        decreases rest@.len(),
    {
        let ghost k = out@.len();
        proof {
            lemma_lsizes_elem(vs, k as int);
            assert(rest@[0] == v@[k as int]);
        }
        let e = rest.remove(0);
        out.push(lsort_node(e));
        assert(rest@ =~= v@.subrange(out@.len() as int, v@.len() as int));
    }
    proof {
        lemma_lnodes_view(out@);
        assert(lnodes_view(out@) =~= lsorted_list(vs));
    }
    out
}

/// One row of the panel.
pub struct LRow {
    pub depth: usize,
    pub name: String,
    /// The file of a leaf; `None` for a folder.
    pub file: Option<usize>,
    /// The folder's key; empty for a file.
    pub key: String,
    pub expanded: bool,
}

pub struct LRowV {
    pub depth: nat,
    pub name: Seq<char>,
    pub file: Option<usize>,
    pub key: Seq<char>,
    pub expanded: bool,
}

impl View for LRow {
    type V = LRowV;

    open spec fn view(&self) -> LRowV {
        LRowV { depth: self.depth as nat, name: self.name@, file: self.file, key: self.key@, expanded: self.expanded }
    }
}

pub open spec fn lrows_view(rows: Seq<LRow>) -> Seq<LRowV> {
    rows.map_values(|r: LRow| r@)
}

/// The rows of a node: a file is one row; a folder is its row, expanded
/// unless its key is collapsed, and then, when expanded, its children's rows
/// one level deeper.
pub open spec fn lflat_node(n: LNodeV, depth: nat, cs: Set<Seq<char>>) -> Seq<LRowV>
    decreases lsize(n), 0nat,
{
    match n.file {
        Some(i) => seq![LRowV { depth, name: n.name, file: Some(i), key: Seq::empty(), expanded: false }],
        None => {
            let expanded = !cs.contains(n.key);
            let row = LRowV { depth, name: n.name, file: None, key: n.key, expanded };
            if expanded {
                seq![row] + lflat_list(n.children, depth + 1, cs)
            } else {
                seq![row]
            }
        },
    }
}

pub open spec fn lflat_list(ns: Seq<LNodeV>, depth: nat, cs: Set<Seq<char>>) -> Seq<LRowV>
    decreases lsizes(ns), 1nat,
{
    if ns.len() == 0 {
        Seq::empty()
    } else {
        proof {
            lemma_lsizes_elem(ns, ns.len() - 1);
        }
        lflat_list(ns.subrange(0, ns.len() - 1), depth, cs) + lflat_node(ns[ns.len() - 1], depth, cs)
    }
}

fn flatten_tree(nodes: &Vec<LNode>, depth: usize, collapsed: &Vec<String>, out: &mut Vec<LRow>)
    requires
        depth <= old(out)@.len(),
    ensures
        lrows_view(final(out)@) == lrows_view(old(out)@) + lflat_list(lnodes_view(nodes@), depth as nat, key_set(collapsed@)),
    decreases lsizes(lnodes_view(nodes@)),
{
    let ghost ns = lnodes_view(nodes@);
    let ghost start = lrows_view(out@);
    let ghost cs = key_set(collapsed@);
    proof {
        lemma_lnodes_view(nodes@);
    }
    let mut i: usize = 0;
    while i < nodes.len()
        invariant
            ns == lnodes_view(nodes@),
            cs == key_set(collapsed@),
            ns.len() == nodes@.len(),
            forall|j: int| 0 <= j < nodes@.len() ==> #[trigger] ns[j] == lnode_view(nodes@[j]),
            i <= nodes@.len(),
            depth <= out@.len(),
            lrows_view(out@) == start + lflat_list(ns.take(i as int), depth as nat, cs),
        decreases nodes@.len() - i,
    {
        proof {
            assert(ns.take(i + 1).subrange(0, i as int) =~= ns.take(i as int));
            assert(ns.take(i + 1)[i as int] == ns[i as int]);
            lemma_lsizes_elem(ns, i as int);
            assert(lflat_list(ns.take(i + 1), depth as nat, cs) == lflat_list(ns.take(i as int), depth as nat, cs)
                + lflat_node(ns[i as int], depth as nat, cs));
        }
        let ghost before = lrows_view(out@);
        let node = &nodes[i];
        match node.file {
            Some(idx) => {
                let row = LRow { depth, name: node.name.clone(), file: Some(idx), key: String::new(), expanded: false };
                out.push(row);
                assert(lrows_view(out@) =~= before.push(row@));
            },
            None => {
                let expanded = !is_collapsed(collapsed, &chars_of(node.key.as_str()));
                let row = LRow { depth, name: node.name.clone(), file: None, key: node.key.clone(), expanded };
                out.push(row);
                assert(depth < out.len());
                assert(lrows_view(out@) =~= before.push(row@));
                if expanded {
                    proof {
                        lemma_lnodes_view(node.children@);
                    }
                    flatten_tree(&node.children, depth + 1, collapsed, out);
                }
            },
        }
        assert(lrows_view(out@) =~= start + lflat_list(ns.take(i + 1), depth as nat, cs));
        i = i + 1;
    }
    assert(ns.take(nodes@.len() as int) =~= ns);
}

/// The rows of the panel for a diff's files and the collapsed folder keys.
pub open spec fn lower_rows_of(files: Seq<FileV>, cs: Set<Seq<char>>) -> Seq<LRowV> {
    lflat_list(lsort_seq(lsorted_list(lcollapse_list(lforest(files)))), 0, cs)
}

/// Builds the rows of the panel: every file under its folders, chains of
/// single subfolders folded, folders before files and names compared in
/// lower case, collapsed folders' contents left out.
pub fn lower_rows(files: &Vec<FileDiff>, collapsed: &Vec<String>) -> (rows: Vec<LRow>)
    ensures
        lrows_view(rows@) == lower_rows_of(files_view(files@), key_set(collapsed@)),
{
    let roots = build_lforest(files);
    let roots = lcollapse_nodes(roots);
    let roots = sort_forest(roots);
    let roots = lsort_vec(roots);
    let mut out: Vec<LRow> = Vec::new();
    flatten_tree(&roots, 0, collapsed, &mut out);
    assert(lrows_view(out@) =~= lower_rows_of(files_view(files@), key_set(collapsed@)));
    out
}

/// Nodes in order: no node orders before an earlier one.
pub open spec fn lin_order(s: Seq<LNodeV>) -> bool {
    forall|i: int, j: int| 0 <= i < j < s.len() ==> !lkey_lt(#[trigger] s[j], #[trigger] s[i])
}

proof fn lemma_lkey_lt_transitive(a: LNodeV, b: LNodeV, c: LNodeV)
    requires
        lkey_lt(a, b),
        lkey_lt(b, c),
    ensures
        lkey_lt(a, c),
{
    if (a.file is None) == (b.file is None) && (b.file is None) == (c.file is None) {
        crate::keyed_tree::lemma_str_lt_transitive(lowercase(a.name), lowercase(b.name), lowercase(c.name));
    }
}

proof fn lemma_lkey_lt_asymmetric(a: LNodeV, b: LNodeV)
    requires
        lkey_lt(a, b),
    ensures
        !lkey_lt(b, a),
{
    if (a.file is None) == (b.file is None) {
        crate::keyed_tree::lemma_str_lt_asymmetric(lowercase(a.name), lowercase(b.name));
    }
}

proof fn lemma_lins_pos_props(s: Seq<LNodeV>, x: LNodeV)
    ensures
        lins_pos(s, x) <= s.len(),
        forall|j: int| 0 <= j < lins_pos(s, x) ==> !lkey_lt(x, #[trigger] s[j]),
        lins_pos(s, x) < s.len() ==> lkey_lt(x, s[lins_pos(s, x) as int]),
    decreases s.len(),
{
    if s.len() > 0 && !lkey_lt(x, s[0]) {
        lemma_lins_pos_props(s.drop_first(), x);
        assert forall|j: int| 0 <= j < lins_pos(s, x) implies !lkey_lt(x, #[trigger] s[j]) by {
            if j > 0 {
                assert(s[j] == s.drop_first()[j - 1]);
            }
        }
        if lins_pos(s, x) < s.len() {
            assert(s[lins_pos(s, x) as int] == s.drop_first()[lins_pos(s, x) - 1]);
        }
    }
}

/// Sorting a level gives the same nodes, folders first and then by
/// lower-cased name, nodes of equal keys in their first order.
pub proof fn law_sort_forest(ns: Seq<LNodeV>)
    ensures
        lin_order(lsort_seq(ns)),
        lsort_seq(ns).to_multiset() == ns.to_multiset(),
    decreases ns.len(),
{
    broadcast use vstd::seq_lib::to_multiset_insert, vstd::seq_lib::to_multiset_build;
    if ns.len() == 0 {
        assert(lsort_seq(ns) =~= ns);
    } else {
        let pre = ns.drop_last();
        let x = ns.last();
        law_sort_forest(pre);
        let s = lsort_seq(pre);
        let p = lins_pos(s, x) as int;
        lemma_lins_pos_props(s, x);
        let r = s.insert(p, x);
        assert(lsort_seq(ns) == r);
        assert forall|i: int, j: int| 0 <= i < j < r.len() implies !lkey_lt(#[trigger] r[j], #[trigger] r[i]) by {
            if j < p {
                assert(r[i] == s[i] && r[j] == s[j]);
            } else if j == p {
                assert(r[i] == s[i]);
            } else if i == p {
                assert(r[j] == s[j - 1]);
                if lkey_lt(s[j - 1], x) {
                    if j - 1 == p {
                        lemma_lkey_lt_asymmetric(x, s[p]);
                    } else {
                        lemma_lkey_lt_transitive(s[j - 1], x, s[p]);
                    }
                }
            } else if i < p {
                assert(r[i] == s[i] && r[j] == s[j - 1]);
            } else {
                assert(r[i] == s[i - 1] && r[j] == s[j - 1]);
            }
        }
        assert(ns =~= pre.push(x));
    }
}

/// The file indices of the leaves of a node.
pub open spec fn lleaves(n: LNodeV) -> Multiset<usize>
    decreases lsize(n), 0nat,
{
    match n.file {
        Some(i) => Multiset::singleton(i),
        None => lleaves_list(n.children),
    }
}

pub open spec fn lleaves_list(ns: Seq<LNodeV>) -> Multiset<usize>
    decreases lsizes(ns), 1nat,
{
    if ns.len() == 0 {
        Multiset::empty()
    } else {
        proof {
            lemma_lsizes_elem(ns, ns.len() - 1);
        }
        lleaves_list(ns.subrange(0, ns.len() - 1)).add(lleaves(ns[ns.len() - 1]))
    }
}

/// The file indices of the file rows.
pub open spec fn lrow_files(rows: Seq<LRowV>) -> Multiset<usize>
    decreases rows.len(),
{
    if rows.len() == 0 {
        Multiset::empty()
    } else {
        lrow_files(rows.drop_last()).add(
            match rows.last().file {
                Some(i) => Multiset::singleton(i),
                None => Multiset::empty(),
            },
        )
    }
}

proof fn lemma_lrow_files_concat(a: Seq<LRowV>, b: Seq<LRowV>)
    ensures
        lrow_files(a + b) =~= lrow_files(a).add(lrow_files(b)),
    decreases b.len(),
{
    broadcast use vstd::multiset::group_multiset_axioms;
    if b.len() == 0 {
        assert(a + b =~= a);
    } else {
        lemma_lrow_files_concat(a, b.drop_last());
        assert((a + b).drop_last() =~= a + b.drop_last());
        assert((a + b).last() == b.last());
    }
}

proof fn lemma_lleaves_push(ns: Seq<LNodeV>, x: LNodeV)
    ensures
        lleaves_list(ns.push(x)) =~= lleaves_list(ns).add(lleaves(x)),
{
    assert(ns.push(x).subrange(0, ns.len() as int) =~= ns);
}

proof fn lemma_lleaves_insert(ns: Seq<LNodeV>, p: int, x: LNodeV)
    requires
        0 <= p <= ns.len(),
    ensures
        lleaves_list(ns.insert(p, x)) =~= lleaves_list(ns).add(lleaves(x)),
    decreases ns.len(),
{
    broadcast use vstd::multiset::group_multiset_axioms;
    let r = ns.insert(p, x);
    if p == ns.len() {
        assert(r =~= ns.push(x));
        lemma_lleaves_push(ns, x);
    } else {
        let last = ns.len() - 1;
        let pre = ns.subrange(0, last);
        lemma_lleaves_insert(pre, p, x);
        assert(r.subrange(0, r.len() - 1) =~= pre.insert(p, x));
        assert(r[r.len() - 1] == ns[last]);
    }
}

proof fn lemma_lleaves_update(ns: Seq<LNodeV>, p: int, x: LNodeV)
    requires
        0 <= p < ns.len(),
    ensures
        lleaves_list(ns.update(p, x)).add(lleaves(ns[p])) =~= lleaves_list(ns).add(lleaves(x)),
    decreases ns.len(),
{
    broadcast use vstd::multiset::group_multiset_axioms;
    let last = ns.len() - 1;
    let pre = ns.subrange(0, last);
    let up = ns.update(p, x);
    assert(lleaves_list(ns) == lleaves_list(pre).add(lleaves(ns[last])));
    if p == last {
        assert(up.subrange(0, last) =~= pre);
        assert(lleaves_list(up) == lleaves_list(pre).add(lleaves(x)));
    } else {
        lemma_lleaves_update(pre, p, x);
        assert(up.subrange(0, last) =~= pre.update(p, x));
        assert(pre[p] == ns[p]);
        assert(up[last] == ns[last]);
        assert(lleaves_list(up) == lleaves_list(pre.update(p, x)).add(lleaves(ns[last])));
        assert forall|v: usize| #[trigger] lleaves_list(up).add(lleaves(ns[p])).count(v)
            == lleaves_list(ns).add(lleaves(x)).count(v) by {
            assert(lleaves_list(pre.update(p, x)).add(lleaves(pre[p])).count(v)
                == lleaves_list(pre).add(lleaves(x)).count(v));
        }
    }
}

/// Adding a file under at least one component adds its index to the leaves.
proof fn lemma_lins_leaves(ns: Seq<LNodeV>, comps: Seq<Seq<char>>, prefix: Seq<char>, idx: usize)
    requires
        comps.len() > 0,
    ensures
        lleaves_list(lins(ns, comps, prefix, idx)) =~= lleaves_list(ns).insert(idx),
    decreases comps.len(),
{
    broadcast use vstd::multiset::group_multiset_axioms;
    let key = join_key(prefix, comps[0]);
    let r = lins(ns, comps, prefix, idx);
    if comps.len() == 1 {
        let leaf = LNodeV { name: comps[0], file: Some(idx), key, children: Seq::empty() };
        lemma_lleaves_push(ns, leaf);
    } else {
        lemma_find_lfolder(ns, comps[0]);
        match find_lfolder(ns, comps[0]) {
            Some(p) => {
                let child = ns[p];
                lemma_lins_leaves(child.children, comps.drop_first(), key, idx);
                let x = LNodeV { children: lins(child.children, comps.drop_first(), key, idx), ..child };
                assert(r == ns.update(p, x));
                lemma_lleaves_update(ns, p, x);
                assert forall|v: usize| #[trigger] lleaves_list(r).count(v) == lleaves_list(ns).insert(idx).count(v) by {
                    assert(lleaves_list(r).add(lleaves(child)).count(v) == lleaves_list(ns).add(lleaves(x)).count(v));
                }
            },
            None => {
                lemma_lins_leaves(Seq::empty(), comps.drop_first(), key, idx);
                assert(lleaves_list(Seq::<LNodeV>::empty()) =~= Multiset::empty());
                let x = LNodeV { name: comps[0], file: None, key, children: lins(Seq::empty(), comps.drop_first(), key, idx) };
                lemma_lleaves_push(ns, x);
            },
        }
    }
}

proof fn lemma_lforest_leaves(files: Seq<FileV>)
    ensures
        lleaves_list(lforest(files)) =~= named_files(files),
    decreases files.len(),
{
    broadcast use vstd::multiset::group_multiset_axioms;
    if files.len() == 0 {
        assert(lleaves_list(Seq::<LNodeV>::empty()) =~= Multiset::empty());
    } else {
        lemma_lforest_leaves(files.drop_last());
        let f = files.last();
        if components(f.path).len() > 0 {
            lemma_lins_leaves(lforest(files.drop_last()), components(f.path), Seq::empty(), (files.len() - 1) as usize);
        }
    }
}

proof fn lemma_lfold_leaves(name: Seq<char>, key: Seq<char>, children: Seq<LNodeV>)
    ensures
        lleaves_list(lfold(name, key, children).2) =~= lleaves_list(children),
    decreases lsizes(children),
{
    broadcast use vstd::multiset::group_multiset_axioms;
    if children.len() == 1 && children[0].file is None {
        lemma_lsizes_elem(children, 0);
        lemma_lfold_leaves(name.push('/') + children[0].name, children[0].key, children[0].children);
        assert(children.subrange(0, 0) =~= Seq::<LNodeV>::empty());
        assert(lleaves_list(children.subrange(0, 0)) =~= Multiset::empty());
        assert(lleaves_list(children) == lleaves_list(children.subrange(0, 0)).add(lleaves(children[0])));
        assert(lleaves(children[0]) == lleaves_list(children[0].children));
        assert(lfold(name, key, children) == lfold(name.push('/') + children[0].name, children[0].key, children[0].children));
    }
}

proof fn lemma_lcollapse_leaves(n: LNodeV)
    ensures
        lleaves(lcollapse(n)) =~= lleaves(n),
    decreases lsize(n), 0nat,
{
    if n.file is None {
        lemma_lfold_size(n.name, n.key, n.children);
        let (name, key, children) = lfold(n.name, n.key, n.children);
        lemma_lfold_leaves(n.name, n.key, n.children);
        lemma_lcollapse_list_leaves(children);
    }
}

proof fn lemma_lcollapse_list_leaves(ns: Seq<LNodeV>)
    ensures
        lleaves_list(lcollapse_list(ns)) =~= lleaves_list(ns),
    decreases lsizes(ns), 1nat,
{
    if ns.len() > 0 {
        let pre = ns.subrange(0, ns.len() - 1);
        lemma_lsizes_elem(ns, ns.len() - 1);
        lemma_lcollapse_list_leaves(pre);
        lemma_lcollapse_leaves(ns[ns.len() - 1]);
        lemma_lleaves_push(lcollapse_list(pre), lcollapse(ns[ns.len() - 1]));
    }
}

proof fn lemma_lsort_seq_leaves(ns: Seq<LNodeV>)
    ensures
        lleaves_list(lsort_seq(ns)) =~= lleaves_list(ns),
    decreases ns.len(),
{
    broadcast use vstd::multiset::group_multiset_axioms;
    if ns.len() > 0 {
        let pre = ns.drop_last();
        lemma_lsort_seq_leaves(pre);
        let s = lsort_seq(pre);
        lemma_lins_pos(s, ns.last());
        lemma_lleaves_insert(s, lins_pos(s, ns.last()) as int, ns.last());
        assert(ns =~= pre.push(ns.last()));
        lemma_lleaves_push(pre, ns.last());
    }
}

proof fn lemma_lsorted_leaves(n: LNodeV)
    ensures
        lleaves(lsorted(n)) =~= lleaves(n),
    decreases lsize(n), 0nat,
{
    if n.file is None {
        lemma_lsorted_list_leaves(n.children);
        lemma_lsort_seq_leaves(lsorted_list(n.children));
    }
}

proof fn lemma_lsorted_list_leaves(ns: Seq<LNodeV>)
    ensures
        lleaves_list(lsorted_list(ns)) =~= lleaves_list(ns),
    decreases lsizes(ns), 1nat,
{
    if ns.len() > 0 {
        let pre = ns.subrange(0, ns.len() - 1);
        lemma_lsizes_elem(ns, ns.len() - 1);
        lemma_lsorted_list_leaves(pre);
        lemma_lsorted_leaves(ns[ns.len() - 1]);
        lemma_lleaves_push(lsorted_list(pre), lsorted(ns[ns.len() - 1]));
    }
}

/// With nothing collapsed, the file rows are exactly the leaves.
proof fn lemma_lflat_leaves(ns: Seq<LNodeV>, depth: nat)
    ensures
        lrow_files(lflat_list(ns, depth, Set::empty())) =~= lleaves_list(ns),
    decreases lsizes(ns), 1nat,
{
    if ns.len() > 0 {
        let pre = ns.subrange(0, ns.len() - 1);
        let last = ns[ns.len() - 1];
        lemma_lsizes_elem(ns, ns.len() - 1);
        lemma_lflat_leaves(pre, depth);
        lemma_lrow_files_concat(lflat_list(pre, depth, Set::empty()), lflat_node(last, depth, Set::empty()));
        lemma_lflat_node_leaves(last, depth);
    }
}

proof fn lemma_lflat_node_leaves(n: LNodeV, depth: nat)
    ensures
        lrow_files(lflat_node(n, depth, Set::empty())) =~= lleaves(n),
    decreases lsize(n), 0nat,
{
    broadcast use vstd::multiset::group_multiset_axioms;
    let r = lflat_node(n, depth, Set::empty());
    match n.file {
        Some(i) => {
            assert(r.drop_last() =~= Seq::<LRowV>::empty());
            assert(lrow_files(r.drop_last()) =~= Multiset::empty());
        },
        None => {
            let row = LRowV { depth, name: n.name, file: None, key: n.key, expanded: true };
            assert(!Set::<Seq<char>>::empty().contains(n.key));
            lemma_lflat_leaves(n.children, depth + 1);
            let rest = lflat_list(n.children, depth + 1, Set::empty());
            assert(r == seq![row] + rest);
            lemma_lrow_files_concat(seq![row], rest);
            assert(seq![row].drop_last() =~= Seq::<LRowV>::empty());
            assert(lrow_files(seq![row].drop_last()) =~= Multiset::empty());
            assert(lrow_files(seq![row]) =~= Multiset::empty());
        },
    }
}

/// With no folder collapsed, every file whose path names something is
/// exactly one file row, and no other row names a file.
pub proof fn law_every_file_has_one_row(files: Seq<FileV>)
    ensures
        lrow_files(lower_rows_of(files, Set::empty())) =~= named_files(files),
{
    let forest = lforest(files);
    lemma_lforest_leaves(files);
    lemma_lcollapse_list_leaves(forest);
    lemma_lsorted_list_leaves(lcollapse_list(forest));
    lemma_lsort_seq_leaves(lsorted_list(lcollapse_list(forest)));
    lemma_lflat_leaves(lsort_seq(lsorted_list(lcollapse_list(forest))), 0);
}

/// No two folders of one level share a name.
pub open spec fn one_folder_per_name(ns: Seq<LNodeV>) -> bool {
    forall|i: int, j: int|
        0 <= i < j < ns.len() && (#[trigger] ns[i]).file is None && (#[trigger] ns[j]).file is None ==> ns[i].name
            != ns[j].name
}

/// A node whose levels, all the way down, hold one folder per name.
pub open spec fn lunique(n: LNodeV) -> bool
    decreases lsize(n), 0nat,
{
    one_folder_per_name(n.children) && lunique_list(n.children)
}

pub open spec fn lunique_list(ns: Seq<LNodeV>) -> bool
    decreases lsizes(ns), 1nat,
{
    if ns.len() == 0 {
        true
    } else {
        proof {
            lemma_lsizes_elem(ns, ns.len() - 1);
        }
        lunique_list(ns.subrange(0, ns.len() - 1)) && lunique(ns[ns.len() - 1])
    }
}

proof fn lemma_lunique_list(ns: Seq<LNodeV>)
    ensures
        lunique_list(ns) <==> forall|i: int| 0 <= i < ns.len() ==> #[trigger] lunique(ns[i]),
    decreases ns.len(),
{
    if ns.len() > 0 {
        let pre = ns.subrange(0, ns.len() - 1);
        lemma_lunique_list(pre);
        if lunique_list(ns) {
            assert forall|i: int| 0 <= i < ns.len() implies #[trigger] lunique(ns[i]) by {
                if i < ns.len() - 1 {
                    assert(lunique(pre[i]));
                    assert(ns[i] == pre[i]);
                }
            }
        }
        if forall|i: int| 0 <= i < ns.len() ==> #[trigger] lunique(ns[i]) {
            assert forall|i: int| 0 <= i < pre.len() implies #[trigger] lunique(pre[i]) by {
                assert(lunique(ns[i]));
                assert(ns[i] == pre[i]);
            }
            assert(lunique(ns[ns.len() - 1]));
        }
    }
}

/// A forest with one folder per name at every level.
pub open spec fn lforest_ok(ns: Seq<LNodeV>) -> bool {
    one_folder_per_name(ns) && lunique_list(ns)
}

/// Adding a path to a forest with one folder per name at every level keeps
/// it so: the path follows the folder of each name that is already there
/// and adds one only where there is none.
pub proof fn law_lins_keeps_one_folder_per_name(ns: Seq<LNodeV>, comps: Seq<Seq<char>>, prefix: Seq<char>, idx: usize)
    requires
        lforest_ok(ns),
    ensures
        lforest_ok(lins(ns, comps, prefix, idx)),
    decreases comps.len(),
{
    lemma_lunique_list(ns);
    let r = lins(ns, comps, prefix, idx);
    if comps.len() == 0 {
        return;
    }
    let key = join_key(prefix, comps[0]);
    if comps.len() == 1 {
        let leaf = LNodeV { name: comps[0], file: Some(idx), key, children: Seq::empty() };
        assert(lunique(leaf));
        assert(r == ns.push(leaf));
        lemma_lunique_list(r);
        assert forall|i: int| 0 <= i < r.len() implies #[trigger] lunique(r[i]) by {
            if i < ns.len() {
                assert(r[i] == ns[i]);
            }
        }
        return;
    }
    lemma_find_lfolder(ns, comps[0]);
    match find_lfolder(ns, comps[0]) {
        Some(p) => {
            let old_n = ns[p];
            assert(lunique(old_n));
            lemma_lunique_list(old_n.children);
            law_lins_keeps_one_folder_per_name(old_n.children, comps.drop_first(), key, idx);
            let new_n = LNodeV { children: lins(old_n.children, comps.drop_first(), key, idx), ..old_n };
            assert(lunique(new_n));
            assert(r == ns.update(p, new_n));
            lemma_lunique_list(r);
            assert forall|i: int| 0 <= i < r.len() implies #[trigger] lunique(r[i]) by {
                if i != p {
                    assert(r[i] == ns[i]);
                }
            }
            assert forall|i: int, j: int|
                0 <= i < j < r.len() && (#[trigger] r[i]).file is None && (#[trigger] r[j]).file is None implies r[i].name
                != r[j].name by {
                assert(r[i].name == ns[i].name && r[i].file == ns[i].file);
                assert(r[j].name == ns[j].name && r[j].file == ns[j].file);
                assert(ns[i].file is None && ns[j].file is None);
            }
        },
        None => {
            assert(lforest_ok(Seq::<LNodeV>::empty())) by {
                lemma_lunique_list(Seq::<LNodeV>::empty());
            }
            law_lins_keeps_one_folder_per_name(Seq::empty(), comps.drop_first(), key, idx);
            let kids = lins(Seq::empty(), comps.drop_first(), key, idx);
            lemma_lunique_list(kids);
            let folder = LNodeV { name: comps[0], file: None, key, children: kids };
            assert(lunique(folder));
            assert(r == ns.push(folder));
            lemma_lunique_list(r);
            assert forall|i: int| 0 <= i < r.len() implies #[trigger] lunique(r[i]) by {
                if i < ns.len() {
                    assert(r[i] == ns[i]);
                }
            }
            assert forall|i: int, j: int|
                0 <= i < j < r.len() && (#[trigger] r[i]).file is None && (#[trigger] r[j]).file is None implies r[i].name
                != r[j].name by {
                assert(r[i] == ns[i]);
                if j < ns.len() {
                    assert(r[j] == ns[j]);
                } else {
                    assert(!(ns[i].file is None && ns[i].name == comps[0]));
                }
            }
        },
    }
}

/// A path with no components (such as `""` or `"//"`) adds nothing.
pub proof fn law_no_components_adds_nothing(files: Seq<FileV>, f: FileV)
    requires
        components(f.path).len() == 0,
    ensures
        lforest(files.push(f)) == lforest(files),
{
    assert(files.push(f).drop_last() =~= files);
}

/// The forest of any diff holds one folder per name at every level.
pub proof fn law_lforest_one_folder_per_name(files: Seq<FileV>)
    ensures
        lforest_ok(lforest(files)),
    decreases files.len(),
{
    if files.len() == 0 {
        lemma_lunique_list(Seq::<LNodeV>::empty());
    } else {
        law_lforest_one_folder_per_name(files.drop_last());
        law_lins_keeps_one_folder_per_name(
            lforest(files.drop_last()),
            components(files.last().path),
            Seq::empty(),
            (files.len() - 1) as usize,
        );
    }
}

/// The key a path gets below `prefix`: its components joined with `/`.
pub open spec fn joined_from(prefix: Seq<char>, comps: Seq<Seq<char>>) -> Seq<char>
    decreases comps.len(),
{
    if comps.len() == 0 {
        prefix
    } else {
        joined_from(join_key(prefix, comps[0]), comps.drop_first())
    }
}

/// The level reached from `ns` by following, one name after the other, the
/// first folder of that name.
pub open spec fn follow(ns: Seq<LNodeV>, names: Seq<Seq<char>>) -> Option<Seq<LNodeV>>
    decreases names.len(),
{
    if names.len() == 0 {
        Some(ns)
    } else {
        match find_lfolder(ns, names[0]) {
            Some(p) => follow(ns[p].children, names.drop_first()),
            None => None,
        }
    }
}

proof fn lemma_find_lfolder_at(ns: Seq<LNodeV>, c: Seq<char>, p: int)
    requires
        0 <= p < ns.len(),
        ns[p].file is None && ns[p].name == c,
        forall|j: int| 0 <= j < p ==> !((#[trigger] ns[j]).file is None && ns[j].name == c),
    ensures
        find_lfolder(ns, c) == Some(p),
{
    lemma_find_lfolder(ns, c);
    match find_lfolder(ns, c) {
        Some(q) => {
            if q < p {
                assert(!(ns[q].file is None && ns[q].name == c));
            } else if q > p {
                assert(!(ns[p].file is None && ns[p].name == c));
            }
        },
        None => {
            assert(!(ns[p].file is None && ns[p].name == c));
        },
    }
}

/// A path without components (such as `""` or `"//"`) leaves the forest as
/// it was.
pub proof fn law_insert_without_components(ns: Seq<LNodeV>, prefix: Seq<char>, idx: usize)
    ensures
        lins(ns, Seq::empty(), prefix, idx) == ns,
{
}

/// Adding a path keeps the nodes already at the top level, in their order,
/// with their names, files and keys, and adds at most one node after them.
pub proof fn law_insert_keeps_level(ns: Seq<LNodeV>, comps: Seq<Seq<char>>, prefix: Seq<char>, idx: usize)
    ensures
        ns.len() <= lins(ns, comps, prefix, idx).len() <= ns.len() + 1,
        forall|i: int|
            0 <= i < ns.len() ==> (#[trigger] lins(ns, comps, prefix, idx)[i]).name == ns[i].name && lins(
                ns,
                comps,
                prefix,
                idx,
            )[i].file == ns[i].file && lins(ns, comps, prefix, idx)[i].key == ns[i].key,
{
    if comps.len() > 1 {
        lemma_find_lfolder(ns, comps[0]);
    }
}

/// Adding a path with components `c1, ..., cn` appends, at the level reached
/// by following the folders `c1, ..., c(n-1)` (made where missing), one file
/// node named `cn` for the file, with no children, keyed by the components
/// joined with `/` after `prefix`.
pub proof fn law_insert_appends_leaf(ns: Seq<LNodeV>, comps: Seq<Seq<char>>, prefix: Seq<char>, idx: usize)
    requires
        comps.len() >= 1,
    ensures
        ({
            let r = lins(ns, comps, prefix, idx);
            match follow(r, comps.drop_last()) {
                Some(level) => level.len() > 0 && level.last() == (LNodeV {
                    name: comps.last(),
                    file: Some(idx),
                    key: joined_from(prefix, comps),
                    children: Seq::empty(),
                }),
                None => false,
            }
        }),
    decreases comps.len(),
{
    let r = lins(ns, comps, prefix, idx);
    let key = join_key(prefix, comps[0]);
    if comps.len() == 1 {
        assert(comps.drop_last() =~= Seq::<Seq<char>>::empty());
        assert(comps.drop_first() =~= Seq::<Seq<char>>::empty());
        assert(joined_from(prefix, comps) == joined_from(key, comps.drop_first()));
        assert(comps.last() == comps[0]);
    } else {
        let rest = comps.drop_first();
        law_insert_appends_leaf(
            match find_lfolder(ns, comps[0]) {
                Some(p) => ns[p].children,
                None => Seq::empty(),
            },
            rest,
            key,
            idx,
        );
        assert(rest.drop_last() =~= comps.drop_last().drop_first());
        assert(rest.last() == comps.last());
        assert(comps.drop_last()[0] == comps[0]);
        lemma_find_lfolder(ns, comps[0]);
        match find_lfolder(ns, comps[0]) {
            Some(p) => {
                assert forall|j: int| 0 <= j < p implies !((#[trigger] r[j]).file is None && r[j].name == comps[0]) by {
                    assert(r[j] == ns[j]);
                }
                lemma_find_lfolder_at(r, comps[0], p);
            },
            None => {
                let q = ns.len() as int;
                assert forall|j: int| 0 <= j < q implies !((#[trigger] r[j]).file is None && r[j].name == comps[0]) by {
                    assert(r[j] == ns[j]);
                }
                lemma_find_lfolder_at(r, comps[0], q);
            },
        }
    }
}

} // verus!
