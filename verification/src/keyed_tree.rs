//! The file tree keyed by path component: children kept in the order of
//! their names, as a sorted map keeps them, folders folded while they hold a
//! single subfolder, and the rows of a folder the user collapsed left out.

use vstd::prelude::*;
use vstd::multiset::Multiset;
use crate::model::{files_view, FileDiff, FileV};
use crate::nested_tree::named_files;
use crate::paths::{components, path_components, same_chars};
use crate::text::{chars_of, push_all, push_char, string_of};

verus! {

/// The order of two characters: by code point.
pub open spec fn char_lt(a: char, b: char) -> bool {
    (a as int) < (b as int)
}

/// The order of strings: character by character, a proper prefix first.
/// On UTF-8 this is the byte order that `String`'s `Ord` uses.
pub open spec fn str_lt(a: Seq<char>, b: Seq<char>) -> bool
    decreases a.len(),
{
    if b.len() == 0 {
        false
    } else if a.len() == 0 {
        true
    } else if a[0] != b[0] {
        char_lt(a[0], b[0])
    } else {
        str_lt(a.drop_first(), b.drop_first())
    }
}

pub proof fn lemma_str_lt_irreflexive(a: Seq<char>)
    ensures
        !str_lt(a, a),
    decreases a.len(),
{
    if a.len() > 0 {
        lemma_str_lt_irreflexive(a.drop_first());
    }
}

pub proof fn lemma_str_lt_transitive(a: Seq<char>, b: Seq<char>, c: Seq<char>)
    requires
        str_lt(a, b),
        str_lt(b, c),
    ensures
        str_lt(a, c),
    decreases a.len(),
{
    if a.len() > 0 && b.len() > 0 && c.len() > 0 && a[0] == b[0] && b[0] == c[0] {
        lemma_str_lt_transitive(a.drop_first(), b.drop_first(), c.drop_first());
    }
}

pub proof fn lemma_str_lt_total(a: Seq<char>, b: Seq<char>)
    requires
        a != b,
    ensures
        str_lt(a, b) || str_lt(b, a),
    decreases a.len(),
{
    if a.len() > 0 && b.len() > 0 && a[0] == b[0] {
        if a.drop_first() == b.drop_first() {
            assert(a =~= seq![a[0]] + a.drop_first());
            assert(b =~= seq![b[0]] + b.drop_first());
        }
        lemma_str_lt_total(a.drop_first(), b.drop_first());
    } else if a.len() == 0 && b.len() == 0 {
        assert(a =~= b);
    } else if a.len() > 0 && b.len() > 0 {
        assert((a[0] as int) != (b[0] as int));
    }
}

pub proof fn lemma_str_lt_asymmetric(a: Seq<char>, b: Seq<char>)
    requires
        str_lt(a, b),
    ensures
        !str_lt(b, a),
{
    if str_lt(b, a) {
        lemma_str_lt_transitive(a, b, a);
        lemma_str_lt_irreflexive(a);
    }
}

/// Whether `a` orders before `b`.
pub fn less_chars(a: &Vec<char>, b: &Vec<char>) -> (r: bool)
    ensures
        r == str_lt(a@, b@),
{
    let mut i: usize = 0;
    assert(a@.skip(0) =~= a@ && b@.skip(0) =~= b@);
    while i < a.len() && i < b.len() && a[i] == b[i]
        invariant
            i <= a@.len(),
            i <= b@.len(),
            str_lt(a@.skip(i as int), b@.skip(i as int)) == str_lt(a@, b@),
        decreases a@.len() - i,
    {
        proof {
            assert(a@.skip(i as int).drop_first() =~= a@.skip(i + 1));
            assert(b@.skip(i as int).drop_first() =~= b@.skip(i + 1));
        }
        i = i + 1;
    }
    if i == b.len() {
        assert(b@.skip(i as int).len() == 0);
        false
    } else if i == a.len() {
        assert(a@.skip(i as int).len() == 0);
        true
    } else {
        assert(a@.skip(i as int)[0] == a@[i as int]);
        assert(b@.skip(i as int)[0] == b@[i as int]);
        a[i] < b[i]
    }
}

/// A node of the component tree: its name, the files whose paths end there
/// (in diff order), and its children in name order.
pub struct KNode {
    pub name: String,
    pub files: Vec<usize>,
    pub children: Vec<KNode>,
}

pub struct KNodeV {
    pub name: Seq<char>,
    pub files: Seq<usize>,
    pub children: Seq<KNodeV>,
}

pub open spec fn knode_view(n: KNode) -> KNodeV
    decreases n,
{
    KNodeV { name: n.name@, files: n.files@, children: knodes_view(n.children@) }
}

pub open spec fn knodes_view(s: Seq<KNode>) -> Seq<KNodeV>
    decreases s,
{
    if s.len() == 0 {
        Seq::empty()
    } else {
        knodes_view(s.subrange(0, s.len() - 1)).push(knode_view(s[s.len() - 1]))
    }
}

pub proof fn lemma_knodes_view(s: Seq<KNode>)
    ensures
        knodes_view(s).len() == s.len(),
        forall|i: int| 0 <= i < s.len() ==> #[trigger] knodes_view(s)[i] == knode_view(s[i]),
    decreases s.len(),
{
    if s.len() > 0 {
        lemma_knodes_view(s.subrange(0, s.len() - 1));
        assert forall|i: int| 0 <= i < s.len() implies #[trigger] knodes_view(s)[i] == knode_view(s[i]) by {
            if i < s.len() - 1 {
                assert(s.subrange(0, s.len() - 1)[i] == s[i]);
            }
        }
    }
}

/// The number of children that order before `c`, counted from the front:
/// where `c` is found, or goes, in a list kept in name order.
pub open spec fn lower(ns: Seq<KNodeV>, c: Seq<char>) -> nat
    decreases ns.len(),
{
    if ns.len() == 0 {
        0
    } else if str_lt(ns[0].name, c) {
        1 + lower(ns.drop_first(), c)
    } else {
        0
    }
}

pub open spec fn empty_node(c: Seq<char>) -> KNodeV {
    KNodeV { name: c, files: Seq::empty(), children: Seq::empty() }
}

/// Adds the path `comps` for file `idx`: each component is the child of
/// that name, made empty where there is none, and the last one adds the file
/// to its own files.
pub open spec fn add_path(ns: Seq<KNodeV>, comps: Seq<Seq<char>>, idx: usize) -> Seq<KNodeV>
    decreases comps.len(),
{
    if comps.len() == 0 {
        ns
    } else {
        let c = comps[0];
        let p = lower(ns, c) as int;
        let found = p < ns.len() && ns[p].name == c;
        let base = if found {
            ns[p]
        } else {
            empty_node(c)
        };
        let node = if comps.len() == 1 {
            KNodeV { files: base.files.push(idx), ..base }
        } else {
            KNodeV { children: add_path(base.children, comps.drop_first(), idx), ..base }
        };
        if found {
            ns.update(p, node)
        } else {
            ns.insert(p, node)
        }
    }
}

/// The position at which `c` is found or goes among the children.
fn lower_pos(ns: &Vec<KNode>, c: &Vec<char>) -> (p: usize)
    ensures
        p as int == lower(knodes_view(ns@), c@),
        p <= ns@.len(),
{
    let ghost vs = knodes_view(ns@);
    proof {
        lemma_knodes_view(ns@);
    }
    let mut p: usize = 0;
    assert(vs.skip(0) =~= vs);
    while p < ns.len() && less_chars(&chars_of(ns[p].name.as_str()), c)
        invariant
            vs == knodes_view(ns@),
            vs.len() == ns@.len(),
            forall|j: int| 0 <= j < ns@.len() ==> #[trigger] vs[j] == knode_view(ns@[j]),
            p <= ns@.len(),
            lower(vs, c@) == p + lower(vs.skip(p as int), c@),
        decreases ns@.len() - p,
    {
        proof {
            assert(vs.skip(p as int)[0] == vs[p as int]);
            assert(vs.skip(p as int).drop_first() =~= vs.skip(p + 1));
        }
        p = p + 1;
    }
    proof {
        if p < ns@.len() {
            assert(vs.skip(p as int)[0] == vs[p as int]);
        }
    }
    p
}

pub open spec fn chars_view(v: Seq<Vec<char>>) -> Seq<Seq<char>> {
    v.map_values(|c: Vec<char>| c@)
}

/// Adds the components `comps[from..]` of file `idx` under `ns`.
fn add_path_exec(ns: &mut Vec<KNode>, comps: &Vec<Vec<char>>, from: usize, idx: usize)
    requires
        from <= comps@.len(),
    ensures
        knodes_view(final(ns)@) == add_path(knodes_view(old(ns)@), chars_view(comps@).skip(from as int), idx),
    decreases comps@.len() - from,
{
    let ghost cs = chars_view(comps@).skip(from as int);
    let ghost vs = knodes_view(ns@);
    proof {
        lemma_knodes_view(ns@);
    }
    if from == comps.len() {
        assert(cs.len() == 0);
        return;
    }
    assert(cs[0] == comps@[from as int]@);
    assert(cs.drop_first() =~= chars_view(comps@).skip(from + 1));
    let c = &comps[from];
    let p = lower_pos(ns, c);
    let found = p < ns.len() && same_chars(&chars_of(ns[p].name.as_str()), c);
    let ghost before = ns@;
    let mut node = if found {
        ns.remove(p)
    } else {
        KNode { name: string_of(c), files: Vec::new(), children: Vec::new() }
    };
    proof {
        if found {
            assert(knode_view(node) == vs[p as int]);
        } else {
            assert(knodes_view(Seq::<KNode>::empty()) =~= Seq::<KNodeV>::empty());
            assert(knode_view(node) == empty_node(cs[0]));
        }
    }
    let ghost base = knode_view(node);
    if from + 1 == comps.len() {
        node.files.push(idx);
        assert(knode_view(node) == KNodeV { files: base.files.push(idx), ..base });
    } else {
        let ghost kids = knodes_view(node.children@);
        add_path_exec(&mut node.children, comps, from + 1, idx);
        assert(knode_view(node) == KNodeV {
            children: add_path(base.children, cs.drop_first(), idx),
            ..base
        });
    }
    ns.insert(p, node);
    proof {
        lemma_knodes_view(ns@);
        if found {
            assert(knodes_view(ns@) =~= add_path(vs, cs, idx));
        } else {
            assert(knodes_view(ns@) =~= add_path(vs, cs, idx));
        }
    }
}

/// The component tree of the files, added in diff order.
pub open spec fn keyed_tree(files: Seq<FileV>) -> Seq<KNodeV>
    decreases files.len(),
{
    if files.len() == 0 {
        Seq::empty()
    } else {
        add_path(
            keyed_tree(files.drop_last()),
            components(files.last().path),
            (files.len() - 1) as usize,
        )
    }
}

/// Builds the component tree of a diff's files.
pub fn build_keyed_tree(files: &Vec<FileDiff>) -> (roots: Vec<KNode>)
    ensures
        knodes_view(roots@) == keyed_tree(files_view(files@)),
{
    let ghost fs = files_view(files@);
    let mut roots: Vec<KNode> = Vec::new();
    let mut i: usize = 0;
    while i < files.len()
        invariant
            fs == files_view(files@),
            i <= files@.len(),
            knodes_view(roots@) == keyed_tree(fs.take(i as int)),
        decreases files@.len() - i,
    {
        proof {
            assert(fs.take(i + 1).drop_last() =~= fs.take(i as int));
            assert(fs.take(i + 1).last() == files@[i as int]@);
        }
        let comps = path_components(files[i].path.as_str());
        assert(chars_view(comps@).skip(0) =~= components(files@[i as int].path@));
        add_path_exec(&mut roots, &comps, 0, i);
        i = i + 1;
    }
    assert(fs.take(files@.len() as int) =~= fs);
    roots
}

/// The number of nodes of a component tree.
pub open spec fn size_k(n: KNodeV) -> nat
    decreases n,
{
    1 + size_ks(n.children)
}

pub open spec fn size_ks(ns: Seq<KNodeV>) -> nat
    decreases ns,
{
    if ns.len() == 0 {
        0
    } else {
        size_ks(ns.subrange(0, ns.len() - 1)) + size_k(ns[ns.len() - 1])
    }
}

/// Each node of a list is no larger than the list.
pub proof fn lemma_size_ks_elem(ns: Seq<KNodeV>, i: int)
    requires
        0 <= i < ns.len(),
    ensures
        size_k(ns[i]) <= size_ks(ns),
        ns.len() == 1 ==> size_ks(ns) == size_k(ns[0]),
    decreases ns.len(),
{
    if i < ns.len() - 1 {
        lemma_size_ks_elem(ns.subrange(0, ns.len() - 1), i);
    }
    if ns.len() == 1 {
        assert(size_ks(ns.subrange(0, 0)) == 0);
    }
}

/// A folder's shown name and key after folding: while it has one child, no
/// file of its own, and that child has children but no file of its own, the
/// child's name joins it.
pub open spec fn fold_keyed(disp: Seq<char>, key: Seq<char>, n: KNodeV) -> (Seq<char>, Seq<char>, KNodeV)
    decreases size_k(n),
{
    if n.children.len() == 1 && n.files.len() == 0 && n.children[0].children.len() > 0 && n.children[0].files.len() == 0 {
        proof {
            lemma_size_ks_elem(n.children, 0);
        }
        fold_keyed(
            disp.push('/') + n.children[0].name,
            key.push('/') + n.children[0].name,
            n.children[0],
        )
    } else {
        (disp, key, n)
    }
}

pub proof fn lemma_fold_keyed_size(disp: Seq<char>, key: Seq<char>, n: KNodeV)
    ensures
        size_k(fold_keyed(disp, key, n).2) <= size_k(n),
    decreases size_k(n),
{
    if n.children.len() == 1 && n.files.len() == 0 && n.children[0].children.len() > 0 && n.children[0].files.len() == 0 {
        lemma_size_ks_elem(n.children, 0);
        lemma_fold_keyed_size(disp.push('/') + n.children[0].name, key.push('/') + n.children[0].name, n.children[0]);
    }
}

/// The key of a folder: its name under the key of its parent.
pub open spec fn join_key(prefix: Seq<char>, name: Seq<char>) -> Seq<char> {
    if prefix.len() == 0 {
        name
    } else {
        prefix.push('/') + name
    }
}

/// One row of the keyed tree.
pub struct KRow {
    pub depth: usize,
    /// The file of a leaf; `None` for a folder.
    pub file: Option<usize>,
    pub name: String,
    /// The full key of a folder (empty for a file), by which it is collapsed.
    pub key: String,
    pub expanded: bool,
}

pub struct KRowV {
    pub depth: nat,
    pub file: Option<usize>,
    pub name: Seq<char>,
    pub key: Seq<char>,
    pub expanded: bool,
}

impl View for KRow {
    type V = KRowV;

    open spec fn view(&self) -> KRowV {
        KRowV {
            depth: self.depth as nat,
            file: self.file,
            name: self.name@,
            key: self.key@,
            expanded: self.expanded,
        }
    }
}

pub open spec fn krows_view(rows: Seq<KRow>) -> Seq<KRowV> {
    rows.map_values(|r: KRow| r@)
}

/// The set of collapsed folder keys.
pub open spec fn key_set(keys: Seq<String>) -> Set<Seq<char>> {
    Set::new(|k: Seq<char>| exists|i: int| 0 <= i < keys.len() && #[trigger] keys[i]@ == k)
}

/// One file row for each file of the node, under the node's name.
pub open spec fn own_rows(n: KNodeV, depth: nat) -> Seq<KRowV> {
    n.files.map_values(|i: usize| KRowV { depth, file: Some(i), name: n.name, key: Seq::empty(), expanded: false })
}

/// The rows of a node: a file row for each of its own files; then, when it
/// has children or no file, a folder row (its name ending in `/`) followed,
/// unless its key is collapsed, by the rows of its children one level deeper.
pub open spec fn walk_node(n: KNodeV, prefix: Seq<char>, depth: nat, collapsed: Set<Seq<char>>) -> Seq<KRowV>
    decreases size_k(n), 0nat,
{
    if n.files.len() > 0 && n.children.len() == 0 {
        own_rows(n, depth)
    } else {
        proof {
            lemma_fold_keyed_size(n.name, join_key(prefix, n.name), n);
        }
        let (disp, key, cur) = fold_keyed(n.name, join_key(prefix, n.name), n);
        let expanded = !collapsed.contains(key);
        let row = KRowV { depth, file: None, name: disp.push('/'), key, expanded };
        own_rows(n, depth) + if expanded {
            seq![row] + walk_list(cur.children, key, depth + 1, collapsed)
        } else {
            seq![row]
        }
    }
}

pub open spec fn walk_list(ns: Seq<KNodeV>, prefix: Seq<char>, depth: nat, collapsed: Set<Seq<char>>) -> Seq<KRowV>
    decreases size_ks(ns), 1nat,
{
    if ns.len() == 0 {
        Seq::empty()
    } else {
        proof {
            lemma_size_ks_elem(ns, ns.len() - 1);
        }
        walk_list(ns.subrange(0, ns.len() - 1), prefix, depth, collapsed) + walk_node(
            ns[ns.len() - 1],
            prefix,
            depth,
            collapsed,
        )
    }
}

/// Whether `key` is among the collapsed keys.
pub fn is_collapsed(collapsed: &Vec<String>, key: &Vec<char>) -> (r: bool)
    ensures
        r == key_set(collapsed@).contains(key@),
{
    let mut i: usize = 0;
    while i < collapsed.len()
        invariant
            i <= collapsed@.len(),
            forall|j: int| 0 <= j < i ==> (#[trigger] collapsed@[j])@ != key@,
        decreases collapsed@.len() - i,
    {
        if same_chars(&chars_of(collapsed[i].as_str()), key) {
            assert(key_set(collapsed@).contains(key@));
            return true;
        }
        i = i + 1;
    }
    false
}

pub fn concat_slash(a: &Vec<char>, b: &Vec<char>) -> (r: Vec<char>)
    ensures
        r@ == a@.push('/') + b@,
{
    let mut r: Vec<char> = Vec::new();
    let mut i: usize = 0;
    while i < a.len()
        invariant
            i <= a@.len(),
            r@ == a@.take(i as int),
        decreases a@.len() - i,
    {
        r.push(a[i]);
        assert(a@.take(i + 1) =~= a@.take(i as int).push(a@[i as int]));
        i = i + 1;
    }
    r.push('/');
    let mut j: usize = 0;
    while j < b.len()
        invariant
            j <= b@.len(),
            r@ == a@.push('/') + b@.take(j as int),
        decreases b@.len() - j,
    {
        r.push(b[j]);
        assert(b@.take(j + 1) =~= b@.take(j as int).push(b@[j as int]));
        j = j + 1;
    }
    assert(a@.take(a@.len() as int) =~= a@);
    assert(b@.take(b@.len() as int) =~= b@);
    r
}

/// Appends the rows of node `n` under the folder key `prefix`.
fn walk(n: &KNode, prefix: &Vec<char>, depth: usize, collapsed: &Vec<String>, rows: &mut Vec<KRow>)
    requires
        depth <= old(rows)@.len(),
    ensures
        krows_view(final(rows)@) == krows_view(old(rows)@) + walk_node(
            knode_view(*n),
            prefix@,
            depth as nat,
            key_set(collapsed@),
        ),
    decreases size_k(knode_view(*n)), 0nat,
{
    let ghost nv = knode_view(*n);
    let ghost start = krows_view(rows@);
    proof {
        lemma_knodes_view(n.children@);
    }
    let ghost own = own_rows(nv, depth as nat);
    for k in 0..n.files.len()
        invariant
            nv == knode_view(*n),
            own == own_rows(nv, depth as nat),
            depth <= rows@.len(),
            krows_view(rows@) == start + own.take(k as int),
    {
        let row = KRow { depth, file: Some(n.files[k]), name: string_of(&chars_of(n.name.as_str())), key: String::new(), expanded: false };
        let ghost before = rows@;
        rows.push(row);
        assert(krows_view(rows@) =~= krows_view(before).push(row@));
        assert(own.take(k + 1) =~= own.take(k as int).push(row@));
        assert(krows_view(rows@) =~= start + own.take(k + 1));
    }
    assert(own.take(n.files@.len() as int) =~= own);
    let ghost mid = krows_view(rows@);
    if n.files.len() > 0 && n.children.len() == 0 {
        assert(krows_view(rows@) =~= start + walk_node(nv, prefix@, depth as nat, key_set(collapsed@)));
        return;
    }
    let name = chars_of(n.name.as_str());
    let mut disp = chars_of(n.name.as_str());
    let mut key = if prefix.len() == 0 {
        chars_of(n.name.as_str())
    } else {
        concat_slash(prefix, &name)
    };
    let mut cur: &KNode = n;
    proof {
        lemma_fold_keyed_size(name@, key@, nv);
    }
    while cur.children.len() == 1 && cur.files.len() == 0 && cur.children[0].children.len() > 0 && cur.children[0].files.len() == 0
        invariant
            fold_keyed(disp@, key@, knode_view(*cur)) == fold_keyed(name@, join_key(prefix@, name@), nv),
            size_k(knode_view(*cur)) <= size_k(nv),
        decreases size_k(knode_view(*cur)),
    {
        proof {
            lemma_knodes_view(cur.children@);
            lemma_knodes_view(cur.children@[0].children@);
            lemma_size_ks_elem(knodes_view(cur.children@), 0);
        }
        let child = &cur.children[0];
        let cname = chars_of(child.name.as_str());
        disp = concat_slash(&disp, &cname);
        key = concat_slash(&key, &cname);
        cur = child;
    }
    proof {
        lemma_knodes_view(cur.children@);
        if cur.children@.len() == 1 {
            lemma_knodes_view(cur.children@[0].children@);
        }
        assert(fold_keyed(disp@, key@, knode_view(*cur)) == (disp@, key@, knode_view(*cur)));
        lemma_fold_keyed_size(name@, join_key(prefix@, name@), nv);
    }
    let expanded = !is_collapsed(collapsed, &key);
    let mut shown_name = string_of(&disp);
    push_char(&mut shown_name, '/');
    let row = KRow { depth, file: None, name: shown_name, key: string_of(&key), expanded };
    rows.push(row);
    assert(depth < rows.len());
    assert(krows_view(rows@) =~= mid.push(row@));
    if expanded {
        walk_all(&cur.children, &key, depth + 1, collapsed, rows);
    }
    assert(krows_view(rows@) =~= start + walk_node(nv, prefix@, depth as nat, key_set(collapsed@)));
}

/// Appends the rows of every node of `ns`, in order.
fn walk_all(ns: &Vec<KNode>, prefix: &Vec<char>, depth: usize, collapsed: &Vec<String>, rows: &mut Vec<KRow>)
    requires
        depth <= old(rows)@.len(),
    ensures
        krows_view(final(rows)@) == krows_view(old(rows)@) + walk_list(
            knodes_view(ns@),
            prefix@,
            depth as nat,
            key_set(collapsed@),
        ),
    decreases size_ks(knodes_view(ns@)), 1nat,
{
    let ghost vs = knodes_view(ns@);
    let ghost start = krows_view(rows@);
    proof {
        lemma_knodes_view(ns@);
    }
    let mut i: usize = 0;
    while i < ns.len()
        invariant
            vs == knodes_view(ns@),
            vs.len() == ns@.len(),
            forall|j: int| 0 <= j < ns@.len() ==> #[trigger] vs[j] == knode_view(ns@[j]),
            i <= ns@.len(),
            depth <= rows@.len(),
            krows_view(rows@) == start + walk_list(vs.take(i as int), prefix@, depth as nat, key_set(collapsed@)),
        decreases ns@.len() - i,
    {
        proof {
            assert(vs.take(i + 1).subrange(0, i as int) =~= vs.take(i as int));
            assert(vs.take(i + 1)[i as int] == vs[i as int]);
            lemma_size_ks_elem(vs, i as int);
            assert(walk_list(vs.take(i + 1), prefix@, depth as nat, key_set(collapsed@)) == walk_list(
                vs.take(i as int),
                prefix@,
                depth as nat,
                key_set(collapsed@),
            ) + walk_node(vs[i as int], prefix@, depth as nat, key_set(collapsed@)));
        }
        let ghost before = rows@;
        walk(&ns[i], prefix, depth, collapsed, rows);
        assert(krows_view(rows@).len() == rows@.len() && krows_view(before).len() == before.len());
        i = i + 1;
    }
    assert(vs.take(ns@.len() as int) =~= vs);
}

/// The rows of the file panel: the component tree of the files, walked in
/// name order from the top, with the collapsed folders' contents left out.
pub open spec fn keyed_rows(files: Seq<FileV>, collapsed: Set<Seq<char>>) -> Seq<KRowV> {
    walk_list(keyed_tree(files), Seq::empty(), 0, collapsed)
}

/// Builds the rows of the file panel for a diff's files and the folders the
/// user collapsed.
pub fn tree_rows_keyed(files: &Vec<FileDiff>, collapsed: &Vec<String>) -> (rows: Vec<KRow>)
    ensures
        krows_view(rows@) == keyed_rows(files_view(files@), key_set(collapsed@)),
        collapsed@.len() == 0 ==> krow_files(krows_view(rows@)) =~= named_files(files_view(files@)),
{
    let roots = build_keyed_tree(files);
    let mut rows: Vec<KRow> = Vec::new();
    let top: Vec<char> = Vec::new();
    assert(top@ =~= Seq::<char>::empty());
    walk_all(&roots, &top, 0, collapsed, &mut rows);
    assert(krows_view(rows@) =~= keyed_rows(files_view(files@), key_set(collapsed@)));
    proof {
        if collapsed@.len() == 0 {
            assert(key_set(collapsed@) =~= Set::<Seq<char>>::empty());
            law_every_file_has_one_row(files_view(files@));
        }
    }
    rows
}

/// Flips a folder between collapsed and expanded: a collapsed key is taken
/// out, any other key is added.
pub fn toggle_folder(collapsed: &mut Vec<String>, key: &str)
    ensures
        key_set(final(collapsed)@) == (if key_set(old(collapsed)@).contains(key@) {
            key_set(old(collapsed)@).remove(key@)
        } else {
            key_set(old(collapsed)@).insert(key@)
        }),
{
    let ghost old_set = key_set(collapsed@);
    let k = chars_of(key);
    let mut kept: Vec<String> = Vec::new();
    let mut removed = false;
    let mut i: usize = 0;
    while i < collapsed.len()
        invariant
            old_set == key_set(collapsed@),
            i <= collapsed@.len(),
            k@ == key@,
            removed == (exists|j: int| 0 <= j < i && (#[trigger] collapsed@[j])@ == key@),
            forall|j: int| 0 <= j < kept@.len() ==> (#[trigger] kept@[j])@ != key@,
            forall|s: Seq<char>| s != key@ ==> (key_set(kept@).contains(s) <==> exists|j: int|
                0 <= j < i && (#[trigger] collapsed@[j])@ == s),
        decreases collapsed@.len() - i,
    {
        let c = chars_of(collapsed[i].as_str());
        if same_chars(&c, &k) {
            removed = true;
        } else {
            let ghost before = kept@;
            kept.push(string_of(&c));
            assert forall|s: Seq<char>| s != key@ implies (key_set(kept@).contains(s) <==> exists|j: int|
                0 <= j < i + 1 && (#[trigger] collapsed@[j])@ == s) by {
                if key_set(kept@).contains(s) {
                    let t = choose|t: int| 0 <= t < kept@.len() && #[trigger] kept@[t]@ == s;
                    if t < before.len() {
                        assert(key_set(before).contains(s));
                    }
                }
                if exists|j: int| 0 <= j < i + 1 && (#[trigger] collapsed@[j])@ == s {
                    let j = choose|j: int| 0 <= j < i + 1 && (#[trigger] collapsed@[j])@ == s;
                    if j < i {
                        assert(key_set(before).contains(s));
                        let t = choose|t: int| 0 <= t < before.len() && #[trigger] before[t]@ == s;
                        assert(kept@[t] == before[t]);
                    } else {
                        assert(kept@[before.len() as int]@ == s);
                    }
                }
            }
        }
        i = i + 1;
    }
    let ghost pre = kept@;
    if !removed {
        kept.push(string_of(&k));
    }
    proof {
        if removed {
            assert(old_set.contains(key@));
            assert forall|s: Seq<char>| key_set(kept@).contains(s) == old_set.remove(key@).contains(s) by {
                if s == key@ {
                    if key_set(kept@).contains(s) {
                        let t = choose|t: int| 0 <= t < kept@.len() && #[trigger] kept@[t]@ == s;
                    }
                }
            }
            assert(key_set(kept@) =~= old_set.remove(key@));
        } else {
            assert(!old_set.contains(key@));
            assert forall|s: Seq<char>| key_set(kept@).contains(s) == old_set.insert(key@).contains(s) by {
                if s == key@ {
                    assert(kept@[pre.len() as int]@ == key@);
                } else {
                    if key_set(kept@).contains(s) {
                        let t = choose|t: int| 0 <= t < kept@.len() && #[trigger] kept@[t]@ == s;
                        assert(t < pre.len());
                        assert(pre[t] == kept@[t]);
                        assert(key_set(pre).contains(s));
                    }
                    if old_set.contains(s) {
                        assert(key_set(pre).contains(s));
                        let t = choose|t: int| 0 <= t < pre.len() && #[trigger] pre[t]@ == s;
                        assert(kept@[t] == pre[t]);
                    }
                }
            }
            assert(key_set(kept@) =~= old_set.insert(key@));
        }
    }
    *collapsed = kept;
}

/// Toggling the same folder twice leaves the set of collapsed folders as it was.
pub proof fn law_toggle_folder_twice(keys: Set<Seq<char>>, key: Seq<char>)
    ensures
        ({
            let once = if keys.contains(key) {
                keys.remove(key)
            } else {
                keys.insert(key)
            };
            let twice = if once.contains(key) {
                once.remove(key)
            } else {
                once.insert(key)
            };
            twice == keys
        }),
{
    if keys.contains(key) {
        assert(keys.remove(key).insert(key) =~= keys);
    } else {
        assert(keys.insert(key).remove(key) =~= keys);
    }
}

/// Children named in strictly increasing order: no name twice.
pub open spec fn names_sorted(ns: Seq<KNodeV>) -> bool {
    forall|i: int, j: int| 0 <= i < j < ns.len() ==> str_lt(#[trigger] ns[i].name, #[trigger] ns[j].name)
}

/// Every level of the tree is in name order, as the sorted map it stands for.
pub open spec fn ksorted(n: KNodeV) -> bool
    decreases size_k(n), 0nat,
{
    ksorted_list(n.children)
}

pub open spec fn ksorted_list(ns: Seq<KNodeV>) -> bool
    decreases size_ks(ns), 2nat,
{
    names_sorted(ns) && ksorted_each(ns)
}

pub open spec fn ksorted_each(ns: Seq<KNodeV>) -> bool
    decreases size_ks(ns), 1nat,
{
    if ns.len() == 0 {
        true
    } else {
        proof {
            lemma_size_ks_elem(ns, ns.len() - 1);
        }
        ksorted_each(ns.subrange(0, ns.len() - 1)) && ksorted(ns[ns.len() - 1])
    }
}

proof fn lemma_ksorted_each(ns: Seq<KNodeV>)
    ensures
        ksorted_each(ns) <==> forall|i: int| 0 <= i < ns.len() ==> ksorted(#[trigger] ns[i]),
    decreases ns.len(),
{
    if ns.len() > 0 {
        let pre = ns.subrange(0, ns.len() - 1);
        lemma_ksorted_each(pre);
        if ksorted_each(ns) {
            assert forall|i: int| 0 <= i < ns.len() implies ksorted(#[trigger] ns[i]) by {
                if i < ns.len() - 1 {
                    assert(pre[i] == ns[i]);
                }
            }
        }
        if forall|i: int| 0 <= i < ns.len() ==> ksorted(#[trigger] ns[i]) {
            assert forall|i: int| 0 <= i < pre.len() implies ksorted(#[trigger] pre[i]) by {
                assert(pre[i] == ns[i]);
            }
        }
    }
}

/// Where `lower` puts `c`: after the names before it, before the others.
proof fn lemma_lower(ns: Seq<KNodeV>, c: Seq<char>)
    ensures
        lower(ns, c) <= ns.len(),
        forall|j: int| 0 <= j < lower(ns, c) ==> str_lt(#[trigger] ns[j].name, c),
        lower(ns, c) < ns.len() ==> !str_lt(ns[lower(ns, c) as int].name, c),
    decreases ns.len(),
{
    if ns.len() > 0 && str_lt(ns[0].name, c) {
        lemma_lower(ns.drop_first(), c);
        assert forall|j: int| 0 <= j < lower(ns, c) implies str_lt(#[trigger] ns[j].name, c) by {
            if j > 0 {
                assert(ns[j] == ns.drop_first()[j - 1]);
            }
        }
        if lower(ns, c) < ns.len() {
            assert(ns[lower(ns, c) as int] == ns.drop_first()[lower(ns, c) - 1]);
        }
    }
}

/// Adding a path keeps every level in name order.
pub proof fn lemma_add_path_sorted(ns: Seq<KNodeV>, comps: Seq<Seq<char>>, idx: usize)
    requires
        ksorted_list(ns),
    ensures
        ksorted_list(add_path(ns, comps, idx)),
    decreases comps.len(),
{
    if comps.len() > 0 {
        let c = comps[0];
        let p = lower(ns, c) as int;
        lemma_lower(ns, c);
        lemma_ksorted_each(ns);
        let found = p < ns.len() && ns[p].name == c;
        let base = if found { ns[p] } else { empty_node(c) };
        assert(ksorted(empty_node(c))) by {
            assert(ksorted_each(Seq::<KNodeV>::empty()));
        }
        assert(ksorted(base));
        if comps.len() > 1 {
            lemma_add_path_sorted(base.children, comps.drop_first(), idx);
        }
        let node = if comps.len() == 1 {
            KNodeV { files: base.files.push(idx), ..base }
        } else {
            KNodeV { children: add_path(base.children, comps.drop_first(), idx), ..base }
        };
        assert(ksorted(node));
        assert(node.name == c);
        let r = add_path(ns, comps, idx);
        if found {
            assert(r == ns.update(p, node));
            assert forall|i: int, j: int| 0 <= i < j < r.len() implies str_lt(#[trigger] r[i].name, #[trigger] r[j].name) by {
                assert(ns[i].name == r[i].name && ns[j].name == r[j].name);
            }
        } else {
            assert(r == ns.insert(p, node));
            if p < ns.len() {
                lemma_str_lt_total(ns[p].name, c);
            }
            assert forall|i: int, j: int| 0 <= i < j < r.len() implies str_lt(#[trigger] r[i].name, #[trigger] r[j].name) by {
                if j < p {
                    assert(r[i] == ns[i] && r[j] == ns[j]);
                } else if j == p {
                    assert(r[i] == ns[i]);
                } else if i == p {
                    assert(r[j] == ns[j - 1]);
                    if j - 1 > p {
                        lemma_str_lt_transitive(c, ns[p].name, ns[j - 1].name);
                    }
                } else if i < p {
                    assert(r[i] == ns[i] && r[j] == ns[j - 1]);
                } else {
                    assert(r[i] == ns[i - 1] && r[j] == ns[j - 1]);
                }
            }
        }
        lemma_ksorted_each(r);
        assert forall|i: int| 0 <= i < r.len() implies ksorted(#[trigger] r[i]) by {
            if found {
                if i != p {
                    assert(r[i] == ns[i]);
                }
            } else if i < p {
                assert(r[i] == ns[i]);
            } else if i > p {
                assert(r[i] == ns[i - 1]);
            }
        }
    }
}

/// The component tree of any diff keeps every level in name order with no
/// name twice, as the sorted map it stands for.
pub proof fn law_keyed_tree_sorted(files: Seq<FileV>)
    ensures
        ksorted_list(keyed_tree(files)),
    decreases files.len(),
{
    if files.len() == 0 {
        assert(ksorted_each(Seq::<KNodeV>::empty()));
    } else {
        law_keyed_tree_sorted(files.drop_last());
        lemma_add_path_sorted(keyed_tree(files.drop_last()), components(files.last().path), (files.len() - 1) as usize);
    }
}

/// A sequence of file indices as a multiset.
pub open spec fn seq_ms(s: Seq<usize>) -> Multiset<usize>
    decreases s.len(),
{
    if s.len() == 0 {
        Multiset::empty()
    } else {
        seq_ms(s.drop_last()).insert(s.last())
    }
}

/// The files of a node and of everything below it.
pub open spec fn kleaves(n: KNodeV) -> Multiset<usize>
    decreases size_k(n), 0nat,
{
    seq_ms(n.files).add(kleaves_list(n.children))
}

pub open spec fn kleaves_list(ns: Seq<KNodeV>) -> Multiset<usize>
    decreases size_ks(ns), 1nat,
{
    if ns.len() == 0 {
        Multiset::empty()
    } else {
        proof {
            lemma_size_ks_elem(ns, ns.len() - 1);
        }
        kleaves_list(ns.subrange(0, ns.len() - 1)).add(kleaves(ns[ns.len() - 1]))
    }
}

/// The file indices of the file rows.
pub open spec fn krow_files(rows: Seq<KRowV>) -> Multiset<usize>
    decreases rows.len(),
{
    if rows.len() == 0 {
        Multiset::empty()
    } else {
        krow_files(rows.drop_last()).add(
            match rows.last().file {
                Some(i) => Multiset::singleton(i),
                None => Multiset::empty(),
            },
        )
    }
}

proof fn lemma_krow_files_concat(a: Seq<KRowV>, b: Seq<KRowV>)
    ensures
        krow_files(a + b) =~= krow_files(a).add(krow_files(b)),
    decreases b.len(),
{
    broadcast use vstd::multiset::group_multiset_axioms;
    if b.len() == 0 {
        assert(a + b =~= a);
    } else {
        lemma_krow_files_concat(a, b.drop_last());
        assert((a + b).drop_last() =~= a + b.drop_last());
        assert((a + b).last() == b.last());
    }
}

proof fn lemma_own_rows_files(files: Seq<usize>, name: Seq<char>, depth: nat)
    ensures
        krow_files(files.map_values(|i: usize| KRowV { depth, file: Some(i), name, key: Seq::empty(), expanded: false }))
            =~= seq_ms(files),
    decreases files.len(),
{
    broadcast use vstd::multiset::group_multiset_axioms;
    let m = files.map_values(|i: usize| KRowV { depth, file: Some(i), name, key: Seq::empty(), expanded: false });
    if files.len() > 0 {
        lemma_own_rows_files(files.drop_last(), name, depth);
        assert(m.drop_last() =~= files.drop_last().map_values(
            |i: usize| KRowV { depth, file: Some(i), name, key: Seq::empty(), expanded: false },
        ));
    } else {
        assert(m =~= Seq::<KRowV>::empty());
    }
}

proof fn lemma_kleaves_insert(ns: Seq<KNodeV>, p: int, x: KNodeV)
    requires
        0 <= p <= ns.len(),
    ensures
        kleaves_list(ns.insert(p, x)) =~= kleaves_list(ns).add(kleaves(x)),
    decreases ns.len(),
{
    broadcast use vstd::multiset::group_multiset_axioms;
    let r = ns.insert(p, x);
    if p == ns.len() {
        assert(r.subrange(0, ns.len() as int) =~= ns);
    } else {
        let last = ns.len() - 1;
        let pre = ns.subrange(0, last);
        lemma_kleaves_insert(pre, p, x);
        assert(r.subrange(0, r.len() - 1) =~= pre.insert(p, x));
        assert(r[r.len() - 1] == ns[last]);
    }
}

proof fn lemma_kleaves_update(ns: Seq<KNodeV>, p: int, x: KNodeV)
    requires
        0 <= p < ns.len(),
    ensures
        kleaves_list(ns.update(p, x)).add(kleaves(ns[p])) =~= kleaves_list(ns).add(kleaves(x)),
    decreases ns.len(),
{
    broadcast use vstd::multiset::group_multiset_axioms;
    let last = ns.len() - 1;
    let pre = ns.subrange(0, last);
    let up = ns.update(p, x);
    assert(kleaves_list(ns) == kleaves_list(pre).add(kleaves(ns[last])));
    if p == last {
        assert(up.subrange(0, last) =~= pre);
        assert(kleaves_list(up) == kleaves_list(pre).add(kleaves(x)));
    } else {
        lemma_kleaves_update(pre, p, x);
        assert(up.subrange(0, last) =~= pre.update(p, x));
        assert(pre[p] == ns[p]);
        assert(up[last] == ns[last]);
        assert(kleaves_list(up) == kleaves_list(pre.update(p, x)).add(kleaves(ns[last])));
        assert forall|v: usize| #[trigger] kleaves_list(up).add(kleaves(ns[p])).count(v)
            == kleaves_list(ns).add(kleaves(x)).count(v) by {
            assert(kleaves_list(pre.update(p, x)).add(kleaves(pre[p])).count(v)
                == kleaves_list(pre).add(kleaves(x)).count(v));
        }
    }
}

proof fn lemma_lower_bound(ns: Seq<KNodeV>, c: Seq<char>)
    ensures
        lower(ns, c) <= ns.len(),
    decreases ns.len(),
{
    if ns.len() > 0 && str_lt(ns[0].name, c) {
        lemma_lower_bound(ns.drop_first(), c);
    }
}

/// Adding a path of at least one component adds exactly its file.
proof fn lemma_add_path_leaves(ns: Seq<KNodeV>, comps: Seq<Seq<char>>, idx: usize)
    requires
        comps.len() > 0,
    ensures
        kleaves_list(add_path(ns, comps, idx)) =~= kleaves_list(ns).insert(idx),
    decreases comps.len(),
{
    broadcast use vstd::multiset::group_multiset_axioms;
    let c = comps[0];
    let p = lower(ns, c) as int;
    lemma_lower_bound(ns, c);
    let found = p < ns.len() && ns[p].name == c;
    let base = if found { ns[p] } else { empty_node(c) };
    assert(kleaves_list(Seq::<KNodeV>::empty()) =~= Multiset::empty());
    assert(seq_ms(Seq::<usize>::empty()) =~= Multiset::empty());
    let node = if comps.len() == 1 {
        KNodeV { files: base.files.push(idx), ..base }
    } else {
        KNodeV { children: add_path(base.children, comps.drop_first(), idx), ..base }
    };
    if comps.len() == 1 {
        assert(base.files.push(idx).drop_last() =~= base.files);
        assert(seq_ms(node.files) =~= seq_ms(base.files).insert(idx));
        assert(kleaves(node) =~= kleaves(base).insert(idx));
    } else {
        lemma_add_path_leaves(base.children, comps.drop_first(), idx);
        assert(kleaves(node) =~= kleaves(base).insert(idx));
    }
    let r = add_path(ns, comps, idx);
    if found {
        assert(r == ns.update(p, node));
        lemma_kleaves_update(ns, p, node);
        assert forall|v: usize| #[trigger] kleaves_list(r).count(v) == kleaves_list(ns).insert(idx).count(v) by {
            assert(kleaves_list(r).add(kleaves(base)).count(v) == kleaves_list(ns).add(kleaves(node)).count(v));
        }
    } else {
        assert(r == ns.insert(p, node));
        lemma_kleaves_insert(ns, p, node);
        assert(kleaves(empty_node(c)) =~= Multiset::empty());
    }
}

proof fn lemma_keyed_tree_leaves(files: Seq<FileV>)
    ensures
        kleaves_list(keyed_tree(files)) =~= named_files(files),
    decreases files.len(),
{
    if files.len() == 0 {
        assert(kleaves_list(Seq::<KNodeV>::empty()) =~= Multiset::empty());
    } else {
        lemma_keyed_tree_leaves(files.drop_last());
        let f = files.last();
        if components(f.path).len() > 0 {
            lemma_add_path_leaves(keyed_tree(files.drop_last()), components(f.path), (files.len() - 1) as usize);
        }
    }
}

/// Folding keeps a node's files, and a node without files of its own folds
/// into one without files of its own.
proof fn lemma_fold_keyed_leaves(disp: Seq<char>, key: Seq<char>, n: KNodeV)
    ensures
        kleaves(fold_keyed(disp, key, n).2) =~= kleaves(n),
        n.files.len() > 0 ==> fold_keyed(disp, key, n).2 == n,
        n.files.len() == 0 ==> fold_keyed(disp, key, n).2.files.len() == 0,
    decreases size_k(n),
{
    broadcast use vstd::multiset::group_multiset_axioms;
    if n.children.len() == 1 && n.files.len() == 0 && n.children[0].children.len() > 0 && n.children[0].files.len() == 0 {
        lemma_size_ks_elem(n.children, 0);
        let c0 = n.children[0];
        lemma_fold_keyed_leaves(disp.push('/') + c0.name, key.push('/') + c0.name, c0);
        assert(n.children.subrange(0, 0) =~= Seq::<KNodeV>::empty());
        assert(kleaves_list(n.children.subrange(0, 0)) =~= Multiset::empty());
        assert(kleaves_list(n.children) == kleaves_list(n.children.subrange(0, 0)).add(kleaves(c0)));
        assert(seq_ms(n.files) =~= Multiset::empty());
    }
}

/// With nothing collapsed, the file rows of nodes are exactly their files.
proof fn lemma_walk_leaves(ns: Seq<KNodeV>, prefix: Seq<char>, depth: nat)
    ensures
        krow_files(walk_list(ns, prefix, depth, Set::empty())) =~= kleaves_list(ns),
    decreases size_ks(ns), 1nat,
{
    if ns.len() > 0 {
        let pre = ns.subrange(0, ns.len() - 1);
        let last = ns[ns.len() - 1];
        lemma_size_ks_elem(ns, ns.len() - 1);
        lemma_walk_leaves(pre, prefix, depth);
        lemma_krow_files_concat(walk_list(pre, prefix, depth, Set::empty()), walk_node(last, prefix, depth, Set::empty()));
        lemma_walk_node_leaves(last, prefix, depth);
    }
}

proof fn lemma_walk_node_leaves(n: KNodeV, prefix: Seq<char>, depth: nat)
    ensures
        krow_files(walk_node(n, prefix, depth, Set::empty())) =~= kleaves(n),
    decreases size_k(n), 0nat,
{
    broadcast use vstd::multiset::group_multiset_axioms;
    let r = walk_node(n, prefix, depth, Set::empty());
    let own = own_rows(n, depth);
    lemma_own_rows_files(n.files, n.name, depth);
    if n.files.len() > 0 && n.children.len() == 0 {
        assert(kleaves_list(n.children) =~= Multiset::empty());
    } else {
        lemma_fold_keyed_size(n.name, join_key(prefix, n.name), n);
        lemma_fold_keyed_leaves(n.name, join_key(prefix, n.name), n);
        let (disp, key, cur) = fold_keyed(n.name, join_key(prefix, n.name), n);
        assert(!Set::<Seq<char>>::empty().contains(key));
        let head = seq![KRowV { depth, file: None, name: disp.push('/'), key, expanded: true }];
        let rest = walk_list(cur.children, key, depth + 1, Set::empty());
        assert(r == own + (head + rest));
        lemma_walk_leaves(cur.children, key, depth + 1);
        lemma_krow_files_concat(head, rest);
        lemma_krow_files_concat(own, head + rest);
        assert(head.drop_last() =~= Seq::<KRowV>::empty());
        assert(krow_files(head.drop_last()) =~= Multiset::empty());
        assert(krow_files(head) =~= Multiset::empty());
        if n.files.len() == 0 {
            assert(seq_ms(cur.files) =~= Multiset::empty());
            assert(seq_ms(n.files) =~= Multiset::empty());
        }
    }
}

/// With nothing collapsed, every file whose path names something is exactly
/// one file row, and no other row is a file row.
pub proof fn law_every_file_has_one_row(files: Seq<FileV>)
    ensures
        krow_files(keyed_rows(files, Set::empty())) =~= named_files(files),
{
    lemma_keyed_tree_leaves(files);
    lemma_walk_leaves(keyed_tree(files), Seq::empty(), 0);
}

} // verus!
