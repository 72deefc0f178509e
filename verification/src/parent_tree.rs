//! The file tree as a flat list where each row knows its parent: built from
//! the file list, folded bottom-up, sorted folders first, flattened in
//! pre-order, with a row's path and visibility found by walking up through
//! the parents.

use vstd::prelude::*;
use vstd::multiset::Multiset;
use crate::keyed_tree::{concat_slash, is_collapsed, join_key, key_set, less_chars, str_lt};
use crate::paths::{components, path_components, same_chars};
use crate::qt_model::FileEntry;
use crate::text::{chars_of, owned, push_all, push_char, string_of};

verus! {

/// A node while the tree is built: a leaf carries the file's icon, counts
/// and first diff item.
pub struct QNode {
    pub name: String,
    pub children: Vec<QNode>,
    pub is_leaf: bool,
    pub icon: String,
    pub added: i32,
    pub removed: i32,
    pub item_index: i32,
}

pub struct QNodeV {
    pub name: Seq<char>,
    pub children: Seq<QNodeV>,
    pub is_leaf: bool,
    pub icon: Seq<char>,
    pub added: i32,
    pub removed: i32,
    pub item_index: i32,
}

pub open spec fn qnode_view(n: QNode) -> QNodeV
    decreases n,
{
    QNodeV {
        name: n.name@,
        children: qnodes_view(n.children@),
        is_leaf: n.is_leaf,
        icon: n.icon@,
        added: n.added,
        removed: n.removed,
        item_index: n.item_index,
    }
}

pub open spec fn qnodes_view(s: Seq<QNode>) -> Seq<QNodeV>
    decreases s,
{
    if s.len() == 0 {
        Seq::empty()
    } else {
        qnodes_view(s.subrange(0, s.len() - 1)).push(qnode_view(s[s.len() - 1]))
    }
}

pub proof fn lemma_qnodes_view(s: Seq<QNode>)
    ensures
        qnodes_view(s).len() == s.len(),
        forall|i: int| 0 <= i < s.len() ==> #[trigger] qnodes_view(s)[i] == qnode_view(s[i]),
    decreases s.len(),
{
    if s.len() > 0 {
        lemma_qnodes_view(s.subrange(0, s.len() - 1));
        assert forall|i: int| 0 <= i < s.len() implies #[trigger] qnodes_view(s)[i] == qnode_view(s[i]) by {
            if i < s.len() - 1 {
                assert(s.subrange(0, s.len() - 1)[i] == s[i]);
            }
        }
    }
}

pub open spec fn qdir(name: Seq<char>) -> QNodeV {
    QNodeV { name, children: Seq::empty(), is_leaf: false, icon: Seq::empty(), added: 0, removed: 0, item_index: 0 }
}

/// The leaf of a file entry.
pub open spec fn qleaf(name: Seq<char>, e: FileEntry) -> QNodeV {
    QNodeV { name, children: Seq::empty(), is_leaf: true, icon: e.icon@, added: e.added, removed: e.removed, item_index: e.item_index }
}

/// The first folder child of that name.
pub open spec fn find_folder(ns: Seq<QNodeV>, c: Seq<char>) -> Option<int>
    decreases ns.len(),
{
    if ns.len() == 0 {
        None
    } else if !ns[0].is_leaf && ns[0].name == c {
        Some(0)
    } else {
        match find_folder(ns.drop_first(), c) {
            Some(i) => Some(i + 1),
            None => None,
        }
    }
}

pub proof fn lemma_find_folder(ns: Seq<QNodeV>, c: Seq<char>)
    ensures
        match find_folder(ns, c) {
            Some(p) => 0 <= p < ns.len() && !ns[p].is_leaf && ns[p].name == c && forall|j: int|
                0 <= j < p ==> !(!(#[trigger] ns[j]).is_leaf && ns[j].name == c),
            None => forall|j: int| 0 <= j < ns.len() ==> !(!(#[trigger] ns[j]).is_leaf && ns[j].name == c),
        },
    decreases ns.len(),
{
    if ns.len() > 0 {
        lemma_find_folder(ns.drop_first(), c);
        assert forall|j: int| 1 <= j < ns.len() implies ns[j] == ns.drop_first()[j - 1] by {}
    }
}

/// Adds a file under `comps` to the children `ns`: the last component is a
/// new leaf; each earlier one the first folder of that name, made when missing.
pub open spec fn qinsert(ns: Seq<QNodeV>, comps: Seq<Seq<char>>, e: FileEntry) -> Seq<QNodeV>
    decreases comps.len(),
{
    if comps.len() == 0 {
        ns
    } else if comps.len() == 1 {
        ns.push(qleaf(comps[0], e))
    } else {
        match find_folder(ns, comps[0]) {
            Some(p) => ns.update(p, QNodeV { children: qinsert(ns[p].children, comps.drop_first(), e), ..ns[p] }),
            None => ns.push(QNodeV { children: qinsert(Seq::empty(), comps.drop_first(), e), ..qdir(comps[0]) }),
        }
    }
}

pub open spec fn chars_view(v: Seq<Vec<char>>) -> Seq<Seq<char>> {
    v.map_values(|c: Vec<char>| c@)
}

fn position_folder(ns: &Vec<QNode>, c: &Vec<char>) -> (r: Option<usize>)
    ensures
        match r {
            Some(p) => find_folder(qnodes_view(ns@), c@) == Some(p as int),
            None => find_folder(qnodes_view(ns@), c@) is None,
        },
{
    let ghost vs = qnodes_view(ns@);
    proof {
        lemma_qnodes_view(ns@);
        lemma_find_folder(vs, c@);
    }
    let mut i: usize = 0;
    while i < ns.len()
        invariant
            vs == qnodes_view(ns@),
            vs.len() == ns@.len(),
            forall|j: int| 0 <= j < ns@.len() ==> #[trigger] vs[j] == qnode_view(ns@[j]),
            i <= ns@.len(),
            forall|j: int| 0 <= j < i ==> !(!(#[trigger] vs[j]).is_leaf && vs[j].name == c@),
            match find_folder(vs, c@) {
                Some(p) => 0 <= p < vs.len() && !vs[p].is_leaf && vs[p].name == c@ && forall|j: int|
                    0 <= j < p ==> !(!(#[trigger] vs[j]).is_leaf && vs[j].name == c@),
                None => forall|j: int| 0 <= j < vs.len() ==> !(!(#[trigger] vs[j]).is_leaf && vs[j].name == c@),
            },
        decreases ns@.len() - i,
    {
        assert(vs[i as int] == qnode_view(ns@[i as int]));
        if !ns[i].is_leaf && same_chars(&chars_of(ns[i].name.as_str()), c) {
            return Some(i);
        }
        i = i + 1;
    }
    None
}

fn qinsert_exec(ns: &mut Vec<QNode>, comps: &Vec<Vec<char>>, from: usize, e: &FileEntry)
    requires
        from <= comps@.len(),
    ensures
        qnodes_view(final(ns)@) == qinsert(qnodes_view(old(ns)@), chars_view(comps@).skip(from as int), *e),
    decreases comps@.len() - from,
{
    let ghost cs = chars_view(comps@).skip(from as int);
    let ghost vs = qnodes_view(ns@);
    proof {
        lemma_qnodes_view(ns@);
    }
    if from == comps.len() {
        assert(cs.len() == 0);
        return;
    }
    assert(cs[0] == comps@[from as int]@);
    assert(cs.drop_first() =~= chars_view(comps@).skip(from + 1));
    if from + 1 == comps.len() {
        let leaf = QNode {
            name: string_of(&comps[from]),
            children: Vec::new(),
            is_leaf: true,
            icon: e.icon.clone(),
            added: e.added,
            removed: e.removed,
            item_index: e.item_index,
        };
        ns.push(leaf);
        proof {
            lemma_qnodes_view(ns@);
            assert(qnodes_view(Seq::<QNode>::empty()) =~= Seq::<QNodeV>::empty());
            assert(qnodes_view(ns@) =~= qinsert(vs, cs, *e));
        }
        return;
    }
    match position_folder(ns, &comps[from]) {
        Some(p) => {
            proof {
                lemma_find_folder(vs, cs[0]);
            }
            let mut node = ns.remove(p);
            assert(qnode_view(node) == vs[p as int]);
            qinsert_exec(&mut node.children, comps, from + 1, e);
            ns.insert(p, node);
            proof {
                lemma_qnodes_view(ns@);
                assert(qnodes_view(ns@) =~= qinsert(vs, cs, *e));
            }
        },
        None => {
            let mut node = QNode {
                name: string_of(&comps[from]),
                children: Vec::new(),
                is_leaf: false,
                icon: String::new(),
                added: 0,
                removed: 0,
                item_index: 0,
            };
            proof {
                assert(qnodes_view(Seq::<QNode>::empty()) =~= Seq::<QNodeV>::empty());
            }
            qinsert_exec(&mut node.children, comps, from + 1, e);
            ns.push(node);
            proof {
                lemma_qnodes_view(ns@);
                assert(qnodes_view(ns@) =~= qinsert(vs, cs, *e));
            }
        },
    }
}

/// The children of the top of the tree after adding every entry of the file
/// list, in order.
pub open spec fn qtree(entries: Seq<FileEntry>) -> Seq<QNodeV>
    decreases entries.len(),
{
    if entries.len() == 0 {
        Seq::empty()
    } else {
        qinsert(qtree(entries.drop_last()), components(entries.last().path@), entries.last())
    }
}

pub fn build_qtree(entries: &Vec<FileEntry>) -> (roots: Vec<QNode>)
    ensures
        qnodes_view(roots@) == qtree(entries@),
{
    let mut roots: Vec<QNode> = Vec::new();
    let mut i: usize = 0;
    while i < entries.len()
        invariant
            i <= entries@.len(),
            qnodes_view(roots@) == qtree(entries@.take(i as int)),
        decreases entries@.len() - i,
    {
        proof {
            assert(entries@.take(i + 1).drop_last() =~= entries@.take(i as int));
            assert(entries@.take(i + 1).last() == entries@[i as int]);
        }
        let comps = path_components(entries[i].path.as_str());
        assert(chars_view(comps@).skip(0) =~= components(entries@[i as int].path@));
        qinsert_exec(&mut roots, &comps, 0, &entries[i]);
        i = i + 1;
    }
    assert(entries@.take(entries@.len() as int) =~= entries@);
    roots
}

/// The number of nodes of a tree.
pub open spec fn qsize(n: QNodeV) -> nat
    decreases n,
{
    1 + qsizes(n.children)
}

pub open spec fn qsizes(ns: Seq<QNodeV>) -> nat
    decreases ns,
{
    if ns.len() == 0 {
        0
    } else {
        qsizes(ns.subrange(0, ns.len() - 1)) + qsize(ns[ns.len() - 1])
    }
}

pub proof fn lemma_qsizes_elem(ns: Seq<QNodeV>, i: int)
    requires
        0 <= i < ns.len(),
    ensures
        qsize(ns[i]) <= qsizes(ns),
    decreases ns.len(),
{
    if i < ns.len() - 1 {
        lemma_qsizes_elem(ns.subrange(0, ns.len() - 1), i);
    }
}

/// Folding from the bottom up: the children first, then a named folder whose
/// only child is a folder takes that child's name after a `/` and its children.
pub open spec fn qcollapse(n: QNodeV) -> QNodeV
    decreases qsize(n), 0nat,
{
    let ch = qcollapse_list(n.children);
    if !n.is_leaf && ch.len() == 1 && !ch[0].is_leaf && n.name.len() > 0 {
        QNodeV { name: n.name.push('/') + ch[0].name, children: ch[0].children, ..n }
    } else {
        QNodeV { children: ch, ..n }
    }
}

pub open spec fn qcollapse_list(ns: Seq<QNodeV>) -> Seq<QNodeV>
    decreases qsizes(ns), 1nat,
{
    if ns.len() == 0 {
        Seq::empty()
    } else {
        proof {
            lemma_qsizes_elem(ns, ns.len() - 1);
        }
        qcollapse_list(ns.subrange(0, ns.len() - 1)).push(qcollapse(ns[ns.len() - 1]))
    }
}

pub proof fn lemma_qcollapse_list(ns: Seq<QNodeV>)
    ensures
        qcollapse_list(ns).len() == ns.len(),
        forall|i: int| 0 <= i < ns.len() ==> #[trigger] qcollapse_list(ns)[i] == qcollapse(ns[i]),
    decreases ns.len(),
{
    if ns.len() > 0 {
        let pre = ns.subrange(0, ns.len() - 1);
        lemma_qcollapse_list(pre);
        assert forall|i: int| 0 <= i < ns.len() implies #[trigger] qcollapse_list(ns)[i] == qcollapse(ns[i]) by {
            if i < ns.len() - 1 {
                assert(pre[i] == ns[i]);
            }
        }
    }
}

fn qcollapse_node(n: QNode) -> (r: QNode)
    ensures
        qnode_view(r) == qcollapse(qnode_view(n)),
    decreases qsize(qnode_view(n)), 0nat,
{
    let QNode { name, children, is_leaf, icon, added, removed, item_index } = n;
    proof {
        lemma_qnodes_view(children@);
    }
    let mut ch = qcollapse_nodes(children);
    proof {
        lemma_qnodes_view(ch@);
    }
    if !is_leaf && ch.len() == 1 && !ch[0].is_leaf && name.unicode_len() > 0 {
        let only = ch.remove(0);
        let mut name = name;
        push_char(&mut name, '/');
        push_all(&mut name, &chars_of(only.name.as_str()));
        QNode { name, children: only.children, is_leaf, icon, added, removed, item_index }
    } else {
        QNode { name, children: ch, is_leaf, icon, added, removed, item_index }
    }
}

fn qcollapse_nodes(v: Vec<QNode>) -> (r: Vec<QNode>)
    ensures
        qnodes_view(r@) == qcollapse_list(qnodes_view(v@)),
    decreases qsizes(qnodes_view(v@)), 1nat,
{
    let ghost vs = qnodes_view(v@);
    proof {
        lemma_qnodes_view(v@);
        lemma_qcollapse_list(vs);
    }
    let mut rest = v;
    let mut out: Vec<QNode> = Vec::new();
    while rest.len() > 0
        invariant
            vs == qnodes_view(v@),
            vs.len() == v@.len(),
            forall|j: int| 0 <= j < v@.len() ==> #[trigger] vs[j] == qnode_view(v@[j]),
            out@.len() + rest@.len() == v@.len(),
            rest@ == v@.subrange(out@.len() as int, v@.len() as int),
            forall|j: int| 0 <= j < out@.len() ==> qnode_view(#[trigger] out@[j]) == qcollapse(vs[j]),
        decreases rest@.len(),
    {
        let ghost k = out@.len();
        proof {
            lemma_qsizes_elem(vs, k as int);
            assert(rest@[0] == v@[k as int]);
        }
        let e = rest.remove(0);
        out.push(qcollapse_node(e));
        assert(rest@ =~= v@.subrange(out@.len() as int, v@.len() as int));
    }
    proof {
        lemma_qnodes_view(out@);
        assert(qnodes_view(out@) =~= qcollapse_list(vs));
    }
    out
}

/// The order of the panel: folders before files, then by name.
pub open spec fn qkey_lt(a: QNodeV, b: QNodeV) -> bool {
    (!a.is_leaf && b.is_leaf) || (a.is_leaf == b.is_leaf && str_lt(a.name, b.name))
}

/// Where a node goes among sorted nodes: after every node that does not
/// order after it, so that equal nodes keep their order.
pub open spec fn qins_pos(s: Seq<QNodeV>, x: QNodeV) -> nat
    decreases s.len(),
{
    if s.len() == 0 {
        0
    } else if qkey_lt(x, s[0]) {
        0
    } else {
        1 + qins_pos(s.drop_first(), x)
    }
}

pub proof fn lemma_qins_pos(s: Seq<QNodeV>, x: QNodeV)
    ensures
        qins_pos(s, x) <= s.len(),
    decreases s.len(),
{
    if s.len() > 0 && !qkey_lt(x, s[0]) {
        lemma_qins_pos(s.drop_first(), x);
    }
}

/// A stable sort of nodes in the panel's order.
pub open spec fn qsort_seq(ns: Seq<QNodeV>) -> Seq<QNodeV>
    decreases ns.len(),
{
    if ns.len() == 0 {
        Seq::empty()
    } else {
        let s = qsort_seq(ns.drop_last());
        s.insert(qins_pos(s, ns.last()) as int, ns.last())
    }
}

pub proof fn lemma_qsort_len(ns: Seq<QNodeV>)
    ensures
        qsort_seq(ns).len() == ns.len(),
    decreases ns.len(),
{
    if ns.len() > 0 {
        lemma_qsort_len(ns.drop_last());
        lemma_qins_pos(qsort_seq(ns.drop_last()), ns.last());
    }
}

/// Every level sorted, folders first, then by name.
pub open spec fn qsorted(n: QNodeV) -> QNodeV
    decreases qsize(n), 0nat,
{
    QNodeV { children: qsort_seq(qsorted_list(n.children)), ..n }
}

pub open spec fn qsorted_list(ns: Seq<QNodeV>) -> Seq<QNodeV>
    decreases qsizes(ns), 1nat,
{
    if ns.len() == 0 {
        Seq::empty()
    } else {
        proof {
            lemma_qsizes_elem(ns, ns.len() - 1);
        }
        qsorted_list(ns.subrange(0, ns.len() - 1)).push(qsorted(ns[ns.len() - 1]))
    }
}

pub proof fn lemma_qsorted_list(ns: Seq<QNodeV>)
    ensures
        qsorted_list(ns).len() == ns.len(),
        forall|i: int| 0 <= i < ns.len() ==> #[trigger] qsorted_list(ns)[i] == qsorted(ns[i]),
    decreases ns.len(),
{
    if ns.len() > 0 {
        let pre = ns.subrange(0, ns.len() - 1);
        lemma_qsorted_list(pre);
        assert forall|i: int| 0 <= i < ns.len() implies #[trigger] qsorted_list(ns)[i] == qsorted(ns[i]) by {
            if i < ns.len() - 1 {
                assert(pre[i] == ns[i]);
            }
        }
    }
}

fn qkey_less(a: &QNode, b: &QNode) -> (r: bool)
    ensures
        r == qkey_lt(qnode_view(*a), qnode_view(*b)),
{
    if !a.is_leaf && b.is_leaf {
        true
    } else if a.is_leaf == b.is_leaf {
        less_chars(&chars_of(a.name.as_str()), &chars_of(b.name.as_str()))
    } else {
        false
    }
}

/// Sorts nodes stably in the panel's order.
fn qsort_vec(v: Vec<QNode>) -> (out: Vec<QNode>)
    ensures
        qnodes_view(out@) == qsort_seq(qnodes_view(v@)),
{
    let ghost vs = qnodes_view(v@);
    proof {
        lemma_qnodes_view(v@);
    }
    let mut rest = v;
    let mut out: Vec<QNode> = Vec::new();
    while rest.len() > 0
        invariant
            vs == qnodes_view(v@),
            vs.len() == v@.len(),
            forall|j: int| 0 <= j < v@.len() ==> #[trigger] vs[j] == qnode_view(v@[j]),
            rest@.len() <= v@.len(),
            rest@ == v@.subrange(v@.len() - rest@.len(), v@.len() as int),
            qnodes_view(out@) == qsort_seq(vs.take(v@.len() - rest@.len())),
        decreases rest@.len(),
    {
        let ghost i = v@.len() - rest@.len();
        let x = rest.remove(0);
        let ghost s = qnodes_view(out@);
        proof {
            lemma_qnodes_view(out@);
            assert(x == v@[i]);
            assert(vs.take(i + 1).drop_last() =~= vs.take(i));
            assert(vs.take(i + 1).last() == qnode_view(x));
            lemma_qins_pos(s, qnode_view(x));
        }
        let mut p: usize = 0;
        assert(s.skip(0) =~= s);
        while p < out.len() && !qkey_less(&x, &out[p])
            invariant
                s == qnodes_view(out@),
                s.len() == out@.len(),
                forall|j: int| 0 <= j < out@.len() ==> #[trigger] s[j] == qnode_view(out@[j]),
                p <= out@.len(),
                qins_pos(s, qnode_view(x)) == p + qins_pos(s.skip(p as int), qnode_view(x)),
            decreases out@.len() - p,
        {
            proof {
                assert(s.skip(p as int)[0] == s[p as int]);
                assert(s.skip(p as int).drop_first() =~= s.skip(p + 1));
            }
            p = p + 1;
        }
        proof {
            if p < out@.len() {
                assert(s.skip(p as int)[0] == s[p as int]);
            }
        }
        let ghost xv = qnode_view(x);
        out.insert(p, x);
        proof {
            lemma_qnodes_view(out@);
            assert(qnodes_view(out@) =~= s.insert(p as int, xv));
            assert(rest@ =~= v@.subrange(v@.len() - rest@.len(), v@.len() as int));
        }
    }
    assert(vs.take(v@.len() as int) =~= vs);
    out
}

fn qsort_node(n: QNode) -> (r: QNode)
    ensures
        qnode_view(r) == qsorted(qnode_view(n)),
    decreases qsize(qnode_view(n)), 0nat,
{
    let QNode { name, children, is_leaf, icon, added, removed, item_index } = n;
    proof {
        lemma_qnodes_view(children@);
    }
    let each = qsort_nodes(children);
    let children = qsort_vec(each);
    QNode { name, children, is_leaf, icon, added, removed, item_index }
}

fn qsort_nodes(v: Vec<QNode>) -> (r: Vec<QNode>)
    ensures
        qnodes_view(r@) == qsorted_list(qnodes_view(v@)),
    decreases qsizes(qnodes_view(v@)), 1nat,
{
    let ghost vs = qnodes_view(v@);
    proof {
        lemma_qnodes_view(v@);
        lemma_qsorted_list(vs);
    }
    let mut rest = v;
    let mut out: Vec<QNode> = Vec::new();
    while rest.len() > 0
        invariant
            vs == qnodes_view(v@),
            vs.len() == v@.len(),
            forall|j: int| 0 <= j < v@.len() ==> #[trigger] vs[j] == qnode_view(v@[j]),
            out@.len() + rest@.len() == v@.len(),
            rest@ == v@.subrange(out@.len() as int, v@.len() as int),
            forall|j: int| 0 <= j < out@.len() ==> qnode_view(#[trigger] out@[j]) == qsorted(vs[j]),
        decreases rest@.len(),
    {
        let ghost k = out@.len();
        proof {
            lemma_qsizes_elem(vs, k as int);
            assert(rest@[0] == v@[k as int]);
        }
        let e = rest.remove(0);
        out.push(qsort_node(e));
        assert(rest@ =~= v@.subrange(out@.len() as int, v@.len() as int));
    }
    proof {
        lemma_qnodes_view(out@);
        assert(qnodes_view(out@) =~= qsorted_list(vs));
    }
    out
}

/// A row of the flat tree; `parent` is the index of the folder row it sits
/// in, `-1` at the top.
pub struct QRow {
    pub depth: i32,
    pub is_dir: bool,
    pub expanded: bool,
    pub visible: bool,
    pub name: String,
    pub icon: String,
    pub added: i32,
    pub removed: i32,
    pub item_index: i32,
    pub parent: i32,
}

pub struct QRowV {
    pub depth: i32,
    pub is_dir: bool,
    pub expanded: bool,
    pub visible: bool,
    pub name: Seq<char>,
    pub icon: Seq<char>,
    pub added: i32,
    pub removed: i32,
    pub item_index: i32,
    pub parent: i32,
}

impl View for QRow {
    type V = QRowV;

    open spec fn view(&self) -> QRowV {
        QRowV {
            depth: self.depth,
            is_dir: self.is_dir,
            expanded: self.expanded,
            visible: self.visible,
            name: self.name@,
            icon: self.icon@,
            added: self.added,
            removed: self.removed,
            item_index: self.item_index,
            parent: self.parent,
        }
    }
}

pub open spec fn qrows_view(rows: Seq<QRow>) -> Seq<QRowV> {
    rows.map_values(|r: QRow| r@)
}

/// The rows of node `c` when its first row lands at index `idx`: a file is
/// one row; a folder is its row (expanded unless its path is collapsed),
/// then its children one level deeper with this row as their parent. Depths
/// and indices are stored as `i32`, as the rows carry them.
pub open spec fn qflat_node(c: QNodeV, depth: nat, parent: i32, cs: Set<Seq<char>>, prefix: Seq<char>, idx: nat) -> Seq<QRowV>
    decreases qsize(c), 0nat,
{
    let full = join_key(prefix, c.name);
    if c.is_leaf {
        seq![
            QRowV {
                depth: depth as i32,
                is_dir: false,
                expanded: false,
                visible: true,
                name: c.name,
                icon: c.icon,
                added: c.added,
                removed: c.removed,
                item_index: c.item_index,
                parent,
            },
        ]
    } else {
        seq![
            QRowV {
                depth: depth as i32,
                is_dir: true,
                expanded: !cs.contains(full),
                visible: true,
                name: c.name,
                icon: "\u{1f4c1}"@,
                added: 0,
                removed: 0,
                item_index: -1i32,
                parent,
            },
        ] + qflat_list(c.children, depth + 1, idx as i32, cs, full, idx + 1)
    }
}

pub open spec fn qflat_list(ns: Seq<QNodeV>, depth: nat, parent: i32, cs: Set<Seq<char>>, prefix: Seq<char>, start: nat) -> Seq<QRowV>
    decreases qsizes(ns), 1nat,
{
    if ns.len() == 0 {
        Seq::empty()
    } else {
        proof {
            lemma_qsizes_elem(ns, ns.len() - 1);
        }
        let pre = qflat_list(ns.subrange(0, ns.len() - 1), depth, parent, cs, prefix, start);
        pre + qflat_node(ns[ns.len() - 1], depth, parent, cs, prefix, start + pre.len())
    }
}

/// Appends the rows of `nodes` in pre-order.
fn qflatten(nodes: &Vec<QNode>, depth: usize, parent: i32, out: &mut Vec<QRow>, collapsed: &Vec<String>, prefix: &Vec<char>)
    requires
        depth <= old(out)@.len(),
    ensures
        qrows_view(final(out)@) == qrows_view(old(out)@) + qflat_list(
            qnodes_view(nodes@),
            depth as nat,
            parent,
            key_set(collapsed@),
            prefix@,
            old(out)@.len(),
        ),
    decreases qsizes(qnodes_view(nodes@)),
{
    let ghost ns = qnodes_view(nodes@);
    let ghost start = qrows_view(out@);
    let ghost base = out@.len();
    let ghost cs = key_set(collapsed@);
    proof {
        lemma_qnodes_view(nodes@);
    }
    let mut i: usize = 0;
    while i < nodes.len()
        invariant
            ns == qnodes_view(nodes@),
            cs == key_set(collapsed@),
            ns.len() == nodes@.len(),
            forall|j: int| 0 <= j < nodes@.len() ==> #[trigger] ns[j] == qnode_view(nodes@[j]),
            i <= nodes@.len(),
            depth <= out@.len(),
            base <= out@.len(),
            start.len() == base,
            qrows_view(out@) == start + qflat_list(ns.take(i as int), depth as nat, parent, cs, prefix@, base),
        decreases nodes@.len() - i,
    {
        let ghost done = qflat_list(ns.take(i as int), depth as nat, parent, cs, prefix@, base);
        proof {
            assert(ns.take(i + 1).subrange(0, i as int) =~= ns.take(i as int));
            assert(ns.take(i + 1)[i as int] == ns[i as int]);
            lemma_qsizes_elem(ns, i as int);
            assert(qrows_view(out@).len() == out@.len());
            assert(qflat_list(ns.take(i + 1), depth as nat, parent, cs, prefix@, base) == done + qflat_node(
                ns[i as int],
                depth as nat,
                parent,
                cs,
                prefix@,
                base + done.len(),
            ));
        }
        let c = &nodes[i];
        let name = chars_of(c.name.as_str());
        let full = if prefix.len() == 0 {
            chars_of(c.name.as_str())
        } else {
            concat_slash(prefix, &name)
        };
        let my_index = out.len() as i32;
        let ghost before = qrows_view(out@);
        if c.is_leaf {
            let row = QRow {
                depth: depth as i32,
                is_dir: false,
                expanded: false,
                visible: true,
                name: c.name.clone(),
                icon: c.icon.clone(),
                added: c.added,
                removed: c.removed,
                item_index: c.item_index,
                parent,
            };
            out.push(row);
            assert(qrows_view(out@) =~= before.push(row@));
        } else {
            let exp = !is_collapsed(collapsed, &full);
            let row = QRow {
                depth: depth as i32,
                is_dir: true,
                expanded: exp,
                visible: true,
                name: c.name.clone(),
                icon: owned("\u{1f4c1}"),
                added: 0,
                removed: 0,
                item_index: -1,
                parent,
            };
            out.push(row);
            assert(depth < out.len());
            assert(qrows_view(out@) =~= before.push(row@));
            proof {
                lemma_qnodes_view(c.children@);
            }
            qflatten(&c.children, depth + 1, my_index, out, collapsed, &full);
        }
        assert(qrows_view(out@) =~= start + qflat_list(ns.take(i + 1), depth as nat, parent, cs, prefix@, base));
        i = i + 1;
    }
    assert(ns.take(nodes@.len() as int) =~= ns);
}

/// Every row's parent comes before it (or is negative, at the top).
pub open spec fn parents_ok(rows: Seq<QRowV>) -> bool {
    forall|k: int| 0 <= k < rows.len() ==> (#[trigger] rows[k]).parent < k
}

/// Whether row `p` and every row above it through the parents is expanded.
pub open spec fn chain_open(rows: Seq<QRowV>, p: int) -> bool
    decreases p,
{
    if p < 0 || p >= rows.len() {
        true
    } else {
        let q = rows[p].parent as int;
        rows[p].expanded && if 0 <= q < p {
            chain_open(rows, q)
        } else {
            true
        }
    }
}

/// The rows with each `visible` flag recomputed through the parents.
pub open spec fn with_parent_visibility(rows: Seq<QRowV>) -> Seq<QRowV> {
    Seq::new(rows.len(), |i: int| QRowV { visible: chain_open(rows, rows[i].parent as int), ..rows[i] })
}

/// A row is visible exactly when every folder above it, up through the
/// parents, is expanded.
pub fn recompute_parent_visibility(tree: &mut Vec<QRow>)
    requires
        parents_ok(qrows_view(old(tree)@)),
    ensures
        qrows_view(final(tree)@) == with_parent_visibility(qrows_view(old(tree)@)),
{
    let ghost rows = qrows_view(tree@);
    let mut i: usize = 0;
    while i < tree.len()
        invariant
            rows.len() == tree@.len(),
            parents_ok(rows),
            i <= tree@.len(),
            forall|k: int| 0 <= k < tree@.len() ==> (#[trigger] tree@[k])@ == (if k < i {
                QRowV { visible: chain_open(rows, rows[k].parent as int), ..rows[k] }
            } else {
                rows[k]
            }),
        decreases tree@.len() - i,
    {
        assert(tree@[i as int]@ == rows[i as int]);
        let mut vis = true;
        let mut p: i32 = tree[i].parent;
        while p >= 0 && vis
            invariant
                rows.len() == tree@.len(),
                parents_ok(rows),
                i < tree@.len(),
                p < i,
                forall|k: int| 0 <= k < tree@.len() ==> (#[trigger] tree@[k])@ == (if k < i {
                    QRowV { visible: chain_open(rows, rows[k].parent as int), ..rows[k] }
                } else {
                    rows[k]
                }),
                chain_open(rows, rows[i as int].parent as int) == (vis && chain_open(rows, p as int)),
            decreases if p >= 0 { p + 1 } else { 0 }, if vis { 1int } else { 0int },
        {
            let pi = p as usize;
            assert(tree@[pi as int]@.expanded == rows[pi as int].expanded);
            assert(tree@[pi as int]@.parent == rows[pi as int].parent);
            if !tree[pi].expanded {
                vis = false;
            } else {
                p = tree[pi].parent;
            }
        }
        tree[i].visible = vis;
        i = i + 1;
    }
    assert(qrows_view(tree@) =~= with_parent_visibility(rows));
}

/// The path of row `i`: the names up through the parents, joined with `/`.
pub open spec fn path_of(rows: Seq<QRowV>, i: int) -> Seq<char>
    decreases i,
{
    if i < 0 || i >= rows.len() {
        Seq::empty()
    } else {
        let q = rows[i].parent as int;
        if 0 <= q < i {
            path_of(rows, q).push('/') + rows[i].name
        } else {
            rows[i].name
        }
    }
}

/// The full path of row `i`, by which a folder is remembered as collapsed.
pub fn node_path(tree: &Vec<QRow>, i: usize) -> (s: String)
    requires
        i < tree@.len(),
        parents_ok(qrows_view(tree@)),
    ensures
        s@ == path_of(qrows_view(tree@), i as int),
    decreases i,
{
    let ghost rows = qrows_view(tree@);
    assert(rows[i as int] == tree@[i as int]@);
    let q = tree[i].parent;
    if q >= 0 {
        let mut s = node_path(tree, q as usize);
        push_char(&mut s, '/');
        s.append(tree[i].name.as_str());
        s
    } else {
        tree[i].name.clone()
    }
}

/// The rows after a click on row `i`: a folder flips, anything else stays.
pub open spec fn qtoggled(rows: Seq<QRowV>, i: int) -> Seq<QRowV> {
    if 0 <= i < rows.len() && rows[i].is_dir {
        rows.update(i, QRowV { expanded: !rows[i].expanded, ..rows[i] })
    } else {
        rows
    }
}

fn remove_key(keys: &mut Vec<String>, key: &Vec<char>)
    ensures
        key_set(final(keys)@) == key_set(old(keys)@).remove(key@),
{
    let ghost old_set = key_set(keys@);
    let mut kept: Vec<String> = Vec::new();
    let mut i: usize = 0;
    while i < keys.len()
        invariant
            old_set == key_set(keys@),
            i <= keys@.len(),
            forall|j: int| 0 <= j < kept@.len() ==> (#[trigger] kept@[j])@ != key@,
            forall|s: Seq<char>| s != key@ ==> (key_set(kept@).contains(s) <==> exists|j: int|
                0 <= j < i && (#[trigger] keys@[j])@ == s),
        decreases keys@.len() - i,
    {
        let c = chars_of(keys[i].as_str());
        if !same_chars(&c, key) {
            let ghost before = kept@;
            kept.push(string_of(&c));
            assert forall|s: Seq<char>| s != key@ implies (key_set(kept@).contains(s) <==> exists|j: int|
                0 <= j < i + 1 && (#[trigger] keys@[j])@ == s) by {
                if key_set(kept@).contains(s) {
                    let t = choose|t: int| 0 <= t < kept@.len() && #[trigger] kept@[t]@ == s;
                    if t < before.len() {
                        assert(key_set(before).contains(s));
                    }
                }
                if exists|j: int| 0 <= j < i + 1 && (#[trigger] keys@[j])@ == s {
                    let j = choose|j: int| 0 <= j < i + 1 && (#[trigger] keys@[j])@ == s;
                    if j < i {
                        assert(key_set(before).contains(s));
                        let t = choose|t: int| 0 <= t < before.len() && #[trigger] before[t]@ == s;
                        assert(kept@[t] == before[t]);
                    } else {
                        assert(kept@[before.len() as int]@ == s);
                    }
                }
            }
        }
        i = i + 1;
    }
    assert forall|s: Seq<char>| key_set(kept@).contains(s) == old_set.remove(key@).contains(s) by {
        if s == key@ && key_set(kept@).contains(s) {
            let t = choose|t: int| 0 <= t < kept@.len() && #[trigger] kept@[t]@ == s;
        }
    }
    assert(key_set(kept@) =~= old_set.remove(key@));
    *keys = kept;
}

fn insert_key(keys: &mut Vec<String>, key: &Vec<char>)
    ensures
        key_set(final(keys)@) == key_set(old(keys)@).insert(key@),
{
    let ghost old_set = key_set(keys@);
    let ghost pre = keys@;
    if !is_collapsed(keys, key) {
        keys.push(string_of(key));
        assert forall|s: Seq<char>| key_set(keys@).contains(s) == old_set.insert(key@).contains(s) by {
            if s == key@ {
                assert(keys@[pre.len() as int]@ == s);
            } else {
                if key_set(keys@).contains(s) {
                    let t = choose|t: int| 0 <= t < keys@.len() && #[trigger] keys@[t]@ == s;
                    assert(t < pre.len());
                    assert(pre[t] == keys@[t]);
                }
                if old_set.contains(s) {
                    let t = choose|t: int| 0 <= t < pre.len() && #[trigger] pre[t]@ == s;
                    assert(keys@[t] == pre[t]);
                }
            }
        }
        assert(key_set(keys@) =~= old_set.insert(key@));
    } else {
        assert(old_set.insert(key@) =~= old_set);
    }
}

/// The collapsed paths after a click on row `i`: a folder's path joins them
/// when it closes and leaves them when it opens.
pub open spec fn toggled_keys(rows: Seq<QRowV>, cs: Set<Seq<char>>, i: int) -> Set<Seq<char>> {
    if 0 <= i < rows.len() && rows[i].is_dir {
        if rows[i].expanded {
            cs.insert(path_of(rows, i))
        } else {
            cs.remove(path_of(rows, i))
        }
    } else {
        cs
    }
}

/// A click on row `i`: a folder flips, its path leaves the collapsed set when
/// it opens and joins it when it closes, and visibility is recomputed.
pub fn toggle_row(tree: &mut Vec<QRow>, collapsed: &mut Vec<String>, i: usize)
    requires
        parents_ok(qrows_view(old(tree)@)),
    ensures
        qrows_view(final(tree)@) == with_parent_visibility(qtoggled(qrows_view(old(tree)@), i as int)),
        key_set(final(collapsed)@) == toggled_keys(qrows_view(old(tree)@), key_set(old(collapsed)@), i as int),
{
    let ghost rows = qrows_view(tree@);
    if i < tree.len() && tree[i].is_dir {
        assert(rows[i as int] == tree@[i as int]@);
        let now_expanded = !tree[i].expanded;
        tree[i].expanded = now_expanded;
        assert(qrows_view(tree@) =~= qtoggled(rows, i as int));
        let ghost toggled = qrows_view(tree@);
        assert(parents_ok(toggled));
        let full = node_path(tree, i);
        proof {
            lemma_path_of_same(rows, toggled, i as int);
        }
        let fc = chars_of(full.as_str());
        if now_expanded {
            remove_key(collapsed, &fc);
        } else {
            insert_key(collapsed, &fc);
        }
    } else {
        assert(qrows_view(tree@) =~= qtoggled(rows, i as int));
    }
    recompute_parent_visibility(tree);
}

/// Paths depend only on names and parents.
proof fn lemma_path_of_same(a: Seq<QRowV>, b: Seq<QRowV>, i: int)
    requires
        a.len() == b.len(),
        forall|k: int| 0 <= k < a.len() ==> (#[trigger] a[k]).name == b[k].name && a[k].parent == b[k].parent,
    ensures
        path_of(a, i) == path_of(b, i),
    decreases i,
{
    if 0 <= i < a.len() {
        let q = a[i].parent as int;
        if 0 <= q < i {
            lemma_path_of_same(a, b, q);
        }
    }
}

/// The flat tree of the file list: built, folded, sorted, flattened and
/// given its visibility.
pub open spec fn qtree_rows(entries: Seq<FileEntry>, cs: Set<Seq<char>>) -> Seq<QRowV> {
    with_parent_visibility(qflat_list(qsort_seq(qsorted_list(qcollapse_list(qtree(entries)))), 0, -1i32, cs, Seq::empty(), 0))
}

/// Every row made by flattening has its parent before it.
proof fn lemma_qflat_parents(ns: Seq<QNodeV>, depth: nat, parent: i32, cs: Set<Seq<char>>, prefix: Seq<char>, start: nat)
    requires
        parent < start,
    ensures
        qflat_list(ns, depth, parent, cs, prefix, start).len() <= qsizes(ns),
        forall|k: int|
            0 <= k < qflat_list(ns, depth, parent, cs, prefix, start).len() ==> (#[trigger] qflat_list(
                ns,
                depth,
                parent,
                cs,
                prefix,
                start,
            )[k]).parent < start + k,
    decreases qsizes(ns), 1nat,
{
    if ns.len() > 0 {
        let pre_ns = ns.subrange(0, ns.len() - 1);
        let last = ns[ns.len() - 1];
        lemma_qsizes_elem(ns, ns.len() - 1);
        lemma_qflat_parents(pre_ns, depth, parent, cs, prefix, start);
        let pre = qflat_list(pre_ns, depth, parent, cs, prefix, start);
        assert(qsizes(ns) == qsizes(pre_ns) + qsize(last));
        lemma_qflat_node_parents(last, depth, parent, cs, prefix, start + pre.len());
        let tail = qflat_node(last, depth, parent, cs, prefix, start + pre.len());
        let all = qflat_list(ns, depth, parent, cs, prefix, start);
        assert(all == pre + tail);
        assert forall|k: int| 0 <= k < all.len() implies (#[trigger] all[k]).parent < start + k by {
            if k < pre.len() {
                assert(all[k] == pre[k]);
            } else {
                assert(all[k] == tail[k - pre.len()]);
            }
        }
    }
}

proof fn lemma_qflat_node_parents(c: QNodeV, depth: nat, parent: i32, cs: Set<Seq<char>>, prefix: Seq<char>, idx: nat)
    requires
        parent < idx,
    ensures
        qflat_node(c, depth, parent, cs, prefix, idx).len() <= qsize(c),
        forall|k: int|
            0 <= k < qflat_node(c, depth, parent, cs, prefix, idx).len() ==> (#[trigger] qflat_node(
                c,
                depth,
                parent,
                cs,
                prefix,
                idx,
            )[k]).parent < idx + k,
    decreases qsize(c), 0nat,
{
    if !c.is_leaf {
        let full = join_key(prefix, c.name);
        assert((idx as i32) <= idx) by {
            if idx <= i32::MAX {
                assert((idx as i32) == idx);
            }
        }
        lemma_qflat_parents(c.children, depth + 1, idx as i32, cs, full, idx + 1);
        let rest = qflat_list(c.children, depth + 1, idx as i32, cs, full, idx + 1);
        let all = qflat_node(c, depth, parent, cs, prefix, idx);
        assert forall|k: int| 0 <= k < all.len() implies (#[trigger] all[k]).parent < idx + k by {
            if k > 0 {
                assert(all[k] == rest[k - 1]);
            }
        }
    }
}

/// Builds the flat tree of the file list: every file under its folders,
/// single-folder chains folded, folders before files and each by name, the
/// folders whose paths are collapsed closed, and each row visible exactly
/// when the folders above it are open.
pub fn qt_tree(entries: &Vec<FileEntry>, collapsed: &Vec<String>) -> (rows: Vec<QRow>)
    ensures
        qrows_view(rows@) == qtree_rows(entries@, key_set(collapsed@)),
{
    let roots = build_qtree(entries);
    let roots = qcollapse_nodes(roots);
    let roots = qsort_nodes(roots);
    let roots = qsort_vec(roots);
    let mut out: Vec<QRow> = Vec::new();
    let top: Vec<char> = Vec::new();
    assert(top@ =~= Seq::<char>::empty());
    qflatten(&roots, 0, -1, &mut out, collapsed, &top);
    proof {
        lemma_qflat_parents(qnodes_view(roots@), 0, -1i32, key_set(collapsed@), Seq::empty(), 0);
        assert(qrows_view(out@) =~= qflat_list(qnodes_view(roots@), 0, -1i32, key_set(collapsed@), Seq::empty(), 0));
    }
    recompute_parent_visibility(&mut out);
    out
}

/// Whether a row's chain of parents is open depends only on the parents and
/// the expanded flags.
proof fn lemma_chain_open_same(a: Seq<QRowV>, b: Seq<QRowV>, p: int)
    requires
        a.len() == b.len(),
        forall|k: int| 0 <= k < a.len() ==> (#[trigger] a[k]).parent == b[k].parent && a[k].expanded == b[k].expanded,
    ensures
        chain_open(a, p) == chain_open(b, p),
    decreases p,
{
    if 0 <= p < a.len() {
        let q = a[p].parent as int;
        if 0 <= q < p {
            lemma_chain_open_same(a, b, q);
        }
    }
}

/// Clicking the same row twice gives back the rows and the collapsed paths,
/// when the rows' visibility is settled and, for a folder, the collapsed
/// paths hold its own path exactly when it is closed.
pub proof fn law_toggle_row_twice(rows: Seq<QRowV>, cs: Set<Seq<char>>, i: int)
    requires
        parents_ok(rows),
        rows == with_parent_visibility(rows),
        0 <= i < rows.len() && rows[i].is_dir ==> (cs.contains(path_of(rows, i)) == !rows[i].expanded),
    ensures
        ({
            let once = with_parent_visibility(qtoggled(rows, i));
            &&& with_parent_visibility(qtoggled(once, i)) == rows
            &&& toggled_keys(once, toggled_keys(rows, cs, i), i) == cs
        }),
{
    let t1 = qtoggled(rows, i);
    let once = with_parent_visibility(t1);
    let t2 = qtoggled(once, i);
    assert(t2.len() == rows.len());
    assert forall|k: int| 0 <= k < rows.len() implies (#[trigger] t2[k]).parent == rows[k].parent
        && t2[k].expanded == rows[k].expanded && t2[k].name == rows[k].name && t2[k].is_dir == rows[k].is_dir by {
        assert(once[k] == QRowV { visible: chain_open(t1, t1[k].parent as int), ..t1[k] });
    }
    assert forall|k: int| 0 <= k < rows.len() implies #[trigger] with_parent_visibility(t2)[k] == rows[k] by {
        lemma_chain_open_same(t2, rows, t2[k].parent as int);
        assert(rows[k] == with_parent_visibility(rows)[k]);
        assert(once[k] == QRowV { visible: chain_open(t1, t1[k].parent as int), ..t1[k] });
    }
    assert(with_parent_visibility(t2) =~= rows);
    assert forall|k: int| 0 <= k < rows.len() implies (#[trigger] once[k]).name == rows[k].name && once[k].parent == rows[k].parent by {
        assert(once[k] == QRowV { visible: chain_open(t1, t1[k].parent as int), ..t1[k] });
    }
    lemma_path_of_same(once, rows, i);
    if 0 <= i < rows.len() && rows[i].is_dir {
        assert(once[i] == QRowV { visible: chain_open(t1, t1[i].parent as int), ..t1[i] });
        assert(toggled_keys(once, toggled_keys(rows, cs, i), i) =~= cs);
    }
}

/// Recomputing visibility a second time changes nothing.
proof fn lemma_visibility_settles(rows: Seq<QRowV>)
    ensures
        with_parent_visibility(with_parent_visibility(rows)) == with_parent_visibility(rows),
{
    let w = with_parent_visibility(rows);
    assert forall|k: int| 0 <= k < rows.len() implies #[trigger] with_parent_visibility(w)[k] == w[k] by {
        lemma_chain_open_same(w, rows, w[k].parent as int);
    }
    assert(with_parent_visibility(w) =~= w);
}

/// The rows built from any file list have each parent before its child and
/// a settled visibility, so clicks on them behave as `law_toggle_row_twice`
/// says.
pub proof fn law_built_rows_settled(entries: Seq<FileEntry>, cs: Set<Seq<char>>)
    ensures
        parents_ok(qtree_rows(entries, cs)),
        with_parent_visibility(qtree_rows(entries, cs)) == qtree_rows(entries, cs),
{
    let flat = qflat_list(qsort_seq(qsorted_list(qcollapse_list(qtree(entries)))), 0, -1i32, cs, Seq::empty(), 0);
    lemma_qflat_parents(qsort_seq(qsorted_list(qcollapse_list(qtree(entries)))), 0, -1i32, cs, Seq::empty(), 0);
    let rows = qtree_rows(entries, cs);
    assert forall|k: int| 0 <= k < rows.len() implies (#[trigger] rows[k]).parent < k by {
        assert(rows[k].parent == flat[k].parent);
    }
    lemma_visibility_settles(flat);
}

/// Nodes in order: no node orders before an earlier one.
pub open spec fn qin_order(s: Seq<QNodeV>) -> bool {
    forall|i: int, j: int| 0 <= i < j < s.len() ==> !qkey_lt(#[trigger] s[j], #[trigger] s[i])
}

proof fn lemma_qkey_lt_transitive(a: QNodeV, b: QNodeV, c: QNodeV)
    requires
        qkey_lt(a, b),
        qkey_lt(b, c),
    ensures
        qkey_lt(a, c),
{
    if a.is_leaf == b.is_leaf && b.is_leaf == c.is_leaf {
        crate::keyed_tree::lemma_str_lt_transitive(a.name, b.name, c.name);
    }
}

proof fn lemma_qkey_lt_asymmetric(a: QNodeV, b: QNodeV)
    requires
        qkey_lt(a, b),
    ensures
        !qkey_lt(b, a),
{
    if a.is_leaf == b.is_leaf {
        crate::keyed_tree::lemma_str_lt_asymmetric(a.name, b.name);
    }
}

proof fn lemma_qins_pos_props(s: Seq<QNodeV>, x: QNodeV)
    ensures
        qins_pos(s, x) <= s.len(),
        forall|j: int| 0 <= j < qins_pos(s, x) ==> !qkey_lt(x, #[trigger] s[j]),
        qins_pos(s, x) < s.len() ==> qkey_lt(x, s[qins_pos(s, x) as int]),
    decreases s.len(),
{
    if s.len() > 0 && !qkey_lt(x, s[0]) {
        lemma_qins_pos_props(s.drop_first(), x);
        assert forall|j: int| 0 <= j < qins_pos(s, x) implies !qkey_lt(x, #[trigger] s[j]) by {
            if j > 0 {
                assert(s[j] == s.drop_first()[j - 1]);
            }
        }
        if qins_pos(s, x) < s.len() {
            assert(s[qins_pos(s, x) as int] == s.drop_first()[qins_pos(s, x) - 1]);
        }
    }
}

/// Sorting a level gives the same nodes, folders first and then by name,
/// nodes of equal keys in their first order.
pub proof fn law_qsort(ns: Seq<QNodeV>)
    ensures
        qin_order(qsort_seq(ns)),
        qsort_seq(ns).to_multiset() == ns.to_multiset(),
    decreases ns.len(),
{
    broadcast use vstd::seq_lib::to_multiset_insert, vstd::seq_lib::to_multiset_build;
    if ns.len() == 0 {
        assert(qsort_seq(ns) =~= ns);
    } else {
        let pre = ns.drop_last();
        let x = ns.last();
        law_qsort(pre);
        let s = qsort_seq(pre);
        let p = qins_pos(s, x) as int;
        lemma_qins_pos_props(s, x);
        let r = s.insert(p, x);
        assert(qsort_seq(ns) == r);
        assert forall|i: int, j: int| 0 <= i < j < r.len() implies !qkey_lt(#[trigger] r[j], #[trigger] r[i]) by {
            if j < p {
                assert(r[i] == s[i] && r[j] == s[j]);
            } else if j == p {
                assert(r[i] == s[i]);
            } else if i == p {
                assert(r[j] == s[j - 1]);
                if qkey_lt(s[j - 1], x) {
                    if j - 1 == p {
                        lemma_qkey_lt_asymmetric(x, s[p]);
                    } else {
                        lemma_qkey_lt_transitive(s[j - 1], x, s[p]);
                    }
                }
            } else if i < p {
                assert(r[i] == s[i] && r[j] == s[j - 1]);
            } else {
                assert(r[i] == s[i - 1] && r[j] == s[j - 1]);
            }
        }
        assert(ns =~= pre.push(x));
    }
}

/// The item indices of the leaves of a node.
pub open spec fn qleaves(n: QNodeV) -> Multiset<i32>
    decreases qsize(n), 0nat,
{
    if n.is_leaf {
        Multiset::singleton(n.item_index)
    } else {
        qleaves_list(n.children)
    }
}

pub open spec fn qleaves_list(ns: Seq<QNodeV>) -> Multiset<i32>
    decreases qsizes(ns), 1nat,
{
    if ns.len() == 0 {
        Multiset::empty()
    } else {
        proof {
            lemma_qsizes_elem(ns, ns.len() - 1);
        }
        qleaves_list(ns.subrange(0, ns.len() - 1)).add(qleaves(ns[ns.len() - 1]))
    }
}

/// The item indices of the file rows.
pub open spec fn qrow_items(rows: Seq<QRowV>) -> Multiset<i32>
    decreases rows.len(),
{
    if rows.len() == 0 {
        Multiset::empty()
    } else {
        qrow_items(rows.drop_last()).add(
            if rows.last().is_dir {
                Multiset::empty()
            } else {
                Multiset::singleton(rows.last().item_index)
            },
        )
    }
}

/// The item indices of the entries whose paths have at least one component.
pub open spec fn named_entries(entries: Seq<FileEntry>) -> Multiset<i32>
    decreases entries.len(),
{
    if entries.len() == 0 {
        Multiset::empty()
    } else if components(entries.last().path@).len() > 0 {
        named_entries(entries.drop_last()).insert(entries.last().item_index)
    } else {
        named_entries(entries.drop_last())
    }
}

proof fn lemma_qrow_items_concat(a: Seq<QRowV>, b: Seq<QRowV>)
    ensures
        qrow_items(a + b) =~= qrow_items(a).add(qrow_items(b)),
    decreases b.len(),
{
    broadcast use vstd::multiset::group_multiset_axioms;
    if b.len() == 0 {
        assert(a + b =~= a);
    } else {
        lemma_qrow_items_concat(a, b.drop_last());
        assert((a + b).drop_last() =~= a + b.drop_last());
        assert((a + b).last() == b.last());
    }
}

proof fn lemma_qleaves_push(ns: Seq<QNodeV>, x: QNodeV)
    ensures
        qleaves_list(ns.push(x)) =~= qleaves_list(ns).add(qleaves(x)),
{
    assert(ns.push(x).subrange(0, ns.len() as int) =~= ns);
}

proof fn lemma_qleaves_insert(ns: Seq<QNodeV>, p: int, x: QNodeV)
    requires
        0 <= p <= ns.len(),
    ensures
        qleaves_list(ns.insert(p, x)) =~= qleaves_list(ns).add(qleaves(x)),
    decreases ns.len(),
{
    broadcast use vstd::multiset::group_multiset_axioms;
    let r = ns.insert(p, x);
    if p == ns.len() {
        assert(r =~= ns.push(x));
        lemma_qleaves_push(ns, x);
    } else {
        let last = ns.len() - 1;
        let pre = ns.subrange(0, last);
        lemma_qleaves_insert(pre, p, x);
        assert(r.subrange(0, r.len() - 1) =~= pre.insert(p, x));
        assert(r[r.len() - 1] == ns[last]);
    }
}

proof fn lemma_qleaves_update(ns: Seq<QNodeV>, p: int, x: QNodeV)
    requires
        0 <= p < ns.len(),
    ensures
        qleaves_list(ns.update(p, x)).add(qleaves(ns[p])) =~= qleaves_list(ns).add(qleaves(x)),
    decreases ns.len(),
{
    broadcast use vstd::multiset::group_multiset_axioms;
    let last = ns.len() - 1;
    let pre = ns.subrange(0, last);
    let up = ns.update(p, x);
    assert(qleaves_list(ns) == qleaves_list(pre).add(qleaves(ns[last])));
    if p == last {
        assert(up.subrange(0, last) =~= pre);
        assert(qleaves_list(up) == qleaves_list(pre).add(qleaves(x)));
    } else {
        lemma_qleaves_update(pre, p, x);
        assert(up.subrange(0, last) =~= pre.update(p, x));
        assert(pre[p] == ns[p]);
        assert(up[last] == ns[last]);
        assert(qleaves_list(up) == qleaves_list(pre.update(p, x)).add(qleaves(ns[last])));
        assert forall|v: i32| #[trigger] qleaves_list(up).add(qleaves(ns[p])).count(v)
            == qleaves_list(ns).add(qleaves(x)).count(v) by {
            assert(qleaves_list(pre.update(p, x)).add(qleaves(pre[p])).count(v)
                == qleaves_list(pre).add(qleaves(x)).count(v));
        }
    }
}

/// Adding an entry under at least one component adds its item index.
proof fn lemma_qinsert_leaves(ns: Seq<QNodeV>, comps: Seq<Seq<char>>, e: FileEntry)
    requires
        comps.len() > 0,
    ensures
        qleaves_list(qinsert(ns, comps, e)) =~= qleaves_list(ns).insert(e.item_index),
    decreases comps.len(),
{
    broadcast use vstd::multiset::group_multiset_axioms;
    let r = qinsert(ns, comps, e);
    if comps.len() == 1 {
        lemma_qleaves_push(ns, qleaf(comps[0], e));
    } else {
        lemma_find_folder(ns, comps[0]);
        match find_folder(ns, comps[0]) {
            Some(p) => {
                let child = ns[p];
                lemma_qinsert_leaves(child.children, comps.drop_first(), e);
                let x = QNodeV { children: qinsert(child.children, comps.drop_first(), e), ..child };
                assert(r == ns.update(p, x));
                lemma_qleaves_update(ns, p, x);
                assert forall|v: i32| #[trigger] qleaves_list(r).count(v) == qleaves_list(ns).insert(e.item_index).count(v) by {
                    assert(qleaves_list(r).add(qleaves(child)).count(v) == qleaves_list(ns).add(qleaves(x)).count(v));
                }
            },
            None => {
                lemma_qinsert_leaves(Seq::empty(), comps.drop_first(), e);
                assert(qleaves_list(Seq::<QNodeV>::empty()) =~= Multiset::empty());
                let x = QNodeV { children: qinsert(Seq::empty(), comps.drop_first(), e), ..qdir(comps[0]) };
                lemma_qleaves_push(ns, x);
            },
        }
    }
}

proof fn lemma_qtree_leaves(entries: Seq<FileEntry>)
    ensures
        qleaves_list(qtree(entries)) =~= named_entries(entries),
    decreases entries.len(),
{
    broadcast use vstd::multiset::group_multiset_axioms;
    if entries.len() == 0 {
        assert(qleaves_list(Seq::<QNodeV>::empty()) =~= Multiset::empty());
    } else {
        lemma_qtree_leaves(entries.drop_last());
        let e = entries.last();
        if components(e.path@).len() > 0 {
            lemma_qinsert_leaves(qtree(entries.drop_last()), components(e.path@), e);
        }
    }
}

proof fn lemma_qcollapse_leaves(n: QNodeV)
    ensures
        qleaves(qcollapse(n)) =~= qleaves(n),
    decreases qsize(n), 0nat,
{
    broadcast use vstd::multiset::group_multiset_axioms;
    let ch = qcollapse_list(n.children);
    lemma_qcollapse_list_leaves(n.children);
    if !n.is_leaf && ch.len() == 1 && !ch[0].is_leaf && n.name.len() > 0 {
        assert(ch.subrange(0, 0) =~= Seq::<QNodeV>::empty());
        assert(qleaves_list(ch.subrange(0, 0)) =~= Multiset::empty());
        assert(qleaves_list(ch) == qleaves_list(ch.subrange(0, 0)).add(qleaves(ch[0])));
        assert(qleaves(ch[0]) == qleaves_list(ch[0].children));
    }
}

proof fn lemma_qcollapse_list_leaves(ns: Seq<QNodeV>)
    ensures
        qleaves_list(qcollapse_list(ns)) =~= qleaves_list(ns),
    decreases qsizes(ns), 1nat,
{
    if ns.len() > 0 {
        let pre = ns.subrange(0, ns.len() - 1);
        lemma_qsizes_elem(ns, ns.len() - 1);
        lemma_qcollapse_list_leaves(pre);
        lemma_qcollapse_leaves(ns[ns.len() - 1]);
        lemma_qleaves_push(qcollapse_list(pre), qcollapse(ns[ns.len() - 1]));
    }
}

proof fn lemma_qsort_seq_leaves(ns: Seq<QNodeV>)
    ensures
        qleaves_list(qsort_seq(ns)) =~= qleaves_list(ns),
    decreases ns.len(),
{
    broadcast use vstd::multiset::group_multiset_axioms;
    if ns.len() > 0 {
        let pre = ns.drop_last();
        lemma_qsort_seq_leaves(pre);
        let s = qsort_seq(pre);
        lemma_qins_pos(s, ns.last());
        lemma_qleaves_insert(s, qins_pos(s, ns.last()) as int, ns.last());
        assert(ns =~= pre.push(ns.last()));
        lemma_qleaves_push(pre, ns.last());
    }
}

proof fn lemma_qsorted_leaves(n: QNodeV)
    ensures
        qleaves(qsorted(n)) =~= qleaves(n),
    decreases qsize(n), 0nat,
{
    if !n.is_leaf {
        lemma_qsorted_list_leaves(n.children);
        lemma_qsort_seq_leaves(qsorted_list(n.children));
    }
}

proof fn lemma_qsorted_list_leaves(ns: Seq<QNodeV>)
    ensures
        qleaves_list(qsorted_list(ns)) =~= qleaves_list(ns),
    decreases qsizes(ns), 1nat,
{
    if ns.len() > 0 {
        let pre = ns.subrange(0, ns.len() - 1);
        lemma_qsizes_elem(ns, ns.len() - 1);
        lemma_qsorted_list_leaves(pre);
        lemma_qsorted_leaves(ns[ns.len() - 1]);
        lemma_qleaves_push(qsorted_list(pre), qsorted(ns[ns.len() - 1]));
    }
}

/// The file rows of the flattened nodes are exactly their leaves.
proof fn lemma_qflat_leaves(ns: Seq<QNodeV>, depth: nat, parent: i32, cs: Set<Seq<char>>, prefix: Seq<char>, start: nat)
    ensures
        qrow_items(qflat_list(ns, depth, parent, cs, prefix, start)) =~= qleaves_list(ns),
    decreases qsizes(ns), 1nat,
{
    if ns.len() > 0 {
        let pre_ns = ns.subrange(0, ns.len() - 1);
        let last = ns[ns.len() - 1];
        lemma_qsizes_elem(ns, ns.len() - 1);
        lemma_qflat_leaves(pre_ns, depth, parent, cs, prefix, start);
        let pre = qflat_list(pre_ns, depth, parent, cs, prefix, start);
        lemma_qrow_items_concat(pre, qflat_node(last, depth, parent, cs, prefix, start + pre.len()));
        lemma_qflat_node_leaves(last, depth, parent, cs, prefix, start + pre.len());
    }
}

proof fn lemma_qflat_node_leaves(c: QNodeV, depth: nat, parent: i32, cs: Set<Seq<char>>, prefix: Seq<char>, idx: nat)
    ensures
        qrow_items(qflat_node(c, depth, parent, cs, prefix, idx)) =~= qleaves(c),
    decreases qsize(c), 0nat,
{
    broadcast use vstd::multiset::group_multiset_axioms;
    let r = qflat_node(c, depth, parent, cs, prefix, idx);
    if c.is_leaf {
        assert(r.drop_last() =~= Seq::<QRowV>::empty());
        assert(qrow_items(r.drop_last()) =~= Multiset::empty());
    } else {
        let full = join_key(prefix, c.name);
        let head = seq![r[0]];
        let rest = qflat_list(c.children, depth + 1, idx as i32, cs, full, idx + 1);
        assert(r == head + rest);
        lemma_qflat_leaves(c.children, depth + 1, idx as i32, cs, full, idx + 1);
        lemma_qrow_items_concat(head, rest);
        assert(head.drop_last() =~= Seq::<QRowV>::empty());
        assert(qrow_items(head.drop_last()) =~= Multiset::empty());
        assert(qrow_items(head) =~= Multiset::empty());
    }
}

proof fn lemma_visibility_keeps_items(rows: Seq<QRowV>)
    ensures
        qrow_items(with_parent_visibility(rows)) =~= qrow_items(rows),
    decreases rows.len(),
{
    if rows.len() > 0 {
        let w = with_parent_visibility(rows);
        lemma_visibility_keeps_items(rows.drop_last());
        let wd = with_parent_visibility(rows.drop_last());
        assert forall|k: int| 0 <= k < wd.len() implies wd[k].is_dir == w.drop_last()[k].is_dir
            && wd[k].item_index == w.drop_last()[k].item_index by {}
        lemma_items_same(w.drop_last(), wd);
    }
}

/// The item multiset depends only on the kinds and item indices of the rows.
proof fn lemma_items_same(a: Seq<QRowV>, b: Seq<QRowV>)
    requires
        a.len() == b.len(),
        forall|k: int| 0 <= k < a.len() ==> (#[trigger] a[k]).is_dir == b[k].is_dir && a[k].item_index == b[k].item_index,
    ensures
        qrow_items(a) == qrow_items(b),
    decreases a.len(),
{
    if a.len() > 0 {
        assert forall|k: int| 0 <= k < a.len() - 1 implies (#[trigger] a.drop_last()[k]).is_dir == b.drop_last()[k].is_dir
            && a.drop_last()[k].item_index == b.drop_last()[k].item_index by {
            assert(a.drop_last()[k] == a[k] && b.drop_last()[k] == b[k]);
        }
        lemma_items_same(a.drop_last(), b.drop_last());
    }
}

/// The item indices and counts of the leaves of a node.
pub open spec fn qcounts(n: QNodeV) -> Multiset<(i32, i32, i32)>
    decreases qsize(n), 0nat,
{
    if n.is_leaf {
        Multiset::singleton((n.item_index, n.added, n.removed))
    } else {
        qcounts_list(n.children)
    }
}

pub open spec fn qcounts_list(ns: Seq<QNodeV>) -> Multiset<(i32, i32, i32)>
    decreases qsizes(ns), 1nat,
{
    if ns.len() == 0 {
        Multiset::empty()
    } else {
        proof {
            lemma_qsizes_elem(ns, ns.len() - 1);
        }
        qcounts_list(ns.subrange(0, ns.len() - 1)).add(qcounts(ns[ns.len() - 1]))
    }
}

/// The item indices and counts of the file rows.
pub open spec fn qrow_counts(rows: Seq<QRowV>) -> Multiset<(i32, i32, i32)>
    decreases rows.len(),
{
    if rows.len() == 0 {
        Multiset::empty()
    } else {
        qrow_counts(rows.drop_last()).add(
            if rows.last().is_dir {
                Multiset::empty()
            } else {
                Multiset::singleton((rows.last().item_index, rows.last().added, rows.last().removed))
            },
        )
    }
}

/// The item indices and counts of the entries whose paths have at least one
/// component.
pub open spec fn named_entry_counts(entries: Seq<FileEntry>) -> Multiset<(i32, i32, i32)>
    decreases entries.len(),
{
    if entries.len() == 0 {
        Multiset::empty()
    } else if components(entries.last().path@).len() > 0 {
        named_entry_counts(entries.drop_last()).insert((entries.last().item_index, entries.last().added, entries.last().removed))
    } else {
        named_entry_counts(entries.drop_last())
    }
}

proof fn lemma_qrow_items_concat_counted(a: Seq<QRowV>, b: Seq<QRowV>)
    ensures
        qrow_counts(a + b) =~= qrow_counts(a).add(qrow_counts(b)),
    decreases b.len(),
{
    broadcast use vstd::multiset::group_multiset_axioms;
    if b.len() == 0 {
        assert(a + b =~= a);
    } else {
        lemma_qrow_items_concat_counted(a, b.drop_last());
        assert((a + b).drop_last() =~= a + b.drop_last());
        assert((a + b).last() == b.last());
    }
}

proof fn lemma_qleaves_push_counted(ns: Seq<QNodeV>, x: QNodeV)
    ensures
        qcounts_list(ns.push(x)) =~= qcounts_list(ns).add(qcounts(x)),
{
    assert(ns.push(x).subrange(0, ns.len() as int) =~= ns);
}

proof fn lemma_qleaves_insert_counted(ns: Seq<QNodeV>, p: int, x: QNodeV)
    requires
        0 <= p <= ns.len(),
    ensures
        qcounts_list(ns.insert(p, x)) =~= qcounts_list(ns).add(qcounts(x)),
    decreases ns.len(),
{
    broadcast use vstd::multiset::group_multiset_axioms;
    let r = ns.insert(p, x);
    if p == ns.len() {
        assert(r =~= ns.push(x));
        lemma_qleaves_push_counted(ns, x);
    } else {
        let last = ns.len() - 1;
        let pre = ns.subrange(0, last);
        lemma_qleaves_insert_counted(pre, p, x);
        assert(r.subrange(0, r.len() - 1) =~= pre.insert(p, x));
        assert(r[r.len() - 1] == ns[last]);
    }
}

proof fn lemma_qleaves_update_counted(ns: Seq<QNodeV>, p: int, x: QNodeV)
    requires
        0 <= p < ns.len(),
    ensures
        qcounts_list(ns.update(p, x)).add(qcounts(ns[p])) =~= qcounts_list(ns).add(qcounts(x)),
    decreases ns.len(),
{
    broadcast use vstd::multiset::group_multiset_axioms;
    let last = ns.len() - 1;
    let pre = ns.subrange(0, last);
    let up = ns.update(p, x);
    assert(qcounts_list(ns) == qcounts_list(pre).add(qcounts(ns[last])));
    if p == last {
        assert(up.subrange(0, last) =~= pre);
        assert(qcounts_list(up) == qcounts_list(pre).add(qcounts(x)));
    } else {
        lemma_qleaves_update_counted(pre, p, x);
        assert(up.subrange(0, last) =~= pre.update(p, x));
        assert(pre[p] == ns[p]);
        assert(up[last] == ns[last]);
        assert(qcounts_list(up) == qcounts_list(pre.update(p, x)).add(qcounts(ns[last])));
        assert forall|v: (i32, i32, i32)| #[trigger] qcounts_list(up).add(qcounts(ns[p])).count(v)
            == qcounts_list(ns).add(qcounts(x)).count(v) by {
            assert(qcounts_list(pre.update(p, x)).add(qcounts(pre[p])).count(v)
                == qcounts_list(pre).add(qcounts(x)).count(v));
        }
    }
}

/// Adding an entry under at least one component adds its item index and counts.
proof fn lemma_qinsert_leaves_counted(ns: Seq<QNodeV>, comps: Seq<Seq<char>>, e: FileEntry)
    requires
        comps.len() > 0,
    ensures
        qcounts_list(qinsert(ns, comps, e)) =~= qcounts_list(ns).insert((e.item_index, e.added, e.removed)),
    decreases comps.len(),
{
    broadcast use vstd::multiset::group_multiset_axioms;
    let r = qinsert(ns, comps, e);
    if comps.len() == 1 {
        lemma_qleaves_push_counted(ns, qleaf(comps[0], e));
    } else {
        lemma_find_folder(ns, comps[0]);
        match find_folder(ns, comps[0]) {
            Some(p) => {
                let child = ns[p];
                lemma_qinsert_leaves_counted(child.children, comps.drop_first(), e);
                let x = QNodeV { children: qinsert(child.children, comps.drop_first(), e), ..child };
                assert(r == ns.update(p, x));
                lemma_qleaves_update_counted(ns, p, x);
                assert forall|v: (i32, i32, i32)| #[trigger] qcounts_list(r).count(v) == qcounts_list(ns).insert((e.item_index, e.added, e.removed)).count(v) by {
                    assert(qcounts_list(r).add(qcounts(child)).count(v) == qcounts_list(ns).add(qcounts(x)).count(v));
                }
            },
            None => {
                lemma_qinsert_leaves_counted(Seq::empty(), comps.drop_first(), e);
                assert(qcounts_list(Seq::<QNodeV>::empty()) =~= Multiset::empty());
                let x = QNodeV { children: qinsert(Seq::empty(), comps.drop_first(), e), ..qdir(comps[0]) };
                lemma_qleaves_push_counted(ns, x);
            },
        }
    }
}

proof fn lemma_qtree_leaves_counted(entries: Seq<FileEntry>)
    ensures
        qcounts_list(qtree(entries)) =~= named_entry_counts(entries),
    decreases entries.len(),
{
    broadcast use vstd::multiset::group_multiset_axioms;
    if entries.len() == 0 {
        assert(qcounts_list(Seq::<QNodeV>::empty()) =~= Multiset::empty());
    } else {
        lemma_qtree_leaves_counted(entries.drop_last());
        let e = entries.last();
        if components(e.path@).len() > 0 {
            lemma_qinsert_leaves_counted(qtree(entries.drop_last()), components(e.path@), e);
        }
    }
}

proof fn lemma_qcollapse_leaves_counted(n: QNodeV)
    ensures
        qcounts(qcollapse(n)) =~= qcounts(n),
    decreases qsize(n), 0nat,
{
    broadcast use vstd::multiset::group_multiset_axioms;
    let ch = qcollapse_list(n.children);
    lemma_qcollapse_list_leaves_counted(n.children);
    if !n.is_leaf && ch.len() == 1 && !ch[0].is_leaf && n.name.len() > 0 {
        assert(ch.subrange(0, 0) =~= Seq::<QNodeV>::empty());
        assert(qcounts_list(ch.subrange(0, 0)) =~= Multiset::empty());
        assert(qcounts_list(ch) == qcounts_list(ch.subrange(0, 0)).add(qcounts(ch[0])));
        assert(qcounts(ch[0]) == qcounts_list(ch[0].children));
    }
}

proof fn lemma_qcollapse_list_leaves_counted(ns: Seq<QNodeV>)
    ensures
        qcounts_list(qcollapse_list(ns)) =~= qcounts_list(ns),
    decreases qsizes(ns), 1nat,
{
    if ns.len() > 0 {
        let pre = ns.subrange(0, ns.len() - 1);
        lemma_qsizes_elem(ns, ns.len() - 1);
        lemma_qcollapse_list_leaves_counted(pre);
        lemma_qcollapse_leaves_counted(ns[ns.len() - 1]);
        lemma_qleaves_push_counted(qcollapse_list(pre), qcollapse(ns[ns.len() - 1]));
    }
}

proof fn lemma_qsort_seq_leaves_counted(ns: Seq<QNodeV>)
    ensures
        qcounts_list(qsort_seq(ns)) =~= qcounts_list(ns),
    decreases ns.len(),
{
    broadcast use vstd::multiset::group_multiset_axioms;
    if ns.len() > 0 {
        let pre = ns.drop_last();
        lemma_qsort_seq_leaves_counted(pre);
        let s = qsort_seq(pre);
        lemma_qins_pos(s, ns.last());
        lemma_qleaves_insert_counted(s, qins_pos(s, ns.last()) as int, ns.last());
        assert(ns =~= pre.push(ns.last()));
        lemma_qleaves_push_counted(pre, ns.last());
    }
}

proof fn lemma_qsorted_leaves_counted(n: QNodeV)
    ensures
        qcounts(qsorted(n)) =~= qcounts(n),
    decreases qsize(n), 0nat,
{
    if !n.is_leaf {
        lemma_qsorted_list_leaves_counted(n.children);
        lemma_qsort_seq_leaves_counted(qsorted_list(n.children));
    }
}

proof fn lemma_qsorted_list_leaves_counted(ns: Seq<QNodeV>)
    ensures
        qcounts_list(qsorted_list(ns)) =~= qcounts_list(ns),
    decreases qsizes(ns), 1nat,
{
    if ns.len() > 0 {
        let pre = ns.subrange(0, ns.len() - 1);
        lemma_qsizes_elem(ns, ns.len() - 1);
        lemma_qsorted_list_leaves_counted(pre);
        lemma_qsorted_leaves_counted(ns[ns.len() - 1]);
        lemma_qleaves_push_counted(qsorted_list(pre), qsorted(ns[ns.len() - 1]));
    }
}

/// The file rows of the flattened nodes carry exactly their leaves' counts.
proof fn lemma_qflat_leaves_counted(ns: Seq<QNodeV>, depth: nat, parent: i32, cs: Set<Seq<char>>, prefix: Seq<char>, start: nat)
    ensures
        qrow_counts(qflat_list(ns, depth, parent, cs, prefix, start)) =~= qcounts_list(ns),
    decreases qsizes(ns), 1nat,
{
    if ns.len() > 0 {
        let pre_ns = ns.subrange(0, ns.len() - 1);
        let last = ns[ns.len() - 1];
        lemma_qsizes_elem(ns, ns.len() - 1);
        lemma_qflat_leaves_counted(pre_ns, depth, parent, cs, prefix, start);
        let pre = qflat_list(pre_ns, depth, parent, cs, prefix, start);
        lemma_qrow_items_concat_counted(pre, qflat_node(last, depth, parent, cs, prefix, start + pre.len()));
        lemma_qflat_node_leaves_counted(last, depth, parent, cs, prefix, start + pre.len());
    }
}

proof fn lemma_qflat_node_leaves_counted(c: QNodeV, depth: nat, parent: i32, cs: Set<Seq<char>>, prefix: Seq<char>, idx: nat)
    ensures
        qrow_counts(qflat_node(c, depth, parent, cs, prefix, idx)) =~= qcounts(c),
    decreases qsize(c), 0nat,
{
    broadcast use vstd::multiset::group_multiset_axioms;
    let r = qflat_node(c, depth, parent, cs, prefix, idx);
    if c.is_leaf {
        assert(r.drop_last() =~= Seq::<QRowV>::empty());
        assert(qrow_counts(r.drop_last()) =~= Multiset::empty());
    } else {
        let full = join_key(prefix, c.name);
        let head = seq![r[0]];
        let rest = qflat_list(c.children, depth + 1, idx as i32, cs, full, idx + 1);
        assert(r == head + rest);
        lemma_qflat_leaves_counted(c.children, depth + 1, idx as i32, cs, full, idx + 1);
        lemma_qrow_items_concat_counted(head, rest);
        assert(head.drop_last() =~= Seq::<QRowV>::empty());
        assert(qrow_counts(head.drop_last()) =~= Multiset::empty());
        assert(qrow_counts(head) =~= Multiset::empty());
    }
}

proof fn lemma_visibility_keeps_items_counted(rows: Seq<QRowV>)
    ensures
        qrow_counts(with_parent_visibility(rows)) =~= qrow_counts(rows),
    decreases rows.len(),
{
    if rows.len() > 0 {
        let w = with_parent_visibility(rows);
        lemma_visibility_keeps_items_counted(rows.drop_last());
        let wd = with_parent_visibility(rows.drop_last());
        assert forall|k: int| 0 <= k < wd.len() implies wd[k].is_dir == w.drop_last()[k].is_dir
            && wd[k].item_index == w.drop_last()[k].item_index
            && wd[k].added == w.drop_last()[k].added && wd[k].removed == w.drop_last()[k].removed by {}
        lemma_items_same_counted(w.drop_last(), wd);
    }
}

/// The multiset depends only on the kinds, item indices and counts of the rows.
proof fn lemma_items_same_counted(a: Seq<QRowV>, b: Seq<QRowV>)
    requires
        a.len() == b.len(),
        forall|k: int| 0 <= k < a.len() ==> (#[trigger] a[k]).is_dir == b[k].is_dir && a[k].item_index == b[k].item_index && a[k].added == b[k].added && a[k].removed == b[k].removed,
    ensures
        qrow_counts(a) == qrow_counts(b),
    decreases a.len(),
{
    if a.len() > 0 {
        assert forall|k: int| 0 <= k < a.len() - 1 implies (#[trigger] a.drop_last()[k]).is_dir == b.drop_last()[k].is_dir
            && a.drop_last()[k].item_index == b.drop_last()[k].item_index
            && a.drop_last()[k].added == b.drop_last()[k].added && a.drop_last()[k].removed == b.drop_last()[k].removed by {
            assert(a.drop_last()[k] == a[k] && b.drop_last()[k] == b[k]);
        }
        lemma_items_same_counted(a.drop_last(), b.drop_last());
    }
}

/// Whatever is collapsed, the file rows show each entry whose path names
/// something once, with that entry's added and removed counts under its item
/// index, and no other file.
pub proof fn law_file_rows_carry_entry_counts(entries: Seq<FileEntry>, cs: Set<Seq<char>>)
    ensures
        qrow_counts(qtree_rows(entries, cs)) =~= named_entry_counts(entries),
{
    let t = qtree(entries);
    lemma_qtree_leaves_counted(entries);
    lemma_qcollapse_list_leaves_counted(t);
    lemma_qsorted_list_leaves_counted(qcollapse_list(t));
    lemma_qsort_seq_leaves_counted(qsorted_list(qcollapse_list(t)));
    let sorted = qsort_seq(qsorted_list(qcollapse_list(t)));
    lemma_qflat_leaves_counted(sorted, 0, -1i32, cs, Seq::empty(), 0);
    lemma_visibility_keeps_items_counted(qflat_list(sorted, 0, -1i32, cs, Seq::empty(), 0));
}

/// Whatever is collapsed, every entry whose path names something is exactly
/// one file row (under its item index), and no other row is a file row.
pub proof fn law_every_entry_has_one_row(entries: Seq<FileEntry>, cs: Set<Seq<char>>)
    ensures
        qrow_items(qtree_rows(entries, cs)) =~= named_entries(entries),
{
    let t = qtree(entries);
    lemma_qtree_leaves(entries);
    lemma_qcollapse_list_leaves(t);
    lemma_qsorted_list_leaves(qcollapse_list(t));
    lemma_qsort_seq_leaves(qsorted_list(qcollapse_list(t)));
    let sorted = qsort_seq(qsorted_list(qcollapse_list(t)));
    lemma_qflat_leaves(sorted, 0, -1i32, cs, Seq::empty(), 0);
    lemma_visibility_keeps_items(qflat_list(sorted, 0, -1i32, cs, Seq::empty(), 0));
}

/// Every node of the level has a name.
pub open spec fn all_named(ns: Seq<QNodeV>) -> bool {
    forall|i: int| 0 <= i < ns.len() ==> (#[trigger] ns[i]).name.len() > 0
}

proof fn lemma_qinsert_named(ns: Seq<QNodeV>, comps: Seq<Seq<char>>, e: FileEntry)
    requires
        all_named(ns),
        comps.len() > 0 ==> comps[0].len() > 0,
    ensures
        all_named(qinsert(ns, comps, e)),
{
    let r = qinsert(ns, comps, e);
    if comps.len() == 1 {
        assert(r == ns.push(qleaf(comps[0], e)));
        assert forall|i: int| 0 <= i < r.len() implies (#[trigger] r[i]).name.len() > 0 by {
            if i < ns.len() {
                assert(r[i] == ns[i]);
            }
        }
    } else if comps.len() > 1 {
        lemma_find_folder(ns, comps[0]);
        match find_folder(ns, comps[0]) {
            Some(p) => {
                assert forall|i: int| 0 <= i < r.len() implies (#[trigger] r[i]).name.len() > 0 by {
                    assert(r[i].name == ns[i].name);
                }
            },
            None => {
                assert forall|i: int| 0 <= i < r.len() implies (#[trigger] r[i]).name.len() > 0 by {
                    if i < ns.len() {
                        assert(r[i] == ns[i]);
                    }
                }
            },
        }
    }
}

proof fn lemma_qtree_named(entries: Seq<FileEntry>)
    ensures
        all_named(qtree(entries)),
    decreases entries.len(),
{
    if entries.len() > 0 {
        lemma_qtree_named(entries.drop_last());
        let comps = components(entries.last().path@);
        crate::paths::lemma_non_empty(crate::paths::split_slash(entries.last().path@));
        if comps.len() > 0 {
            assert(comps[0].len() > 0);
        }
        lemma_qinsert_named(qtree(entries.drop_last()), comps, entries.last());
    }
}

proof fn lemma_qsort_named(ns: Seq<QNodeV>)
    requires
        all_named(ns),
    ensures
        all_named(qsort_seq(ns)),
    decreases ns.len(),
{
    if ns.len() > 0 {
        let pre = ns.drop_last();
        assert(all_named(pre)) by {
            assert forall|i: int| 0 <= i < pre.len() implies (#[trigger] pre[i]).name.len() > 0 by {
                assert(pre[i] == ns[i]);
            }
        }
        lemma_qsort_named(pre);
        let s = qsort_seq(pre);
        let p = qins_pos(s, ns.last());
        lemma_qins_pos(s, ns.last());
        let r = s.insert(p as int, ns.last());
        assert forall|i: int| 0 <= i < r.len() implies (#[trigger] r[i]).name.len() > 0 by {
            if i < p {
                assert(r[i] == s[i]);
            } else if i > p {
                assert(r[i] == s[i - 1]);
            }
        }
    }
}

/// The top level of the built tree: every node has a name.
proof fn lemma_top_named(entries: Seq<FileEntry>)
    ensures
        all_named(qsort_seq(qsorted_list(qcollapse_list(qtree(entries))))),
{
    let t = qtree(entries);
    lemma_qtree_named(entries);
    lemma_qcollapse_list(t);
    let c = qcollapse_list(t);
    assert(all_named(c)) by {
        assert forall|i: int| 0 <= i < c.len() implies (#[trigger] c[i]).name.len() > 0 by {
            assert(c[i] == qcollapse(t[i]));
            assert(t[i].name.len() > 0);
        }
    }
    lemma_qsorted_list(c);
    let d = qsorted_list(c);
    assert(all_named(d)) by {
        assert forall|i: int| 0 <= i < d.len() implies (#[trigger] d[i]).name.len() > 0 by {
            assert(d[i] == qsorted(c[i]));
        }
    }
    lemma_qsort_named(d);
}

/// The rows at `lo..hi` of `rows`: every folder row is expanded exactly when
/// its path, walked up through the parents, is not collapsed.
pub open spec fn folders_keyed_by_path(rows: Seq<QRowV>, cs: Set<Seq<char>>, lo: int, hi: int) -> bool {
    forall|k: int| lo <= k < hi && (#[trigger] rows[k]).is_dir ==> rows[k].expanded == !cs.contains(path_of(rows, k))
}

/// Flattening below a parent whose path is `prefix` names each folder by the
/// path that `path_of` finds for its row.
proof fn lemma_qflat_list_paths(
    ns: Seq<QNodeV>,
    depth: nat,
    parent: i32,
    cs: Set<Seq<char>>,
    prefix: Seq<char>,
    start: nat,
    rows: Seq<QRowV>,
)
    requires
        rows.len() <= i32::MAX,
        start + qflat_list(ns, depth, parent, cs, prefix, start).len() <= rows.len(),
        forall|k: int|
            0 <= k < qflat_list(ns, depth, parent, cs, prefix, start).len() ==> rows[start + k] == #[trigger] qflat_list(
                ns,
                depth,
                parent,
                cs,
                prefix,
                start,
            )[k],
        parent < start,
        parent >= 0 ==> path_of(rows, parent as int) == prefix && prefix.len() > 0,
        parent < 0 ==> prefix.len() == 0 && all_named(ns),
    ensures
        folders_keyed_by_path(rows, cs, start as int, (start + qflat_list(ns, depth, parent, cs, prefix, start).len()) as int),
    decreases qsizes(ns), 1nat,
{
    if ns.len() > 0 {
        let pre_ns = ns.subrange(0, ns.len() - 1);
        let last = ns[ns.len() - 1];
        lemma_qsizes_elem(ns, ns.len() - 1);
        let pre = qflat_list(pre_ns, depth, parent, cs, prefix, start);
        let tail = qflat_node(last, depth, parent, cs, prefix, start + pre.len());
        let all = qflat_list(ns, depth, parent, cs, prefix, start);
        assert(all == pre + tail);
        assert(parent < 0 ==> all_named(pre_ns)) by {
            if parent < 0 {
                assert forall|i: int| 0 <= i < pre_ns.len() implies (#[trigger] pre_ns[i]).name.len() > 0 by {
                    assert(pre_ns[i] == ns[i]);
                }
            }
        }
        assert forall|k: int| 0 <= k < pre.len() implies rows[start + k] == #[trigger] pre[k] by {
            assert(all[k] == pre[k]);
        }
        lemma_qflat_list_paths(pre_ns, depth, parent, cs, prefix, start, rows);
        assert forall|k: int| 0 <= k < tail.len() implies rows[start + pre.len() + k] == #[trigger] tail[k] by {
            assert(all[pre.len() + k] == tail[k]);
        }
        lemma_qflat_node_paths(last, depth, parent, cs, prefix, start + pre.len(), rows);
    }
}

proof fn lemma_qflat_node_paths(
    c: QNodeV,
    depth: nat,
    parent: i32,
    cs: Set<Seq<char>>,
    prefix: Seq<char>,
    idx: nat,
    rows: Seq<QRowV>,
)
    requires
        rows.len() <= i32::MAX,
        idx + qflat_node(c, depth, parent, cs, prefix, idx).len() <= rows.len(),
        forall|k: int|
            0 <= k < qflat_node(c, depth, parent, cs, prefix, idx).len() ==> rows[idx + k] == #[trigger] qflat_node(
                c,
                depth,
                parent,
                cs,
                prefix,
                idx,
            )[k],
        parent < idx,
        parent >= 0 ==> path_of(rows, parent as int) == prefix && prefix.len() > 0,
        parent < 0 ==> prefix.len() == 0 && c.name.len() > 0,
    ensures
        folders_keyed_by_path(rows, cs, idx as int, (idx + qflat_node(c, depth, parent, cs, prefix, idx).len()) as int),
    decreases qsize(c), 0nat,
{
    let all = qflat_node(c, depth, parent, cs, prefix, idx);
    let full = join_key(prefix, c.name);
    assert(rows[idx + 0int] == all[0]);
    assert(rows[idx as int].parent == parent);
    assert(path_of(rows, idx as int) == full);
    if !c.is_leaf {
        assert((idx as i32) == idx);
        let rest = qflat_list(c.children, depth + 1, idx as i32, cs, full, idx + 1);
        assert(all == seq![all[0]] + rest);
        assert forall|k: int| 0 <= k < rest.len() implies rows[(idx + 1) + k] == #[trigger] rest[k] by {
            assert(all[1 + k] == rest[k]);
        }
        lemma_qsizes_elem(seq![c], 0);
        lemma_qflat_list_paths(c.children, depth + 1, idx as i32, cs, full, idx + 1, rows);
    }
}

/// The path `node_path` gives a folder row is the path by which the tree was
/// built: every folder row of a built tree is expanded exactly when that path
/// is not among the collapsed ones. So collapsing a folder by the path of its
/// row, and building again, closes that same folder. (Row indices and
/// parents are stored as `i32`, so the tree has at most `i32::MAX` rows.)
pub proof fn law_node_path_is_build_path(entries: Seq<FileEntry>, cs: Set<Seq<char>>, k: int)
    requires
        qtree_rows(entries, cs).len() <= i32::MAX,
        0 <= k < qtree_rows(entries, cs).len(),
        qtree_rows(entries, cs)[k].is_dir,
    ensures
        qtree_rows(entries, cs)[k].expanded == !cs.contains(path_of(qtree_rows(entries, cs), k)),
{
    let sorted = qsort_seq(qsorted_list(qcollapse_list(qtree(entries))));
    let flat = qflat_list(sorted, 0, -1i32, cs, Seq::empty(), 0);
    let rows = qtree_rows(entries, cs);
    lemma_top_named(entries);
    assert forall|j: int| 0 <= j < flat.len() implies flat[0 + j] == #[trigger] flat[j] by {}
    lemma_qflat_list_paths(sorted, 0, -1i32, cs, Seq::empty(), 0, flat);
    assert forall|j: int| 0 <= j < rows.len() implies (#[trigger] rows[j]).name == flat[j].name && rows[j].parent
        == flat[j].parent by {}
    lemma_path_of_same(rows, flat, k);
    assert(flat[k].is_dir);
}

} // verus!
