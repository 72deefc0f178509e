//! The file tree of a diff: directories become folder nodes, files become
//! leaves with their counts, chains of single folders fold into one node
//! (`a/b/c`), and the tree is flattened depth-first into indented rows whose
//! visibility follows the folders that are expanded.

use vstd::prelude::*;
use vstd::multiset::Multiset;
use crate::model::{files_view, FileDiff, FileV};
use crate::paths::{components, ext_or_empty, file_icon, icon_for, path_components, same_chars};
use crate::text::{chars_of, owned, push_all, push_char, string_of};

verus! {

/// A node of the tree while it is built; `key` is the path component it was
/// inserted under (a folded folder keeps the key of its first component).
pub struct Entry {
    pub key: String,
    pub node: Node,
}

pub enum Node {
    Dir { name: String, children: Vec<Entry> },
    File { name: String, icon: String, added: i32, removed: i32, file_index: i32 },
}

pub enum NodeV {
    Dir { key: Seq<char>, name: Seq<char>, children: Seq<NodeV> },
    File { key: Seq<char>, name: Seq<char>, icon: Seq<char>, added: i32, removed: i32, file_index: i32 },
}

pub open spec fn entry_view(e: Entry) -> NodeV
    decreases e,
{
    match e.node {
        Node::Dir { name, children } => NodeV::Dir {
            key: e.key@,
            name: name@,
            children: entries_view(children@),
        },
        Node::File { name, icon, added, removed, file_index } => NodeV::File {
            key: e.key@,
            name: name@,
            icon: icon@,
            added,
            removed,
            file_index,
        },
    }
}

pub open spec fn entries_view(es: Seq<Entry>) -> Seq<NodeV>
    decreases es,
{
    if es.len() == 0 {
        Seq::empty()
    } else {
        entries_view(es.subrange(0, es.len() - 1)).push(entry_view(es[es.len() - 1]))
    }
}

/// The view of an entry list has the same length and, at each index, the
/// view of the entry there.
pub proof fn lemma_entries_view(es: Seq<Entry>)
    ensures
        entries_view(es).len() == es.len(),
        forall|i: int| 0 <= i < es.len() ==> #[trigger] entries_view(es)[i] == entry_view(es[i]),
    decreases es.len(),
{
    if es.len() > 0 {
        lemma_entries_view(es.subrange(0, es.len() - 1));
        assert forall|i: int| 0 <= i < es.len() implies #[trigger] entries_view(es)[i] == entry_view(es[i]) by {
            if i < es.len() - 1 {
                assert(es.subrange(0, es.len() - 1)[i] == es[i]);
            }
        }
    }
}

pub open spec fn key_of(n: NodeV) -> Seq<char> {
    match n {
        NodeV::Dir { key, .. } => key,
        NodeV::File { key, .. } => key,
    }
}

/// The position of the first folder inserted under the component `c`.
pub open spec fn find_key(ns: Seq<NodeV>, c: Seq<char>) -> Option<int>
    decreases ns.len(),
{
    if ns.len() == 0 {
        None
    } else if ns[0] is Dir && key_of(ns[0]) == c {
        Some(0)
    } else {
        match find_key(ns.drop_first(), c) {
            Some(i) => Some(i + 1),
            None => None,
        }
    }
}

pub proof fn lemma_find_key(ns: Seq<NodeV>, c: Seq<char>)
    ensures
        match find_key(ns, c) {
            Some(p) => 0 <= p < ns.len() && ns[p] is Dir && key_of(ns[p]) == c && forall|j: int|
                0 <= j < p ==> !((#[trigger] ns[j]) is Dir && key_of(ns[j]) == c),
            None => forall|j: int| 0 <= j < ns.len() ==> !((#[trigger] ns[j]) is Dir && key_of(ns[j]) == c),
        },
    decreases ns.len(),
{
    if ns.len() > 0 {
        lemma_find_key(ns.drop_first(), c);
        assert forall|j: int| 1 <= j < ns.len() implies ns[j] == ns.drop_first()[j - 1] by {}
    }
}

/// Inserts a leaf under the folder path `dirs`: each component goes into the
/// first folder inserted under that name, a new folder when there is none (a
/// file of that name stays beside it), so no file is ever dropped.
pub open spec fn insert_spec(ns: Seq<NodeV>, dirs: Seq<Seq<char>>, leaf: NodeV) -> Seq<NodeV>
    decreases dirs.len(),
{
    if dirs.len() == 0 {
        ns.push(leaf)
    } else {
        match find_key(ns, dirs[0]) {
            Some(p) => ns.update(
                p,
                NodeV::Dir {
                    key: ns[p]->Dir_key,
                    name: ns[p]->Dir_name,
                    children: insert_spec(ns[p]->Dir_children, dirs.drop_first(), leaf),
                },
            ),
            None => ns.push(
                NodeV::Dir {
                    key: dirs[0],
                    name: dirs[0],
                    children: insert_spec(Seq::empty(), dirs.drop_first(), leaf),
                },
            ),
        }
    }
}

/// The position of the first folder entry whose key is `c`.
fn find_pos(nodes: &Vec<Entry>, c: &Vec<char>) -> (r: Option<usize>)
    ensures
        match r {
            Some(p) => find_key(entries_view(nodes@), c@) == Some(p as int),
            None => find_key(entries_view(nodes@), c@) is None,
        },
{
    let ghost ns = entries_view(nodes@);
    proof {
        lemma_entries_view(nodes@);
        lemma_find_key(ns, c@);
    }
    let mut i: usize = 0;
    while i < nodes.len()
        invariant
            ns == entries_view(nodes@),
            ns.len() == nodes@.len(),
            i <= nodes@.len(),
            forall|j: int| 0 <= j < i ==> !((#[trigger] ns[j]) is Dir && key_of(ns[j]) == c@),
            forall|j: int| 0 <= j < nodes@.len() ==> #[trigger] ns[j] == entry_view(nodes@[j]),
            match find_key(ns, c@) {
                Some(p) => 0 <= p < ns.len() && ns[p] is Dir && key_of(ns[p]) == c@ && forall|j: int|
                    0 <= j < p ==> !((#[trigger] ns[j]) is Dir && key_of(ns[j]) == c@),
                None => forall|j: int| 0 <= j < ns.len() ==> !((#[trigger] ns[j]) is Dir && key_of(ns[j]) == c@),
            },
        decreases nodes@.len() - i,
    {
        let k = chars_of(nodes[i].key.as_str());
        assert(key_of(ns[i as int]) == nodes@[i as int].key@);
        assert((ns[i as int] is Dir) == (nodes@[i as int].node is Dir));
        if is_dir_entry(&nodes[i]) && same_chars(&k, c) {
            return Some(i);
        }
        i = i + 1;
    }
    None
}

pub open spec fn chars_view(v: Seq<Vec<char>>) -> Seq<Seq<char>> {
    v.map_values(|c: Vec<char>| c@)
}

/// Inserts `leaf` under the folder components `dirs[from..]`.
fn insert(nodes: &mut Vec<Entry>, dirs: &Vec<Vec<char>>, from: usize, leaf: Entry)
    requires
        from <= dirs@.len(),
    ensures
        entries_view(final(nodes)@) == insert_spec(
            entries_view(old(nodes)@),
            chars_view(dirs@).skip(from as int),
            entry_view(leaf),
        ),
    decreases dirs@.len() - from,
{
    let ghost ds = chars_view(dirs@).skip(from as int);
    let ghost ns = entries_view(nodes@);
    proof {
        lemma_entries_view(nodes@);
    }
    if from == dirs.len() {
        assert(ds.len() == 0);
        nodes.push(leaf);
        proof {
            lemma_entries_view(nodes@);
            assert(entries_view(nodes@) =~= ns.push(entry_view(leaf)));
        }
        return;
    }
    assert(ds[0] == dirs@[from as int]@);
    assert(ds.drop_first() =~= chars_view(dirs@).skip(from + 1));
    match find_pos(nodes, &dirs[from]) {
        Some(p) => {
            proof {
                lemma_find_key(ns, ds[0]);
            }
            let ghost before = nodes@;
            let Entry { key, node } = nodes.remove(p);
            match node {
                Node::Dir { name, mut children } => {
                    let ghost kids = entries_view(children@);
                    insert(&mut children, dirs, from + 1, leaf);
                    nodes.insert(p, Entry { key, node: Node::Dir { name, children } });
                    proof {
                        lemma_entries_view(nodes@);
                        assert(ns[p as int] == entry_view(before[p as int]));
                        assert(entries_view(nodes@) =~= ns.update(
                            p as int,
                            NodeV::Dir {
                                key: key@,
                                name: name@,
                                children: insert_spec(kids, ds.drop_first(), entry_view(leaf)),
                            },
                        ));
                    }
                },
                Node::File { name, icon, added, removed, file_index } => {
                    proof {
                        assert(ns[p as int] == entry_view(before[p as int]));
                        assert(false);
                    }
                    nodes.insert(p, Entry { key, node: Node::File { name, icon, added, removed, file_index } });
                },
            }
        },
        None => {
            let mut children: Vec<Entry> = Vec::new();
            insert(&mut children, dirs, from + 1, leaf);
            let name = string_of(&dirs[from]);
            let key = string_of(&dirs[from]);
            nodes.push(Entry { key, node: Node::Dir { name, children } });
            proof {
                lemma_entries_view(nodes@);
                assert(entries_view(Seq::<Entry>::empty()) =~= Seq::<NodeV>::empty());
                assert(entries_view(nodes@) =~= ns.push(
                    NodeV::Dir {
                        key: ds[0],
                        name: ds[0],
                        children: insert_spec(Seq::empty(), ds.drop_first(), entry_view(leaf)),
                    },
                ));
            }
        },
    }
}

/// The number of nodes of a tree.
pub open spec fn size_node(n: NodeV) -> nat
    decreases n,
{
    match n {
        NodeV::Dir { children, .. } => 1 + size_list(children),
        NodeV::File { .. } => 1,
    }
}

pub open spec fn size_list(ns: Seq<NodeV>) -> nat
    decreases ns,
{
    if ns.len() == 0 {
        0
    } else {
        size_list(ns.subrange(0, ns.len() - 1)) + size_node(ns[ns.len() - 1])
    }
}

pub proof fn lemma_size_node_pos(n: NodeV)
    ensures
        size_node(n) >= 1,
{
}

/// Each node of a list is no larger than the list.
pub proof fn lemma_size_elem(ns: Seq<NodeV>, i: int)
    requires
        0 <= i < ns.len(),
    ensures
        size_node(ns[i]) <= size_list(ns),
        ns.len() == 1 ==> size_list(ns) == size_node(ns[0]),
    decreases ns.len(),
{
    if i < ns.len() - 1 {
        lemma_size_elem(ns.subrange(0, ns.len() - 1), i);
    }
    if ns.len() == 1 {
        assert(ns.subrange(0, 0).len() == 0);
        assert(size_list(ns.subrange(0, 0)) == 0);
    }
}

/// A folder name and its children after folding every chain of single
/// subfolders into the name (`a` with only `b` becomes `a/b`).
pub open spec fn fold_chain(name: Seq<char>, children: Seq<NodeV>) -> (Seq<char>, Seq<NodeV>)
    decreases size_list(children),
{
    if children.len() == 1 && children[0] is Dir {
        proof {
            lemma_size_elem(children, 0);
        }
        fold_chain(name.push('/') + children[0]->Dir_name, children[0]->Dir_children)
    } else {
        (name, children)
    }
}

pub proof fn lemma_fold_chain_size(name: Seq<char>, children: Seq<NodeV>)
    ensures
        size_list(fold_chain(name, children).1) <= size_list(children),
    decreases size_list(children),
{
    if children.len() == 1 && children[0] is Dir {
        lemma_size_elem(children, 0);
        lemma_fold_chain_size(name.push('/') + children[0]->Dir_name, children[0]->Dir_children);
    }
}

/// Folds single-folder chains at every level of a node.
pub open spec fn collapse_node(n: NodeV) -> NodeV
    decreases size_node(n), 0nat,
{
    match n {
        NodeV::Dir { key, name, children } => {
            proof {
                lemma_fold_chain_size(name, children);
            }
            let (nm, ch) = fold_chain(name, children);
            NodeV::Dir { key, name: nm, children: collapse_list(ch) }
        },
        NodeV::File { .. } => n,
    }
}

pub open spec fn collapse_list(ns: Seq<NodeV>) -> Seq<NodeV>
    decreases size_list(ns), 1nat,
{
    if ns.len() == 0 {
        Seq::empty()
    } else {
        proof {
            lemma_size_elem(ns, ns.len() - 1);
            lemma_size_node_pos(ns[ns.len() - 1]);
        }
        collapse_list(ns.subrange(0, ns.len() - 1)).push(collapse_node(ns[ns.len() - 1]))
    }
}

/// `collapse_list` keeps the length and collapses each node in place.
pub proof fn lemma_collapse_list(ns: Seq<NodeV>)
    ensures
        collapse_list(ns).len() == ns.len(),
        forall|i: int| 0 <= i < ns.len() ==> #[trigger] collapse_list(ns)[i] == collapse_node(ns[i]),
    decreases ns.len(),
{
    if ns.len() > 0 {
        let pre = ns.subrange(0, ns.len() - 1);
        lemma_collapse_list(pre);
        assert forall|i: int| 0 <= i < ns.len() implies #[trigger] collapse_list(ns)[i] == collapse_node(ns[i]) by {
            if i < ns.len() - 1 {
                assert(pre[i] == ns[i]);
            }
        }
    }
}

fn is_dir_entry(e: &Entry) -> (b: bool)
    ensures
        b == (entry_view(*e) is Dir),
{
    match &e.node {
        Node::Dir { .. } => true,
        Node::File { .. } => false,
    }
}

/// Folds the single-folder chains of one node, at every level below it.
fn collapse_entry(e: Entry) -> (r: Entry)
    ensures
        entry_view(r) == collapse_node(entry_view(e)),
    decreases size_node(entry_view(e)), 0nat,
{
    let ghost ev = entry_view(e);
    let Entry { key, node } = e;
    match node {
        Node::File { name, icon, added, removed, file_index } => Entry {
            key,
            node: Node::File { name, icon, added, removed, file_index },
        },
        Node::Dir { name, children } => {
            let ghost name0 = name@;
            let ghost kids0 = entries_view(children@);
            let mut name = name;
            let mut children = children;
            proof {
                lemma_fold_chain_size(name0, kids0);
            }
            while children.len() == 1 && is_dir_entry(&children[0])
                invariant
                    fold_chain(name@, entries_view(children@)) == fold_chain(name0, kids0),
                    size_list(entries_view(children@)) <= size_list(kids0),
                decreases size_list(entries_view(children@)),
            {
                let ghost cv = entries_view(children@);
                proof {
                    lemma_entries_view(children@);
                    lemma_size_elem(cv, 0);
                }
                let Entry { key: _, node: only } = children.remove(0);
                match only {
                    Node::Dir { name: cname, children: cch } => {
                        push_char(&mut name, '/');
                        let cn = chars_of(cname.as_str());
                        push_all(&mut name, &cn);
                        children = cch;
                    },
                    Node::File { .. } => {
                        proof {
                            assert(false);
                        }
                    },
                }
            }
            proof {
                lemma_entries_view(children@);
                assert(fold_chain(name@, entries_view(children@)) == (name@, entries_view(children@)));
            }
            let children = collapse_chains(children);
            Entry { key, node: Node::Dir { name, children } }
        },
    }
}

/// Folds the single-folder chains of every node of a list.
fn collapse_chains(v: Vec<Entry>) -> (r: Vec<Entry>)
    ensures
        entries_view(r@) == collapse_list(entries_view(v@)),
    decreases size_list(entries_view(v@)), 1nat,
{
    let ghost vs = entries_view(v@);
    proof {
        lemma_entries_view(v@);
        lemma_collapse_list(vs);
    }
    let mut rest = v;
    let mut out: Vec<Entry> = Vec::new();
    while rest.len() > 0
        invariant
            vs == entries_view(v@),
            vs.len() == v@.len(),
            forall|j: int| 0 <= j < v@.len() ==> #[trigger] vs[j] == entry_view(v@[j]),
            out@.len() + rest@.len() == v@.len(),
            rest@ == v@.subrange(out@.len() as int, v@.len() as int),
            forall|j: int| 0 <= j < out@.len() ==> entry_view(#[trigger] out@[j]) == collapse_node(vs[j]),
        decreases rest@.len(),
    {
        let ghost k = out@.len();
        proof {
            lemma_size_elem(vs, k as int);
            assert(rest@[0] == v@[k as int]);
        }
        let e = rest.remove(0);
        let c = collapse_entry(e);
        out.push(c);
        assert(rest@ =~= v@.subrange(out@.len() as int, v@.len() as int));
    }
    proof {
        lemma_entries_view(out@);
        assert(entries_view(out@) =~= collapse_list(vs));
    }
    out
}

/// One row of the flattened tree, as the file panel shows it.
pub struct TreeRow {
    pub depth: usize,
    pub is_dir: bool,
    pub expanded: bool,
    pub visible: bool,
    pub name: String,
    pub icon: String,
    pub added: i32,
    pub removed: i32,
    /// The index of the file in the diff; `-1` for a folder.
    pub file_index: i32,
}

pub struct TreeRowV {
    pub depth: nat,
    pub is_dir: bool,
    pub expanded: bool,
    pub visible: bool,
    pub name: Seq<char>,
    pub icon: Seq<char>,
    pub added: i32,
    pub removed: i32,
    pub file_index: i32,
}

impl View for TreeRow {
    type V = TreeRowV;

    open spec fn view(&self) -> TreeRowV {
        TreeRowV {
            depth: self.depth as nat,
            is_dir: self.is_dir,
            expanded: self.expanded,
            visible: self.visible,
            name: self.name@,
            icon: self.icon@,
            added: self.added,
            removed: self.removed,
            file_index: self.file_index,
        }
    }
}

pub open spec fn tree_rows_view(rows: Seq<TreeRow>) -> Seq<TreeRowV> {
    rows.map_values(|r: TreeRow| r@)
}

pub open spec fn folder_icon() -> Seq<char> {
    "\u{1f4c1}"@
}

/// The row of a folder: expanded and shown, without counts.
pub open spec fn dir_row(name: Seq<char>, depth: nat) -> TreeRowV {
    TreeRowV {
        depth,
        is_dir: true,
        expanded: true,
        visible: true,
        name,
        icon: folder_icon(),
        added: 0,
        removed: 0,
        file_index: -1i32,
    }
}

/// The rows of a node, depth-first: a folder's row, then its children one
/// level deeper; a file is one row.
pub open spec fn flatten_node(n: NodeV, depth: nat) -> Seq<TreeRowV>
    decreases size_node(n), 0nat,
{
    match n {
        NodeV::Dir { name, children, .. } => seq![dir_row(name, depth)] + flatten_list(
            children,
            depth + 1,
        ),
        NodeV::File { name, icon, added, removed, file_index, .. } => seq![
            TreeRowV {
                depth,
                is_dir: false,
                expanded: false,
                visible: true,
                name,
                icon,
                added,
                removed,
                file_index,
            },
        ],
    }
}

pub open spec fn flatten_list(ns: Seq<NodeV>, depth: nat) -> Seq<TreeRowV>
    decreases size_list(ns), 1nat,
{
    if ns.len() == 0 {
        Seq::empty()
    } else {
        proof {
            lemma_size_elem(ns, ns.len() - 1);
            lemma_size_node_pos(ns[ns.len() - 1]);
        }
        flatten_list(ns.subrange(0, ns.len() - 1), depth) + flatten_node(ns[ns.len() - 1], depth)
    }
}

/// Appends the rows of `nodes` at `depth`; `out` already holds the rows of
/// the folders above them, so `depth` is at most its length.
fn flatten(nodes: &Vec<Entry>, depth: usize, out: &mut Vec<TreeRow>)
    requires
        depth <= old(out)@.len(),
    ensures
        tree_rows_view(final(out)@) == tree_rows_view(old(out)@) + flatten_list(
            entries_view(nodes@),
            depth as nat,
        ),
    decreases size_list(entries_view(nodes@)),
{
    let ghost ns = entries_view(nodes@);
    let ghost start = tree_rows_view(out@);
    proof {
        lemma_entries_view(nodes@);
    }
    let mut i: usize = 0;
    while i < nodes.len()
        invariant
            ns == entries_view(nodes@),
            ns.len() == nodes@.len(),
            forall|j: int| 0 <= j < nodes@.len() ==> #[trigger] ns[j] == entry_view(nodes@[j]),
            i <= nodes@.len(),
            depth <= out@.len(),
            tree_rows_view(out@) == start + flatten_list(ns.take(i as int), depth as nat),
        decreases nodes@.len() - i,
    {
        proof {
            assert(ns.take(i + 1).subrange(0, i as int) =~= ns.take(i as int));
            assert(ns.take(i + 1)[i as int] == ns[i as int]);
            lemma_size_elem(ns, i as int);
            assert(flatten_list(ns.take(i + 1), depth as nat) == flatten_list(ns.take(i as int), depth as nat)
                + flatten_node(ns[i as int], depth as nat));
        }
        let ghost before = tree_rows_view(out@);
        match &nodes[i].node {
            Node::Dir { name, children } => {
                let row = TreeRow {
                    depth,
                    is_dir: true,
                    expanded: true,
                    visible: true,
                    name: owned(name.as_str()),
                    icon: owned("\u{1f4c1}"),
                    added: 0,
                    removed: 0,
                    file_index: -1,
                };
                out.push(row);
                assert(depth < out.len());
                assert(tree_rows_view(out@) =~= before.push(dir_row(name@, depth as nat)));
                flatten(children, depth + 1, out);
            },
            Node::File { name, icon, added, removed, file_index } => {
                let row = TreeRow {
                    depth,
                    is_dir: false,
                    expanded: false,
                    visible: true,
                    name: owned(name.as_str()),
                    icon: owned(icon.as_str()),
                    added: *added,
                    removed: *removed,
                    file_index: *file_index,
                };
                out.push(row);
                assert(tree_rows_view(out@) =~= before.push(row@));
            },
        }
        assert(tree_rows_view(out@) =~= start + flatten_list(ns.take(i + 1), depth as nat));
        i = i + 1;
    }
    assert(ns.take(nodes@.len() as int) =~= ns);
}

/// Row `j` is a folder and every row after it, up to but not including row
/// `i`, lies deeper than it: the folder is still open when row `i` is reached.
pub open spec fn open_before(rows: Seq<TreeRowV>, j: int, i: int) -> bool {
    &&& 0 <= j < i
    &&& rows[j].is_dir
    &&& forall|k: int| j < k < i ==> #[trigger] rows[k].depth > rows[j].depth
}

/// Row `j` is a folder that contains row `i`.
pub open spec fn is_ancestor(rows: Seq<TreeRowV>, j: int, i: int) -> bool {
    open_before(rows, j, i) && rows[j].depth < rows[i].depth
}

/// A row is shown when every folder that contains it is expanded.
pub open spec fn shown(rows: Seq<TreeRowV>, i: int) -> bool {
    forall|j: int| #[trigger] is_ancestor(rows, j, i) ==> rows[j].expanded
}

/// The rows with each `visible` flag recomputed.
pub open spec fn with_visibility(rows: Seq<TreeRowV>) -> Seq<TreeRowV> {
    Seq::new(rows.len(), |i: int| TreeRowV { visible: shown(rows, i), ..rows[i] })
}

/// Sets each row's `visible` flag: a row is visible exactly when every folder
/// above it that contains it is expanded. Nothing else changes.
pub fn recompute_visibility(tree: &mut Vec<TreeRow>)
    ensures
        tree_rows_view(final(tree)@) == with_visibility(tree_rows_view(old(tree)@)),
{
    let ghost rows = tree_rows_view(tree@);
    let ghost orig = tree@;
    // Indices of the folders still open at the current row, outermost first.
    let mut stack: Vec<usize> = Vec::new();
    let mut i: usize = 0;
    while i < tree.len()
        invariant
            rows == tree_rows_view(orig),
            tree@.len() == orig.len(),
            i <= tree@.len(),
            forall|k: int| 0 <= k < tree@.len() ==> (#[trigger] tree@[k])@ == (if k < i {
                TreeRowV { visible: shown(rows, k), ..rows[k] }
            } else {
                rows[k]
            }),
            forall|t: int| 0 <= t < stack@.len() ==> open_before(rows, #[trigger] stack@[t] as int, i as int),
            forall|t1: int, t2: int| 0 <= t1 < t2 < stack@.len() ==> stack@[t1] < stack@[t2],
            forall|j: int| #[trigger] open_before(rows, j, i as int) ==> stack@.contains(j as usize),
        decreases tree@.len() - i,
    {
        let ghost st0 = stack@;
        let d = tree[i].depth;
        assert(rows[i as int] == orig[i as int]@);
        while stack.len() > 0 && tree[stack[stack.len() - 1]].depth >= d
            invariant
                rows == tree_rows_view(orig),
                tree@.len() == orig.len(),
                i < tree@.len(),
                d == rows[i as int].depth,
                forall|k: int| 0 <= k < tree@.len() ==> (#[trigger] tree@[k])@ == (if k < i {
                    TreeRowV { visible: shown(rows, k), ..rows[k] }
                } else {
                    rows[k]
                }),
                stack@.len() <= st0.len(),
                stack@ == st0.take(stack@.len() as int),
                forall|t: int| stack@.len() <= t < st0.len() ==> rows[#[trigger] st0[t] as int].depth >= d,
                forall|t: int| 0 <= t < st0.len() ==> open_before(rows, #[trigger] st0[t] as int, i as int),
                forall|t1: int, t2: int| 0 <= t1 < t2 < st0.len() ==> st0[t1] < st0[t2],
            decreases stack@.len(),
        {
            let top = stack.len() - 1;
            assert(tree@[stack@[top as int] as int]@.depth == rows[st0[top as int] as int].depth);
            stack.pop();
            assert(stack@ =~= st0.take(stack@.len() as int));
        }
        proof {
            let n = stack@.len() as int;
            if n > 0 {
                assert(tree@[stack@[n - 1] as int]@.depth == rows[st0[n - 1] as int].depth);
            }
            // every folder left on the stack lies above row i
            assert forall|t: int| 0 <= t < n implies is_ancestor(rows, #[trigger] stack@[t] as int, i as int) by {
                assert(stack@[t] == st0[t]);
                assert(open_before(rows, st0[n - 1] as int, i as int));
                if t < n - 1 {
                    assert(st0[t] < st0[n - 1]);
                }
            }
        }
        let mut all_open = true;
        let mut t: usize = 0;
        while t < stack.len()
            invariant
                rows == tree_rows_view(orig),
                tree@.len() == orig.len(),
                i < tree@.len(),
                forall|k: int| 0 <= k < tree@.len() ==> (#[trigger] tree@[k])@ == (if k < i {
                    TreeRowV { visible: shown(rows, k), ..rows[k] }
                } else {
                    rows[k]
                }),
                t <= stack@.len(),
                forall|u: int| 0 <= u < stack@.len() ==> is_ancestor(rows, #[trigger] stack@[u] as int, i as int),
                all_open == (forall|u: int| 0 <= u < t ==> rows[#[trigger] stack@[u] as int].expanded),
            decreases stack@.len() - t,
        {
            let j = stack[t];
            assert(is_ancestor(rows, stack@[t as int] as int, i as int));
            assert(tree@[j as int]@.expanded == rows[stack@[t as int] as int].expanded);
            all_open = all_open && tree[j].expanded;
            t = t + 1;
        }
        proof {
            let n = stack@.len() as int;
            assert forall|j: int| #[trigger] is_ancestor(rows, j, i as int) implies rows[j].expanded == true
                || !all_open by {
                if all_open {
                    assert(st0.contains(j as usize));
                    let t = choose|t: int| 0 <= t < st0.len() && st0[t] == j as usize;
                    if t >= n {
                        assert(rows[st0[t] as int].depth >= d);
                    }
                    assert(stack@[t] == st0[t]);
                }
            }
            if !all_open {
                let u = choose|u: int| 0 <= u < n && !rows[stack@[u] as int].expanded;
                assert(stack@[u] == st0[u]);
                assert(is_ancestor(rows, st0[u] as int, i as int));
            }
            assert(all_open == shown(rows, i as int));
        }
        tree[i].visible = all_open;
        if tree[i].is_dir {
            stack.push(i);
        }
        proof {
            let n0 = stack@.len();
            assert forall|j: int| #[trigger] open_before(rows, j, i + 1) implies stack@.contains(j as usize) by {
                if j < i {
                    assert(open_before(rows, j, i as int));
                    assert(st0.contains(j as usize));
                    let t = choose|t: int| 0 <= t < st0.len() && st0[t] == j as usize;
                    assert(rows[i as int].depth > rows[j].depth);
                    assert(stack@[t] == j as usize);
                } else {
                    assert(stack@.last() == i);
                }
            }
        }
        i = i + 1;
    }
    proof {
        assert(tree_rows_view(tree@) =~= with_visibility(rows));
    }
}

/// The leaf a file becomes: named by the last component of its path.
pub open spec fn leaf_of(f: FileV, idx: int) -> NodeV {
    let name = components(f.path).last();
    NodeV::File {
        key: name,
        name,
        icon: icon_for(ext_or_empty(f.path)),
        added: f.added as i32,
        removed: f.removed as i32,
        file_index: idx as i32,
    }
}

/// Inserts one file under the folders of its path; a path with no component
/// adds nothing.
pub open spec fn insert_file(ns: Seq<NodeV>, f: FileV, idx: int) -> Seq<NodeV> {
    let parts = components(f.path);
    if parts.len() == 0 {
        ns
    } else {
        insert_spec(ns, parts.drop_last(), leaf_of(f, idx))
    }
}

/// The tree of the files, inserted in order, before any folding.
pub open spec fn prefix_tree(files: Seq<FileV>) -> Seq<NodeV>
    decreases files.len(),
{
    if files.len() == 0 {
        Seq::empty()
    } else {
        insert_file(prefix_tree(files.drop_last()), files.last(), files.len() - 1)
    }
}

/// The rows of the file panel for a diff's files.
pub open spec fn tree_rows(files: Seq<FileV>) -> Seq<TreeRowV> {
    flatten_list(collapse_list(prefix_tree(files)), 0)
}

/// Builds the flattened file tree of a diff: folders in the order their
/// first file appears, files in diff order under them, chains of single
/// folders folded into one row, every row expanded and visible.
pub fn build_tree(files: &Vec<FileDiff>) -> (rows: Vec<TreeRow>)
    ensures
        tree_rows_view(rows@) == tree_rows(files_view(files@)),
        row_indices(tree_rows_view(rows@)) =~= named_indices(files_view(files@)),
{
    let ghost fs = files_view(files@);
    let mut roots: Vec<Entry> = Vec::new();
    let mut idx: usize = 0;
    while idx < files.len()
        invariant
            fs == files_view(files@),
            idx <= files@.len(),
            entries_view(roots@) == prefix_tree(fs.take(idx as int)),
        decreases files@.len() - idx,
    {
        let f = &files[idx];
        proof {
            assert(fs.take(idx + 1).drop_last() =~= fs.take(idx as int));
            assert(fs.take(idx + 1).last() == f@);
        }
        let mut parts = path_components(f.path.as_str());
        if parts.len() > 0 {
            let ghost comps = components(f.path@);
            let last = parts.pop().unwrap();
            proof {
                assert(chars_view(parts@).skip(0) =~= comps.drop_last());
                assert(last@ == comps.last());
            }
            let leaf = Entry {
                key: string_of(&last),
                node: Node::File {
                    name: string_of(&last),
                    icon: owned(file_icon(f.path.as_str())),
                    added: f.added as i32,
                    removed: f.removed as i32,
                    file_index: idx as i32,
                },
            };
            insert(&mut roots, &parts, 0, leaf);
        }
        idx = idx + 1;
    }
    assert(fs.take(files@.len() as int) =~= fs);
    let roots = collapse_chains(roots);
    let mut out: Vec<TreeRow> = Vec::new();
    flatten(&roots, 0, &mut out);
    assert(tree_rows_view(out@) =~= tree_rows(fs));
    proof {
        law_every_file_has_one_row(fs);
    }
    out
}

/// The rows after a click on row `i`: a folder flips between expanded and
/// collapsed; a file, or an index past the end, changes nothing.
pub open spec fn toggled(rows: Seq<TreeRowV>, i: int) -> Seq<TreeRowV> {
    if 0 <= i < rows.len() && rows[i].is_dir {
        rows.update(i, TreeRowV { expanded: !rows[i].expanded, ..rows[i] })
    } else {
        rows
    }
}

/// Handles a click on row `i` of the full tree: flips a folder, then
/// recomputes which rows are visible.
pub fn toggle_node(tree: &mut Vec<TreeRow>, i: usize)
    ensures
        tree_rows_view(final(tree)@) == with_visibility(toggled(tree_rows_view(old(tree)@), i as int)),
{
    let ghost rows = tree_rows_view(tree@);
    if i < tree.len() && tree[i].is_dir {
        let e = tree[i].expanded;
        tree[i].expanded = !e;
        assert(tree_rows_view(tree@) =~= toggled(rows, i as int));
    } else {
        assert(tree_rows_view(tree@) =~= toggled(rows, i as int));
    }
    recompute_visibility(tree);
}

/// The rows the panel shows: the visible ones, in order, where a folder
/// carries its index in the full tree in `file_index` so that a click on it
/// can be mapped back.
pub open spec fn shown_rows(rows: Seq<TreeRowV>) -> Seq<TreeRowV>
    decreases rows.len(),
{
    if rows.len() == 0 {
        Seq::empty()
    } else {
        let pre = shown_rows(rows.drop_last());
        let r = rows.last();
        if r.visible {
            pre.push(
                if r.is_dir {
                    TreeRowV { file_index: (rows.len() - 1) as i32, ..r }
                } else {
                    r
                },
            )
        } else {
            pre
        }
    }
}

fn copy_row(r: &TreeRow) -> (c: TreeRow)
    ensures
        c@ == r@,
{
    TreeRow {
        depth: r.depth,
        is_dir: r.is_dir,
        expanded: r.expanded,
        visible: r.visible,
        name: owned(r.name.as_str()),
        icon: owned(r.icon.as_str()),
        added: r.added,
        removed: r.removed,
        file_index: r.file_index,
    }
}

/// The visible rows of the full tree, as the panel shows them.
pub fn visible_rows(tree: &Vec<TreeRow>) -> (out: Vec<TreeRow>)
    ensures
        tree_rows_view(out@) == shown_rows(tree_rows_view(tree@)),
{
    let ghost rows = tree_rows_view(tree@);
    let mut out: Vec<TreeRow> = Vec::new();
    let mut i: usize = 0;
    while i < tree.len()
        invariant
            rows == tree_rows_view(tree@),
            i <= tree@.len(),
            tree_rows_view(out@) == shown_rows(rows.take(i as int)),
        decreases tree@.len() - i,
    {
        proof {
            assert(rows.take(i + 1).drop_last() =~= rows.take(i as int));
            assert(rows.take(i + 1).last() == tree@[i as int]@);
        }
        let ghost before = tree_rows_view(out@);
        if tree[i].visible {
            let mut c = copy_row(&tree[i]);
            if c.is_dir {
                c.file_index = i as i32;
            }
            out.push(c);
            assert(tree_rows_view(out@) =~= before.push(c@));
        }
        i = i + 1;
    }
    assert(rows.take(tree@.len() as int) =~= rows);
    out
}

/// Two row lists with the same depths, kinds and expanded flags show the
/// same rows.
proof fn lemma_shown_same(a: Seq<TreeRowV>, b: Seq<TreeRowV>)
    requires
        a.len() == b.len(),
        forall|k: int|
            0 <= k < a.len() ==> (#[trigger] a[k]).depth == b[k].depth && a[k].is_dir == b[k].is_dir
                && a[k].expanded == b[k].expanded,
    ensures
        forall|i: int| 0 <= i < a.len() ==> #[trigger] shown(a, i) == shown(b, i),
{
    assert forall|i: int| 0 <= i < a.len() implies #[trigger] shown(a, i) == shown(b, i) by {
        assert forall|j: int| #[trigger] is_ancestor(a, j, i) implies is_ancestor(b, j, i) by {
            assert forall|k: int| j < k < i implies #[trigger] b[k].depth > b[j].depth by {
                assert(a[k].depth > a[j].depth);
            }
        }
        assert forall|j: int| #[trigger] is_ancestor(b, j, i) implies is_ancestor(a, j, i) by {
            assert forall|k: int| j < k < i implies #[trigger] a[k].depth > a[j].depth by {
                assert(b[k].depth > b[j].depth);
            }
        }
        if shown(a, i) {
            assert forall|j: int| #[trigger] is_ancestor(b, j, i) implies b[j].expanded by {
                assert(is_ancestor(a, j, i));
            }
        }
        if shown(b, i) {
            assert forall|j: int| #[trigger] is_ancestor(a, j, i) implies a[j].expanded by {
                assert(is_ancestor(b, j, i));
            }
        }
    }
}

/// Clicking the same folder twice gives back the tree as it was, with each
/// row visible exactly when all folders above it are expanded.
pub proof fn law_toggle_twice(rows: Seq<TreeRowV>, i: int)
    ensures
        with_visibility(toggled(with_visibility(toggled(rows, i)), i)) == with_visibility(rows),
{
    let once = with_visibility(toggled(rows, i));
    let twice = toggled(once, i);
    assert forall|k: int| 0 <= k < twice.len() implies (#[trigger] twice[k]).depth == rows[k].depth
        && twice[k].is_dir == rows[k].is_dir && twice[k].expanded == rows[k].expanded by {}
    lemma_shown_same(twice, rows);
    assert(with_visibility(twice) =~= with_visibility(rows));
}

/// Every row of a flattened tree is visible, and every folder row expanded.
proof fn lemma_flatten_open(ns: Seq<NodeV>, depth: nat)
    ensures
        forall|k: int|
            0 <= k < flatten_list(ns, depth).len() ==> (#[trigger] flatten_list(ns, depth)[k]).visible
                && (flatten_list(ns, depth)[k].is_dir ==> flatten_list(ns, depth)[k].expanded),
    decreases size_list(ns),
{
    if ns.len() > 0 {
        let pre = ns.subrange(0, ns.len() - 1);
        let last = ns[ns.len() - 1];
        lemma_size_elem(ns, ns.len() - 1);
        lemma_size_node_pos(last);
        lemma_flatten_open(pre, depth);
        match last {
            NodeV::Dir { children, .. } => {
                lemma_flatten_open(children, depth + 1);
            },
            NodeV::File { .. } => {},
        }
        let a = flatten_list(pre, depth);
        let b = flatten_node(last, depth);
        assert(flatten_list(ns, depth) == a + b);
        assert forall|k: int| 0 <= k < b.len() implies (#[trigger] b[k]).visible && (b[k].is_dir ==> b[k].expanded) by {
            match last {
                NodeV::Dir { name, children, .. } => {
                    if k > 0 {
                        assert(b[k] == flatten_list(children, depth + 1)[k - 1]);
                    }
                },
                NodeV::File { .. } => {},
            }
        }
        assert forall|k: int| 0 <= k < flatten_list(ns, depth).len() implies (#[trigger] flatten_list(ns, depth)[k]).visible
            && (flatten_list(ns, depth)[k].is_dir ==> flatten_list(ns, depth)[k].expanded) by {
            if k < a.len() {
                assert(flatten_list(ns, depth)[k] == a[k]);
            } else {
                assert(flatten_list(ns, depth)[k] == b[k - a.len()]);
            }
        }
    }
}

/// A freshly built tree shows every row: recomputing visibility changes nothing.
pub proof fn law_built_tree_all_shown(files: Seq<FileV>)
    ensures
        with_visibility(tree_rows(files)) == tree_rows(files),
{
    let rows = tree_rows(files);
    lemma_flatten_open(collapse_list(prefix_tree(files)), 0);
    assert forall|i: int| 0 <= i < rows.len() implies #[trigger] shown(rows, i) by {
        assert forall|j: int| #[trigger] is_ancestor(rows, j, i) implies rows[j].expanded by {}
    }
    assert(with_visibility(rows) =~= rows);
}

/// The file indices of the leaves of a node.
pub open spec fn leaves(n: NodeV) -> Multiset<i32>
    decreases size_node(n), 0nat,
{
    match n {
        NodeV::Dir { children, .. } => leaves_list(children),
        NodeV::File { file_index, .. } => Multiset::singleton(file_index),
    }
}

pub open spec fn leaves_list(ns: Seq<NodeV>) -> Multiset<i32>
    decreases size_list(ns), 1nat,
{
    if ns.len() == 0 {
        Multiset::empty()
    } else {
        proof {
            lemma_size_elem(ns, ns.len() - 1);
            lemma_size_node_pos(ns[ns.len() - 1]);
        }
        leaves_list(ns.subrange(0, ns.len() - 1)).add(leaves(ns[ns.len() - 1]))
    }
}

/// The file indices of the file rows.
pub open spec fn row_indices(rows: Seq<TreeRowV>) -> Multiset<i32>
    decreases rows.len(),
{
    if rows.len() == 0 {
        Multiset::empty()
    } else {
        row_indices(rows.drop_last()).add(
            if rows.last().is_dir {
                Multiset::empty()
            } else {
                Multiset::singleton(rows.last().file_index)
            },
        )
    }
}

/// The indices of the files whose paths have at least one component.
pub open spec fn named_indices(files: Seq<FileV>) -> Multiset<i32>
    decreases files.len(),
{
    if files.len() == 0 {
        Multiset::empty()
    } else if components(files.last().path).len() > 0 {
        named_indices(files.drop_last()).insert((files.len() - 1) as i32)
    } else {
        named_indices(files.drop_last())
    }
}

proof fn lemma_row_indices_concat(a: Seq<TreeRowV>, b: Seq<TreeRowV>)
    ensures
        row_indices(a + b) =~= row_indices(a).add(row_indices(b)),
    decreases b.len(),
{
    broadcast use vstd::multiset::group_multiset_axioms;
    if b.len() == 0 {
        assert(a + b =~= a);
    } else {
        lemma_row_indices_concat(a, b.drop_last());
        assert((a + b).drop_last() =~= a + b.drop_last());
        assert((a + b).last() == b.last());
    }
}

proof fn lemma_leaves_push(ns: Seq<NodeV>, x: NodeV)
    ensures
        leaves_list(ns.push(x)) =~= leaves_list(ns).add(leaves(x)),
{
    assert(ns.push(x).subrange(0, ns.len() as int) =~= ns);
}

proof fn lemma_leaves_update(ns: Seq<NodeV>, p: int, x: NodeV)
    requires
        0 <= p < ns.len(),
    ensures
        leaves_list(ns.update(p, x)).add(leaves(ns[p])) =~= leaves_list(ns).add(leaves(x)),
    decreases ns.len(),
{
    broadcast use vstd::multiset::group_multiset_axioms;
    let last = ns.len() - 1;
    let pre = ns.subrange(0, last);
    let up = ns.update(p, x);
    assert(leaves_list(ns) == leaves_list(pre).add(leaves(ns[last])));
    if p == last {
        assert(up.subrange(0, last) =~= pre);
        assert(leaves_list(up) == leaves_list(pre).add(leaves(x)));
    } else {
        lemma_leaves_update(pre, p, x);
        assert(up.subrange(0, last) =~= pre.update(p, x));
        assert(pre[p] == ns[p]);
        assert(up[last] == ns[last]);
        assert(leaves_list(up) == leaves_list(pre.update(p, x)).add(leaves(ns[last])));
        assert forall|v: i32| #[trigger] leaves_list(up).add(leaves(ns[p])).count(v)
            == leaves_list(ns).add(leaves(x)).count(v) by {
            assert(leaves_list(pre.update(p, x)).add(leaves(pre[p])).count(v)
                == leaves_list(pre).add(leaves(x)).count(v));
        }
    }
}

/// An insertion that does not drop its leaf adds the leaf's index.
proof fn lemma_insert_leaves(ns: Seq<NodeV>, dirs: Seq<Seq<char>>, leaf: NodeV)
    ensures
        leaves_list(insert_spec(ns, dirs, leaf)) =~= leaves_list(ns).add(leaves(leaf)),
    decreases dirs.len(),
{
    broadcast use vstd::multiset::group_multiset_axioms;
    let r = insert_spec(ns, dirs, leaf);
    if dirs.len() == 0 {
        lemma_leaves_push(ns, leaf);
    } else {
        lemma_find_key(ns, dirs[0]);
        match find_key(ns, dirs[0]) {
            Some(p) => match ns[p] {
                NodeV::Dir { key, name, children } => {
                    lemma_insert_leaves(children, dirs.drop_first(), leaf);
                    let x = NodeV::Dir { key, name, children: insert_spec(children, dirs.drop_first(), leaf) };
                    assert(r == ns.update(p, x));
                    lemma_leaves_update(ns, p, x);
                    assert(leaves(ns[p]) == leaves_list(children));
                    assert forall|v: i32| #[trigger] leaves_list(r).count(v) == leaves_list(ns).add(leaves(leaf)).count(v) by {
                        assert(leaves_list(r).add(leaves(ns[p])).count(v) == leaves_list(ns).add(leaves(x)).count(v));
                    }
                },
                _ => {},
            },
            None => {
                lemma_insert_leaves(Seq::empty(), dirs.drop_first(), leaf);
                assert(leaves_list(Seq::<NodeV>::empty()) =~= Multiset::empty());
                let x = NodeV::Dir { key: dirs[0], name: dirs[0], children: insert_spec(Seq::empty(), dirs.drop_first(), leaf) };
                lemma_leaves_push(ns, x);
            },
        }
    }
}

proof fn lemma_prefix_tree_leaves(files: Seq<FileV>)
    ensures
        leaves_list(prefix_tree(files)) =~= named_indices(files),
    decreases files.len(),
{
    broadcast use vstd::multiset::group_multiset_axioms;
    if files.len() == 0 {
        assert(leaves_list(Seq::<NodeV>::empty()) =~= Multiset::empty());
    } else {
        lemma_prefix_tree_leaves(files.drop_last());
        let f = files.last();
        let parts = components(f.path);
        if parts.len() > 0 {
            let idx = files.len() - 1;
            lemma_insert_leaves(prefix_tree(files.drop_last()), parts.drop_last(), leaf_of(f, idx));
            assert(leaves(leaf_of(f, idx)) == Multiset::singleton(idx as i32));
        }
    }
}

proof fn lemma_fold_chain_leaves(name: Seq<char>, children: Seq<NodeV>)
    ensures
        leaves_list(fold_chain(name, children).1) =~= leaves_list(children),
    decreases size_list(children),
{
    broadcast use vstd::multiset::group_multiset_axioms;
    if children.len() == 1 && children[0] is Dir {
        lemma_size_elem(children, 0);
        lemma_fold_chain_leaves(name.push('/') + children[0]->Dir_name, children[0]->Dir_children);
        assert(children.subrange(0, 0) =~= Seq::<NodeV>::empty());
        assert(leaves_list(children.subrange(0, 0)) =~= Multiset::empty());
        assert(leaves_list(children) == leaves_list(children.subrange(0, 0)).add(leaves(children[0])));
        assert(leaves(children[0]) == leaves_list(children[0]->Dir_children));
    }
}

proof fn lemma_collapse_leaves(n: NodeV)
    ensures
        leaves(collapse_node(n)) =~= leaves(n),
    decreases size_node(n), 0nat,
{
    match n {
        NodeV::Dir { key, name, children } => {
            lemma_fold_chain_size(name, children);
            lemma_fold_chain_leaves(name, children);
            lemma_collapse_list_leaves(fold_chain(name, children).1);
        },
        NodeV::File { .. } => {},
    }
}

proof fn lemma_collapse_list_leaves(ns: Seq<NodeV>)
    ensures
        leaves_list(collapse_list(ns)) =~= leaves_list(ns),
    decreases size_list(ns), 1nat,
{
    if ns.len() > 0 {
        let pre = ns.subrange(0, ns.len() - 1);
        lemma_size_elem(ns, ns.len() - 1);
        lemma_size_node_pos(ns[ns.len() - 1]);
        lemma_collapse_list_leaves(pre);
        lemma_collapse_leaves(ns[ns.len() - 1]);
        lemma_leaves_push(collapse_list(pre), collapse_node(ns[ns.len() - 1]));
    }
}

/// The file rows of the flattened nodes are exactly their leaves.
proof fn lemma_flatten_leaves(ns: Seq<NodeV>, depth: nat)
    ensures
        row_indices(flatten_list(ns, depth)) =~= leaves_list(ns),
    decreases size_list(ns), 1nat,
{
    if ns.len() > 0 {
        let pre = ns.subrange(0, ns.len() - 1);
        let last = ns[ns.len() - 1];
        lemma_size_elem(ns, ns.len() - 1);
        lemma_size_node_pos(last);
        lemma_flatten_leaves(pre, depth);
        lemma_row_indices_concat(flatten_list(pre, depth), flatten_node(last, depth));
        lemma_flatten_node_leaves(last, depth);
    }
}

proof fn lemma_flatten_node_leaves(n: NodeV, depth: nat)
    ensures
        row_indices(flatten_node(n, depth)) =~= leaves(n),
    decreases size_node(n), 0nat,
{
    broadcast use vstd::multiset::group_multiset_axioms;
    let r = flatten_node(n, depth);
    match n {
        NodeV::Dir { name, children, .. } => {
            let head = seq![dir_row(name, depth)];
            let rest = flatten_list(children, depth + 1);
            assert(r == head + rest);
            lemma_flatten_leaves(children, depth + 1);
            lemma_row_indices_concat(head, rest);
            assert(head.drop_last() =~= Seq::<TreeRowV>::empty());
            assert(row_indices(head.drop_last()) =~= Multiset::empty());
            assert(row_indices(head) =~= Multiset::empty());
        },
        NodeV::File { .. } => {
            assert(r.drop_last() =~= Seq::<TreeRowV>::empty());
            assert(row_indices(r.drop_last()) =~= Multiset::empty());
        },
    }
}

/// The file indices of the leaf_counts of a node.
pub open spec fn leaf_counts(n: NodeV) -> Multiset<(i32, i32, i32)>
    decreases size_node(n), 0nat,
{
    match n {
        NodeV::Dir { children, .. } => counts_list(children),
        NodeV::File { file_index, added, removed, .. } => Multiset::singleton((file_index, added, removed)),
    }
}

pub open spec fn counts_list(ns: Seq<NodeV>) -> Multiset<(i32, i32, i32)>
    decreases size_list(ns), 1nat,
{
    if ns.len() == 0 {
        Multiset::empty()
    } else {
        proof {
            lemma_size_elem(ns, ns.len() - 1);
            lemma_size_node_pos(ns[ns.len() - 1]);
        }
        counts_list(ns.subrange(0, ns.len() - 1)).add(leaf_counts(ns[ns.len() - 1]))
    }
}

/// The file indices and counts of the file rows.
pub open spec fn row_counts(rows: Seq<TreeRowV>) -> Multiset<(i32, i32, i32)>
    decreases rows.len(),
{
    if rows.len() == 0 {
        Multiset::empty()
    } else {
        row_counts(rows.drop_last()).add(
            if rows.last().is_dir {
                Multiset::empty()
            } else {
                Multiset::singleton((rows.last().file_index, rows.last().added, rows.last().removed))
            },
        )
    }
}

/// The indices and counts of the files whose paths have at least one
/// component.
pub open spec fn named_row_counts(files: Seq<FileV>) -> Multiset<(i32, i32, i32)>
    decreases files.len(),
{
    if files.len() == 0 {
        Multiset::empty()
    } else if components(files.last().path).len() > 0 {
        named_row_counts(files.drop_last()).insert(
            ((files.len() - 1) as i32, files.last().added as i32, files.last().removed as i32),
        )
    } else {
        named_row_counts(files.drop_last())
    }
}

proof fn lemma_row_indices_concat_counted(a: Seq<TreeRowV>, b: Seq<TreeRowV>)
    ensures
        row_counts(a + b) =~= row_counts(a).add(row_counts(b)),
    decreases b.len(),
{
    broadcast use vstd::multiset::group_multiset_axioms;
    if b.len() == 0 {
        assert(a + b =~= a);
    } else {
        lemma_row_indices_concat_counted(a, b.drop_last());
        assert((a + b).drop_last() =~= a + b.drop_last());
        assert((a + b).last() == b.last());
    }
}

proof fn lemma_leaves_push_counted(ns: Seq<NodeV>, x: NodeV)
    ensures
        counts_list(ns.push(x)) =~= counts_list(ns).add(leaf_counts(x)),
{
    assert(ns.push(x).subrange(0, ns.len() as int) =~= ns);
}

proof fn lemma_leaves_update_counted(ns: Seq<NodeV>, p: int, x: NodeV)
    requires
        0 <= p < ns.len(),
    ensures
        counts_list(ns.update(p, x)).add(leaf_counts(ns[p])) =~= counts_list(ns).add(leaf_counts(x)),
    decreases ns.len(),
{
    broadcast use vstd::multiset::group_multiset_axioms;
    let last = ns.len() - 1;
    let pre = ns.subrange(0, last);
    let up = ns.update(p, x);
    assert(counts_list(ns) == counts_list(pre).add(leaf_counts(ns[last])));
    if p == last {
        assert(up.subrange(0, last) =~= pre);
        assert(counts_list(up) == counts_list(pre).add(leaf_counts(x)));
    } else {
        lemma_leaves_update_counted(pre, p, x);
        assert(up.subrange(0, last) =~= pre.update(p, x));
        assert(pre[p] == ns[p]);
        assert(up[last] == ns[last]);
        assert(counts_list(up) == counts_list(pre.update(p, x)).add(leaf_counts(ns[last])));
        assert forall|v: (i32, i32, i32)| #[trigger] counts_list(up).add(leaf_counts(ns[p])).count(v)
            == counts_list(ns).add(leaf_counts(x)).count(v) by {
            assert(counts_list(pre.update(p, x)).add(leaf_counts(pre[p])).count(v)
                == counts_list(pre).add(leaf_counts(x)).count(v));
        }
    }
}

/// An insertion adds the leaf's index and counts.
proof fn lemma_insert_leaves_counted(ns: Seq<NodeV>, dirs: Seq<Seq<char>>, leaf: NodeV)
    ensures
        counts_list(insert_spec(ns, dirs, leaf)) =~= counts_list(ns).add(leaf_counts(leaf)),
    decreases dirs.len(),
{
    broadcast use vstd::multiset::group_multiset_axioms;
    let r = insert_spec(ns, dirs, leaf);
    if dirs.len() == 0 {
        lemma_leaves_push_counted(ns, leaf);
    } else {
        lemma_find_key(ns, dirs[0]);
        match find_key(ns, dirs[0]) {
            Some(p) => match ns[p] {
                NodeV::Dir { key, name, children } => {
                    lemma_insert_leaves_counted(children, dirs.drop_first(), leaf);
                    let x = NodeV::Dir { key, name, children: insert_spec(children, dirs.drop_first(), leaf) };
                    assert(r == ns.update(p, x));
                    lemma_leaves_update_counted(ns, p, x);
                    assert(leaf_counts(ns[p]) == counts_list(children));
                    assert forall|v: (i32, i32, i32)| #[trigger] counts_list(r).count(v) == counts_list(ns).add(leaf_counts(leaf)).count(v) by {
                        assert(counts_list(r).add(leaf_counts(ns[p])).count(v) == counts_list(ns).add(leaf_counts(x)).count(v));
                    }
                },
                _ => {},
            },
            None => {
                lemma_insert_leaves_counted(Seq::empty(), dirs.drop_first(), leaf);
                assert(counts_list(Seq::<NodeV>::empty()) =~= Multiset::empty());
                let x = NodeV::Dir { key: dirs[0], name: dirs[0], children: insert_spec(Seq::empty(), dirs.drop_first(), leaf) };
                lemma_leaves_push_counted(ns, x);
            },
        }
    }
}

proof fn lemma_prefix_tree_leaves_counted(files: Seq<FileV>)
    ensures
        counts_list(prefix_tree(files)) =~= named_row_counts(files),
    decreases files.len(),
{
    broadcast use vstd::multiset::group_multiset_axioms;
    if files.len() == 0 {
        assert(counts_list(Seq::<NodeV>::empty()) =~= Multiset::empty());
    } else {
        lemma_prefix_tree_leaves_counted(files.drop_last());
        let f = files.last();
        let parts = components(f.path);
        if parts.len() > 0 {
            let idx = files.len() - 1;
            lemma_insert_leaves_counted(prefix_tree(files.drop_last()), parts.drop_last(), leaf_of(f, idx));
            assert(leaf_counts(leaf_of(f, idx)) == Multiset::singleton((idx as i32, f.added as i32, f.removed as i32)));
        }
    }
}

proof fn lemma_fold_chain_leaves_counted(name: Seq<char>, children: Seq<NodeV>)
    ensures
        counts_list(fold_chain(name, children).1) =~= counts_list(children),
    decreases size_list(children),
{
    broadcast use vstd::multiset::group_multiset_axioms;
    if children.len() == 1 && children[0] is Dir {
        lemma_size_elem(children, 0);
        lemma_fold_chain_leaves_counted(name.push('/') + children[0]->Dir_name, children[0]->Dir_children);
        assert(children.subrange(0, 0) =~= Seq::<NodeV>::empty());
        assert(counts_list(children.subrange(0, 0)) =~= Multiset::empty());
        assert(counts_list(children) == counts_list(children.subrange(0, 0)).add(leaf_counts(children[0])));
        assert(leaf_counts(children[0]) == counts_list(children[0]->Dir_children));
    }
}

proof fn lemma_collapse_leaves_counted(n: NodeV)
    ensures
        leaf_counts(collapse_node(n)) =~= leaf_counts(n),
    decreases size_node(n), 0nat,
{
    match n {
        NodeV::Dir { key, name, children } => {
            lemma_fold_chain_size(name, children);
            lemma_fold_chain_leaves_counted(name, children);
            lemma_collapse_list_leaves_counted(fold_chain(name, children).1);
        },
        NodeV::File { .. } => {},
    }
}

proof fn lemma_collapse_list_leaves_counted(ns: Seq<NodeV>)
    ensures
        counts_list(collapse_list(ns)) =~= counts_list(ns),
    decreases size_list(ns), 1nat,
{
    if ns.len() > 0 {
        let pre = ns.subrange(0, ns.len() - 1);
        lemma_size_elem(ns, ns.len() - 1);
        lemma_size_node_pos(ns[ns.len() - 1]);
        lemma_collapse_list_leaves_counted(pre);
        lemma_collapse_leaves_counted(ns[ns.len() - 1]);
        lemma_leaves_push_counted(collapse_list(pre), collapse_node(ns[ns.len() - 1]));
    }
}

/// The file rows of the flattened nodes are exactly their leaf_counts.
proof fn lemma_flatten_leaves_counted(ns: Seq<NodeV>, depth: nat)
    ensures
        row_counts(flatten_list(ns, depth)) =~= counts_list(ns),
    decreases size_list(ns), 1nat,
{
    if ns.len() > 0 {
        let pre = ns.subrange(0, ns.len() - 1);
        let last = ns[ns.len() - 1];
        lemma_size_elem(ns, ns.len() - 1);
        lemma_size_node_pos(last);
        lemma_flatten_leaves_counted(pre, depth);
        lemma_row_indices_concat_counted(flatten_list(pre, depth), flatten_node(last, depth));
        lemma_flatten_node_leaves_counted(last, depth);
    }
}

proof fn lemma_flatten_node_leaves_counted(n: NodeV, depth: nat)
    ensures
        row_counts(flatten_node(n, depth)) =~= leaf_counts(n),
    decreases size_node(n), 0nat,
{
    broadcast use vstd::multiset::group_multiset_axioms;
    let r = flatten_node(n, depth);
    match n {
        NodeV::Dir { name, children, .. } => {
            let head = seq![dir_row(name, depth)];
            let rest = flatten_list(children, depth + 1);
            assert(r == head + rest);
            lemma_flatten_leaves_counted(children, depth + 1);
            lemma_row_indices_concat_counted(head, rest);
            assert(head.drop_last() =~= Seq::<TreeRowV>::empty());
            assert(row_counts(head.drop_last()) =~= Multiset::empty());
            assert(row_counts(head) =~= Multiset::empty());
        },
        NodeV::File { .. } => {
            assert(r.drop_last() =~= Seq::<TreeRowV>::empty());
            assert(row_counts(r.drop_last()) =~= Multiset::empty());
        },
    }
}

/// Every file whose path names something is exactly one file row, showing
/// that file's added and removed counts under its index, and no other row is
/// a file row.
pub proof fn law_file_rows_carry_counts(files: Seq<FileV>)
    ensures
        row_counts(tree_rows(files)) =~= named_row_counts(files),
{
    lemma_prefix_tree_leaves_counted(files);
    lemma_collapse_list_leaves_counted(prefix_tree(files));
    lemma_flatten_leaves_counted(collapse_list(prefix_tree(files)), 0);
}

/// Every file whose path names something is exactly one file row, and no
/// other row is a file row.
pub proof fn law_every_file_has_one_row(files: Seq<FileV>)
    ensures
        row_indices(tree_rows(files)) =~= named_indices(files),
{
    lemma_prefix_tree_leaves(files);
    lemma_collapse_list_leaves(prefix_tree(files));
    lemma_flatten_leaves(collapse_list(prefix_tree(files)), 0);
}

} // verus!
