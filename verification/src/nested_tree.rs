//! The file tree kept as nested nodes in diff order: each file is added as a
//! leaf under folders found or made by name, chains of single subfolders are
//! folded from the bottom up, and the tree is walked into rows that leave out
//! what a collapsed folder holds.

use vstd::prelude::*;
use vstd::multiset::Multiset;
use crate::keyed_tree::{concat_slash, is_collapsed, join_key, key_set};
use crate::model::{files_view, FileDiff, FileV};
use crate::paths::{components, path_components, same_chars};
use crate::sorted_tree::named_counts;
use crate::text::{chars_of, push_all, push_char, string_of};

verus! {

/// A node: a file when `file_index` is set, else a folder.
pub struct TNode {
    pub name: String,
    pub file_index: Option<usize>,
    pub added: u32,
    pub removed: u32,
    pub children: Vec<TNode>,
}

pub struct TNodeV {
    pub name: Seq<char>,
    pub file_index: Option<usize>,
    pub added: u32,
    pub removed: u32,
    pub children: Seq<TNodeV>,
}

pub open spec fn tnode_view(n: TNode) -> TNodeV
    decreases n,
{
    TNodeV {
        name: n.name@,
        file_index: n.file_index,
        added: n.added,
        removed: n.removed,
        children: tnodes_view(n.children@),
    }
}

pub open spec fn tnodes_view(s: Seq<TNode>) -> Seq<TNodeV>
    decreases s,
{
    if s.len() == 0 {
        Seq::empty()
    } else {
        tnodes_view(s.subrange(0, s.len() - 1)).push(tnode_view(s[s.len() - 1]))
    }
}

pub proof fn lemma_tnodes_view(s: Seq<TNode>)
    ensures
        tnodes_view(s).len() == s.len(),
        forall|i: int| 0 <= i < s.len() ==> #[trigger] tnodes_view(s)[i] == tnode_view(s[i]),
    decreases s.len(),
{
    if s.len() > 0 {
        lemma_tnodes_view(s.subrange(0, s.len() - 1));
        assert forall|i: int| 0 <= i < s.len() implies #[trigger] tnodes_view(s)[i] == tnode_view(s[i]) by {
            if i < s.len() - 1 {
                assert(s.subrange(0, s.len() - 1)[i] == s[i]);
            }
        }
    }
}

/// The position of the first folder named `c`.
pub open spec fn find_dir(ns: Seq<TNodeV>, c: Seq<char>) -> Option<int>
    decreases ns.len(),
{
    if ns.len() == 0 {
        None
    } else if ns[0].file_index is None && ns[0].name == c {
        Some(0)
    } else {
        match find_dir(ns.drop_first(), c) {
            Some(i) => Some(i + 1),
            None => None,
        }
    }
}

pub proof fn lemma_find_dir(ns: Seq<TNodeV>, c: Seq<char>)
    ensures
        match find_dir(ns, c) {
            Some(p) => 0 <= p < ns.len() && ns[p].file_index is None && ns[p].name == c && forall|j: int|
                0 <= j < p ==> !(#[trigger] ns[j].file_index is None && ns[j].name == c),
            None => forall|j: int| 0 <= j < ns.len() ==> !(#[trigger] ns[j].file_index is None && ns[j].name == c),
        },
    decreases ns.len(),
{
    if ns.len() > 0 {
        lemma_find_dir(ns.drop_first(), c);
        assert forall|j: int| 1 <= j < ns.len() implies ns[j] == ns.drop_first()[j - 1] by {}
    }
}

pub open spec fn new_dir(c: Seq<char>) -> TNodeV {
    TNodeV { name: c, file_index: None, added: 0, removed: 0, children: Seq::empty() }
}

/// Adds a file: the last component is a new leaf; each earlier one is the
/// first folder of that name, made when there is none.
pub open spec fn add_file(ns: Seq<TNodeV>, comps: Seq<Seq<char>>, idx: usize, added: u32, removed: u32) -> Seq<TNodeV>
    decreases comps.len(),
{
    if comps.len() == 0 {
        ns
    } else if comps.len() == 1 {
        ns.push(TNodeV { name: comps[0], file_index: Some(idx), added, removed, children: Seq::empty() })
    } else {
        match find_dir(ns, comps[0]) {
            Some(p) => ns.update(
                p,
                TNodeV { children: add_file(ns[p].children, comps.drop_first(), idx, added, removed), ..ns[p] },
            ),
            None => ns.push(
                TNodeV {
                    children: add_file(Seq::empty(), comps.drop_first(), idx, added, removed),
                    ..new_dir(comps[0])
                },
            ),
        }
    }
}

pub open spec fn chars_view(v: Seq<Vec<char>>) -> Seq<Seq<char>> {
    v.map_values(|c: Vec<char>| c@)
}

fn position_dir(ns: &Vec<TNode>, c: &Vec<char>) -> (r: Option<usize>)
    ensures
        match r {
            Some(p) => find_dir(tnodes_view(ns@), c@) == Some(p as int),
            None => find_dir(tnodes_view(ns@), c@) is None,
        },
{
    let ghost vs = tnodes_view(ns@);
    proof {
        lemma_tnodes_view(ns@);
        lemma_find_dir(vs, c@);
    }
    let mut i: usize = 0;
    while i < ns.len()
        invariant
            vs == tnodes_view(ns@),
            vs.len() == ns@.len(),
            forall|j: int| 0 <= j < ns@.len() ==> #[trigger] vs[j] == tnode_view(ns@[j]),
            i <= ns@.len(),
            forall|j: int| 0 <= j < i ==> !(#[trigger] vs[j].file_index is None && vs[j].name == c@),
            match find_dir(vs, c@) {
                Some(p) => 0 <= p < vs.len() && vs[p].file_index is None && vs[p].name == c@ && forall|j: int|
                    0 <= j < p ==> !(#[trigger] vs[j].file_index is None && vs[j].name == c@),
                None => forall|j: int| 0 <= j < vs.len() ==> !(#[trigger] vs[j].file_index is None && vs[j].name == c@),
            },
        decreases ns@.len() - i,
    {
        assert(vs[i as int] == tnode_view(ns@[i as int]));
        if ns[i].file_index.is_none() && same_chars(&chars_of(ns[i].name.as_str()), c) {
            assert(vs[i as int].file_index is None && vs[i as int].name == c@);
            return Some(i);
        }
        i = i + 1;
    }
    None
}

fn add_file_exec(ns: &mut Vec<TNode>, comps: &Vec<Vec<char>>, from: usize, idx: usize, added: u32, removed: u32)
    requires
        from <= comps@.len(),
    ensures
        tnodes_view(final(ns)@) == add_file(tnodes_view(old(ns)@), chars_view(comps@).skip(from as int), idx, added, removed),
    decreases comps@.len() - from,
{
    let ghost cs = chars_view(comps@).skip(from as int);
    let ghost vs = tnodes_view(ns@);
    proof {
        lemma_tnodes_view(ns@);
    }
    if from == comps.len() {
        assert(cs.len() == 0);
        return;
    }
    assert(cs[0] == comps@[from as int]@);
    assert(cs.drop_first() =~= chars_view(comps@).skip(from + 1));
    if from + 1 == comps.len() {
        let leaf = TNode { name: string_of(&comps[from]), file_index: Some(idx), added, removed, children: Vec::new() };
        ns.push(leaf);
        proof {
            lemma_tnodes_view(ns@);
            assert(tnodes_view(Seq::<TNode>::empty()) =~= Seq::<TNodeV>::empty());
            assert(tnodes_view(ns@) =~= add_file(vs, cs, idx, added, removed));
        }
        return;
    }
    match position_dir(ns, &comps[from]) {
        Some(p) => {
            proof {
                lemma_find_dir(vs, cs[0]);
            }
            let mut node = ns.remove(p);
            assert(tnode_view(node) == vs[p as int]);
            add_file_exec(&mut node.children, comps, from + 1, idx, added, removed);
            ns.insert(p, node);
            proof {
                lemma_tnodes_view(ns@);
                assert(tnodes_view(ns@) =~= add_file(vs, cs, idx, added, removed));
            }
        },
        None => {
            let mut node = TNode { name: string_of(&comps[from]), file_index: None, added: 0, removed: 0, children: Vec::new() };
            proof {
                assert(tnodes_view(Seq::<TNode>::empty()) =~= Seq::<TNodeV>::empty());
            }
            add_file_exec(&mut node.children, comps, from + 1, idx, added, removed);
            ns.push(node);
            proof {
                lemma_tnodes_view(ns@);
                assert(tnodes_view(ns@) =~= add_file(vs, cs, idx, added, removed));
            }
        },
    }
}

/// The number of nodes of a tree.
pub open spec fn tsize(n: TNodeV) -> nat
    decreases n,
{
    1 + tsizes(n.children)
}

pub open spec fn tsizes(ns: Seq<TNodeV>) -> nat
    decreases ns,
{
    if ns.len() == 0 {
        0
    } else {
        tsizes(ns.subrange(0, ns.len() - 1)) + tsize(ns[ns.len() - 1])
    }
}

pub proof fn lemma_tsizes_elem(ns: Seq<TNodeV>, i: int)
    requires
        0 <= i < ns.len(),
    ensures
        tsize(ns[i]) <= tsizes(ns),
        ns.len() == 1 ==> tsizes(ns) == tsize(ns[0]),
    decreases ns.len(),
{
    if i < ns.len() - 1 {
        lemma_tsizes_elem(ns.subrange(0, ns.len() - 1), i);
    }
    if ns.len() == 1 {
        assert(tsizes(ns.subrange(0, 0)) == 0);
    }
}

/// A folder's name and children after folding in a single subfolder, as
/// long as there is exactly one child and it is a folder.
pub open spec fn fold_in(name: Seq<char>, children: Seq<TNodeV>) -> (Seq<char>, Seq<TNodeV>)
    decreases tsizes(children),
{
    if children.len() == 1 && children[0].file_index is None {
        proof {
            lemma_tsizes_elem(children, 0);
        }
        fold_in(name.push('/') + children[0].name, children[0].children)
    } else {
        (name, children)
    }
}

/// Collapsing a list keeps its length and collapses each node.
pub open spec fn collapse_all(ns: Seq<TNodeV>) -> Seq<TNodeV>
    decreases tsizes(ns), 1nat,
{
    if ns.len() == 0 {
        Seq::empty()
    } else {
        proof {
            lemma_tsizes_elem(ns, ns.len() - 1);
        }
        collapse_all(ns.subrange(0, ns.len() - 1)).push(collapse_one(ns[ns.len() - 1]))
    }
}

/// A folder's children are collapsed first, then single subfolders are folded
/// into it; a file is left as it is.
pub open spec fn collapse_one(n: TNodeV) -> TNodeV
    decreases tsize(n), 0nat,
{
    if n.file_index is None {
        let (name, children) = fold_in(n.name, collapse_all(n.children));
        TNodeV { name, children, ..n }
    } else {
        n
    }
}

pub proof fn lemma_collapse_all(ns: Seq<TNodeV>)
    ensures
        collapse_all(ns).len() == ns.len(),
        forall|i: int| 0 <= i < ns.len() ==> #[trigger] collapse_all(ns)[i] == collapse_one(ns[i]),
    decreases ns.len(),
{
    if ns.len() > 0 {
        let pre = ns.subrange(0, ns.len() - 1);
        lemma_collapse_all(pre);
        assert forall|i: int| 0 <= i < ns.len() implies #[trigger] collapse_all(ns)[i] == collapse_one(ns[i]) by {
            if i < ns.len() - 1 {
                assert(pre[i] == ns[i]);
            }
        }
    }
}

fn collapse_node(n: TNode) -> (r: TNode)
    ensures
        tnode_view(r) == collapse_one(tnode_view(n)),
    decreases tsize(tnode_view(n)), 0nat,
{
    proof {
        lemma_tnodes_view(n.children@);
    }
    if n.file_index.is_some() {
        return n;
    }
    let TNode { name, file_index, added, removed, children } = n;
    let ghost name0 = name@;
    let children = collapse_chains(children);
    let ghost kids0 = tnodes_view(children@);
    let mut name = name;
    let mut children = children;
    while children.len() == 1 && children[0].file_index.is_none()
        invariant
            fold_in(name@, tnodes_view(children@)) == fold_in(name0, kids0),
        decreases tsizes(tnodes_view(children@)),
    {
        proof {
            lemma_tnodes_view(children@);
            lemma_tsizes_elem(tnodes_view(children@), 0);
        }
        let only = children.remove(0);
        push_char(&mut name, '/');
        push_all(&mut name, &chars_of(only.name.as_str()));
        children = only.children;
    }
    proof {
        lemma_tnodes_view(children@);
        assert(fold_in(name@, tnodes_view(children@)) == (name@, tnodes_view(children@)));
    }
    TNode { name, file_index, added, removed, children }
}

fn collapse_chains(v: Vec<TNode>) -> (r: Vec<TNode>)
    ensures
        tnodes_view(r@) == collapse_all(tnodes_view(v@)),
    decreases tsizes(tnodes_view(v@)), 1nat,
{
    let ghost vs = tnodes_view(v@);
    proof {
        lemma_tnodes_view(v@);
        lemma_collapse_all(vs);
    }
    let mut rest = v;
    let mut out: Vec<TNode> = Vec::new();
    while rest.len() > 0
        invariant
            vs == tnodes_view(v@),
            vs.len() == v@.len(),
            forall|j: int| 0 <= j < v@.len() ==> #[trigger] vs[j] == tnode_view(v@[j]),
            out@.len() + rest@.len() == v@.len(),
            rest@ == v@.subrange(out@.len() as int, v@.len() as int),
            forall|j: int| 0 <= j < out@.len() ==> tnode_view(#[trigger] out@[j]) == collapse_one(vs[j]),
        decreases rest@.len(),
    {
        let ghost k = out@.len();
        proof {
            lemma_tsizes_elem(vs, k as int);
            assert(rest@[0] == v@[k as int]);
        }
        let e = rest.remove(0);
        out.push(collapse_node(e));
        assert(rest@ =~= v@.subrange(out@.len() as int, v@.len() as int));
    }
    proof {
        lemma_tnodes_view(out@);
        assert(tnodes_view(out@) =~= collapse_all(vs));
    }
    out
}

/// The tree of the files, added in diff order.
pub open spec fn nested_tree(files: Seq<FileV>) -> Seq<TNodeV>
    decreases files.len(),
{
    if files.len() == 0 {
        Seq::empty()
    } else {
        let f = files.last();
        add_file(nested_tree(files.drop_last()), components(f.path), (files.len() - 1) as usize, f.added, f.removed)
    }
}

/// Builds the folded tree of a diff's files.
pub fn build_nested_tree(files: &Vec<FileDiff>) -> (roots: Vec<TNode>)
    ensures
        tnodes_view(roots@) == collapse_all(nested_tree(files_view(files@))),
{
    let ghost fs = files_view(files@);
    let mut roots: Vec<TNode> = Vec::new();
    let mut i: usize = 0;
    while i < files.len()
        invariant
            fs == files_view(files@),
            i <= files@.len(),
            tnodes_view(roots@) == nested_tree(fs.take(i as int)),
        decreases files@.len() - i,
    {
        proof {
            assert(fs.take(i + 1).drop_last() =~= fs.take(i as int));
            assert(fs.take(i + 1).last() == files@[i as int]@);
        }
        let f = &files[i];
        let comps = path_components(f.path.as_str());
        assert(chars_view(comps@).skip(0) =~= components(f.path@));
        add_file_exec(&mut roots, &comps, 0, i, f.added, f.removed);
        i = i + 1;
    }
    assert(fs.take(files@.len() as int) =~= fs);
    collapse_chains(roots)
}

/// What a row shows: a folder with its key and name, or a file with its
/// name, index and counts.
pub enum RowEntry {
    Folder { key: String, name: String },
    File { name: String, index: usize, added: u32, removed: u32 },
}

pub struct NestedRow {
    pub depth: usize,
    pub entry: RowEntry,
}

pub enum RowEntryV {
    Folder { key: Seq<char>, name: Seq<char> },
    File { name: Seq<char>, index: usize, added: u32, removed: u32 },
}

pub struct NestedRowV {
    pub depth: nat,
    pub entry: RowEntryV,
}

impl View for NestedRow {
    type V = NestedRowV;

    open spec fn view(&self) -> NestedRowV {
        NestedRowV {
            depth: self.depth as nat,
            entry: match self.entry {
                RowEntry::Folder { key, name } => RowEntryV::Folder { key: key@, name: name@ },
                RowEntry::File { name, index, added, removed } => RowEntryV::File { name: name@, index, added, removed },
            },
        }
    }
}

pub open spec fn nested_rows_view(rows: Seq<NestedRow>) -> Seq<NestedRowV> {
    rows.map_values(|r: NestedRow| r@)
}

/// The rows of a node: a file is one row; a folder is its row, then, unless
/// its key is collapsed, the rows of its children one level deeper.
pub open spec fn rows_of_node(n: TNodeV, prefix: Seq<char>, depth: nat, collapsed: Set<Seq<char>>) -> Seq<NestedRowV>
    decreases tsize(n), 0nat,
{
    match n.file_index {
        Some(fi) => seq![NestedRowV { depth, entry: RowEntryV::File { name: n.name, index: fi, added: n.added, removed: n.removed } }],
        None => {
            let key = join_key(prefix, n.name);
            let row = NestedRowV { depth, entry: RowEntryV::Folder { key, name: n.name } };
            if collapsed.contains(key) {
                seq![row]
            } else {
                seq![row] + rows_of_list(n.children, key, depth + 1, collapsed)
            }
        },
    }
}

pub open spec fn rows_of_list(ns: Seq<TNodeV>, prefix: Seq<char>, depth: nat, collapsed: Set<Seq<char>>) -> Seq<NestedRowV>
    decreases tsizes(ns), 1nat,
{
    if ns.len() == 0 {
        Seq::empty()
    } else {
        proof {
            lemma_tsizes_elem(ns, ns.len() - 1);
        }
        rows_of_list(ns.subrange(0, ns.len() - 1), prefix, depth, collapsed) + rows_of_node(
            ns[ns.len() - 1],
            prefix,
            depth,
            collapsed,
        )
    }
}

/// Appends the rows of `nodes` at `depth` under the folder key `prefix`;
/// `out` already holds a row for each folder above them.
fn flatten_tree(nodes: &Vec<TNode>, depth: usize, prefix: &Vec<char>, collapsed: &Vec<String>, out: &mut Vec<NestedRow>)
    requires
        depth <= old(out)@.len(),
    ensures
        nested_rows_view(final(out)@) == nested_rows_view(old(out)@) + rows_of_list(
            tnodes_view(nodes@),
            prefix@,
            depth as nat,
            key_set(collapsed@),
        ),
    decreases tsizes(tnodes_view(nodes@)),
{
    let ghost ns = tnodes_view(nodes@);
    let ghost start = nested_rows_view(out@);
    let ghost cs = key_set(collapsed@);
    proof {
        lemma_tnodes_view(nodes@);
    }
    let mut i: usize = 0;
    while i < nodes.len()
        invariant
            ns == tnodes_view(nodes@),
            cs == key_set(collapsed@),
            ns.len() == nodes@.len(),
            forall|j: int| 0 <= j < nodes@.len() ==> #[trigger] ns[j] == tnode_view(nodes@[j]),
            i <= nodes@.len(),
            depth <= out@.len(),
            nested_rows_view(out@) == start + rows_of_list(ns.take(i as int), prefix@, depth as nat, cs),
        decreases nodes@.len() - i,
    {
        proof {
            assert(ns.take(i + 1).subrange(0, i as int) =~= ns.take(i as int));
            assert(ns.take(i + 1)[i as int] == ns[i as int]);
            lemma_tsizes_elem(ns, i as int);
            lemma_tnodes_view(nodes@[i as int].children@);
            assert(rows_of_list(ns.take(i + 1), prefix@, depth as nat, cs) == rows_of_list(
                ns.take(i as int),
                prefix@,
                depth as nat,
                cs,
            ) + rows_of_node(ns[i as int], prefix@, depth as nat, cs));
        }
        let ghost before = nested_rows_view(out@);
        let node = &nodes[i];
        match node.file_index {
            Some(fi) => {
                let row = NestedRow {
                    depth,
                    entry: RowEntry::File { name: string_of(&chars_of(node.name.as_str())), index: fi, added: node.added, removed: node.removed },
                };
                out.push(row);
                assert(nested_rows_view(out@) =~= before.push(row@));
            },
            None => {
                let name = chars_of(node.name.as_str());
                let key = if prefix.len() == 0 {
                    chars_of(node.name.as_str())
                } else {
                    concat_slash(prefix, &name)
                };
                let row = NestedRow { depth, entry: RowEntry::Folder { key: string_of(&key), name: string_of(&name) } };
                out.push(row);
                assert(depth < out.len());
                assert(nested_rows_view(out@) =~= before.push(row@));
                if !is_collapsed(collapsed, &key) {
                    flatten_tree(&node.children, depth + 1, &key, collapsed, out);
                }
            },
        }
        assert(nested_rows_view(out@) =~= start + rows_of_list(ns.take(i + 1), prefix@, depth as nat, cs));
        i = i + 1;
    }
    assert(ns.take(nodes@.len() as int) =~= ns);
}

/// The rows of the file panel for a diff's files and the collapsed folder keys.
pub fn nested_rows(files: &Vec<FileDiff>, collapsed: &Vec<String>) -> (rows: Vec<NestedRow>)
    ensures
        nested_rows_view(rows@) == rows_of_list(
            collapse_all(nested_tree(files_view(files@))),
            Seq::empty(),
            0,
            key_set(collapsed@),
        ),
{
    let roots = build_nested_tree(files);
    let mut out: Vec<NestedRow> = Vec::new();
    let top: Vec<char> = Vec::new();
    assert(top@ =~= Seq::<char>::empty());
    flatten_tree(&roots, 0, &top, collapsed, &mut out);
    assert(nested_rows_view(out@) =~= rows_of_list(
        collapse_all(nested_tree(files_view(files@))),
        Seq::empty(),
        0,
        key_set(collapsed@),
    ));
    out
}

broadcast use vstd::multiset::group_multiset_axioms;

/// The file indices of the leaves of a node.
pub open spec fn leaves(n: TNodeV) -> Multiset<usize>
    decreases tsize(n), 0nat,
{
    match n.file_index {
        Some(i) => Multiset::singleton(i),
        None => leaves_list(n.children),
    }
}

pub open spec fn leaves_list(ns: Seq<TNodeV>) -> Multiset<usize>
    decreases tsizes(ns), 1nat,
{
    if ns.len() == 0 {
        Multiset::empty()
    } else {
        proof {
            lemma_tsizes_elem(ns, ns.len() - 1);
        }
        leaves_list(ns.subrange(0, ns.len() - 1)).add(leaves(ns[ns.len() - 1]))
    }
}

/// The file indices of the file rows.
pub open spec fn row_files(rows: Seq<NestedRowV>) -> Multiset<usize>
    decreases rows.len(),
{
    if rows.len() == 0 {
        Multiset::empty()
    } else {
        row_files(rows.drop_last()).add(
            match rows.last().entry {
                RowEntryV::File { index, .. } => Multiset::singleton(index),
                RowEntryV::Folder { .. } => Multiset::empty(),
            },
        )
    }
}

proof fn lemma_row_files_concat(a: Seq<NestedRowV>, b: Seq<NestedRowV>)
    ensures
        row_files(a + b) =~= row_files(a).add(row_files(b)),
    decreases b.len(),
{
    if b.len() == 0 {
        assert(a + b =~= a);
    } else {
        lemma_row_files_concat(a, b.drop_last());
        assert((a + b).drop_last() =~= a + b.drop_last());
        assert((a + b).last() == b.last());
    }
}

proof fn lemma_leaves_push(ns: Seq<TNodeV>, x: TNodeV)
    ensures
        leaves_list(ns.push(x)) =~= leaves_list(ns).add(leaves(x)),
{
    assert(ns.push(x).subrange(0, ns.len() as int) =~= ns);
}

/// Replacing one node changes the leaves by that node's.
proof fn lemma_leaves_update(ns: Seq<TNodeV>, p: int, x: TNodeV)
    requires
        0 <= p < ns.len(),
    ensures
        leaves_list(ns.update(p, x)).add(leaves(ns[p])) =~= leaves_list(ns).add(leaves(x)),
    decreases ns.len(),
{
    let last = ns.len() - 1;
    let pre = ns.subrange(0, last);
    let up = ns.update(p, x);
    lemma_tsizes_elem(ns, last);
    lemma_tsizes_elem(up, last);
    assert(leaves_list(ns) == leaves_list(pre).add(leaves(ns[last])));
    if p == last {
        assert(up.subrange(0, last) =~= pre);
        assert(leaves_list(up) == leaves_list(pre).add(leaves(x)));
        assert forall|v: usize| #[trigger] leaves_list(up).add(leaves(ns[p])).count(v) == leaves_list(ns).add(leaves(x)).count(v) by {}
    } else {
        lemma_leaves_update(pre, p, x);
        assert(up.subrange(0, last) =~= pre.update(p, x));
        assert(up[last] == ns[last]);
        assert(leaves_list(up) == leaves_list(pre.update(p, x)).add(leaves(ns[last])));
        assert(pre[p] == ns[p]);
        assert forall|v: usize| #[trigger] leaves_list(up).add(leaves(ns[p])).count(v) == leaves_list(ns).add(leaves(x)).count(v) by {
            assert(leaves_list(pre.update(p, x)).add(leaves(pre[p])).count(v) == leaves_list(pre).add(leaves(x)).count(v));
        }
    }
}

/// Adding a file with at least one component adds its index to the leaves.
proof fn lemma_add_file_leaves(ns: Seq<TNodeV>, comps: Seq<Seq<char>>, idx: usize, added: u32, removed: u32)
    requires
        comps.len() > 0,
    ensures
        leaves_list(add_file(ns, comps, idx, added, removed)) =~= leaves_list(ns).insert(idx),
    decreases comps.len(),
{
    let r = add_file(ns, comps, idx, added, removed);
    if comps.len() == 1 {
        let leaf = TNodeV { name: comps[0], file_index: Some(idx), added, removed, children: Seq::empty() };
        assert(r == ns.push(leaf));
        lemma_leaves_push(ns, leaf);
        assert(leaves(leaf) == Multiset::singleton(idx));
    } else {
        lemma_find_dir(ns, comps[0]);
        match find_dir(ns, comps[0]) {
            Some(p) => {
                let child = ns[p];
                lemma_add_file_leaves(child.children, comps.drop_first(), idx, added, removed);
                let x = TNodeV { children: add_file(child.children, comps.drop_first(), idx, added, removed), ..child };
                assert(r == ns.update(p, x));
                lemma_leaves_update(ns, p, x);
                assert(leaves(x) == leaves_list(x.children));
                assert(leaves(child) == leaves_list(child.children));
                assert forall|v: usize| #[trigger] leaves_list(r).count(v) == leaves_list(ns).insert(idx).count(v) by {
                    assert(leaves_list(r).add(leaves(child)).count(v) == leaves_list(ns).add(leaves(x)).count(v));
                }
            },
            None => {
                lemma_add_file_leaves(Seq::empty(), comps.drop_first(), idx, added, removed);
                assert(leaves_list(Seq::<TNodeV>::empty()) =~= Multiset::empty());
                let x = TNodeV { children: add_file(Seq::empty(), comps.drop_first(), idx, added, removed), ..new_dir(comps[0]) };
                assert(r == ns.push(x));
                lemma_leaves_push(ns, x);
                assert(leaves(x) == leaves_list(x.children));
            },
        }
    }
}

/// Folding keeps the leaves.
proof fn lemma_fold_in_leaves(name: Seq<char>, children: Seq<TNodeV>)
    ensures
        leaves_list(fold_in(name, children).1) =~= leaves_list(children),
    decreases tsizes(children),
{
    if children.len() == 1 && children[0].file_index is None {
        lemma_tsizes_elem(children, 0);
        lemma_fold_in_leaves(name.push('/') + children[0].name, children[0].children);
        assert(children.subrange(0, 0) =~= Seq::<TNodeV>::empty());
        assert(leaves_list(children.subrange(0, 0)) =~= Multiset::empty());
        assert(leaves_list(children) == leaves_list(children.subrange(0, 0)).add(leaves(children[0])));
        assert(leaves(children[0]) == leaves_list(children[0].children));
        assert(fold_in(name, children) == fold_in(name.push('/') + children[0].name, children[0].children));
    }
}

proof fn lemma_collapse_leaves(n: TNodeV)
    ensures
        leaves(collapse_one(n)) =~= leaves(n),
    decreases tsize(n), 0nat,
{
    if n.file_index is None {
        lemma_collapse_all_leaves(n.children);
        lemma_fold_in_leaves(n.name, collapse_all(n.children));
    }
}

proof fn lemma_collapse_all_leaves(ns: Seq<TNodeV>)
    ensures
        leaves_list(collapse_all(ns)) =~= leaves_list(ns),
    decreases tsizes(ns), 1nat,
{
    if ns.len() > 0 {
        let pre = ns.subrange(0, ns.len() - 1);
        lemma_tsizes_elem(ns, ns.len() - 1);
        lemma_collapse_all_leaves(pre);
        lemma_collapse_leaves(ns[ns.len() - 1]);
        lemma_leaves_push(collapse_all(pre), collapse_one(ns[ns.len() - 1]));
    }
}

/// With nothing collapsed, the file rows are exactly the leaves.
proof fn lemma_rows_leaves(ns: Seq<TNodeV>, prefix: Seq<char>, depth: nat)
    ensures
        row_files(rows_of_list(ns, prefix, depth, Set::empty())) =~= leaves_list(ns),
    decreases tsizes(ns), 1nat,
{
    if ns.len() > 0 {
        let pre = ns.subrange(0, ns.len() - 1);
        let last = ns[ns.len() - 1];
        lemma_tsizes_elem(ns, ns.len() - 1);
        lemma_rows_leaves(pre, prefix, depth);
        lemma_row_files_concat(rows_of_list(pre, prefix, depth, Set::empty()), rows_of_node(last, prefix, depth, Set::empty()));
        lemma_node_rows_leaves(last, prefix, depth);
    }
}

proof fn lemma_node_rows_leaves(n: TNodeV, prefix: Seq<char>, depth: nat)
    ensures
        row_files(rows_of_node(n, prefix, depth, Set::empty())) =~= leaves(n),
    decreases tsize(n), 0nat,
{
    match n.file_index {
        Some(fi) => {
            let r = rows_of_node(n, prefix, depth, Set::empty());
            assert(r.drop_last() =~= Seq::<NestedRowV>::empty());
            assert(r.len() == 1);
            assert(r.last().entry == (RowEntryV::File { name: n.name, index: fi, added: n.added, removed: n.removed }));
            assert(row_files(r.drop_last()) =~= Multiset::empty());
            assert(row_files(r) == row_files(r.drop_last()).add(Multiset::singleton(fi)));
            assert(leaves(n) == Multiset::singleton(fi));
            assert(Multiset::<usize>::empty().add(Multiset::singleton(fi)) =~= Multiset::singleton(fi));
        },
        None => {
            let key = join_key(prefix, n.name);
            let row = NestedRowV { depth, entry: RowEntryV::Folder { key, name: n.name } };
            lemma_rows_leaves(n.children, key, depth + 1);
            let rest = rows_of_list(n.children, key, depth + 1, Set::empty());
            lemma_row_files_concat(seq![row], rest);
            assert(seq![row].drop_last() =~= Seq::<NestedRowV>::empty());
            assert(row_files(seq![row].drop_last()) =~= Multiset::empty());
            assert(row_files(seq![row]) =~= Multiset::empty());
            assert(!Set::<Seq<char>>::empty().contains(key));
            assert(rows_of_node(n, prefix, depth, Set::empty()) == seq![row] + rest);
            assert(leaves(n) == leaves_list(n.children));
        },
    }
}

/// The indices of the files whose paths have at least one component.
pub open spec fn named_files(files: Seq<FileV>) -> Multiset<usize>
    decreases files.len(),
{
    if files.len() == 0 {
        Multiset::empty()
    } else if components(files.last().path).len() > 0 {
        named_files(files.drop_last()).insert((files.len() - 1) as usize)
    } else {
        named_files(files.drop_last())
    }
}

proof fn lemma_tree_leaves(files: Seq<FileV>)
    ensures
        leaves_list(nested_tree(files)) =~= named_files(files),
    decreases files.len(),
{
    if files.len() > 0 {
        lemma_tree_leaves(files.drop_last());
        let f = files.last();
        if components(f.path).len() > 0 {
            lemma_add_file_leaves(nested_tree(files.drop_last()), components(f.path), (files.len() - 1) as usize, f.added, f.removed);
        }
    } else {
        assert(leaves_list(Seq::<TNodeV>::empty()) =~= Multiset::empty());
    }
}

/// The file indices and counts of the leaves of a node.
pub open spec fn leaf_counts(n: TNodeV) -> Multiset<(usize, u32, u32)>
    decreases tsize(n), 0nat,
{
    match n.file_index {
        Some(i) => Multiset::singleton((i, n.added, n.removed)),
        None => leaf_counts_list(n.children),
    }
}

pub open spec fn leaf_counts_list(ns: Seq<TNodeV>) -> Multiset<(usize, u32, u32)>
    decreases tsizes(ns), 1nat,
{
    if ns.len() == 0 {
        Multiset::empty()
    } else {
        proof {
            lemma_tsizes_elem(ns, ns.len() - 1);
        }
        leaf_counts_list(ns.subrange(0, ns.len() - 1)).add(leaf_counts(ns[ns.len() - 1]))
    }
}

/// The file indices and counts of the file rows.
pub open spec fn row_counts(rows: Seq<NestedRowV>) -> Multiset<(usize, u32, u32)>
    decreases rows.len(),
{
    if rows.len() == 0 {
        Multiset::empty()
    } else {
        row_counts(rows.drop_last()).add(
            match rows.last().entry {
                RowEntryV::File { index, added, removed, .. } => Multiset::singleton((index, added, removed)),
                RowEntryV::Folder { .. } => Multiset::empty(),
            },
        )
    }
}

proof fn lemma_row_counts_concat(a: Seq<NestedRowV>, b: Seq<NestedRowV>)
    ensures
        row_counts(a + b) =~= row_counts(a).add(row_counts(b)),
    decreases b.len(),
{
    if b.len() == 0 {
        assert(a + b =~= a);
    } else {
        lemma_row_counts_concat(a, b.drop_last());
        assert((a + b).drop_last() =~= a + b.drop_last());
        assert((a + b).last() == b.last());
    }
}

proof fn lemma_leaf_counts_push(ns: Seq<TNodeV>, x: TNodeV)
    ensures
        leaf_counts_list(ns.push(x)) =~= leaf_counts_list(ns).add(leaf_counts(x)),
{
    assert(ns.push(x).subrange(0, ns.len() as int) =~= ns);
}

/// Replacing one node changes the leaves by that node's.
proof fn lemma_leaf_counts_update(ns: Seq<TNodeV>, p: int, x: TNodeV)
    requires
        0 <= p < ns.len(),
    ensures
        leaf_counts_list(ns.update(p, x)).add(leaf_counts(ns[p])) =~= leaf_counts_list(ns).add(leaf_counts(x)),
    decreases ns.len(),
{
    let last = ns.len() - 1;
    let pre = ns.subrange(0, last);
    let up = ns.update(p, x);
    lemma_tsizes_elem(ns, last);
    lemma_tsizes_elem(up, last);
    assert(leaf_counts_list(ns) == leaf_counts_list(pre).add(leaf_counts(ns[last])));
    if p == last {
        assert(up.subrange(0, last) =~= pre);
        assert(leaf_counts_list(up) == leaf_counts_list(pre).add(leaf_counts(x)));
        assert forall|v: (usize, u32, u32)| #[trigger] leaf_counts_list(up).add(leaf_counts(ns[p])).count(v) == leaf_counts_list(ns).add(leaf_counts(x)).count(v) by {}
    } else {
        lemma_leaf_counts_update(pre, p, x);
        assert(up.subrange(0, last) =~= pre.update(p, x));
        assert(up[last] == ns[last]);
        assert(leaf_counts_list(up) == leaf_counts_list(pre.update(p, x)).add(leaf_counts(ns[last])));
        assert(pre[p] == ns[p]);
        assert forall|v: (usize, u32, u32)| #[trigger] leaf_counts_list(up).add(leaf_counts(ns[p])).count(v) == leaf_counts_list(ns).add(leaf_counts(x)).count(v) by {
            assert(leaf_counts_list(pre.update(p, x)).add(leaf_counts(pre[p])).count(v) == leaf_counts_list(pre).add(leaf_counts(x)).count(v));
        }
    }
}

/// Adding a file with at least one component adds its index and counts.
proof fn lemma_add_file_counts(ns: Seq<TNodeV>, comps: Seq<Seq<char>>, idx: usize, added: u32, removed: u32)
    requires
        comps.len() > 0,
    ensures
        leaf_counts_list(add_file(ns, comps, idx, added, removed)) =~= leaf_counts_list(ns).insert((idx, added, removed)),
    decreases comps.len(),
{
    let r = add_file(ns, comps, idx, added, removed);
    if comps.len() == 1 {
        let leaf = TNodeV { name: comps[0], file_index: Some(idx), added, removed, children: Seq::empty() };
        assert(r == ns.push(leaf));
        lemma_leaf_counts_push(ns, leaf);
        assert(leaf_counts(leaf) == Multiset::singleton((idx, added, removed)));
    } else {
        lemma_find_dir(ns, comps[0]);
        match find_dir(ns, comps[0]) {
            Some(p) => {
                let child = ns[p];
                lemma_add_file_counts(child.children, comps.drop_first(), idx, added, removed);
                let x = TNodeV { children: add_file(child.children, comps.drop_first(), idx, added, removed), ..child };
                assert(r == ns.update(p, x));
                lemma_leaf_counts_update(ns, p, x);
                assert(leaf_counts(x) == leaf_counts_list(x.children));
                assert(leaf_counts(child) == leaf_counts_list(child.children));
                assert forall|v: (usize, u32, u32)| #[trigger] leaf_counts_list(r).count(v) == leaf_counts_list(ns).insert((idx, added, removed)).count(v) by {
                    assert(leaf_counts_list(r).add(leaf_counts(child)).count(v) == leaf_counts_list(ns).add(leaf_counts(x)).count(v));
                }
            },
            None => {
                lemma_add_file_counts(Seq::empty(), comps.drop_first(), idx, added, removed);
                assert(leaf_counts_list(Seq::<TNodeV>::empty()) =~= Multiset::empty());
                let x = TNodeV { children: add_file(Seq::empty(), comps.drop_first(), idx, added, removed), ..new_dir(comps[0]) };
                assert(r == ns.push(x));
                lemma_leaf_counts_push(ns, x);
                assert(leaf_counts(x) == leaf_counts_list(x.children));
            },
        }
    }
}

/// Folding keeps the leaves.
proof fn lemma_fold_in_counts(name: Seq<char>, children: Seq<TNodeV>)
    ensures
        leaf_counts_list(fold_in(name, children).1) =~= leaf_counts_list(children),
    decreases tsizes(children),
{
    if children.len() == 1 && children[0].file_index is None {
        lemma_tsizes_elem(children, 0);
        lemma_fold_in_counts(name.push('/') + children[0].name, children[0].children);
        assert(children.subrange(0, 0) =~= Seq::<TNodeV>::empty());
        assert(leaf_counts_list(children.subrange(0, 0)) =~= Multiset::empty());
        assert(leaf_counts_list(children) == leaf_counts_list(children.subrange(0, 0)).add(leaf_counts(children[0])));
        assert(leaf_counts(children[0]) == leaf_counts_list(children[0].children));
        assert(fold_in(name, children) == fold_in(name.push('/') + children[0].name, children[0].children));
    }
}

proof fn lemma_collapse_counts(n: TNodeV)
    ensures
        leaf_counts(collapse_one(n)) =~= leaf_counts(n),
    decreases tsize(n), 0nat,
{
    if n.file_index is None {
        lemma_collapse_all_counts(n.children);
        lemma_fold_in_counts(n.name, collapse_all(n.children));
    }
}

proof fn lemma_collapse_all_counts(ns: Seq<TNodeV>)
    ensures
        leaf_counts_list(collapse_all(ns)) =~= leaf_counts_list(ns),
    decreases tsizes(ns), 1nat,
{
    if ns.len() > 0 {
        let pre = ns.subrange(0, ns.len() - 1);
        lemma_tsizes_elem(ns, ns.len() - 1);
        lemma_collapse_all_counts(pre);
        lemma_collapse_counts(ns[ns.len() - 1]);
        lemma_leaf_counts_push(collapse_all(pre), collapse_one(ns[ns.len() - 1]));
    }
}

/// With nothing collapsed, the file rows are exactly the leaves.
proof fn lemma_rows_counts(ns: Seq<TNodeV>, prefix: Seq<char>, depth: nat)
    ensures
        row_counts(rows_of_list(ns, prefix, depth, Set::empty())) =~= leaf_counts_list(ns),
    decreases tsizes(ns), 1nat,
{
    if ns.len() > 0 {
        let pre = ns.subrange(0, ns.len() - 1);
        let last = ns[ns.len() - 1];
        lemma_tsizes_elem(ns, ns.len() - 1);
        lemma_rows_counts(pre, prefix, depth);
        lemma_row_counts_concat(rows_of_list(pre, prefix, depth, Set::empty()), rows_of_node(last, prefix, depth, Set::empty()));
        lemma_node_rows_counts(last, prefix, depth);
    }
}

proof fn lemma_node_rows_counts(n: TNodeV, prefix: Seq<char>, depth: nat)
    ensures
        row_counts(rows_of_node(n, prefix, depth, Set::empty())) =~= leaf_counts(n),
    decreases tsize(n), 0nat,
{
    match n.file_index {
        Some(fi) => {
            let r = rows_of_node(n, prefix, depth, Set::empty());
            assert(r.drop_last() =~= Seq::<NestedRowV>::empty());
            assert(r.len() == 1);
            assert(r.last().entry == (RowEntryV::File { name: n.name, index: fi, added: n.added, removed: n.removed }));
            assert(row_counts(r.drop_last()) =~= Multiset::empty());
            assert(row_counts(r) == row_counts(r.drop_last()).add(Multiset::singleton((fi, n.added, n.removed))));
            assert(leaf_counts(n) == Multiset::singleton((fi, n.added, n.removed)));
            assert(Multiset::<(usize, u32, u32)>::empty().add(Multiset::singleton((fi, n.added, n.removed))) =~= Multiset::singleton((fi, n.added, n.removed)));
        },
        None => {
            let key = join_key(prefix, n.name);
            let row = NestedRowV { depth, entry: RowEntryV::Folder { key, name: n.name } };
            lemma_rows_counts(n.children, key, depth + 1);
            let rest = rows_of_list(n.children, key, depth + 1, Set::empty());
            lemma_row_counts_concat(seq![row], rest);
            assert(seq![row].drop_last() =~= Seq::<NestedRowV>::empty());
            assert(row_counts(seq![row].drop_last()) =~= Multiset::empty());
            assert(row_counts(seq![row]) =~= Multiset::empty());
            assert(!Set::<Seq<char>>::empty().contains(key));
            assert(rows_of_node(n, prefix, depth, Set::empty()) == seq![row] + rest);
            assert(leaf_counts(n) == leaf_counts_list(n.children));
        },
    }
}

proof fn lemma_tree_counts(files: Seq<FileV>)
    ensures
        leaf_counts_list(nested_tree(files)) =~= named_counts(files),
    decreases files.len(),
{
    if files.len() > 0 {
        lemma_tree_counts(files.drop_last());
        let f = files.last();
        if components(f.path).len() > 0 {
            lemma_add_file_counts(nested_tree(files.drop_last()), components(f.path), (files.len() - 1) as usize, f.added, f.removed);
        }
    } else {
        assert(leaf_counts_list(Seq::<TNodeV>::empty()) =~= Multiset::empty());
    }
}

/// With no folder collapsed, the file rows show each file whose path names
/// something once, with that file's added and removed counts, and no other
/// file: a row for file `i` carries `files[i].added` and `files[i].removed`.
pub proof fn law_file_rows_carry_counts(files: Seq<FileV>)
    ensures
        row_counts(rows_of_list(collapse_all(nested_tree(files)), Seq::empty(), 0, Set::empty())) =~= named_counts(
            files,
        ),
{
    lemma_tree_counts(files);
    lemma_collapse_all_counts(nested_tree(files));
    lemma_rows_counts(collapse_all(nested_tree(files)), Seq::empty(), 0);
}

/// With no folder collapsed, every file whose path names something appears
/// as exactly one file row, and no other row names a file.
pub proof fn law_every_file_has_one_row(files: Seq<FileV>)
    ensures
        row_files(rows_of_list(collapse_all(nested_tree(files)), Seq::empty(), 0, Set::empty())) =~= named_files(files),
{
    lemma_tree_leaves(files);
    lemma_collapse_all_leaves(nested_tree(files));
    lemma_rows_leaves(collapse_all(nested_tree(files)), Seq::empty(), 0);
}

} // verus!
