//! The file tree of a diff as a list view lays it out: each file's path is
//! cut at every `/` (empty pieces kept), its folders are grouped by name in
//! name order and its files stay in diff order. Each folder then shows as one
//! node whose label folds a chain of single subfolders (`a/b/c`), with its
//! subfolders before its files; a file node carries its index, its counts and
//! the icon of its path.

use vstd::prelude::*;
use vstd::multiset::Multiset;
use crate::keyed_tree::concat_slash;
use crate::model::{files_view, FileDiff, FileV};
use crate::paths::{ext_or_empty, file_icon, icon_for, lemma_split_slash_len, split_slash};
use crate::sorted_tree::{
    chars_view, dsize, empty_gnode, gdirs_view, gfiles_view, ginsert, ginsert_exec, gnode_view,
    gsize, lemma_dsize_elem, lemma_gdirs_view, lemma_lower_dir, lower_dir, GDirV, GNode, GNodeV,
    dir_leaves, file_idxs, gleaves, gsorted, gsorted_each, lemma_ginsert_leaves, lemma_ginsert_sorted, GFileV,
};
use crate::text::{chars_of, owned, string_of};

verus! {

/// `path.split('/')`, each piece as its characters.
pub fn split_pieces(path: &str) -> (out: Vec<Vec<char>>)
    ensures
        chars_view(out@) == split_slash(path@),
{
    let cs = chars_of(path);
    let mut out: Vec<Vec<char>> = Vec::new();
    let mut cur: Vec<char> = Vec::new();
    assert(cs@.take(0) =~= Seq::<char>::empty());
    assert(chars_view(out@).push(cur@) =~= seq![Seq::<char>::empty()]);
    for i in 0..cs.len()
        invariant
            cs@ == path@,
            chars_view(out@).push(cur@) == split_slash(cs@.take(i as int)),
    {
        proof {
            assert(cs@.take(i + 1).drop_last() =~= cs@.take(i as int));
            assert(cs@.take(i + 1).last() == cs@[i as int]);
        }
        let ghost before = chars_view(out@);
        let ghost sp0 = split_slash(cs@.take(i as int));
        let c = cs[i];
        if c == '/' {
            let ghost last = cur@;
            out.push(cur);
            cur = Vec::new();
            proof {
                assert(chars_view(out@) =~= before.push(last));
                assert(chars_view(out@).push(cur@) =~= sp0.push(Seq::<char>::empty()));
            }
        } else {
            let ghost last = cur@;
            cur.push(c);
            proof {
                assert(sp0 =~= before.push(last));
                assert(before.push(cur@) =~= sp0.update(sp0.len() - 1, sp0.last().push(c)));
            }
        }
    }
    assert(cs@.take(cs@.len() as int) =~= cs@);
    let ghost before = chars_view(out@);
    let ghost last = cur@;
    out.push(cur);
    assert(chars_view(out@) =~= before.push(last));
    out
}

/// The tree of a diff's files, each added in diff order under the pieces of
/// its path.
pub open spec fn split_tree(files: Seq<FileV>) -> GNodeV
    decreases files.len(),
{
    if files.len() == 0 {
        empty_gnode()
    } else {
        let f = files.last();
        ginsert(split_tree(files.drop_last()), split_slash(f.path), (files.len() - 1) as usize, f.added, f.removed)
    }
}

/// Groups a diff's files by the pieces of their paths.
pub fn build_tree(files: &Vec<FileDiff>) -> (root: GNode)
    ensures
        gnode_view(root) == split_tree(files_view(files@)),
{
    let ghost fs = files_view(files@);
    let mut root = GNode { dirs: Vec::new(), files: Vec::new() };
    assert(gdirs_view(Seq::empty()) =~= Seq::<GDirV>::empty());
    assert(gfiles_view(Seq::empty()) =~= Seq::<GFileV>::empty());
    let mut i: usize = 0;
    while i < files.len()
        invariant
            fs == files_view(files@),
            i <= files@.len(),
            gnode_view(root) == split_tree(fs.take(i as int)),
        decreases files@.len() - i,
    {
        proof {
            assert(fs.take(i + 1).drop_last() =~= fs.take(i as int));
            assert(fs.take(i + 1).last() == files@[i as int]@);
        }
        let f = &files[i];
        let parts = split_pieces(f.path.as_str());
        assert(chars_view(parts@).skip(0) =~= split_slash(f.path@));
        ginsert_exec(&mut root, &parts, 0, i, f.added, f.removed);
        i = i + 1;
    }
    assert(fs.take(files@.len() as int) =~= fs);
    root
}

/// Every file of the tree has an index below `k`.
pub open spec fn idx_below(n: GNodeV, k: nat) -> bool
    decreases gsize(n), 0nat,
{
    (forall|i: int| 0 <= i < n.files.len() ==> (#[trigger] n.files[i]).idx < k) && dirs_below(n.dirs, k)
}

pub open spec fn dirs_below(ds: Seq<GDirV>, k: nat) -> bool
    decreases dsize(ds), 1nat,
{
    if ds.len() == 0 {
        true
    } else {
        proof {
            lemma_dsize_elem(ds, ds.len() - 1);
        }
        dirs_below(ds.subrange(0, ds.len() - 1), k) && idx_below(ds[ds.len() - 1].node, k)
    }
}

pub proof fn lemma_dirs_below(ds: Seq<GDirV>, k: nat)
    ensures
        dirs_below(ds, k) <==> forall|i: int| 0 <= i < ds.len() ==> idx_below(#[trigger] ds[i].node, k),
    decreases ds.len(),
{
    if ds.len() > 0 {
        let pre = ds.subrange(0, ds.len() - 1);
        lemma_dirs_below(pre, k);
        if dirs_below(ds, k) {
            assert forall|i: int| 0 <= i < ds.len() implies idx_below(#[trigger] ds[i].node, k) by {
                if i < ds.len() - 1 {
                    assert(pre[i] == ds[i]);
                }
            }
        }
        if forall|i: int| 0 <= i < ds.len() ==> idx_below(#[trigger] ds[i].node, k) {
            assert forall|i: int| 0 <= i < pre.len() implies idx_below(#[trigger] pre[i].node, k) by {
                assert(pre[i] == ds[i]);
            }
        }
    }
}

pub proof fn lemma_ginsert_below(n: GNodeV, parts: Seq<Seq<char>>, idx: usize, added: u32, removed: u32, k: nat)
    requires
        idx_below(n, k),
        idx < k,
    ensures
        idx_below(ginsert(n, parts, idx, added, removed), k),
    decreases parts.len(),
{
    lemma_dirs_below(n.dirs, k);
    let r = ginsert(n, parts, idx, added, removed);
    if parts.len() == 1 {
        assert forall|i: int| 0 <= i < r.files.len() implies (#[trigger] r.files[i]).idx < k by {
            if i < n.files.len() {
                assert(r.files[i] == n.files[i]);
            }
        }
    } else if parts.len() >= 2 {
        let c = parts[0];
        let p = lower_dir(n.dirs, c) as int;
        let found = p < n.dirs.len() && n.dirs[p].name == c;
        let child = if found { n.dirs[p].node } else { empty_gnode() };
        assert(idx_below(empty_gnode(), k)) by {
            assert(dirs_below(Seq::<GDirV>::empty(), k));
        }
        lemma_ginsert_below(child, parts.drop_first(), idx, added, removed, k);
        lemma_lower_dir(n.dirs, c);
        lemma_dirs_below(r.dirs, k);
        assert forall|i: int| 0 <= i < r.dirs.len() implies idx_below(#[trigger] r.dirs[i].node, k) by {
            if found {
                if i != p {
                    assert(r.dirs[i] == n.dirs[i]);
                }
            } else if i < p {
                assert(r.dirs[i] == n.dirs[i]);
            } else if i > p {
                assert(r.dirs[i] == n.dirs[i - 1]);
            }
        }
    }
}

/// Every index of the tree of `files` is below `k`, for `k` at least as many
/// as there are files.
pub proof fn lemma_split_tree_below(files: Seq<FileV>, k: nat)
    requires
        files.len() <= k,
    ensures
        idx_below(split_tree(files), k),
    decreases files.len(),
{
    if files.len() == 0 {
        assert(dirs_below(Seq::<GDirV>::empty(), k));
    } else {
        lemma_split_tree_below(files.drop_last(), k);
        let f = files.last();
        lemma_ginsert_below(split_tree(files.drop_last()), split_slash(f.path), (files.len() - 1) as usize, f.added, f.removed, k);
    }
}

/// A folder's label and the folder its contents come from: while it holds no
/// files and exactly one subfolder, that subfolder's name joins the label.
pub open spec fn fold_label(label: Seq<char>, n: GNodeV) -> (Seq<char>, GNodeV)
    decreases gsize(n),
{
    if n.files.len() == 0 && n.dirs.len() == 1 {
        proof {
            lemma_dsize_elem(n.dirs, 0);
        }
        fold_label(label.push('/') + n.dirs[0].name, n.dirs[0].node)
    } else {
        (label, n)
    }
}

pub proof fn lemma_fold_label(label: Seq<char>, n: GNodeV, k: nat)
    ensures
        gsize(fold_label(label, n).1) <= gsize(n),
        idx_below(n, k) ==> idx_below(fold_label(label, n).1, k),
    decreases gsize(n),
{
    if n.files.len() == 0 && n.dirs.len() == 1 {
        lemma_dsize_elem(n.dirs, 0);
        lemma_dirs_below(n.dirs, k);
        lemma_fold_label(label.push('/') + n.dirs[0].name, n.dirs[0].node, k);
    }
}

/// A node of the laid-out tree: a folder with its label and children, or a
/// file with its name, its index in the diff, its counts and its icon.
pub enum FileNode {
    Dir { name: String, children: Vec<FileNode> },
    File { name: String, index: usize, added: u32, removed: u32, icon: String },
}

pub enum FileNodeV {
    Dir { name: Seq<char>, children: Seq<FileNodeV> },
    File { name: Seq<char>, index: usize, added: u32, removed: u32, icon: Seq<char> },
}

pub open spec fn file_node_view(n: FileNode) -> FileNodeV
    decreases n,
{
    match n {
        FileNode::Dir { name, children } => FileNodeV::Dir { name: name@, children: file_nodes_view(children@) },
        FileNode::File { name, index, added, removed, icon } => FileNodeV::File {
            name: name@,
            index,
            added,
            removed,
            icon: icon@,
        },
    }
}

pub open spec fn file_nodes_view(s: Seq<FileNode>) -> Seq<FileNodeV>
    decreases s,
{
    if s.len() == 0 {
        Seq::empty()
    } else {
        file_nodes_view(s.subrange(0, s.len() - 1)).push(file_node_view(s[s.len() - 1]))
    }
}

pub proof fn lemma_file_nodes_view(s: Seq<FileNode>)
    ensures
        file_nodes_view(s).len() == s.len(),
        forall|i: int| 0 <= i < s.len() ==> #[trigger] file_nodes_view(s)[i] == file_node_view(s[i]),
    decreases s.len(),
{
    if s.len() > 0 {
        lemma_file_nodes_view(s.subrange(0, s.len() - 1));
        assert forall|i: int| 0 <= i < s.len() implies #[trigger] file_nodes_view(s)[i] == file_node_view(s[i]) by {
            if i < s.len() - 1 {
                assert(s.subrange(0, s.len() - 1)[i] == s[i]);
            }
        }
    }
}

/// The node of the file at `idx`: its counts and the icon of its whole path
/// come from the diff.
pub open spec fn leaf_node(name: Seq<char>, idx: usize, files: Seq<FileV>) -> FileNodeV {
    FileNodeV::File {
        name,
        index: idx,
        added: files[idx as int].added,
        removed: files[idx as int].removed,
        icon: icon_for(ext_or_empty(files[idx as int].path)),
    }
}

/// The nodes of a folder's contents: its subfolders in order, each under its
/// folded label, then its files in order.
pub open spec fn nodes_of(n: GNodeV, files: Seq<FileV>) -> Seq<FileNodeV>
    decreases gsize(n), 0nat,
{
    dir_nodes(n.dirs, files) + n.files.map_values(|f: GFileV| leaf_node(f.name, f.idx, files))
}

pub open spec fn dir_nodes(ds: Seq<GDirV>, files: Seq<FileV>) -> Seq<FileNodeV>
    decreases dsize(ds), 1nat,
{
    if ds.len() == 0 {
        Seq::empty()
    } else {
        let d = ds[ds.len() - 1];
        proof {
            lemma_dsize_elem(ds, ds.len() - 1);
            lemma_fold_label(d.name, d.node, 0);
        }
        let (label, cur) = fold_label(d.name, d.node);
        dir_nodes(ds.subrange(0, ds.len() - 1), files).push(FileNodeV::Dir { name: label, children: nodes_of(cur, files) })
    }
}

/// Lays out a folder's contents; every file index of the folder is an index
/// into `files`.
pub fn node_to_objects(build: &GNode, files: &Vec<FileDiff>) -> (out: Vec<FileNode>)
    requires
        idx_below(gnode_view(*build), files@.len()),
    ensures
        file_nodes_view(out@) == nodes_of(gnode_view(*build), files_view(files@)),
    decreases gsize(gnode_view(*build)),
{
    let ghost nv = gnode_view(*build);
    let ghost fs = files_view(files@);
    let ghost k = files@.len();
    proof {
        lemma_gdirs_view(build.dirs@);
        lemma_dirs_below(nv.dirs, k);
    }
    let mut out: Vec<FileNode> = Vec::new();
    let mut i: usize = 0;
    while i < build.dirs.len()
        invariant
            nv == gnode_view(*build),
            fs == files_view(files@),
            k == files@.len(),
            nv.dirs.len() == build.dirs@.len(),
            forall|j: int| 0 <= j < build.dirs@.len() ==> #[trigger] nv.dirs[j] == (GDirV { name: build.dirs@[j].name@, node: gnode_view(build.dirs@[j].node) }),
            forall|j: int| 0 <= j < nv.dirs.len() ==> idx_below(#[trigger] nv.dirs[j].node, k),
            i <= build.dirs@.len(),
            file_nodes_view(out@) == dir_nodes(nv.dirs.take(i as int), fs),
        decreases build.dirs@.len() - i,
    {
        let d = &build.dirs[i];
        let ghost dv = nv.dirs[i as int];
        proof {
            assert(nv.dirs.take(i + 1).subrange(0, i as int) =~= nv.dirs.take(i as int));
            assert(nv.dirs.take(i + 1)[i as int] == dv);
            lemma_dsize_elem(nv.dirs, i as int);
            lemma_fold_label(dv.name, dv.node, k);
        }
        let mut label = chars_of(d.name.as_str());
        let mut cur: &GNode = &d.node;
        while cur.files.len() == 0 && cur.dirs.len() == 1
            invariant
                fold_label(label@, gnode_view(*cur)) == fold_label(dv.name, dv.node),
                gsize(gnode_view(*cur)) <= gsize(dv.node),
                idx_below(gnode_view(*cur), k),
            decreases gsize(gnode_view(*cur)),
        {
            proof {
                lemma_gdirs_view(cur.dirs@);
                lemma_dsize_elem(gnode_view(*cur).dirs, 0);
                lemma_dirs_below(gnode_view(*cur).dirs, k);
            }
            let sub = &cur.dirs[0];
            let sname = chars_of(sub.name.as_str());
            label = concat_slash(&label, &sname);
            cur = &sub.node;
        }
        proof {
            lemma_gdirs_view(cur.dirs@);
            assert(gfiles_view(cur.files@).len() == cur.files@.len());
            assert(fold_label(label@, gnode_view(*cur)) == (label@, gnode_view(*cur)));
        }
        let children = node_to_objects(cur, files);
        let node = FileNode::Dir { name: string_of(&label), children };
        let ghost before = out@;
        out.push(node);
        proof {
            lemma_file_nodes_view(out@);
            lemma_file_nodes_view(before);
            assert(file_nodes_view(out@) =~= file_nodes_view(before).push(file_node_view(node)));
        }
        i = i + 1;
    }
    assert(nv.dirs.take(build.dirs@.len() as int) =~= nv.dirs);
    let ghost head = file_nodes_view(out@);
    let ghost leaves = nv.files.map_values(|f: GFileV| leaf_node(f.name, f.idx, fs));
    let mut j: usize = 0;
    while j < build.files.len()
        invariant
            nv == gnode_view(*build),
            fs == files_view(files@),
            k == files@.len(),
            idx_below(nv, k),
            leaves == nv.files.map_values(|f: GFileV| leaf_node(f.name, f.idx, fs)),
            j <= build.files@.len(),
            file_nodes_view(out@) == head + leaves.take(j as int),
        decreases build.files@.len() - j,
    {
        let f = &build.files[j];
        assert(nv.files[j as int] == f@);
        let src = &files[f.idx];
        let node = FileNode::File {
            name: f.name.clone(),
            index: f.idx,
            added: src.added,
            removed: src.removed,
            icon: owned(file_icon(src.path.as_str())),
        };
        let ghost before = out@;
        out.push(node);
        proof {
            lemma_file_nodes_view(out@);
            lemma_file_nodes_view(before);
            assert(file_nodes_view(out@) =~= file_nodes_view(before).push(file_node_view(node)));
            assert(fs[f.idx as int] == files@[f.idx as int]@);
            assert(leaves.take(j + 1) =~= leaves.take(j as int).push(leaves[j as int]));
        }
        j = j + 1;
    }
    assert(leaves.take(build.files@.len() as int) =~= leaves);
    out
}

/// The laid-out tree of a diff's files.
pub open spec fn file_tree_of(files: Seq<FileV>) -> Seq<FileNodeV> {
    nodes_of(split_tree(files), files)
}

/// Lays out the file tree of a diff: at every level the folders by name,
/// chains of single subfolders folded into one label, then the files in diff
/// order.
pub fn file_tree(files: &Vec<FileDiff>) -> (out: Vec<FileNode>)
    ensures
        file_nodes_view(out@) == file_tree_of(files_view(files@)),
{
    let root = build_tree(files);
    proof {
        lemma_split_tree_below(files_view(files@), files@.len() as nat);
    }
    node_to_objects(&root, files)
}

/// The file indices of the leaves of a laid-out node.
pub open spec fn node_files(n: FileNodeV) -> Multiset<usize>
    decreases n,
{
    match n {
        FileNodeV::Dir { children, .. } => list_files(children),
        FileNodeV::File { index, .. } => Multiset::singleton(index),
    }
}

pub open spec fn list_files(s: Seq<FileNodeV>) -> Multiset<usize>
    decreases s,
{
    if s.len() == 0 {
        Multiset::empty()
    } else {
        list_files(s.subrange(0, s.len() - 1)).add(node_files(s[s.len() - 1]))
    }
}

proof fn lemma_list_files_concat(a: Seq<FileNodeV>, b: Seq<FileNodeV>)
    ensures
        list_files(a + b) =~= list_files(a).add(list_files(b)),
    decreases b.len(),
{
    broadcast use vstd::multiset::group_multiset_axioms;
    if b.len() == 0 {
        assert(a + b =~= a);
    } else {
        let bp = b.subrange(0, b.len() - 1);
        lemma_list_files_concat(a, bp);
        assert((a + b).subrange(0, (a + b).len() - 1) =~= a + bp);
        assert((a + b)[(a + b).len() - 1] == b[b.len() - 1]);
    }
}

proof fn lemma_leaf_nodes_files(fs: Seq<GFileV>, files: Seq<FileV>)
    ensures
        list_files(fs.map_values(|f: GFileV| leaf_node(f.name, f.idx, files))) =~= file_idxs(fs),
    decreases fs.len(),
{
    broadcast use vstd::multiset::group_multiset_axioms;
    let m = fs.map_values(|f: GFileV| leaf_node(f.name, f.idx, files));
    if fs.len() > 0 {
        lemma_leaf_nodes_files(fs.drop_last(), files);
        assert(m.subrange(0, m.len() - 1) =~= fs.drop_last().map_values(|f: GFileV| leaf_node(f.name, f.idx, files)));
        assert(node_files(m[m.len() - 1]) == Multiset::singleton(fs.last().idx));
    } else {
        assert(m =~= Seq::<FileNodeV>::empty());
    }
}

proof fn lemma_fold_label_leaves(label: Seq<char>, n: GNodeV)
    ensures
        gleaves(fold_label(label, n).1) =~= gleaves(n),
    decreases gsize(n),
{
    broadcast use vstd::multiset::group_multiset_axioms;
    if n.files.len() == 0 && n.dirs.len() == 1 {
        lemma_dsize_elem(n.dirs, 0);
        lemma_fold_label_leaves(label.push('/') + n.dirs[0].name, n.dirs[0].node);
        assert(n.dirs.subrange(0, 0) =~= Seq::<GDirV>::empty());
        assert(dir_leaves(n.dirs.subrange(0, 0)) =~= Multiset::empty());
        assert(file_idxs(n.files) =~= Multiset::empty());
    }
}

proof fn lemma_nodes_files(n: GNodeV, files: Seq<FileV>)
    ensures
        list_files(nodes_of(n, files)) =~= gleaves(n),
    decreases gsize(n), 0nat,
{
    lemma_dir_nodes_files(n.dirs, files);
    lemma_list_files_concat(
        dir_nodes(n.dirs, files),
        n.files.map_values(|f: GFileV| leaf_node(f.name, f.idx, files)),
    );
    lemma_leaf_nodes_files(n.files, files);
}

proof fn lemma_dir_nodes_files(ds: Seq<GDirV>, files: Seq<FileV>)
    ensures
        list_files(dir_nodes(ds, files)) =~= dir_leaves(ds),
    decreases dsize(ds), 1nat,
{
    broadcast use vstd::multiset::group_multiset_axioms;
    if ds.len() > 0 {
        let d = ds[ds.len() - 1];
        let pre = ds.subrange(0, ds.len() - 1);
        lemma_dsize_elem(ds, ds.len() - 1);
        lemma_fold_label(d.name, d.node, 0);
        let (label, cur) = fold_label(d.name, d.node);
        lemma_dir_nodes_files(pre, files);
        lemma_nodes_files(cur, files);
        lemma_fold_label_leaves(d.name, d.node);
        let r = dir_nodes(ds, files);
        let node = FileNodeV::Dir { name: label, children: nodes_of(cur, files) };
        assert(r == dir_nodes(pre, files).push(node));
        assert(r.subrange(0, r.len() - 1) =~= dir_nodes(pre, files));
        assert(node_files(node) == list_files(nodes_of(cur, files)));
    }
}

/// The indices of all files of a diff, each once.
pub open spec fn all_indices(files: Seq<FileV>) -> Multiset<usize>
    decreases files.len(),
{
    if files.len() == 0 {
        Multiset::empty()
    } else {
        all_indices(files.drop_last()).insert((files.len() - 1) as usize)
    }
}

proof fn lemma_split_tree_leaves(files: Seq<FileV>)
    ensures
        gleaves(split_tree(files)) =~= all_indices(files),
    decreases files.len(),
{
    broadcast use vstd::multiset::group_multiset_axioms;
    if files.len() == 0 {
        assert(file_idxs(Seq::<GFileV>::empty()) =~= Multiset::empty());
        assert(dir_leaves(Seq::<GDirV>::empty()) =~= Multiset::empty());
    } else {
        lemma_split_tree_leaves(files.drop_last());
        let f = files.last();
        lemma_split_slash_len(f.path);
        lemma_ginsert_leaves(split_tree(files.drop_last()), split_slash(f.path), (files.len() - 1) as usize, f.added, f.removed);
    }
}

/// Every file of the diff is exactly one leaf of the laid-out tree, and no
/// leaf names another file.
pub proof fn law_every_file_is_one_leaf(files: Seq<FileV>)
    ensures
        list_files(file_tree_of(files)) =~= all_indices(files),
{
    lemma_split_tree_leaves(files);
    lemma_nodes_files(split_tree(files), files);
}

/// At every level of the grouped tree the folders are in name order, with no
/// name twice.
pub proof fn law_split_tree_sorted(files: Seq<FileV>)
    ensures
        gsorted(split_tree(files)),
    decreases files.len(),
{
    if files.len() == 0 {
        assert(gsorted_each(Seq::<GDirV>::empty()));
    } else {
        law_split_tree_sorted(files.drop_last());
        let f = files.last();
        lemma_ginsert_sorted(split_tree(files.drop_last()), split_slash(f.path), (files.len() - 1) as usize, f.added, f.removed);
    }
}

/// A laid-out node whose file leaves, at every depth, show the counts and
/// the icon of the diff file they name.
pub open spec fn leaf_shows_file(n: FileNodeV, files: Seq<FileV>) -> bool
    decreases n,
{
    match n {
        FileNodeV::Dir { children, .. } => leaves_show_files(children, files),
        FileNodeV::File { index, added, removed, icon, .. } => index < files.len() && added == files[index as int].added
            && removed == files[index as int].removed && icon == icon_for(ext_or_empty(files[index as int].path)),
    }
}

pub open spec fn leaves_show_files(s: Seq<FileNodeV>, files: Seq<FileV>) -> bool
    decreases s,
{
    if s.len() == 0 {
        true
    } else {
        leaves_show_files(s.subrange(0, s.len() - 1), files) && leaf_shows_file(s[s.len() - 1], files)
    }
}

proof fn lemma_leaves_show_files(s: Seq<FileNodeV>, files: Seq<FileV>)
    ensures
        leaves_show_files(s, files) <==> forall|i: int| 0 <= i < s.len() ==> #[trigger] leaf_shows_file(s[i], files),
    decreases s.len(),
{
    if s.len() > 0 {
        let pre = s.subrange(0, s.len() - 1);
        lemma_leaves_show_files(pre, files);
        if leaves_show_files(s, files) {
            assert forall|i: int| 0 <= i < s.len() implies #[trigger] leaf_shows_file(s[i], files) by {
                if i < s.len() - 1 {
                    assert(leaf_shows_file(pre[i], files));
                    assert(pre[i] == s[i]);
                }
            }
        }
        if forall|i: int| 0 <= i < s.len() ==> #[trigger] leaf_shows_file(s[i], files) {
            assert forall|i: int| 0 <= i < pre.len() implies #[trigger] leaf_shows_file(pre[i], files) by {
                assert(leaf_shows_file(s[i], files));
                assert(pre[i] == s[i]);
            }
            assert(leaf_shows_file(s[s.len() - 1], files));
        }
    }
}

proof fn lemma_nodes_show_files(n: GNodeV, files: Seq<FileV>)
    requires
        idx_below(n, files.len()),
    ensures
        leaves_show_files(nodes_of(n, files), files),
    decreases gsize(n), 0nat,
{
    lemma_dir_nodes_show_files(n.dirs, files);
    let a = dir_nodes(n.dirs, files);
    let b = n.files.map_values(|f: GFileV| leaf_node(f.name, f.idx, files));
    lemma_leaves_show_files(a, files);
    lemma_leaves_show_files(a + b, files);
    assert forall|i: int| 0 <= i < (a + b).len() implies #[trigger] leaf_shows_file((a + b)[i], files) by {
        if i < a.len() {
            assert((a + b)[i] == a[i]);
        } else {
            assert((a + b)[i] == b[i - a.len()]);
            assert(n.files[i - a.len()].idx < files.len());
        }
    }
}

proof fn lemma_dir_nodes_show_files(ds: Seq<GDirV>, files: Seq<FileV>)
    requires
        dirs_below(ds, files.len()),
    ensures
        leaves_show_files(dir_nodes(ds, files), files),
    decreases dsize(ds), 1nat,
{
    if ds.len() > 0 {
        let d = ds[ds.len() - 1];
        let pre = ds.subrange(0, ds.len() - 1);
        lemma_dsize_elem(ds, ds.len() - 1);
        assert(dirs_below(pre, files.len()) && idx_below(d.node, files.len()));
        lemma_fold_label(d.name, d.node, files.len());
        let (label, cur) = fold_label(d.name, d.node);
        lemma_dir_nodes_show_files(pre, files);
        lemma_nodes_show_files(cur, files);
        let r = dir_nodes(ds, files);
        let node = FileNodeV::Dir { name: label, children: nodes_of(cur, files) };
        assert(r == dir_nodes(pre, files).push(node));
        assert(r.subrange(0, r.len() - 1) =~= dir_nodes(pre, files));
        assert(r[r.len() - 1] == node);
        assert(leaf_shows_file(node, files) == leaves_show_files(nodes_of(cur, files), files));
    }
}

/// Every file leaf of the laid-out tree shows the diff file it names: its
/// index is a file of the diff, and its added and removed counts and its
/// icon are that file's.
pub proof fn law_leaves_show_file_counts(files: Seq<FileV>)
    ensures
        leaves_show_files(file_tree_of(files), files),
        forall|i: int|
            0 <= i < file_tree_of(files).len() ==> leaf_shows_file(#[trigger] file_tree_of(files)[i], files),
{
    lemma_split_tree_below(files, files.len());
    lemma_nodes_show_files(split_tree(files), files);
    lemma_leaves_show_files(file_tree_of(files), files);
}

} // verus!
