//! The file tree grouped per folder: each folder keeps its subfolders in
//! name order, as a sorted map does, and its files apart. Finishing it lists,
//! at every level, the subfolders (single-subfolder chains folded into one
//! node `a/b/c`) and then the files sorted by name.

use vstd::prelude::*;
use vstd::multiset::Multiset;
use crate::keyed_tree::{concat_slash, join_key, less_chars, str_lt};
use crate::model::{files_view, FileDiff, FileV};
use crate::nested_tree::named_files;
use crate::paths::{components, ext_or_empty, file_icon, icon_for, lemma_non_empty, path_components, same_chars};
use crate::text::{chars_of, owned, push_all, push_char, string_of};

verus! {

/// A file directly in a folder: its name, its index in the diff and its counts.
pub struct GFile {
    pub name: String,
    pub idx: usize,
    pub added: u32,
    pub removed: u32,
}

/// A subfolder under its name.
pub struct GDir {
    pub name: String,
    pub node: GNode,
}

/// A folder: its subfolders in name order and its files in diff order.
pub struct GNode {
    pub dirs: Vec<GDir>,
    pub files: Vec<GFile>,
}

pub struct GFileV {
    pub name: Seq<char>,
    pub idx: usize,
    pub added: u32,
    pub removed: u32,
}

pub struct GDirV {
    pub name: Seq<char>,
    pub node: GNodeV,
}

pub struct GNodeV {
    pub dirs: Seq<GDirV>,
    pub files: Seq<GFileV>,
}

impl View for GFile {
    type V = GFileV;

    open spec fn view(&self) -> GFileV {
        GFileV { name: self.name@, idx: self.idx, added: self.added, removed: self.removed }
    }
}

pub open spec fn gfiles_view(fs: Seq<GFile>) -> Seq<GFileV> {
    fs.map_values(|f: GFile| f@)
}

pub open spec fn gnode_view(n: GNode) -> GNodeV
    decreases n,
{
    GNodeV { dirs: gdirs_view(n.dirs@), files: gfiles_view(n.files@) }
}

pub open spec fn gdirs_view(s: Seq<GDir>) -> Seq<GDirV>
    decreases s,
{
    if s.len() == 0 {
        Seq::empty()
    } else {
        gdirs_view(s.subrange(0, s.len() - 1)).push(GDirV { name: s[s.len() - 1].name@, node: gnode_view(s[s.len() - 1].node) })
    }
}

pub proof fn lemma_gdirs_view(s: Seq<GDir>)
    ensures
        gdirs_view(s).len() == s.len(),
        forall|i: int|
            0 <= i < s.len() ==> #[trigger] gdirs_view(s)[i] == (GDirV { name: s[i].name@, node: gnode_view(s[i].node) }),
    decreases s.len(),
{
    if s.len() > 0 {
        lemma_gdirs_view(s.subrange(0, s.len() - 1));
        assert forall|i: int| 0 <= i < s.len() implies #[trigger] gdirs_view(s)[i] == (GDirV {
            name: s[i].name@,
            node: gnode_view(s[i].node),
        }) by {
            if i < s.len() - 1 {
                assert(s.subrange(0, s.len() - 1)[i] == s[i]);
            }
        }
    }
}

pub open spec fn empty_gnode() -> GNodeV {
    GNodeV { dirs: Seq::empty(), files: Seq::empty() }
}

/// Where a subfolder named `c` is, or goes, among subfolders in name order.
pub open spec fn lower_dir(ds: Seq<GDirV>, c: Seq<char>) -> nat
    decreases ds.len(),
{
    if ds.len() == 0 {
        0
    } else if str_lt(ds[0].name, c) {
        1 + lower_dir(ds.drop_first(), c)
    } else {
        0
    }
}

/// Adds the path `parts` of a file: the last part is a file of the folder
/// reached by the others, each the subfolder of that name, made when missing.
pub open spec fn ginsert(n: GNodeV, parts: Seq<Seq<char>>, idx: usize, added: u32, removed: u32) -> GNodeV
    decreases parts.len(),
{
    if parts.len() == 0 {
        n
    } else if parts.len() == 1 {
        GNodeV { files: n.files.push(GFileV { name: parts[0], idx, added, removed }), ..n }
    } else {
        let c = parts[0];
        let p = lower_dir(n.dirs, c) as int;
        let found = p < n.dirs.len() && n.dirs[p].name == c;
        let child = if found {
            n.dirs[p].node
        } else {
            empty_gnode()
        };
        let d = GDirV { name: c, node: ginsert(child, parts.drop_first(), idx, added, removed) };
        GNodeV {
            dirs: if found {
                n.dirs.update(p, d)
            } else {
                n.dirs.insert(p, d)
            },
            ..n
        }
    }
}

fn lower_dir_pos(ds: &Vec<GDir>, c: &Vec<char>) -> (p: usize)
    ensures
        p as int == lower_dir(gdirs_view(ds@), c@),
        p <= ds@.len(),
{
    let ghost vs = gdirs_view(ds@);
    proof {
        lemma_gdirs_view(ds@);
    }
    let mut p: usize = 0;
    assert(vs.skip(0) =~= vs);
    while p < ds.len() && less_chars(&chars_of(ds[p].name.as_str()), c)
        invariant
            vs == gdirs_view(ds@),
            vs.len() == ds@.len(),
            forall|j: int| 0 <= j < ds@.len() ==> #[trigger] vs[j] == (GDirV { name: ds@[j].name@, node: gnode_view(ds@[j].node) }),
            p <= ds@.len(),
            lower_dir(vs, c@) == p + lower_dir(vs.skip(p as int), c@),
        decreases ds@.len() - p,
    {
        proof {
            assert(vs.skip(p as int)[0] == vs[p as int]);
            assert(vs.skip(p as int).drop_first() =~= vs.skip(p + 1));
        }
        p = p + 1;
    }
    proof {
        if p < ds@.len() {
            assert(vs.skip(p as int)[0] == vs[p as int]);
        }
    }
    p
}

pub open spec fn chars_view(v: Seq<Vec<char>>) -> Seq<Seq<char>> {
    v.map_values(|c: Vec<char>| c@)
}

pub(crate) fn ginsert_exec(n: &mut GNode, parts: &Vec<Vec<char>>, from: usize, idx: usize, added: u32, removed: u32)
    requires
        from <= parts@.len(),
    ensures
        gnode_view(*final(n)) == ginsert(gnode_view(*old(n)), chars_view(parts@).skip(from as int), idx, added, removed),
    decreases parts@.len() - from,
{
    let ghost ps = chars_view(parts@).skip(from as int);
    let ghost nv = gnode_view(*n);
    proof {
        lemma_gdirs_view(n.dirs@);
    }
    if from == parts.len() {
        assert(ps.len() == 0);
        return;
    }
    assert(ps[0] == parts@[from as int]@);
    assert(ps.drop_first() =~= chars_view(parts@).skip(from + 1));
    if from + 1 == parts.len() {
        let f = GFile { name: string_of(&parts[from]), idx, added, removed };
        n.files.push(f);
        assert(gfiles_view(n.files@) =~= nv.files.push(f@));
        return;
    }
    let c = &parts[from];
    let p = lower_dir_pos(&n.dirs, c);
    let found = p < n.dirs.len() && same_chars(&chars_of(n.dirs[p].name.as_str()), c);
    let mut d = if found {
        n.dirs.remove(p)
    } else {
        GDir { name: string_of(c), node: GNode { dirs: Vec::new(), files: Vec::new() } }
    };
    proof {
        if !found {
            assert(gdirs_view(Seq::<GDir>::empty()) =~= Seq::<GDirV>::empty());
            assert(gfiles_view(Seq::<GFile>::empty()) =~= Seq::<GFileV>::empty());
            assert(gnode_view(d.node) == empty_gnode());
        }
    }
    ginsert_exec(&mut d.node, parts, from + 1, idx, added, removed);
    n.dirs.insert(p, d);
    proof {
        lemma_gdirs_view(n.dirs@);
        assert(gdirs_view(n.dirs@) =~= ginsert(nv, ps, idx, added, removed).dirs);
    }
}

/// The grouped tree of the files, added in diff order; a path without
/// components adds nothing.
pub open spec fn grouped_tree(files: Seq<FileV>) -> GNodeV
    decreases files.len(),
{
    if files.len() == 0 {
        empty_gnode()
    } else {
        let f = files.last();
        ginsert(grouped_tree(files.drop_last()), components(f.path), (files.len() - 1) as usize, f.added, f.removed)
    }
}

/// Groups a diff's files by folder.
pub fn build_grouped(files: &Vec<FileDiff>) -> (root: GNode)
    ensures
        gnode_view(root) == grouped_tree(files_view(files@)),
{
    let ghost fs = files_view(files@);
    let mut root = GNode { dirs: Vec::new(), files: Vec::new() };
    assert(gdirs_view(Seq::<GDir>::empty()) =~= Seq::<GDirV>::empty());
    assert(gfiles_view(Seq::<GFile>::empty()) =~= Seq::<GFileV>::empty());
    let mut i: usize = 0;
    while i < files.len()
        invariant
            fs == files_view(files@),
            i <= files@.len(),
            gnode_view(root) == grouped_tree(fs.take(i as int)),
        decreases files@.len() - i,
    {
        proof {
            assert(fs.take(i + 1).drop_last() =~= fs.take(i as int));
            assert(fs.take(i + 1).last() == files@[i as int]@);
        }
        let f = &files[i];
        let parts = path_components(f.path.as_str());
        assert(chars_view(parts@).skip(0) =~= components(f.path@));
        ginsert_exec(&mut root, &parts, 0, i, f.added, f.removed);
        i = i + 1;
    }
    assert(fs.take(files@.len() as int) =~= fs);
    root
}

/// Where a file goes among files sorted by name: after every file whose name
/// does not order after its own, so that files of equal names keep their order.
pub open spec fn ins_pos(s: Seq<GFileV>, x: GFileV) -> nat
    decreases s.len(),
{
    if s.len() == 0 {
        0
    } else if str_lt(x.name, s[0].name) {
        0
    } else {
        1 + ins_pos(s.drop_first(), x)
    }
}

/// The files sorted by name, stably: each file in turn goes to its place.
pub open spec fn sort_by_name(fs: Seq<GFileV>) -> Seq<GFileV>
    decreases fs.len(),
{
    if fs.len() == 0 {
        Seq::empty()
    } else {
        let s = sort_by_name(fs.drop_last());
        s.insert(ins_pos(s, fs.last()) as int, fs.last())
    }
}

pub proof fn lemma_ins_pos(s: Seq<GFileV>, x: GFileV)
    ensures
        ins_pos(s, x) <= s.len(),
    decreases s.len(),
{
    if s.len() > 0 && !str_lt(x.name, s[0].name) {
        lemma_ins_pos(s.drop_first(), x);
    }
}

pub proof fn lemma_sort_len(fs: Seq<GFileV>)
    ensures
        sort_by_name(fs).len() == fs.len(),
    decreases fs.len(),
{
    if fs.len() > 0 {
        lemma_sort_len(fs.drop_last());
        lemma_ins_pos(sort_by_name(fs.drop_last()), fs.last());
    }
}

fn copy_file(f: &GFile) -> (c: GFile)
    ensures
        c@ == f@,
{
    GFile { name: f.name.clone(), idx: f.idx, added: f.added, removed: f.removed }
}

/// Sorts files by name, keeping files of equal names in their order.
pub fn sorted_files(files: &Vec<GFile>) -> (out: Vec<GFile>)
    ensures
        gfiles_view(out@) == sort_by_name(gfiles_view(files@)),
{
    let ghost fs = gfiles_view(files@);
    let mut out: Vec<GFile> = Vec::new();
    let mut i: usize = 0;
    while i < files.len()
        invariant
            fs == gfiles_view(files@),
            i <= files@.len(),
            gfiles_view(out@) == sort_by_name(fs.take(i as int)),
        decreases files@.len() - i,
    {
        let f = copy_file(&files[i]);
        let name = chars_of(f.name.as_str());
        let ghost s = gfiles_view(out@);
        proof {
            assert(fs.take(i + 1).drop_last() =~= fs.take(i as int));
            assert(fs.take(i + 1).last() == f@);
            lemma_ins_pos(s, f@);
        }
        let mut p: usize = 0;
        assert(s.skip(0) =~= s);
        while p < out.len() && !less_chars(&name, &chars_of(out[p].name.as_str()))
            invariant
                s == gfiles_view(out@),
                name@ == f@.name,
                p <= out@.len(),
                ins_pos(s, f@) == p + ins_pos(s.skip(p as int), f@),
            decreases out@.len() - p,
        {
            proof {
                assert(s.skip(p as int)[0] == out@[p as int]@);
                assert(s.skip(p as int).drop_first() =~= s.skip(p + 1));
            }
            p = p + 1;
        }
        proof {
            if p < out@.len() {
                assert(s.skip(p as int)[0] == out@[p as int]@);
            }
        }
        let ghost fv = f@;
        out.insert(p, f);
        assert(gfiles_view(out@) =~= s.insert(p as int, fv));
        i = i + 1;
    }
    assert(fs.take(files@.len() as int) =~= fs);
    out
}

/// The number of folders of a tree.
pub open spec fn gsize(n: GNodeV) -> nat
    decreases n,
{
    1 + dsize(n.dirs)
}

pub open spec fn dsize(ds: Seq<GDirV>) -> nat
    decreases ds,
{
    if ds.len() == 0 {
        0
    } else {
        dsize(ds.subrange(0, ds.len() - 1)) + gsize(ds[ds.len() - 1].node)
    }
}

pub proof fn lemma_dsize_elem(ds: Seq<GDirV>, i: int)
    requires
        0 <= i < ds.len(),
    ensures
        gsize(ds[i].node) <= dsize(ds),
        ds.len() == 1 ==> dsize(ds) == gsize(ds[0].node),
    decreases ds.len(),
{
    if i < ds.len() - 1 {
        lemma_dsize_elem(ds.subrange(0, ds.len() - 1), i);
    }
    if ds.len() == 1 {
        assert(dsize(ds.subrange(0, 0)) == 0);
    }
}

/// Every folder of the tree has a non-empty name.
pub open spec fn gwf(n: GNodeV) -> bool
    decreases gsize(n), 0nat,
{
    dwf(n.dirs)
}

pub open spec fn dwf(ds: Seq<GDirV>) -> bool
    decreases dsize(ds), 1nat,
{
    if ds.len() == 0 {
        true
    } else {
        proof {
            lemma_dsize_elem(ds, ds.len() - 1);
        }
        dwf(ds.subrange(0, ds.len() - 1)) && ds[ds.len() - 1].name.len() > 0 && gwf(ds[ds.len() - 1].node)
    }
}

pub proof fn lemma_dwf(ds: Seq<GDirV>)
    ensures
        dwf(ds) <==> forall|i: int| 0 <= i < ds.len() ==> (#[trigger] ds[i]).name.len() > 0 && gwf(ds[i].node),
    decreases ds.len(),
{
    if ds.len() > 0 {
        let pre = ds.subrange(0, ds.len() - 1);
        lemma_dwf(pre);
        if dwf(ds) {
            assert forall|i: int| 0 <= i < ds.len() implies (#[trigger] ds[i]).name.len() > 0 && gwf(ds[i].node) by {
                if i < ds.len() - 1 {
                    assert(pre[i] == ds[i]);
                }
            }
        }
        if forall|i: int| 0 <= i < ds.len() ==> (#[trigger] ds[i]).name.len() > 0 && gwf(ds[i].node) {
            assert forall|i: int| 0 <= i < pre.len() implies (#[trigger] pre[i]).name.len() > 0 && gwf(pre[i].node) by {
                assert(pre[i] == ds[i]);
            }
        }
    }
}

/// Adding a path whose parts are all non-empty keeps every folder named.
pub proof fn lemma_ginsert_wf(n: GNodeV, parts: Seq<Seq<char>>, idx: usize, added: u32, removed: u32)
    requires
        gwf(n),
        forall|i: int| 0 <= i < parts.len() ==> (#[trigger] parts[i]).len() > 0,
    ensures
        gwf(ginsert(n, parts, idx, added, removed)),
    decreases parts.len(),
{
    lemma_dwf(n.dirs);
    if parts.len() >= 2 {
        let c = parts[0];
        let p = lower_dir(n.dirs, c) as int;
        let found = p < n.dirs.len() && n.dirs[p].name == c;
        let child = if found { n.dirs[p].node } else { empty_gnode() };
        assert(gwf(empty_gnode())) by {
            assert(dwf(Seq::<GDirV>::empty()));
        }
        assert forall|i: int| 0 <= i < parts.drop_first().len() implies (#[trigger] parts.drop_first()[i]).len() > 0 by {
            assert(parts.drop_first()[i] == parts[i + 1]);
        }
        lemma_ginsert_wf(child, parts.drop_first(), idx, added, removed);
        let r = ginsert(n, parts, idx, added, removed);
        lemma_lower_dir(n.dirs, c);
        lemma_dwf(r.dirs);
    }
}

pub proof fn lemma_lower_dir(ds: Seq<GDirV>, c: Seq<char>)
    ensures
        lower_dir(ds, c) <= ds.len(),
    decreases ds.len(),
{
    if ds.len() > 0 && str_lt(ds[0].name, c) {
        lemma_lower_dir(ds.drop_first(), c);
    }
}

pub proof fn lemma_grouped_wf(files: Seq<FileV>)
    ensures
        gwf(grouped_tree(files)),
    decreases files.len(),
{
    if files.len() == 0 {
        assert(dwf(Seq::<GDirV>::empty()));
    } else {
        lemma_grouped_wf(files.drop_last());
        lemma_non_empty(crate::paths::split_slash(files.last().path));
        let f = files.last();
        lemma_ginsert_wf(grouped_tree(files.drop_last()), components(f.path), (files.len() - 1) as usize, f.added, f.removed);
    }
}

/// A folder's shown name and full path after folding: while it holds no
/// files and exactly one subfolder, that subfolder's name joins both.
pub open spec fn fold_g(name: Seq<char>, full: Seq<char>, n: GNodeV) -> (Seq<char>, Seq<char>, GNodeV)
    decreases gsize(n),
{
    if n.files.len() == 0 && n.dirs.len() == 1 {
        proof {
            lemma_dsize_elem(n.dirs, 0);
        }
        fold_g(name.push('/') + n.dirs[0].name, full.push('/') + n.dirs[0].name, n.dirs[0].node)
    } else {
        (name, full, n)
    }
}

pub proof fn lemma_fold_g(name: Seq<char>, full: Seq<char>, n: GNodeV)
    requires
        gwf(n),
    ensures
        gsize(fold_g(name, full, n).2) <= gsize(n),
        gwf(fold_g(name, full, n).2),
        fold_g(name, full, n).1.len() >= full.len(),
    decreases gsize(n),
{
    if n.files.len() == 0 && n.dirs.len() == 1 {
        lemma_dsize_elem(n.dirs, 0);
        lemma_dwf(n.dirs);
        lemma_fold_g(name.push('/') + n.dirs[0].name, full.push('/') + n.dirs[0].name, n.dirs[0].node);
    }
}

/// A node of the finished tree.
pub enum DNode {
    Dir { name: String, path: String, depth: usize, children: Vec<DNode> },
    File { icon: String, name: String, idx: usize, added: u32, removed: u32, depth: usize },
}

pub enum DNodeV {
    Dir { name: Seq<char>, path: Seq<char>, depth: nat, children: Seq<DNodeV> },
    File { icon: Seq<char>, name: Seq<char>, idx: usize, added: u32, removed: u32, depth: nat },
}

pub open spec fn dnode_view(n: DNode) -> DNodeV
    decreases n,
{
    match n {
        DNode::Dir { name, path, depth, children } => DNodeV::Dir {
            name: name@,
            path: path@,
            depth: depth as nat,
            children: dnodes_view(children@),
        },
        DNode::File { icon, name, idx, added, removed, depth } => DNodeV::File {
            icon: icon@,
            name: name@,
            idx,
            added,
            removed,
            depth: depth as nat,
        },
    }
}

pub open spec fn dnodes_view(s: Seq<DNode>) -> Seq<DNodeV>
    decreases s,
{
    if s.len() == 0 {
        Seq::empty()
    } else {
        dnodes_view(s.subrange(0, s.len() - 1)).push(dnode_view(s[s.len() - 1]))
    }
}

pub proof fn lemma_dnodes_view(s: Seq<DNode>)
    ensures
        dnodes_view(s).len() == s.len(),
        forall|i: int| 0 <= i < s.len() ==> #[trigger] dnodes_view(s)[i] == dnode_view(s[i]),
    decreases s.len(),
{
    if s.len() > 0 {
        lemma_dnodes_view(s.subrange(0, s.len() - 1));
        assert forall|i: int| 0 <= i < s.len() implies #[trigger] dnodes_view(s)[i] == dnode_view(s[i]) by {
            if i < s.len() - 1 {
                assert(s.subrange(0, s.len() - 1)[i] == s[i]);
            }
        }
    }
}

/// A file of the finished tree, with the icon its name gets.
pub open spec fn file_node(f: GFileV, depth: nat) -> DNodeV {
    DNodeV::File {
        icon: icon_for(ext_or_empty(f.name)),
        name: f.name,
        idx: f.idx,
        added: f.added,
        removed: f.removed,
        depth,
    }
}

/// The finished nodes of a folder's contents: its subfolders in name order,
/// each folded and finished one level deeper, then its files sorted by name.
pub open spec fn finish_spec(n: GNodeV, prefix: Seq<char>, depth: nat) -> Seq<DNodeV>
    decreases gsize(n), 0nat,
{
    finish_dirs(n.dirs, prefix, depth) + sort_by_name(n.files).map_values(|f: GFileV| file_node(f, depth))
}

pub open spec fn finish_dirs(ds: Seq<GDirV>, prefix: Seq<char>, depth: nat) -> Seq<DNodeV>
    decreases dsize(ds), 1nat,
{
    if ds.len() == 0 {
        Seq::empty()
    } else {
        let d = ds[ds.len() - 1];
        proof {
            lemma_dsize_elem(ds, ds.len() - 1);
            lemma_fold_g_size(d.name, join_key(prefix, d.name), d.node);
        }
        let (name, full, cur) = fold_g(d.name, join_key(prefix, d.name), d.node);
        finish_dirs(ds.subrange(0, ds.len() - 1), prefix, depth).push(
            DNodeV::Dir { name, path: full, depth, children: finish_spec(cur, full, depth + 1) },
        )
    }
}

pub proof fn lemma_fold_g_size(name: Seq<char>, full: Seq<char>, n: GNodeV)
    ensures
        gsize(fold_g(name, full, n).2) <= gsize(n),
    decreases gsize(n),
{
    if n.files.len() == 0 && n.dirs.len() == 1 {
        lemma_dsize_elem(n.dirs, 0);
        lemma_fold_g_size(name.push('/') + n.dirs[0].name, full.push('/') + n.dirs[0].name, n.dirs[0].node);
    }
}

/// Finishes a folder's contents at `depth` under the path `prefix`; `depth`
/// is at most the length of `prefix`, as each level adds a named component.
fn finish(n: &GNode, prefix: &Vec<char>, depth: usize) -> (out: Vec<DNode>)
    requires
        gwf(gnode_view(*n)),
        depth <= prefix@.len(),
    ensures
        dnodes_view(out@) == finish_spec(gnode_view(*n), prefix@, depth as nat),
    decreases gsize(gnode_view(*n)),
{
    let ghost nv = gnode_view(*n);
    proof {
        lemma_gdirs_view(n.dirs@);
        lemma_dwf(nv.dirs);
    }
    let mut out: Vec<DNode> = Vec::new();
    let mut i: usize = 0;
    while i < n.dirs.len()
        invariant
            nv == gnode_view(*n),
            nv.dirs.len() == n.dirs@.len(),
            forall|j: int| 0 <= j < n.dirs@.len() ==> #[trigger] nv.dirs[j] == (GDirV { name: n.dirs@[j].name@, node: gnode_view(n.dirs@[j].node) }),
            forall|j: int| 0 <= j < nv.dirs.len() ==> (#[trigger] nv.dirs[j]).name.len() > 0 && gwf(nv.dirs[j].node),
            depth <= prefix@.len(),
            i <= n.dirs@.len(),
            dnodes_view(out@) == finish_dirs(nv.dirs.take(i as int), prefix@, depth as nat),
        decreases n.dirs@.len() - i,
    {
        let d = &n.dirs[i];
        let ghost dv = nv.dirs[i as int];
        proof {
            assert(nv.dirs.take(i + 1).subrange(0, i as int) =~= nv.dirs.take(i as int));
            assert(nv.dirs.take(i + 1)[i as int] == dv);
            lemma_dsize_elem(nv.dirs, i as int);
            lemma_fold_g(dv.name, join_key(prefix@, dv.name), dv.node);
        }
        let dname = chars_of(d.name.as_str());
        let mut name = chars_of(d.name.as_str());
        let mut full = if prefix.len() == 0 {
            chars_of(d.name.as_str())
        } else {
            concat_slash(prefix, &dname)
        };
        let mut cur: &GNode = &d.node;
        while cur.files.len() == 0 && cur.dirs.len() == 1
            invariant
                fold_g(name@, full@, gnode_view(*cur)) == fold_g(dv.name, join_key(prefix@, dv.name), dv.node),
                gsize(gnode_view(*cur)) <= gsize(dv.node),
            decreases gsize(gnode_view(*cur)),
        {
            proof {
                lemma_gdirs_view(cur.dirs@);
                lemma_dsize_elem(gnode_view(*cur).dirs, 0);
            }
            let sub = &cur.dirs[0];
            let sname = chars_of(sub.name.as_str());
            name = concat_slash(&name, &sname);
            full = concat_slash(&full, &sname);
            cur = &sub.node;
        }
        proof {
            lemma_gdirs_view(cur.dirs@);
            assert(gfiles_view(cur.files@).len() == cur.files@.len());
            assert(fold_g(name@, full@, gnode_view(*cur)) == (name@, full@, gnode_view(*cur)));
            assert(full@.len() >= join_key(prefix@, dv.name).len());
            assert(depth + 1 <= full@.len());
        }
        assert(depth < full.len());
        let children = finish(cur, &full, depth + 1);
        let node = DNode::Dir { name: string_of(&name), path: string_of(&full), depth, children };
        let ghost before = out@;
        out.push(node);
        proof {
            lemma_dnodes_view(out@);
            lemma_dnodes_view(before);
            assert(dnodes_view(out@) =~= dnodes_view(before).push(dnode_view(node)));
        }
        i = i + 1;
    }
    assert(nv.dirs.take(n.dirs@.len() as int) =~= nv.dirs);
    let files = sorted_files(&n.files);
    let ghost sorted = gfiles_view(files@);
    let ghost head = dnodes_view(out@);
    let mut k: usize = 0;
    while k < files.len()
        invariant
            sorted == gfiles_view(files@),
            sorted == sort_by_name(nv.files),
            nv == gnode_view(*n),
            k <= files@.len(),
            dnodes_view(out@) == head + sorted.take(k as int).map_values(|f: GFileV| file_node(f, depth as nat)),
        decreases files@.len() - k,
    {
        let f = &files[k];
        let node = DNode::File {
            icon: owned(file_icon(f.name.as_str())),
            name: f.name.clone(),
            idx: f.idx,
            added: f.added,
            removed: f.removed,
            depth,
        };
        let ghost before = out@;
        out.push(node);
        proof {
            lemma_dnodes_view(out@);
            lemma_dnodes_view(before);
            assert(dnodes_view(out@) =~= dnodes_view(before).push(dnode_view(node)));
            assert(sorted.take(k + 1) =~= sorted.take(k as int).push(f@));
            assert(sorted.take(k + 1).map_values(|f: GFileV| file_node(f, depth as nat)) =~= sorted.take(
                k as int,
            ).map_values(|f: GFileV| file_node(f, depth as nat)).push(file_node(f@, depth as nat)));
        }
        k = k + 1;
    }
    assert(sorted.take(files@.len() as int) =~= sorted);
    out
}

/// The finished tree of a diff's files.
pub open spec fn sorted_tree_of(files: Seq<FileV>) -> Seq<DNodeV> {
    finish_spec(grouped_tree(files), Seq::empty(), 0)
}

/// Builds the finished tree of a diff's files: at every level the folders in
/// name order, single-subfolder chains folded, then the files by name.
pub fn build_sorted_tree(files: &Vec<FileDiff>) -> (out: Vec<DNode>)
    ensures
        dnodes_view(out@) == sorted_tree_of(files_view(files@)),
{
    let root = build_grouped(files);
    proof {
        lemma_grouped_wf(files_view(files@));
    }
    let top: Vec<char> = Vec::new();
    assert(top@ =~= Seq::<char>::empty());
    finish(&root, &top, 0)
}

/// Files in name order: no file's name orders before an earlier one's.
pub open spec fn files_in_order(s: Seq<GFileV>) -> bool {
    forall|i: int, j: int| 0 <= i < j < s.len() ==> !str_lt(#[trigger] s[j].name, #[trigger] s[i].name)
}

proof fn lemma_ins_pos_props(s: Seq<GFileV>, x: GFileV)
    ensures
        ins_pos(s, x) <= s.len(),
        forall|j: int| 0 <= j < ins_pos(s, x) ==> !str_lt(x.name, #[trigger] s[j].name),
        ins_pos(s, x) < s.len() ==> str_lt(x.name, s[ins_pos(s, x) as int].name),
    decreases s.len(),
{
    if s.len() > 0 && !str_lt(x.name, s[0].name) {
        lemma_ins_pos_props(s.drop_first(), x);
        assert forall|j: int| 0 <= j < ins_pos(s, x) implies !str_lt(x.name, #[trigger] s[j].name) by {
            if j > 0 {
                assert(s[j] == s.drop_first()[j - 1]);
            }
        }
        if ins_pos(s, x) < s.len() {
            assert(s[ins_pos(s, x) as int] == s.drop_first()[ins_pos(s, x) - 1]);
        }
    }
}

/// Sorting by name gives the same files, in name order.
pub proof fn law_sort_by_name(fs: Seq<GFileV>)
    ensures
        files_in_order(sort_by_name(fs)),
        sort_by_name(fs).to_multiset() == fs.to_multiset(),
    decreases fs.len(),
{
    broadcast use vstd::seq_lib::to_multiset_insert, vstd::seq_lib::to_multiset_build;
    if fs.len() == 0 {
        assert(sort_by_name(fs) =~= fs);
    } else {
        let pre = fs.drop_last();
        let x = fs.last();
        law_sort_by_name(pre);
        let s = sort_by_name(pre);
        let p = ins_pos(s, x) as int;
        lemma_ins_pos_props(s, x);
        let r = s.insert(p, x);
        assert(sort_by_name(fs) == r);
        assert forall|i: int, j: int| 0 <= i < j < r.len() implies !str_lt(#[trigger] r[j].name, #[trigger] r[i].name) by {
            if j < p {
                assert(r[i] == s[i] && r[j] == s[j]);
            } else if j == p {
                assert(r[i] == s[i]);
            } else if i == p {
                assert(r[j] == s[j - 1]);
                if str_lt(s[j - 1].name, x.name) {
                    if j - 1 == p {
                        crate::keyed_tree::lemma_str_lt_asymmetric(x.name, s[p].name);
                    } else {
                        crate::keyed_tree::lemma_str_lt_transitive(s[j - 1].name, x.name, s[p].name);
                    }
                }
            } else if i < p {
                assert(r[i] == s[i] && r[j] == s[j - 1]);
            } else {
                assert(r[i] == s[i - 1] && r[j] == s[j - 1]);
            }
        }
        assert(fs =~= pre.push(x));
    }
}

/// Subfolders named in strictly increasing order: no name twice.
pub open spec fn dirs_sorted(ds: Seq<GDirV>) -> bool {
    forall|i: int, j: int| 0 <= i < j < ds.len() ==> str_lt(#[trigger] ds[i].name, #[trigger] ds[j].name)
}

/// At every level the subfolders are in name order, as the sorted map they
/// stand for keeps them.
pub open spec fn gsorted(n: GNodeV) -> bool
    decreases gsize(n), 0nat,
{
    dirs_sorted(n.dirs) && gsorted_each(n.dirs)
}

pub open spec fn gsorted_each(ds: Seq<GDirV>) -> bool
    decreases dsize(ds), 1nat,
{
    if ds.len() == 0 {
        true
    } else {
        proof {
            lemma_dsize_elem(ds, ds.len() - 1);
        }
        gsorted_each(ds.subrange(0, ds.len() - 1)) && gsorted(ds[ds.len() - 1].node)
    }
}

proof fn lemma_gsorted_each(ds: Seq<GDirV>)
    ensures
        gsorted_each(ds) <==> forall|i: int| 0 <= i < ds.len() ==> gsorted(#[trigger] ds[i].node),
    decreases ds.len(),
{
    if ds.len() > 0 {
        let pre = ds.subrange(0, ds.len() - 1);
        lemma_gsorted_each(pre);
        if gsorted_each(ds) {
            assert forall|i: int| 0 <= i < ds.len() implies gsorted(#[trigger] ds[i].node) by {
                if i < ds.len() - 1 {
                    assert(pre[i] == ds[i]);
                }
            }
        }
        if forall|i: int| 0 <= i < ds.len() ==> gsorted(#[trigger] ds[i].node) {
            assert forall|i: int| 0 <= i < pre.len() implies gsorted(#[trigger] pre[i].node) by {
                assert(pre[i] == ds[i]);
            }
        }
    }
}

proof fn lemma_lower_dir_props(ds: Seq<GDirV>, c: Seq<char>)
    ensures
        lower_dir(ds, c) <= ds.len(),
        forall|j: int| 0 <= j < lower_dir(ds, c) ==> str_lt(#[trigger] ds[j].name, c),
        lower_dir(ds, c) < ds.len() ==> !str_lt(ds[lower_dir(ds, c) as int].name, c),
    decreases ds.len(),
{
    if ds.len() > 0 && str_lt(ds[0].name, c) {
        lemma_lower_dir_props(ds.drop_first(), c);
        assert forall|j: int| 0 <= j < lower_dir(ds, c) implies str_lt(#[trigger] ds[j].name, c) by {
            if j > 0 {
                assert(ds[j] == ds.drop_first()[j - 1]);
            }
        }
        if lower_dir(ds, c) < ds.len() {
            assert(ds[lower_dir(ds, c) as int] == ds.drop_first()[lower_dir(ds, c) - 1]);
        }
    }
}

/// Adding a path keeps every level's subfolders in name order.
pub proof fn lemma_ginsert_sorted(n: GNodeV, parts: Seq<Seq<char>>, idx: usize, added: u32, removed: u32)
    requires
        gsorted(n),
    ensures
        gsorted(ginsert(n, parts, idx, added, removed)),
    decreases parts.len(),
{
    lemma_gsorted_each(n.dirs);
    if parts.len() >= 2 {
        let c = parts[0];
        let ds = n.dirs;
        let p = lower_dir(ds, c) as int;
        lemma_lower_dir_props(ds, c);
        let found = p < ds.len() && ds[p].name == c;
        let child = if found { ds[p].node } else { empty_gnode() };
        assert(gsorted(empty_gnode())) by {
            assert(gsorted_each(Seq::<GDirV>::empty()));
        }
        lemma_ginsert_sorted(child, parts.drop_first(), idx, added, removed);
        let d = GDirV { name: c, node: ginsert(child, parts.drop_first(), idx, added, removed) };
        let r = ginsert(n, parts, idx, added, removed).dirs;
        if found {
            assert(r == ds.update(p, d));
            assert forall|i: int, j: int| 0 <= i < j < r.len() implies str_lt(#[trigger] r[i].name, #[trigger] r[j].name) by {
                assert(ds[i].name == r[i].name && ds[j].name == r[j].name);
            }
        } else {
            assert(r == ds.insert(p, d));
            if p < ds.len() {
                crate::keyed_tree::lemma_str_lt_total(ds[p].name, c);
            }
            assert forall|i: int, j: int| 0 <= i < j < r.len() implies str_lt(#[trigger] r[i].name, #[trigger] r[j].name) by {
                if j < p {
                    assert(r[i] == ds[i] && r[j] == ds[j]);
                } else if j == p {
                    assert(r[i] == ds[i]);
                } else if i == p {
                    assert(r[j] == ds[j - 1]);
                    if j - 1 > p {
                        crate::keyed_tree::lemma_str_lt_transitive(c, ds[p].name, ds[j - 1].name);
                    }
                } else if i < p {
                    assert(r[i] == ds[i] && r[j] == ds[j - 1]);
                } else {
                    assert(r[i] == ds[i - 1] && r[j] == ds[j - 1]);
                }
            }
        }
        lemma_gsorted_each(r);
        assert forall|i: int| 0 <= i < r.len() implies gsorted(#[trigger] r[i].node) by {
            if found {
                if i != p {
                    assert(r[i] == ds[i]);
                }
            } else if i < p {
                assert(r[i] == ds[i]);
            } else if i > p {
                assert(r[i] == ds[i - 1]);
            }
        }
    }
}

/// The grouped tree of any diff keeps every level's subfolders in name order
/// with no name twice.
pub proof fn law_grouped_tree_sorted(files: Seq<FileV>)
    ensures
        gsorted(grouped_tree(files)),
    decreases files.len(),
{
    if files.len() == 0 {
        assert(gsorted_each(Seq::<GDirV>::empty()));
    } else {
        law_grouped_tree_sorted(files.drop_last());
        let f = files.last();
        lemma_ginsert_sorted(grouped_tree(files.drop_last()), components(f.path), (files.len() - 1) as usize, f.added, f.removed);
    }
}

/// The indices of a list of files.
pub open spec fn file_idxs(fs: Seq<GFileV>) -> Multiset<usize>
    decreases fs.len(),
{
    if fs.len() == 0 {
        Multiset::empty()
    } else {
        file_idxs(fs.drop_last()).insert(fs.last().idx)
    }
}

/// The indices of all files of a tree, at every level.
pub open spec fn gleaves(n: GNodeV) -> Multiset<usize>
    decreases gsize(n), 0nat,
{
    file_idxs(n.files).add(dir_leaves(n.dirs))
}

pub open spec fn dir_leaves(ds: Seq<GDirV>) -> Multiset<usize>
    decreases dsize(ds), 1nat,
{
    if ds.len() == 0 {
        Multiset::empty()
    } else {
        proof {
            lemma_dsize_elem(ds, ds.len() - 1);
        }
        dir_leaves(ds.subrange(0, ds.len() - 1)).add(gleaves(ds[ds.len() - 1].node))
    }
}

proof fn lemma_dir_leaves_update(ds: Seq<GDirV>, p: int, d: GDirV)
    requires
        0 <= p < ds.len(),
    ensures
        dir_leaves(ds.update(p, d)).add(gleaves(ds[p].node)) =~= dir_leaves(ds).add(gleaves(d.node)),
    decreases ds.len(),
{
    broadcast use vstd::multiset::group_multiset_axioms;
    let last = ds.len() - 1;
    let pre = ds.subrange(0, last);
    let up = ds.update(p, d);
    assert(dir_leaves(ds) == dir_leaves(pre).add(gleaves(ds[last].node)));
    if p == last {
        assert(up.subrange(0, last) =~= pre);
        assert(dir_leaves(up) == dir_leaves(pre).add(gleaves(d.node)));
    } else {
        lemma_dir_leaves_update(pre, p, d);
        assert(up.subrange(0, last) =~= pre.update(p, d));
        assert(pre[p] == ds[p]);
        assert(up[last] == ds[last]);
        assert(dir_leaves(up) == dir_leaves(pre.update(p, d)).add(gleaves(ds[last].node)));
        assert forall|v: usize| #[trigger] dir_leaves(up).add(gleaves(ds[p].node)).count(v)
            == dir_leaves(ds).add(gleaves(d.node)).count(v) by {
            assert(dir_leaves(pre.update(p, d)).add(gleaves(pre[p].node)).count(v)
                == dir_leaves(pre).add(gleaves(d.node)).count(v));
        }
    }
}

proof fn lemma_dir_leaves_insert(ds: Seq<GDirV>, p: int, d: GDirV)
    requires
        0 <= p <= ds.len(),
    ensures
        dir_leaves(ds.insert(p, d)) =~= dir_leaves(ds).add(gleaves(d.node)),
    decreases ds.len(),
{
    broadcast use vstd::multiset::group_multiset_axioms;
    let r = ds.insert(p, d);
    if p == ds.len() {
        assert(r.subrange(0, ds.len() as int) =~= ds);
    } else {
        let last = ds.len() - 1;
        let pre = ds.subrange(0, last);
        lemma_dir_leaves_insert(pre, p, d);
        assert(r.subrange(0, r.len() - 1) =~= pre.insert(p, d));
        assert(r[r.len() - 1] == ds[last]);
    }
}

/// Adding a file under a path of at least one part adds its index to the tree.
pub proof fn lemma_ginsert_leaves(n: GNodeV, parts: Seq<Seq<char>>, idx: usize, added: u32, removed: u32)
    requires
        parts.len() > 0,
    ensures
        gleaves(ginsert(n, parts, idx, added, removed)) =~= gleaves(n).insert(idx),
    decreases parts.len(),
{
    broadcast use vstd::multiset::group_multiset_axioms;
    let r = ginsert(n, parts, idx, added, removed);
    if parts.len() == 1 {
        let f = GFileV { name: parts[0], idx, added, removed };
        assert(r.files.drop_last() =~= n.files);
        assert(r.files.last() == f);
        assert(r.dirs == n.dirs);
    } else {
        let c = parts[0];
        let p = lower_dir(n.dirs, c) as int;
        lemma_lower_dir(n.dirs, c);
        let found = p < n.dirs.len() && n.dirs[p].name == c;
        let child = if found { n.dirs[p].node } else { empty_gnode() };
        lemma_ginsert_leaves(child, parts.drop_first(), idx, added, removed);
        let d = GDirV { name: c, node: ginsert(child, parts.drop_first(), idx, added, removed) };
        assert(r.files == n.files);
        if found {
            assert(r.dirs == n.dirs.update(p, d));
            lemma_dir_leaves_update(n.dirs, p, d);
            assert forall|v: usize| #[trigger] gleaves(r).count(v) == gleaves(n).insert(idx).count(v) by {
                assert(dir_leaves(r.dirs).add(gleaves(child)).count(v) == dir_leaves(n.dirs).add(gleaves(d.node)).count(v));
            }
        } else {
            assert(r.dirs == n.dirs.insert(p, d));
            lemma_dir_leaves_insert(n.dirs, p, d);
            assert(gleaves(empty_gnode()) =~= Multiset::empty()) by {
                assert(file_idxs(Seq::<GFileV>::empty()) =~= Multiset::empty());
                assert(dir_leaves(Seq::<GDirV>::empty()) =~= Multiset::empty());
            }
        }
    }
}

/// Inserting a file anywhere in a list adds its index.
proof fn lemma_file_idxs_insert(s: Seq<GFileV>, p: int, x: GFileV)
    requires
        0 <= p <= s.len(),
    ensures
        file_idxs(s.insert(p, x)) =~= file_idxs(s).insert(x.idx),
    decreases s.len(),
{
    broadcast use vstd::multiset::group_multiset_axioms;
    let r = s.insert(p, x);
    if p == s.len() {
        assert(r.drop_last() =~= s);
    } else {
        lemma_file_idxs_insert(s.drop_last(), p, x);
        assert(r.drop_last() =~= s.drop_last().insert(p, x));
        assert(r.last() == s.last());
    }
}

/// Sorting files by name keeps their indices.
pub proof fn lemma_sort_keeps_idxs(fs: Seq<GFileV>)
    ensures
        file_idxs(sort_by_name(fs)) =~= file_idxs(fs),
    decreases fs.len(),
{
    if fs.len() > 0 {
        lemma_sort_keeps_idxs(fs.drop_last());
        let s = sort_by_name(fs.drop_last());
        lemma_ins_pos(s, fs.last());
        lemma_file_idxs_insert(s, ins_pos(s, fs.last()) as int, fs.last());
    }
}

/// The file indices of the leaves of a finished node.
pub open spec fn dnode_files(n: DNodeV) -> Multiset<usize>
    decreases n,
{
    match n {
        DNodeV::Dir { children, .. } => dnodes_files(children),
        DNodeV::File { idx, .. } => Multiset::singleton(idx),
    }
}

pub open spec fn dnodes_files(s: Seq<DNodeV>) -> Multiset<usize>
    decreases s,
{
    if s.len() == 0 {
        Multiset::empty()
    } else {
        dnodes_files(s.subrange(0, s.len() - 1)).add(dnode_files(s[s.len() - 1]))
    }
}

proof fn lemma_dnodes_files_concat(a: Seq<DNodeV>, b: Seq<DNodeV>)
    ensures
        dnodes_files(a + b) =~= dnodes_files(a).add(dnodes_files(b)),
    decreases b.len(),
{
    broadcast use vstd::multiset::group_multiset_axioms;
    if b.len() == 0 {
        assert(a + b =~= a);
    } else {
        let bp = b.subrange(0, b.len() - 1);
        lemma_dnodes_files_concat(a, bp);
        assert((a + b).subrange(0, (a + b).len() - 1) =~= a + bp);
        assert((a + b)[(a + b).len() - 1] == b[b.len() - 1]);
    }
}

proof fn lemma_file_nodes_files(fs: Seq<GFileV>, depth: nat)
    ensures
        dnodes_files(fs.map_values(|f: GFileV| file_node(f, depth))) =~= file_idxs(fs),
    decreases fs.len(),
{
    broadcast use vstd::multiset::group_multiset_axioms;
    if fs.len() > 0 {
        let m = fs.map_values(|f: GFileV| file_node(f, depth));
        lemma_file_nodes_files(fs.drop_last(), depth);
        assert(m.subrange(0, m.len() - 1) =~= fs.drop_last().map_values(|f: GFileV| file_node(f, depth)));
        assert(dnode_files(m[m.len() - 1]) == Multiset::singleton(fs.last().idx));
    } else {
        assert(fs.map_values(|f: GFileV| file_node(f, depth)) =~= Seq::<DNodeV>::empty());
    }
}

proof fn lemma_fold_g_leaves(name: Seq<char>, full: Seq<char>, n: GNodeV)
    ensures
        gleaves(fold_g(name, full, n).2) =~= gleaves(n),
    decreases gsize(n),
{
    broadcast use vstd::multiset::group_multiset_axioms;
    if n.files.len() == 0 && n.dirs.len() == 1 {
        lemma_dsize_elem(n.dirs, 0);
        lemma_fold_g_leaves(name.push('/') + n.dirs[0].name, full.push('/') + n.dirs[0].name, n.dirs[0].node);
        assert(n.dirs.subrange(0, 0) =~= Seq::<GDirV>::empty());
        assert(dir_leaves(n.dirs.subrange(0, 0)) =~= Multiset::empty());
        assert(file_idxs(n.files) =~= Multiset::empty());
    }
}

proof fn lemma_finish_files(n: GNodeV, prefix: Seq<char>, depth: nat)
    ensures
        dnodes_files(finish_spec(n, prefix, depth)) =~= gleaves(n),
    decreases gsize(n), 0nat,
{
    lemma_finish_dirs_files(n.dirs, prefix, depth);
    lemma_dnodes_files_concat(
        finish_dirs(n.dirs, prefix, depth),
        sort_by_name(n.files).map_values(|f: GFileV| file_node(f, depth)),
    );
    lemma_file_nodes_files(sort_by_name(n.files), depth);
    lemma_sort_keeps_idxs(n.files);
}

proof fn lemma_finish_dirs_files(ds: Seq<GDirV>, prefix: Seq<char>, depth: nat)
    ensures
        dnodes_files(finish_dirs(ds, prefix, depth)) =~= dir_leaves(ds),
    decreases dsize(ds), 1nat,
{
    broadcast use vstd::multiset::group_multiset_axioms;
    if ds.len() > 0 {
        let d = ds[ds.len() - 1];
        let pre = ds.subrange(0, ds.len() - 1);
        lemma_dsize_elem(ds, ds.len() - 1);
        lemma_fold_g_size(d.name, join_key(prefix, d.name), d.node);
        let (name, full, cur) = fold_g(d.name, join_key(prefix, d.name), d.node);
        lemma_finish_dirs_files(pre, prefix, depth);
        lemma_finish_files(cur, full, depth + 1);
        lemma_fold_g_leaves(d.name, join_key(prefix, d.name), d.node);
        let r = finish_dirs(ds, prefix, depth);
        let node = DNodeV::Dir { name, path: full, depth, children: finish_spec(cur, full, depth + 1) };
        assert(r == finish_dirs(pre, prefix, depth).push(node));
        assert(r.subrange(0, r.len() - 1) =~= finish_dirs(pre, prefix, depth));
        assert(dnode_files(node) == dnodes_files(finish_spec(cur, full, depth + 1)));
    }
}

/// The files of the diff that the grouped tree holds: each one whose path
/// has at least one component, once.
proof fn lemma_grouped_leaves(files: Seq<FileV>)
    ensures
        gleaves(grouped_tree(files)) =~= named_files(files),
    decreases files.len(),
{
    broadcast use vstd::multiset::group_multiset_axioms;
    if files.len() == 0 {
        assert(file_idxs(Seq::<GFileV>::empty()) =~= Multiset::empty());
        assert(dir_leaves(Seq::<GDirV>::empty()) =~= Multiset::empty());
    } else {
        lemma_grouped_leaves(files.drop_last());
        let f = files.last();
        if components(f.path).len() > 0 {
            lemma_ginsert_leaves(grouped_tree(files.drop_last()), components(f.path), (files.len() - 1) as usize, f.added, f.removed);
        }
    }
}

/// The indices and counts of a list of files.
pub open spec fn file_counts(fs: Seq<GFileV>) -> Multiset<(usize, u32, u32)>
    decreases fs.len(),
{
    if fs.len() == 0 {
        Multiset::empty()
    } else {
        file_counts(fs.drop_last()).insert((fs.last().idx, fs.last().added, fs.last().removed))
    }
}

/// The indices and counts of all files of a tree, at every level.
pub open spec fn gcounts(n: GNodeV) -> Multiset<(usize, u32, u32)>
    decreases gsize(n), 0nat,
{
    file_counts(n.files).add(dir_counts(n.dirs))
}

pub open spec fn dir_counts(ds: Seq<GDirV>) -> Multiset<(usize, u32, u32)>
    decreases dsize(ds), 1nat,
{
    if ds.len() == 0 {
        Multiset::empty()
    } else {
        proof {
            lemma_dsize_elem(ds, ds.len() - 1);
        }
        dir_counts(ds.subrange(0, ds.len() - 1)).add(gcounts(ds[ds.len() - 1].node))
    }
}

proof fn lemma_dir_counts_update(ds: Seq<GDirV>, p: int, d: GDirV)
    requires
        0 <= p < ds.len(),
    ensures
        dir_counts(ds.update(p, d)).add(gcounts(ds[p].node)) =~= dir_counts(ds).add(gcounts(d.node)),
    decreases ds.len(),
{
    broadcast use vstd::multiset::group_multiset_axioms;
    let last = ds.len() - 1;
    let pre = ds.subrange(0, last);
    let up = ds.update(p, d);
    assert(dir_counts(ds) == dir_counts(pre).add(gcounts(ds[last].node)));
    if p == last {
        assert(up.subrange(0, last) =~= pre);
        assert(dir_counts(up) == dir_counts(pre).add(gcounts(d.node)));
    } else {
        lemma_dir_counts_update(pre, p, d);
        assert(up.subrange(0, last) =~= pre.update(p, d));
        assert(pre[p] == ds[p]);
        assert(up[last] == ds[last]);
        assert(dir_counts(up) == dir_counts(pre.update(p, d)).add(gcounts(ds[last].node)));
        assert forall|v: (usize, u32, u32)| #[trigger] dir_counts(up).add(gcounts(ds[p].node)).count(v)
            == dir_counts(ds).add(gcounts(d.node)).count(v) by {
            assert(dir_counts(pre.update(p, d)).add(gcounts(pre[p].node)).count(v)
                == dir_counts(pre).add(gcounts(d.node)).count(v));
        }
    }
}

proof fn lemma_dir_counts_insert(ds: Seq<GDirV>, p: int, d: GDirV)
    requires
        0 <= p <= ds.len(),
    ensures
        dir_counts(ds.insert(p, d)) =~= dir_counts(ds).add(gcounts(d.node)),
    decreases ds.len(),
{
    broadcast use vstd::multiset::group_multiset_axioms;
    let r = ds.insert(p, d);
    if p == ds.len() {
        assert(r.subrange(0, ds.len() as int) =~= ds);
    } else {
        let last = ds.len() - 1;
        let pre = ds.subrange(0, last);
        lemma_dir_counts_insert(pre, p, d);
        assert(r.subrange(0, r.len() - 1) =~= pre.insert(p, d));
        assert(r[r.len() - 1] == ds[last]);
    }
}

/// Adding a file under a path of at least one part adds its index and counts.
pub proof fn lemma_ginsert_counts(n: GNodeV, parts: Seq<Seq<char>>, idx: usize, added: u32, removed: u32)
    requires
        parts.len() > 0,
    ensures
        gcounts(ginsert(n, parts, idx, added, removed)) =~= gcounts(n).insert((idx, added, removed)),
    decreases parts.len(),
{
    broadcast use vstd::multiset::group_multiset_axioms;
    let r = ginsert(n, parts, idx, added, removed);
    if parts.len() == 1 {
        let f = GFileV { name: parts[0], idx, added, removed };
        assert(r.files.drop_last() =~= n.files);
        assert(r.files.last() == f);
        assert(r.dirs == n.dirs);
    } else {
        let c = parts[0];
        let p = lower_dir(n.dirs, c) as int;
        lemma_lower_dir(n.dirs, c);
        let found = p < n.dirs.len() && n.dirs[p].name == c;
        let child = if found { n.dirs[p].node } else { empty_gnode() };
        lemma_ginsert_counts(child, parts.drop_first(), idx, added, removed);
        let d = GDirV { name: c, node: ginsert(child, parts.drop_first(), idx, added, removed) };
        assert(r.files == n.files);
        if found {
            assert(r.dirs == n.dirs.update(p, d));
            lemma_dir_counts_update(n.dirs, p, d);
            assert forall|v: (usize, u32, u32)| #[trigger] gcounts(r).count(v) == gcounts(n).insert((idx, added, removed)).count(v) by {
                assert(dir_counts(r.dirs).add(gcounts(child)).count(v) == dir_counts(n.dirs).add(gcounts(d.node)).count(v));
            }
        } else {
            assert(r.dirs == n.dirs.insert(p, d));
            lemma_dir_counts_insert(n.dirs, p, d);
            assert(gcounts(empty_gnode()) =~= Multiset::empty()) by {
                assert(file_counts(Seq::<GFileV>::empty()) =~= Multiset::empty());
                assert(dir_counts(Seq::<GDirV>::empty()) =~= Multiset::empty());
            }
        }
    }
}

/// Inserting a file anywhere in a list adds its index and counts.
proof fn lemma_file_counts_insert(s: Seq<GFileV>, p: int, x: GFileV)
    requires
        0 <= p <= s.len(),
    ensures
        file_counts(s.insert(p, x)) =~= file_counts(s).insert((x.idx, x.added, x.removed)),
    decreases s.len(),
{
    broadcast use vstd::multiset::group_multiset_axioms;
    let r = s.insert(p, x);
    if p == s.len() {
        assert(r.drop_last() =~= s);
    } else {
        lemma_file_counts_insert(s.drop_last(), p, x);
        assert(r.drop_last() =~= s.drop_last().insert(p, x));
        assert(r.last() == s.last());
    }
}

/// Sorting files by name keeps their indices and counts.
pub proof fn lemma_sort_keeps_counts(fs: Seq<GFileV>)
    ensures
        file_counts(sort_by_name(fs)) =~= file_counts(fs),
    decreases fs.len(),
{
    if fs.len() > 0 {
        lemma_sort_keeps_counts(fs.drop_last());
        let s = sort_by_name(fs.drop_last());
        lemma_ins_pos(s, fs.last());
        lemma_file_counts_insert(s, ins_pos(s, fs.last()) as int, fs.last());
    }
}

/// The file indices and counts of the leaves of a finished node.
pub open spec fn dnode_counts(n: DNodeV) -> Multiset<(usize, u32, u32)>
    decreases n,
{
    match n {
        DNodeV::Dir { children, .. } => dnodes_counts(children),
        DNodeV::File { idx, added, removed, .. } => Multiset::singleton((idx, added, removed)),
    }
}

pub open spec fn dnodes_counts(s: Seq<DNodeV>) -> Multiset<(usize, u32, u32)>
    decreases s,
{
    if s.len() == 0 {
        Multiset::empty()
    } else {
        dnodes_counts(s.subrange(0, s.len() - 1)).add(dnode_counts(s[s.len() - 1]))
    }
}

proof fn lemma_dnodes_counts_concat(a: Seq<DNodeV>, b: Seq<DNodeV>)
    ensures
        dnodes_counts(a + b) =~= dnodes_counts(a).add(dnodes_counts(b)),
    decreases b.len(),
{
    broadcast use vstd::multiset::group_multiset_axioms;
    if b.len() == 0 {
        assert(a + b =~= a);
    } else {
        let bp = b.subrange(0, b.len() - 1);
        lemma_dnodes_counts_concat(a, bp);
        assert((a + b).subrange(0, (a + b).len() - 1) =~= a + bp);
        assert((a + b)[(a + b).len() - 1] == b[b.len() - 1]);
    }
}

proof fn lemma_file_nodes_counts(fs: Seq<GFileV>, depth: nat)
    ensures
        dnodes_counts(fs.map_values(|f: GFileV| file_node(f, depth))) =~= file_counts(fs),
    decreases fs.len(),
{
    broadcast use vstd::multiset::group_multiset_axioms;
    if fs.len() > 0 {
        let m = fs.map_values(|f: GFileV| file_node(f, depth));
        lemma_file_nodes_counts(fs.drop_last(), depth);
        assert(m.subrange(0, m.len() - 1) =~= fs.drop_last().map_values(|f: GFileV| file_node(f, depth)));
        assert(dnode_counts(m[m.len() - 1]) == Multiset::singleton((fs.last().idx, fs.last().added, fs.last().removed)));
    } else {
        assert(fs.map_values(|f: GFileV| file_node(f, depth)) =~= Seq::<DNodeV>::empty());
    }
}

proof fn lemma_fold_g_counts(name: Seq<char>, full: Seq<char>, n: GNodeV)
    ensures
        gcounts(fold_g(name, full, n).2) =~= gcounts(n),
    decreases gsize(n),
{
    broadcast use vstd::multiset::group_multiset_axioms;
    if n.files.len() == 0 && n.dirs.len() == 1 {
        lemma_dsize_elem(n.dirs, 0);
        lemma_fold_g_counts(name.push('/') + n.dirs[0].name, full.push('/') + n.dirs[0].name, n.dirs[0].node);
        assert(n.dirs.subrange(0, 0) =~= Seq::<GDirV>::empty());
        assert(dir_counts(n.dirs.subrange(0, 0)) =~= Multiset::empty());
        assert(file_counts(n.files) =~= Multiset::empty());
    }
}

proof fn lemma_finish_counts(n: GNodeV, prefix: Seq<char>, depth: nat)
    ensures
        dnodes_counts(finish_spec(n, prefix, depth)) =~= gcounts(n),
    decreases gsize(n), 0nat,
{
    lemma_finish_dirs_counts(n.dirs, prefix, depth);
    lemma_dnodes_counts_concat(
        finish_dirs(n.dirs, prefix, depth),
        sort_by_name(n.files).map_values(|f: GFileV| file_node(f, depth)),
    );
    lemma_file_nodes_counts(sort_by_name(n.files), depth);
    lemma_sort_keeps_counts(n.files);
}

proof fn lemma_finish_dirs_counts(ds: Seq<GDirV>, prefix: Seq<char>, depth: nat)
    ensures
        dnodes_counts(finish_dirs(ds, prefix, depth)) =~= dir_counts(ds),
    decreases dsize(ds), 1nat,
{
    broadcast use vstd::multiset::group_multiset_axioms;
    if ds.len() > 0 {
        let d = ds[ds.len() - 1];
        let pre = ds.subrange(0, ds.len() - 1);
        lemma_dsize_elem(ds, ds.len() - 1);
        lemma_fold_g_size(d.name, join_key(prefix, d.name), d.node);
        let (name, full, cur) = fold_g(d.name, join_key(prefix, d.name), d.node);
        lemma_finish_dirs_counts(pre, prefix, depth);
        lemma_finish_counts(cur, full, depth + 1);
        lemma_fold_g_counts(d.name, join_key(prefix, d.name), d.node);
        let r = finish_dirs(ds, prefix, depth);
        let node = DNodeV::Dir { name, path: full, depth, children: finish_spec(cur, full, depth + 1) };
        assert(r == finish_dirs(pre, prefix, depth).push(node));
        assert(r.subrange(0, r.len() - 1) =~= finish_dirs(pre, prefix, depth));
        assert(dnode_counts(node) == dnodes_counts(finish_spec(cur, full, depth + 1)));
    }
}

/// The files of the diff that the grouped tree holds: each one whose path
/// has at least one component, once.
proof fn lemma_grouped_counts(files: Seq<FileV>)
    ensures
        gcounts(grouped_tree(files)) =~= named_counts(files),
    decreases files.len(),
{
    broadcast use vstd::multiset::group_multiset_axioms;
    if files.len() == 0 {
        assert(file_counts(Seq::<GFileV>::empty()) =~= Multiset::empty());
        assert(dir_counts(Seq::<GDirV>::empty()) =~= Multiset::empty());
    } else {
        lemma_grouped_counts(files.drop_last());
        let f = files.last();
        if components(f.path).len() > 0 {
            lemma_ginsert_counts(grouped_tree(files.drop_last()), components(f.path), (files.len() - 1) as usize, f.added, f.removed);
        }
    }
}

/// Each file of the diff whose path names something, with its index and its
/// added and removed counts.
pub open spec fn named_counts(files: Seq<FileV>) -> Multiset<(usize, u32, u32)>
    decreases files.len(),
{
    if files.len() == 0 {
        Multiset::empty()
    } else if components(files.last().path).len() > 0 {
        named_counts(files.drop_last()).insert(
            ((files.len() - 1) as usize, files.last().added, files.last().removed),
        )
    } else {
        named_counts(files.drop_last())
    }
}

proof fn lemma_named_counts_members(files: Seq<FileV>, t: (usize, u32, u32))
    requires
        files.len() <= usize::MAX,
        named_counts(files).count(t) > 0,
    ensures
        t.0 < files.len(),
        t.1 == files[t.0 as int].added,
        t.2 == files[t.0 as int].removed,
    decreases files.len(),
{
    broadcast use vstd::multiset::group_multiset_axioms;
    let n = (files.len() - 1) as usize;
    let me = (n, files.last().added, files.last().removed);
    if components(files.last().path).len() > 0 && t == me {
        assert(n == files.len() - 1);
    } else {
        if components(files.last().path).len() > 0 {
            assert(named_counts(files.drop_last()).count(t) > 0);
        }
        lemma_named_counts_members(files.drop_last(), t);
        assert(files.drop_last()[t.0 as int] == files[t.0 as int]);
    }
}

/// Every leaf of the finished tree shows the counts of the diff file it
/// names: the leaves' (index, added, removed) are exactly those of the files
/// whose paths name something, each once, so a leaf for file `i` carries
/// `files[i].added` and `files[i].removed`.
pub proof fn law_leaves_carry_file_counts(files: Seq<FileV>)
    ensures
        dnodes_counts(sorted_tree_of(files)) =~= named_counts(files),
        files.len() <= usize::MAX ==> forall|t: (usize, u32, u32)|
            #[trigger] dnodes_counts(sorted_tree_of(files)).count(t) > 0 ==> t.0 < files.len() && t.1
                == files[t.0 as int].added && t.2 == files[t.0 as int].removed,
{
    lemma_grouped_counts(files);
    lemma_finish_counts(grouped_tree(files), Seq::empty(), 0);
    if files.len() <= usize::MAX {
        assert forall|t: (usize, u32, u32)| #[trigger] dnodes_counts(sorted_tree_of(files)).count(t) > 0 implies t.0
            < files.len() && t.1 == files[t.0 as int].added && t.2 == files[t.0 as int].removed by {
            lemma_named_counts_members(files, t);
        }
    }
}

/// Every file whose path names something is exactly one leaf of the finished
/// tree, and no leaf names another file.
pub proof fn law_every_file_is_one_leaf(files: Seq<FileV>)
    ensures
        dnodes_files(sorted_tree_of(files)) =~= named_files(files),
{
    lemma_grouped_leaves(files);
    lemma_finish_files(grouped_tree(files), Seq::empty(), 0);
}

} // verus!
