use git_review::gtk_tree::{file_tree, split_pieces, FileNode};
use git_review::keyed_tree::{less_chars, toggle_folder, tree_rows_keyed};
use git_review::nested_tree::{nested_rows, RowEntry};
use git_review::lower_tree::lower_rows;
use git_review::parent_tree::{node_path, qt_tree, toggle_row};
use git_review::qt_model::FileEntry;
use git_review::sorted_tree::{build_sorted_tree, sorted_files, DNode, GFile};
use git_review::model::{ChangeKind, FileDiff};
use git_review::tree::{build_tree, recompute_visibility, toggle_node, visible_rows, TreeRow};

fn file(path: &str, added: u32, removed: u32) -> FileDiff {
    FileDiff {
        path: path.to_string(),
        old_path: None,
        kind: ChangeKind::Modified,
        added,
        removed,
        hunks: Vec::new(),
        binary: false,
    }
}

fn sample() -> Vec<FileDiff> {
    vec![
        file("src/ui/app.rs", 3, 1),
        file("src/ui/theme.rs", 1, 0),
        file("README.md", 2, 2),
        file("deep/only/child/x.py", 5, 0),
        file("src/git.rs", 0, 4),
    ]
}

fn names(rows: &[TreeRow]) -> Vec<(usize, String)> {
    rows.iter().map(|r| (r.depth, r.name.clone())).collect()
}

#[test]
fn tree_keeps_insertion_order_and_folds_chains() {
    let rows = build_tree(&sample());
    assert_eq!(
        names(&rows),
        vec![
            (0, "src".to_string()),
            (1, "ui".to_string()),
            (2, "app.rs".to_string()),
            (2, "theme.rs".to_string()),
            (1, "git.rs".to_string()),
            (0, "README.md".to_string()),
            (0, "deep/only/child".to_string()),
            (1, "x.py".to_string()),
        ]
    );
    assert!(rows.iter().all(|r| r.visible));
    assert!(rows.iter().filter(|r| r.is_dir).all(|r| r.expanded && r.file_index == -1));
    assert_eq!(rows[0].icon, "\u{1f4c1}");
    assert_eq!(rows[2].file_index, 0);
    assert_eq!((rows[2].added, rows[2].removed), (3, 1));
    assert_eq!(rows[2].icon, "\u{1f980}");
    assert_eq!(rows[7].file_index, 3);
    assert_eq!(rows[7].icon, "\u{1f40d}");
}

#[test]
fn collapsing_a_folder_hides_exactly_its_descendants() {
    let mut rows = build_tree(&sample());
    toggle_node(&mut rows, 1); // "ui"
    let vis: Vec<bool> = rows.iter().map(|r| r.visible).collect();
    assert_eq!(vis, vec![true, true, false, false, true, true, true, true]);
    assert!(!rows[1].expanded);

    toggle_node(&mut rows, 0); // "src"
    let vis: Vec<bool> = rows.iter().map(|r| r.visible).collect();
    assert_eq!(vis, vec![true, false, false, false, false, true, true, true]);

    // expanding "src" again keeps "ui" collapsed
    toggle_node(&mut rows, 0);
    let vis: Vec<bool> = rows.iter().map(|r| r.visible).collect();
    assert_eq!(vis, vec![true, true, false, false, true, true, true, true]);
}

#[test]
fn toggling_twice_restores_the_tree() {
    let fresh = build_tree(&sample());
    let mut rows = build_tree(&sample());
    toggle_node(&mut rows, 6);
    toggle_node(&mut rows, 6);
    for (a, b) in rows.iter().zip(fresh.iter()) {
        assert_eq!((a.visible, a.expanded), (b.visible, b.expanded));
    }
}

#[test]
fn toggling_a_file_or_past_the_end_changes_nothing() {
    let fresh = build_tree(&sample());
    let mut rows = build_tree(&sample());
    toggle_node(&mut rows, 2);
    toggle_node(&mut rows, 99);
    for (a, b) in rows.iter().zip(fresh.iter()) {
        assert_eq!((a.visible, a.expanded), (b.visible, b.expanded));
    }
    let mut again = build_tree(&sample());
    recompute_visibility(&mut again);
    assert!(again.iter().all(|r| r.visible));
}

#[test]
fn shown_rows_carry_folder_indices() {
    let mut rows = build_tree(&sample());
    toggle_node(&mut rows, 1);
    let shown = visible_rows(&rows);
    assert_eq!(shown.len(), 6);
    assert_eq!(shown[0].file_index, 0);
    assert_eq!(shown[1].file_index, 1);
    assert_eq!(shown[2].name, "git.rs");
    assert_eq!(shown[2].file_index, 4);
    assert_eq!(shown[4].name, "deep/only/child");
    assert_eq!(shown[4].file_index, 6);
}

#[test]
fn a_file_where_a_folder_should_be_keeps_both() {
    let rows = build_tree(&vec![file("a", 1, 1), file("a/b.rs", 1, 1)]);
    assert_eq!(names(&rows), vec![(0, "a".to_string()), (0, "a".to_string()), (1, "b.rs".to_string())]);
    assert!(!rows[0].is_dir);
    assert_eq!(rows[0].file_index, 0);
    assert!(rows[1].is_dir);
    assert_eq!(rows[2].file_index, 1);
}

#[test]
fn keyed_tree_sorts_and_skips_collapsed_folders() {
    let rows = tree_rows_keyed(&sample(), &Vec::new());
    let shown: Vec<(usize, Option<usize>, String)> =
        rows.iter().map(|r| (r.depth, r.file, r.name.clone())).collect();
    assert_eq!(
        shown,
        vec![
            (0, Some(2), "README.md".to_string()),
            (0, None, "deep/only/child/".to_string()),
            (1, Some(3), "x.py".to_string()),
            (0, None, "src/".to_string()),
            (1, Some(4), "git.rs".to_string()),
            (1, None, "ui/".to_string()),
            (2, Some(0), "app.rs".to_string()),
            (2, Some(1), "theme.rs".to_string()),
        ]
    );
    assert_eq!(rows[1].key, "deep/only/child");
    assert_eq!(rows[5].key, "src/ui");
    assert!(rows[0].key.is_empty());

    let mut collapsed = Vec::new();
    toggle_folder(&mut collapsed, "src/ui");
    assert_eq!(collapsed, vec!["src/ui".to_string()]);
    let rows = tree_rows_keyed(&sample(), &collapsed);
    assert_eq!(rows.len(), 6);
    assert!(!rows[5].expanded);
    toggle_folder(&mut collapsed, "src/ui");
    assert!(collapsed.is_empty());
}

#[test]
fn string_order_is_by_code_point() {
    let c = |s: &str| s.chars().collect::<Vec<char>>();
    assert!(less_chars(&c("README.md"), &c("deep")));
    assert!(less_chars(&c("ab"), &c("abc")));
    assert!(!less_chars(&c("abc"), &c("abc")));
    assert!(!less_chars(&c("b"), &c("a")));
    assert!(less_chars(&c(""), &c("a")));
}

#[test]
fn nested_tree_rows_follow_diff_order() {
    let rows = nested_rows(&sample(), &Vec::new());
    let shown: Vec<(usize, String)> = rows
        .iter()
        .map(|r| match &r.entry {
            RowEntry::Folder { key, name } => (r.depth, format!("dir {key} {name}")),
            RowEntry::File { name, index, added, removed } => (r.depth, format!("file {name} {index} +{added} -{removed}")),
        })
        .collect();
    assert_eq!(
        shown,
        vec![
            (0, "dir src src".to_string()),
            (1, "dir src/ui ui".to_string()),
            (2, "file app.rs 0 +3 -1".to_string()),
            (2, "file theme.rs 1 +1 -0".to_string()),
            (1, "file git.rs 4 +0 -4".to_string()),
            (0, "file README.md 2 +2 -2".to_string()),
            (0, "dir deep/only/child deep/only/child".to_string()),
            (1, "file x.py 3 +5 -0".to_string()),
        ]
    );
    let rows = nested_rows(&sample(), &vec!["src".to_string()]);
    assert_eq!(rows.len(), 4);
}

#[test]
fn nested_tree_keeps_a_file_and_a_folder_of_one_name() {
    let rows = nested_rows(&vec![file("a", 1, 1), file("a/b.rs", 1, 1)], &Vec::new());
    assert_eq!(rows.len(), 3);
    assert!(matches!(&rows[0].entry, RowEntry::File { name, .. } if name == "a"));
    assert!(matches!(&rows[1].entry, RowEntry::Folder { name, .. } if name == "a"));
}

fn describe(nodes: &[DNode], out: &mut Vec<String>) {
    for n in nodes {
        match n {
            DNode::Dir { name, path, depth, children } => {
                out.push(format!("{depth} dir {name} {path}"));
                describe(children, out);
            }
            DNode::File { icon, name, idx, depth, .. } => out.push(format!("{depth} file {name} {idx} {icon}")),
        }
    }
}

#[test]
fn sorted_tree_lists_folders_then_files_by_name() {
    let mut files = sample();
    files.push(file("src/ui/a.rs", 0, 0));
    files.push(file("b.txt", 0, 0));
    let tree = build_sorted_tree(&files);
    let mut out = Vec::new();
    describe(&tree, &mut out);
    assert_eq!(
        out,
        vec![
            "0 dir deep/only/child deep/only/child",
            "1 file x.py 3 \u{1f40d}",
            "0 dir src src",
            "1 dir ui src/ui",
            "2 file a.rs 5 \u{1f980}",
            "2 file app.rs 0 \u{1f980}",
            "2 file theme.rs 1 \u{1f980}",
            "1 file git.rs 4 \u{1f980}",
            "0 file README.md 2 \u{1f4dd}",
            "0 file b.txt 6 \u{1f4c4}",
        ]
    );
}

#[test]
fn sorting_files_is_stable() {
    let f = |n: &str, i: usize| GFile { name: n.to_string(), idx: i, added: 0, removed: 0 };
    let out = sorted_files(&vec![f("b", 0), f("a", 1), f("b", 2), f("A", 3), f("a", 4)]);
    let got: Vec<(String, usize)> = out.iter().map(|g| (g.name.clone(), g.idx)).collect();
    assert_eq!(
        got,
        vec![
            ("A".to_string(), 3),
            ("a".to_string(), 1),
            ("a".to_string(), 4),
            ("b".to_string(), 0),
            ("b".to_string(), 2),
        ]
    );
}

fn entry(path: &str, item_index: i32) -> FileEntry {
    FileEntry { icon: "i".to_string(), path: path.to_string(), added: 1, removed: 2, item_index }
}

#[test]
fn parent_tree_sorts_folders_first_and_links_parents() {
    let entries = vec![
        entry("zeta.txt", 0),
        entry("src/b.rs", 1),
        entry("src/a.rs", 4),
        entry("deep/one/two/f.md", 9),
        entry("Alpha", 12),
    ];
    let rows = qt_tree(&entries, &Vec::new());
    let shown: Vec<(i32, bool, String, i32, i32)> =
        rows.iter().map(|r| (r.depth, r.is_dir, r.name.clone(), r.parent, r.item_index)).collect();
    assert_eq!(
        shown,
        vec![
            (0, true, "deep/one/two".to_string(), -1, -1),
            (1, false, "f.md".to_string(), 0, 9),
            (0, true, "src".to_string(), -1, -1),
            (1, false, "a.rs".to_string(), 2, 4),
            (1, false, "b.rs".to_string(), 2, 1),
            (0, false, "Alpha".to_string(), -1, 12),
            (0, false, "zeta.txt".to_string(), -1, 0),
        ]
    );
    assert!(rows.iter().all(|r| r.visible));
    assert_eq!(node_path(&rows, 3), "src/a.rs");
    assert_eq!(node_path(&rows, 1), "deep/one/two/f.md");
}

#[test]
fn parent_tree_toggles_remember_paths() {
    let entries = vec![entry("src/ui/a.rs", 0), entry("src/b.rs", 1)];
    let mut collapsed = Vec::new();
    let mut rows = qt_tree(&entries, &collapsed);
    // src, ui, a.rs, b.rs
    assert_eq!(rows.len(), 4);
    toggle_row(&mut rows, &mut collapsed, 1);
    assert_eq!(collapsed, vec!["src/ui".to_string()]);
    let vis: Vec<bool> = rows.iter().map(|r| r.visible).collect();
    assert_eq!(vis, vec![true, true, false, true]);
    toggle_row(&mut rows, &mut collapsed, 0);
    let vis: Vec<bool> = rows.iter().map(|r| r.visible).collect();
    assert_eq!(vis, vec![true, false, false, false]);
    assert_eq!(collapsed.len(), 2);
    // a rebuild keeps the collapsed folders closed
    let again = qt_tree(&entries, &collapsed);
    assert!(!again[0].expanded && !again[1].expanded);
    let vis: Vec<bool> = again.iter().map(|r| r.visible).collect();
    assert_eq!(vis, vec![true, false, false, false]);
    toggle_row(&mut rows, &mut collapsed, 0);
    toggle_row(&mut rows, &mut collapsed, 1);
    assert!(collapsed.is_empty());
    assert!(rows.iter().all(|r| r.visible));
    toggle_row(&mut rows, &mut collapsed, 3);
    toggle_row(&mut rows, &mut collapsed, 42);
    assert!(collapsed.is_empty());
}

fn qt_rows_state(rows: &[git_review::parent_tree::QRow]) -> Vec<(bool, bool, String, i32)> {
    rows.iter().map(|r| (r.expanded, r.visible, r.name.clone(), r.parent)).collect()
}

#[test]
fn parent_tree_toggle_twice_restores() {
    let entries = vec![entry("src/ui/a.rs", 0), entry("src/b.rs", 1), entry("c.md", 2)];
    let mut collapsed = vec!["src/ui".to_string()];
    let mut rows = qt_tree(&entries, &collapsed);
    let before = qt_rows_state(&rows);
    for i in [0usize, 1, 3, 4] {
        toggle_row(&mut rows, &mut collapsed, i);
        toggle_row(&mut rows, &mut collapsed, i);
        assert_eq!(qt_rows_state(&rows), before);
        assert_eq!(collapsed, vec!["src/ui".to_string()]);
    }
}

#[test]
fn lower_tree_sorts_names_ignoring_case() {
    let mut files = sample();
    files.push(file("b.txt", 0, 0));
    files.push(file("src/UI2/Z.rs", 0, 0));
    let rows = lower_rows(&files, &Vec::new());
    let shown: Vec<(usize, String, Option<usize>, String)> =
        rows.iter().map(|r| (r.depth, r.name.clone(), r.file, r.key.clone())).collect();
    assert_eq!(
        shown,
        vec![
            (0, "deep/only/child".to_string(), None, "deep/only/child".to_string()),
            (1, "x.py".to_string(), Some(3), String::new()),
            (0, "src".to_string(), None, "src".to_string()),
            (1, "ui".to_string(), None, "src/ui".to_string()),
            (2, "app.rs".to_string(), Some(0), String::new()),
            (2, "theme.rs".to_string(), Some(1), String::new()),
            (1, "UI2".to_string(), None, "src/UI2".to_string()),
            (2, "Z.rs".to_string(), Some(6), String::new()),
            (1, "git.rs".to_string(), Some(4), String::new()),
            (0, "b.txt".to_string(), Some(5), String::new()),
            (0, "README.md".to_string(), Some(2), String::new()),
        ]
    );
    let rows = lower_rows(&files, &vec!["src/ui".to_string(), "deep/only/child".to_string()]);
    assert_eq!(rows.len(), 8);
    assert!(!rows[0].expanded);
}

fn describe_nodes(nodes: &[FileNode], depth: usize, out: &mut Vec<String>) {
    for n in nodes {
        match n {
            FileNode::Dir { name, children } => {
                out.push(format!("{depth} dir {name}"));
                describe_nodes(children, depth + 1, out);
            }
            FileNode::File { name, index, added, removed, icon } => {
                out.push(format!("{depth} file {name} {index} +{added} -{removed} {icon}"))
            }
        }
    }
}

#[test]
fn split_pieces_keeps_empty_pieces() {
    let got = split_pieces("a//b/");
    let want: Vec<Vec<char>> = vec![vec!['a'], vec![], vec!['b'], vec![]];
    assert_eq!(got, want);
    assert_eq!(split_pieces(""), vec![Vec::<char>::new()]);
}

#[test]
fn file_tree_groups_folders_by_name_and_keeps_file_order() {
    let mut files = sample();
    files.push(file("src/ui/a.rs", 7, 8));
    files.push(file("a//b.rs", 0, 0));
    files.push(file("x.rs/", 1, 1));
    let tree = file_tree(&files);
    let mut out = Vec::new();
    describe_nodes(&tree, 0, &mut out);
    assert_eq!(
        out,
        vec![
            "0 dir a/",
            "1 file b.rs 6 +0 -0 \u{1f980}",
            "0 dir deep/only/child",
            "1 file x.py 3 +5 -0 \u{1f40d}",
            "0 dir src",
            "1 dir ui",
            "2 file app.rs 0 +3 -1 \u{1f980}",
            "2 file theme.rs 1 +1 -0 \u{1f980}",
            "2 file a.rs 5 +7 -8 \u{1f980}",
            "1 file git.rs 4 +0 -4 \u{1f980}",
            "0 dir x.rs",
            "1 file  7 +1 -1 \u{1f980}",
            "0 file README.md 2 +2 -2 \u{1f4dd}",
        ]
    );
}

#[test]
fn file_tree_of_no_files_is_empty() {
    assert!(file_tree(&Vec::new()).is_empty());
}

fn leaves(nodes: &[FileNode], out: &mut Vec<usize>) {
    for n in nodes {
        match n {
            FileNode::Dir { children, .. } => leaves(children, out),
            FileNode::File { index, .. } => out.push(*index),
        }
    }
}

fn dleaves(nodes: &[DNode], out: &mut Vec<usize>) {
    for n in nodes {
        match n {
            DNode::Dir { children, .. } => dleaves(children, out),
            DNode::File { idx, .. } => out.push(*idx),
        }
    }
}

#[test]
fn every_file_is_one_leaf_of_each_tree() {
    let mut files = sample();
    files.push(file("src/ui/a.rs", 0, 0));
    files.push(file("", 0, 0));
    let mut gtk = Vec::new();
    leaves(&file_tree(&files), &mut gtk);
    gtk.sort();
    assert_eq!(gtk, vec![0, 1, 2, 3, 4, 5, 6]);
    let mut sorted = Vec::new();
    dleaves(&build_sorted_tree(&files), &mut sorted);
    sorted.sort();
    // the file with an empty path names nothing and gets no leaf
    assert_eq!(sorted, vec![0, 1, 2, 3, 4, 5]);
}

fn sorted_indices(mut v: Vec<usize>) -> Vec<usize> {
    v.sort();
    v
}

#[test]
fn every_tree_has_one_file_row_per_file() {
    let mut files = sample();
    files.push(file("src/ui/b.rs", 0, 0));
    files.push(file("", 0, 0));
    let want = vec![0, 1, 2, 3, 4, 5];

    let slint: Vec<usize> = build_tree(&files)
        .iter()
        .filter(|r| !r.is_dir)
        .map(|r| r.file_index as usize)
        .collect();
    assert_eq!(sorted_indices(slint), want);

    let keyed: Vec<usize> = tree_rows_keyed(&files, &Vec::new()).iter().filter_map(|r| r.file).collect();
    assert_eq!(sorted_indices(keyed), want);

    let lower: Vec<usize> = lower_rows(&files, &Vec::new()).iter().filter_map(|r| r.file).collect();
    assert_eq!(sorted_indices(lower), want);

    let nested: Vec<usize> = nested_rows(&files, &Vec::new())
        .iter()
        .filter_map(|r| match &r.entry {
            RowEntry::File { index, .. } => Some(*index),
            _ => None,
        })
        .collect();
    assert_eq!(sorted_indices(nested), want);

    let entries: Vec<FileEntry> =
        files.iter().enumerate().map(|(i, f)| entry(&f.path, 10 * i as i32)).collect();
    let mut items: Vec<i32> = qt_tree(&entries, &vec!["src".to_string()])
        .iter()
        .filter(|r| !r.is_dir)
        .map(|r| r.item_index)
        .collect();
    items.sort();
    assert_eq!(items, vec![0, 10, 20, 30, 40, 50]);
}

#[test]
fn a_file_that_is_also_a_folder_keeps_its_own_row_in_the_keyed_tree() {
    let rows = tree_rows_keyed(&vec![file("a", 1, 1), file("a/b.rs", 1, 1)], &Vec::new());
    let shown: Vec<(Option<usize>, String)> = rows.iter().map(|r| (r.file, r.name.clone())).collect();
    assert_eq!(
        shown,
        vec![(Some(0), "a".to_string()), (None, "a/".to_string()), (Some(1), "b.rs".to_string())]
    );
    // two files with one path both keep a row
    let rows = tree_rows_keyed(&vec![file("x.rs", 1, 1), file("x.rs", 2, 2)], &Vec::new());
    let files: Vec<Option<usize>> = rows.iter().map(|r| r.file).collect();
    assert_eq!(files, vec![Some(0), Some(1)]);
    // a folder is not folded into a subfolder that is also a file
    let rows = tree_rows_keyed(&vec![file("a/b", 1, 1), file("a/b/c", 1, 1)], &Vec::new());
    let shown: Vec<(usize, Option<usize>, String)> = rows.iter().map(|r| (r.depth, r.file, r.name.clone())).collect();
    assert_eq!(
        shown,
        vec![
            (0, None, "a/".to_string()),
            (1, Some(0), "b".to_string()),
            (1, None, "b/".to_string()),
            (2, Some(1), "c".to_string()),
        ]
    );
}

#[test]
fn a_folder_row_is_collapsed_by_the_path_its_row_gives() {
    let entries = vec![entry("src/ui/a.rs", 0), entry("src/b.rs", 1), entry("deep/one/two/f.md", 2)];
    let rows = qt_tree(&entries, &Vec::new());
    for i in 0..rows.len() {
        if rows[i].is_dir {
            let key = node_path(&rows, i);
            let again = qt_tree(&entries, &vec![key.clone()]);
            for j in 0..again.len() {
                if again[j].is_dir {
                    assert_eq!(again[j].expanded, j != i, "{key} at {j}");
                }
            }
        }
    }
}

#[test]
fn a_path_without_components_adds_no_row_and_folders_are_shared() {
    let files = vec![file("", 1, 1), file("//", 1, 1), file("a/x.rs", 1, 1), file("a/y.rs", 1, 1)];
    let rows = lower_rows(&files, &Vec::new());
    let shown: Vec<(usize, String, Option<usize>)> = rows.iter().map(|r| (r.depth, r.name.clone(), r.file)).collect();
    assert_eq!(
        shown,
        vec![(0, "a".to_string(), None), (1, "x.rs".to_string(), Some(2)), (1, "y.rs".to_string(), Some(3))]
    );
}
