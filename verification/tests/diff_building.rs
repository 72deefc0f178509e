use git_review::collect::{collect, DeltaStatus, DiffCollector, DiffEvent};
use git_review::commits::{commit_list, commit_message, range_set, show_set, working_set, CommitFacts};
use git_review::model::{diff_or_error, ChangeKind, FileDiff, LineKind, ObjectId};
use git_review::rows::{flatten_diff, DiffRow};

fn file_event(new_path: &str, old_path: &str, status: DeltaStatus) -> DiffEvent {
    DiffEvent::File {
        new_path: Some(new_path.to_string()),
        old_path: Some(old_path.to_string()),
        status,
        binary: false,
    }
}

fn line(origin: char, old: Option<u32>, new: Option<u32>, text: &str) -> DiffEvent {
    DiffEvent::Line { origin, old_lineno: old, new_lineno: new, content: text.to_string() }
}

fn sample_events() -> Vec<DiffEvent> {
    vec![
        file_event("src/lib.rs", "src/lib.rs", DeltaStatus::Modified),
        DiffEvent::Hunk { header: Some("@@ -1,2 +1,2 @@ fn main() \n".to_string()) },
        line(' ', Some(1), Some(1), "fn main() {\n"),
        line('-', Some(2), None, "    old();\n"),
        line('+', None, Some(2), "    new();\r\n"),
        line('+', None, Some(3), "    more();\n"),
        file_event("docs/new.md", "docs/old.md", DeltaStatus::Renamed),
        file_event("logo.png", "logo.png", DeltaStatus::Added),
        DiffEvent::Binary,
    ]
}

#[test]
fn callbacks_fold_into_files_and_counts() {
    let (files, added, removed) = collect(&sample_events());
    assert_eq!(files.len(), 3);
    assert_eq!((added, removed), (2, 1));

    let f = &files[0];
    assert_eq!(f.path, "src/lib.rs");
    assert_eq!(f.old_path, None);
    assert_eq!(f.kind, ChangeKind::Modified);
    assert_eq!((f.added, f.removed), (2, 1));
    assert_eq!(f.hunks.len(), 1);
    assert_eq!(f.hunks[0].header, "@@ -1,2 +1,2 @@ fn main()");
    let lines = &f.hunks[0].lines;
    assert_eq!(lines.len(), 4);
    assert_eq!(lines[0].kind, LineKind::Context);
    assert_eq!((lines[0].old_no, lines[0].new_no), (Some(1), Some(1)));
    assert_eq!(lines[0].text, "fn main() {");
    assert_eq!(lines[1].kind, LineKind::Removed);
    assert_eq!((lines[1].old_no, lines[1].new_no), (Some(2), None));
    assert_eq!(lines[2].kind, LineKind::Added);
    assert_eq!((lines[2].old_no, lines[2].new_no), (None, Some(2)));
    assert_eq!(lines[2].text, "    new();");

    let r = &files[1];
    assert_eq!(r.kind, ChangeKind::Renamed);
    assert_eq!(r.old_path.as_deref(), Some("docs/old.md"));
    assert_eq!(r.kind.letter(), 'R');

    let b = &files[2];
    assert!(b.binary);
    assert_eq!(b.kind.letter(), 'A');
    assert!(b.hunks.is_empty());
}

#[test]
fn per_file_counts_add_up_to_the_totals() {
    let (files, added, removed) = collect(&sample_events());
    let sa: u32 = files.iter().map(|f| f.added).sum();
    let sr: u32 = files.iter().map(|f| f.removed).sum();
    assert_eq!((sa, sr), (added, removed));
}

#[test]
fn collector_methods_match_the_event_walk() {
    let mut c = DiffCollector::new();
    c.on_file(Some("a.txt"), None, DeltaStatus::Untracked, false);
    c.on_line('+', None, Some(1), "orphan\n");
    c.on_hunk(None);
    c.on_line('x', Some(4), Some(5), "ctx");
    let (files, added, removed) = c.finish();
    assert_eq!((added, removed), (1, 0));
    assert_eq!(files[0].kind, ChangeKind::Added);
    assert_eq!(files[0].added, 1);
    assert_eq!(files[0].hunks.len(), 1);
    assert_eq!(files[0].hunks[0].header, "");
    assert_eq!(files[0].hunks[0].lines.len(), 1);
    assert_eq!(files[0].hunks[0].lines[0].kind, LineKind::Context);
}

#[test]
fn a_delta_without_paths_is_unknown() {
    let (files, _, _) = collect(&vec![DiffEvent::File {
        new_path: None,
        old_path: None,
        status: DeltaStatus::Deleted,
        binary: false,
    }]);
    assert_eq!(files[0].path, "<unknown>");
    assert_eq!(files[0].kind.letter(), 'D');
}

#[test]
fn kinds_map_to_letters() {
    assert_eq!(ChangeKind::Added.letter(), 'A');
    assert_eq!(ChangeKind::Deleted.letter(), 'D');
    assert_eq!(ChangeKind::Modified.letter(), 'M');
    assert_eq!(ChangeKind::Renamed.letter(), 'R');
}

fn facts(first: u8, summary: Option<&str>) -> CommitFacts {
    let mut bytes = [0u8; 20];
    bytes[0] = first;
    bytes[1] = 0x23;
    bytes[2] = 0x45;
    bytes[3] = 0x67;
    CommitFacts {
        oid: ObjectId { bytes },
        summary: summary.map(|s| s.to_string()),
        body: Some("\n  Longer text.\n\n".to_string()),
        author_name: None,
        author_email: Some("a@b.c".to_string()),
        time: 0,
    }
}

#[test]
fn commit_rows_and_messages() {
    let rows = commit_list(&vec![facts(0x01, Some("  Fix it  ")), facts(0x89, None)]);
    assert_eq!(rows.len(), 3);
    assert!(rows[0].is_working_tree());
    assert_eq!(rows[0].title, "Uncommitted changes (working tree)");
    assert_eq!(rows[1].short, "0123456");
    assert_eq!(rows[1].title, "Fix it");
    assert_eq!(rows[1].author, "unknown");
    assert_eq!(rows[1].date, "1970-01-01");
    assert_eq!(rows[2].title, "(no message)");

    let m = commit_message(&facts(0x01, Some("Fix it")));
    assert_eq!(m.author, "unknown <a@b.c>");
    assert_eq!(m.body, "Longer text.");
    assert_eq!(m.title, "Fix it");
}

#[test]
fn summaries_of_the_three_views() {
    let f = facts(0x01, Some("x"));
    let counted = |path: &str, added: u32, removed: u32| FileDiff {
        path: path.to_string(),
        old_path: None,
        kind: ChangeKind::Modified,
        added,
        removed,
        hunks: Vec::new(),
        binary: false,
    };
    let d = show_set(&f, vec![counted("a", 1, 4), counted("b", 2, 0)], 3, 4);
    assert_eq!(d.summary, "git show 0123456");
    assert!(d.message.is_some());
    assert_eq!((d.added, d.removed), (3, 4));
    let g = facts(0x89, None);
    let r = range_set(&f.oid, &g.oid, Vec::new(), 0, 0);
    assert_eq!(r.summary, "git diff 0123456 8923456");
    assert!(r.message.is_none());
    let w = working_set(Vec::new(), 0, 0);
    assert_eq!(w.summary, "working tree (uncommitted changes)");
}

#[test]
fn flattened_rows_point_at_file_headers() {
    let (files, added, removed) = collect(&sample_events());
    let d = show_set(&facts(0x01, Some("x")), files, added, removed);
    let (rows, headers) = flatten_diff(&d);
    assert_eq!(headers.len(), 3);
    assert!(matches!(rows[0], DiffRow::Message(_)));
    assert!(matches!(rows[1], DiffRow::Gap));
    for (i, h) in headers.iter().enumerate() {
        match &rows[*h] {
            DiffRow::FileHeader(j) => assert_eq!(*j, i),
            _ => panic!("header index does not point at a file header"),
        }
    }
    // message, gap, header, hunk, 4 lines, gap, header, gap, header, binary, gap
    assert_eq!(rows.len(), 14);
    assert!(matches!(rows[3], DiffRow::HunkHeader(_)));
    assert!(matches!(rows[12], DiffRow::Binary));
}

#[test]
fn a_diff_that_could_not_be_read_shows_as_an_error() {
    let e = diff_or_error(None);
    assert_eq!(e.summary, "error");
    assert!(e.message.is_none());
    assert!(e.files.is_empty());
    assert_eq!((e.added, e.removed), (0, 0));
    let (files, added, removed) = collect(&sample_events());
    let d = diff_or_error(Some(working_set(files, added, removed)));
    assert_eq!(d.summary, "working tree (uncommitted changes)");
    assert_eq!(d.files.len(), 3);
}
