use git_review::collect::{collect, DeltaStatus, DiffEvent};
use git_review::commits::{show_set, CommitFacts};
use git_review::highlight::Highlighter;
use git_review::model::{CommitInfo, ObjectId};
use git_review::qt_model::{commit_entries, diff_items, markup_of};
use git_review::render::RenderDiff;
use git_review::selection::{initial_showing, row_is_current, Selection, Showing};
use git_review::highlight::Span;

fn id(b: u8) -> ObjectId {
    ObjectId { bytes: [b; 20] }
}

fn info(oid: Option<ObjectId>) -> CommitInfo {
    CommitInfo {
        oid,
        short: "s".to_string(),
        author: "a".to_string(),
        date: "d".to_string(),
        title: "t".to_string(),
    }
}

#[test]
fn the_first_commit_is_shown_first() {
    let rows = vec![info(None), info(Some(id(1))), info(Some(id(2)))];
    match initial_showing(&rows) {
        Showing::Commit(o) => assert_eq!(o.bytes, [1; 20]),
        _ => panic!("expected the first commit"),
    }
    assert!(matches!(initial_showing(&vec![info(None)]), Showing::Working));
}

#[test]
fn both_endpoints_select_a_range() {
    let mut sel = Selection::new(Showing::Working);
    assert!(!sel.set_to(id(2)));
    assert!(matches!(sel.showing, Showing::Working));
    assert!(sel.set_from(id(1)));
    match sel.showing {
        Showing::Range(a, b) => assert_eq!((a.bytes[0], b.bytes[0]), (1, 2)),
        _ => panic!("expected a range"),
    }
    assert!(sel.is_from(&Some(id(1))));
    assert!(sel.is_to(&Some(id(2))));
    assert!(!sel.is_from(&None));
    assert!(sel.open_row(None));
    assert!(matches!(sel.showing, Showing::Working));
    assert!(!sel.select(Showing::Working));
    assert!(sel.set_to(id(3)));
    match sel.showing {
        Showing::Range(a, b) => assert_eq!((a.bytes[0], b.bytes[0]), (1, 3)),
        _ => panic!("expected a range"),
    }
}

#[test]
fn current_rows() {
    assert!(row_is_current(&Showing::Working, &None));
    assert!(!row_is_current(&Showing::Working, &Some(id(1))));
    assert!(row_is_current(&Showing::Commit(id(1)), &Some(id(1))));
    assert!(!row_is_current(&Showing::Range(id(1), id(2)), &Some(id(1))));

    let mut sel = Selection::new(Showing::Commit(id(1)));
    sel.set_from(id(2));
    let es = commit_entries(&vec![info(None), info(Some(id(1))), info(Some(id(2)))], &sel);
    assert_eq!(
        es.iter().map(|e| (e.current, e.is_from, e.is_to, e.working)).collect::<Vec<_>>(),
        vec![(false, false, false, true), (true, false, false, false), (false, true, false, false)]
    );
}

fn sample_diff() -> git_review::model::DiffSet {
    let events = vec![
        DiffEvent::File {
            new_path: Some("src/a.rs".to_string()),
            old_path: Some("src/a.rs".to_string()),
            status: DeltaStatus::Modified,
            binary: false,
        },
        DiffEvent::Hunk { header: Some("@@ -1 +1 @@ <T>\n".to_string()) },
        DiffEvent::Line { origin: '-', old_lineno: Some(1), new_lineno: None, content: "let x = 1;\n".to_string() },
        DiffEvent::Line { origin: '+', old_lineno: None, new_lineno: Some(1), content: "let x = 2;\n".to_string() },
        DiffEvent::Line { origin: ' ', old_lineno: Some(2), new_lineno: Some(2), content: "\n".to_string() },
        DiffEvent::File {
            new_path: Some("img.png".to_string()),
            old_path: Some("img.png".to_string()),
            status: DeltaStatus::Added,
            binary: true,
        },
    ];
    let (files, added, removed) = collect(&events);
    let facts = CommitFacts {
        oid: id(0xab),
        summary: Some("Title".to_string()),
        body: None,
        author_name: Some("Ann".to_string()),
        author_email: Some("ann@x".to_string()),
        time: 0,
    };
    show_set(&facts, files, added, removed)
}

#[test]
fn rendered_diff_keeps_the_text_of_every_line() {
    let hl = Highlighter::new();
    let r = RenderDiff::build(sample_diff(), &hl);
    assert_eq!(r.summary, "git show abababa");
    assert_eq!((r.added, r.removed), (1, 1));
    assert!(r.error.is_none());
    let m = r.message.as_ref().unwrap();
    assert_eq!(m.author, "Ann <ann@x>");
    assert_eq!(r.files.len(), 2);
    let f = &r.files[0];
    assert_eq!(f.header_label, "src/a.rs");
    assert_eq!(f.kind_letter, 'M');
    assert_eq!(f.lines.len(), 4);
    assert!(f.lines[0].is_hunk_header);
    assert_eq!(f.lines[0].spans[0].color, "rgb(101,109,118)");
    let text = |i: usize| f.lines[i].spans.iter().map(|s| s.text.clone()).collect::<String>();
    assert_eq!(text(0), "@@ -1 +1 @@ <T>");
    assert_eq!(text(1), "let x = 1;");
    assert_eq!(text(2), "let x = 2;");
    assert!(f.lines[3].spans.is_empty());
    assert!(f.lines[1..].iter().all(|l| l.spans.iter().all(|s| s.color.starts_with("rgb("))));
    assert!(r.files[1].binary);
    assert!(r.files[1].lines.is_empty());

    let e = RenderDiff::error("boom".to_string());
    assert_eq!(e.error.as_deref(), Some("boom"));
    assert!(RenderDiff::empty().files.is_empty());
}

#[test]
fn rich_text_items_and_file_list() {
    let hl = Highlighter::new();
    let (items, files) = diff_items(&sample_diff(), &hl);
    assert_eq!(items.len(), 6);
    assert_eq!(items[0].kind, 2);
    assert_eq!(items[0].title, "Title");
    assert_eq!(items[0].sub, "Ann <ann@x> \u{b7} 1970-01-01 \u{b7} abababa");
    assert_eq!(items[1].code_kind, 3);
    assert_eq!(items[1].html, "<span style=\"color:#0969da\">@@&nbsp;-1&nbsp;+1&nbsp;@@&nbsp;&lt;T&gt;</span>");
    assert_eq!((items[2].code_kind, items[2].old_no.as_str(), items[2].new_no.as_str(), items[2].sign.as_str()), (2, "1", "", "-"));
    assert_eq!((items[3].code_kind, items[3].old_no.as_str(), items[3].new_no.as_str(), items[3].sign.as_str()), (1, "", "1", "+"));
    assert_eq!((items[4].code_kind, items[4].sign.as_str()), (0, " "));
    assert_eq!(items[4].html, "&nbsp;");
    assert!(items[2].html.starts_with("<span style=\"color:#"));
    assert_eq!(items[5].html, "<i>Binary file not shown</i>");
    assert_eq!(files.len(), 2);
    assert_eq!((files[0].item_index, files[1].item_index), (1, 5));
    for f in &files {
        assert_eq!(items[f.item_index as usize].file, f.path);
    }
    assert_eq!(files[0].icon, "\u{1f980}");
    assert_eq!(files[1].path, "img.png");
}

#[test]
fn span_markup_escapes_and_colours() {
    let spans = vec![
        Span { color: (0x12, 0xab, 0x00), bold: false, italic: false, text: "a<b".to_string() },
        Span { color: (0, 0, 0), bold: true, italic: false, text: " ".to_string() },
    ];
    assert_eq!(
        markup_of(&spans),
        "<span style=\"color:#12ab00\">a&lt;b</span><span style=\"color:#000000\">&nbsp;</span>"
    );
    assert_eq!(markup_of(&Vec::new()), "&nbsp;");
}

#[test]
fn the_syntax_follows_the_extension_then_the_file_name() {
    let hl = Highlighter::new();
    assert_eq!(hl.syntax_for("src/main.rs").name, "Rust");
    assert_eq!(hl.syntax_for("scripts/setup.py").name, "Python");
    assert_eq!(hl.syntax_for("build/Makefile").name, "Makefile");
    assert_eq!(hl.syntax_for("notes.nosuchextension").name, "Plain Text");
    assert_eq!(hl.syntax_for("").name, "Plain Text");
}

#[test]
fn highlighted_lines_keep_their_text_and_take_the_theme_colours() {
    let light = Highlighter::new();
    let dark = Highlighter::with_dark();
    let line = "fn main() { let x = 1; }";
    let a = light.line(light.syntax_for("a.rs"), line);
    let b = dark.line(dark.syntax_for("a.rs"), line);
    assert!(a.len() > 1);
    assert_eq!(a.iter().map(|s| s.text.as_str()).collect::<String>(), line);
    assert_eq!(b.iter().map(|s| s.text.as_str()).collect::<String>(), line);
    let colours_a: Vec<(u8, u8, u8)> = a.iter().map(|s| s.color).collect();
    let colours_b: Vec<(u8, u8, u8)> = b.iter().map(|s| s.color).collect();
    assert_ne!(colours_a, colours_b);
    assert!(light.line(light.syntax_for("a.rs"), "").is_empty());
    let kw = a.iter().find(|s| s.text == "fn").expect("a span for the keyword");
    let plain = a.iter().find(|s| s.text.contains("main")).expect("a span for the name");
    assert_ne!(kw.color, plain.color);
}
