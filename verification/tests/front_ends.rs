use git_review::collect::{collect, DeltaStatus, DiffEvent};
use git_review::commits::{show_set, workdir_name, CommitFacts};
use git_review::highlight::Highlighter;
use git_review::ids::parse_oid;
use git_review::model::{empty_diff, DiffSet, LineKind, ObjectId};
use git_review::palette::{channels, Palette};
use git_review::panel_rows::{join_lines, panel_rows, RowKind};
use git_review::selection::{diff_query, DiffQuery, Showing};
use git_review::settings::{dark_from_env, theme_override, theme_override_trimmed, Settings};
use git_review::slint_items::list_items;
use git_review::web_model::{diff_request, hex_color, kind_str, web_diff};
use git_review::widgets_model::{change_letter, ignore_ws_from, line_kind_code, widgets_diff};
use git_review::model::ChangeKind;

fn sample() -> DiffSet {
    let events = vec![
        DiffEvent::File {
            new_path: Some("lib/new.rs".to_string()),
            old_path: Some("lib/old.rs".to_string()),
            status: DeltaStatus::Renamed,
            binary: false,
        },
        DiffEvent::Hunk { header: Some("@@ -3 +3 @@\n".to_string()) },
        DiffEvent::Line { origin: '-', old_lineno: Some(3), new_lineno: None, content: "a\n".to_string() },
        DiffEvent::Line { origin: '+', old_lineno: None, new_lineno: Some(3), content: "b\n".to_string() },
        DiffEvent::Line { origin: ' ', old_lineno: Some(4), new_lineno: Some(4), content: "\n".to_string() },
        DiffEvent::File {
            new_path: Some("pic.png".to_string()),
            old_path: Some("pic.png".to_string()),
            status: DeltaStatus::Modified,
            binary: true,
        },
    ];
    let (files, added, removed) = collect(&events);
    let facts = CommitFacts {
        oid: ObjectId { bytes: [0x0f; 20] },
        summary: Some("Rename".to_string()),
        body: Some("line one\nline two".to_string()),
        author_name: Some("Bo".to_string()),
        author_email: Some("bo@x".to_string()),
        time: 86_400,
    };
    show_set(&facts, files, added, removed)
}

#[test]
fn oids_parse_from_hex() {
    let id = parse_oid("0123456789abcdefABCDEF0123456789abcdef01").unwrap();
    assert_eq!(id.bytes[0], 0x01);
    assert_eq!(id.bytes[8], 0xab);
    assert_eq!(id.bytes[5], 0xab);
    assert_eq!(id.bytes[11], 0x01);
    assert_eq!(id.bytes[19], 0x01);
    let short = parse_oid("abc").unwrap();
    assert_eq!(&short.bytes[..3], &[0xab, 0xc0, 0x00]);
    assert_eq!(parse_oid("").unwrap_err(), "unable to parse OID - too short");
    assert_eq!(parse_oid(&"a".repeat(41)).unwrap_err(), "unable to parse OID - too long");
    assert_eq!(parse_oid("xyz").unwrap_err(), "unable to parse OID - contains invalid characters");
}

#[test]
fn hex_of_an_id_parses_back() {
    let mut bytes = [0u8; 20];
    for (i, b) in bytes.iter_mut().enumerate() {
        *b = (i as u8).wrapping_mul(37);
    }
    let id = ObjectId { bytes };
    assert_eq!(parse_oid(&id.hex()).unwrap().bytes, bytes);
}

#[test]
fn diff_requests() {
    assert!(matches!(diff_request("working", None, None), Ok(Showing::Working)));
    let hex = "0f0f0f0f0f0f0f0f0f0f0f0f0f0f0f0f0f0f0f0f";
    match diff_request("commit", Some(hex), None) {
        Ok(Showing::Commit(o)) => assert_eq!(o.bytes, [0x0f; 20]),
        _ => panic!("expected a commit"),
    }
    assert_eq!(diff_request("commit", None, None).err().unwrap(), "missing commit oid");
    assert_eq!(diff_request("range", None, Some(hex)).err().unwrap(), "missing from oid");
    assert_eq!(diff_request("range", Some(hex), None).err().unwrap(), "missing to oid");
    assert_eq!(
        diff_request("range", Some("zz"), None).err().unwrap(),
        "unable to parse OID - contains invalid characters"
    );
    assert!(matches!(diff_request("range", Some(hex), Some("abc")), Ok(Showing::Range(_, _))));
    assert_eq!(diff_request("blame", None, None).err().unwrap(), "unknown diff mode: blame");
}

#[test]
fn web_model_tags_lines_and_colours() {
    assert_eq!(kind_str(LineKind::Added), "added");
    assert_eq!(kind_str(LineKind::Context), "context");
    assert_eq!(hex_color((0x57, 0x60, 0x6a)), "#57606a");
    let hl = Highlighter::new();
    let w = web_diff(&hl, sample());
    assert_eq!(w.summary, "git show 0f0f0f0");
    assert_eq!(w.message.as_ref().unwrap().body, "line one\nline two");
    let f = &w.files[0];
    assert_eq!(f.kind, 'R');
    assert_eq!(f.old_path.as_deref(), Some("lib/old.rs"));
    assert_eq!(f.lines.len(), 4);
    assert!(f.lines[0].is_hunk_header);
    assert_eq!(f.lines[0].spans[0].color, "#57606a");
    assert_eq!(f.lines[1].kind, "removed");
    assert_eq!(f.lines[2].kind, "added");
    let text: String = f.lines[2].spans.iter().map(|s| s.text.clone()).collect();
    assert_eq!(text, "b");
    assert!(f.lines[2].spans.iter().all(|s| s.color.len() == 7 && s.color.starts_with('#')));
    assert!(w.files[1].lines.is_empty());
}

#[test]
fn widget_model_uses_codes() {
    assert_eq!(line_kind_code(LineKind::Removed), 2);
    assert_eq!(change_letter(ChangeKind::Deleted), 'D');
    assert!(ignore_ws_from(0));
    assert!(!ignore_ws_from(1));
    let hl = Highlighter::new();
    let w = widgets_diff(&hl, &sample());
    assert!(w.has_message);
    assert_eq!(w.files[0].old_path, "lib/old.rs");
    assert_eq!(w.files[1].old_path, "");
    let h = &w.files[0].hunks[0];
    assert_eq!(h.header, "@@ -3 +3 @@");
    assert_eq!((h.lines[0].kind, h.lines[0].old_no, h.lines[0].new_no), (2, 3, -1));
    assert_eq!((h.lines[1].kind, h.lines[1].old_no, h.lines[1].new_no), (1, -1, 3));
    assert!(h.lines[2].spans.is_empty());
}

#[test]
fn panel_rows_colour_code_lines() {
    assert_eq!(join_lines("a\nb\n"), "a  b  ");
    let hl = Highlighter::new();
    let rows = panel_rows(&sample(), &hl);
    assert_eq!(rows.len(), 8);
    assert_eq!(rows[0].kind, RowKind::CommitMsg);
    assert_eq!(rows[0].subtitle, "Bo <bo@x>  \u{b7}  1970-01-02  \u{b7}  0f0f0f0");
    assert_eq!(rows[0].spans[0].text, "line one  line two");
    assert_eq!(rows[1].kind, RowKind::FileHeader);
    assert_eq!(rows[1].title, "lib/old.rs  \u{2192}  lib/new.rs  [R]");
    assert_eq!(rows[1].subtitle, "+1  \u{2212}1");
    assert_eq!(rows[2].kind, RowKind::HunkHeader);
    assert_eq!(rows[3].bg, Some((0xff, 0xeb, 0xe9)));
    assert_eq!(rows[3].sign, '-');
    assert_eq!(rows[4].mark, Some((0xab, 0xf2, 0xbc)));
    assert_eq!(rows[5].bg, None);
    assert!(rows[5].spans.is_empty());
    assert_eq!(rows[6].title, "pic.png  [M]");
    assert_eq!(rows[7].kind, RowKind::Binary);
    let headers: Vec<Option<usize>> =
        rows.iter().filter(|r| r.kind == RowKind::FileHeader).map(|r| r.file_index).collect();
    assert_eq!(headers, vec![Some(0), Some(1)]);
}

#[test]
fn list_items_fill_empty_lines() {
    let hl = Highlighter::new();
    let items = list_items(&sample(), &hl);
    assert_eq!(items.len(), 8);
    assert_eq!(items[0].kind, 2);
    assert_eq!(items[0].sub, "Bo <bo@x> \u{b7} 1970-01-02 \u{b7} 0f0f0f0");
    assert_eq!(items[1].kind, 1);
    assert_eq!(items[1].path, "lib/old.rs  \u{2192}  lib/new.rs");
    assert_eq!(items[2].code_kind, 3);
    assert_eq!(items[2].text, "@@ -3 +3 @@");
    assert_eq!((items[3].old_no.as_str(), items[3].sign.as_str()), ("3", "-"));
    assert_eq!(items[5].spans.len(), 1);
    assert_eq!(items[5].spans[0].text, " ");
    assert_eq!(items[5].spans[0].color, (0x1f, 0x23, 0x28));
    assert_eq!(items[7].sign, "Binary file not shown");
}

#[test]
fn settings_and_theme() {
    let mut s = Settings::new();
    assert!(!s.word_wrap && s.show_space && s.line_numbers && s.font == 12);
    assert!(!s.ignore_whitespace());
    s.toggle_space();
    assert!(s.ignore_whitespace());
    s.toggle_wrap();
    assert!(s.word_wrap && s.line_numbers);
    s.toggle_line_numbers();
    assert!(s.word_wrap && !s.line_numbers && !s.show_space);
    s.toggle_wrap();
    s.toggle_line_numbers();
    assert!(!s.word_wrap && s.line_numbers);
    for _ in 0..40 {
        s.font_inc();
    }
    assert_eq!(s.font, 28);
    for _ in 0..40 {
        s.font_dec();
    }
    assert_eq!(s.font, 8);
    assert_eq!(theme_override("Dark"), Some(true));
    assert_eq!(theme_override("LIGHT"), Some(false));
    assert_eq!(theme_override(" dark"), None);
    assert_eq!(theme_override(""), None);
}

#[test]
fn repository_names() {
    assert_eq!(workdir_name(Some("/home/me/project/")), "project");
    assert_eq!(workdir_name(Some("/")), "repository");
    assert_eq!(workdir_name(None), "repository");
}

#[test]
fn dark_scheme_from_the_environment() {
    assert!(dark_from_env(Some("yes"), None, None));
    assert!(!dark_from_env(Some("no"), Some("Adwaita:dark"), None));
    assert!(dark_from_env(None, Some("Adwaita:DARK"), None));
    assert!(dark_from_env(None, None, Some("qt5ct-dark")));
    assert!(!dark_from_env(None, Some("Adwaita"), Some("gtk3")));
    assert!(!dark_from_env(None, None, None));
}

#[test]
fn palettes_are_github_light_and_dark() {
    let l = Palette::light();
    assert!(!l.dark);
    assert_eq!(
        (l.bg, l.panel, l.border, l.text, l.muted, l.accent, l.sel),
        (0xffffff, 0xf6f8fa, 0xd0d7de, 0x1f2328, 0x656d76, 0x0969da, 0xddf4ff)
    );
    assert_eq!((l.add_bg, l.add_mark, l.add_fg), (0xe6ffec, 0xabf2bc, 0x1a7f37));
    assert_eq!((l.del_bg, l.del_mark, l.del_fg), (0xffebe9, 0xff8182, 0xcf222e));
    let d = Palette::dark();
    assert!(d.dark);
    assert_eq!(
        (d.bg, d.panel, d.border, d.text, d.muted, d.accent, d.sel),
        (0x0d1117, 0x161b22, 0x30363d, 0xe6edf3, 0x8b949e, 0x2f81f7, 0x1f6feb)
    );
    assert_eq!((d.add_bg, d.add_mark, d.add_fg), (0x12261e, 0x2ea043, 0x3fb950));
    assert_eq!((d.del_bg, d.del_mark, d.del_fg), (0x25171c, 0xf85149, 0xf85149));
}

#[test]
fn palette_choice_follows_override_then_desktop() {
    assert_eq!(Palette::detect(Some("dark"), Some(false)), Palette::dark());
    assert_eq!(Palette::detect(Some("light"), Some(true)), Palette::light());
    assert_eq!(Palette::detect(Some("Dark"), Some(false)), Palette::light());
    assert_eq!(Palette::detect(None, Some(true)), Palette::dark());
    assert_eq!(Palette::detect(None, Some(false)), Palette::light());
    // headless: no desktop preference means light
    assert_eq!(Palette::detect(None, None), Palette::light());
}

#[test]
fn colour_channels() {
    assert_eq!(channels(0x0969da), (0x09, 0x69, 0xda));
    assert_eq!(channels(0xffffff), (255, 255, 255));
    assert_eq!(channels(0x12_1a7f37), (0x1a, 0x7f, 0x37));
}

#[test]
fn the_empty_diff_shows_nothing() {
    let d = empty_diff();
    assert!(d.message.is_none());
    assert!(d.files.is_empty());
    assert_eq!((d.added, d.removed), (0, 0));
    assert!(d.summary.is_empty());
}

#[test]
fn the_trimmed_theme_override_ignores_surrounding_whitespace() {
    assert_eq!(theme_override_trimmed(" dark "), Some(true));
    assert_eq!(theme_override_trimmed("\tLight\n"), Some(false));
    assert_eq!(theme_override_trimmed("Dark"), Some(true));
    assert_eq!(theme_override_trimmed("da rk"), None);
    assert_eq!(theme_override_trimmed("   "), None);
    assert_eq!(theme_override_trimmed(""), None);
}

#[test]
fn the_diff_query_follows_the_view_and_the_whitespace_toggle() {
    let a = ObjectId { bytes: [1u8; 20] };
    let b = ObjectId { bytes: [2u8; 20] };
    let mut s = Settings::new();
    assert!(matches!(diff_query(&Showing::Working, &s), DiffQuery::Working { ignore_whitespace: false }));
    s.toggle_space();
    assert!(matches!(diff_query(&Showing::Working, &s), DiffQuery::Working { ignore_whitespace: true }));
    match diff_query(&Showing::Commit(a), &s) {
        DiffQuery::Commit { oid, ignore_whitespace } => {
            assert_eq!(oid.bytes, [1u8; 20]);
            assert!(ignore_whitespace);
        }
        other => panic!("{other:?}"),
    }
    s.toggle_space();
    match diff_query(&Showing::Range(a, b), &s) {
        DiffQuery::Range { from, to, ignore_whitespace } => {
            assert_eq!(from.bytes, [1u8; 20]);
            assert_eq!(to.bytes, [2u8; 20]);
            assert!(!ignore_whitespace);
        }
        other => panic!("{other:?}"),
    }
}
