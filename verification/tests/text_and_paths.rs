use git_review::ids::short_oid;
use git_review::model::ObjectId;
use git_review::paths::{extension_chars, file_icon, file_name_chars, path_components};
use git_review::qt_model::num;
use git_review::text::{decimal_string, ellipsize, html_escape, trim, trim_end, trim_newlines};
use git_review::dates::format_time;
use git_review::gutter::{gutter_sign_offset, gutter_text};
use git_review::render::{span_style, RSpan};
use git_review::settings::theme_exact;

fn s(cs: Vec<char>) -> String {
    cs.into_iter().collect()
}

#[test]
fn icons_follow_the_extension() {
    assert_eq!(file_icon("src/main.rs"), "\u{1f980}");
    assert_eq!(file_icon("tools/gen.py"), "\u{1f40d}");
    assert_eq!(file_icon("web/app.tsx"), "\u{1f4dc}");
    assert_eq!(file_icon("README.md"), "\u{1f4dd}");
    assert_eq!(file_icon("Cargo.toml"), "\u{2699}");
    assert_eq!(file_icon("logo.svg"), "\u{1f5bc}");
    assert_eq!(file_icon("run.sh"), "\u{1f4b2}");
    assert_eq!(file_icon("index.html"), "\u{1f310}");
    assert_eq!(file_icon("LICENSE"), "\u{1f4c4}");
    assert_eq!(file_icon("archive.tar.gz"), "\u{1f4c4}");
}

#[test]
fn a_leading_dot_is_no_extension() {
    assert_eq!(extension_chars(".bashrc"), None);
    assert_eq!(file_icon(".bashrc"), "\u{1f4c4}");
    assert_eq!(extension_chars("a/b.c/d").map(s), None);
    assert_eq!(extension_chars("x/y.rs").map(s), Some("rs".to_string()));
}

#[test]
fn file_names_and_components() {
    assert_eq!(file_name_chars("a/b/c.rs").map(s), Some("c.rs".to_string()));
    assert_eq!(file_name_chars("a/..").map(s), None);
    let parts: Vec<String> = path_components("/a//b/c.rs/").into_iter().map(s).collect();
    assert_eq!(parts, vec!["a", "b", "c.rs"]);
    assert!(path_components("").is_empty());
}

#[test]
fn trimming() {
    assert_eq!(trim("  hello world \n\t"), "hello world");
    assert_eq!(trim_end("@@ -1 +1 @@ fn main() \n"), "@@ -1 +1 @@ fn main()");
    assert_eq!(trim_newlines("code  \r\n\n"), "code  ");
    assert_eq!(trim("   "), "");
    let once = trim("\u{3000} x y \t");
    assert_eq!(once, "x y");
    assert_eq!(trim(&once), once);
}

#[test]
fn escaping_keeps_indentation() {
    assert_eq!(
        html_escape("a <b> & c\t"),
        "a&nbsp;&lt;b&gt;&nbsp;&amp;&nbsp;c&nbsp;&nbsp;&nbsp;&nbsp;"
    );
    assert_eq!(html_escape(""), "");
}

#[test]
fn ellipsizing() {
    assert_eq!(ellipsize("abcdef", 4), "abc\u{2026}");
    assert_eq!(ellipsize("abc", 3), "abc");
    assert_eq!(ellipsize("abc", 0), "\u{2026}");
}

#[test]
fn numbers() {
    assert_eq!(decimal_string(0), "0");
    assert_eq!(decimal_string(4096), "4096");
    assert_eq!(decimal_string(u32::MAX), "4294967295");
    assert_eq!(num(Some(17)), "17");
    assert_eq!(num(None), "");
}

#[test]
fn short_ids_are_seven_hex_digits() {
    let mut bytes = [0u8; 20];
    bytes[0] = 0xab;
    bytes[1] = 0xcd;
    bytes[2] = 0xef;
    bytes[3] = 0x01;
    bytes[19] = 0xff;
    let id = ObjectId { bytes };
    assert_eq!(short_oid(&id), "abcdef0");
    let full = id.hex();
    assert_eq!(full.len(), 40);
    assert!(full.starts_with("abcdef01"));
    assert!(full.ends_with("ff"));
}

#[test]
fn dates_are_utc_days() {
    assert_eq!(format_time(0), "1970-01-01");
    assert_eq!(format_time(86_399), "1970-01-01");
    assert_eq!(format_time(1_700_000_000), "2023-11-14");
    assert_eq!(format_time(-1), "1969-12-31");
    assert_eq!(format_time(i64::MAX), "????-??-??");
    assert_eq!(format_time(951_782_400), "2000-02-29");
    assert_eq!(format_time(4_107_542_400), "2100-03-01");
    assert_eq!(format_time(253_402_207_200), "9999-12-30");
    assert_eq!(format_time(253_402_207_201), "????-??-??");
    assert_eq!(format_time(-30_610_310_400), "0999-12-31");
    assert_eq!(format_time(-62_167_219_200), "0000-01-01");
    assert_eq!(format_time(-62_184_499_200), "-001-06-15");
    assert_eq!(format_time(-101_103_465_600), "-1234-02-28");
    assert_eq!(format_time(-377_705_023_201), "-9999-01-02");
    assert_eq!(format_time(-377_705_023_202), "????-??-??");
}

#[test]
fn gutters_align_numbers() {
    use_gutter();
}

fn use_gutter() {
    assert_eq!(gutter_text(true, Some(7), Some(12345), '+'), "   7 12345 + ");
    assert_eq!(gutter_text(true, None, Some(3), '-'), "        3 - ");
    assert_eq!(gutter_text(false, Some(1), Some(1), ' '), "  ");
    assert_eq!(gutter_sign_offset(true), 10);
    assert_eq!(gutter_sign_offset(false), 0);
    let g = gutter_text(true, Some(10), None, '+');
    assert_eq!(g.chars().nth(10), Some('+'));
}

#[test]
fn span_styles_and_exact_themes() {
    let sp = RSpan { color: "rgb(1,2,3)".to_string(), bold: true, italic: true, text: "x".to_string() };
    assert_eq!(span_style(&sp), "color:rgb(1,2,3);font-weight:600;font-style:italic;");
    let plain = RSpan { color: "red".to_string(), bold: false, italic: false, text: String::new() };
    assert_eq!(span_style(&plain), "color:red;");
    assert_eq!(theme_exact(Some("dark")), Some(true));
    assert_eq!(theme_exact(Some("Dark")), None);
    assert_eq!(theme_exact(Some("light")), Some(false));
    assert_eq!(theme_exact(None), None);
}

#[test]
fn the_sign_stands_at_the_offset_for_four_digit_numbers() {
    for (old, new) in [(Some(9999), Some(9999)), (None, Some(1)), (Some(123), None), (None, None)] {
        let g = gutter_text(true, old, new, '-');
        assert_eq!(g.chars().count(), 12);
        assert_eq!(g.chars().nth(gutter_sign_offset(true) as usize), Some('-'));
    }
    assert_eq!(gutter_text(false, Some(9999), None, '+').chars().nth(gutter_sign_offset(false) as usize), Some('+'));
}

#[test]
fn a_file_icon_depends_on_its_name_alone() {
    for name in ["main.rs", "setup.py", "README.md", "Makefile", ".gitignore", "a.b.json"] {
        for dir in ["", "src", "deep/er", "x.rs"] {
            let full = format!("{dir}/{name}");
            assert_eq!(file_icon(&full), file_icon(name), "{full}");
        }
    }
}

fn unescape(h: &str) -> String {
    let mut out = String::new();
    let mut rest = h;
    while !rest.is_empty() {
        if let Some(r) = rest.strip_prefix("&amp;") {
            out.push('&');
            rest = r;
        } else if let Some(r) = rest.strip_prefix("&lt;") {
            out.push('<');
            rest = r;
        } else if let Some(r) = rest.strip_prefix("&gt;") {
            out.push('>');
            rest = r;
        } else if let Some(r) = rest.strip_prefix("&nbsp;") {
            out.push(' ');
            rest = r;
        } else {
            let c = rest.chars().next().unwrap();
            out.push(c);
            rest = &rest[c.len_utf8()..];
        }
    }
    out
}

#[test]
fn escaped_text_decodes_back_with_tabs_as_spaces() {
    for s in ["a <b> & c\t", "&amp; already", "\t\tif x < y {", "", "plain", "&nbsp;"] {
        assert_eq!(unescape(&html_escape(s)), s.replace('\t', "    "), "{s}");
    }
}

#[test]
fn every_ampersand_of_escaped_text_starts_an_entity() {
    for s in ["a & b", "&&", "\t<&>", "&amp", "x\ty", ""] {
        let h = html_escape(s);
        for (i, c) in h.char_indices() {
            if c == '&' {
                let rest = &h[i..];
                assert!(
                    ["&amp;", "&lt;", "&gt;", "&nbsp;"].iter().any(|e| rest.starts_with(e)),
                    "{h} at {i}"
                );
            }
        }
    }
}
