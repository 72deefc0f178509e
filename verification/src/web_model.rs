//! The model a web front end receives: lines tagged `context`, `added` or
//! `removed`, spans coloured `#rrggbb`, and the request that names which diff
//! to show (`working`, `commit` with one id, `range` with two).

use vstd::prelude::*;
use crate::highlight::{from_set, spans_text, spans_v, syntax_for_spec, Highlighter, Span};
use crate::ids::{oid_parse_error, oid_text_ok, parse_oid, parsed_bytes};
use crate::model::{files_view, letter_of, opt_message, opt_text, CommitMessage, DiffSet, FileDiff, FileV, HunkV, LineKind, LineV, MessageV};
use crate::selection::{Showing, ShowingV};
use crate::text::{hex2, owned, push_char, push_hex2};

verus! {

pub open spec fn kind_text(k: LineKind) -> Seq<char> {
    match k {
        LineKind::Context => "context"@,
        LineKind::Added => "added"@,
        LineKind::Removed => "removed"@,
    }
}

/// The tag of a line kind.
pub fn kind_str(k: LineKind) -> (s: &'static str)
    ensures
        s@ == kind_text(k),
{
    match k {
        LineKind::Context => "context",
        LineKind::Added => "added",
        LineKind::Removed => "removed",
    }
}

pub open spec fn hex_rgb(c: (u8, u8, u8)) -> Seq<char> {
    seq!['#'] + hex2(c.0) + hex2(c.1) + hex2(c.2)
}

/// A colour as CSS `#rrggbb`.
pub fn hex_color(c: (u8, u8, u8)) -> (s: String)
    ensures
        s@ == hex_rgb(c),
{
    let mut s = String::new();
    push_char(&mut s, '#');
    push_hex2(&mut s, c.0);
    push_hex2(&mut s, c.1);
    push_hex2(&mut s, c.2);
    s
}

pub struct WebSpan {
    pub text: String,
    pub color: String,
    pub bold: bool,
    pub italic: bool,
}

pub struct WebLine {
    pub kind: &'static str,
    pub old_no: Option<u32>,
    pub new_no: Option<u32>,
    pub is_hunk_header: bool,
    pub spans: Vec<WebSpan>,
}

pub struct WebFile {
    pub path: String,
    pub old_path: Option<String>,
    pub kind: char,
    pub added: u32,
    pub removed: u32,
    pub binary: bool,
    pub lines: Vec<WebLine>,
}

pub struct WebMessage {
    pub short: String,
    pub author: String,
    pub date: String,
    pub title: String,
    pub body: String,
}

pub struct WebDiff {
    pub message: Option<WebMessage>,
    pub files: Vec<WebFile>,
    pub added: u32,
    pub removed: u32,
    pub summary: String,
}

pub open spec fn wspans_text(spans: Seq<WebSpan>) -> Seq<char>
    decreases spans.len(),
{
    if spans.len() == 0 {
        Seq::empty()
    } else {
        wspans_text(spans.drop_last()) + spans.last().text@
    }
}

/// A line as its tag, numbers, header flag and text.
pub struct WebLineV {
    pub kind: Seq<char>,
    pub old_no: Option<u32>,
    pub new_no: Option<u32>,
    pub is_hunk_header: bool,
    pub text: Seq<char>,
}

impl View for WebLine {
    type V = WebLineV;

    open spec fn view(&self) -> WebLineV {
        WebLineV {
            kind: self.kind@,
            old_no: self.old_no,
            new_no: self.new_no,
            is_hunk_header: self.is_hunk_header,
            text: wspans_text(self.spans@),
        }
    }
}

pub open spec fn wlines_view(lines: Seq<WebLine>) -> Seq<WebLineV> {
    lines.map_values(|l: WebLine| l@)
}

/// A hunk: its header as a context line, then its lines.
pub open spec fn hunk_wlines(h: HunkV) -> Seq<WebLineV> {
    seq![WebLineV { kind: "context"@, old_no: None, new_no: None, is_hunk_header: true, text: h.header }]
        + h.lines.map_values(
        |l: LineV| WebLineV { kind: kind_text(l.kind), old_no: l.old_no, new_no: l.new_no, is_hunk_header: false, text: l.text },
    )
}

pub open spec fn hunks_wlines(hunks: Seq<HunkV>) -> Seq<WebLineV>
    decreases hunks.len(),
{
    if hunks.len() == 0 {
        Seq::empty()
    } else {
        hunks_wlines(hunks.drop_last()) + hunk_wlines(hunks.last())
    }
}

/// A file: its paths, letter, counts and flag, and (unless binary) its lines,
/// each hunk header one plain span in the muted grey and each code line the
/// spans the highlighter gives for it as a line of this file.
pub open spec fn wfile_matches(w: WebFile, f: FileV, hl: Highlighter) -> bool {
    &&& w.path@ == f.path
    &&& opt_text(w.old_path) == f.old_path
    &&& w.kind == letter_of(f.kind)
    &&& w.added == f.added
    &&& w.removed == f.removed
    &&& w.binary == f.binary
    &&& wlines_view(w.lines@) == if f.binary {
        Seq::empty()
    } else {
        hunks_wlines(f.hunks)
    }
    &&& forall|i: int|
        0 <= i < w.lines@.len() && (#[trigger] w.lines@[i]).is_hunk_header ==> w.lines@[i].spans@.len()
            == 1 && w.lines@[i].spans@[0].color@ == "#57606a"@ && !w.lines@[i].spans@[0].bold
            && !w.lines@[i].spans@[0].italic
    &&& forall|i: int|
        0 <= i < w.lines@.len() && !(#[trigger] w.lines@[i]).is_hunk_header ==> code_spans_ok(hl, f.path, w.lines@[i].spans@)
}

/// Spans that carry what the highlighter gives for their own text as a line
/// of the file at `path`.
pub open spec fn code_spans_ok(hl: Highlighter, path: Seq<char>, spans: Seq<WebSpan>) -> bool {
    exists|hs: Seq<Span>| #[trigger] spans_v(hs) == hl.code_spans(path, wspans_text(spans)) && web_copies(spans, hs)
}

/// Web spans that carry highlighter spans one for one: the colour as
/// `#rrggbb`, the flags and the text.
pub open spec fn web_copies(out: Seq<WebSpan>, hs: Seq<Span>) -> bool {
    &&& out.len() == hs.len()
    &&& forall|i: int|
        0 <= i < out.len() ==> (#[trigger] out[i]).color@ == hex_rgb(hs[i].color) && out[i].bold == hs[i].bold
            && out[i].italic == hs[i].italic && out[i].text@ == hs[i].text@
}

pub open spec fn wmessage_matches(w: WebMessage, m: MessageV) -> bool {
    &&& w.short@ == m.short
    &&& w.author@ == m.author
    &&& w.date@ == m.date
    &&& w.title@ == m.title
    &&& w.body@ == m.body
}

fn web_spans(spans: Vec<Span>) -> (out: Vec<WebSpan>)
    ensures
        wspans_text(out@) == spans_text(spans@),
        web_copies(out@, spans@),
{
    let mut out: Vec<WebSpan> = Vec::new();
    for i in 0..spans.len()
        invariant
            out@.len() == i,
            wspans_text(out@) == spans_text(spans@.take(i as int)),
            forall|j: int|
                0 <= j < i ==> (#[trigger] out@[j]).color@ == hex_rgb(spans@[j].color) && out@[j].bold == spans@[j].bold
                    && out@[j].italic == spans@[j].italic && out@[j].text@ == spans@[j].text@,
    {
        let s = &spans[i];
        let ghost before = out@;
        out.push(WebSpan { text: s.text.clone(), color: hex_color(s.color), bold: s.bold, italic: s.italic });
        proof {
            assert(out@.drop_last() =~= before);
            assert(spans@.take(i + 1).drop_last() =~= spans@.take(i as int));
            assert(spans@.take(i + 1).last() == spans@[i as int]);
        }
    }
    assert(spans@.take(spans@.len() as int) =~= spans@);
    out
}

fn header_line(header: &String) -> (l: WebLine)
    ensures
        l@ == (WebLineV { kind: "context"@, old_no: None, new_no: None, is_hunk_header: true, text: header@ }),
        l.spans@.len() == 1,
        l.spans@[0].color@ == "#57606a"@,
        !l.spans@[0].bold,
        !l.spans@[0].italic,
{
    let mut spans: Vec<WebSpan> = Vec::new();
    spans.push(WebSpan { text: header.clone(), color: hex_color((0x57, 0x60, 0x6a)), bold: false, italic: false });
    proof {
        reveal_strlit("#57606a");
        assert(hex_rgb((0x57u8, 0x60u8, 0x6au8)) =~= "#57606a"@);
        assert(spans@.drop_last() =~= Seq::<WebSpan>::empty());
        assert(wspans_text(spans@) == wspans_text(spans@.drop_last()) + spans@.last().text@);
        assert(wspans_text(spans@) =~= header@);
    }
    WebLine { kind: "context", old_no: None, new_no: None, is_hunk_header: true, spans }
}

fn web_file(f: &FileDiff, hl: &Highlighter) -> (w: WebFile)
    ensures
        wfile_matches(w, f@, *hl),
{
    let mut lines: Vec<WebLine> = Vec::new();
    if !f.binary {
        let syntax = hl.syntax_for(f.path.as_str());
        let ghost hv = f@.hunks;
        for h in 0..f.hunks.len()
            invariant
                hv == f@.hunks,
                wlines_view(lines@) == hunks_wlines(hv.take(h as int)),
                forall|i: int|
                    0 <= i < lines@.len() && (#[trigger] lines@[i]).is_hunk_header ==> lines@[i].spans@.len()
                        == 1 && lines@[i].spans@[0].color@ == "#57606a"@ && !lines@[i].spans@[0].bold
                        && !lines@[i].spans@[0].italic,
                forall|i: int| 0 <= i < lines@.len() && !(#[trigger] lines@[i]).is_hunk_header ==> code_spans_ok(*hl, f@.path, lines@[i].spans@),
                *syntax == syntax_for_spec(hl.syntax_set(), f@.path),
                from_set(hl.syntax_set(), *syntax),
        {
            let hunk = &f.hunks[h];
            let ghost start = wlines_view(lines@);
            let ghost hr = hunk_wlines(hunk@);
            let hl_line = header_line(&hunk.header);
            lines.push(hl_line);
            proof {
                assert(wlines_view(lines@) =~= start + hr.take(1));
            }
            let ghost lv = hunk@.lines;
            for k in 0..hunk.lines.len()
                invariant
                    lv == hunk@.lines,
                    hr == hunk_wlines(hunk@),
                    wlines_view(lines@) == start + hr.take(k + 1),
                    forall|i: int|
                        0 <= i < lines@.len() && (#[trigger] lines@[i]).is_hunk_header ==> lines@[i].spans@.len()
                            == 1 && lines@[i].spans@[0].color@ == "#57606a"@ && !lines@[i].spans@[0].bold
                            && !lines@[i].spans@[0].italic,
                    forall|i: int| 0 <= i < lines@.len() && !(#[trigger] lines@[i]).is_hunk_header ==> code_spans_ok(*hl, f@.path, lines@[i].spans@),
                    *syntax == syntax_for_spec(hl.syntax_set(), f@.path),
                    from_set(hl.syntax_set(), *syntax),
            {
                let line = &hunk.lines[k];
                let highlighted = hl.line(syntax, line.text.as_str());
                let ghost hsv = highlighted@;
                let spans = web_spans(highlighted);
                assert(spans_v(hsv) == hl.code_spans(f@.path, wspans_text(spans@)) && web_copies(spans@, hsv));
                assert(code_spans_ok(*hl, f@.path, spans@));
                let ghost b2 = wlines_view(lines@);
                let ghost b2_lines = lines@;
                let w = WebLine { kind: kind_str(line.kind), old_no: line.old_no, new_no: line.new_no, is_hunk_header: false, spans };
                lines.push(w);
                proof {
                    assert(lv[k as int] == line@);
                    assert(hr.take(k + 2) =~= hr.take(k + 1).push(hr[k + 1]));
                    assert(wlines_view(lines@) =~= b2.push(w@));
                    assert forall|i: int|
                        0 <= i < lines@.len() && (#[trigger] lines@[i]).is_hunk_header implies lines@[i].spans@.len()
                            == 1 && lines@[i].spans@[0].color@ == "#57606a"@ && !lines@[i].spans@[0].bold
                            && !lines@[i].spans@[0].italic by {
                        if i < b2_lines.len() {
                            assert(lines@[i] == b2_lines[i]);
                        }
                    }
                    assert forall|i: int| 0 <= i < lines@.len() && !(#[trigger] lines@[i]).is_hunk_header implies code_spans_ok(
                        *hl,
                        f@.path,
                        lines@[i].spans@,
                    ) by {
                        if i < b2_lines.len() {
                            assert(lines@[i] == b2_lines[i]);
                        }
                    }
                }
            }
            proof {
                assert(hr.take(lv.len() + 1 as int) =~= hr);
                assert(hv.take(h + 1).drop_last() =~= hv.take(h as int));
                assert(hv.take(h + 1).last() == hunk@);
            }
        }
        proof {
            assert(hv.take(hv.len() as int) =~= hv);
        }
    }
    proof {
        assert(f.binary ==> wlines_view(lines@) =~= Seq::<WebLineV>::empty());
    }
    WebFile {
        path: f.path.clone(),
        old_path: match &f.old_path {
            Some(o) => Some(o.clone()),
            None => None,
        },
        kind: f.kind.letter(),
        added: f.added,
        removed: f.removed,
        binary: f.binary,
        lines,
    }
}

fn web_message(m: &CommitMessage) -> (w: WebMessage)
    ensures
        wmessage_matches(w, m@),
{
    WebMessage {
        short: m.short.clone(),
        author: m.author.clone(),
        date: m.date.clone(),
        title: m.title.clone(),
        body: m.body.clone(),
    }
}

/// The web model of a diff, every code line highlighted.
pub fn web_diff(hl: &Highlighter, d: DiffSet) -> (w: WebDiff)
    ensures
        w.summary@ == d.summary@,
        w.added == d.added,
        w.removed == d.removed,
        match (w.message, opt_message(d.message)) {
            (Some(r), Some(m)) => wmessage_matches(r, m),
            (None, None) => true,
            _ => false,
        },
        w.files@.len() == d.files@.len(),
        forall|i: int| 0 <= i < w.files@.len() ==> wfile_matches(#[trigger] w.files@[i], d.files@[i]@, *hl),
{
    let message = match &d.message {
        Some(m) => Some(web_message(m)),
        None => None,
    };
    let mut files: Vec<WebFile> = Vec::new();
    for i in 0..d.files.len()
        invariant
            files@.len() == i,
            forall|j: int| 0 <= j < i ==> wfile_matches(#[trigger] files@[j], d.files@[j]@, *hl),
    {
        files.push(web_file(&d.files[i], hl));
    }
    WebDiff { message, files, added: d.added, removed: d.removed, summary: d.summary }
}

/// What a diff request asks for: `working`; `commit` with its id; `range`
/// with both ids. A missing id, an id that does not parse, or another mode
/// is an error with its message.
pub open spec fn request_spec(mode: Seq<char>, a: Option<Seq<char>>, b: Option<Seq<char>>) -> Result<ShowingV, Seq<char>> {
    if mode == "working"@ {
        Ok(ShowingV::Working)
    } else if mode == "commit"@ {
        match a {
            None => Err("missing commit oid"@),
            Some(x) => if oid_text_ok(x) {
                Ok(ShowingV::Commit(parsed_bytes(x)))
            } else {
                Err(oid_parse_error(x))
            },
        }
    } else if mode == "range"@ {
        match a {
            None => Err("missing from oid"@),
            Some(x) => if !oid_text_ok(x) {
                Err(oid_parse_error(x))
            } else {
                match b {
                    None => Err("missing to oid"@),
                    Some(y) => if oid_text_ok(y) {
                        Ok(ShowingV::Range(parsed_bytes(x), parsed_bytes(y)))
                    } else {
                        Err(oid_parse_error(y))
                    },
                }
            },
        }
    } else {
        Err("unknown diff mode: "@ + mode)
    }
}

pub open spec fn opt_seq(o: Option<&str>) -> Option<Seq<char>> {
    match o {
        Some(s) => Some(s@),
        None => None,
    }
}

/// Reads a diff request.
pub fn diff_request(mode: &str, a: Option<&str>, b: Option<&str>) -> (r: Result<Showing, String>)
    ensures
        match (r, request_spec(mode@, opt_seq(a), opt_seq(b))) {
            (Ok(s), Ok(v)) => s@ == v,
            (Err(m), Err(e)) => m@ == e,
            _ => false,
        },
{
    proof {
        reveal_strlit("working");
        reveal_strlit("commit");
        reveal_strlit("range");
    }
    if crate::paths::is_lit(&crate::text::chars_of(mode), "working") {
        Ok(Showing::Working)
    } else if crate::paths::is_lit(&crate::text::chars_of(mode), "commit") {
        match a {
            None => Err(owned("missing commit oid")),
            Some(x) => match parse_oid(x) {
                Ok(o) => Ok(Showing::Commit(o)),
                Err(m) => Err(m),
            },
        }
    } else if crate::paths::is_lit(&crate::text::chars_of(mode), "range") {
        match a {
            None => Err(owned("missing from oid")),
            Some(x) => match parse_oid(x) {
                Err(m) => Err(m),
                Ok(from) => match b {
                    None => Err(owned("missing to oid")),
                    Some(y) => match parse_oid(y) {
                        Ok(to) => Ok(Showing::Range(from, to)),
                        Err(m) => Err(m),
                    },
                },
            },
        }
    } else {
        let mut m = owned("unknown diff mode: ");
        m.append(mode);
        Err(m)
    }
}

/// In a hunk's web lines every line is tagged `added`, `removed` or
/// `context` by its kind and keeps its numbers and text.
pub proof fn law_web_line_tags(h: HunkV)
    ensures
        hunk_wlines(h).len() == h.lines.len() + 1,
        forall|k: int|
            0 <= k < h.lines.len() ==> {
                let w = #[trigger] hunk_wlines(h)[k + 1];
                let l = h.lines[k];
                &&& !w.is_hunk_header && w.old_no == l.old_no && w.new_no == l.new_no && w.text == l.text
                &&& l.kind == LineKind::Added ==> w.kind == "added"@
                &&& l.kind == LineKind::Removed ==> w.kind == "removed"@
                &&& l.kind == LineKind::Context ==> w.kind == "context"@
            },
{
}

} // verus!
