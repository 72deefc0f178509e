//! The model a widget toolkit receives over a C boundary: numeric line kinds,
//! `-1` for a missing line number, hunks kept as hunks, and an empty message
//! with a flag when the diff has none.

use vstd::prelude::*;
use crate::highlight::{from_set, spans_text, spans_v, syntax_for_spec, Highlighter, Span};
use crate::model::{letter_of, ChangeKind, CommitMessage, DiffSet, FileDiff, FileV, HunkV, LineKind, LineV};
use crate::web_model::{hex_color, hex_rgb, web_copies, wspans_text, WebMessage, WebSpan};

verus! {

pub open spec fn kind_code(k: LineKind) -> u8 {
    match k {
        LineKind::Context => 0,
        LineKind::Added => 1,
        LineKind::Removed => 2,
    }
}

/// `0` for context, `1` for an addition, `2` for a removal.
pub fn line_kind_code(k: LineKind) -> (c: u8)
    ensures
        c == kind_code(k),
{
    match k {
        LineKind::Context => 0,
        LineKind::Added => 1,
        LineKind::Removed => 2,
    }
}

/// The one-letter code of a change.
pub fn change_letter(k: ChangeKind) -> (c: char)
    ensures
        c == letter_of(k),
{
    k.letter()
}

/// The toolkit passes `show_space_changes`: whitespace is ignored when it is `0`.
pub fn ignore_ws_from(flag: i32) -> (b: bool)
    ensures
        b == (flag == 0),
{
    flag == 0
}

pub open spec fn number_or_minus_one(n: Option<u32>) -> i64 {
    match n {
        Some(v) => v as i64,
        None => -1i64,
    }
}

pub struct WLine {
    pub kind: u8,
    pub old_no: i64,
    pub new_no: i64,
    pub spans: Vec<WebSpan>,
}

pub struct WHunk {
    pub header: String,
    pub lines: Vec<WLine>,
}

pub struct WFile {
    pub path: String,
    pub old_path: String,
    pub kind: char,
    pub added: u32,
    pub removed: u32,
    pub binary: bool,
    pub hunks: Vec<WHunk>,
}

pub struct WDiff {
    pub summary: String,
    pub added: u32,
    pub removed: u32,
    pub has_message: bool,
    pub message: WebMessage,
    pub files: Vec<WFile>,
}

/// A line: its code and numbers; no spans in a binary file, else the spans
/// the highlighter gives for the line as a line of the file at `path`, whose
/// texts give back the line.
pub open spec fn wline_matches(w: WLine, l: LineV, binary: bool, hl: Highlighter, path: Seq<char>) -> bool {
    &&& w.kind == kind_code(l.kind)
    &&& w.old_no == number_or_minus_one(l.old_no)
    &&& w.new_no == number_or_minus_one(l.new_no)
    &&& if binary {
        w.spans@.len() == 0
    } else {
        &&& wspans_text(w.spans@) == l.text
        &&& exists|hs: Seq<Span>| #[trigger] spans_v(hs) == hl.code_spans(path, l.text) && web_copies(w.spans@, hs)
    }
}

pub open spec fn whunk_matches(w: WHunk, h: HunkV, binary: bool, hl: Highlighter, path: Seq<char>) -> bool {
    &&& w.header@ == h.header
    &&& w.lines@.len() == h.lines.len()
    &&& forall|i: int| 0 <= i < w.lines@.len() ==> wline_matches(#[trigger] w.lines@[i], h.lines[i], binary, hl, path)
}

pub open spec fn wfile_matches(w: WFile, f: FileV, hl: Highlighter) -> bool {
    &&& w.path@ == f.path
    &&& w.old_path@ == match f.old_path {
        Some(o) => o,
        None => Seq::empty(),
    }
    &&& w.kind == letter_of(f.kind)
    &&& w.added == f.added
    &&& w.removed == f.removed
    &&& w.binary == f.binary
    &&& w.hunks@.len() == f.hunks.len()
    &&& forall|i: int| 0 <= i < w.hunks@.len() ==> whunk_matches(#[trigger] w.hunks@[i], f.hunks[i], f.binary, hl, f.path)
}

fn spans_of(spans: Vec<Span>) -> (out: Vec<WebSpan>)
    ensures
        wspans_text(out@) == spans_text(spans@),
        web_copies(out@, spans@),
{
    let mut out: Vec<WebSpan> = Vec::new();
    for i in 0..spans.len()
        invariant
            out@.len() == i,
            wspans_text(out@) == spans_text(spans@.take(i as int)),
            forall|j: int|
                0 <= j < i ==> (#[trigger] out@[j]).color@ == hex_rgb(spans@[j].color) && out@[j].bold == spans@[j].bold
                    && out@[j].italic == spans@[j].italic && out@[j].text@ == spans@[j].text@,
    {
        let s = &spans[i];
        let ghost before = out@;
        out.push(WebSpan { text: s.text.clone(), color: hex_color(s.color), bold: s.bold, italic: s.italic });
        proof {
            assert(out@.drop_last() =~= before);
            assert(spans@.take(i + 1).drop_last() =~= spans@.take(i as int));
            assert(spans@.take(i + 1).last() == spans@[i as int]);
        }
    }
    assert(spans@.take(spans@.len() as int) =~= spans@);
    out
}

fn number(n: Option<u32>) -> (v: i64)
    ensures
        v == number_or_minus_one(n),
{
    match n {
        Some(x) => x as i64,
        None => -1,
    }
}

fn widget_file(fd: &FileDiff, hl: &Highlighter) -> (w: WFile)
    ensures
        wfile_matches(w, fd@, *hl),
{
    let syntax = hl.syntax_for(fd.path.as_str());
    let mut hunks: Vec<WHunk> = Vec::new();
    for h in 0..fd.hunks.len()
        invariant
            hunks@.len() == h,
            forall|j: int| 0 <= j < h ==> whunk_matches(#[trigger] hunks@[j], fd@.hunks[j], fd.binary, *hl, fd@.path),
            *syntax == syntax_for_spec(hl.syntax_set(), fd@.path),
            from_set(hl.syntax_set(), *syntax),
    {
        let hunk = &fd.hunks[h];
        let mut lines: Vec<WLine> = Vec::new();
        for k in 0..hunk.lines.len()
            invariant
                lines@.len() == k,
                forall|j: int| 0 <= j < k ==> wline_matches(#[trigger] lines@[j], hunk@.lines[j], fd.binary, *hl, fd@.path),
                *syntax == syntax_for_spec(hl.syntax_set(), fd@.path),
                from_set(hl.syntax_set(), *syntax),
        {
            let dl = &hunk.lines[k];
            let spans = if fd.binary {
                Vec::new()
            } else {
                let highlighted = hl.line(syntax, dl.text.as_str());
                let ghost hsv = highlighted@;
                let out = spans_of(highlighted);
                assert(spans_v(hsv) == hl.code_spans(fd@.path, dl.text@) && web_copies(out@, hsv));
                out
            };
            let wl = WLine { kind: line_kind_code(dl.kind), old_no: number(dl.old_no), new_no: number(dl.new_no), spans };
            assert(hunk@.lines[k as int] == dl@);
            assert(!fd.binary ==> wspans_text(wl.spans@) == dl@.text);
            assert(wline_matches(wl, dl@, fd.binary, *hl, fd@.path));
            lines.push(wl);
        }
        hunks.push(WHunk { header: hunk.header.clone(), lines });
        assert(fd@.hunks[h as int] == hunk@);
    }
    WFile {
        path: fd.path.clone(),
        old_path: match &fd.old_path {
            Some(o) => o.clone(),
            None => String::new(),
        },
        kind: change_letter(fd.kind),
        added: fd.added,
        removed: fd.removed,
        binary: fd.binary,
        hunks,
    }
}

/// The widget model of a diff: the summary and counts, the message (empty,
/// with `has_message` false, when there is none) and every file.
pub fn widgets_diff(hl: &Highlighter, ds: &DiffSet) -> (w: WDiff)
    ensures
        w.summary@ == ds.summary@,
        w.added == ds.added,
        w.removed == ds.removed,
        w.has_message == ds.message is Some,
        match ds.message {
            Some(m) => w.message.short@ == m.short@ && w.message.author@ == m.author@ && w.message.date@ == m.date@
                && w.message.title@ == m.title@ && w.message.body@ == m.body@,
            None => w.message.short@.len() == 0 && w.message.author@.len() == 0 && w.message.date@.len() == 0
                && w.message.title@.len() == 0 && w.message.body@.len() == 0,
        },
        w.files@.len() == ds.files@.len(),
        forall|i: int| 0 <= i < w.files@.len() ==> wfile_matches(#[trigger] w.files@[i], ds.files@[i]@, *hl),
{
    let mut files: Vec<WFile> = Vec::new();
    for i in 0..ds.files.len()
        invariant
            files@.len() == i,
            forall|j: int| 0 <= j < i ==> wfile_matches(#[trigger] files@[j], ds.files@[j]@, *hl),
    {
        files.push(widget_file(&ds.files[i], hl));
    }
    let (has_message, message) = match &ds.message {
        Some(m) => (
            true,
            WebMessage {
                short: m.short.clone(),
                author: m.author.clone(),
                date: m.date.clone(),
                title: m.title.clone(),
                body: m.body.clone(),
            },
        ),
        None => (
            false,
            WebMessage {
                short: String::new(),
                author: String::new(),
                date: String::new(),
                title: String::new(),
                body: String::new(),
            },
        ),
    };
    WDiff { summary: ds.summary.clone(), added: ds.added, removed: ds.removed, has_message, message, files }
}

/// A widget line carries its kind as `1` for an addition, `2` for a removal
/// and `0` for context, and each number as it is, or `-1` when absent.
pub proof fn law_widget_line_codes(w: WLine, l: LineV, binary: bool, hl: Highlighter, path: Seq<char>)
    requires
        wline_matches(w, l, binary, hl, path),
    ensures
        l.kind == LineKind::Added ==> w.kind == 1,
        l.kind == LineKind::Removed ==> w.kind == 2,
        l.kind == LineKind::Context ==> w.kind == 0,
        l.old_no matches Some(n) ==> w.old_no == n as i64,
        l.old_no is None ==> w.old_no == -1,
        l.new_no matches Some(n) ==> w.new_no == n as i64,
        l.new_no is None ==> w.new_no == -1,
{
}

} // verus!
