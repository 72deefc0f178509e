//! A render-ready copy of a diff: every line already highlighted and every
//! label already formatted, in plain owned structs a UI can clone freely.

use vstd::prelude::*;
use crate::highlight::{from_set, spans_text, spans_v, syntax_for_spec, Highlighter, Span};
use crate::model::{
    files_view, letter_of, opt_message, opt_text, ChangeKind, CommitMessage, DiffSet, FileDiff,
    FileV, HunkV, LineKind, LineV, MessageV,
};
use crate::paths::{ext_or_empty, file_icon, icon_for};
use crate::text::{decimal, owned, push_decimal};

verus! {

/// One coloured piece of a code line; `color` is CSS `rgb(r,g,b)`.
#[derive(Clone, PartialEq, Debug)]
pub struct RSpan {
    pub color: String,
    pub bold: bool,
    pub italic: bool,
    pub text: String,
}

#[derive(Clone, PartialEq, Debug)]
pub struct RLine {
    pub kind: LineKind,
    /// Hunk-header rows (the `@@ ... @@` separators) render in the accent style.
    pub is_hunk_header: bool,
    pub old_no: Option<u32>,
    pub new_no: Option<u32>,
    pub spans: Vec<RSpan>,
}

#[derive(Clone, PartialEq, Debug)]
pub struct RFile {
    pub path: String,
    pub header_label: String,
    pub kind_letter: char,
    pub icon: &'static str,
    pub added: u32,
    pub removed: u32,
    pub binary: bool,
    pub lines: Vec<RLine>,
}

#[derive(Clone, PartialEq, Debug)]
pub struct RMessage {
    pub short: String,
    pub author: String,
    pub date: String,
    pub title: String,
    pub body: String,
}

/// The whole main-view payload, computed once per selection.
#[derive(Clone, PartialEq, Debug)]
pub struct RenderDiff {
    pub summary: String,
    pub added: u32,
    pub removed: u32,
    pub message: Option<RMessage>,
    pub files: Vec<RFile>,
    pub error: Option<String>,
}

/// The CSS colour `rgb(r,g,b)`.
pub open spec fn css_rgb(r: u8, g: u8, b: u8) -> Seq<char> {
    "rgb("@ + decimal(r as nat) + ","@ + decimal(g as nat) + ","@ + decimal(b as nat) + ")"@
}

/// The texts of rendered spans, concatenated.
pub open spec fn rspans_text(spans: Seq<RSpan>) -> Seq<char>
    decreases spans.len(),
{
    if spans.len() == 0 {
        Seq::empty()
    } else {
        rspans_text(spans.drop_last()) + spans.last().text@
    }
}

/// A rendered line as its kind, its header flag, its numbers and its text.
pub struct RLineV {
    pub kind: LineKind,
    pub is_hunk_header: bool,
    pub old_no: Option<u32>,
    pub new_no: Option<u32>,
    pub text: Seq<char>,
}

impl View for RLine {
    type V = RLineV;

    open spec fn view(&self) -> RLineV {
        RLineV {
            kind: self.kind,
            is_hunk_header: self.is_hunk_header,
            old_no: self.old_no,
            new_no: self.new_no,
            text: rspans_text(self.spans@),
        }
    }
}

pub open spec fn rlines_view(lines: Seq<RLine>) -> Seq<RLineV> {
    lines.map_values(|l: RLine| l@)
}

/// The rendered rows of a hunk: its header, then each line with its numbers.
pub open spec fn hunk_rlines(h: HunkV) -> Seq<RLineV> {
    seq![RLineV { kind: LineKind::Context, is_hunk_header: true, old_no: None, new_no: None, text: h.header }]
        + h.lines.map_values(
        |l: LineV|
            RLineV {
                kind: l.kind,
                is_hunk_header: false,
                old_no: l.old_no,
                new_no: l.new_no,
                text: l.text,
            },
    )
}

pub open spec fn hunks_rlines(hunks: Seq<HunkV>) -> Seq<RLineV>
    decreases hunks.len(),
{
    if hunks.len() == 0 {
        Seq::empty()
    } else {
        hunks_rlines(hunks.drop_last()) + hunk_rlines(hunks.last())
    }
}

/// The header of a file: `old  →  new` for a rename, else its path.
pub open spec fn header_label_of(f: FileV) -> Seq<char> {
    match f.old_path {
        Some(old) => if f.kind == ChangeKind::Renamed {
            old + "  \u{2192}  "@ + f.path
        } else {
            f.path
        },
        None => f.path,
    }
}

/// A rendered file: its labels and counts, and (unless binary) its rows:
/// each hunk header one plain span in the muted grey, each code line the
/// rendering of what the highlighter gives for it as a line of this file.
pub open spec fn rfile_matches(r: RFile, f: FileV, hl: Highlighter) -> bool {
    &&& r.path@ == f.path
    &&& r.header_label@ == header_label_of(f)
    &&& r.kind_letter == letter_of(f.kind)
    &&& r.icon@ == icon_for(ext_or_empty(f.path))
    &&& r.added == f.added
    &&& r.removed == f.removed
    &&& r.binary == f.binary
    &&& rlines_view(r.lines@) == if f.binary {
        Seq::empty()
    } else {
        hunks_rlines(f.hunks)
    }
    &&& forall|i: int|
        0 <= i < r.lines@.len() && (#[trigger] r.lines@[i]).is_hunk_header ==> r.lines@[i].spans@.len()
            == 1 && r.lines@[i].spans@[0].color@ == "rgb(101,109,118)"@ && !r.lines@[i].spans@[0].bold
            && !r.lines@[i].spans@[0].italic
    &&& forall|i: int| 0 <= i < r.lines@.len() && !(#[trigger] r.lines@[i]).is_hunk_header ==> rendered_code(hl, f.path, r.lines@[i].spans@)
}

/// Rendered spans that carry highlighter spans one for one: the colour as CSS
/// `rgb(r,g,b)`, the flags and the text.
pub open spec fn renders(out: Seq<RSpan>, hs: Seq<Span>) -> bool {
    &&& out.len() == hs.len()
    &&& forall|i: int|
        0 <= i < out.len() ==> {
            let o = #[trigger] out[i];
            let s = hs[i];
            &&& o.color@ == css_rgb(s.color.0, s.color.1, s.color.2)
            &&& o.bold == s.bold
            &&& o.italic == s.italic
            &&& o.text@ == s.text@
        }
}

/// Spans that render what the highlighter gives for their own text as a
/// code line of the file at `path`.
pub open spec fn rendered_code(hl: Highlighter, path: Seq<char>, spans: Seq<RSpan>) -> bool {
    exists|hs: Seq<Span>| #[trigger] spans_v(hs) == hl.code_spans(path, rspans_text(spans)) && renders(spans, hs)
}

pub open spec fn rmessage_matches(r: RMessage, m: MessageV) -> bool {
    &&& r.short@ == m.short
    &&& r.author@ == m.author
    &&& r.date@ == m.date
    &&& r.title@ == m.title
    &&& r.body@ == m.body
}

impl RenderDiff {
    /// Nothing to show: no summary, counts, message, files or error.
    pub fn empty() -> (d: RenderDiff)
        ensures
            d.summary@.len() == 0,
            d.added == 0,
            d.removed == 0,
            d.message is None,
            d.files@.len() == 0,
            d.error is None,
    {
        RenderDiff {
            summary: String::new(),
            added: 0,
            removed: 0,
            message: None,
            files: Vec::new(),
            error: None,
        }
    }

    /// An error to show in place of the diff.
    pub fn error(msg: String) -> (d: RenderDiff)
        ensures
            d.summary@.len() == 0,
            d.added == 0,
            d.removed == 0,
            d.message is None,
            d.files@.len() == 0,
            d.error == Some(msg),
    {
        let mut d = Self::empty();
        d.error = Some(msg);
        d
    }

    /// Flattens a diff, highlighting every line that is not a hunk header.
    pub fn build(set: DiffSet, hl: &Highlighter) -> (d: RenderDiff)
        ensures
            d.summary@ == set.summary@,
            d.added == set.added,
            d.removed == set.removed,
            d.error is None,
            match (d.message, opt_message(set.message)) {
                (Some(r), Some(m)) => rmessage_matches(r, m),
                (None, None) => true,
                _ => false,
            },
            d.files@.len() == set.files@.len(),
            forall|i: int| 0 <= i < d.files@.len() ==> rfile_matches(#[trigger] d.files@[i], set.files@[i]@, *hl),
    {
        let message = match &set.message {
            Some(m) => Some(rmessage(m)),
            None => None,
        };
        let mut files: Vec<RFile> = Vec::new();
        for i in 0..set.files.len()
            invariant
                files@.len() == i,
                forall|j: int| 0 <= j < i ==> rfile_matches(#[trigger] files@[j], set.files@[j]@, *hl),
        {
            files.push(rfile(&set.files[i], hl));
        }
        RenderDiff {
            summary: set.summary,
            added: set.added,
            removed: set.removed,
            message,
            files,
            error: None,
        }
    }
}

fn rmessage(m: &CommitMessage) -> (r: RMessage)
    ensures
        rmessage_matches(r, m@),
{
    RMessage {
        short: m.short.clone(),
        author: m.author.clone(),
        date: m.date.clone(),
        title: m.title.clone(),
        body: m.body.clone(),
    }
}

/// `rgb(r,g,b)` for a highlight colour.
pub fn css_color(c: (u8, u8, u8)) -> (s: String)
    ensures
        s@ == css_rgb(c.0, c.1, c.2),
{
    let mut s = owned("rgb(");
    push_decimal(&mut s, c.0 as u32);
    s.append(",");
    push_decimal(&mut s, c.1 as u32);
    s.append(",");
    push_decimal(&mut s, c.2 as u32);
    s.append(")");
    s
}

/// Renders highlighter spans: the same texts and flags, the colour as CSS.
pub fn render_spans(spans: &Vec<Span>) -> (out: Vec<RSpan>)
    ensures
        out@.len() == spans@.len(),
        rspans_text(out@) == spans_text(spans@),
        renders(out@, spans@),
        forall|i: int|
            0 <= i < out@.len() ==> {
                let o = #[trigger] out@[i];
                let s = spans@[i];
                &&& o.color@ == css_rgb(s.color.0, s.color.1, s.color.2)
                &&& o.bold == s.bold
                &&& o.italic == s.italic
                &&& o.text@ == s.text@
            },
{
    let mut out: Vec<RSpan> = Vec::new();
    for i in 0..spans.len()
        invariant
            out@.len() == i,
            rspans_text(out@) == spans_text(spans@.take(i as int)),
            forall|j: int|
                0 <= j < i ==> {
                    let o = #[trigger] out@[j];
                    let s = spans@[j];
                    &&& o.color@ == css_rgb(s.color.0, s.color.1, s.color.2)
                    &&& o.bold == s.bold
                    &&& o.italic == s.italic
                    &&& o.text@ == s.text@
                },
    {
        let s = &spans[i];
        let ghost before = out@;
        out.push(RSpan { color: css_color(s.color), bold: s.bold, italic: s.italic, text: s.text.clone() });
        proof {
            assert(out@.drop_last() =~= before);
            assert(spans@.take(i + 1).drop_last() =~= spans@.take(i as int));
            assert(spans@.take(i + 1).last() == spans@[i as int]);
        }
    }
    assert(spans@.take(spans@.len() as int) =~= spans@);
    out
}

pub(crate) fn header_label(f: &FileDiff) -> (s: String)
    ensures
        s@ == header_label_of(f@),
{
    match &f.old_path {
        Some(old) => {
            if f.kind == ChangeKind::Renamed {
                let mut s = old.clone();
                s.append("  \u{2192}  ");
                s.append(f.path.as_str());
                s
            } else {
                f.path.clone()
            }
        },
        None => f.path.clone(),
    }
}

fn rfile(f: &FileDiff, hl: &Highlighter) -> (r: RFile)
    ensures
        rfile_matches(r, f@, *hl),
{
    let mut lines: Vec<RLine> = Vec::new();
    if !f.binary {
        let syntax = hl.syntax_for(f.path.as_str());
        let ghost hv = f@.hunks;
        for h in 0..f.hunks.len()
            invariant
                hv == f@.hunks,
                rlines_view(lines@) == hunks_rlines(hv.take(h as int)),
                forall|i: int|
                    0 <= i < lines@.len() && (#[trigger] lines@[i]).is_hunk_header ==> lines@[i].spans@.len()
                        == 1 && lines@[i].spans@[0].color@ == "rgb(101,109,118)"@
                        && !lines@[i].spans@[0].bold && !lines@[i].spans@[0].italic,
                forall|i: int| 0 <= i < lines@.len() && !(#[trigger] lines@[i]).is_hunk_header ==> rendered_code(*hl, f@.path, lines@[i].spans@),
                *syntax == syntax_for_spec(hl.syntax_set(), f@.path),
                from_set(hl.syntax_set(), *syntax),
        {
            let hunk = &f.hunks[h];
            let ghost start = rlines_view(lines@);
            let ghost start_lines = lines@;
            let mut hs: Vec<RSpan> = Vec::new();
            hs.push(RSpan { color: owned("rgb(101,109,118)"), bold: false, italic: false, text: hunk.header.clone() });
            proof {
                assert(hs@.drop_last() =~= Seq::<RSpan>::empty());
                assert(rspans_text(hs@) == rspans_text(hs@.drop_last()) + hs@.last().text@);
                assert(rspans_text(hs@) =~= hunk.header@);
            }
            lines.push(RLine { kind: LineKind::Context, is_hunk_header: true, old_no: None, new_no: None, spans: hs });
            let ghost mid = rlines_view(lines@);
            let ghost lv = hunk@.lines;
            let ghost hr = hunk_rlines(hunk@);
            proof {
                assert(mid =~= start + hr.take(1));
            }
            for k in 0..hunk.lines.len()
                invariant
                    lv == hunk@.lines,
                    hr == hunk_rlines(hunk@),
                    rlines_view(lines@) == start + hr.take(k + 1),
                    forall|i: int|
                        0 <= i < lines@.len() && (#[trigger] lines@[i]).is_hunk_header ==> lines@[i].spans@.len()
                            == 1 && lines@[i].spans@[0].color@ == "rgb(101,109,118)"@
                            && !lines@[i].spans@[0].bold && !lines@[i].spans@[0].italic,
                    forall|i: int| 0 <= i < lines@.len() && !(#[trigger] lines@[i]).is_hunk_header ==> rendered_code(*hl, f@.path, lines@[i].spans@),
                    *syntax == syntax_for_spec(hl.syntax_set(), f@.path),
                    from_set(hl.syntax_set(), *syntax),
            {
                let line = &hunk.lines[k];
                let highlighted = hl.line(syntax, line.text.as_str());
                let spans = render_spans(&highlighted);
                assert(spans_v(highlighted@) == hl.code_spans(f@.path, rspans_text(spans@)) && renders(spans@, highlighted@));
                assert(rendered_code(*hl, f@.path, spans@));
                let ghost b2 = rlines_view(lines@);
                let ghost b2_lines = lines@;
                lines.push(
                    RLine {
                        kind: line.kind,
                        is_hunk_header: false,
                        old_no: line.old_no,
                        new_no: line.new_no,
                        spans,
                    },
                );
                proof {
                    assert(lv[k as int] == line@);
                    assert(hr.take(k + 2) =~= hr.take(k + 1).push(hr[k + 1]));
                    assert(rlines_view(lines@) =~= b2.push(lines@.last()@));
                    assert forall|i: int|
                        0 <= i < lines@.len() && (#[trigger] lines@[i]).is_hunk_header implies lines@[i].spans@.len()
                            == 1 && lines@[i].spans@[0].color@ == "rgb(101,109,118)"@
                            && !lines@[i].spans@[0].bold && !lines@[i].spans@[0].italic by {
                        if i < b2_lines.len() {
                            assert(lines@[i] == b2_lines[i]);
                        }
                    }
                    assert forall|i: int| 0 <= i < lines@.len() && !(#[trigger] lines@[i]).is_hunk_header implies rendered_code(
                        *hl,
                        f@.path,
                        lines@[i].spans@,
                    ) by {
                        if i < b2_lines.len() {
                            assert(lines@[i] == b2_lines[i]);
                        }
                    }
                }
            }
            proof {
                assert(hr.take(lv.len() + 1 as int) =~= hr);
                assert(hv.take(h + 1).drop_last() =~= hv.take(h as int));
                assert(hv.take(h + 1).last() == hunk@);
            }
        }
        proof {
            assert(hv.take(hv.len() as int) =~= hv);
        }
    }
    proof {
        assert(f.binary ==> rlines_view(lines@) =~= Seq::<RLineV>::empty());
    }
    RFile {
        path: f.path.clone(),
        header_label: header_label(f),
        kind_letter: f.kind.letter(),
        icon: file_icon(f.path.as_str()),
        added: f.added,
        removed: f.removed,
        binary: f.binary,
        lines,
    }
}

/// The inline CSS of a span: its colour, then bold and italic when set.
pub open spec fn span_style_of(sp: RSpan) -> Seq<char> {
    "color:"@ + sp.color@ + ";"@ + (if sp.bold {
        "font-weight:600;"@
    } else {
        Seq::empty()
    }) + (if sp.italic {
        "font-style:italic;"@
    } else {
        Seq::empty()
    })
}

pub fn span_style(sp: &RSpan) -> (s: String)
    ensures
        s@ == span_style_of(*sp),
{
    let mut s = owned("color:");
    s.append(sp.color.as_str());
    s.append(";");
    if sp.bold {
        s.append("font-weight:600;");
    }
    if sp.italic {
        s.append("font-style:italic;");
    }
    assert(s@ =~= span_style_of(*sp));
    s
}

/// A rendered hunk is its header row, then one row per line showing that
/// line's kind, old and new numbers and text as they are.
pub proof fn law_rendered_hunk_lines(h: HunkV)
    ensures
        hunk_rlines(h).len() == h.lines.len() + 1,
        hunk_rlines(h)[0].is_hunk_header && hunk_rlines(h)[0].text == h.header,
        forall|k: int|
            0 <= k < h.lines.len() ==> {
                let r = #[trigger] hunk_rlines(h)[k + 1];
                &&& !r.is_hunk_header
                &&& r.kind == h.lines[k].kind
                &&& r.old_no == h.lines[k].old_no
                &&& r.new_no == h.lines[k].new_no
                &&& r.text == h.lines[k].text
            },
{
}

/// A renamed file's header reads old path, arrow, new path, so it starts
/// with the old path and ends with the new one; any other file's header is
/// its path alone.
pub proof fn law_header_shows_rename(f: FileV)
    ensures
        f.kind == ChangeKind::Renamed && f.old_path is Some ==> {
            let h = header_label_of(f);
            let o = f.old_path->0;
            &&& h.len() == o.len() + 5 + f.path.len()
            &&& h.take(o.len() as int) == o
            &&& h.skip(h.len() - f.path.len()) == f.path
            &&& h.subrange(o.len() as int, o.len() + 5int) == seq![' ', ' ', '\u{2192}', ' ', ' ']
        },
        !(f.kind == ChangeKind::Renamed && f.old_path is Some) ==> header_label_of(f) == f.path,
{
    reveal_strlit("  \u{2192}  ");
    if f.kind == ChangeKind::Renamed && f.old_path is Some {
        let h = header_label_of(f);
        let o = f.old_path->0;
        assert(h.take(o.len() as int) =~= o);
        assert(h.skip(h.len() - f.path.len()) =~= f.path);
        assert(h.subrange(o.len() as int, o.len() + 5int) =~= seq![' ', ' ', '\u{2192}', ' ', ' ']);
    }
}

} // verus!
