//! The rows of a GPU-drawn diff list: the message, each file header with its
//! label and counts, hunk headers, and code lines with their background and
//! margin colours and coloured spans. Colours are RGB bytes; `None` is
//! transparent.

use vstd::prelude::*;
use crate::highlight::{from_set, spans_text, spans_v, syntax_for_spec, Highlighter, Span};
use crate::model::{files_view, letter_of, opt_message, DiffSet, FileDiff, FileV, HunkV, LineKind, LineV, MessageV};
use crate::render::{header_label, header_label_of};
use crate::text::{chars_of, decimal, owned, push_char, push_decimal};

verus! {

#[derive(Clone, Copy, PartialEq, Eq, Structural, Debug)]
pub enum RowKind {
    CommitMsg,
    FileHeader,
    Binary,
    HunkHeader,
    Code,
}

/// A coloured piece of a code line.
#[derive(Debug)]
pub struct PanelSpan {
    pub color: (u8, u8, u8),
    pub text: String,
}

#[derive(Debug)]
pub struct PanelRow {
    pub kind: RowKind,
    pub file_index: Option<usize>,
    pub bg: Option<(u8, u8, u8)>,
    pub mark: Option<(u8, u8, u8)>,
    pub line_kind: LineKind,
    pub old_no: Option<u32>,
    pub new_no: Option<u32>,
    pub sign: char,
    pub spans: Vec<PanelSpan>,
    pub title: String,
    pub subtitle: String,
}

pub open spec fn panel() -> (u8, u8, u8) {
    (0xf6u8, 0xf8u8, 0xfau8)
}

pub open spec fn hunk_bg() -> (u8, u8, u8) {
    (0xddu8, 0xf4u8, 0xffu8)
}

pub open spec fn text_color() -> (u8, u8, u8) {
    (0x1fu8, 0x23u8, 0x28u8)
}

/// The background, margin mark and sign of a code line.
pub open spec fn line_style(k: LineKind) -> (Option<(u8, u8, u8)>, Option<(u8, u8, u8)>, char) {
    match k {
        LineKind::Added => (Some((0xe6u8, 0xffu8, 0xecu8)), Some((0xabu8, 0xf2u8, 0xbcu8)), '+'),
        LineKind::Removed => (Some((0xffu8, 0xebu8, 0xe9u8)), Some((0xffu8, 0x81u8, 0x82u8)), '-'),
        LineKind::Context => (None, None, ' '),
    }
}

pub open spec fn pspans_text(spans: Seq<PanelSpan>) -> Seq<char>
    decreases spans.len(),
{
    if spans.len() == 0 {
        Seq::empty()
    } else {
        pspans_text(spans.drop_last()) + spans.last().text@
    }
}

/// A message body on one line: each line break becomes two spaces.
pub open spec fn one_line(s: Seq<char>) -> Seq<char>
    decreases s.len(),
{
    if s.len() == 0 {
        Seq::empty()
    } else {
        one_line(s.drop_last()) + if s.last() == '\n' {
            "  "@
        } else {
            seq![s.last()]
        }
    }
}

/// What a row must hold. For a code row (`code` is `true`) the spans are
/// those the highlighter gives for `text` as a line of the file at `path`,
/// colours and texts copied: their texts give back the line, and an empty
/// line has none; for any other row they are exactly `spans`.
pub struct RowShape {
    pub kind: RowKind,
    pub file_index: Option<usize>,
    pub bg: Option<(u8, u8, u8)>,
    pub mark: Option<(u8, u8, u8)>,
    pub line_kind: LineKind,
    pub old_no: Option<u32>,
    pub new_no: Option<u32>,
    pub sign: char,
    pub code: bool,
    pub spans: Seq<((u8, u8, u8), Seq<char>)>,
    pub text: Seq<char>,
    /// The path of the file a code row belongs to.
    pub path: Seq<char>,
    pub title: Seq<char>,
    pub subtitle: Seq<char>,
}

pub open spec fn span_pairs(spans: Seq<PanelSpan>) -> Seq<((u8, u8, u8), Seq<char>)> {
    spans.map_values(|s: PanelSpan| (s.color, s.text@))
}

/// Panel spans that copy the colours and texts of highlighter spans, one for one.
pub open spec fn copies(out: Seq<PanelSpan>, hs: Seq<Span>) -> bool {
    &&& out.len() == hs.len()
    &&& forall|i: int| 0 <= i < out.len() ==> (#[trigger] out[i]).color == hs[i].color && out[i].text@ == hs[i].text@
}

/// A code row whose spans copy what the highlighter gives for its line as a
/// line of its file.
pub open spec fn code_fits(r: PanelRow, s: RowShape, hl: Highlighter) -> bool {
    exists|hs: Seq<Span>| #[trigger] spans_v(hs) == hl.code_spans(s.path, s.text) && copies(r.spans@, hs)
}

pub open spec fn row_fits(r: PanelRow, s: RowShape, hl: Highlighter) -> bool {
    &&& plain_fits(r, s)
    &&& (s.code ==> code_fits(r, s, hl))
}

pub open spec fn plain_fits(r: PanelRow, s: RowShape) -> bool {
    &&& r.kind == s.kind
    &&& r.file_index == s.file_index
    &&& r.bg == s.bg
    &&& r.mark == s.mark
    &&& r.line_kind == s.line_kind
    &&& r.old_no == s.old_no
    &&& r.new_no == s.new_no
    &&& r.sign == s.sign
    &&& r.title@ == s.title
    &&& r.subtitle@ == s.subtitle
    &&& if s.code {
        &&& pspans_text(r.spans@) == s.text
        &&& (s.text.len() == 0 ==> r.spans@.len() == 0)
    } else {
        span_pairs(r.spans@) == s.spans
    }
}

pub open spec fn rows_fit(rows: Seq<PanelRow>, shapes: Seq<RowShape>, hl: Highlighter) -> bool {
    &&& rows.len() == shapes.len()
    &&& forall|i: int| 0 <= i < rows.len() ==> row_fits(#[trigger] rows[i], shapes[i], hl)
}

pub open spec fn plain_row(
    kind: RowKind,
    file_index: Option<usize>,
    bg: Option<(u8, u8, u8)>,
    title: Seq<char>,
    subtitle: Seq<char>,
) -> RowShape {
    RowShape {
        kind,
        file_index,
        bg,
        mark: None,
        line_kind: LineKind::Context,
        old_no: None,
        new_no: None,
        sign: ' ',
        code: false,
        spans: Seq::empty(),
        text: Seq::empty(),
        path: Seq::empty(),
        title,
        subtitle,
    }
}

/// The message row: its title, `author  ·  date  ·  short`, and the body on
/// one line as a single span in the text colour (no span for an empty body).
pub open spec fn message_row(m: MessageV) -> RowShape {
    RowShape {
        spans: if m.body.len() == 0 {
            Seq::empty()
        } else {
            seq![(text_color(), one_line(m.body))]
        },
        ..plain_row(
            RowKind::CommitMsg,
            None,
            Some(panel()),
            m.title,
            m.author + "  \u{b7}  "@ + m.date + "  \u{b7}  "@ + m.short,
        )
    }
}

/// A file header: `path  [K]` (`old  →  new  [R]` for a rename) over `+a  −r`.
pub open spec fn header_row(i: usize, f: FileV) -> RowShape {
    plain_row(
        RowKind::FileHeader,
        Some(i),
        Some(panel()),
        header_label_of(f) + "  ["@ + seq![letter_of(f.kind)] + "]"@,
        "+"@ + decimal(f.added as nat) + "  \u{2212}"@ + decimal(f.removed as nat),
    )
}

pub open spec fn code_row(i: usize, l: LineV, path: Seq<char>) -> RowShape {
    let (bg, mark, sign) = line_style(l.kind);
    RowShape {
        kind: RowKind::Code,
        file_index: Some(i),
        bg,
        mark,
        line_kind: l.kind,
        old_no: l.old_no,
        new_no: l.new_no,
        sign,
        code: true,
        spans: Seq::empty(),
        text: l.text,
        path,
        title: Seq::empty(),
        subtitle: Seq::empty(),
    }
}

pub open spec fn hunk_rows_of(i: usize, h: HunkV, path: Seq<char>) -> Seq<RowShape> {
    seq![plain_row(RowKind::HunkHeader, Some(i), Some(hunk_bg()), h.header, Seq::empty())]
        + h.lines.map_values(|l: LineV| code_row(i, l, path))
}

pub open spec fn hunks_rows_of(i: usize, hunks: Seq<HunkV>, path: Seq<char>) -> Seq<RowShape>
    decreases hunks.len(),
{
    if hunks.len() == 0 {
        Seq::empty()
    } else {
        hunks_rows_of(i, hunks.drop_last(), path) + hunk_rows_of(i, hunks.last(), path)
    }
}

/// A file: its header, then one blank binary row or its hunks.
pub open spec fn file_rows_of(i: usize, f: FileV) -> Seq<RowShape> {
    seq![header_row(i, f)] + if f.binary {
        seq![plain_row(RowKind::Binary, Some(i), None, Seq::empty(), Seq::empty())]
    } else {
        hunks_rows_of(i, f.hunks, f.path)
    }
}

pub open spec fn files_rows_of(files: Seq<FileV>) -> Seq<RowShape>
    decreases files.len(),
{
    if files.len() == 0 {
        Seq::empty()
    } else {
        files_rows_of(files.drop_last()) + file_rows_of((files.len() - 1) as usize, files.last())
    }
}

/// The rows of a diff: the message row when there is a message, then every file.
pub open spec fn panel_rows_of(message: Option<MessageV>, files: Seq<FileV>) -> Seq<RowShape> {
    (match message {
        Some(m) => seq![message_row(m)],
        None => Seq::empty(),
    }) + files_rows_of(files)
}

/// `s.replace('\n', "  ")`.
pub fn join_lines(s: &str) -> (out: String)
    ensures
        out@ == one_line(s@),
{
    let cs = chars_of(s);
    let mut out = String::new();
    for i in 0..cs.len()
        invariant
            cs@ == s@,
            out@ == one_line(cs@.take(i as int)),
    {
        proof {
            assert(cs@.take(i + 1).drop_last() =~= cs@.take(i as int));
            assert(cs@.take(i + 1).last() == cs@[i as int]);
        }
        if cs[i] == '\n' {
            out.append("  ");
        } else {
            push_char(&mut out, cs[i]);
        }
    }
    assert(cs@.take(cs@.len() as int) =~= cs@);
    out
}

fn blank(kind: RowKind, file_index: Option<usize>, bg: Option<(u8, u8, u8)>, title: String, subtitle: String) -> (r: PanelRow)
    ensures
        plain_fits(r, plain_row(kind, file_index, bg, title@, subtitle@)),
{
    let r = PanelRow {
        kind,
        file_index,
        bg,
        mark: None,
        line_kind: LineKind::Context,
        old_no: None,
        new_no: None,
        sign: ' ',
        spans: Vec::new(),
        title,
        subtitle,
    };
    assert(span_pairs(r.spans@) =~= Seq::empty());
    r
}

/// Highlighted spans as panel spans: the same colours and texts.
fn to_panel_spans(spans: Vec<Span>) -> (out: Vec<PanelSpan>)
    ensures
        out@.len() == spans@.len(),
        pspans_text(out@) == spans_text(spans@),
        copies(out@, spans@),
{
    let mut out: Vec<PanelSpan> = Vec::new();
    for i in 0..spans.len()
        invariant
            out@.len() == i,
            pspans_text(out@) == spans_text(spans@.take(i as int)),
            forall|j: int| 0 <= j < i ==> (#[trigger] out@[j]).color == spans@[j].color && out@[j].text@ == spans@[j].text@,
    {
        let s = &spans[i];
        let ghost before = out@;
        out.push(PanelSpan { color: s.color, text: s.text.clone() });
        proof {
            assert(out@.drop_last() =~= before);
            assert(spans@.take(i + 1).drop_last() =~= spans@.take(i as int));
            assert(spans@.take(i + 1).last() == spans@[i as int]);
        }
    }
    assert(spans@.take(spans@.len() as int) =~= spans@);
    out
}

fn header_title(f: &FileDiff) -> (s: String)
    ensures
        s@ == header_label_of(f@) + "  ["@ + seq![letter_of(f.kind)] + "]"@,
{
    let mut s = header_label(f);
    s.append("  [");
    push_char(&mut s, f.kind.letter());
    s.append("]");
    s
}

/// Appends the rows of file `i`.
fn push_file_rows(rows: &mut Vec<PanelRow>, i: usize, f: &FileDiff, hl: &Highlighter)
    ensures
        final(rows)@.len() >= old(rows)@.len(),
        final(rows)@.subrange(0, old(rows)@.len() as int) == old(rows)@,
        rows_fit(final(rows)@.subrange(old(rows)@.len() as int, final(rows)@.len() as int), file_rows_of(i, f@), *hl),
{
    let ghost start = rows@;
    let ghost shapes = file_rows_of(i, f@);
    let mut sub = owned("+");
    push_decimal(&mut sub, f.added);
    sub.append("  \u{2212}");
    push_decimal(&mut sub, f.removed);
    let h = blank(RowKind::FileHeader, Some(i), Some((0xf6, 0xf8, 0xfa)), header_title(f), sub);
    rows.push(h);
    proof {
        assert(rows@.subrange(start.len() as int, rows@.len() as int) =~= seq![h]);
        assert(rows@.subrange(0, start.len() as int) =~= start);
        assert(row_fits(h, shapes[0], *hl));
    }
    if f.binary {
        let b = blank(RowKind::Binary, Some(i), None, String::new(), String::new());
        rows.push(b);
        proof {
            assert(rows@.subrange(start.len() as int, rows@.len() as int) =~= seq![h, b]);
            assert(rows@.subrange(0, start.len() as int) =~= start);
            assert(row_fits(b, shapes[1], *hl));
        }
        return;
    }
    let syntax = hl.syntax_for(f.path.as_str());
    let ghost hv = f@.hunks;
    for hi in 0..f.hunks.len()
        invariant
            hv == f@.hunks,
            !f.binary,
            *syntax == syntax_for_spec(hl.syntax_set(), f@.path),
            from_set(hl.syntax_set(), *syntax),
            shapes == file_rows_of(i, f@),
            rows@.len() >= start.len() + 1,
            rows@.subrange(0, start.len() as int) == start,
            rows_fit(rows@.subrange(start.len() as int, rows@.len() as int), seq![header_row(i, f@)] + hunks_rows_of(i, hv.take(hi as int), f@.path), *hl),
    {
        let hunk = &f.hunks[hi];
        let ghost done = seq![header_row(i, f@)] + hunks_rows_of(i, hv.take(hi as int), f@.path);
        let ghost hs = hunk_rows_of(i, hunk@, f@.path);
        let ghost before = rows@;
        let hr = blank(RowKind::HunkHeader, Some(i), Some((0xdd, 0xf4, 0xff)), hunk.header.clone(), String::new());
        rows.push(hr);
        proof {
            let all = rows@.subrange(start.len() as int, rows@.len() as int);
            let prev = before.subrange(start.len() as int, before.len() as int);
            assert(all =~= prev.push(hr));
            assert(rows@.subrange(0, start.len() as int) =~= start);
            assert(row_fits(hr, hs[0], *hl));
            assert forall|j: int| 0 <= j < all.len() implies row_fits(#[trigger] all[j], (done + hs.take(1))[j], *hl) by {
                if j < prev.len() {
                    assert(all[j] == prev[j]);
                }
            }
        }
        let ghost lv = hunk@.lines;
        for k in 0..hunk.lines.len()
            invariant
                hv == f@.hunks,
                lv == hunk@.lines,
                *syntax == syntax_for_spec(hl.syntax_set(), f@.path),
                from_set(hl.syntax_set(), *syntax),
                hs == hunk_rows_of(i, hunk@, f@.path),
                done == seq![header_row(i, f@)] + hunks_rows_of(i, hv.take(hi as int), f@.path),
                rows@.len() >= start.len() + 1,
                rows@.subrange(0, start.len() as int) == start,
                rows_fit(rows@.subrange(start.len() as int, rows@.len() as int), done + hs.take(k + 1), *hl),
        {
            let line = &hunk.lines[k];
            let ghost b2 = rows@;
            let (bg, mark, sign) = match line.kind {
                LineKind::Added => (Some((0xe6u8, 0xffu8, 0xecu8)), Some((0xabu8, 0xf2u8, 0xbcu8)), '+'),
                LineKind::Removed => (Some((0xffu8, 0xebu8, 0xe9u8)), Some((0xffu8, 0x81u8, 0x82u8)), '-'),
                LineKind::Context => (None, None, ' '),
            };
            let highlighted = hl.line(syntax, line.text.as_str());
            let ghost hsv = highlighted@;
            let spans = to_panel_spans(highlighted);
            assert(spans_v(hsv) == hl.code_spans(f@.path, line.text@) && copies(spans@, hsv));
            let r = PanelRow {
                kind: RowKind::Code,
                file_index: Some(i),
                bg,
                mark,
                line_kind: line.kind,
                old_no: line.old_no,
                new_no: line.new_no,
                sign,
                spans,
                title: String::new(),
                subtitle: String::new(),
            };
            rows.push(r);
            proof {
                assert(lv[k as int] == line@);
                assert(hs[k + 1] == code_row(i, line@, f@.path));
                assert(row_fits(r, hs[k + 1], *hl));
                assert(hs.take(k + 2) =~= hs.take(k + 1).push(hs[k + 1]));
                let all = rows@.subrange(start.len() as int, rows@.len() as int);
                let prev = b2.subrange(start.len() as int, b2.len() as int);
                assert(all =~= prev.push(r));
                assert(rows@.subrange(0, start.len() as int) =~= start);
                assert forall|j: int| 0 <= j < all.len() implies row_fits(#[trigger] all[j], (done + hs.take(k + 2))[j], *hl) by {
                    if j < prev.len() {
                        assert(all[j] == prev[j]);
                        assert((done + hs.take(k + 2))[j] == (done + hs.take(k + 1))[j]);
                    }
                }
            }
        }
        proof {
            assert(hs.take(lv.len() + 1 as int) =~= hs);
            assert(hv.take(hi + 1).drop_last() =~= hv.take(hi as int));
            assert(hv.take(hi + 1).last() == hunk@);
            assert(seq![header_row(i, f@)] + hunks_rows_of(i, hv.take(hi + 1), f@.path) =~= done + hs);
        }
    }
    proof {
        assert(hv.take(hv.len() as int) =~= hv);
        assert(shapes =~= seq![header_row(i, f@)] + hunks_rows_of(i, hv, f@.path));
    }
}

/// Builds the rows of a diff, highlighting every code line.
pub fn panel_rows(diff: &DiffSet, hl: &Highlighter) -> (rows: Vec<PanelRow>)
    ensures
        rows_fit(rows@, panel_rows_of(opt_message(diff.message), files_view(diff.files@)), *hl),
{
    let ghost msg = opt_message(diff.message);
    let ghost fs = files_view(diff.files@);
    let mut rows: Vec<PanelRow> = Vec::new();
    match &diff.message {
        Some(m) => {
            let mut spans: Vec<PanelSpan> = Vec::new();
            if m.body.unicode_len() > 0 {
                spans.push(PanelSpan { color: (0x1f, 0x23, 0x28), text: join_lines(m.body.as_str()) });
            }
            let mut sub = m.author.clone();
            sub.append("  \u{b7}  ");
            sub.append(m.date.as_str());
            sub.append("  \u{b7}  ");
            sub.append(m.short.as_str());
            let r = PanelRow {
                kind: RowKind::CommitMsg,
                file_index: None,
                bg: Some((0xf6, 0xf8, 0xfa)),
                mark: None,
                line_kind: LineKind::Context,
                old_no: None,
                new_no: None,
                sign: ' ',
                spans,
                title: m.title.clone(),
                subtitle: sub,
            };
            rows.push(r);
            proof {
                assert(span_pairs(r.spans@) =~= message_row(m@).spans);
                assert(rows_fit(rows@, seq![message_row(m@)], *hl));
            }
        },
        None => {},
    }
    let ghost head = match msg {
        Some(m) => seq![message_row(m)],
        None => Seq::<RowShape>::empty(),
    };
    assert(rows_fit(rows@, head, *hl));
    for i in 0..diff.files.len()
        invariant
            fs == files_view(diff.files@),
            msg == opt_message(diff.message),
            head == (match msg {
                Some(m) => seq![message_row(m)],
                None => Seq::<RowShape>::empty(),
            }),
            rows_fit(rows@, head + files_rows_of(fs.take(i as int)), *hl),
    {
        let ghost before = rows@;
        push_file_rows(&mut rows, i, &diff.files[i], hl);
        proof {
            assert(fs.take(i + 1).drop_last() =~= fs.take(i as int));
            assert(fs.take(i + 1).last() == diff.files@[i as int]@);
            let now = head + files_rows_of(fs.take(i + 1));
            let prev = head + files_rows_of(fs.take(i as int));
            assert(now =~= prev + file_rows_of(i, diff.files@[i as int]@));
            let tail = rows@.subrange(before.len() as int, rows@.len() as int);
            assert forall|j: int| 0 <= j < rows@.len() implies row_fits(#[trigger] rows@[j], now[j], *hl) by {
                if j < before.len() {
                    assert(rows@[j] == rows@.subrange(0, before.len() as int)[j]);
                } else {
                    assert(rows@[j] == tail[j - before.len()]);
                }
            }
        }
    }
    assert(fs.take(diff.files@.len() as int) =~= fs);
    rows
}

/// The file indices of the file header rows, in order.
pub open spec fn header_files(shapes: Seq<RowShape>) -> Seq<Option<usize>>
    decreases shapes.len(),
{
    if shapes.len() == 0 {
        Seq::empty()
    } else if shapes.last().kind == RowKind::FileHeader {
        header_files(shapes.drop_last()).push(shapes.last().file_index)
    } else {
        header_files(shapes.drop_last())
    }
}

proof fn lemma_header_files_concat(a: Seq<RowShape>, b: Seq<RowShape>)
    ensures
        header_files(a + b) == header_files(a) + header_files(b),
    decreases b.len(),
{
    if b.len() == 0 {
        assert(a + b =~= a);
        assert(header_files(a) + header_files(b) =~= header_files(a));
    } else {
        lemma_header_files_concat(a, b.drop_last());
        assert((a + b).drop_last() =~= a + b.drop_last());
        assert((a + b).last() == b.last());
        if b.last().kind == RowKind::FileHeader {
            assert(header_files(a) + header_files(b) =~= (header_files(a) + header_files(b.drop_last())).push(b.last().file_index));
        }
    }
}

proof fn lemma_no_headers_in_code(i: usize, ls: Seq<LineV>, path: Seq<char>)
    ensures
        header_files(ls.map_values(|l: LineV| code_row(i, l, path))) == Seq::<Option<usize>>::empty(),
    decreases ls.len(),
{
    let m = ls.map_values(|l: LineV| code_row(i, l, path));
    if ls.len() > 0 {
        lemma_no_headers_in_code(i, ls.drop_last(), path);
        assert(m.drop_last() =~= ls.drop_last().map_values(|l: LineV| code_row(i, l, path)));
        assert(m.last().kind == RowKind::Code);
    }
}

proof fn lemma_no_headers_in_hunks(i: usize, hunks: Seq<HunkV>, path: Seq<char>)
    ensures
        header_files(hunks_rows_of(i, hunks, path)) == Seq::<Option<usize>>::empty(),
    decreases hunks.len(),
{
    if hunks.len() > 0 {
        let h = hunks.last();
        let head = seq![plain_row(RowKind::HunkHeader, Some(i), Some(hunk_bg()), h.header, Seq::empty())];
        let code = h.lines.map_values(|l: LineV| code_row(i, l, path));
        lemma_no_headers_in_hunks(i, hunks.drop_last(), path);
        lemma_no_headers_in_code(i, h.lines, path);
        lemma_header_files_concat(head, code);
        assert(head.drop_last() =~= Seq::<RowShape>::empty());
        assert(header_files(Seq::<RowShape>::empty()) =~= Seq::<Option<usize>>::empty());
        assert(head.last().kind == RowKind::HunkHeader);
        assert(header_files(head) =~= Seq::<Option<usize>>::empty());
        lemma_header_files_concat(hunks_rows_of(i, hunks.drop_last(), path), hunk_rows_of(i, h, path));
    }
}

proof fn lemma_file_headers(i: usize, f: FileV)
    ensures
        header_files(file_rows_of(i, f)) == seq![Some(i)],
{
    let head = seq![header_row(i, f)];
    let rest = if f.binary {
        seq![plain_row(RowKind::Binary, Some(i), None, Seq::empty(), Seq::empty())]
    } else {
        hunks_rows_of(i, f.hunks, f.path)
    };
    lemma_header_files_concat(head, rest);
    assert(head.drop_last() =~= Seq::<RowShape>::empty());
    assert(header_files(Seq::<RowShape>::empty()) =~= Seq::<Option<usize>>::empty());
    assert(head.last().kind == RowKind::FileHeader);
    assert(header_files(head) =~= seq![Some(i)]);
    if f.binary {
        assert(rest.drop_last() =~= Seq::<RowShape>::empty());
        assert(header_files(rest) =~= Seq::<Option<usize>>::empty());
    } else {
        lemma_no_headers_in_hunks(i, f.hunks, f.path);
    }
    assert(seq![Some(i)] + Seq::<Option<usize>>::empty() =~= seq![Some(i)]);
}

proof fn lemma_files_headers(files: Seq<FileV>)
    requires
        files.len() <= usize::MAX + 1,
    ensures
        header_files(files_rows_of(files)) == Seq::new(files.len(), |k: int| Some(k as usize)),
    decreases files.len(),
{
    if files.len() == 0 {
        assert(header_files(files_rows_of(files)) =~= Seq::new(0, |k: int| Some(k as usize)));
    } else {
        let n = files.len() - 1;
        lemma_files_headers(files.drop_last());
        lemma_file_headers(n as usize, files.last());
        lemma_header_files_concat(files_rows_of(files.drop_last()), file_rows_of(n as usize, files.last()));
        assert(header_files(files_rows_of(files)) =~= Seq::new(files.len(), |k: int| Some(k as usize)));
    }
}

/// The file header rows of a diff are one per file, in file order: the first
/// header row that names file `i` is file `i`'s own header, so a click on a
/// file scrolls to its section.
pub proof fn law_one_header_per_file(message: Option<MessageV>, files: Seq<FileV>)
    requires
        files.len() <= usize::MAX + 1,
    ensures
        header_files(panel_rows_of(message, files)) == Seq::new(files.len(), |k: int| Some(k as usize)),
{
    let head = match message {
        Some(m) => seq![message_row(m)],
        None => Seq::<RowShape>::empty(),
    };
    lemma_header_files_concat(head, files_rows_of(files));
    lemma_files_headers(files);
    if head.len() == 1 {
        assert(head.drop_last() =~= Seq::<RowShape>::empty());
        assert(header_files(Seq::<RowShape>::empty()) =~= Seq::<Option<usize>>::empty());
        assert(head.last().kind == RowKind::CommitMsg);
        assert(header_files(head) =~= Seq::<Option<usize>>::empty());
    } else {
        assert(header_files(head) =~= Seq::<Option<usize>>::empty());
    }
    assert(Seq::<Option<usize>>::empty() + Seq::new(files.len(), |k: int| Some(k as usize)) =~= Seq::new(
        files.len(),
        |k: int| Some(k as usize),
    ));
}

/// In a hunk's rows every code row shows its line's kind, numbers and text;
/// an added line is on the green background with `+`, a removed line on the
/// red one with `-`, a context line plain with a space.
pub proof fn law_panel_line_rows(i: usize, h: HunkV, path: Seq<char>)
    ensures
        hunk_rows_of(i, h, path).len() == h.lines.len() + 1,
        forall|k: int|
            0 <= k < h.lines.len() ==> {
                let r = #[trigger] hunk_rows_of(i, h, path)[k + 1];
                let l = h.lines[k];
                &&& r.kind == RowKind::Code && r.code && r.file_index == Some(i)
                &&& r.line_kind == l.kind && r.old_no == l.old_no && r.new_no == l.new_no && r.text == l.text
                &&& l.kind == LineKind::Added ==> r.sign == '+' && r.bg == Some((0xe6u8, 0xffu8, 0xecu8))
                &&& l.kind == LineKind::Removed ==> r.sign == '-' && r.bg == Some((0xffu8, 0xebu8, 0xe9u8))
                &&& l.kind == LineKind::Context ==> r.sign == ' ' && r.bg is None && r.mark is None
            },
{
}

} // verus!
