//! The items of a retained-mode diff list: one item for the message, each
//! file header, each hunk header and each code line, with the code split into
//! coloured spans. Row heights and scroll positions are the view's business.

use vstd::prelude::*;
use crate::highlight::{from_set, spans_text, spans_v, syntax_for_spec, Highlighter, Span};
use crate::model::{files_view, opt_message, DiffSet, FileDiff, FileV, HunkV, LineKind, LineV, MessageV};
use crate::panel_rows::{copies, pspans_text, span_pairs, PanelSpan};
use crate::qt_model::{num, num_text};
use crate::render::{header_label, header_label_of};
use crate::text::owned;

verus! {

/// One item of the list. `kind` is `0` for code, `1` for a file header and
/// `2` for the message; `code_kind` is `0` context, `1` added, `2` removed,
/// `3` hunk header.
#[derive(Debug)]
pub struct ListItem {
    pub kind: i32,
    pub code_kind: i32,
    pub old_no: String,
    pub new_no: String,
    pub sign: String,
    pub spans: Vec<PanelSpan>,
    pub path: String,
    pub added: i32,
    pub removed: i32,
    pub text: String,
    pub sub: String,
}

/// What an item must hold. For a code line (`code` is `true`) the spans come
/// from what the highlighter gives for `line` as a line of `file`: a single
/// space in the text colour for an empty line, else those spans with their
/// colours and texts; for any other item they are exactly `spans`.
pub struct ItemSpec {
    pub kind: i32,
    pub code_kind: i32,
    pub old_no: Seq<char>,
    pub new_no: Seq<char>,
    pub sign: Seq<char>,
    pub code: bool,
    pub spans: Seq<((u8, u8, u8), Seq<char>)>,
    pub line: Seq<char>,
    /// The path of the file a code line belongs to.
    pub file: Seq<char>,
    pub path: Seq<char>,
    pub added: i32,
    pub removed: i32,
    pub text: Seq<char>,
    pub sub: Seq<char>,
}

/// A code item whose spans copy what the highlighter gives for its line as
/// a line of its file.
pub open spec fn item_code_ok(it: ListItem, s: ItemSpec, hl: Highlighter) -> bool {
    exists|hs: Seq<Span>| #[trigger] spans_v(hs) == hl.code_spans(s.file, s.line) && copies(it.spans@, hs)
}

pub open spec fn item_ok(it: ListItem, s: ItemSpec, hl: Highlighter) -> bool {
    &&& item_plain_ok(it, s)
    &&& (s.code && s.line.len() > 0 ==> item_code_ok(it, s, hl))
}

pub open spec fn item_plain_ok(it: ListItem, s: ItemSpec) -> bool {
    &&& it.kind == s.kind
    &&& it.code_kind == s.code_kind
    &&& it.old_no@ == s.old_no
    &&& it.new_no@ == s.new_no
    &&& it.sign@ == s.sign
    &&& it.path@ == s.path
    &&& it.added == s.added
    &&& it.removed == s.removed
    &&& it.text@ == s.text
    &&& it.sub@ == s.sub
    &&& if s.code {
        if s.line.len() == 0 {
            span_pairs(it.spans@) == seq![((0x1fu8, 0x23u8, 0x28u8), " "@)]
        } else {
            pspans_text(it.spans@) == s.line
        }
    } else {
        span_pairs(it.spans@) == s.spans
    }
}

pub open spec fn items_ok(items: Seq<ListItem>, specs: Seq<ItemSpec>, hl: Highlighter) -> bool {
    &&& items.len() == specs.len()
    &&& forall|i: int| 0 <= i < items.len() ==> item_ok(#[trigger] items[i], specs[i], hl)
}

pub open spec fn bare(kind: i32, code_kind: i32) -> ItemSpec {
    ItemSpec {
        kind,
        code_kind,
        old_no: Seq::empty(),
        new_no: Seq::empty(),
        sign: Seq::empty(),
        code: false,
        spans: Seq::empty(),
        line: Seq::empty(),
        file: Seq::empty(),
        path: Seq::empty(),
        added: 0,
        removed: 0,
        text: Seq::empty(),
        sub: Seq::empty(),
    }
}

/// The message item: the title, `author · date · short`, and the body.
pub open spec fn message_item(m: MessageV) -> ItemSpec {
    ItemSpec { text: m.title, sub: m.author + " \u{b7} "@ + m.date + " \u{b7} "@ + m.short, path: m.body, ..bare(2, 0) }
}

/// A file header item: the label (`old  →  new` for a rename) and the counts.
pub open spec fn header_item(f: FileV) -> ItemSpec {
    ItemSpec { path: header_label_of(f), added: f.added as i32, removed: f.removed as i32, ..bare(1, 0) }
}

/// The note shown for a binary file, in the muted colour.
pub open spec fn binary_item() -> ItemSpec {
    ItemSpec {
        sign: "Binary file not shown"@,
        spans: seq![((0x65u8, 0x6du8, 0x76u8), "Binary file not shown"@)],
        ..bare(0, 0)
    }
}

pub open spec fn code_item(l: LineV, file: Seq<char>) -> ItemSpec {
    let (code_kind, old_no, new_no, sign) = match l.kind {
        LineKind::Added => (1i32, Seq::<char>::empty(), num_text(l.new_no), "+"@),
        LineKind::Removed => (2i32, num_text(l.old_no), Seq::<char>::empty(), "-"@),
        LineKind::Context => (0i32, num_text(l.old_no), num_text(l.new_no), " "@),
    };
    ItemSpec { old_no, new_no, sign, code: true, line: l.text, file, ..bare(0, code_kind) }
}

pub open spec fn hunk_items(h: HunkV, file: Seq<char>) -> Seq<ItemSpec> {
    seq![ItemSpec { text: h.header, ..bare(0, 3) }] + h.lines.map_values(|l: LineV| code_item(l, file))
}

pub open spec fn hunks_items(hunks: Seq<HunkV>, file: Seq<char>) -> Seq<ItemSpec>
    decreases hunks.len(),
{
    if hunks.len() == 0 {
        Seq::empty()
    } else {
        hunks_items(hunks.drop_last(), file) + hunk_items(hunks.last(), file)
    }
}

pub open spec fn file_items(f: FileV) -> Seq<ItemSpec> {
    seq![header_item(f)] + if f.binary {
        seq![binary_item()]
    } else {
        hunks_items(f.hunks, f.path)
    }
}

pub open spec fn files_items(files: Seq<FileV>) -> Seq<ItemSpec>
    decreases files.len(),
{
    if files.len() == 0 {
        Seq::empty()
    } else {
        files_items(files.drop_last()) + file_items(files.last())
    }
}

/// The items of a diff: the message item when there is a message, then every file.
pub open spec fn list_items_of(message: Option<MessageV>, files: Seq<FileV>) -> Seq<ItemSpec> {
    (match message {
        Some(m) => seq![message_item(m)],
        None => Seq::empty(),
    }) + files_items(files)
}

fn plain_item(kind: i32, code_kind: i32) -> (it: ListItem)
    ensures
        item_plain_ok(it, bare(kind, code_kind)),
{
    let it = ListItem {
        kind,
        code_kind,
        old_no: String::new(),
        new_no: String::new(),
        sign: String::new(),
        spans: Vec::new(),
        path: String::new(),
        added: 0,
        removed: 0,
        text: String::new(),
        sub: String::new(),
    };
    assert(span_pairs(it.spans@) =~= Seq::empty());
    it
}

fn code_spans(spans: Vec<Span>) -> (out: Vec<PanelSpan>)
    ensures
        spans@.len() == 0 ==> span_pairs(out@) == seq![((0x1fu8, 0x23u8, 0x28u8), " "@)],
        spans@.len() > 0 ==> pspans_text(out@) == spans_text(spans@),
        spans@.len() > 0 ==> copies(out@, spans@),
{
    let mut out: Vec<PanelSpan> = Vec::new();
    if spans.len() == 0 {
        out.push(PanelSpan { color: (0x1f, 0x23, 0x28), text: owned(" ") });
        assert(span_pairs(out@) =~= seq![((0x1fu8, 0x23u8, 0x28u8), " "@)]);
        return out;
    }
    for i in 0..spans.len()
        invariant
            out@.len() == i,
            pspans_text(out@) == spans_text(spans@.take(i as int)),
            forall|j: int| 0 <= j < i ==> (#[trigger] out@[j]).color == spans@[j].color && out@[j].text@ == spans@[j].text@,
    {
        let s = &spans[i];
        let ghost before = out@;
        out.push(PanelSpan { color: s.color, text: s.text.clone() });
        proof {
            assert(out@.drop_last() =~= before);
            assert(spans@.take(i + 1).drop_last() =~= spans@.take(i as int));
            assert(spans@.take(i + 1).last() == spans@[i as int]);
        }
    }
    assert(spans@.take(spans@.len() as int) =~= spans@);
    out
}

/// Appends the items of one file.
fn push_file_items(items: &mut Vec<ListItem>, f: &FileDiff, hl: &Highlighter)
    ensures
        final(items)@.len() >= old(items)@.len(),
        final(items)@.subrange(0, old(items)@.len() as int) == old(items)@,
        items_ok(final(items)@.subrange(old(items)@.len() as int, final(items)@.len() as int), file_items(f@), *hl),
{
    let ghost start = items@;
    let ghost specs = file_items(f@);
    let mut h = plain_item(1, 0);
    h.path = header_label(f);
    h.added = f.added as i32;
    h.removed = f.removed as i32;
    items.push(h);
    proof {
        assert(items@.subrange(start.len() as int, items@.len() as int) =~= seq![h]);
        assert(items@.subrange(0, start.len() as int) =~= start);
        assert(item_ok(h, specs[0], *hl));
    }
    if f.binary {
        let mut b = plain_item(0, 0);
        b.sign = owned("Binary file not shown");
        let mut spans: Vec<PanelSpan> = Vec::new();
        spans.push(PanelSpan { color: (0x65, 0x6d, 0x76), text: owned("Binary file not shown") });
        b.spans = spans;
        items.push(b);
        proof {
            assert(span_pairs(b.spans@) =~= seq![((0x65u8, 0x6du8, 0x76u8), "Binary file not shown"@)]);
            assert(items@.subrange(start.len() as int, items@.len() as int) =~= seq![h, b]);
            assert(items@.subrange(0, start.len() as int) =~= start);
            assert(item_ok(b, specs[1], *hl));
        }
        return;
    }
    let syntax = hl.syntax_for(f.path.as_str());
    let ghost hv = f@.hunks;
    for hi in 0..f.hunks.len()
        invariant
            hv == f@.hunks,
            !f.binary,
            *syntax == syntax_for_spec(hl.syntax_set(), f@.path),
            from_set(hl.syntax_set(), *syntax),
            specs == file_items(f@),
            items@.len() >= start.len() + 1,
            items@.subrange(0, start.len() as int) == start,
            items_ok(items@.subrange(start.len() as int, items@.len() as int), seq![header_item(f@)] + hunks_items(hv.take(hi as int), f@.path), *hl),
    {
        let hunk = &f.hunks[hi];
        let ghost done = seq![header_item(f@)] + hunks_items(hv.take(hi as int), f@.path);
        let ghost hs = hunk_items(hunk@, f@.path);
        let ghost before = items@;
        let mut hr = plain_item(0, 3);
        hr.text = hunk.header.clone();
        items.push(hr);
        proof {
            let all = items@.subrange(start.len() as int, items@.len() as int);
            let prev = before.subrange(start.len() as int, before.len() as int);
            assert(all =~= prev.push(hr));
            assert(items@.subrange(0, start.len() as int) =~= start);
            assert(item_ok(hr, hs[0], *hl));
            assert forall|j: int| 0 <= j < all.len() implies item_ok(#[trigger] all[j], (done + hs.take(1))[j], *hl) by {
                if j < prev.len() {
                    assert(all[j] == prev[j]);
                }
            }
        }
        let ghost lv = hunk@.lines;
        for k in 0..hunk.lines.len()
            invariant
                hv == f@.hunks,
                lv == hunk@.lines,
                *syntax == syntax_for_spec(hl.syntax_set(), f@.path),
                from_set(hl.syntax_set(), *syntax),
                hs == hunk_items(hunk@, f@.path),
                done == seq![header_item(f@)] + hunks_items(hv.take(hi as int), f@.path),
                items@.len() >= start.len() + 1,
                items@.subrange(0, start.len() as int) == start,
                items_ok(items@.subrange(start.len() as int, items@.len() as int), done + hs.take(k + 1), *hl),
        {
            let line = &hunk.lines[k];
            let ghost b2 = items@;
            let (code_kind, old_no, new_no, sign) = match line.kind {
                LineKind::Added => (1i32, String::new(), num(line.new_no), "+"),
                LineKind::Removed => (2i32, num(line.old_no), String::new(), "-"),
                LineKind::Context => (0i32, num(line.old_no), num(line.new_no), " "),
            };
            let highlighted = hl.line(syntax, line.text.as_str());
            let ghost hsv = highlighted@;
            let spans = code_spans(highlighted);
            assert(line.text@.len() > 0 ==> spans_v(hsv) == hl.code_spans(f@.path, line.text@) && copies(spans@, hsv));
            let mut it = plain_item(0, code_kind);
            it.old_no = old_no;
            it.new_no = new_no;
            it.sign = owned(sign);
            it.spans = spans;
            items.push(it);
            proof {
                reveal_strlit("+");
                reveal_strlit("-");
                reveal_strlit(" ");
                assert(lv[k as int] == line@);
                assert(hs[k + 1] == code_item(line@, f@.path));
                assert(item_ok(it, hs[k + 1], *hl));
                assert(hs.take(k + 2) =~= hs.take(k + 1).push(hs[k + 1]));
                let all = items@.subrange(start.len() as int, items@.len() as int);
                let prev = b2.subrange(start.len() as int, b2.len() as int);
                assert(all =~= prev.push(it));
                assert(items@.subrange(0, start.len() as int) =~= start);
                assert forall|j: int| 0 <= j < all.len() implies item_ok(#[trigger] all[j], (done + hs.take(k + 2))[j], *hl) by {
                    if j < prev.len() {
                        assert(all[j] == prev[j]);
                        assert((done + hs.take(k + 2))[j] == (done + hs.take(k + 1))[j]);
                    }
                }
            }
        }
        proof {
            assert(hs.take(lv.len() + 1 as int) =~= hs);
            assert(hv.take(hi + 1).drop_last() =~= hv.take(hi as int));
            assert(hv.take(hi + 1).last() == hunk@);
            assert(seq![header_item(f@)] + hunks_items(hv.take(hi + 1), f@.path) =~= done + hs);
        }
    }
    proof {
        assert(hv.take(hv.len() as int) =~= hv);
        assert(specs =~= seq![header_item(f@)] + hunks_items(hv, f@.path));
    }
}

/// Builds the items of a diff, highlighting every code line.
pub fn list_items(diff: &DiffSet, hl: &Highlighter) -> (items: Vec<ListItem>)
    ensures
        items_ok(items@, list_items_of(opt_message(diff.message), files_view(diff.files@)), *hl),
{
    let ghost msg = opt_message(diff.message);
    let ghost fs = files_view(diff.files@);
    let mut items: Vec<ListItem> = Vec::new();
    match &diff.message {
        Some(m) => {
            let mut sub = m.author.clone();
            sub.append(" \u{b7} ");
            sub.append(m.date.as_str());
            sub.append(" \u{b7} ");
            sub.append(m.short.as_str());
            let mut it = plain_item(2, 0);
            it.text = m.title.clone();
            it.sub = sub;
            it.path = m.body.clone();
            items.push(it);
            assert(items_ok(items@, seq![message_item(m@)], *hl));
        },
        None => {},
    }
    let ghost head = match msg {
        Some(m) => seq![message_item(m)],
        None => Seq::<ItemSpec>::empty(),
    };
    assert(items_ok(items@, head, *hl));
    for i in 0..diff.files.len()
        invariant
            fs == files_view(diff.files@),
            msg == opt_message(diff.message),
            head == (match msg {
                Some(m) => seq![message_item(m)],
                None => Seq::<ItemSpec>::empty(),
            }),
            items_ok(items@, head + files_items(fs.take(i as int)), *hl),
    {
        let ghost before = items@;
        push_file_items(&mut items, &diff.files[i], hl);
        proof {
            assert(fs.take(i + 1).drop_last() =~= fs.take(i as int));
            assert(fs.take(i + 1).last() == diff.files@[i as int]@);
            let now = head + files_items(fs.take(i + 1));
            let prev = head + files_items(fs.take(i as int));
            assert(now =~= prev + file_items(diff.files@[i as int]@));
            let tail = items@.subrange(before.len() as int, items@.len() as int);
            assert forall|j: int| 0 <= j < items@.len() implies item_ok(#[trigger] items@[j], now[j], *hl) by {
                if j < before.len() {
                    assert(items@[j] == items@.subrange(0, before.len() as int)[j]);
                } else {
                    assert(items@[j] == tail[j - before.len()]);
                }
            }
        }
    }
    assert(fs.take(diff.files@.len() as int) =~= fs);
    items
}

/// In a hunk's items every code line shows its kind as the code `1` with `+`
/// and its new number for an addition, `2` with `-` and its old number for a
/// removal, and `0` with a space and both numbers for context, with its text.
pub proof fn law_slint_line_items(h: HunkV, file: Seq<char>)
    ensures
        hunk_items(h, file).len() == h.lines.len() + 1,
        forall|k: int|
            0 <= k < h.lines.len() ==> {
                let s = #[trigger] hunk_items(h, file)[k + 1];
                let l = h.lines[k];
                &&& s.kind == 0 && s.code && s.line == l.text && s.file == file
                &&& l.kind == LineKind::Added ==> s.code_kind == 1 && s.sign == "+"@ && s.old_no.len() == 0
                    && s.new_no == num_text(l.new_no)
                &&& l.kind == LineKind::Removed ==> s.code_kind == 2 && s.sign == "-"@ && s.old_no == num_text(l.old_no)
                    && s.new_no.len() == 0
                &&& l.kind == LineKind::Context ==> s.code_kind == 0 && s.sign == " "@ && s.old_no == num_text(l.old_no)
                    && s.new_no == num_text(l.new_no)
            },
{
}

} // verus!
