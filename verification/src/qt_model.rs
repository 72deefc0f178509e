//! The list model of a rich-text diff view: one item per message, hunk
//! header and code line, each code line as escaped HTML spans, and beside it
//! the file list, where each file points at its first item.

use vstd::prelude::*;
use crate::highlight::{from_set, line_spec, spans_text, spans_v, syntax_for_spec, Highlighter, Span};
use crate::model::{files_view, opt_message, same_present, CommitInfo, DiffSet, FileDiff, FileV, HunkV, LineKind, LineV, MessageV};
use crate::paths::{ext_or_empty, file_icon, icon_for};
use crate::selection::{is_current, Selection};
use crate::text::{decimal, hex2, html_escape, html_escape_spec, owned, push_decimal, push_hex2};

verus! {

/// A line number as text, or the empty text when there is none.
pub open spec fn num_text(n: Option<u32>) -> Seq<char> {
    match n {
        Some(v) => decimal(v as nat),
        None => Seq::empty(),
    }
}

/// `n.map(|v| v.to_string()).unwrap_or_default()`.
pub fn num(n: Option<u32>) -> (s: String)
    ensures
        s@ == num_text(n),
{
    let mut s = String::new();
    match n {
        Some(v) => push_decimal(&mut s, v),
        None => {},
    }
    s
}

/// One span as rich text: `<span style="color:#rrggbb">` around its escaped text.
pub open spec fn span_markup(s: Span) -> Seq<char> {
    "<span style=\"color:#"@ + hex2(s.color.0) + hex2(s.color.1) + hex2(s.color.2) + "\">"@
        + html_escape_spec(s.text@) + "</span>"@
}

pub open spec fn spans_markup(spans: Seq<Span>) -> Seq<char>
    decreases spans.len(),
{
    if spans.len() == 0 {
        Seq::empty()
    } else {
        spans_markup(spans.drop_last()) + span_markup(spans.last())
    }
}

/// A code line as rich text: `&nbsp;` when there are no spans (so the row
/// keeps its height), else the spans one after the other.
pub open spec fn line_markup(spans: Seq<Span>) -> Seq<char> {
    if spans.len() == 0 {
        "&nbsp;"@
    } else {
        spans_markup(spans)
    }
}

/// The rich text of highlighted spans.
pub fn markup_of(spans: &Vec<Span>) -> (out: String)
    ensures
        out@ == line_markup(spans@),
{
    if spans.len() == 0 {
        return owned("&nbsp;");
    }
    let mut out = String::new();
    for i in 0..spans.len()
        invariant
            out@ == spans_markup(spans@.take(i as int)),
    {
        let s = &spans[i];
        out.append("<span style=\"color:#");
        push_hex2(&mut out, s.color.0);
        push_hex2(&mut out, s.color.1);
        push_hex2(&mut out, s.color.2);
        out.append("\">");
        let esc = html_escape(s.text.as_str());
        out.append(esc.as_str());
        out.append("</span>");
        proof {
            assert(spans@.take(i + 1).drop_last() =~= spans@.take(i as int));
            assert(spans@.take(i + 1).last() == spans@[i as int]);
        }
    }
    assert(spans@.take(spans@.len() as int) =~= spans@);
    out
}

/// The rich text of a line highlighted as `want`: the markup of spans that
/// carry `want` and whose texts give back the line.
pub open spec fn markup_as(html: Seq<char>, text: Seq<char>, want: Seq<((u8, u8, u8), bool, bool, Seq<char>)>) -> bool {
    exists|s: Seq<Span>| #[trigger] spans_v(s) == want && spans_text(s) == text && html == line_markup(s)
}

/// The rich text a code line of the file at `path` gets: the markup of what
/// the highlighter gives for it.
pub open spec fn code_html(hl: Highlighter, path: Seq<char>, html: Seq<char>, text: Seq<char>) -> bool {
    markup_as(html, text, hl.code_spans(path, text))
}

/// Highlights one line, with a syntax of the highlighter's own, and renders
/// it as rich text.
pub fn spans_html(hl: &Highlighter, syntax: &syntect::parsing::SyntaxReference, text: &str) -> (out: String)
    requires
        from_set(hl.syntax_set(), *syntax),
    ensures
        markup_as(out@, text@, line_spec(hl.syntax_set(), hl.theme_used(), *syntax, text@)),
{
    let spans = hl.line(syntax, text);
    let out = markup_of(&spans);
    assert(spans_v(spans@) == line_spec(hl.syntax_set(), hl.theme_used(), *syntax, text@) && spans_text(spans@) == text@
        && out@ == line_markup(spans@));
    out
}

/// One item of the diff list.
pub struct DiffItem {
    /// `0` for code, `2` for the commit message.
    pub kind: i32,
    /// `0` context, `1` added, `2` removed, `3` hunk header.
    pub code_kind: i32,
    pub old_no: String,
    pub new_no: String,
    pub sign: String,
    pub html: String,
    pub file: String,
    pub title: String,
    pub sub: String,
    pub body: String,
}

/// What an item must hold; `html` is `None` for a code line, whose rich text
/// is that of `text` highlighted as a line of `file`.
pub struct ItemShape {
    pub kind: i32,
    pub code_kind: i32,
    pub old_no: Seq<char>,
    pub new_no: Seq<char>,
    pub sign: Seq<char>,
    pub html: Option<Seq<char>>,
    pub text: Seq<char>,
    pub file: Seq<char>,
    pub title: Seq<char>,
    pub sub: Seq<char>,
    pub body: Seq<char>,
}

pub open spec fn item_fits(it: DiffItem, s: ItemShape, hl: Highlighter) -> bool {
    &&& it.kind == s.kind
    &&& it.code_kind == s.code_kind
    &&& it.old_no@ == s.old_no
    &&& it.new_no@ == s.new_no
    &&& it.sign@ == s.sign
    &&& it.file@ == s.file
    &&& it.title@ == s.title
    &&& it.sub@ == s.sub
    &&& it.body@ == s.body
    &&& match s.html {
        Some(h) => it.html@ == h,
        None => code_html(hl, s.file, it.html@, s.text),
    }
}

pub open spec fn items_fit(items: Seq<DiffItem>, shapes: Seq<ItemShape>, hl: Highlighter) -> bool {
    &&& items.len() == shapes.len()
    &&& forall|i: int| 0 <= i < items.len() ==> item_fits(#[trigger] items[i], shapes[i], hl)
}

pub open spec fn plain_shape(code_kind: i32, file: Seq<char>, html: Seq<char>) -> ItemShape {
    ItemShape {
        kind: 0,
        code_kind,
        old_no: Seq::empty(),
        new_no: Seq::empty(),
        sign: Seq::empty(),
        html: Some(html),
        text: Seq::empty(),
        file,
        title: Seq::empty(),
        sub: Seq::empty(),
        body: Seq::empty(),
    }
}

/// The item of the commit message: its title, `author · date · short`, and body.
pub open spec fn message_shape(m: MessageV) -> ItemShape {
    ItemShape {
        kind: 2,
        code_kind: 0,
        old_no: Seq::empty(),
        new_no: Seq::empty(),
        sign: Seq::empty(),
        html: Some(Seq::empty()),
        text: Seq::empty(),
        file: Seq::empty(),
        title: m.title,
        sub: m.author + " \u{b7} "@ + m.date + " \u{b7} "@ + m.short,
        body: m.body,
    }
}

/// A code line: added lines carry their new number and `+`, removed lines
/// their old number and `-`, context lines both numbers and a space.
pub open spec fn line_shape(file: Seq<char>, l: LineV) -> ItemShape {
    let (code_kind, old_no, new_no, sign) = match l.kind {
        LineKind::Added => (1i32, Seq::<char>::empty(), num_text(l.new_no), "+"@),
        LineKind::Removed => (2i32, num_text(l.old_no), Seq::<char>::empty(), "-"@),
        LineKind::Context => (0i32, num_text(l.old_no), num_text(l.new_no), " "@),
    };
    ItemShape {
        kind: 0,
        code_kind,
        old_no,
        new_no,
        sign,
        html: None,
        text: l.text,
        file,
        title: Seq::empty(),
        sub: Seq::empty(),
        body: Seq::empty(),
    }
}

/// A hunk header in the accent blue.
pub open spec fn hunk_html(header: Seq<char>) -> Seq<char> {
    "<span style=\"color:#0969da\">"@ + html_escape_spec(header) + "</span>"@
}

pub open spec fn hunk_shapes(file: Seq<char>, h: HunkV) -> Seq<ItemShape> {
    seq![plain_shape(3, file, hunk_html(h.header))] + h.lines.map_values(|l: LineV| line_shape(file, l))
}

pub open spec fn hunks_shapes(file: Seq<char>, hunks: Seq<HunkV>) -> Seq<ItemShape>
    decreases hunks.len(),
{
    if hunks.len() == 0 {
        Seq::empty()
    } else {
        hunks_shapes(file, hunks.drop_last()) + hunk_shapes(file, hunks.last())
    }
}

/// A binary file is one italic note; another file, its hunks.
pub open spec fn file_shapes(f: FileV) -> Seq<ItemShape> {
    if f.binary {
        seq![plain_shape(0, f.path, "<i>Binary file not shown</i>"@)]
    } else {
        hunks_shapes(f.path, f.hunks)
    }
}

pub open spec fn files_shapes(files: Seq<FileV>) -> Seq<ItemShape>
    decreases files.len(),
{
    if files.len() == 0 {
        Seq::empty()
    } else {
        files_shapes(files.drop_last()) + file_shapes(files.last())
    }
}

pub open spec fn message_shapes(m: Option<MessageV>) -> Seq<ItemShape> {
    match m {
        Some(m) => seq![message_shape(m)],
        None => Seq::empty(),
    }
}

/// One entry of the file list: its icon, path and counts, and the index of
/// its first item in the diff list.
pub struct FileEntry {
    pub icon: String,
    pub path: String,
    pub added: i32,
    pub removed: i32,
    pub item_index: i32,
}

pub open spec fn entry_fits(e: FileEntry, f: FileV, item_index: int) -> bool {
    &&& e.icon@ == icon_for(ext_or_empty(f.path))
    &&& e.path@ == f.path
    &&& e.added == f.added as i32
    &&& e.removed == f.removed as i32
    &&& e.item_index == item_index as i32
}

fn text_item(kind: i32, code_kind: i32, file: String, html: String) -> (it: DiffItem)
    ensures
        it.kind == kind,
        it.code_kind == code_kind,
        it.file@ == file@,
        it.html@ == html@,
        it.old_no@ == Seq::<char>::empty(),
        it.new_no@ == Seq::<char>::empty(),
        it.sign@ == Seq::<char>::empty(),
        it.title@ == Seq::<char>::empty(),
        it.sub@ == Seq::<char>::empty(),
        it.body@ == Seq::<char>::empty(),
{
    DiffItem {
        kind,
        code_kind,
        old_no: String::new(),
        new_no: String::new(),
        sign: String::new(),
        html,
        file,
        title: String::new(),
        sub: String::new(),
        body: String::new(),
    }
}

/// Appends the items of one file.
fn push_file_items(items: &mut Vec<DiffItem>, f: &FileDiff, hl: &Highlighter)
    ensures
        final(items)@.len() >= old(items)@.len(),
        items_fit(final(items)@.subrange(old(items)@.len() as int, final(items)@.len() as int), file_shapes(f@), *hl),
        final(items)@.subrange(0, old(items)@.len() as int) == old(items)@,
{
    let ghost start = items@;
    if f.binary {
        let it = text_item(0, 0, f.path.clone(), owned("<i>Binary file not shown</i>"));
        items.push(it);
        proof {
            let added = items@.subrange(start.len() as int, items@.len() as int);
            assert(added =~= seq![it]);
            assert(file_shapes(f@) == seq![plain_shape(0, f.path@, "<i>Binary file not shown</i>"@)]);
            assert(item_fits(added[0], file_shapes(f@)[0], *hl));
            assert(items@.subrange(0, start.len() as int) =~= start);
        }
        return;
    }
    let syntax = hl.syntax_for(f.path.as_str());
    let ghost hv = f@.hunks;
    let ghost path = f.path@;
    for h in 0..f.hunks.len()
        invariant
            hv == f@.hunks,
            path == f.path@,
            !f.binary,
            items@.len() >= start.len(),
            items@.subrange(0, start.len() as int) == start,
            items_fit(items@.subrange(start.len() as int, items@.len() as int), hunks_shapes(path, hv.take(h as int)), *hl),
            *syntax == syntax_for_spec(hl.syntax_set(), path),
            from_set(hl.syntax_set(), *syntax),
    {
        let hunk = &f.hunks[h];
        let ghost before = items@;
        let ghost done = hunks_shapes(path, hv.take(h as int));
        let ghost hs = hunk_shapes(path, hunk@);
        let mut html = owned("<span style=\"color:#0969da\">");
        let esc = html_escape(hunk.header.as_str());
        html.append(esc.as_str());
        html.append("</span>");
        let it = text_item(0, 3, f.path.clone(), html);
        items.push(it);
        proof {
            assert(items@.subrange(start.len() as int, items@.len() as int) =~= before.subrange(
                start.len() as int,
                before.len() as int,
            ).push(it));
            assert(items@.subrange(0, start.len() as int) =~= start);
            assert(hs[0] == plain_shape(3, path, hunk_html(hunk.header@)));
            assert(html@ == hunk_html(hunk.header@));
            assert(item_fits(it, hs[0], *hl));
            assert forall|i: int| 0 <= i < done.len() + 1 implies item_fits(
                #[trigger] items@.subrange(start.len() as int, items@.len() as int)[i],
                (done + hs.take(1))[i],
                *hl,
            ) by {
                if i < done.len() {
                    assert(before.subrange(start.len() as int, before.len() as int)[i] == items@.subrange(
                        start.len() as int,
                        items@.len() as int,
                    )[i]);
                }
            }
        }
        let ghost lv = hunk@.lines;
        for k in 0..hunk.lines.len()
            invariant
                hv == f@.hunks,
                path == f.path@,
                lv == hunk@.lines,
                hs == hunk_shapes(path, hunk@),
                done == hunks_shapes(path, hv.take(h as int)),
                items@.len() >= start.len(),
                items@.subrange(0, start.len() as int) == start,
                items_fit(items@.subrange(start.len() as int, items@.len() as int), done + hs.take(k + 1), *hl),
                *syntax == syntax_for_spec(hl.syntax_set(), path),
                from_set(hl.syntax_set(), *syntax),
        {
            let line = &hunk.lines[k];
            let ghost b2 = items@;
            let (code_kind, old_no, new_no, sign) = match line.kind {
                LineKind::Added => (1i32, String::new(), num(line.new_no), "+"),
                LineKind::Removed => (2i32, num(line.old_no), String::new(), "-"),
                LineKind::Context => (0i32, num(line.old_no), num(line.new_no), " "),
            };
            let it = DiffItem {
                kind: 0,
                code_kind,
                old_no,
                new_no,
                sign: owned(sign),
                html: spans_html(hl, syntax, line.text.as_str()),
                file: f.path.clone(),
                title: String::new(),
                sub: String::new(),
                body: String::new(),
            };
            items.push(it);
            proof {
                reveal_strlit("+");
                reveal_strlit("-");
                reveal_strlit(" ");
                assert(lv[k as int] == line@);
                assert(hs[k + 1] == line_shape(path, line@));
                assert(item_fits(it, hs[k + 1], *hl));
                assert(hs.take(k + 2) =~= hs.take(k + 1).push(hs[k + 1]));
                assert(items@.subrange(start.len() as int, items@.len() as int) =~= b2.subrange(
                    start.len() as int,
                    b2.len() as int,
                ).push(it));
                assert(items@.subrange(0, start.len() as int) =~= start);
                let all = items@.subrange(start.len() as int, items@.len() as int);
                let prev = b2.subrange(start.len() as int, b2.len() as int);
                assert forall|i: int| 0 <= i < all.len() implies item_fits(#[trigger] all[i], (done + hs.take(k + 2))[i], *hl) by {
                    if i < prev.len() {
                        assert(all[i] == prev[i]);
                        assert((done + hs.take(k + 2))[i] == (done + hs.take(k + 1))[i]);
                    }
                }
            }
        }
        proof {
            assert(hs.take(lv.len() + 1 as int) =~= hs);
            assert(hv.take(h + 1).drop_last() =~= hv.take(h as int));
            assert(hv.take(h + 1).last() == hunk@);
        }
    }
    proof {
        assert(hv.take(hv.len() as int) =~= hv);
    }
}

/// The message item, the items of every file in order, and the file list.
pub open spec fn qt_items(message: Option<MessageV>, files: Seq<FileV>) -> Seq<ItemShape> {
    message_shapes(message) + files_shapes(files)
}

/// The index of file `i`'s first item.
pub open spec fn first_item(message: Option<MessageV>, files: Seq<FileV>, i: int) -> int {
    (message_shapes(message).len() + files_shapes(files.take(i)).len()) as int
}

/// Builds the diff items and the file list of a diff.
pub fn diff_items(diff: &DiffSet, hl: &Highlighter) -> (r: (Vec<DiffItem>, Vec<FileEntry>))
    ensures
        items_fit(r.0@, qt_items(opt_message(diff.message), files_view(diff.files@)), *hl),
        r.1@.len() == diff.files@.len(),
        forall|i: int|
            0 <= i < r.1@.len() ==> entry_fits(
                #[trigger] r.1@[i],
                diff.files@[i]@,
                first_item(opt_message(diff.message), files_view(diff.files@), i),
            ),
{
    let ghost msg = opt_message(diff.message);
    let ghost fs = files_view(diff.files@);
    let mut items: Vec<DiffItem> = Vec::new();
    match &diff.message {
        Some(m) => {
            let mut sub = m.author.clone();
            sub.append(" \u{b7} ");
            sub.append(m.date.as_str());
            sub.append(" \u{b7} ");
            sub.append(m.short.as_str());
            items.push(
                DiffItem {
                    kind: 2,
                    code_kind: 0,
                    old_no: String::new(),
                    new_no: String::new(),
                    sign: String::new(),
                    html: String::new(),
                    file: String::new(),
                    title: m.title.clone(),
                    sub,
                    body: m.body.clone(),
                },
            );
            assert(items_fit(items@, message_shapes(msg), *hl));
        },
        None => {
            assert(items_fit(items@, message_shapes(msg), *hl));
        },
    }
    let ghost head = message_shapes(msg);
    let mut files: Vec<FileEntry> = Vec::new();
    for i in 0..diff.files.len()
        invariant
            fs == files_view(diff.files@),
            head == message_shapes(msg),
            msg == opt_message(diff.message),
            items_fit(items@, head + files_shapes(fs.take(i as int)), *hl),
            files@.len() == i,
            forall|j: int| 0 <= j < i ==> entry_fits(#[trigger] files@[j], diff.files@[j]@, first_item(msg, fs, j)),
    {
        let f = &diff.files[i];
        let n = items.len();
        let e = FileEntry {
            icon: owned(file_icon(f.path.as_str())),
            path: f.path.clone(),
            added: f.added as i32,
            removed: f.removed as i32,
            item_index: n as i32,
        };
        proof {
            assert(fs.take(i as int).len() == i);
            assert(items@.len() == head.len() + files_shapes(fs.take(i as int)).len());
        }
        files.push(e);
        let ghost before = items@;
        push_file_items(&mut items, f, hl);
        proof {
            assert(fs.take(i + 1).drop_last() =~= fs.take(i as int));
            assert(fs.take(i + 1).last() == f@);
            let prev = head + files_shapes(fs.take(i as int));
            let now = head + files_shapes(fs.take(i + 1));
            assert(now =~= prev + file_shapes(f@));
            let tail = items@.subrange(before.len() as int, items@.len() as int);
            assert forall|j: int| 0 <= j < items@.len() implies item_fits(#[trigger] items@[j], now[j], *hl) by {
                if j < before.len() {
                    assert(items@[j] == items@.subrange(0, before.len() as int)[j]);
                } else {
                    assert(items@[j] == tail[j - before.len()]);
                }
            }
            assert forall|j: int| 0 <= j < i + 1 implies entry_fits(#[trigger] files@[j], diff.files@[j]@, first_item(msg, fs, j)) by {
                if j == i {
                    assert(first_item(msg, fs, j) == before.len());
                }
            }
        }
    }
    assert(fs.take(diff.files@.len() as int) =~= fs);
    (items, files)
}

/// One entry of the commit list: the commit's texts and whether it is the
/// one shown, a range endpoint, or the working tree.
pub struct CommitEntry {
    pub short: String,
    pub date: String,
    pub author: String,
    pub title: String,
    pub current: bool,
    pub is_from: bool,
    pub is_to: bool,
    pub working: bool,
}

pub open spec fn commit_entry_fits(e: CommitEntry, c: CommitInfo, sel: Selection) -> bool {
    &&& e.short@ == c.short@
    &&& e.date@ == c.date@
    &&& e.author@ == c.author@
    &&& e.title@ == c.title@
    &&& e.current == is_current(sel.showing@, c.oid)
    &&& e.is_from == same_present(c.oid, sel.from)
    &&& e.is_to == same_present(c.oid, sel.to)
    &&& e.working == (c.oid is None)
}

/// The commit list with each row's state under the current selection.
pub fn commit_entries(infos: &Vec<CommitInfo>, sel: &Selection) -> (out: Vec<CommitEntry>)
    ensures
        out@.len() == infos@.len(),
        forall|i: int| 0 <= i < out@.len() ==> commit_entry_fits(#[trigger] out@[i], infos@[i], *sel),
{
    let mut out: Vec<CommitEntry> = Vec::new();
    for i in 0..infos.len()
        invariant
            out@.len() == i,
            forall|j: int| 0 <= j < i ==> commit_entry_fits(#[trigger] out@[j], infos@[j], *sel),
    {
        let c = &infos[i];
        let e = CommitEntry {
            short: c.short.clone(),
            date: c.date.clone(),
            author: c.author.clone(),
            title: c.title.clone(),
            current: crate::selection::row_is_current(&sel.showing, &c.oid),
            is_from: sel.is_from(&c.oid),
            is_to: sel.is_to(&c.oid),
            working: c.is_working_tree(),
        };
        out.push(e);
    }
    out
}

proof fn lemma_hunks_shapes_file(file: Seq<char>, hunks: Seq<HunkV>)
    ensures
        forall|j: int| 0 <= j < hunks_shapes(file, hunks).len() ==> (#[trigger] hunks_shapes(file, hunks)[j]).file == file,
    decreases hunks.len(),
{
    if hunks.len() > 0 {
        lemma_hunks_shapes_file(file, hunks.drop_last());
        let a = hunks_shapes(file, hunks.drop_last());
        let b = hunk_shapes(file, hunks.last());
        assert forall|j: int| 0 <= j < (a + b).len() implies (#[trigger] (a + b)[j]).file == file by {
            if j < a.len() {
                assert((a + b)[j] == a[j]);
            } else {
                assert((a + b)[j] == b[j - a.len()]);
            }
        }
    }
}

/// Every item of a file names the file.
proof fn lemma_file_shapes_file(f: FileV)
    ensures
        forall|j: int| 0 <= j < file_shapes(f).len() ==> (#[trigger] file_shapes(f)[j]).file == f.path,
{
    if !f.binary {
        lemma_hunks_shapes_file(f.path, f.hunks);
    }
}

/// The items of the first `k` files begin the items of all of them.
proof fn lemma_files_shapes_prefix(files: Seq<FileV>, k: int)
    requires
        0 <= k <= files.len(),
    ensures
        files_shapes(files.take(k)).len() <= files_shapes(files).len(),
        forall|j: int| 0 <= j < files_shapes(files.take(k)).len() ==> #[trigger] files_shapes(files)[j] == files_shapes(files.take(k))[j],
    decreases files.len() - k,
{
    if k < files.len() {
        lemma_files_shapes_prefix(files, k + 1);
        assert(files.take(k + 1).drop_last() =~= files.take(k));
        let a = files_shapes(files.take(k));
        let b = file_shapes(files.take(k + 1).last());
        assert(files_shapes(files.take(k + 1)) == a + b);
        assert forall|j: int| 0 <= j < a.len() implies #[trigger] files_shapes(files)[j] == a[j] by {
            assert((a + b)[j] == a[j]);
        }
    } else {
        assert(files.take(k) =~= files);
    }
}

/// A file's entry in the file list points at an item of that file, the first
/// of its items, whenever the file has any (a binary file or one with hunks):
/// clicking it scrolls to the file's own section.
pub proof fn law_entry_points_at_its_file(message: Option<MessageV>, files: Seq<FileV>, i: int)
    requires
        0 <= i < files.len(),
        file_shapes(files[i]).len() > 0,
    ensures
        0 <= first_item(message, files, i) < qt_items(message, files).len(),
        qt_items(message, files)[first_item(message, files, i)].file == files[i].path,
{
    let head = message_shapes(message);
    lemma_files_shapes_prefix(files, i + 1);
    assert(files.take(i + 1).drop_last() =~= files.take(i));
    assert(files.take(i + 1).last() == files[i]);
    let a = files_shapes(files.take(i));
    let b = file_shapes(files[i]);
    assert(files_shapes(files.take(i + 1)) == a + b);
    lemma_file_shapes_file(files[i]);
    assert((a + b)[a.len() as int] == b[0]);
    let all = files_shapes(files);
    assert(all[a.len() as int] == b[0]);
    assert(qt_items(message, files)[(head.len() + a.len()) as int] == all[a.len() as int]);
}

/// In a hunk's items every code line shows its kind as the code `1` with `+`
/// and its new number for an addition, `2` with `-` and its old number for a
/// removal, and `0` with a space and both numbers for context, with its text.
pub proof fn law_qt_line_items(file: Seq<char>, h: HunkV)
    ensures
        hunk_shapes(file, h).len() == h.lines.len() + 1,
        forall|k: int|
            0 <= k < h.lines.len() ==> {
                let s = #[trigger] hunk_shapes(file, h)[k + 1];
                let l = h.lines[k];
                &&& s.kind == 0 && s.html is None && s.text == l.text && s.file == file
                &&& l.kind == LineKind::Added ==> s.code_kind == 1 && s.sign == "+"@ && s.old_no.len() == 0
                    && s.new_no == num_text(l.new_no)
                &&& l.kind == LineKind::Removed ==> s.code_kind == 2 && s.sign == "-"@ && s.old_no == num_text(l.old_no)
                    && s.new_no.len() == 0
                &&& l.kind == LineKind::Context ==> s.code_kind == 0 && s.sign == " "@ && s.old_no == num_text(l.old_no)
                    && s.new_no == num_text(l.new_no)
            },
{
}

} // verus!
