//! The diff view as one flat list of rows, so that a virtualized list can show
//! the message, every file header, hunk header and line with one row each.

use vstd::prelude::*;
use crate::model::{
    files_view, opt_message, CommitMessage, DiffLine, DiffSet, FileDiff, FileV, HunkV, LineKind,
    LineV, MessageV,
};

verus! {

/// One row of the flattened diff body.
pub enum DiffRow {
    Message(CommitMessage),
    FileHeader(usize),
    HunkHeader(String),
    Line { file: usize, kind: LineKind, old_no: Option<u32>, new_no: Option<u32>, text: String },
    Binary,
    Gap,
}

pub enum RowV {
    Message(MessageV),
    FileHeader(nat),
    HunkHeader(Seq<char>),
    Line { file: nat, kind: LineKind, old_no: Option<u32>, new_no: Option<u32>, text: Seq<char> },
    Binary,
    Gap,
}

impl View for DiffRow {
    type V = RowV;

    open spec fn view(&self) -> RowV {
        match self {
            DiffRow::Message(m) => RowV::Message(m@),
            DiffRow::FileHeader(i) => RowV::FileHeader(*i as nat),
            DiffRow::HunkHeader(h) => RowV::HunkHeader(h@),
            DiffRow::Line { file, kind, old_no, new_no, text } => RowV::Line {
                file: *file as nat,
                kind: *kind,
                old_no: *old_no,
                new_no: *new_no,
                text: text@,
            },
            DiffRow::Binary => RowV::Binary,
            DiffRow::Gap => RowV::Gap,
        }
    }
}

pub open spec fn rows_view(rows: Seq<DiffRow>) -> Seq<RowV> {
    rows.map_values(|r: DiffRow| r@)
}

/// The row of one line of file `i`.
pub open spec fn line_row(i: nat, l: LineV) -> RowV {
    RowV::Line { file: i, kind: l.kind, old_no: l.old_no, new_no: l.new_no, text: l.text }
}

/// The rows of lines, in order.
pub open spec fn line_rows(i: nat, lines: Seq<LineV>) -> Seq<RowV> {
    lines.map_values(|l: LineV| line_row(i, l))
}

/// Each hunk: its header row, then its lines.
pub open spec fn hunk_rows(i: nat, hunks: Seq<HunkV>) -> Seq<RowV>
    decreases hunks.len(),
{
    if hunks.len() == 0 {
        Seq::empty()
    } else {
        hunk_rows(i, hunks.drop_last()) + seq![RowV::HunkHeader(hunks.last().header)] + line_rows(
            i,
            hunks.last().lines,
        )
    }
}

/// A file: its header, then a "binary" row or its hunks, then a gap.
pub open spec fn file_rows(i: nat, f: FileV) -> Seq<RowV> {
    seq![RowV::FileHeader(i)] + (if f.binary {
        seq![RowV::Binary]
    } else {
        hunk_rows(i, f.hunks)
    }) + seq![RowV::Gap]
}

/// The rows of all files, in order.
pub open spec fn files_rows(files: Seq<FileV>) -> Seq<RowV>
    decreases files.len(),
{
    if files.len() == 0 {
        Seq::empty()
    } else {
        files_rows(files.drop_last()) + file_rows((files.len() - 1) as nat, files.last())
    }
}

/// The message (when showing one commit) and a gap, then every file.
pub open spec fn diff_rows(message: Option<MessageV>, files: Seq<FileV>) -> Seq<RowV> {
    (match message {
        Some(m) => seq![RowV::Message(m), RowV::Gap],
        None => Seq::empty(),
    }) + files_rows(files)
}

pub fn clone_message(m: &CommitMessage) -> (r: CommitMessage)
    ensures
        r@ == m@,
{
    CommitMessage {
        short: m.short.clone(),
        author: m.author.clone(),
        date: m.date.clone(),
        title: m.title.clone(),
        body: m.body.clone(),
    }
}

/// Appends the rows of one file.
fn push_file_rows(rows: &mut Vec<DiffRow>, i: usize, f: &FileDiff)
    ensures
        rows_view(final(rows)@) == rows_view(old(rows)@) + file_rows(i as nat, f@),
{
    let ghost start = rows_view(rows@);
    rows.push(DiffRow::FileHeader(i));
    proof {
        assert(rows_view(rows@) =~= start + seq![RowV::FileHeader(i as nat)]);
    }
    if f.binary {
        rows.push(DiffRow::Binary);
        proof {
            assert(rows_view(rows@) =~= start + seq![RowV::FileHeader(i as nat)] + seq![RowV::Binary]);
        }
    } else {
        let ghost hv = f@.hunks;
        for h in 0..f.hunks.len()
            invariant
                hv == f@.hunks,
                !f.binary,
                rows_view(rows@) == start + seq![RowV::FileHeader(i as nat)] + hunk_rows(
                    i as nat,
                    hv.take(h as int),
                ),
        {
            let hunk = &f.hunks[h];
            let ghost before = rows_view(rows@);
            rows.push(DiffRow::HunkHeader(hunk.header.clone()));
            proof {
                assert(rows_view(rows@) =~= before + seq![RowV::HunkHeader(hunk.header@)]);
            }
            let ghost mid = rows_view(rows@);
            let ghost lv = hunk@.lines;
            for k in 0..hunk.lines.len()
                invariant
                    lv == hunk@.lines,
                    rows_view(rows@) == mid + line_rows(i as nat, lv.take(k as int)),
            {
                let line: &DiffLine = &hunk.lines[k];
                let ghost b2 = rows_view(rows@);
                rows.push(
                    DiffRow::Line {
                        file: i,
                        kind: line.kind,
                        old_no: line.old_no,
                        new_no: line.new_no,
                        text: line.text.clone(),
                    },
                );
                proof {
                    assert(lv[k as int] == line@);
                    assert(line_rows(i as nat, lv.take(k + 1)) =~= line_rows(i as nat, lv.take(k as int))
                        + seq![line_row(i as nat, line@)]);
                    assert(rows_view(rows@) =~= b2 + seq![line_row(i as nat, line@)]);
                }
            }
            proof {
                assert(lv.take(lv.len() as int) =~= lv);
                assert(hv.take(h + 1).drop_last() =~= hv.take(h as int));
                assert(hv.take(h + 1).last() == hunk@);
            }
        }
        proof {
            assert(hv.take(hv.len() as int) =~= hv);
        }
    }
    let ghost before_gap = rows_view(rows@);
    rows.push(DiffRow::Gap);
    proof {
        assert(rows_view(rows@) =~= before_gap + seq![RowV::Gap]);
        assert(rows_view(rows@) =~= start + file_rows(i as nat, f@));
    }
}

/// Flattens a diff into rows, and gives for each file the index of its header
/// row (where clicking the file in the tree scrolls to).
pub fn flatten_diff(diff: &DiffSet) -> (r: (Vec<DiffRow>, Vec<usize>))
    ensures
        rows_view(r.0@) == diff_rows(opt_message(diff.message), files_view(diff.files@)),
        r.1@.len() == diff.files@.len(),
        forall|i: int|
            0 <= i < r.1@.len() ==> r.1@[i] < r.0@.len() && rows_view(r.0@)[#[trigger] r.1@[i] as int]
                == RowV::FileHeader(i as nat),
{
    let mut rows: Vec<DiffRow> = Vec::new();
    let mut headers: Vec<usize> = Vec::new();
    match &diff.message {
        Some(m) => {
            rows.push(DiffRow::Message(clone_message(m)));
            rows.push(DiffRow::Gap);
        },
        None => {},
    }
    let ghost pre = rows_view(rows@);
    proof {
        assert(pre =~= match opt_message(diff.message) {
            Some(m) => seq![RowV::Message(m), RowV::Gap],
            None => Seq::<RowV>::empty(),
        });
    }
    let ghost fv = files_view(diff.files@);
    for i in 0..diff.files.len()
        invariant
            fv == files_view(diff.files@),
            rows_view(rows@) == pre + files_rows(fv.take(i as int)),
            headers@.len() == i,
            forall|j: int|
                0 <= j < i ==> headers@[j] < rows@.len() && rows_view(rows@)[#[trigger] headers@[j] as int]
                    == RowV::FileHeader(j as nat),
    {
        let ghost before = rows_view(rows@);
        let ghost old_headers = headers@;
        headers.push(rows.len());
        push_file_rows(&mut rows, i, &diff.files[i]);
        proof {
            assert(rows_view(rows@).len() == rows@.len());
            assert(headers@[i as int] == before.len());
            assert(file_rows(i as nat, diff.files@[i as int]@)[0] == RowV::FileHeader(i as nat));
            assert(fv.take(i + 1).drop_last() =~= fv.take(i as int));
            assert(fv.take(i + 1).last() == diff.files@[i as int]@);
            assert(rows_view(rows@)[before.len() as int] == RowV::FileHeader(i as nat));
            assert forall|j: int| 0 <= j < i + 1 implies headers@[j] < rows@.len() && rows_view(
                rows@,
            )[#[trigger] headers@[j] as int] == RowV::FileHeader(j as nat) by {
                if j < i {
                    assert(headers@[j] == old_headers[j]);
                    assert(rows_view(rows@)[headers@[j] as int] == before[headers@[j] as int]);
                }
            }
        }
    }
    proof {
        assert(fv.take(fv.len() as int) =~= fv);
    }
    (rows, headers)
}

/// Row `r`, when it is a line row, shows a line of the diff exactly: some
/// line of file `file`, with that line's kind, numbers and text.
pub open spec fn shows_a_line_of(r: RowV, files: Seq<FileV>) -> bool {
    match r {
        RowV::Line { file, kind, old_no, new_no, text } => file < files.len() && !files[file as int].binary && exists|
            j: int,
            k: int,
        |
            0 <= j < files[file as int].hunks.len() && 0 <= k < files[file as int].hunks[j].lines.len()
                && #[trigger] files[file as int].hunks[j].lines[k] == (LineV { kind, old_no, new_no, text }),
        _ => true,
    }
}

proof fn lemma_hunk_rows_show_lines(files: Seq<FileV>, i: nat, n: int)
    requires
        i < files.len(),
        !files[i as int].binary,
        0 <= n <= files[i as int].hunks.len(),
    ensures
        forall|p: int|
            0 <= p < hunk_rows(i, files[i as int].hunks.take(n)).len() ==> shows_a_line_of(
                #[trigger] hunk_rows(i, files[i as int].hunks.take(n))[p],
                files,
            ),
    decreases n,
{
    let hs = files[i as int].hunks.take(n);
    if n > 0 {
        lemma_hunk_rows_show_lines(files, i, n - 1);
        assert(hs.drop_last() =~= files[i as int].hunks.take(n - 1));
        let a = hunk_rows(i, hs.drop_last());
        let h = hs.last();
        assert(h == files[i as int].hunks[n - 1]);
        let ls = line_rows(i, h.lines);
        let rows = hunk_rows(i, hs);
        assert(rows == a + seq![RowV::HunkHeader(h.header)] + ls);
        assert forall|p: int| 0 <= p < rows.len() implies shows_a_line_of(#[trigger] rows[p], files) by {
            if p < a.len() {
                assert(rows[p] == a[p]);
            } else if p > a.len() {
                let k = p - a.len() - 1;
                assert(rows[p] == ls[k]);
                let l = h.lines[k];
                assert(files[i as int].hunks[n - 1].lines[k] == l);
                assert(l == (LineV { kind: l.kind, old_no: l.old_no, new_no: l.new_no, text: l.text }));
            }
        }
    }
}

proof fn lemma_files_rows_show_lines(files: Seq<FileV>, n: int)
    requires
        0 <= n <= files.len(),
    ensures
        forall|p: int|
            0 <= p < files_rows(files.take(n)).len() ==> shows_a_line_of(#[trigger] files_rows(files.take(n))[p], files),
    decreases n,
{
    if n > 0 {
        lemma_files_rows_show_lines(files, n - 1);
        let fs = files.take(n);
        assert(fs.drop_last() =~= files.take(n - 1));
        let f = files[n - 1];
        assert(fs.last() == f);
        let i = (n - 1) as nat;
        let a = files_rows(files.take(n - 1));
        let body = if f.binary {
            seq![RowV::Binary]
        } else {
            hunk_rows(i, f.hunks)
        };
        let rows = files_rows(fs);
        assert(rows == a + (seq![RowV::FileHeader(i)] + body + seq![RowV::Gap]));
        if !f.binary {
            lemma_hunk_rows_show_lines(files, i, f.hunks.len() as int);
            assert(f.hunks.take(f.hunks.len() as int) =~= f.hunks);
        }
        assert forall|p: int| 0 <= p < rows.len() implies shows_a_line_of(#[trigger] rows[p], files) by {
            if p < a.len() {
                assert(rows[p] == a[p]);
            } else if p > a.len() && p < a.len() + 1 + body.len() {
                assert(rows[p] == body[p - a.len() - 1]);
            }
        }
    }
}

/// Every line row of the flattened diff shows one of the diff's lines as it
/// is: in that line's file (never a binary one), with its kind, its old and
/// new numbers and its text unchanged.
pub proof fn law_line_rows_show_lines(message: Option<MessageV>, files: Seq<FileV>)
    ensures
        forall|p: int|
            0 <= p < diff_rows(message, files).len() ==> shows_a_line_of(#[trigger] diff_rows(message, files)[p], files),
{
    lemma_files_rows_show_lines(files, files.len() as int);
    assert(files.take(files.len() as int) =~= files);
    let head: Seq<RowV> = match message {
        Some(m) => seq![RowV::Message(m), RowV::Gap],
        None => Seq::empty(),
    };
    let rows = diff_rows(message, files);
    assert(rows == head + files_rows(files));
    assert forall|p: int| 0 <= p < rows.len() implies shows_a_line_of(#[trigger] rows[p], files) by {
        if p >= head.len() {
            assert(rows[p] == files_rows(files)[p - head.len()]);
        }
    }
}

} // verus!
