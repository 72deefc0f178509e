//! Folding libgit2's diff callbacks into the diff model.
//!
//! libgit2 walks a diff by calling back once per file delta, once per binary
//! payload, once per hunk and once per line, always in that nesting. The walk
//! itself belongs to the caller; each callback here is one step of a state
//! machine whose state is the list of files built so far and the running totals.

use vstd::prelude::*;
use crate::model::{
    files_view, opt_text, ChangeKind, DiffLine, FileDiff, FileV, Hunk, HunkV, LineKind, LineV,
};
use crate::text::{owned, trim_end, trim_end_spec, trim_newlines, trim_newlines_spec};

verus! {

/// The status libgit2 gives a file delta (`git2::Delta`).
#[derive(Clone, Copy, PartialEq, Eq, Structural, Debug)]
pub enum DeltaStatus {
    Unmodified,
    Added,
    Deleted,
    Modified,
    Renamed,
    Copied,
    Ignored,
    Untracked,
    Typechange,
    Unreadable,
    Conflicted,
}

/// Added, copied and untracked files count as added; deleted and renamed keep
/// their kind; everything else is a modification.
pub open spec fn kind_for(s: DeltaStatus) -> ChangeKind {
    match s {
        DeltaStatus::Added | DeltaStatus::Copied | DeltaStatus::Untracked => ChangeKind::Added,
        DeltaStatus::Deleted => ChangeKind::Deleted,
        DeltaStatus::Renamed => ChangeKind::Renamed,
        _ => ChangeKind::Modified,
    }
}

pub fn kind_of(s: DeltaStatus) -> (k: ChangeKind)
    ensures
        k == kind_for(s),
{
    match s {
        DeltaStatus::Added | DeltaStatus::Copied | DeltaStatus::Untracked => ChangeKind::Added,
        DeltaStatus::Deleted => ChangeKind::Deleted,
        DeltaStatus::Renamed => ChangeKind::Renamed,
        _ => ChangeKind::Modified,
    }
}

pub open spec fn opt_str(o: Option<&str>) -> Option<Seq<char>> {
    match o {
        Some(s) => Some(s@),
        None => None,
    }
}

/// The file a delta opens: named by its new path, else its old path, else
/// `<unknown>`; the old path is kept only when it differs from the new one.
pub open spec fn file_for(
    new_path: Option<Seq<char>>,
    old_path: Option<Seq<char>>,
    status: DeltaStatus,
    binary: bool,
) -> FileV {
    FileV {
        path: match new_path {
            Some(p) => p,
            None => match old_path {
                Some(p) => p,
                None => "<unknown>"@,
            },
        },
        old_path: match old_path {
            Some(o) => if new_path == Some(o) { None } else { Some(o) },
            None => None,
        },
        kind: kind_for(status),
        added: 0,
        removed: 0,
        hunks: Seq::empty(),
        binary,
    }
}

/// The state of the walk: the files so far and the running totals.
pub struct CollectV {
    pub files: Seq<FileV>,
    pub added: u32,
    pub removed: u32,
}

/// A delta opens a new file.
pub open spec fn file_step(s: CollectV, f: FileV) -> CollectV {
    CollectV { files: s.files.push(f), ..s }
}

/// A binary payload marks the current file binary.
pub open spec fn binary_step(s: CollectV) -> CollectV {
    if s.files.len() == 0 {
        s
    } else {
        let f = s.files.last();
        CollectV { files: s.files.update(s.files.len() - 1, FileV { binary: true, ..f }), ..s }
    }
}

/// A hunk opens a new, empty hunk in the current file; its header loses its
/// trailing whitespace (and is empty when it was not UTF-8).
pub open spec fn hunk_step(s: CollectV, header: Option<Seq<char>>) -> CollectV {
    if s.files.len() == 0 {
        s
    } else {
        let f = s.files.last();
        let h = HunkV {
            header: match header {
                Some(t) => trim_end_spec(t),
                None => Seq::empty(),
            },
            lines: Seq::empty(),
        };
        CollectV { files: s.files.update(s.files.len() - 1, FileV { hunks: f.hunks.push(h), ..f }), ..s }
    }
}

/// The line a line callback describes: `+` is an addition numbered on the new
/// side, `-` a removal numbered on the old side (a missing number reads as 0),
/// anything else is context; the text loses its trailing line breaks.
pub open spec fn line_for(
    origin: char,
    old_lineno: Option<u32>,
    new_lineno: Option<u32>,
    content: Seq<char>,
) -> LineV {
    let text = trim_newlines_spec(content);
    if origin == '+' {
        LineV {
            kind: LineKind::Added,
            old_no: None,
            new_no: Some(
                match new_lineno {
                    Some(n) => n,
                    None => 0,
                },
            ),
            text,
        }
    } else if origin == '-' {
        LineV {
            kind: LineKind::Removed,
            old_no: Some(
                match old_lineno {
                    Some(n) => n,
                    None => 0,
                },
            ),
            new_no: None,
            text,
        }
    } else {
        LineV { kind: LineKind::Context, old_no: old_lineno, new_no: new_lineno, text }
    }
}

/// A line counts toward its file and the totals, and joins the current hunk
/// of the current file (a line with no hunk to join is counted but not kept).
pub open spec fn line_step(s: CollectV, l: LineV) -> CollectV {
    if s.files.len() == 0 {
        s
    } else {
        let f = s.files.last();
        let da: u32 = if l.kind == LineKind::Added { 1 } else { 0 };
        let dr: u32 = if l.kind == LineKind::Removed { 1 } else { 0 };
        let hunks = if f.hunks.len() == 0 {
            f.hunks
        } else {
            let h = f.hunks.last();
            f.hunks.update(f.hunks.len() - 1, HunkV { lines: h.lines.push(l), ..h })
        };
        let f2 = FileV {
            added: (f.added + da) as u32,
            removed: (f.removed + dr) as u32,
            hunks,
            ..f
        };
        CollectV {
            files: s.files.update(s.files.len() - 1, f2),
            added: (s.added + da) as u32,
            removed: (s.removed + dr) as u32,
        }
    }
}

/// The sum of the per-file added counts.
pub open spec fn sum_added(files: Seq<FileV>) -> nat
    decreases files.len(),
{
    if files.len() == 0 {
        0
    } else {
        sum_added(files.drop_last()) + files.last().added as nat
    }
}

/// The sum of the per-file removed counts.
pub open spec fn sum_removed(files: Seq<FileV>) -> nat
    decreases files.len(),
{
    if files.len() == 0 {
        0
    } else {
        sum_removed(files.drop_last()) + files.last().removed as nat
    }
}

/// The accumulator that the four libgit2 callbacks feed.
pub struct DiffCollector {
    pub files: Vec<FileDiff>,
    pub added: u32,
    pub removed: u32,
}

impl View for DiffCollector {
    type V = CollectV;

    open spec fn view(&self) -> CollectV {
        CollectV { files: files_view(self.files@), added: self.added, removed: self.removed }
    }
}

impl DiffCollector {
    /// The totals are the sums of the per-file counts.
    pub open spec fn wf(&self) -> bool {
        &&& sum_added(self@.files) == self.added
        &&& sum_removed(self@.files) == self.removed
    }

    pub fn new() -> (c: DiffCollector)
        ensures
            c.wf(),
            c@.files.len() == 0,
            c@.added == 0,
            c@.removed == 0,
    {
        DiffCollector { files: Vec::new(), added: 0, removed: 0 }
    }

    /// The file delta callback, given the paths on both sides (when known), the
    /// status and whether libgit2 flagged the file as binary.
    pub fn on_file(
        &mut self,
        new_path: Option<&str>,
        old_path: Option<&str>,
        status: DeltaStatus,
        binary: bool,
    )
        requires
            old(self).wf(),
        ensures
            final(self).wf(),
            final(self)@ == file_step(
                old(self)@,
                file_for(opt_str(new_path), opt_str(old_path), status, binary),
            ),
    {
        let same = match (new_path, old_path) {
            (Some(n), Some(o)) => owned(n) == owned(o),
            _ => false,
        };
        let path = match new_path {
            Some(p) => owned(p),
            None => match old_path {
                Some(p) => owned(p),
                None => owned("<unknown>"),
            },
        };
        proof {
            reveal_strlit("<unknown>");
        }
        let kept_old = if same {
            None
        } else {
            match old_path {
                Some(o) => Some(owned(o)),
                None => None,
            }
        };
        let f = FileDiff {
            path,
            old_path: kept_old,
            kind: kind_of(status),
            added: 0,
            removed: 0,
            hunks: Vec::new(),
            binary,
        };
        let ghost before = self@;
        let ghost target = file_for(opt_str(new_path), opt_str(old_path), status, binary);
        assert(f@.path == target.path);
        assert(f@.old_path == target.old_path);
        assert(f@.hunks == target.hunks);
        self.files.push(f);
        proof {
            assert(files_view(self.files@) =~= before.files.push(f@));
            assert(files_view(self.files@).drop_last() =~= before.files);
        }
    }

    /// The binary payload callback.
    pub fn on_binary(&mut self)
        requires
            old(self).wf(),
        ensures
            final(self).wf(),
            final(self)@ == binary_step(old(self)@),
    {
        let ghost before = self@;
        if let Some(mut f) = self.files.pop() {
            f.binary = true;
            self.files.push(f);
            proof {
                assert(files_view(self.files@) =~= before.files.update(
                    before.files.len() - 1,
                    FileV { binary: true, ..before.files.last() },
                ));
                assert(files_view(self.files@).drop_last() =~= before.files.drop_last());
            }
        }
    }

    /// The hunk callback, given the hunk header when it is valid UTF-8.
    pub fn on_hunk(&mut self, header: Option<&str>)
        requires
            old(self).wf(),
        ensures
            final(self).wf(),
            final(self)@ == hunk_step(
                old(self)@,
                match header {
                    Some(t) => Some(t@),
                    None => None,
                },
            ),
    {
        let ghost before = self@;
        if let Some(mut f) = self.files.pop() {
            let text = match header {
                Some(t) => trim_end(t),
                None => String::new(),
            };
            let h = Hunk { header: text, lines: Vec::new() };
            let ghost hunks0 = f@.hunks;
            f.hunks.push(h);
            proof {
                assert(f@.hunks =~= hunks0.push(h@));
                assert(h@.lines =~= Seq::<LineV>::empty());
            }
            let ghost f2 = f@;
            self.files.push(f);
            proof {
                assert(files_view(self.files@) =~= before.files.update(before.files.len() - 1, f2));
                assert(files_view(self.files@).drop_last() =~= before.files.drop_last());
            }
        }
    }

    /// The line callback, given the line's origin character, its numbers on
    /// both sides and its content.
    pub fn on_line(
        &mut self,
        origin: char,
        old_lineno: Option<u32>,
        new_lineno: Option<u32>,
        content: &str,
    )
        requires
            old(self).wf(),
            old(self)@.files.len() > 0 && origin == '+' ==> old(self).added < u32::MAX,
            old(self)@.files.len() > 0 && origin == '-' ==> old(self).removed < u32::MAX,
        ensures
            final(self).wf(),
            final(self)@ == line_step(old(self)@, line_for(origin, old_lineno, new_lineno, content@)),
    {
        let ghost before = self@;
        if let Some(mut f) = self.files.pop() {
            proof {
                assert(files_view(self.files@) =~= before.files.drop_last());
                lemma_sum_bounds(before.files);
            }
            let text = trim_newlines(content);
            let line = if origin == '+' {
                f.added = f.added + 1;
                self.added = self.added + 1;
                DiffLine {
                    kind: LineKind::Added,
                    old_no: None,
                    new_no: Some(
                        match new_lineno {
                            Some(n) => n,
                            None => 0,
                        },
                    ),
                    text,
                }
            } else if origin == '-' {
                f.removed = f.removed + 1;
                self.removed = self.removed + 1;
                DiffLine {
                    kind: LineKind::Removed,
                    old_no: Some(
                        match old_lineno {
                            Some(n) => n,
                            None => 0,
                        },
                    ),
                    new_no: None,
                    text,
                }
            } else {
                DiffLine { kind: LineKind::Context, old_no: old_lineno, new_no: new_lineno, text }
            };
            let ghost lv = line@;
            assert(lv == line_for(origin, old_lineno, new_lineno, content@));
            if let Some(mut h) = f.hunks.pop() {
                let ghost lines0 = h@.lines;
                h.lines.push(line);
                proof {
                    assert(h@.lines =~= lines0.push(lv));
                }
                f.hunks.push(h);
            }
            let ghost f2 = f@;
            self.files.push(f);
            proof {
                let fl = before.files.last();
                if fl.hunks.len() > 0 {
                    let hl = fl.hunks.last();
                    assert(f2.hunks =~= fl.hunks.update(
                        fl.hunks.len() - 1,
                        HunkV { lines: hl.lines.push(lv), ..hl },
                    ));
                } else {
                    assert(f2.hunks =~= fl.hunks);
                }
                assert(files_view(self.files@) =~= before.files.update(before.files.len() - 1, f2));
                assert(files_view(self.files@).drop_last() =~= before.files.drop_last());
            }
        }
    }

    /// The files and the two totals, once the walk is over.
    pub fn finish(self) -> (r: (Vec<FileDiff>, u32, u32))
        requires
            self.wf(),
        ensures
            files_view(r.0@) == self@.files,
            r.1 == self@.added,
            r.2 == self@.removed,
            r.1 == sum_added(files_view(r.0@)),
            r.2 == sum_removed(files_view(r.0@)),
    {
        (self.files, self.added, self.removed)
    }
}

/// One libgit2 callback, as plain values.
pub enum DiffEvent {
    File { new_path: Option<String>, old_path: Option<String>, status: DeltaStatus, binary: bool },
    Binary,
    Hunk { header: Option<String> },
    Line { origin: char, old_lineno: Option<u32>, new_lineno: Option<u32>, content: String },
}

pub enum EventV {
    File(Option<Seq<char>>, Option<Seq<char>>, DeltaStatus, bool),
    Binary,
    Hunk(Option<Seq<char>>),
    Line(LineV),
}

impl View for DiffEvent {
    type V = EventV;

    open spec fn view(&self) -> EventV {
        match self {
            DiffEvent::File { new_path, old_path, status, binary } => EventV::File(
                opt_text(*new_path),
                opt_text(*old_path),
                *status,
                *binary,
            ),
            DiffEvent::Binary => EventV::Binary,
            DiffEvent::Hunk { header } => EventV::Hunk(opt_text(*header)),
            DiffEvent::Line { origin, old_lineno, new_lineno, content } => EventV::Line(
                line_for(*origin, *old_lineno, *new_lineno, content@),
            ),
        }
    }
}

pub open spec fn event_step(s: CollectV, e: EventV) -> CollectV {
    match e {
        EventV::File(n, o, st, b) => file_step(s, file_for(n, o, st, b)),
        EventV::Binary => binary_step(s),
        EventV::Hunk(h) => hunk_step(s, h),
        EventV::Line(l) => line_step(s, l),
    }
}

/// The state before any callback.
pub open spec fn start() -> CollectV {
    CollectV { files: Seq::empty(), added: 0, removed: 0 }
}

/// The state after the callbacks `evs`, in order, from `s`.
pub open spec fn run(s: CollectV, evs: Seq<EventV>) -> CollectV
    decreases evs.len(),
{
    if evs.len() == 0 {
        s
    } else {
        event_step(run(s, evs.drop_last()), evs.last())
    }
}

/// The number of line callbacks of the given kind.
pub open spec fn line_events(evs: Seq<EventV>, k: LineKind) -> nat
    decreases evs.len(),
{
    if evs.len() == 0 {
        0
    } else {
        line_events(evs.drop_last(), k) + match evs.last() {
            EventV::Line(l) => if l.kind == k { 1nat } else { 0nat },
            _ => 0nat,
        }
    }
}

pub open spec fn events_view(evs: Seq<DiffEvent>) -> Seq<EventV> {
    evs.map_values(|e: DiffEvent| e@)
}

pub open spec fn wf_state(s: CollectV) -> bool {
    &&& sum_added(s.files) == s.added
    &&& sum_removed(s.files) == s.removed
}

/// Running the callbacks keeps the totals equal to the sums of the per-file
/// counts, and bounded by the number of added and removed lines seen.
pub proof fn law_totals_are_file_sums(evs: Seq<EventV>)
    requires
        line_events(evs, LineKind::Added) <= u32::MAX,
        line_events(evs, LineKind::Removed) <= u32::MAX,
    ensures
        wf_state(run(start(), evs)),
        run(start(), evs).added <= line_events(evs, LineKind::Added),
        run(start(), evs).removed <= line_events(evs, LineKind::Removed),
    decreases evs.len(),
{
    if evs.len() > 0 {
        let pre = evs.drop_last();
        law_totals_are_file_sums(pre);
        let s = run(start(), pre);
        lemma_sum_bounds(s.files);
        assert(run(start(), evs) == event_step(s, evs.last()));
        match evs.last() {
            EventV::File(..) => {
                let t = event_step(s, evs.last());
                assert(t.files.drop_last() =~= s.files);
                assert(sum_added(t.files) == sum_added(t.files.drop_last()) + t.files.last().added);
                assert(sum_removed(t.files) == sum_removed(t.files.drop_last()) + t.files.last().removed);
                assert(wf_state(t));
            },
            EventV::Binary => {
                if s.files.len() > 0 {
                    let t = event_step(s, evs.last());
                    assert(t.files.drop_last() =~= s.files.drop_last());
                    assert(sum_added(t.files) == sum_added(t.files.drop_last()) + t.files.last().added);
                    assert(sum_removed(t.files) == sum_removed(t.files.drop_last()) + t.files.last().removed);
                    assert(wf_state(t));
                }
            },
            EventV::Hunk(h) => {
                if s.files.len() > 0 {
                    let t = event_step(s, evs.last());
                    assert(t.files.drop_last() =~= s.files.drop_last());
                    assert(sum_added(t.files) == sum_added(t.files.drop_last()) + t.files.last().added);
                    assert(sum_removed(t.files) == sum_removed(t.files.drop_last()) + t.files.last().removed);
                    assert(wf_state(t));
                }
            },
            EventV::Line(l) => {
                if s.files.len() > 0 {
                    let t = event_step(s, evs.last());
                    assert(t.files.drop_last() =~= s.files.drop_last());
                    assert(line_events(evs, LineKind::Added) == line_events(pre, LineKind::Added)
                        + (if l.kind == LineKind::Added { 1nat } else { 0nat }));
                    assert(line_events(evs, LineKind::Removed) == line_events(pre, LineKind::Removed)
                        + (if l.kind == LineKind::Removed { 1nat } else { 0nat }));
                    assert(sum_added(t.files) == sum_added(t.files.drop_last()) + t.files.last().added);
                    assert(sum_removed(t.files) == sum_removed(t.files.drop_last()) + t.files.last().removed);
                    assert(wf_state(t));
                }
            },
        }
    }
}

/// Collects a whole walk at once: the files, the added total and the removed
/// total that the callbacks `events` produce in order.
pub fn collect(events: &Vec<DiffEvent>) -> (r: (Vec<FileDiff>, u32, u32))
    requires
        line_events(events_view(events@), LineKind::Added) <= u32::MAX,
        line_events(events_view(events@), LineKind::Removed) <= u32::MAX,
    ensures
        ({
            let s = run(start(), events_view(events@));
            files_view(r.0@) == s.files && r.1 == s.added && r.2 == s.removed
        }),
        r.1 == sum_added(files_view(r.0@)),
        r.2 == sum_removed(files_view(r.0@)),
{
    let ghost evs = events_view(events@);
    let mut c = DiffCollector::new();
    assert(c@ == start()) by {
        assert(c@.files =~= Seq::<FileV>::empty());
    }
    for i in 0..events.len()
        invariant
            evs == events_view(events@),
            line_events(evs, LineKind::Added) <= u32::MAX,
            line_events(evs, LineKind::Removed) <= u32::MAX,
            c.wf(),
            c@ == run(start(), evs.take(i as int)),
    {
        proof {
            assert(evs.take(i + 1).drop_last() =~= evs.take(i as int));
            lemma_line_events_prefix(evs, i + 1);
            lemma_line_events_prefix(evs, i as int);
            law_totals_are_file_sums(evs.take(i as int));
            assert(evs.take(i + 1).last() == evs[i as int]);
            assert(evs[i as int] == events@[i as int]@);
            lemma_sum_bounds(c@.files);
        }
        match &events[i] {
            DiffEvent::File { new_path, old_path, status, binary } => {
                let n = match new_path {
                    Some(p) => Some(p.as_str()),
                    None => None,
                };
                let o = match old_path {
                    Some(p) => Some(p.as_str()),
                    None => None,
                };
                c.on_file(n, o, *status, *binary);
            },
            DiffEvent::Binary => {
                c.on_binary();
            },
            DiffEvent::Hunk { header } => {
                let h = match header {
                    Some(t) => Some(t.as_str()),
                    None => None,
                };
                c.on_hunk(h);
            },
            DiffEvent::Line { origin, old_lineno, new_lineno, content } => {
                c.on_line(*origin, *old_lineno, *new_lineno, content.as_str());
            },
        }
    }
    assert(evs.take(events@.len() as int) =~= evs);
    c.finish()
}

/// Counting over a prefix never exceeds counting over the whole.
pub proof fn lemma_line_events_prefix(evs: Seq<EventV>, n: int)
    requires
        0 <= n <= evs.len(),
    ensures
        line_events(evs.take(n), LineKind::Added) <= line_events(evs, LineKind::Added),
        line_events(evs.take(n), LineKind::Removed) <= line_events(evs, LineKind::Removed),
    decreases evs.len(),
{
    if n < evs.len() {
        lemma_line_events_prefix(evs.drop_last(), n);
        assert(evs.drop_last().take(n) =~= evs.take(n));
    } else {
        assert(evs.take(n) =~= evs);
    }
}

/// Each file's count is at most the sum over all files.
pub proof fn lemma_sum_bounds(files: Seq<FileV>)
    ensures
        files.len() > 0 ==> files.last().added <= sum_added(files),
        files.len() > 0 ==> files.last().removed <= sum_removed(files),
        files.len() > 0 ==> sum_added(files.drop_last()) <= sum_added(files),
        files.len() > 0 ==> sum_removed(files.drop_last()) <= sum_removed(files),
{
}

/// The number of lines of kind `k`.
pub open spec fn count_kind(lines: Seq<LineV>, k: LineKind) -> nat
    decreases lines.len(),
{
    if lines.len() == 0 {
        0
    } else {
        count_kind(lines.drop_last(), k) + if lines.last().kind == k { 1nat } else { 0nat }
    }
}

/// The number of lines of kind `k` over all hunks.
pub open spec fn hunks_count_kind(hunks: Seq<HunkV>, k: LineKind) -> nat
    decreases hunks.len(),
{
    if hunks.len() == 0 {
        0
    } else {
        hunks_count_kind(hunks.drop_last(), k) + count_kind(hunks.last().lines, k)
    }
}

/// A file's counts are the numbers of added and removed lines in its hunks.
pub open spec fn counts_match(f: FileV) -> bool {
    &&& f.added == hunks_count_kind(f.hunks, LineKind::Added)
    &&& f.removed == hunks_count_kind(f.hunks, LineKind::Removed)
}

/// Every line callback comes after a hunk callback of the current file (or
/// before any file), as libgit2 nests them.
pub open spec fn nested(evs: Seq<EventV>) -> bool {
    forall|i: int|
        0 <= i < evs.len() && #[trigger] evs[i] is Line ==> {
            let s = run(start(), evs.take(i));
            s.files.len() == 0 || s.files.last().hunks.len() > 0
        }
}

/// When libgit2 nests its callbacks, each file's `+added -removed` counts are
/// exactly the numbers of added and removed lines kept in its hunks.
pub proof fn law_file_counts_are_line_counts(evs: Seq<EventV>)
    requires
        line_events(evs, LineKind::Added) <= u32::MAX,
        line_events(evs, LineKind::Removed) <= u32::MAX,
        nested(evs),
    ensures
        forall|i: int|
            0 <= i < run(start(), evs).files.len() ==> counts_match(
                #[trigger] run(start(), evs).files[i],
            ),
    decreases evs.len(),
{
    if evs.len() > 0 {
        let pre = evs.drop_last();
        assert forall|i: int| 0 <= i < pre.len() && #[trigger] pre[i] is Line implies {
            let s = run(start(), pre.take(i));
            s.files.len() == 0 || s.files.last().hunks.len() > 0
        } by {
            assert(pre.take(i) =~= evs.take(i));
            assert(pre[i] == evs[i]);
        }
        law_file_counts_are_line_counts(pre);
        law_totals_are_file_sums(pre);
        let s = run(start(), pre);
        lemma_sum_bounds(s.files);
        let t = event_step(s, evs.last());
        assert(run(start(), evs) == t);
        if s.files.len() > 0 {
            let n = s.files.len() - 1;
            let f = s.files.last();
            assert(counts_match(s.files[n]));
            match evs.last() {
                EventV::File(..) => {
                    let nf = t.files.last();
                    assert(hunks_count_kind(nf.hunks, LineKind::Added) == 0);
                    assert(hunks_count_kind(nf.hunks, LineKind::Removed) == 0);
                    assert(forall|i: int| 0 <= i < s.files.len() ==> t.files[i] == s.files[i]);
                },
                EventV::Binary => {
                    assert(forall|i: int| 0 <= i < n ==> t.files[i] == s.files[i]);
                    assert(t.files[n].hunks == f.hunks);
                },
                EventV::Hunk(h) => {
                    let nf = t.files[n];
                    assert(nf.hunks.drop_last() =~= f.hunks);
                    assert(count_kind(nf.hunks.last().lines, LineKind::Added) == 0);
                    assert(count_kind(nf.hunks.last().lines, LineKind::Removed) == 0);
                    assert(forall|i: int| 0 <= i < n ==> t.files[i] == s.files[i]);
                    assert(counts_match(nf));
                },
                EventV::Line(l) => {
                    assert(evs[evs.len() - 1] is Line);
                    assert(evs.take(evs.len() - 1) =~= pre);
                    assert(f.hunks.len() > 0);
                    assert(line_events(evs, LineKind::Added) == line_events(pre, LineKind::Added)
                        + (if l.kind == LineKind::Added { 1nat } else { 0nat }));
                    assert(line_events(evs, LineKind::Removed) == line_events(pre, LineKind::Removed)
                        + (if l.kind == LineKind::Removed { 1nat } else { 0nat }));
                    let nf = t.files[n];
                    let h = f.hunks.last();
                    assert(nf.hunks.drop_last() =~= f.hunks.drop_last());
                    assert(nf.hunks.last().lines.drop_last() =~= h.lines);
                    assert(hunks_count_kind(f.hunks, LineKind::Added) == hunks_count_kind(
                        f.hunks.drop_last(),
                        LineKind::Added,
                    ) + count_kind(h.lines, LineKind::Added));
                    assert(hunks_count_kind(f.hunks, LineKind::Removed) == hunks_count_kind(
                        f.hunks.drop_last(),
                        LineKind::Removed,
                    ) + count_kind(h.lines, LineKind::Removed));
                    assert(forall|i: int| 0 <= i < n ==> t.files[i] == s.files[i]);
                    assert(counts_match(nf));
                },
            }
        }
    }
}

/// A line callback, when a file with a hunk is open, appends exactly one line
/// to that hunk: a `+` line is an addition with its new number (0 when
/// missing) and no old one, a `-` line a removal with its old number (0 when
/// missing) and no new one, and any other line context with both numbers as
/// libgit2 gives them; the file's and the total counts grow by one for an
/// addition or a removal and stay for context; earlier files, hunks and
/// lines stay as they were.
pub proof fn law_line_callback(
    s: CollectV,
    origin: char,
    old_lineno: Option<u32>,
    new_lineno: Option<u32>,
    content: Seq<char>,
)
    requires
        s.files.len() > 0,
        s.files.last().hunks.len() > 0,
        origin == '+' ==> s.added < u32::MAX && s.files.last().added < u32::MAX,
        origin == '-' ==> s.removed < u32::MAX && s.files.last().removed < u32::MAX,
    ensures
        ({
            let t = line_step(s, line_for(origin, old_lineno, new_lineno, content));
            let f = s.files.last();
            let g = t.files.last();
            let h = f.hunks.last();
            let hh = g.hunks.last();
            let l = hh.lines.last();
            &&& t.files.len() == s.files.len()
            &&& forall|i: int| 0 <= i < s.files.len() - 1 ==> #[trigger] t.files[i] == s.files[i]
            &&& g.path == f.path && g.old_path == f.old_path && g.kind == f.kind && g.binary == f.binary
            &&& g.hunks.len() == f.hunks.len()
            &&& forall|j: int| 0 <= j < f.hunks.len() - 1 ==> #[trigger] g.hunks[j] == f.hunks[j]
            &&& hh.header == h.header
            &&& hh.lines.len() == h.lines.len() + 1
            &&& forall|k: int| 0 <= k < h.lines.len() ==> #[trigger] hh.lines[k] == h.lines[k]
            &&& l.text == trim_newlines_spec(content)
            &&& origin == '+' ==> {
                &&& l.kind == LineKind::Added
                &&& l.old_no is None
                &&& l.new_no == Some(if new_lineno is Some { new_lineno->0 } else { 0u32 })
                &&& g.added == f.added + 1 && g.removed == f.removed
                &&& t.added == s.added + 1 && t.removed == s.removed
            }
            &&& origin == '-' ==> {
                &&& l.kind == LineKind::Removed
                &&& l.old_no == Some(if old_lineno is Some { old_lineno->0 } else { 0u32 })
                &&& l.new_no is None
                &&& g.removed == f.removed + 1 && g.added == f.added
                &&& t.removed == s.removed + 1 && t.added == s.added
            }
            &&& origin != '+' && origin != '-' ==> {
                &&& l.kind == LineKind::Context
                &&& l.old_no == old_lineno
                &&& l.new_no == new_lineno
                &&& g.added == f.added && g.removed == f.removed
                &&& t.added == s.added && t.removed == s.removed
            }
        }),
{
    let t = line_step(s, line_for(origin, old_lineno, new_lineno, content));
    let f = s.files.last();
    let h = f.hunks.last();
    assert forall|i: int| 0 <= i < s.files.len() - 1 implies #[trigger] t.files[i] == s.files[i] by {}
    assert(t.files.last().hunks.last().lines == h.lines.push(line_for(origin, old_lineno, new_lineno, content)));
}

/// A file callback opens one new file after the others, named by its new
/// path, else its old path, else `<unknown>`, keeping the old path only when
/// it differs from the new one; added, copied and untracked files count as
/// added, deleted as deleted, renamed as renamed, anything else as modified;
/// it starts with no hunks and no counts, and the totals stay.
pub proof fn law_file_callback(
    s: CollectV,
    new_path: Option<Seq<char>>,
    old_path: Option<Seq<char>>,
    status: DeltaStatus,
    binary: bool,
)
    ensures
        ({
            let t = file_step(s, file_for(new_path, old_path, status, binary));
            let f = t.files.last();
            &&& t.files.len() == s.files.len() + 1
            &&& forall|i: int| 0 <= i < s.files.len() ==> #[trigger] t.files[i] == s.files[i]
            &&& t.added == s.added && t.removed == s.removed
            &&& new_path matches Some(p) ==> f.path == p
            &&& new_path is None && old_path is Some ==> f.path == old_path->0
            &&& new_path is None && old_path is None ==> f.path == "<unknown>"@
            &&& old_path is Some && new_path != old_path ==> f.old_path == old_path
            &&& old_path is Some && new_path == old_path ==> f.old_path is None
            &&& old_path is None ==> f.old_path is None
            &&& (status == DeltaStatus::Added || status == DeltaStatus::Copied || status == DeltaStatus::Untracked)
                ==> f.kind == ChangeKind::Added
            &&& status == DeltaStatus::Deleted ==> f.kind == ChangeKind::Deleted
            &&& status == DeltaStatus::Renamed ==> f.kind == ChangeKind::Renamed
            &&& (status == DeltaStatus::Modified || status == DeltaStatus::Unmodified || status == DeltaStatus::Ignored
                || status == DeltaStatus::Typechange || status == DeltaStatus::Unreadable || status
                == DeltaStatus::Conflicted) ==> f.kind == ChangeKind::Modified
            &&& f.added == 0 && f.removed == 0 && f.hunks.len() == 0 && f.binary == binary
        }),
{
}

/// A hunk callback opens one new, empty hunk at the end of the current file,
/// its header without trailing whitespace; a binary callback marks the
/// current file binary; neither changes anything else.
pub proof fn law_hunk_and_binary_callbacks(s: CollectV, header: Option<Seq<char>>)
    requires
        s.files.len() > 0,
    ensures
        ({
            let t = hunk_step(s, header);
            let f = s.files.last();
            let g = t.files.last();
            &&& t.files.len() == s.files.len() && t.added == s.added && t.removed == s.removed
            &&& forall|i: int| 0 <= i < s.files.len() - 1 ==> #[trigger] t.files[i] == s.files[i]
            &&& g.path == f.path && g.added == f.added && g.removed == f.removed && g.binary == f.binary
            &&& g.hunks.len() == f.hunks.len() + 1
            &&& forall|j: int| 0 <= j < f.hunks.len() ==> #[trigger] g.hunks[j] == f.hunks[j]
            &&& g.hunks.last().lines.len() == 0
            &&& header matches Some(h) ==> g.hunks.last().header == trim_end_spec(h)
            &&& header is None ==> g.hunks.last().header.len() == 0
        }),
        ({
            let t = binary_step(s);
            let f = s.files.last();
            let g = t.files.last();
            &&& t.files.len() == s.files.len() && t.added == s.added && t.removed == s.removed
            &&& forall|i: int| 0 <= i < s.files.len() - 1 ==> #[trigger] t.files[i] == s.files[i]
            &&& g.binary && g.path == f.path && g.hunks == f.hunks && g.added == f.added && g.removed == f.removed
        }),
{
    let t = hunk_step(s, header);
    assert(t.files.last().hunks == s.files.last().hunks.push(t.files.last().hunks.last()));
}

} // verus!
