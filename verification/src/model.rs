//! The diff model: commits, files, hunks and lines, as the UI renders them.

use vstd::prelude::*;

verus! {

/// A git object id (SHA-1), as its 20 raw bytes.
#[derive(Clone, Copy, Debug)]
pub struct ObjectId {
    pub bytes: [u8; 20],
}

impl ObjectId {
    /// Whether two ids name the same object.
    pub fn same(&self, other: &ObjectId) -> (b: bool)
        ensures
            b == (self.bytes@ == other.bytes@),
    {
        let mut i: usize = 0;
        while i < 20
            invariant
                i <= 20,
                self.bytes@.len() == 20,
                other.bytes@.len() == 20,
                forall|j: int| 0 <= j < i ==> self.bytes@[j] == other.bytes@[j],
            decreases 20 - i,
        {
            if self.bytes[i] != other.bytes[i] {
                return false;
            }
            i = i + 1;
        }
        assert(self.bytes@ =~= other.bytes@);
        true
    }
}

/// Whether two optional ids are both present and name the same object
/// (`a.is_some() && a == b`).
pub open spec fn same_present(a: Option<ObjectId>, b: Option<ObjectId>) -> bool {
    &&& a is Some
    &&& b is Some
    &&& a->0.bytes@ == b->0.bytes@
}

pub fn same_present_id(a: &Option<ObjectId>, b: &Option<ObjectId>) -> (r: bool)
    ensures
        r == same_present(*a, *b),
{
    match (a, b) {
        (Some(x), Some(y)) => x.same(y),
        _ => false,
    }
}

/// One row in the commit list. The first row of the list is a synthetic
/// "working tree" entry, which has no id.
#[derive(Clone, Debug)]
pub struct CommitInfo {
    pub oid: Option<ObjectId>,
    pub short: String,
    pub author: String,
    pub date: String,
    pub title: String,
}

impl CommitInfo {
    pub fn is_working_tree(&self) -> (b: bool)
        ensures
            b == (self.oid is None),
    {
        self.oid.is_none()
    }
}

/// How a file changed between the two sides of a diff.
#[derive(Clone, Copy, PartialEq, Eq, Structural, Debug)]
pub enum ChangeKind {
    Added,
    Deleted,
    Modified,
    Renamed,
}

/// The one-letter code shown next to a file.
pub open spec fn letter_of(k: ChangeKind) -> char {
    match k {
        ChangeKind::Added => 'A',
        ChangeKind::Deleted => 'D',
        ChangeKind::Modified => 'M',
        ChangeKind::Renamed => 'R',
    }
}

impl ChangeKind {
    pub fn letter(self) -> (c: char)
        ensures
            c == letter_of(self),
    {
        match self {
            ChangeKind::Added => 'A',
            ChangeKind::Deleted => 'D',
            ChangeKind::Modified => 'M',
            ChangeKind::Renamed => 'R',
        }
    }
}

/// Whether a diff line is unchanged context, an addition or a removal.
#[derive(Clone, Copy, PartialEq, Eq, Structural, Debug)]
pub enum LineKind {
    Context,
    Added,
    Removed,
}

#[derive(Clone, Debug)]
pub struct DiffLine {
    pub kind: LineKind,
    pub old_no: Option<u32>,
    pub new_no: Option<u32>,
    pub text: String,
}

#[derive(Clone, Debug)]
pub struct Hunk {
    pub header: String,
    pub lines: Vec<DiffLine>,
}

#[derive(Clone, Debug)]
pub struct FileDiff {
    pub path: String,
    pub old_path: Option<String>,
    pub kind: ChangeKind,
    pub added: u32,
    pub removed: u32,
    pub hunks: Vec<Hunk>,
    pub binary: bool,
}

/// The full result shown in the main view.
#[derive(Debug)]
pub struct DiffSet {
    /// Present only when showing a single commit.
    pub message: Option<CommitMessage>,
    pub files: Vec<FileDiff>,
    pub added: u32,
    pub removed: u32,
    /// Human summary, e.g. `git show a1b2c3d` or `git diff a1b2c3d e4f5a6b`.
    pub summary: String,
}

#[derive(Clone, Debug)]
pub struct CommitMessage {
    pub short: String,
    pub author: String,
    pub date: String,
    pub title: String,
    pub body: String,
}

// ---------------------------------------------------------------------------
// Mathematical views
// ---------------------------------------------------------------------------

pub struct LineV {
    pub kind: LineKind,
    pub old_no: Option<u32>,
    pub new_no: Option<u32>,
    pub text: Seq<char>,
}

pub struct HunkV {
    pub header: Seq<char>,
    pub lines: Seq<LineV>,
}

pub struct FileV {
    pub path: Seq<char>,
    pub old_path: Option<Seq<char>>,
    pub kind: ChangeKind,
    pub added: u32,
    pub removed: u32,
    pub hunks: Seq<HunkV>,
    pub binary: bool,
}

pub struct MessageV {
    pub short: Seq<char>,
    pub author: Seq<char>,
    pub date: Seq<char>,
    pub title: Seq<char>,
    pub body: Seq<char>,
}

pub struct DiffSetV {
    pub message: Option<MessageV>,
    pub files: Seq<FileV>,
    pub added: u32,
    pub removed: u32,
    pub summary: Seq<char>,
}

pub open spec fn opt_text(o: Option<String>) -> Option<Seq<char>> {
    match o {
        Some(s) => Some(s@),
        None => None,
    }
}

impl View for DiffLine {
    type V = LineV;

    open spec fn view(&self) -> LineV {
        LineV { kind: self.kind, old_no: self.old_no, new_no: self.new_no, text: self.text@ }
    }
}

impl View for Hunk {
    type V = HunkV;

    open spec fn view(&self) -> HunkV {
        HunkV { header: self.header@, lines: self.lines@.map_values(|l: DiffLine| l@) }
    }
}

impl View for FileDiff {
    type V = FileV;

    open spec fn view(&self) -> FileV {
        FileV {
            path: self.path@,
            old_path: opt_text(self.old_path),
            kind: self.kind,
            added: self.added,
            removed: self.removed,
            hunks: self.hunks@.map_values(|h: Hunk| h@),
            binary: self.binary,
        }
    }
}

impl View for CommitMessage {
    type V = MessageV;

    open spec fn view(&self) -> MessageV {
        MessageV {
            short: self.short@,
            author: self.author@,
            date: self.date@,
            title: self.title@,
            body: self.body@,
        }
    }
}

pub open spec fn opt_message(m: Option<CommitMessage>) -> Option<MessageV> {
    match m {
        Some(m) => Some(m@),
        None => None,
    }
}

pub open spec fn files_view(files: Seq<FileDiff>) -> Seq<FileV> {
    files.map_values(|f: FileDiff| f@)
}

impl View for DiffSet {
    type V = DiffSetV;

    open spec fn view(&self) -> DiffSetV {
        DiffSetV {
            message: opt_message(self.message),
            files: files_view(self.files@),
            added: self.added,
            removed: self.removed,
            summary: self.summary@,
        }
    }
}

/// The diff shown before anything has been computed: no message, no files,
/// no counts and an empty summary.
pub fn empty_diff() -> (d: DiffSet)
    ensures
        d.message is None,
        d.files@.len() == 0,
        d.added == 0,
        d.removed == 0,
        d.summary@.len() == 0,
{
    DiffSet { message: None, files: Vec::new(), added: 0, removed: 0, summary: String::new() }
}

/// The diff shown in place of one that could not be read: the diff read, or
/// else one with no message, no files, no counts and the summary `error`.
pub fn diff_or_error(read: Option<DiffSet>) -> (d: DiffSet)
    ensures
        match read {
            Some(r) => d@ == r@,
            None => d@ == (DiffSetV { message: None, files: Seq::empty(), added: 0, removed: 0, summary: "error"@ }),
        },
{
    match read {
        Some(r) => r,
        None => {
            let files: Vec<FileDiff> = Vec::new();
            assert(files_view(files@) =~= Seq::<FileV>::empty());
            DiffSet { message: None, files, added: 0, removed: 0, summary: crate::text::owned("error") }
        },
    }
}

} // verus!
