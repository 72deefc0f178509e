//! The commit list and the three kinds of diff the main view shows: one commit
//! against its first parent, a range between two commits, and the working tree.

use vstd::prelude::*;
use crate::collect::{sum_added, sum_removed};
use crate::ids::{short_of, short_oid};
use crate::model::{
    files_view, CommitInfo, CommitMessage, DiffSet, DiffSetV, FileDiff, MessageV, ObjectId,
};
use crate::paths::{file_name_chars, file_name_spec};
use crate::text::{owned, string_of, trim, trim_spec};
use crate::dates::{format_time, in_jiff_range, utc_ymd};

verus! {

/// What the commit list and the message view read of a commit object.
pub struct CommitFacts {
    pub oid: ObjectId,
    /// The first paragraph of the message, trimmed and squashed by libgit2.
    pub summary: Option<String>,
    /// The message after the summary.
    pub body: Option<String>,
    pub author_name: Option<String>,
    pub author_email: Option<String>,
    /// The commit time, in seconds since the Unix epoch.
    pub time: i64,
}

/// The date text of a commit time.
pub open spec fn date_text(secs: i64) -> Seq<char> {
    if in_jiff_range(secs) {
        utc_ymd(secs)
    } else {
        "????-??-??"@
    }
}

pub open spec fn or_text(o: Option<String>, dflt: Seq<char>) -> Seq<char> {
    match o {
        Some(s) => s@,
        None => dflt,
    }
}

fn or_owned(o: &Option<String>, dflt: &str) -> (s: String)
    ensures
        s@ == or_text(*o, dflt@),
{
    match o {
        Some(t) => t.clone(),
        None => owned(dflt),
    }
}

/// The synthetic first row of the commit list, standing for the uncommitted changes.
pub fn working_tree_row() -> (c: CommitInfo)
    ensures
        c.oid is None,
        c.short@ == "\u{b7}\u{b7}\u{b7}\u{b7}\u{b7}\u{b7}\u{b7}"@,
        c.author@ == "You"@,
        c.date@ == "now"@,
        c.title@ == "Uncommitted changes (working tree)"@,
{
    CommitInfo {
        oid: None,
        short: owned("\u{b7}\u{b7}\u{b7}\u{b7}\u{b7}\u{b7}\u{b7}"),
        author: owned("You"),
        date: owned("now"),
        title: owned("Uncommitted changes (working tree)"),
    }
}

/// A row of the commit list: short id, author (`unknown` when unnamed), date,
/// and the trimmed summary (`(no message)` when there is none).
pub open spec fn row_matches(c: CommitInfo, f: CommitFacts) -> bool {
    &&& c.oid == Some(f.oid)
    &&& c.short@ == short_of(f.oid.bytes@)
    &&& c.author@ == or_text(f.author_name, "unknown"@)
    &&& c.date@ == date_text(f.time)
    &&& c.title@ == trim_spec(or_text(f.summary, "(no message)"@))
}

pub fn commit_row(f: &CommitFacts) -> (c: CommitInfo)
    ensures
        row_matches(c, *f),
{
    let summary = or_owned(&f.summary, "(no message)");
    CommitInfo {
        oid: Some(f.oid),
        short: short_oid(&f.oid),
        author: or_owned(&f.author_name, "unknown"),
        date: format_time(f.time),
        title: trim(summary.as_str()),
    }
}

/// The commit list: the working-tree row, then one row per commit, in order.
pub fn commit_list(commits: &Vec<CommitFacts>) -> (rows: Vec<CommitInfo>)
    ensures
        rows@.len() == commits@.len() + 1,
        rows@[0].oid is None,
        rows@[0].short@ == "\u{b7}\u{b7}\u{b7}\u{b7}\u{b7}\u{b7}\u{b7}"@,
        rows@[0].author@ == "You"@,
        rows@[0].date@ == "now"@,
        rows@[0].title@ == "Uncommitted changes (working tree)"@,
        forall|i: int| 0 <= i < commits@.len() ==> row_matches(#[trigger] rows@[i + 1], commits@[i]),
{
    let mut rows: Vec<CommitInfo> = Vec::new();
    rows.push(working_tree_row());
    for i in 0..commits.len()
        invariant
            rows@.len() == i + 1,
            rows@[0].oid is None,
            rows@[0].short@ == "\u{b7}\u{b7}\u{b7}\u{b7}\u{b7}\u{b7}\u{b7}"@,
            rows@[0].author@ == "You"@,
            rows@[0].date@ == "now"@,
            rows@[0].title@ == "Uncommitted changes (working tree)"@,
            forall|j: int| 0 <= j < i ==> row_matches(#[trigger] rows@[j + 1], commits@[j]),
    {
        rows.push(commit_row(&commits[i]));
    }
    rows
}

/// The message shown above a single commit's diff: short id, `name <email>`
/// (`unknown` and empty when absent), date, the summary (empty when absent)
/// and the trimmed body (empty when absent).
pub open spec fn message_for(f: CommitFacts) -> MessageV {
    MessageV {
        short: short_of(f.oid.bytes@),
        author: or_text(f.author_name, "unknown"@) + " <"@ + or_text(f.author_email, ""@) + ">"@,
        date: date_text(f.time),
        title: or_text(f.summary, ""@),
        body: match f.body {
            Some(b) => trim_spec(b@),
            None => Seq::empty(),
        },
    }
}

pub fn commit_message(f: &CommitFacts) -> (m: CommitMessage)
    ensures
        m@ == message_for(*f),
{
    let mut author = or_owned(&f.author_name, "unknown");
    author.append(" <");
    let email = or_owned(&f.author_email, "");
    author.append(email.as_str());
    author.append(">");
    let body = match &f.body {
        Some(b) => trim(b.as_str()),
        None => String::new(),
    };
    CommitMessage {
        short: short_oid(&f.oid),
        author,
        date: format_time(f.time),
        title: or_owned(&f.summary, ""),
        body,
    }
}

/// `git show <short>`: one commit against its first parent, with its message;
/// the totals are the sums of the files' counts.
pub fn show_set(f: &CommitFacts, files: Vec<FileDiff>, added: u32, removed: u32) -> (d: DiffSet)
    requires
        added == sum_added(files_view(files@)),
        removed == sum_removed(files_view(files@)),
    ensures
        d@ == (DiffSetV {
            message: Some(message_for(*f)),
            files: files_view(files@),
            added,
            removed,
            summary: "git show "@ + short_of(f.oid.bytes@),
        }),
{
    let message = commit_message(f);
    let mut summary = owned("git show ");
    let short = short_oid(&f.oid);
    summary.append(short.as_str());
    DiffSet { message: Some(message), files, added, removed, summary }
}

/// `git diff <from> <to>`: the trees of two commits; the totals are the sums
/// of the files' counts.
pub fn range_set(from: &ObjectId, to: &ObjectId, files: Vec<FileDiff>, added: u32, removed: u32) -> (d: DiffSet)
    requires
        added == sum_added(files_view(files@)),
        removed == sum_removed(files_view(files@)),
    ensures
        d@ == (DiffSetV {
            message: None,
            files: files_view(files@),
            added,
            removed,
            summary: "git diff "@ + short_of(from.bytes@) + " "@ + short_of(to.bytes@),
        }),
{
    let mut summary = owned("git diff ");
    let a = short_oid(from);
    summary.append(a.as_str());
    summary.append(" ");
    let b = short_oid(to);
    summary.append(b.as_str());
    DiffSet { message: None, files, added, removed, summary }
}

/// The working tree (staged and unstaged changes) against `HEAD`; the totals
/// are the sums of the files' counts.
pub fn working_set(files: Vec<FileDiff>, added: u32, removed: u32) -> (d: DiffSet)
    requires
        added == sum_added(files_view(files@)),
        removed == sum_removed(files_view(files@)),
    ensures
        d@ == (DiffSetV {
            message: None,
            files: files_view(files@),
            added,
            removed,
            summary: "working tree (uncommitted changes)"@,
        }),
{
    DiffSet { message: None, files, added, removed, summary: owned("working tree (uncommitted changes)") }
}

/// The name shown for a repository: the last component of its working
/// directory, or `repository` when there is none (a bare repository).
pub open spec fn repo_label(workdir: Option<Seq<char>>) -> Seq<char> {
    match workdir {
        Some(p) => match file_name_spec(p) {
            Some(n) => n,
            None => "repository"@,
        },
        None => "repository"@,
    }
}

pub fn workdir_name(workdir: Option<&str>) -> (s: String)
    ensures
        s@ == repo_label(match workdir {
            Some(p) => Some(p@),
            None => None,
        }),
{
    match workdir {
        Some(p) => match file_name_chars(p) {
            Some(n) => string_of(&n),
            None => owned("repository"),
        },
        None => owned("repository"),
    }
}

/// A commit's row and message name its author when the commit has one, and
/// `unknown` only when it has none; the row carries the commit's id and its
/// summary (trimmed), or `(no message)` when it has none.
pub proof fn law_rows_name_the_author(c: CommitInfo, f: CommitFacts)
    requires
        row_matches(c, f),
    ensures
        f.author_name matches Some(a) ==> c.author@ == a@,
        f.author_name is None ==> c.author@ == "unknown"@,
        c.oid == Some(f.oid),
        f.summary matches Some(t) ==> c.title@ == trim_spec(t@),
        f.summary is None ==> c.title@ == trim_spec("(no message)"@),
        f.author_name matches Some(a) ==> message_for(f).author.take(a@.len() as int) == a@,
        f.author_name is None ==> message_for(f).author.take(7) == "unknown"@,
{
    reveal_strlit("unknown");
    if let Some(a) = f.author_name {
        let m = message_for(f).author;
        assert(m == a@ + " <"@ + or_text(f.author_email, ""@) + ">"@);
        assert(m.take(a@.len() as int) =~= a@);
    } else {
        let m = message_for(f).author;
        assert(m == "unknown"@ + " <"@ + or_text(f.author_email, ""@) + ">"@);
        assert(m.take(7) =~= "unknown"@);
    }
}

} // verus!
