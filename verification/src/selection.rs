//! What the main view shows, and how clicks in the commit list change it.
//!
//! A row click opens that commit (or the working tree); the two endpoint
//! buttons set the ends of a comparison, and once both are set the view shows
//! the range between them. Every operation reports whether the view changed,
//! which is when the caller recomputes the diff.

use vstd::prelude::*;
use crate::model::{same_present, same_present_id, CommitInfo, ObjectId};
use crate::settings::Settings;

verus! {

/// What the main view is currently displaying.
#[derive(Clone, Copy, Debug)]
pub enum Showing {
    Working,
    Commit(ObjectId),
    Range(ObjectId, ObjectId),
}

/// The mathematical form of a `Showing`, with ids as their bytes.
pub enum ShowingV {
    Working,
    Commit(Seq<u8>),
    Range(Seq<u8>, Seq<u8>),
}

impl View for Showing {
    type V = ShowingV;

    open spec fn view(&self) -> ShowingV {
        match self {
            Showing::Working => ShowingV::Working,
            Showing::Commit(o) => ShowingV::Commit(o.bytes@),
            Showing::Range(a, b) => ShowingV::Range(a.bytes@, b.bytes@),
        }
    }
}

impl Showing {
    /// Whether two views show the same thing (`==` on `Showing`).
    pub fn same(&self, other: &Showing) -> (b: bool)
        ensures
            b == (self@ == other@),
    {
        match (self, other) {
            (Showing::Working, Showing::Working) => true,
            (Showing::Commit(a), Showing::Commit(b)) => a.same(b),
            (Showing::Range(a1, b1), Showing::Range(a2, b2)) => a1.same(a2) && b1.same(b2),
            _ => false,
        }
    }
}

/// What opening a row shows: its commit, or the working tree for the
/// synthetic first row.
pub open spec fn open_target(oid: Option<ObjectId>) -> ShowingV {
    match oid {
        Some(o) => ShowingV::Commit(o.bytes@),
        None => ShowingV::Working,
    }
}

/// The view shown at start: the first commit of the list, or the working
/// tree when the list has no commit.
pub open spec fn first_commit(rows: Seq<CommitInfo>) -> ShowingV
    decreases rows.len(),
{
    if rows.len() == 0 {
        ShowingV::Working
    } else {
        match rows[0].oid {
            Some(o) => ShowingV::Commit(o.bytes@),
            None => first_commit(rows.drop_first()),
        }
    }
}

pub fn initial_showing(rows: &Vec<CommitInfo>) -> (s: Showing)
    ensures
        s@ == first_commit(rows@),
{
    let mut i: usize = 0;
    assert(rows@.skip(0) =~= rows@);
    while i < rows.len()
        invariant
            i <= rows@.len(),
            first_commit(rows@) == first_commit(rows@.skip(i as int)),
        decreases rows@.len() - i,
    {
        assert(rows@.skip(i as int)[0] == rows@[i as int]);
        assert(rows@.skip(i as int).drop_first() =~= rows@.skip(i + 1));
        match rows[i].oid {
            Some(o) => {
                return Showing::Commit(o);
            },
            None => {},
        }
        i = i + 1;
    }
    assert(rows@.skip(i as int).len() == 0);
    Showing::Working
}

/// Whether a commit-list row is the one shown: the working-tree row while the
/// working tree is shown, or the row of the commit shown.
pub open spec fn is_current(showing: ShowingV, oid: Option<ObjectId>) -> bool {
    match (showing, oid) {
        (ShowingV::Working, None) => true,
        (ShowingV::Commit(o), Some(r)) => o == r.bytes@,
        _ => false,
    }
}

pub fn row_is_current(showing: &Showing, oid: &Option<ObjectId>) -> (b: bool)
    ensures
        b == is_current(showing@, *oid),
{
    match (showing, oid) {
        (Showing::Working, None) => true,
        (Showing::Commit(o), Some(r)) => o.same(r),
        _ => false,
    }
}

/// The selection state of the commit list.
#[derive(Clone, Copy, Debug)]
pub struct Selection {
    pub showing: Showing,
    pub from: Option<ObjectId>,
    pub to: Option<ObjectId>,
}

pub struct SelectionV {
    pub showing: ShowingV,
    pub from: Option<Seq<u8>>,
    pub to: Option<Seq<u8>>,
}

pub open spec fn opt_bytes(o: Option<ObjectId>) -> Option<Seq<u8>> {
    match o {
        Some(id) => Some(id.bytes@),
        None => None,
    }
}

impl View for Selection {
    type V = SelectionV;

    open spec fn view(&self) -> SelectionV {
        SelectionV { showing: self.showing@, from: opt_bytes(self.from), to: opt_bytes(self.to) }
    }
}

/// The range both endpoints select, once both are set.
pub open spec fn range_of(from: Option<Seq<u8>>, to: Option<Seq<u8>>) -> Option<ShowingV> {
    match (from, to) {
        (Some(a), Some(b)) => Some(ShowingV::Range(a, b)),
        _ => None,
    }
}

impl Selection {
    /// The start state: the given view, no endpoints.
    pub fn new(showing: Showing) -> (s: Selection)
        ensures
            s@.showing == showing@,
            s@.from is None,
            s@.to is None,
    {
        Selection { showing, from: None, to: None }
    }

    /// Show `next`; reports whether that changed the view.
    pub fn select(&mut self, next: Showing) -> (changed: bool)
        ensures
            final(self)@ == (SelectionV { showing: next@, ..old(self)@ }),
            changed == (old(self)@.showing != next@),
    {
        let changed = !self.showing.same(&next);
        if changed {
            self.showing = next;
        }
        changed
    }

    /// Once both endpoints are set, show the range between them.
    pub fn maybe_range(&mut self) -> (changed: bool)
        ensures
            final(self)@.from == old(self)@.from,
            final(self)@.to == old(self)@.to,
            final(self)@.showing == match range_of(old(self)@.from, old(self)@.to) {
                Some(r) => r,
                None => old(self)@.showing,
            },
            changed == (final(self)@.showing != old(self)@.showing),
    {
        match (self.from, self.to) {
            (Some(a), Some(b)) => self.select(Showing::Range(a, b)),
            _ => false,
        }
    }

    /// Click on a row: open its commit, or the working tree.
    pub fn open_row(&mut self, oid: Option<ObjectId>) -> (changed: bool)
        ensures
            final(self)@ == (SelectionV { showing: open_target(oid), ..old(self)@ }),
            changed == (old(self)@.showing != open_target(oid)),
    {
        let next = match oid {
            Some(o) => Showing::Commit(o),
            None => Showing::Working,
        };
        self.select(next)
    }

    /// Click on a row's "from" button.
    pub fn set_from(&mut self, oid: ObjectId) -> (changed: bool)
        ensures
            final(self)@ == after_from(old(self)@, oid.bytes@),
            changed == (final(self)@.showing != old(self)@.showing),
    {
        self.from = Some(oid);
        self.maybe_range()
    }

    /// Click on a row's "to" button.
    pub fn set_to(&mut self, oid: ObjectId) -> (changed: bool)
        ensures
            final(self)@ == after_to(old(self)@, oid.bytes@),
            changed == (final(self)@.showing != old(self)@.showing),
    {
        self.to = Some(oid);
        self.maybe_range()
    }

    /// Whether a row's "from" button is lit: it has an id and it is the "from" endpoint.
    pub fn is_from(&self, oid: &Option<ObjectId>) -> (b: bool)
        ensures
            b == same_present(*oid, self.from),
    {
        same_present_id(oid, &self.from)
    }

    /// Whether a row's "to" button is lit.
    pub fn is_to(&self, oid: &Option<ObjectId>) -> (b: bool)
        ensures
            b == same_present(*oid, self.to),
    {
        same_present_id(oid, &self.to)
    }
}

/// The state after the "from" button of commit `a`: `a` becomes the "from"
/// endpoint, and the range shows once "to" is set too.
pub open spec fn after_from(s: SelectionV, a: Seq<u8>) -> SelectionV {
    SelectionV {
        showing: match s.to {
            Some(b) => ShowingV::Range(a, b),
            None => s.showing,
        },
        from: Some(a),
        to: s.to,
    }
}

/// The state after the "to" button of commit `b`.
pub open spec fn after_to(s: SelectionV, b: Seq<u8>) -> SelectionV {
    SelectionV {
        showing: match s.from {
            Some(a) => ShowingV::Range(a, b),
            None => s.showing,
        },
        from: s.from,
        to: Some(b),
    }
}

/// Setting both endpoints, in either order, shows the range from the "from"
/// commit to the "to" commit.
pub proof fn law_endpoints_select_range(s: SelectionV, a: Seq<u8>, b: Seq<u8>)
    ensures
        after_to(after_from(s, a), b).showing == ShowingV::Range(a, b),
        after_from(after_to(s, b), a).showing == ShowingV::Range(a, b),
{
}

/// Opening a row after choosing a range leaves both endpoints set, so a later
/// endpoint click returns to a range that uses the other, kept endpoint.
pub proof fn law_open_keeps_endpoints(s: SelectionV, oid: Option<ObjectId>, b: Seq<u8>)
    requires
        s.from is Some,
    ensures
        after_to(SelectionV { showing: open_target(oid), ..s }, b).showing == ShowingV::Range(
            s.from->0,
            b,
        ),
{
}

/// In a commit list whose first row is the working tree and whose other
/// rows are commits: while the working tree is shown, its row is the only
/// current one; while a commit is shown, the current rows are that commit's;
/// while a range is shown, no row is current.
pub proof fn law_current_rows(rows: Seq<CommitInfo>, showing: ShowingV, k: int)
    requires
        0 <= k < rows.len(),
        rows[0].oid is None,
        forall|j: int| 0 < j < rows.len() ==> (#[trigger] rows[j]).oid is Some,
    ensures
        showing == ShowingV::Working ==> (is_current(showing, rows[k].oid) <==> k == 0),
        showing matches ShowingV::Commit(o) ==> (is_current(showing, rows[k].oid) <==> (rows[k].oid matches Some(r)
            && r.bytes@ == o)),
        showing is Range ==> !is_current(showing, rows[k].oid),
{
    if k > 0 {
        assert(rows[k].oid is Some);
    }
}

/// How a diff is read from the repository: the working tree against the
/// index and head, one commit against its first parent, or one commit against
/// another; each with or without whitespace changes.
#[derive(Clone, Copy, Debug)]
pub enum DiffQuery {
    Working { ignore_whitespace: bool },
    Commit { oid: ObjectId, ignore_whitespace: bool },
    Range { from: ObjectId, to: ObjectId, ignore_whitespace: bool },
}

/// The query for what the view shows, with whitespace changes left out
/// exactly when the settings hide them.
pub open spec fn query_for(showing: Showing, settings: Settings) -> DiffQuery {
    let ignore_whitespace = !settings.show_space;
    match showing {
        Showing::Working => DiffQuery::Working { ignore_whitespace },
        Showing::Commit(oid) => DiffQuery::Commit { oid, ignore_whitespace },
        Showing::Range(from, to) => DiffQuery::Range { from, to, ignore_whitespace },
    }
}

/// Chooses how to read the diff of what the view shows.
pub fn diff_query(showing: &Showing, settings: &Settings) -> (q: DiffQuery)
    ensures
        q == query_for(*showing, *settings),
{
    let ignore_whitespace = settings.ignore_whitespace();
    match showing {
        Showing::Working => DiffQuery::Working { ignore_whitespace },
        Showing::Commit(oid) => DiffQuery::Commit { oid: *oid, ignore_whitespace },
        Showing::Range(from, to) => DiffQuery::Range { from: *from, to: *to, ignore_whitespace },
    }
}

} // verus!
