//! What the index keeps about Idea Inbox, and how its rows become answers.
//!
//! Three tables mirror the authored files and six hold what the decisions add
//! up to, as `fold` computes it: the latest applicable decision wins, because
//! event ids sort by when the decision was taken.
use vstd::prelude::*;

use crate::ideas::ids::{valid_id, CaptureId, IdeaId};
use crate::ideas::records::Owner;
use crate::index::{cut_window, fts_query_spec, to_fts_query, to_nanos, window, IndexError};
use crate::sorted::{multiset_count_one, multiset_counts_two};
use crate::text::{less_than, seq_lt, seq_lt_irreflexive, seq_lt_total, seq_lt_transitive};
use vstd::seq_lib::to_multiset_insert;
use crate::slug::Slug;

verus! {

/// The clause every idea query pastes in. `is` rather than `=`, so that the
/// open user's records, whose owner is null, match the open user.
pub const OWNED: &'static str = "owner is :owner";

/// The `owner` column's value for an owner: a name, or null for the open user.
pub fn owner_column(owner: &Owner) -> (column: Option<String>)
    ensures
        match owner@ {
            Some(name) => (column matches Some(c) && c@ == name),
            None => column is None,
        },
{
    match owner.username() {
        Some(name) => Some(name.as_str().to_string()),
        None => None,
    }
}

/// A capture as the index holds it.
#[derive(Debug, Clone, PartialEq, Eq)]
pub struct CaptureRecord {
    pub id: CaptureId,
    pub owner: Owner,
    /// Nanoseconds since the epoch.
    pub created: i128,
    pub body: String,
    /// Whether it has been archived out of the inbox. Archived still counts as
    /// evidence.
    pub archived: bool,
    pub updated: i128,
    pub size: u64,
}

/// What the fold decided about one idea.
#[derive(Debug, Clone, PartialEq, Eq)]
pub struct IdeaState {
    pub id: IdeaId,
    pub owner: Owner,
    pub name: String,
    pub created: i128,
    /// Currently connected captures whose files are still there, oldest first.
    pub members: Vec<CaptureId>,
    /// Currently connected captures whose files are gone.
    pub missing: Vec<CaptureId>,
    /// Captures rejected as candidates for this idea.
    pub rejected: Vec<CaptureId>,
    pub retired: bool,
    /// The page this idea produced, if it has been promoted.
    pub promoted_to: Option<Slug>,
    pub last_signal: Option<i128>,
    pub updated: i128,
    pub size: u64,
}

/// One idea as a listing shows it.
#[derive(Debug, Clone, PartialEq, Eq)]
pub struct IdeaSummary {
    pub id: IdeaId,
    pub name: String,
    pub created: i128,
    /// Connected captures whose files are still there.
    pub members: usize,
    /// Connected captures whose files are gone.
    pub missing: usize,
    pub retired: bool,
    pub promoted_to: Option<Slug>,
    pub last_signal: Option<i128>,
    pub updated: i128,
}

impl IdeaSummary {
    /// The same diagnostic [`IdeaState::evidence_missing`] reports.
    pub fn evidence_missing(&self) -> (r: bool)
        ensures
            r == (!self.retired && self.members == 0),
    {
        !self.retired && self.members == 0
    }
}

impl IdeaState {
    /// Whether this idea has lost the evidence it rests on: it is not retired
    /// and nothing live is connected to it.
    pub fn evidence_missing(&self) -> (r: bool)
        ensures
            r == (!self.retired && self.members@.len() == 0),
    {
        !self.retired && self.members.len() == 0
    }
}

/// An idea that currently holds a given capture, and how much else it holds.
#[derive(Debug, Clone, PartialEq, Eq)]
pub struct IdeaHold {
    pub id: IdeaId,
    pub name: String,
    pub retired: bool,
    /// Live connected captures, this one included.
    pub members: usize,
}

impl IdeaHold {
    /// Whether this capture is the only thing keeping the idea answerable.
    pub fn depends_on_it(&self) -> (r: bool)
        ensures
            r == (!self.retired && self.members <= 1),
    {
        !self.retired && self.members <= 1
    }
}

/// How to narrow the inbox.
#[derive(Debug, Clone)]
pub struct CaptureListOptions {
    pub query: Option<String>,
    /// `None` for both, `Some(false)` for the live inbox, `Some(true)` for
    /// what has been processed out of it.
    pub archived: Option<bool>,
    pub from: Option<i128>,
    pub to: Option<i128>,
    pub limit: usize,
    pub offset: usize,
}

impl Default for CaptureListOptions {
    fn default() -> (o: Self)
        ensures
            o.query is None,
            o.archived is None,
            o.from is None,
            o.to is None,
            o.limit == 50,
            o.offset == 0,
    {
        CaptureListOptions { query: None, archived: None, from: None, to: None, limit: 50, offset: 0 }
    }
}

#[derive(Debug, Clone, PartialEq, Eq)]
pub struct CaptureList {
    pub captures: Vec<CaptureRecord>,
    /// Total matching captures, not just this page of them.
    pub total: usize,
}

#[derive(Debug, Clone, PartialEq, Eq)]
pub struct IdeaList {
    pub ideas: Vec<IdeaSummary>,
    pub total: usize,
}

/// The capture ids among `rows` whose flag is `live`, in row order, leaving
/// out any text that is not an id.
pub open spec fn ids_flagged(rows: Seq<(String, bool)>, live: bool) -> Seq<Seq<char>>
    decreases rows.len(),
{
    if rows.len() == 0 {
        seq![]
    } else {
        let r = rows.last();
        ids_flagged(rows.drop_last(), live) + (if valid_id(r.0@) && r.1 == live {
            seq![r.0@]
        } else {
            seq![]
        })
    }
}

/// The ids of membership rows, in row order.
pub open spec fn row_ids(rows: Seq<(String, bool)>) -> Seq<Seq<char>> {
    rows.map_values(|r: (String, bool)| r.0@)
}

proof fn flagged_are_rows(rows: Seq<(String, bool)>, live: bool)
    ensures
        forall|k: int|
            0 <= k < ids_flagged(rows, live).len() ==> exists|j: int|
                0 <= j < rows.len() && rows[j].0@ == #[trigger] ids_flagged(rows, live)[k],
    decreases rows.len(),
{
    if rows.len() > 0 {
        let front = rows.drop_last();
        flagged_are_rows(front, live);
        let f = ids_flagged(rows, live);
        assert forall|k: int| 0 <= k < f.len() implies exists|j: int| 0 <= j < rows.len() && rows[j].0@ == #[trigger] f[k] by {
            if k < ids_flagged(front, live).len() {
                let j = choose|j: int| 0 <= j < front.len() && front[j].0@ == ids_flagged(front, live)[k];
                assert(rows[j] == front[j]);
            } else {
                assert(f[k] == rows[rows.len() - 1].0@);
            }
        }
    }
}

/// Membership rows in ascending order of id give members and missing
/// captures in ascending order too: the split keeps the order it is given.
pub proof fn the_split_keeps_id_order(rows: Seq<(String, bool)>, live: bool)
    requires
        crate::sorted::names_sorted(row_ids(rows)),
    ensures
        crate::sorted::names_sorted(ids_flagged(rows, live)),
    decreases rows.len(),
{
    if rows.len() > 0 {
        let front = rows.drop_last();
        assert(crate::sorted::names_sorted(row_ids(front))) by {
            assert forall|i: int, j: int| 0 <= i < j < row_ids(front).len() implies seq_lt(
                #[trigger] row_ids(front)[i],
                #[trigger] row_ids(front)[j],
            ) by {
                assert(row_ids(front)[i] == row_ids(rows)[i] && row_ids(front)[j] == row_ids(rows)[j]);
            }
        }
        the_split_keeps_id_order(front, live);
        flagged_are_rows(front, live);
        let f = ids_flagged(rows, live);
        let g = ids_flagged(front, live);
        let last = rows[rows.len() - 1].0@;
        assert forall|i: int, j: int| 0 <= i < j < f.len() implies seq_lt(#[trigger] f[i], #[trigger] f[j]) by {
            if j >= g.len() {
                let k = choose|k: int| 0 <= k < front.len() && front[k].0@ == g[i];
                assert(row_ids(rows)[k] == g[i]);
                assert(row_ids(rows)[rows.len() - 1] == last);
            } else {
                assert(f[i] == g[i] && f[j] == g[j]);
            }
        }
    }
}

pub open spec fn capture_ids(ids: Seq<CaptureId>) -> Seq<Seq<char>> {
    ids.map_values(|id: CaptureId| id@)
}

/// An idea's connected captures split by whether their files are still there:
/// each row is a capture id and whether the capture is live.
pub fn split_membership(rows: &Vec<(String, bool)>) -> (r: (Vec<CaptureId>, Vec<CaptureId>))
    ensures
        capture_ids(r.0@) == ids_flagged(rows@, true),
        capture_ids(r.1@) == ids_flagged(rows@, false),
{
    let mut members: Vec<CaptureId> = Vec::new();
    let mut missing: Vec<CaptureId> = Vec::new();
    let mut i: usize = 0;
    while i < rows.len()
        invariant
            i <= rows@.len(),
            capture_ids(members@) == ids_flagged(rows@.take(i as int), true),
            capture_ids(missing@) == ids_flagged(rows@.take(i as int), false),
        decreases rows@.len() - i,
    {
        proof {
            assert(rows@.take(i + 1).drop_last() =~= rows@.take(i as int));
            assert(rows@.take(i + 1).last() == rows@[i as int]);
        }
        let ghost m0 = members@;
        let ghost x0 = missing@;
        match CaptureId::parse(rows[i].0.as_str()) {
            Ok(id) => {
                if rows[i].1 {
                    members.push(id);
                } else {
                    missing.push(id);
                }
            },
            Err(_) => {},
        }
        proof {
            assert(capture_ids(members@) =~= ids_flagged(rows@.take(i + 1), true));
            assert(capture_ids(missing@) =~= ids_flagged(rows@.take(i + 1), false));
        }
        i = i + 1;
    }
    proof {
        assert(rows@.take(rows@.len() as int) =~= rows@);
    }
    (members, missing)
}

/// The capture ids a list of texts names, in order, leaving out any text that
/// is not an id.
pub open spec fn ids_named(rows: Seq<String>) -> Seq<Seq<char>>
    decreases rows.len(),
{
    if rows.len() == 0 {
        seq![]
    } else {
        ids_named(rows.drop_last()) + (if valid_id(rows.last()@) {
            seq![rows.last()@]
        } else {
            seq![]
        })
    }
}

pub fn parse_captures(rows: &Vec<String>) -> (ids: Vec<CaptureId>)
    ensures
        capture_ids(ids@) == ids_named(rows@),
{
    let mut ids: Vec<CaptureId> = Vec::new();
    let mut i: usize = 0;
    while i < rows.len()
        invariant
            i <= rows@.len(),
            capture_ids(ids@) == ids_named(rows@.take(i as int)),
        decreases rows@.len() - i,
    {
        proof {
            assert(rows@.take(i + 1).drop_last() =~= rows@.take(i as int));
            assert(rows@.take(i + 1).last() == rows@[i as int]);
        }
        match CaptureId::parse(rows[i].as_str()) {
            Ok(id) => ids.push(id),
            Err(_) => {},
        }
        proof {
            assert(capture_ids(ids@) =~= ids_named(rows@.take(i + 1)));
        }
        i = i + 1;
    }
    proof {
        assert(rows@.take(rows@.len() as int) =~= rows@);
    }
    ids
}

/// An idea's own row in `idea_threads`.
#[derive(Debug, Clone)]
pub struct ThreadRow {
    pub name: String,
    pub created: i64,
    pub updated: i64,
    pub size: i64,
}

/// What the fold wrote for an idea in `idea_thread_state`: whether it is
/// retired, the page it was promoted to, and its last signal.
#[derive(Debug, Clone)]
pub struct FoldedRow {
    pub retired: i64,
    pub promoted_to: Option<String>,
    pub last_signal: Option<i64>,
}

/// An idea's state, from its row, its membership (each capture id with
/// whether the capture is still there), its rejections, and what the fold
/// wrote for it. An idea the fold has written nothing for is neither retired
/// nor promoted and has no signal.
pub fn idea_state_from(
    id: IdeaId,
    owner: Owner,
    thread: ThreadRow,
    membership: &Vec<(String, bool)>,
    rejections: &Vec<String>,
    folded: Option<FoldedRow>,
) -> (state: IdeaState)
    ensures
        state.id@ == id@,
        state.owner@ == owner@,
        state.name@ == thread.name@,
        state.created == thread.created,
        state.updated == thread.updated,
        state.size == thread.size as u64,
        capture_ids(state.members@) == ids_flagged(membership@, true),
        capture_ids(state.missing@) == ids_flagged(membership@, false),
        capture_ids(state.rejected@) == ids_named(rejections@),
        state.retired == (folded matches Some(f) && f.retired != 0),
        match folded {
            Some(f) => match f.promoted_to {
                Some(slug) => (state.promoted_to matches Some(s) && s@ == slug@),
                None => state.promoted_to is None,
            },
            None => state.promoted_to is None,
        },
        state.last_signal == (match folded {
            Some(f) => match f.last_signal {
                Some(n) => Some(n as i128),
                None => None,
            },
            None => None,
        }),
{
    let (members, missing) = split_membership(membership);
    let rejected = parse_captures(rejections);
    let (retired, promoted_to, last_signal) = match folded {
        Some(f) => (f.retired != 0, f.promoted_to, f.last_signal),
        None => (false, None, None),
    };
    IdeaState {
        id,
        owner,
        name: thread.name,
        created: thread.created as i128,
        members,
        missing,
        rejected,
        retired,
        promoted_to: match promoted_to {
            Some(slug) => Some(Slug::new(slug)),
            None => None,
        },
        last_signal: match last_signal {
            Some(n) => Some(n as i128),
            None => None,
        },
        updated: thread.updated as i128,
        size: thread.size as u64,
    }
}

/// What a capture listing binds into its query: a search (absent when the
/// text has no terms, so that an empty search is no search), the archive
/// filter as a number, the window's ends in nanoseconds, and the page.
#[derive(Debug, Clone, PartialEq, Eq)]
pub struct CaptureBindings {
    pub query: Option<String>,
    pub archived: Option<i64>,
    pub from: Option<i64>,
    pub to: Option<i64>,
    pub limit: i64,
    pub offset: i64,
}

pub open spec fn fits_i64(at: Option<i128>) -> bool {
    match at {
        Some(t) => i64::MIN <= t <= i64::MAX,
        None => true,
    }
}

pub open spec fn narrowed(at: Option<i128>) -> Option<i64> {
    match at {
        Some(t) => Some(t as i64),
        None => None,
    }
}

fn bound_of(at: Option<i128>, label: &'static str) -> (r: Result<Option<i64>, IndexError>)
    ensures
        fits_i64(at) ==> (r matches Ok(b) && b == narrowed(at)),
        !fits_i64(at) ==> (r matches Err(IndexError::TimestampOutOfRange { label: l }) && l == label),
{
    match at {
        None => Ok(None),
        Some(t) => match to_nanos(t, label) {
            Ok(n) => Ok(Some(n)),
            Err(e) => Err(e),
        },
    }
}

/// The bindings a capture listing runs with, refused when an end of its window
/// is outside what the index can store (the start is checked first).
pub fn capture_bindings(options: CaptureListOptions) -> (r: Result<CaptureBindings, IndexError>)
    ensures
        !fits_i64(options.from) ==> (r matches Err(IndexError::TimestampOutOfRange { label: l }) && l == "from"),
        fits_i64(options.from) && !fits_i64(options.to) ==> (r matches Err(IndexError::TimestampOutOfRange { label: l })
            && l == "to"),
        fits_i64(options.from) && fits_i64(options.to) ==> (r matches Ok(b) && b.from == narrowed(options.from)
            && b.to == narrowed(options.to)
            && b.archived == (match options.archived {
                Some(a) => Some(if a { 1i64 } else { 0i64 }),
                None => None,
            })
            && b.limit == options.limit as i64
            && b.offset == options.offset as i64
            && match options.query {
                Some(q) => match fts_query_spec(q@) {
                    Some(f) => (b.query matches Some(s) && s@ == f),
                    None => b.query is None,
                },
                None => b.query is None,
            }),
{
    let from = match bound_of(options.from, "from") {
        Ok(b) => b,
        Err(e) => return Err(e),
    };
    let to = match bound_of(options.to, "to") {
        Ok(b) => b,
        Err(e) => return Err(e),
    };
    let query = match &options.query {
        Some(q) => to_fts_query(q.as_str()),
        None => None,
    };
    let archived = match options.archived {
        Some(a) => Some(if a { 1i64 } else { 0i64 }),
        None => None,
    };
    Ok(CaptureBindings {
        query,
        archived,
        from,
        to,
        limit: options.limit as i64,
        offset: options.offset as i64,
    })
}

/// A row of a capture listing: id, created, updated, size, body, archived.
pub type CaptureRow = (String, i64, i64, i64, String, i64);

pub open spec fn record_matches(rec: CaptureRecord, row: CaptureRow, owner: Owner) -> bool {
    &&& rec.id@ == row.0@
    &&& rec.owner@ == owner@
    &&& rec.created == row.1
    &&& rec.updated == row.2
    &&& rec.size == row.3 as u64
    &&& rec.body@ == row.4@
    &&& rec.archived == (row.5 != 0)
}

/// The rows of a listing whose id parses, in order.
pub open spec fn listed_rows(rows: Seq<CaptureRow>) -> Seq<CaptureRow>
    decreases rows.len(),
{
    if rows.len() == 0 {
        seq![]
    } else {
        listed_rows(rows.drop_last()) + (if valid_id(rows.last().0@) {
            seq![rows.last()]
        } else {
            seq![]
        })
    }
}

/// The captures a listing's rows describe, all the caller's own (the query
/// matched them by owner), leaving out any row whose id does not parse.
pub fn capture_records(rows: Vec<CaptureRow>, owner: &Owner) -> (records: Vec<CaptureRecord>)
    ensures
        records@.len() == listed_rows(rows@).len(),
        forall|k: int| 0 <= k < records@.len() ==> record_matches(#[trigger] records@[k], listed_rows(rows@)[k], *owner),
{
    let ghost all = rows@;
    let mut rest = rows;
    let mut reversed: Vec<CaptureRow> = Vec::new();
    while rest.len() > 0
        invariant
            reversed@.len() + rest@.len() == all.len(),
            rest@ == all.take(rest@.len() as int),
            forall|k: int| 0 <= k < reversed@.len() ==> #[trigger] reversed@[k] == all[all.len() - 1 - k],
        decreases rest@.len(),
    {
        let row = rest.pop().unwrap();
        proof {
            assert(rest@ =~= all.take(rest@.len() as int));
        }
        reversed.push(row);
    }
    let mut records: Vec<CaptureRecord> = Vec::new();
    while reversed.len() > 0
        invariant
            reversed@.len() <= all.len(),
            records@.len() == listed_rows(all.take(all.len() - reversed@.len())).len(),
            forall|k: int| 0 <= k < records@.len() ==> record_matches(
                #[trigger] records@[k],
                listed_rows(all.take(all.len() - reversed@.len()))[k],
                *owner,
            ),
            forall|k: int| 0 <= k < reversed@.len() ==> #[trigger] reversed@[k] == all[all.len() - 1 - k],
        decreases reversed@.len(),
    {
        let row = reversed.pop().unwrap();
        let ghost at = all.len() - reversed@.len() - 1;
        let ghost before = listed_rows(all.take(at));
        proof {
            assert(row == all[at]);
            assert(all.take(at + 1).drop_last() =~= all.take(at));
            assert(all.take(at + 1).last() == row);
        }
        let (id, created, updated, size, body, archived) = row;
        match CaptureId::parse(id.as_str()) {
            Ok(parsed) => {
                records.push(
                    CaptureRecord {
                        id: parsed,
                        owner: owner.clone(),
                        created: created as i128,
                        body,
                        archived: archived != 0,
                        updated: updated as i128,
                        size: size as u64,
                    },
                );
                proof {
                    assert(listed_rows(all.take(at + 1)) =~= before.push(all[at]));
                }
            },
            Err(_) => {
                proof {
                    assert(listed_rows(all.take(at + 1)) =~= before);
                }
            },
        }
    }
    proof {
        assert(all.take(all.len() as int) =~= all);
    }
    records
}

/// Whether a listing with these options admits the capture a row describes:
/// archived or not as asked, created no earlier than `from` and no later than
/// `to`. An option left out admits everything, and the options intersect.
pub open spec fn inbox_admits(r: CaptureRow, o: CaptureListOptions) -> bool {
    &&& (o.archived matches Some(a) ==> r.5 == (if a {
        1i64
    } else {
        0i64
    }))
    &&& (o.from matches Some(f) ==> f <= r.1)
    &&& (o.to matches Some(t) ==> r.1 <= t)
}

pub open spec fn inbox_filter(o: CaptureListOptions) -> spec_fn(CaptureRow) -> bool {
    |r: CaptureRow| inbox_admits(r, o)
}

/// `a` is listed before `b`: the newer first, and between two created at the
/// same instant the later id first.
pub open spec fn newer_first(a: CaptureRow, b: CaptureRow) -> bool {
    a.1 > b.1 || (a.1 == b.1 && seq_lt(b.0@, a.0@))
}

/// No capture is listed before one that precedes it.
pub open spec fn in_inbox_order(s: Seq<CaptureRow>) -> bool {
    forall|i: int, j: int| 0 <= i < j < s.len() ==> !newer_first(#[trigger] s[j], #[trigger] s[i])
}

proof fn newer_first_irreflexive(a: CaptureRow)
    ensures
        !newer_first(a, a),
{
    seq_lt_irreflexive(a.0@);
}

proof fn newer_first_transitive(a: CaptureRow, b: CaptureRow, c: CaptureRow)
    requires
        newer_first(a, b),
        newer_first(b, c),
    ensures
        newer_first(a, c),
{
    if seq_lt(b.0@, a.0@) && seq_lt(c.0@, b.0@) {
        seq_lt_transitive(c.0@, b.0@, a.0@);
    }
}

fn listed_newer(a: &CaptureRow, b: &CaptureRow) -> (r: bool)
    ensures
        r == newer_first(*a, *b),
{
    a.1 > b.1 || (a.1 == b.1 && less_than(b.0.as_str(), a.0.as_str()))
}

fn admits_row(r: &CaptureRow, o: &CaptureListOptions) -> (b: bool)
    ensures
        b == inbox_admits(*r, *o),
{
    let filed = match o.archived {
        Some(a) => r.5 == (if a {
            1i64
        } else {
            0i64
        }),
        None => true,
    };
    let after = match o.from {
        Some(f) => f <= r.1 as i128,
        None => true,
    };
    let before = match o.to {
        Some(t) => r.1 as i128 <= t,
        None => true,
    };
    filed && after && before
}

#[verifier::spinoff_prover]
fn place_capture(listing: &mut Vec<CaptureRow>, r: CaptureRow)
    requires
        in_inbox_order(old(listing)@),
    ensures
        in_inbox_order(final(listing)@),
        final(listing)@.to_multiset() == old(listing)@.to_multiset().insert(r),
{
    let ghost before = listing@;
    let mut p: usize = 0;
    while p < listing.len()
        invariant
            listing@ == before,
            p <= before.len(),
            forall|k: int| 0 <= k < p ==> !newer_first(r, #[trigger] before[k]),
        ensures
            p == before.len() || newer_first(r, before[p as int]),
        decreases before.len() - p,
    {
        if listed_newer(&r, &listing[p]) {
            break;
        }
        p = p + 1;
    }
    proof {
        let after = before.insert(p as int, r);
        assert forall|i: int, j: int| 0 <= i < j < after.len() implies !newer_first(
            #[trigger] after[j],
            #[trigger] after[i],
        ) by {
            if i < p && j == p {
                assert(after[i] == before[i]);
            } else if i == p && j > p {
                assert(after[j] == before[j - 1]);
                if newer_first(before[j - 1], r) {
                    newer_first_transitive(before[j - 1], r, before[p as int]);
                    if j - 1 == p {
                        newer_first_irreflexive(before[p as int]);
                    }
                }
            } else if j < p {
                assert(after[i] == before[i] && after[j] == before[j]);
            } else if i < p {
                assert(after[i] == before[i] && after[j] == before[j - 1]);
            } else {
                assert(after[i] == before[i - 1] && after[j] == before[j - 1]);
            }
        }
        to_multiset_insert(before, p as int, r);
    }
    listing.insert(p, r);
}

/// The rows a listing admits, in inbox order.
#[verifier::spinoff_prover]
fn order_inbox(rows: Vec<CaptureRow>, o: &CaptureListOptions) -> (listing: Vec<CaptureRow>)
    ensures
        in_inbox_order(listing@),
        listing@.to_multiset() == rows@.filter(inbox_filter(*o)).to_multiset(),
{
    let ghost given = rows@;
    let ghost keep = inbox_filter(*o);
    let mut rest = rows;
    let mut listing: Vec<CaptureRow> = Vec::new();
    let ghost mut i: int = 0;
    proof {
        assert(given.skip(0) =~= given);
        assert(given.take(0) =~= Seq::<CaptureRow>::empty());
        reveal(Seq::filter);
        assert(given.take(0).filter(keep) =~= Seq::<CaptureRow>::empty());
        given.take(0).filter(keep).to_multiset_ensures();
    }
    while rest.len() > 0
        invariant
            0 <= i <= given.len(),
            keep == inbox_filter(*o),
            rest@ == given.skip(i),
            in_inbox_order(listing@),
            listing@.to_multiset() == given.take(i).filter(keep).to_multiset(),
        decreases rest@.len(),
    {
        proof {
            assert(given.take(i + 1) =~= given.take(i).push(given[i]));
            given.take(i).lemma_filter_push(given[i], keep);
            given.take(i).filter(keep).to_multiset_ensures();
            assert(rest@[0] == given[i]);
        }
        let r = rest.remove(0);
        if admits_row(&r, o) {
            place_capture(&mut listing, r);
        }
        proof {
            i = i + 1;
            assert(rest@ =~= given.skip(i));
        }
    }
    proof {
        assert(given.take(i) =~= given);
    }
    listing
}

/// One page of an owner's inbox, newest first, from the rows of theirs that
/// the search matched (all of them when there was no search). `total` counts
/// every row the options admit; the page is the part `offset` and `limit`
/// pick out of those rows in inbox order, less any whose id does not parse.
#[verifier::spinoff_prover]
pub fn inbox_page(rows: Vec<CaptureRow>, owner: &Owner, options: &CaptureListOptions) -> (l: CaptureList)
    ensures
        l.total == rows@.filter(inbox_filter(*options)).len(),
        exists|s: Seq<CaptureRow>|
            #![trigger in_inbox_order(s)]
            {
                &&& in_inbox_order(s)
                &&& s.to_multiset() == rows@.filter(inbox_filter(*options)).to_multiset()
                &&& l.captures@.len() == listed_rows(window(s, options.offset, options.limit)).len()
                &&& forall|k: int|
                    0 <= k < l.captures@.len() ==> record_matches(
                        #[trigger] l.captures@[k],
                        listed_rows(window(s, options.offset, options.limit))[k],
                        *owner,
                    )
            },
{
    let listing = order_inbox(rows, options);
    let ghost s = listing@;
    proof {
        s.to_multiset_ensures();
        rows@.filter(inbox_filter(*options)).to_multiset_ensures();
    }
    let total = listing.len();
    let shown = cut_window(listing, options.offset, options.limit);
    let captures = capture_records(shown, owner);
    CaptureList { captures, total }
}

/// One idea's row in a listing: its thread, how many of its connected
/// captures are still there and how many are connected at all, and what the
/// fold wrote for it (all zero and absent when it wrote nothing).
#[derive(Debug, Clone)]
pub struct IdeaRow {
    pub id: String,
    pub name: String,
    pub created: i64,
    pub updated: i64,
    pub live: i64,
    pub connected: i64,
    pub retired: i64,
    pub promoted_to: Option<String>,
    pub last_signal: Option<i64>,
}

/// `a` is listed before `b`: the newer signal first, an idea with a signal
/// before one without, and between equals the later id first.
pub open spec fn signal_before(a: IdeaRow, b: IdeaRow) -> bool {
    match (a.last_signal, b.last_signal) {
        (Some(x), Some(y)) => x > y || (x == y && seq_lt(b.id@, a.id@)),
        (Some(_), None) => true,
        (None, Some(_)) => false,
        (None, None) => seq_lt(b.id@, a.id@),
    }
}

/// No idea is listed before one that precedes it.
pub open spec fn in_signal_order(s: Seq<IdeaRow>) -> bool {
    forall|i: int, j: int| 0 <= i < j < s.len() ==> !signal_before(#[trigger] s[j], #[trigger] s[i])
}

/// The listing's summary of `r`. Connected captures that are not live are the
/// evidence the idea has lost.
pub open spec fn summarises(s: IdeaSummary, r: IdeaRow) -> bool {
    &&& s.id@ == r.id@
    &&& s.name@ == r.name@
    &&& s.created == r.created
    &&& s.updated == r.updated
    &&& s.members == r.live as usize
    &&& s.missing == (if r.connected - r.live <= 0 {
        0
    } else {
        (r.connected - r.live) as usize
    })
    &&& s.retired == (r.retired != 0)
    &&& match r.promoted_to {
        Some(page) => s.promoted_to matches Some(p) && p@ == page@,
        None => s.promoted_to is None,
    }
    &&& s.last_signal == match r.last_signal {
        Some(n) => Some(n as i128),
        None => None,
    }
}

/// The rows whose id is an idea id, in order.
pub open spec fn idea_rows(rows: Seq<IdeaRow>) -> Seq<IdeaRow> {
    rows.filter(|r: IdeaRow| valid_id(r.id@))
}

proof fn signal_before_irreflexive(a: IdeaRow)
    ensures
        !signal_before(a, a),
{
    seq_lt_irreflexive(a.id@);
}

proof fn signal_before_transitive(a: IdeaRow, b: IdeaRow, c: IdeaRow)
    requires
        signal_before(a, b),
        signal_before(b, c),
    ensures
        signal_before(a, c),
{
    if seq_lt(b.id@, a.id@) && seq_lt(c.id@, b.id@) {
        seq_lt_transitive(c.id@, b.id@, a.id@);
    }
}

fn signal_first(a: &IdeaRow, b: &IdeaRow) -> (r: bool)
    ensures
        r == signal_before(*a, *b),
{
    match (a.last_signal, b.last_signal) {
        (Some(x), Some(y)) => x > y || (x == y && less_than(b.id.as_str(), a.id.as_str())),
        (Some(_), None) => true,
        (None, Some(_)) => false,
        (None, None) => less_than(b.id.as_str(), a.id.as_str()),
    }
}

#[verifier::spinoff_prover]
fn place_idea(listing: &mut Vec<IdeaRow>, r: IdeaRow)
    requires
        in_signal_order(old(listing)@),
    ensures
        in_signal_order(final(listing)@),
        final(listing)@.to_multiset() == old(listing)@.to_multiset().insert(r),
{
    let ghost before = listing@;
    let mut p: usize = 0;
    while p < listing.len()
        invariant
            listing@ == before,
            p <= before.len(),
            forall|k: int| 0 <= k < p ==> !signal_before(r, #[trigger] before[k]),
        ensures
            p == before.len() || signal_before(r, before[p as int]),
        decreases before.len() - p,
    {
        if signal_first(&r, &listing[p]) {
            break;
        }
        p = p + 1;
    }
    proof {
        let after = before.insert(p as int, r);
        assert forall|i: int, j: int| 0 <= i < j < after.len() implies !signal_before(
            #[trigger] after[j],
            #[trigger] after[i],
        ) by {
            if i < p && j == p {
                assert(after[i] == before[i]);
            } else if i == p && j > p {
                assert(after[j] == before[j - 1]);
                if signal_before(before[j - 1], r) {
                    signal_before_transitive(before[j - 1], r, before[p as int]);
                    if j - 1 == p {
                        signal_before_irreflexive(before[p as int]);
                    }
                }
            } else if j < p {
                assert(after[i] == before[i] && after[j] == before[j]);
            } else if i < p {
                assert(after[i] == before[i] && after[j] == before[j - 1]);
            } else {
                assert(after[i] == before[i - 1] && after[j] == before[j - 1]);
            }
        }
        to_multiset_insert(before, p as int, r);
    }
    listing.insert(p, r);
}

#[verifier::spinoff_prover]
fn order_ideas(rows: Vec<IdeaRow>) -> (listing: Vec<IdeaRow>)
    ensures
        in_signal_order(listing@),
        listing@.to_multiset() == rows@.to_multiset(),
{
    let ghost given = rows@;
    let mut rest = rows;
    let mut listing: Vec<IdeaRow> = Vec::new();
    let ghost mut i: int = 0;
    proof {
        assert(given.skip(0) =~= given);
        assert(given.take(0) =~= Seq::<IdeaRow>::empty());
        given.take(0).to_multiset_ensures();
    }
    while rest.len() > 0
        invariant
            0 <= i <= given.len(),
            rest@ == given.skip(i),
            in_signal_order(listing@),
            listing@.to_multiset() == given.take(i).to_multiset(),
        decreases rest@.len(),
    {
        proof {
            assert(given.take(i + 1) =~= given.take(i).push(given[i]));
            given.take(i).to_multiset_ensures();
            assert(rest@[0] == given[i]);
        }
        let r = rest.remove(0);
        place_idea(&mut listing, r);
        proof {
            i = i + 1;
            assert(rest@ =~= given.skip(i));
        }
    }
    proof {
        assert(given.take(i) =~= given);
    }
    listing
}

/// The listing's summary of one row whose id parses.
fn summary_of(r: IdeaRow, id: IdeaId) -> (s: IdeaSummary)
    requires
        id@ == r.id@,
    ensures
        summarises(s, r),
{
    let lost: i128 = r.connected as i128 - r.live as i128;
    IdeaSummary {
        id,
        name: r.name,
        created: r.created as i128,
        members: r.live as usize,
        missing: if lost <= 0 {
            0
        } else {
            lost as usize
        },
        retired: r.retired != 0,
        promoted_to: match r.promoted_to {
            Some(page) => Some(Slug::new(page)),
            None => None,
        },
        last_signal: match r.last_signal {
            Some(n) => Some(n as i128),
            None => None,
        },
        updated: r.updated as i128,
    }
}

/// One page of an owner's ideas, newest signal first, from every row of
/// theirs. `total` counts every row; the page is the part `offset` and
/// `limit` pick out of the rows in that order, less any whose id does not
/// parse.
#[verifier::spinoff_prover]
pub fn list_ideas(rows: Vec<IdeaRow>, limit: usize, offset: usize) -> (l: IdeaList)
    ensures
        l.total == rows@.len(),
        exists|s: Seq<IdeaRow>|
            #![trigger in_signal_order(s)]
            {
                &&& in_signal_order(s)
                &&& s.to_multiset() == rows@.to_multiset()
                &&& l.ideas@.len() == idea_rows(window(s, offset, limit)).len()
                &&& forall|k: int|
                    0 <= k < l.ideas@.len() ==> summarises(#[trigger] l.ideas@[k], idea_rows(window(s, offset, limit))[k])
            },
{
    let total = rows.len();
    let listing = order_ideas(rows);
    let ghost s = listing@;
    let shown = cut_window(listing, offset, limit);
    let ghost w = shown@;
    let ghost keep = |r: IdeaRow| valid_id(r.id@);
    let mut rest = shown;
    let mut ideas: Vec<IdeaSummary> = Vec::new();
    let ghost mut i: int = 0;
    proof {
        assert(w.skip(0) =~= w);
        assert(w.take(0) =~= Seq::<IdeaRow>::empty());
        reveal(Seq::filter);
        assert(w.take(0).filter(keep) =~= Seq::<IdeaRow>::empty());
    }
    while rest.len() > 0
        invariant
            0 <= i <= w.len(),
            rest@ == w.skip(i),
            keep == (|r: IdeaRow| valid_id(r.id@)),
            ideas@.len() == w.take(i).filter(keep).len(),
            forall|k: int| 0 <= k < ideas@.len() ==> summarises(#[trigger] ideas@[k], w.take(i).filter(keep)[k]),
        decreases rest@.len(),
    {
        proof {
            assert(w.take(i + 1) =~= w.take(i).push(w[i]));
            w.take(i).lemma_filter_push(w[i], keep);
            assert(rest@[0] == w[i]);
        }
        let ghost kept_before = w.take(i).filter(keep);
        let ghost kept_after = w.take(i + 1).filter(keep);
        let ghost before = ideas@;
        let r = rest.remove(0);
        match IdeaId::parse(r.id.as_str()) {
            Ok(id) => {
                let summary = summary_of(r, id);
                ideas.push(summary);
                proof {
                    assert(kept_after == kept_before.push(w[i]));
                    assert forall|k: int| 0 <= k < ideas@.len() implies summarises(#[trigger] ideas@[k], kept_after[k]) by {
                        if k < before.len() {
                            assert(ideas@[k] == before[k]);
                            assert(kept_after[k] == kept_before[k]);
                        }
                    }
                }
            },
            Err(_) => {
                proof {
                    assert(kept_after == kept_before);
                }
            },
        }
        proof {
            i = i + 1;
            assert(rest@ =~= w.skip(i));
        }
    }
    proof {
        assert(w.take(i) =~= w);
    }
    IdeaList { ideas, total }
}

/// An idea holding a capture, as its row reads: the thread, whether the fold
/// retired it, and how many live captures it holds.
#[derive(Debug, Clone)]
pub struct HoldRow {
    pub id: String,
    pub name: String,
    pub retired: i64,
    pub members: i64,
}

pub open spec fn describes_hold(h: IdeaHold, r: HoldRow) -> bool {
    &&& h.id@ == r.id@
    &&& h.name@ == r.name@
    &&& h.retired == (r.retired != 0)
    &&& h.members == r.members as usize
}

/// The ideas holding a capture, from their rows, in row order, leaving out any
/// row whose id does not parse.
#[verifier::spinoff_prover]
pub fn holds_from(rows: Vec<HoldRow>) -> (holds: Vec<IdeaHold>)
    ensures
        holds@.len() == rows@.filter(|r: HoldRow| valid_id(r.id@)).len(),
        forall|k: int|
            0 <= k < holds@.len() ==> describes_hold(#[trigger] holds@[k], rows@.filter(|r: HoldRow| valid_id(r.id@))[k]),
{
    let ghost all = rows@;
    let ghost keep = |r: HoldRow| valid_id(r.id@);
    let mut rest = rows;
    let mut holds: Vec<IdeaHold> = Vec::new();
    let ghost mut i: int = 0;
    proof {
        assert(all.skip(0) =~= all);
        assert(all.take(0) =~= Seq::<HoldRow>::empty());
        reveal(Seq::filter);
        assert(all.take(0).filter(keep) =~= Seq::<HoldRow>::empty());
    }
    while rest.len() > 0
        invariant
            0 <= i <= all.len(),
            rest@ == all.skip(i),
            keep == (|r: HoldRow| valid_id(r.id@)),
            holds@.len() == all.take(i).filter(keep).len(),
            forall|k: int| 0 <= k < holds@.len() ==> describes_hold(#[trigger] holds@[k], all.take(i).filter(keep)[k]),
        decreases rest@.len(),
    {
        proof {
            assert(all.take(i + 1) =~= all.take(i).push(all[i]));
            all.take(i).lemma_filter_push(all[i], keep);
            assert(rest@[0] == all[i]);
        }
        let ghost kept_before = all.take(i).filter(keep);
        let ghost kept_after = all.take(i + 1).filter(keep);
        let ghost before = holds@;
        let r = rest.remove(0);
        match IdeaId::parse(r.id.as_str()) {
            Ok(id) => {
                holds.push(IdeaHold { id, name: r.name, retired: r.retired != 0, members: r.members as usize });
                proof {
                    assert(kept_after == kept_before.push(all[i]));
                    assert forall|k: int| 0 <= k < holds@.len() implies describes_hold(#[trigger] holds@[k], kept_after[k]) by {
                        if k < before.len() {
                            assert(holds@[k] == before[k]);
                            assert(kept_after[k] == kept_before[k]);
                        }
                    }
                }
            },
            Err(_) => {
                proof {
                    assert(kept_after == kept_before);
                }
            },
        }
        proof {
            i = i + 1;
            assert(rest@ =~= all.skip(i));
        }
    }
    proof {
        assert(all.take(i) =~= all);
    }
    holds
}

/// A row of turned-down capture pairs whose two ids both parse.
pub open spec fn both_ids(r: (String, String)) -> bool {
    valid_id(r.0@) && valid_id(r.1@)
}

/// Capture pairs that were suggested for each other and turned down, from
/// their rows, in row order, leaving out any row where either id does not
/// parse.
#[verifier::spinoff_prover]
pub fn rejection_pairs(rows: Vec<(String, String)>) -> (pairs: Vec<(CaptureId, CaptureId)>)
    ensures
        pairs@.len() == rows@.filter(|r: (String, String)| both_ids(r)).len(),
        forall|k: int|
            0 <= k < pairs@.len() ==> #[trigger] pairs@[k].0@ == rows@.filter(|r: (String, String)| both_ids(r))[k].0@
                && pairs@[k].1@ == rows@.filter(|r: (String, String)| both_ids(r))[k].1@,
{
    let ghost all = rows@;
    let ghost keep = |r: (String, String)| both_ids(r);
    let mut rest = rows;
    let mut pairs: Vec<(CaptureId, CaptureId)> = Vec::new();
    let ghost mut i: int = 0;
    proof {
        assert(all.skip(0) =~= all);
        assert(all.take(0) =~= Seq::<(String, String)>::empty());
        reveal(Seq::filter);
        assert(all.take(0).filter(keep) =~= Seq::<(String, String)>::empty());
    }
    while rest.len() > 0
        invariant
            0 <= i <= all.len(),
            rest@ == all.skip(i),
            keep == (|r: (String, String)| both_ids(r)),
            pairs@.len() == all.take(i).filter(keep).len(),
            forall|k: int|
                0 <= k < pairs@.len() ==> #[trigger] pairs@[k].0@ == all.take(i).filter(keep)[k].0@ && pairs@[k].1@
                    == all.take(i).filter(keep)[k].1@,
        decreases rest@.len(),
    {
        proof {
            assert(all.take(i + 1) =~= all.take(i).push(all[i]));
            all.take(i).lemma_filter_push(all[i], keep);
            assert(rest@[0] == all[i]);
        }
        let ghost kept_before = all.take(i).filter(keep);
        let ghost kept_after = all.take(i + 1).filter(keep);
        let ghost before = pairs@;
        let (first, second) = rest.remove(0);
        match (CaptureId::parse(first.as_str()), CaptureId::parse(second.as_str())) {
            (Ok(a), Ok(b)) => {
                pairs.push((a, b));
                proof {
                    assert(kept_after == kept_before.push(all[i]));
                    assert forall|k: int| 0 <= k < pairs@.len() implies #[trigger] pairs@[k].0@ == kept_after[k].0@
                        && pairs@[k].1@ == kept_after[k].1@ by {
                        if k < before.len() {
                            assert(pairs@[k] == before[k]);
                            assert(kept_after[k] == kept_before[k]);
                        }
                    }
                }
            },
            _ => {
                proof {
                    assert(kept_after == kept_before);
                }
            },
        }
        proof {
            i = i + 1;
            assert(rest@ =~= all.skip(i));
        }
    }
    proof {
        assert(all.take(i) =~= all);
    }
    pairs
}

/// No two of the rows share an id, as no two ideas do.
pub open spec fn idea_ids_distinct(s: Seq<IdeaRow>) -> bool {
    forall|i: int, j: int| 0 <= i < s.len() && 0 <= j < s.len() && i != j ==> #[trigger] s[i].id@ != #[trigger] s[j].id@
}

proof fn signal_before_total(a: IdeaRow, b: IdeaRow)
    requires
        a.id@ != b.id@,
    ensures
        signal_before(a, b) || signal_before(b, a),
{
    seq_lt_total(a.id@, b.id@);
}

/// Ideas in signal order are settled by which ideas they are: two orderings
/// of the same rows, no two sharing an id, are one and the same. So the page
/// `list_ideas` returns is determined by its inputs.
pub proof fn the_signal_order_is_settled(a: Seq<IdeaRow>, b: Seq<IdeaRow>)
    requires
        in_signal_order(a),
        in_signal_order(b),
        a.to_multiset() == b.to_multiset(),
        idea_ids_distinct(a),
    ensures
        a == b,
    decreases a.len(),
{
    broadcast use vstd::seq_lib::group_to_multiset_ensures;

    assert(a.to_multiset().len() == a.len());
    assert(b.to_multiset().len() == b.len());
    if a.len() == 0 {
        assert(a =~= b);
    } else {
        assert(a.to_multiset().count(a[0]) > 0);
        assert(b.contains(a[0]));
        let j = choose|j: int| 0 <= j < b.len() && b[j] == a[0];
        if j > 0 {
            assert(b.to_multiset().count(b[0]) > 0);
            assert(a.contains(b[0]));
            let k = choose|k: int| 0 <= k < a.len() && a[k] == b[0];
            if k == 0 {
                multiset_counts_two(b, 0, j);
                assert(a.no_duplicates()) by {
                    assert forall|x: int, y: int| 0 <= x < a.len() && 0 <= y < a.len() && x != y implies a[x] != a[y] by {
                        assert(a[x].id@ != a[y].id@);
                    }
                }
                multiset_count_one(a, 0);
            }
            assert(a[0].id@ != a[k].id@);
            signal_before_total(a[0], a[k]);
            assert(!signal_before(a[k], a[0]));
            assert(!signal_before(b[j], b[0]));
        }
        assert(b[0] == a[0]);
        let a1 = a.drop_first();
        let b1 = b.drop_first();
        assert(a.remove(0) =~= a1);
        assert(b.remove(0) =~= b1);
        assert forall|i: int, k: int| 0 <= i < a1.len() && 0 <= k < a1.len() && i != k implies #[trigger] a1[i].id@
            != #[trigger] a1[k].id@ by {
            assert(a1[i] == a[i + 1] && a1[k] == a[k + 1]);
        }
        assert forall|i: int, k: int| 0 <= i < k < a1.len() implies !signal_before(#[trigger] a1[k], #[trigger] a1[i]) by {
            assert(a1[i] == a[i + 1] && a1[k] == a[k + 1]);
        }
        assert forall|i: int, k: int| 0 <= i < k < b1.len() implies !signal_before(#[trigger] b1[k], #[trigger] b1[i]) by {
            assert(b1[i] == b[i + 1] && b1[k] == b[k + 1]);
        }
        the_signal_order_is_settled(a1, b1);
        assert forall|i: int| 0 <= i < a.len() implies a[i] == b[i] by {
            if i > 0 {
                assert(a[i] == a1[i - 1] && b[i] == b1[i - 1]);
            }
        }
        assert(a =~= b);
    }
}

/// No two capture rows share an id.
pub open spec fn capture_ids_distinct(s: Seq<CaptureRow>) -> bool {
    forall|i: int, k: int| 0 <= i < s.len() && 0 <= k < s.len() && i != k ==> #[trigger] s[i].0@ != #[trigger] s[k].0@
}

proof fn newer_first_total(a: CaptureRow, b: CaptureRow)
    requires
        a.0@ != b.0@,
    ensures
        newer_first(a, b) || newer_first(b, a),
{
    seq_lt_total(a.0@, b.0@);
}

/// The inbox order is settled by which captures it holds: two orderings of
/// the same rows, no two sharing an id, are one and the same. So the page
/// `inbox_page` returns is determined by its inputs.
pub proof fn the_inbox_order_is_settled(a: Seq<CaptureRow>, b: Seq<CaptureRow>)
    requires
        in_inbox_order(a),
        in_inbox_order(b),
        a.to_multiset() == b.to_multiset(),
        capture_ids_distinct(a),
    ensures
        a == b,
    decreases a.len(),
{
    broadcast use vstd::seq_lib::group_to_multiset_ensures;

    assert(a.to_multiset().len() == a.len());
    assert(b.to_multiset().len() == b.len());
    if a.len() == 0 {
        assert(a =~= b);
    } else {
        assert(a.to_multiset().count(a[0]) > 0);
        assert(b.contains(a[0]));
        let j = choose|j: int| 0 <= j < b.len() && b[j] == a[0];
        if j > 0 {
            assert(b.to_multiset().count(b[0]) > 0);
            assert(a.contains(b[0]));
            let k = choose|k: int| 0 <= k < a.len() && a[k] == b[0];
            if k == 0 {
                multiset_counts_two(b, 0, j);
                assert(a.no_duplicates()) by {
                    assert forall|x: int, y: int| 0 <= x < a.len() && 0 <= y < a.len() && x != y implies a[x] != a[y] by {
                        assert(a[x].0@ != a[y].0@);
                    }
                }
                multiset_count_one(a, 0);
            }
            assert(a[0].0@ != a[k].0@);
            newer_first_total(a[0], a[k]);
            assert(!newer_first(a[k], a[0]));
            assert(!newer_first(b[j], b[0]));
        }
        assert(b[0] == a[0]);
        let a1 = a.drop_first();
        let b1 = b.drop_first();
        assert(a.remove(0) =~= a1);
        assert(b.remove(0) =~= b1);
        assert forall|i: int, k: int| 0 <= i < a1.len() && 0 <= k < a1.len() && i != k implies #[trigger] a1[i].0@
            != #[trigger] a1[k].0@ by {
            assert(a1[i] == a[i + 1] && a1[k] == a[k + 1]);
        }
        assert forall|i: int, k: int| 0 <= i < k < a1.len() implies !newer_first(#[trigger] a1[k], #[trigger] a1[i]) by {
            assert(a1[i] == a[i + 1] && a1[k] == a[k + 1]);
        }
        assert forall|i: int, k: int| 0 <= i < k < b1.len() implies !newer_first(#[trigger] b1[k], #[trigger] b1[i]) by {
            assert(b1[i] == b[i + 1] && b1[k] == b[k + 1]);
        }
        the_inbox_order_is_settled(a1, b1);
        assert forall|i: int| 0 <= i < a.len() implies a[i] == b[i] by {
            if i > 0 {
                assert(a[i] == a1[i - 1] && b[i] == b1[i - 1]);
            }
        }
        assert(a =~= b);
    }
}
} // verus!
