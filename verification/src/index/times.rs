//! The index over the time log: how entries are measured, listed and summed.
//!
//! A time entry names the pages it was spent on, and those names are kept
//! apart from links: a page worked on collects hundreds of them, and as links
//! they would swamp the graph.
use vstd::prelude::*;

use crate::calendar::instant;
use crate::index::{cut_window, to_nanos, window, IndexError, SortOrder, TOP_N};
use crate::slug::Slug;
use crate::sorted::{add_name, count_of_names, multiset_count_one, multiset_counts_two, names_sorted, names_view};
use crate::text::{less_than, same_text, seq_lt, seq_lt_irreflexive, seq_lt_total, seq_lt_transitive};
use vstd::seq_lib::to_multiset_insert;

verus! {

/// A page a time entry is attached to, with whatever the index knows about it.
#[derive(Debug, Clone, PartialEq, Eq)]
pub struct TimePageRef {
    pub slug: Slug,
    /// The page's title, or `None` when nothing is written at that slug yet.
    pub title: Option<String>,
}

/// A time entry as the index holds it: everything but the note. Instants are
/// nanoseconds since the epoch.
#[derive(Debug, Clone, PartialEq, Eq)]
pub struct TimeRecord {
    /// The entry's id, as its file is named.
    pub id: String,
    pub name: String,
    pub start: i128,
    pub end: Option<i128>,
    pub pages: Vec<TimePageRef>,
    /// Whether the file carries a note.
    pub has_note: bool,
    pub updated: i128,
    pub size: u64,
}

/// Whole seconds from `start` to `end`, and none when `end` is not later.
pub open spec fn elapsed_seconds(start: int, end: int) -> int {
    if end <= start {
        0
    } else {
        (end - start) / 1_000_000_000
    }
}

impl TimeRecord {
    pub fn is_running(&self) -> (r: bool)
        ensures
            r == (self.end is None),
    {
        self.end.is_none()
    }

    /// Seconds elapsed, counting up to `now` while the timer runs.
    pub fn seconds(&self, now: i128) -> (s: u64)
        requires
            instant(self.start as int),
            instant(now as int),
            self.end matches Some(end) ==> instant(end as int),
        ensures
            s == elapsed_seconds(
                self.start as int,
                match self.end {
                    Some(end) => end as int,
                    None => now as int,
                },
            ),
    {
        let end = match self.end {
            Some(end) => end,
            None => now,
        };
        if end <= self.start {
            0
        } else {
            ((end - self.start) / 1_000_000_000) as u64
        }
    }
}

#[derive(Debug, Clone, PartialEq, Eq)]
pub struct TimeList {
    pub times: Vec<TimeRecord>,
    /// Total matching entries, not just this page of them.
    pub total: usize,
}

/// Everything recorded under one name.
#[derive(Debug, Clone, PartialEq, Eq)]
pub struct TimeGroup {
    pub name: String,
    pub entries: usize,
    /// Total tracked, running entries counted up to the moment asked.
    pub seconds: u64,
    pub running: usize,
    pub first_start: i128,
    pub last_start: i128,
}

/// The whole log at a glance.
#[derive(Debug, Clone, Default, PartialEq, Eq)]
pub struct TimeTotals {
    pub entries: usize,
    /// Distinct names.
    pub groups: usize,
    pub seconds: u64,
    pub running: usize,
    pub first_start: Option<i128>,
    pub last_start: Option<i128>,
}

/// A time entry named from somewhere else: a page, say.
#[derive(Debug, Clone, PartialEq, Eq)]
pub struct TimeRef {
    pub id: String,
    pub name: String,
    pub start: i128,
    pub end: Option<i128>,
    pub seconds: u64,
}

/// How much time is attached to one page: a summary, with a few recent
/// entries as a sample.
#[derive(Debug, Clone, Default, PartialEq, Eq)]
pub struct PageTimes {
    pub entries: usize,
    pub seconds: u64,
    pub running: usize,
    /// Distinct activity names tracked against this page.
    pub groups: usize,
    pub recent: Vec<TimeRef>,
}

#[derive(Debug, Clone, Copy, Default, PartialEq, Eq, Structural)]
pub enum TimeSortBy {
    #[default]
    Start,
    Name,
    Duration,
}

impl TimeSortBy {
    /// The expression to sort on. Only these three strings reach a query;
    /// `?1` in the duration is the caller's "now".
    pub fn expression(self) -> (e: &'static str)
        ensures
            e == (match self {
                TimeSortBy::Start => "started",
                TimeSortBy::Name => "name",
                TimeSortBy::Duration => "max(0, coalesce(ended, ?1) - started)",
            }),
    {
        match self {
            TimeSortBy::Start => "started",
            TimeSortBy::Name => "name",
            TimeSortBy::Duration => "max(0, coalesce(ended, ?1) - started)",
        }
    }
}

#[derive(Debug, Clone)]
pub struct TimeListOptions {
    /// Only one group, matched exactly.
    pub name: Option<String>,
    /// Only entries attached to this page.
    pub page: Option<String>,
    /// `Some(true)` for running entries only, `Some(false)` for finished ones.
    pub running: Option<bool>,
    /// Only entries overlapping `[from, to)`. Either end may be open.
    pub from: Option<i128>,
    pub to: Option<i128>,
    pub sort: TimeSortBy,
    pub order: SortOrder,
    pub limit: usize,
    pub offset: usize,
}

impl Default for TimeListOptions {
    /// A log reads newest first: the one listing whose default is descending.
    fn default() -> (o: Self)
        ensures
            o.name is None,
            o.page is None,
            o.running is None,
            o.from is None,
            o.to is None,
            o.sort == TimeSortBy::Start,
            o.order == SortOrder::Descending,
            o.limit == 50,
            o.offset == 0,
    {
        TimeListOptions {
            name: None,
            page: None,
            running: None,
            from: None,
            to: None,
            sort: TimeSortBy::Start,
            order: SortOrder::Descending,
            limit: 50,
            offset: 0,
        }
    }
}

/// Summed nanoseconds reported as whole seconds; a negative sum is none.
pub fn nanos_to_seconds(nanos: i64) -> (s: u64)
    ensures
        s == (if nanos <= 0 { 0 } else { nanos / 1_000_000_000 }),
{
    if nanos <= 0 {
        0
    } else {
        (nanos / 1_000_000_000) as u64
    }
}


/// Where an entry stops counting: its end, or `now` while it runs.
pub open spec fn end_or_now(r: TimeRecord, now: int) -> int {
    match r.end {
        Some(end) => end as int,
        None => now,
    }
}

/// The nanoseconds an entry spans up to `now`; none when it stops before it
/// starts.
pub open spec fn span(r: TimeRecord, now: int) -> int {
    if end_or_now(r, now) <= r.start {
        0
    } else {
        end_or_now(r, now) - r.start
    }
}

/// The spans of entries, summed in nanoseconds.
pub open spec fn total_span(rs: Seq<TimeRecord>, now: int) -> int
    decreases rs.len(),
{
    if rs.len() == 0 {
        0
    } else {
        total_span(rs.drop_last(), now) + span(rs.last(), now)
    }
}

/// How many of the entries are still running.
pub open spec fn running_count(rs: Seq<TimeRecord>) -> int
    decreases rs.len(),
{
    if rs.len() == 0 {
        0
    } else {
        running_count(rs.drop_last()) + if rs.last().end is None {
            1int
        } else {
            0int
        }
    }
}

/// The earliest start among the entries (meaningful when there is one).
pub open spec fn earliest_start(rs: Seq<TimeRecord>) -> int
    decreases rs.len(),
{
    if rs.len() <= 1 {
        if rs.len() == 0 {
            0
        } else {
            rs[0].start as int
        }
    } else if rs.last().start < earliest_start(rs.drop_last()) {
        rs.last().start as int
    } else {
        earliest_start(rs.drop_last())
    }
}

/// The latest start among the entries (meaningful when there is one).
pub open spec fn latest_start(rs: Seq<TimeRecord>) -> int
    decreases rs.len(),
{
    if rs.len() <= 1 {
        if rs.len() == 0 {
            0
        } else {
            rs[0].start as int
        }
    } else if rs.last().start > latest_start(rs.drop_last()) {
        rs.last().start as int
    } else {
        latest_start(rs.drop_last())
    }
}

/// The distinct names the entries are recorded under.
pub open spec fn names_in(rs: Seq<TimeRecord>) -> Set<Seq<char>> {
    rs.map_values(|r: TimeRecord| r.name@).to_set()
}

/// Instants the index can hold: nanoseconds that fit an `i64`.
pub open spec fn storable(at: int) -> bool {
    i64::MIN <= at <= i64::MAX
}

/// Entries as the index hands them back: every instant storable.
pub open spec fn stored(rs: Seq<TimeRecord>) -> bool {
    forall|i: int| 0 <= i < rs.len() ==> stored_one(#[trigger] rs[i])
}

/// An entry whose instants the index can hold.
pub open spec fn stored_one(r: TimeRecord) -> bool {
    storable(r.start as int) && (r.end matches Some(end) ==> storable(end as int))
}

/// The earliest and latest of the starts, or `None` for no entries.
pub open spec fn start_bounds(rs: Seq<TimeRecord>) -> (Option<i128>, Option<i128>) {
    if rs.len() == 0 {
        (None, None)
    } else {
        (Some(earliest_start(rs) as i128), Some(latest_start(rs) as i128))
    }
}

fn span_of(r: &TimeRecord, now: i64) -> (s: i128)
    requires
        storable(r.start as int),
        r.end matches Some(end) ==> storable(end as int),
    ensures
        s == span(*r, now as int),
        0 <= s <= 2 * (i64::MAX as int) + 1,
{
    let end: i128 = match r.end {
        Some(end) => end,
        None => now as i128,
    };
    if end <= r.start {
        0
    } else {
        end - r.start
    }
}

proof fn spans_are_positive(r: TimeRecord, now: int)
    ensures
        span(r, now) >= 0,
{
}

/// A total over more entries is no smaller.
proof fn total_span_grows(rs: Seq<TimeRecord>, i: int, now: int)
    requires
        0 <= i <= rs.len(),
    ensures
        total_span(rs.take(i), now) <= total_span(rs, now),
    decreases rs.len() - i,
{
    if i < rs.len() {
        total_span_grows(rs, i + 1, now);
        assert(rs.take(i + 1).drop_last() =~= rs.take(i));
        spans_are_positive(rs[i], now);
    } else {
        assert(rs.take(i) =~= rs);
    }
}

proof fn names_in_push(rs: Seq<TimeRecord>, r: TimeRecord)
    ensures
        names_in(rs.push(r)) =~= names_in(rs).insert(r.name@),
{
    let f = |x: TimeRecord| x.name@;
    assert(rs.push(r).map_values(f) =~= rs.map_values(f).push(r.name@));
    assert forall|n: Seq<char>| names_in(rs.push(r)).contains(n) <==> names_in(rs).insert(r.name@).contains(n) by {
        let m = rs.map_values(f);
        if m.push(r.name@).contains(n) && n != r.name@ {
            let k = choose|k: int| 0 <= k < m.len() + 1 && m.push(r.name@)[k] == n;
            assert(m[k] == n);
        }
        if m.contains(n) {
            let k = choose|k: int| 0 <= k < m.len() && m[k] == n;
            assert(m.push(r.name@)[k] == n);
        }
        if n == r.name@ {
            assert(m.push(r.name@)[m.len() as int] == n);
        }
    }
}

/// The whole log at a glance, from every entry the index holds and the moment
/// asked: `None` when the summed nanoseconds no longer fit the `i64` the
/// index sums them in.
#[verifier::spinoff_prover]
pub fn time_totals(records: &Vec<TimeRecord>, now: i64) -> (t: Option<TimeTotals>)
    requires
        stored(records@),
    ensures
        t is None <==> total_span(records@, now as int) > i64::MAX,
        t matches Some(t) ==> {
            &&& t.entries == records@.len()
            &&& t.groups == names_in(records@).len()
            &&& t.seconds == total_span(records@, now as int) / 1_000_000_000
            &&& t.running == running_count(records@)
            &&& (t.first_start, t.last_start) == start_bounds(records@)
        },
{
    let ghost rs = records@;
    let mut total: i128 = 0;
    let mut running: usize = 0;
    let mut first: i128 = 0;
    let mut last: i128 = 0;
    let mut names: Vec<String> = Vec::new();
    let mut i: usize = 0;
    while i < records.len()
        invariant
            rs == records@,
            stored(rs),
            i <= rs.len(),
            total == total_span(rs.take(i as int), now as int),
            0 <= total <= i64::MAX,
            running == running_count(rs.take(i as int)),
            running <= i,
            i > 0 ==> first == earliest_start(rs.take(i as int)) && last == latest_start(
                rs.take(i as int),
            ),
            names_sorted(names_view(names@)),
            forall|y: Seq<char>| #[trigger] names_view(names@).contains(y) <==> names_in(
                rs.take(i as int),
            ).contains(y),
        decreases rs.len() - i,
    {
        let ghost pre = rs.take(i as int);
        let ghost post = rs.take(i + 1);
        proof {
            assert(post =~= pre.push(rs[i as int]));
            assert(post.drop_last() =~= pre);
            names_in_push(pre, rs[i as int]);
        }
        let r = &records[i];
        assert(storable(r.start as int));
        let s = span_of(r, now);
        if total + s > i64::MAX as i128 {
            proof {
                total_span_grows(rs, i + 1, now as int);
            }
            return None;
        }
        total = total + s;
        if r.end.is_none() {
            running = running + 1;
        }
        if i == 0 {
            first = r.start;
            last = r.start;
        } else {
            if r.start < first {
                first = r.start;
            }
            if r.start > last {
                last = r.start;
            }
        }
        add_name(&mut names, &r.name);
        i = i + 1;
    }
    proof {
        assert(rs.take(rs.len() as int) =~= rs);
        count_of_names(names_view(names@), names_in(rs));
    }
    let bounds = if records.len() == 0 {
        (None, None)
    } else {
        (Some(first), Some(last))
    };
    Some(TimeTotals {
        entries: records.len(),
        groups: names.len(),
        seconds: (total / 1_000_000_000) as u64,
        running,
        first_start: bounds.0,
        last_start: bounds.1,
    })
}

/// `a`'s sort key is smaller than `b`'s.
pub open spec fn key_lt(a: TimeRecord, b: TimeRecord, sort: TimeSortBy, now: int) -> bool {
    match sort {
        TimeSortBy::Start => a.start < b.start,
        TimeSortBy::Name => seq_lt(a.name@, b.name@),
        TimeSortBy::Duration => span(a, now) < span(b, now),
    }
}

/// `a` and `b` have the same sort key.
pub open spec fn key_eq(a: TimeRecord, b: TimeRecord, sort: TimeSortBy, now: int) -> bool {
    match sort {
        TimeSortBy::Start => a.start == b.start,
        TimeSortBy::Name => a.name@ == b.name@,
        TimeSortBy::Duration => span(a, now) == span(b, now),
    }
}

/// `a` is listed before `b`: by the key in the order asked, and between equal
/// keys the later id first.
pub open spec fn listed_before(a: TimeRecord, b: TimeRecord, sort: TimeSortBy, order: SortOrder, now: int) -> bool {
    ||| (order == SortOrder::Ascending && key_lt(a, b, sort, now))
    ||| (order == SortOrder::Descending && key_lt(b, a, sort, now))
    ||| (key_eq(a, b, sort, now) && seq_lt(b.id@, a.id@))
}

/// No entry is listed before one that precedes it.
pub open spec fn in_listing_order(s: Seq<TimeRecord>, sort: TimeSortBy, order: SortOrder, now: int) -> bool {
    forall|i: int, j: int|
        0 <= i < j < s.len() ==> !listed_before(#[trigger] s[j], #[trigger] s[i], sort, order, now)
}

proof fn listed_before_irreflexive(a: TimeRecord, sort: TimeSortBy, order: SortOrder, now: int)
    ensures
        !listed_before(a, a, sort, order, now),
{
    seq_lt_irreflexive(a.name@);
    seq_lt_irreflexive(a.id@);
}

proof fn listed_before_transitive(
    a: TimeRecord,
    b: TimeRecord,
    c: TimeRecord,
    sort: TimeSortBy,
    order: SortOrder,
    now: int,
)
    requires
        listed_before(a, b, sort, order, now),
        listed_before(b, c, sort, order, now),
    ensures
        listed_before(a, c, sort, order, now),
{
    if sort == TimeSortBy::Name {
        if seq_lt(a.name@, b.name@) && seq_lt(b.name@, c.name@) {
            seq_lt_transitive(a.name@, b.name@, c.name@);
        }
        if seq_lt(c.name@, b.name@) && seq_lt(b.name@, a.name@) {
            seq_lt_transitive(c.name@, b.name@, a.name@);
        }
    }
    if key_eq(a, b, sort, now) && key_eq(b, c, sort, now) && seq_lt(b.id@, a.id@) && seq_lt(c.id@, b.id@) {
        seq_lt_transitive(c.id@, b.id@, a.id@);
    }
}

fn listed_first(a: &TimeRecord, b: &TimeRecord, sort: TimeSortBy, order: SortOrder, now: i64) -> (r: bool)
    requires
        storable(a.start as int),
        a.end matches Some(end) ==> storable(end as int),
        storable(b.start as int),
        b.end matches Some(end) ==> storable(end as int),
    ensures
        r == listed_before(*a, *b, sort, order, now as int),
{
    let (a_first, b_first, tied) = match sort {
        TimeSortBy::Start => (a.start < b.start, b.start < a.start, a.start == b.start),
        TimeSortBy::Name => (
            less_than(a.name.as_str(), b.name.as_str()),
            less_than(b.name.as_str(), a.name.as_str()),
            same_text(a.name.as_str(), b.name.as_str()),
        ),
        TimeSortBy::Duration => {
            let sa = span_of(a, now);
            let sb = span_of(b, now);
            (sa < sb, sb < sa, sa == sb)
        },
    };
    let by_key = match order {
        SortOrder::Ascending => a_first,
        SortOrder::Descending => b_first,
    };
    by_key || (tied && less_than(b.id.as_str(), a.id.as_str()))
}

/// Puts `r` into an ordered listing, after everything it does not precede.
#[verifier::spinoff_prover]
fn place(
    listing: &mut Vec<TimeRecord>,
    r: TimeRecord,
    sort: TimeSortBy,
    order: SortOrder,
    now: i64,
)
    requires
        in_listing_order(old(listing)@, sort, order, now as int),
        stored(old(listing)@),
        stored_one(r),
    ensures
        in_listing_order(final(listing)@, sort, order, now as int),
        stored(final(listing)@),
        final(listing)@.to_multiset() == old(listing)@.to_multiset().insert(r),
{
    let ghost before = listing@;
    let mut p: usize = 0;
    while p < listing.len()
        invariant
            listing@ == before,
            stored(before),
            stored_one(r),
            p <= before.len(),
            forall|k: int| 0 <= k < p ==> !listed_before(r, #[trigger] before[k], sort, order, now as int),
        ensures
            p == before.len() || listed_before(r, before[p as int], sort, order, now as int),
        decreases before.len() - p,
    {
        assert(stored_one(before[p as int]));
        if listed_first(&r, &listing[p], sort, order, now) {
            break;
        }
        p = p + 1;
    }
    proof {
        let after = before.insert(p as int, r);
        assert forall|i: int, j: int| 0 <= i < j < after.len() implies !listed_before(
            #[trigger] after[j],
            #[trigger] after[i],
            sort,
            order,
            now as int,
        ) by {
            if i < p && j == p {
                assert(after[i] == before[i]);
            } else if i == p && j > p {
                assert(after[j] == before[j - 1]);
                if listed_before(before[j - 1], r, sort, order, now as int) {
                    listed_before_transitive(before[j - 1], r, before[p as int], sort, order, now as int);
                    if j - 1 == p {
                        listed_before_irreflexive(before[p as int], sort, order, now as int);
                    }
                }
            } else if j < p {
                assert(after[i] == before[i] && after[j] == before[j]);
            } else if i < p {
                assert(after[i] == before[i] && after[j] == before[j - 1]);
            } else {
                assert(after[i] == before[i - 1] && after[j] == before[j - 1]);
            }
        }
        assert forall|k: int| 0 <= k < after.len() implies stored_one(#[trigger] after[k]) by {
            if k < p {
                assert(after[k] == before[k]);
            } else if k > p {
                assert(after[k] == before[k - 1]);
            }
        }
        to_multiset_insert(before, p as int, r);
    }
    listing.insert(p, r);
}

/// The entries in listing order: the same entries, each once per time it was
/// given, none listed before one it does not precede.
#[verifier::spinoff_prover]
fn order_records(records: Vec<TimeRecord>, sort: TimeSortBy, order: SortOrder, now: i64) -> (listing: Vec<TimeRecord>)
    requires
        stored(records@),
    ensures
        in_listing_order(listing@, sort, order, now as int),
        listing@.to_multiset() == records@.to_multiset(),
        stored(listing@),
{
    let ghost given = records@;
    let mut rest = records;
    let mut listing: Vec<TimeRecord> = Vec::new();
    let ghost mut i: int = 0;
    proof {
        assert(given.skip(0) =~= given);
        assert(given.take(0) =~= Seq::<TimeRecord>::empty());
        given.take(0).to_multiset_ensures();
    }
    while rest.len() > 0
        invariant
            0 <= i <= given.len(),
            stored(given),
            rest@ == given.skip(i),
            in_listing_order(listing@, sort, order, now as int),
            stored(listing@),
            listing@.to_multiset() == given.take(i).to_multiset(),
        decreases rest@.len(),
    {
        proof {
            assert(given.take(i + 1) =~= given.take(i).push(given[i]));
            given.take(i).to_multiset_ensures();
            assert(rest@[0] == given[i]);
            assert(stored_one(given[i]));
        }
        let r = rest.remove(0);
        place(&mut listing, r, sort, order, now);
        proof {
            i = i + 1;
            assert(rest@ =~= given.skip(i));
        }
    }
    proof {
        assert(given.take(i) =~= given);
    }
    listing
}

/// An optional instant the index can hold, or none given.
pub open spec fn fits(at: Option<i128>) -> bool {
    at matches Some(at) ==> storable(at as int)
}

/// Whether a listing with these options admits the entry: it overlaps the
/// window `[from, to)` (a running entry reaching up to `now`), carries the name
/// asked for, is attached to the page asked for, and is running or finished as
/// asked. An option left out admits everything.
pub open spec fn admitted(r: TimeRecord, o: TimeListOptions, now: int) -> bool {
    &&& (o.from matches Some(from) ==> end_or_now(r, now) > from)
    &&& (o.to matches Some(to) ==> r.start < to)
    &&& (o.name matches Some(name) ==> r.name@ == name@)
    &&& (o.page matches Some(page) ==> exists|k: int|
        0 <= k < r.pages@.len() && #[trigger] r.pages@[k].slug@ == page@)
    &&& (o.running matches Some(running) ==> (r.end is None) == running)
}

pub open spec fn admits(o: TimeListOptions, now: int) -> spec_fn(TimeRecord) -> bool {
    |r: TimeRecord| admitted(r, o, now)
}

fn attached_to(pages: &Vec<TimePageRef>, page: &str) -> (b: bool)
    ensures
        b == exists|k: int| 0 <= k < pages@.len() && #[trigger] pages@[k].slug@ == page@,
{
    let mut i: usize = 0;
    while i < pages.len()
        invariant
            i <= pages@.len(),
            forall|k: int| 0 <= k < i ==> #[trigger] pages@[k].slug@ != page@,
        decreases pages@.len() - i,
    {
        if same_text(pages[i].slug.as_str(), page) {
            return true;
        }
        i = i + 1;
    }
    false
}

fn admits_record(r: &TimeRecord, o: &TimeListOptions, now: i64) -> (b: bool)
    requires
        stored_one(*r),
    ensures
        b == admitted(*r, *o, now as int),
{
    let end: i128 = match r.end {
        Some(end) => end,
        None => now as i128,
    };
    let after_from = match o.from {
        Some(from) => end > from,
        None => true,
    };
    let before_to = match o.to {
        Some(to) => r.start < to,
        None => true,
    };
    let named = match &o.name {
        Some(name) => same_text(r.name.as_str(), name.as_str()),
        None => true,
    };
    let on_page = match &o.page {
        Some(page) => attached_to(&r.pages, page.as_str()),
        None => true,
    };
    let in_state = match o.running {
        Some(running) => r.end.is_none() == running,
        None => true,
    };
    after_from && before_to && named && on_page && in_state
}

/// The entries a listing admits, in the order given.
#[verifier::spinoff_prover]
fn admitted_records(records: Vec<TimeRecord>, o: &TimeListOptions, now: i64) -> (kept: Vec<TimeRecord>)
    requires
        stored(records@),
    ensures
        kept@ == records@.filter(admits(*o, now as int)),
        stored(kept@),
{
    let ghost given = records@;
    let ghost pred = admits(*o, now as int);
    let mut rest = records;
    let mut kept: Vec<TimeRecord> = Vec::new();
    let ghost mut i: int = 0;
    proof {
        assert(given.skip(0) =~= given);
        assert(given.take(0) =~= Seq::<TimeRecord>::empty());
        reveal(Seq::filter);
        assert(given.take(0).filter(pred) =~= Seq::<TimeRecord>::empty());
    }
    while rest.len() > 0
        invariant
            0 <= i <= given.len(),
            stored(given),
            pred == admits(*o, now as int),
            rest@ == given.skip(i),
            kept@ == given.take(i).filter(pred),
            stored(kept@),
        decreases rest@.len(),
    {
        proof {
            assert(given.take(i + 1) =~= given.take(i).push(given[i]));
            given.take(i).lemma_filter_push(given[i], pred);
            assert(rest@[0] == given[i]);
            assert(stored_one(given[i]));
        }
        let r = rest.remove(0);
        if admits_record(&r, o, now) {
            kept.push(r);
        }
        proof {
            i = i + 1;
            assert(rest@ =~= given.skip(i));
        }
    }
    proof {
        assert(given.take(i) =~= given);
    }
    kept
}

/// One page of time entries, without their notes, from every entry the index
/// holds (each with the pages it is attached to) and the moment asked.
///
/// Fails, naming it, on the first of `now`, `from` and `to` that the index
/// cannot hold. Otherwise `total` counts every entry the options admit, and
/// `times` is the page of them that `offset` and `limit` pick out of those
/// entries in listing order.
pub fn list_times(records: Vec<TimeRecord>, options: TimeListOptions, now: i128) -> (r: Result<TimeList, IndexError>)
    requires
        stored(records@),
    ensures
        match r {
            Ok(list) => {
                &&& storable(now as int) && fits(options.from) && fits(options.to)
                &&& list.total == records@.filter(admits(options, now as int)).len()
                &&& exists|s: Seq<TimeRecord>|
                    #![trigger in_listing_order(s, options.sort, options.order, now as int)]
                    in_listing_order(s, options.sort, options.order, now as int) && s.to_multiset()
                        == records@.filter(admits(options, now as int)).to_multiset() && list.times@
                        == window(s, options.offset, options.limit)
            },
            Err(IndexError::TimestampOutOfRange { label }) => {
                ||| !storable(now as int) && label == "now"
                ||| storable(now as int) && !fits(options.from) && label == "from"
                ||| storable(now as int) && fits(options.from) && !fits(options.to) && label == "to"
            },
            Err(_) => false,
        },
{
    let now = match to_nanos(now, "now") {
        Ok(n) => n,
        Err(e) => return Err(e),
    };
    if let Some(from) = options.from {
        if let Err(e) = to_nanos(from, "from") {
            return Err(e);
        }
    }
    if let Some(to) = options.to {
        if let Err(e) = to_nanos(to, "to") {
            return Err(e);
        }
    }
    let kept = admitted_records(records, &options, now);
    let total = kept.len();
    let listing = order_records(kept, options.sort, options.order, now);
    let times = cut_window(listing, options.offset, options.limit);
    Ok(TimeList { times, total })
}

/// `t` names the entry `r`, timed up to `now`.
pub open spec fn refers_to(t: TimeRef, r: TimeRecord, now: int) -> bool {
    &&& t.id@ == r.id@
    &&& t.name@ == r.name@
    &&& t.start == r.start
    &&& t.end == r.end
    &&& t.seconds == elapsed_seconds(r.start as int, end_or_now(r, now))
}

/// Entries attached to the page `page`.
pub open spec fn attached(page: Seq<char>) -> spec_fn(TimeRecord) -> bool {
    |r: TimeRecord| exists|k: int| 0 <= k < r.pages@.len() && #[trigger] r.pages@[k].slug@ == page
}

/// The entries attached to `page`, in the order given.
#[verifier::spinoff_prover]
fn records_on(records: Vec<TimeRecord>, page: &str) -> (kept: Vec<TimeRecord>)
    requires
        stored(records@),
    ensures
        kept@ == records@.filter(attached(page@)),
        stored(kept@),
{
    let ghost given = records@;
    let ghost pred = attached(page@);
    let mut rest = records;
    let mut kept: Vec<TimeRecord> = Vec::new();
    let ghost mut i: int = 0;
    proof {
        assert(given.skip(0) =~= given);
        assert(given.take(0) =~= Seq::<TimeRecord>::empty());
        reveal(Seq::filter);
        assert(given.take(0).filter(pred) =~= Seq::<TimeRecord>::empty());
    }
    while rest.len() > 0
        invariant
            0 <= i <= given.len(),
            stored(given),
            pred == attached(page@),
            rest@ == given.skip(i),
            kept@ == given.take(i).filter(pred),
            stored(kept@),
        decreases rest@.len(),
    {
        proof {
            assert(given.take(i + 1) =~= given.take(i).push(given[i]));
            given.take(i).lemma_filter_push(given[i], pred);
            assert(rest@[0] == given[i]);
            assert(stored_one(given[i]));
        }
        let r = rest.remove(0);
        if attached_to(&r.pages, page) {
            kept.push(r);
        }
        proof {
            i = i + 1;
            assert(rest@ =~= given.skip(i));
        }
    }
    proof {
        assert(given.take(i) =~= given);
    }
    kept
}

/// How much time is attached to the page `page`, from every entry the index
/// holds and the moment asked: `None` when the summed nanoseconds of the
/// attached entries no longer fit the `i64` the index sums them in. `recent`
/// is the latest [`TOP_N`] of them, latest start first.
#[verifier::spinoff_prover]
pub fn page_times(records: Vec<TimeRecord>, page: &str, now: i64) -> (p: Option<PageTimes>)
    requires
        stored(records@),
    ensures
        ({
            let on = records@.filter(attached(page@));
            &&& p is None <==> total_span(on, now as int) > i64::MAX
            &&& p matches Some(p) ==> {
                &&& p.entries == on.len()
                &&& p.seconds == total_span(on, now as int) / 1_000_000_000
                &&& p.running == running_count(on)
                &&& p.groups == names_in(on).len()
                &&& exists|s: Seq<TimeRecord>|
                    #![trigger in_listing_order(s, TimeSortBy::Start, SortOrder::Descending, now as int)]
                    {
                        &&& in_listing_order(s, TimeSortBy::Start, SortOrder::Descending, now as int)
                        &&& s.to_multiset() == on.to_multiset()
                        &&& p.recent@.len() == if s.len() < TOP_N { s.len() } else { TOP_N as nat }
                        &&& forall|k: int|
                            0 <= k < p.recent@.len() ==> refers_to(#[trigger] p.recent@[k], s[k], now as int)
                    }
            }
        }),
{
    let records = records_on(records, page);
    let totals = match time_totals(&records, now) {
        Some(totals) => totals,
        None => return None,
    };
    let mut listing = order_records(records, TimeSortBy::Start, SortOrder::Descending, now);
    let ghost s = listing@;
    listing.truncate(TOP_N);
    let ghost kept = listing@;
    let mut recent: Vec<TimeRef> = Vec::new();
    let ghost mut i: int = 0;
    while listing.len() > 0
        invariant
            0 <= i <= kept.len(),
            kept.len() <= s.len(),
            forall|k: int| 0 <= k < kept.len() ==> kept[k] == s[k],
            stored(s),
            listing@ == kept.skip(i),
            recent@.len() == i,
            forall|k: int| 0 <= k < i ==> refers_to(#[trigger] recent@[k], s[k], now as int),
        decreases listing@.len(),
    {
        proof {
            assert(listing@[0] == s[i]);
            assert(stored_one(s[i]));
        }
        let r = listing.remove(0);
        let spent = span_of(&r, now);
        recent.push(
            TimeRef { id: r.id, name: r.name, start: r.start, end: r.end, seconds: (spent / 1_000_000_000) as u64 },
        );
        proof {
            i = i + 1;
            assert(listing@ =~= kept.skip(i));
        }
    }
    Some(
        PageTimes {
            entries: totals.entries,
            seconds: totals.seconds,
            running: totals.running,
            groups: totals.groups,
            recent,
        },
    )
}

/// Entries recorded under the name `n`.
pub open spec fn named(n: Seq<char>) -> spec_fn(TimeRecord) -> bool {
    |r: TimeRecord| r.name@ == n
}

/// The nanoseconds spent under the name `n`.
pub open spec fn group_span(rs: Seq<TimeRecord>, n: Seq<char>, now: int) -> int {
    total_span(rs.filter(named(n)), now)
}

/// `g` sums up the entries recorded under its name.
pub open spec fn sums_up(g: TimeGroup, rs: Seq<TimeRecord>, now: int) -> bool {
    let these = rs.filter(named(g.name@));
    &&& g.entries == these.len()
    &&& g.seconds == total_span(these, now) / 1_000_000_000
    &&& g.running == running_count(these)
    &&& g.first_start == earliest_start(these)
    &&& g.last_start == latest_start(these)
}

/// The group named `a` comes before the one named `b`: more time spent, or
/// as much and an earlier name.
pub open spec fn group_before(rs: Seq<TimeRecord>, a: Seq<char>, b: Seq<char>, now: int) -> bool {
    group_span(rs, a, now) > group_span(rs, b, now) || (group_span(rs, a, now) == group_span(rs, b, now)
        && seq_lt(a, b))
}

proof fn names_in_contains(rs: Seq<TimeRecord>, n: Seq<char>)
    ensures
        names_in(rs).contains(n) <==> exists|k: int| 0 <= k < rs.len() && #[trigger] rs[k].name@ == n,
{
    let m = rs.map_values(|r: TimeRecord| r.name@);
    if m.contains(n) {
        let k = choose|k: int| 0 <= k < m.len() && m[k] == n;
        assert(rs[k].name@ == n);
    }
    if exists|k: int| 0 <= k < rs.len() && #[trigger] rs[k].name@ == n {
        let k = choose|k: int| 0 <= k < rs.len() && #[trigger] rs[k].name@ == n;
        assert(m[k] == n);
    }
}

/// No entry carries a name that none of them is recorded under.
proof fn absent_name_filters_empty(rs: Seq<TimeRecord>, n: Seq<char>)
    requires
        !names_in(rs).contains(n),
    ensures
        rs.filter(named(n)).len() == 0,
    decreases rs.len(),
{
    if rs.len() == 0 {
        reveal(Seq::filter);
    } else {
        let pre = rs.drop_last();
        assert(rs =~= pre.push(rs.last()));
        names_in_contains(rs, n);
        names_in_contains(pre, n);
        assert(rs[rs.len() - 1] == rs.last());
        if names_in(pre).contains(n) {
            let k = choose|k: int| 0 <= k < pre.len() && #[trigger] pre[k].name@ == n;
            assert(rs[k] == pre[k]);
        }
        absent_name_filters_empty(pre, n);
        pre.lemma_filter_push(rs.last(), named(n));
    }
}

/// More entries never take time away from a name.
proof fn group_span_grows(rs: Seq<TimeRecord>, i: int, n: Seq<char>, now: int)
    requires
        0 <= i <= rs.len(),
    ensures
        group_span(rs.take(i), n, now) <= group_span(rs, n, now),
    decreases rs.len() - i,
{
    if i < rs.len() {
        group_span_grows(rs, i + 1, n, now);
        assert(rs.take(i + 1) =~= rs.take(i).push(rs[i]));
        rs.take(i).lemma_filter_push(rs[i], named(n));
        let f = rs.take(i).filter(named(n));
        if rs[i].name@ == n {
            assert(f.push(rs[i]).drop_last() =~= f);
            spans_are_positive(rs[i], now);
        }
    } else {
        assert(rs.take(i) =~= rs);
    }
}

/// A running tally for one name.
struct Tally {
    group: TimeGroup,
    nanos: i128,
}

spec fn tallies_up(t: Tally, rs: Seq<TimeRecord>, now: int) -> bool {
    &&& rs.filter(named(t.group.name@)).len() > 0
    &&& t.group.entries == rs.filter(named(t.group.name@)).len()
    &&& t.nanos == group_span(rs, t.group.name@, now)
    &&& 0 <= t.nanos <= i64::MAX
    &&& t.group.running == running_count(rs.filter(named(t.group.name@)))
    &&& t.group.first_start == earliest_start(rs.filter(named(t.group.name@)))
    &&& t.group.last_start == latest_start(rs.filter(named(t.group.name@)))
}

/// A tally's entry counts as one more entry under its name.
proof fn tally_step(rs: Seq<TimeRecord>, r: TimeRecord, n: Seq<char>, now: int)
    ensures
        ({
            let before = rs.filter(named(n));
            let after = rs.push(r).filter(named(n));
            if r.name@ == n {
                &&& after.len() == before.len() + 1
                &&& total_span(after, now) == total_span(before, now) + span(r, now)
                &&& running_count(after) == running_count(before) + if r.end is None {
                    1int
                } else {
                    0int
                }
                &&& earliest_start(after) == if before.len() == 0 || r.start < earliest_start(before) {
                    r.start as int
                } else {
                    earliest_start(before)
                }
                &&& latest_start(after) == if before.len() == 0 || r.start > latest_start(before) {
                    r.start as int
                } else {
                    latest_start(before)
                }
            } else {
                after == before
            }
        }),
{
    rs.lemma_filter_push(r, named(n));
    let before = rs.filter(named(n));
    if r.name@ == n {
        assert(before.push(r).drop_last() =~= before);
        assert(before.push(r).last() == r);
        if before.len() == 0 {
            assert(before.push(r)[0] == r);
        }
    }
}

fn tally_of(tallies: &Vec<Tally>, name: &str) -> (k: Option<usize>)
    ensures
        match k {
            Some(k) => k < tallies@.len() && tallies@[k as int].group.name@ == name@,
            None => forall|j: int| 0 <= j < tallies@.len() ==> #[trigger] tallies@[j].group.name@ != name@,
        },
{
    let mut j: usize = 0;
    while j < tallies.len()
        invariant
            j <= tallies@.len(),
            forall|i: int| 0 <= i < j ==> #[trigger] tallies@[i].group.name@ != name@,
        decreases tallies@.len() - j,
    {
        if same_text(tallies[j].group.name.as_str(), name) {
            return Some(j);
        }
        j = j + 1;
    }
    None
}

proof fn running_within(rs: Seq<TimeRecord>)
    ensures
        0 <= running_count(rs) <= rs.len(),
    decreases rs.len(),
{
    if rs.len() > 0 {
        running_within(rs.drop_last());
    }
}

spec fn tallied(ts: Seq<Tally>, rs: Seq<TimeRecord>, now: int) -> bool {
    &&& forall|j: int| 0 <= j < ts.len() ==> tallies_up(#[trigger] ts[j], rs, now)
    &&& forall|a: int, b: int|
        0 <= a < ts.len() && 0 <= b < ts.len() && a != b ==> #[trigger] ts[a].group.name@
            != #[trigger] ts[b].group.name@
    &&& forall|n: Seq<char>|
        #[trigger] names_in(rs).contains(n) <==> exists|j: int| 0 <= j < ts.len() && #[trigger] ts[j].group.name@ == n
}

/// One tally per name the entries are recorded under, or `None` once the
/// time under some name no longer fits an `i64` of nanoseconds.
#[verifier::spinoff_prover]
fn tally_groups(records: &Vec<TimeRecord>, now: i64) -> (r: Option<Vec<Tally>>)
    requires
        stored(records@),
    ensures
        match r {
            Some(ts) => tallied(ts@, records@, now as int),
            None => exists|n: Seq<char>| names_in(records@).contains(n) && group_span(records@, n, now as int) > i64::MAX,
        },
{
    broadcast use Seq::lemma_filter_len;

    let ghost rs = records@;
    let mut tallies: Vec<Tally> = Vec::new();
    let mut i: usize = 0;
    proof {
        assert(rs.take(0) =~= Seq::<TimeRecord>::empty());
        assert forall|n: Seq<char>| #[trigger] names_in(rs.take(0)).contains(n) <==> exists|j: int| 0 <= j < tallies@.len() && #[trigger] tallies@[j].group.name@ == n by {
            names_in_contains(rs.take(0), n);
        }
    }
    while i < records.len()
        invariant
            rs == records@,
            stored(rs),
            i <= rs.len(),
            tallied(tallies@, rs.take(i as int), now as int),
        decreases rs.len() - i,
    {
        let ghost pre = rs.take(i as int);
        let ghost post = rs.take(i + 1);
        let ghost old_tallies = tallies@;
        proof {
            assert(post =~= pre.push(rs[i as int]));
            assert(stored_one(rs[i as int]));
            names_in_push(pre, rs[i as int]);
        }
        let r = &records[i];
        let s = span_of(r, now);
        match tally_of(&tallies, r.name.as_str()) {
            Some(k) => {
                proof {
                    tally_step(pre, rs[i as int], r.name@, now as int);
                    assert(tallies_up(tallies@[k as int], pre, now as int));
                    running_within(pre.filter(named(r.name@)));
                    assert(pre.filter(named(r.name@)).len() <= pre.len());
                }
                if tallies[k].nanos + s > i64::MAX as i128 {
                    proof {
                        group_span_grows(rs, i + 1, r.name@, now as int);
                        names_in_contains(rs, r.name@);
                        assert(rs[i as int].name@ == r.name@);
                    }
                    return None;
                }
                let entries = tallies[k].group.entries + 1;
                let nanos = tallies[k].nanos + s;
                let running = if r.end.is_none() {
                    tallies[k].group.running + 1
                } else {
                    tallies[k].group.running
                };
                let first = if r.start < tallies[k].group.first_start {
                    r.start
                } else {
                    tallies[k].group.first_start
                };
                let last = if r.start > tallies[k].group.last_start {
                    r.start
                } else {
                    tallies[k].group.last_start
                };
                tallies[k].group.entries = entries;
                tallies[k].nanos = nanos;
                tallies[k].group.running = running;
                tallies[k].group.first_start = first;
                tallies[k].group.last_start = last;
                proof {
                    assert(tallies@[k as int].group.name@ == old_tallies[k as int].group.name@);
                    assert forall|j: int| 0 <= j < tallies@.len() implies tallies_up(#[trigger] tallies@[j], post, now as int) by {
                        tally_step(pre, rs[i as int], tallies@[j].group.name@, now as int);
                        if j != k {
                            assert(tallies@[j] == old_tallies[j]);
                            assert(old_tallies[j].group.name@ != old_tallies[k as int].group.name@);
                        }
                    }
                    assert forall|a: int, b: int|
                        0 <= a < tallies@.len() && 0 <= b < tallies@.len() && a != b implies #[trigger] tallies@[a].group.name@
                            != #[trigger] tallies@[b].group.name@ by {
                        assert(tallies@[a].group.name@ == old_tallies[a].group.name@);
                        assert(tallies@[b].group.name@ == old_tallies[b].group.name@);
                    }
                    assert forall|n: Seq<char>| #[trigger] names_in(post).contains(n) <==> exists|j: int| 0 <= j < tallies@.len() && #[trigger] tallies@[j].group.name@ == n by {
                        if exists|j: int| 0 <= j < old_tallies.len() && #[trigger] old_tallies[j].group.name@ == n {
                            let j = choose|j: int| 0 <= j < old_tallies.len() && #[trigger] old_tallies[j].group.name@ == n;
                            assert(tallies@[j].group.name@ == n);
                        }
                        if exists|j: int| 0 <= j < tallies@.len() && #[trigger] tallies@[j].group.name@ == n {
                            let j = choose|j: int| 0 <= j < tallies@.len() && #[trigger] tallies@[j].group.name@ == n;
                            assert(old_tallies[j].group.name@ == n);
                        }
                    }
                }
            },
            None => {
                proof {
                    tally_step(pre, rs[i as int], r.name@, now as int);
                    if names_in(pre).contains(r.name@) {
                        let j = choose|j: int| 0 <= j < old_tallies.len() && #[trigger] old_tallies[j].group.name@ == r.name@;
                    }
                    absent_name_filters_empty(pre, r.name@);
                }
                if s > i64::MAX as i128 {
                    proof {
                        group_span_grows(rs, i + 1, r.name@, now as int);
                        names_in_contains(rs, r.name@);
                        assert(rs[i as int].name@ == r.name@);
                    }
                    return None;
                }
                let running: usize = if r.end.is_none() {
                    1
                } else {
                    0
                };
                tallies.push(
                    Tally {
                        group: TimeGroup {
                            name: r.name.clone(),
                            entries: 1,
                            seconds: 0,
                            running,
                            first_start: r.start,
                            last_start: r.start,
                        },
                        nanos: s,
                    },
                );
                proof {
                    let last = old_tallies.len() as int;
                    assert forall|j: int| 0 <= j < tallies@.len() implies tallies_up(#[trigger] tallies@[j], post, now as int) by {
                        tally_step(pre, rs[i as int], tallies@[j].group.name@, now as int);
                        if j != last {
                            assert(tallies@[j] == old_tallies[j]);
                        }
                    }
                    assert forall|a: int, b: int|
                        0 <= a < tallies@.len() && 0 <= b < tallies@.len() && a != b implies #[trigger] tallies@[a].group.name@
                            != #[trigger] tallies@[b].group.name@ by {
                        if a != last && b != last {
                            assert(tallies@[a] == old_tallies[a]);
                            assert(tallies@[b] == old_tallies[b]);
                        } else if a == last {
                            assert(tallies@[b] == old_tallies[b]);
                            assert(old_tallies[b].group.name@ != r.name@);
                        } else {
                            assert(tallies@[a] == old_tallies[a]);
                            assert(old_tallies[a].group.name@ != r.name@);
                        }
                    }
                    assert forall|n: Seq<char>| #[trigger] names_in(post).contains(n) <==> exists|j: int| 0 <= j < tallies@.len() && #[trigger] tallies@[j].group.name@ == n by {
                        if exists|j: int| 0 <= j < old_tallies.len() && #[trigger] old_tallies[j].group.name@ == n {
                            let j = choose|j: int| 0 <= j < old_tallies.len() && #[trigger] old_tallies[j].group.name@ == n;
                            assert(tallies@[j].group.name@ == n);
                        }
                        if n == r.name@ {
                            assert(tallies@[last].group.name@ == n);
                        }
                        if exists|j: int| 0 <= j < tallies@.len() && #[trigger] tallies@[j].group.name@ == n {
                            let j = choose|j: int| 0 <= j < tallies@.len() && #[trigger] tallies@[j].group.name@ == n;
                            if j != last {
                                assert(old_tallies[j].group.name@ == n);
                            }
                        }
                    }
                }
            },
        }
        i = i + 1;
    }
    proof {
        assert(rs.take(rs.len() as int) =~= rs);
    }
    Some(tallies)
}

spec fn tally_first(a: Tally, b: Tally) -> bool {
    a.nanos > b.nanos || (a.nanos == b.nanos && seq_lt(a.group.name@, b.group.name@))
}

spec fn tallies_ordered(ts: Seq<Tally>) -> bool {
    forall|i: int, j: int| 0 <= i < j < ts.len() ==> tally_first(#[trigger] ts[i], #[trigger] ts[j])
}

proof fn tally_first_transitive(a: Tally, b: Tally, c: Tally)
    requires
        tally_first(a, b),
        tally_first(b, c),
    ensures
        tally_first(a, c),
{
    if a.nanos == b.nanos && b.nanos == c.nanos {
        seq_lt_transitive(a.group.name@, b.group.name@, c.group.name@);
    }
}

proof fn tally_first_total(a: Tally, b: Tally)
    requires
        a.group.name@ != b.group.name@,
    ensures
        tally_first(a, b) || tally_first(b, a),
{
    seq_lt_total(a.group.name@, b.group.name@);
}

/// Puts a tally for a new name into an ordered list of tallies.
#[verifier::spinoff_prover]
fn place_tally(listing: &mut Vec<Tally>, t: Tally)
    requires
        tallies_ordered(old(listing)@),
        forall|k: int| 0 <= k < old(listing)@.len() ==> #[trigger] old(listing)@[k].group.name@ != t.group.name@,
    ensures
        tallies_ordered(final(listing)@),
        final(listing)@.len() == old(listing)@.len() + 1,
        forall|x: Tally| #[trigger] final(listing)@.contains(x) <==> (old(listing)@.contains(x) || x == t),
{
    let ghost before = listing@;
    let mut p: usize = 0;
    while p < listing.len()
        invariant
            listing@ == before,
            p <= before.len(),
            forall|k: int| 0 <= k < p ==> !tally_first(t, #[trigger] before[k]),
        ensures
            p == before.len() || tally_first(t, before[p as int]),
        decreases before.len() - p,
    {
        let first = listing[p].nanos < t.nanos || (listing[p].nanos == t.nanos && less_than(
            t.group.name.as_str(),
            listing[p].group.name.as_str(),
        ));
        if first {
            break;
        }
        p = p + 1;
    }
    proof {
        let after = before.insert(p as int, t);
        assert forall|i: int, j: int| 0 <= i < j < after.len() implies tally_first(
            #[trigger] after[i],
            #[trigger] after[j],
        ) by {
            if i < p && j == p {
                assert(after[i] == before[i]);
                tally_first_total(before[i], t);
            } else if i == p && j > p {
                assert(after[j] == before[j - 1]);
                if j - 1 > p {
                    tally_first_transitive(t, before[p as int], before[j - 1]);
                }
            } else if j < p {
                assert(after[i] == before[i] && after[j] == before[j]);
            } else if i < p {
                assert(after[i] == before[i] && after[j] == before[j - 1]);
            } else {
                assert(after[i] == before[i - 1] && after[j] == before[j - 1]);
            }
        }
        assert forall|x: Tally| #[trigger] after.contains(x) <==> (before.contains(x) || x == t) by {
            if after.contains(x) {
                let k = choose|k: int| 0 <= k < after.len() && after[k] == x;
                if k < p {
                    assert(before[k] == x);
                } else if k > p {
                    assert(before[k - 1] == x);
                }
            }
            if before.contains(x) {
                let k = choose|k: int| 0 <= k < before.len() && before[k] == x;
                if k < p {
                    assert(after[k] == x);
                } else {
                    assert(after[k + 1] == x);
                }
            }
            if x == t {
                assert(after[p as int] == x);
            }
        }
    }
    listing.insert(p, t);
}

/// The tallies, most time first and then by name.
#[verifier::spinoff_prover]
fn order_tallies(tallies: Vec<Tally>) -> (listing: Vec<Tally>)
    requires
        forall|a: int, b: int|
            0 <= a < tallies@.len() && 0 <= b < tallies@.len() && a != b ==> #[trigger] tallies@[a].group.name@
                != #[trigger] tallies@[b].group.name@,
    ensures
        tallies_ordered(listing@),
        listing@.len() == tallies@.len(),
        forall|x: Tally| #[trigger] listing@.contains(x) <==> tallies@.contains(x),
{
    let ghost given = tallies@;
    let mut rest = tallies;
    let mut listing: Vec<Tally> = Vec::new();
    let ghost mut i: int = 0;
    proof {
        assert(given.skip(0) =~= given);
    }
    while rest.len() > 0
        invariant
            0 <= i <= given.len(),
            rest@ == given.skip(i),
            forall|a: int, b: int|
                0 <= a < given.len() && 0 <= b < given.len() && a != b ==> #[trigger] given[a].group.name@
                    != #[trigger] given[b].group.name@,
            tallies_ordered(listing@),
            listing@.len() == i,
            forall|x: Tally| #[trigger] listing@.contains(x) <==> given.take(i).contains(x),
        decreases rest@.len(),
    {
        let ghost t = given[i];
        proof {
            assert(rest@[0] == t);
            assert forall|k: int| 0 <= k < listing@.len() implies #[trigger] listing@[k].group.name@ != t.group.name@ by {
                assert(listing@.contains(listing@[k]));
                let j = choose|j: int| 0 <= j < i && given.take(i)[j] == listing@[k];
                assert(given[j] == listing@[k]);
            }
        }
        let x = rest.remove(0);
        place_tally(&mut listing, x);
        proof {
            let pre = given.take(i);
            let nxt = given.take(i + 1);
            assert(nxt =~= pre.push(t));
            assert forall|y: Tally| #[trigger] listing@.contains(y) <==> nxt.contains(y) by {
                if pre.contains(y) {
                    let j = choose|j: int| 0 <= j < pre.len() && pre[j] == y;
                    assert(nxt[j] == y);
                }
                if nxt.contains(y) {
                    let j = choose|j: int| 0 <= j < nxt.len() && nxt[j] == y;
                    if j < i {
                        assert(pre[j] == y);
                    }
                }
                if y == t {
                    assert(nxt[i] == y);
                }
            }
            i = i + 1;
            assert(rest@ =~= given.skip(i));
        }
    }
    proof {
        assert(given.take(i) =~= given);
    }
    listing
}

/// Every group the entries fall into, most time first and then by name, from
/// every entry the index holds and the moment asked: `None` when the time
/// under some name no longer fits the `i64` of nanoseconds the index sums it
/// in.
#[verifier::spinoff_prover]
pub fn time_groups(records: &Vec<TimeRecord>, now: i64) -> (r: Option<Vec<TimeGroup>>)
    requires
        stored(records@),
    ensures
        r is None <==> exists|n: Seq<char>| names_in(records@).contains(n) && group_span(records@, n, now as int) > i64::MAX,
        r matches Some(gs) ==> {
            &&& gs@.len() == names_in(records@).len()
            &&& forall|n: Seq<char>|
                #[trigger] names_in(records@).contains(n) <==> exists|k: int| 0 <= k < gs@.len() && #[trigger] gs@[k].name@ == n
            &&& forall|k: int| 0 <= k < gs@.len() ==> sums_up(#[trigger] gs@[k], records@, now as int)
            &&& forall|i: int, j: int|
                0 <= i < j < gs@.len() ==> group_before(records@, #[trigger] gs@[i].name@, #[trigger] gs@[j].name@, now as int)
        },
{
    let ghost rs = records@;
    let tallies = match tally_groups(records, now) {
        Some(tallies) => tallies,
        None => return None,
    };
    let ghost given = tallies@;
    let mut rest = order_tallies(tallies);
    let ghost ordered = rest@;
    proof {
        assert forall|k: int| 0 <= k < ordered.len() implies tallies_up(#[trigger] ordered[k], rs, now as int) by {
            assert(ordered.contains(ordered[k]));
            let j = choose|j: int| 0 <= j < given.len() && given[j] == ordered[k];
        }
        assert(ordered.skip(0) =~= ordered);
    }
    let mut groups: Vec<TimeGroup> = Vec::new();
    let ghost mut i: int = 0;
    while rest.len() > 0
        invariant
            0 <= i <= ordered.len(),
            rest@ == ordered.skip(i),
            forall|k: int| 0 <= k < ordered.len() ==> tallies_up(#[trigger] ordered[k], rs, now as int),
            groups@.len() == i,
            forall|k: int| 0 <= k < i ==> #[trigger] groups@[k].name@ == ordered[k].group.name@,
            forall|k: int| 0 <= k < i ==> sums_up(#[trigger] groups@[k], rs, now as int),
        decreases rest@.len(),
    {
        proof {
            assert(rest@[0] == ordered[i]);
            assert(tallies_up(ordered[i], rs, now as int));
        }
        let t = rest.remove(0);
        let mut group = t.group;
        group.seconds = (t.nanos / 1_000_000_000) as u64;
        groups.push(group);
        proof {
            i = i + 1;
            assert(rest@ =~= ordered.skip(i));
        }
    }
    proof {
        let names = groups@.map_values(|g: TimeGroup| g.name@);
        assert forall|a: int, b: int| 0 <= a < b < groups@.len() implies group_before(
            rs,
            #[trigger] groups@[a].name@,
            #[trigger] groups@[b].name@,
            now as int,
        ) by {
            assert(tally_first(ordered[a], ordered[b]));
        }
        assert forall|n: Seq<char>| #[trigger] names_in(rs).contains(n) <==> exists|k: int| 0 <= k < groups@.len() && #[trigger] groups@[k].name@ == n by {
            if names_in(rs).contains(n) {
                let j = choose|j: int| 0 <= j < given.len() && #[trigger] given[j].group.name@ == n;
                assert(given.contains(given[j]));
                assert(ordered.contains(given[j]));
                let k = choose|k: int| 0 <= k < ordered.len() && ordered[k] == given[j];
                assert(groups@[k].name@ == n);
            }
            if exists|k: int| 0 <= k < groups@.len() && #[trigger] groups@[k].name@ == n {
                let k = choose|k: int| 0 <= k < groups@.len() && #[trigger] groups@[k].name@ == n;
                assert(ordered.contains(ordered[k]));
                let j = choose|j: int| 0 <= j < given.len() && given[j] == ordered[k];
                assert(given[j].group.name@ == n);
            }
        }
        assert forall|a: int, b: int| 0 <= a < names.len() && 0 <= b < names.len() && a != b implies names[a] != names[b] by {
            if a < b {
                assert(tally_first(ordered[a], ordered[b]));
            } else {
                assert(tally_first(ordered[b], ordered[a]));
            }
            seq_lt_irreflexive(names[a]);
        }
        names.unique_seq_to_set();
        assert forall|n: Seq<char>| names.to_set().contains(n) <==> names_in(rs).contains(n) by {
            if names.contains(n) {
                let k = choose|k: int| 0 <= k < names.len() && names[k] == n;
                assert(groups@[k].name@ == n);
            }
            if names_in(rs).contains(n) {
                let k = choose|k: int| 0 <= k < groups@.len() && #[trigger] groups@[k].name@ == n;
                assert(names[k] == n);
            }
        }
        assert(names.to_set() =~= names_in(rs));
    }
    Some(groups)
}

/// A figure of the entries under each of the names `ns`, summed.
pub open spec fn sum_over_names(rs: Seq<TimeRecord>, ns: Seq<Seq<char>>, f: spec_fn(Seq<TimeRecord>) -> int) -> int
    decreases ns.len(),
{
    if ns.len() == 0 {
        0
    } else {
        sum_over_names(rs, ns.drop_last(), f) + f(rs.filter(named(ns.last())))
    }
}

/// A figure that grows by `w(r)` with each entry `r`.
pub open spec fn additive(f: spec_fn(Seq<TimeRecord>) -> int, w: spec_fn(TimeRecord) -> int) -> bool {
    &&& f(Seq::<TimeRecord>::empty()) == 0
    &&& forall|s: Seq<TimeRecord>, r: TimeRecord| #[trigger] f(s.push(r)) == f(s) + w(r)
}

proof fn sum_step(
    pre: Seq<TimeRecord>,
    r: TimeRecord,
    ns: Seq<Seq<char>>,
    f: spec_fn(Seq<TimeRecord>) -> int,
    w: spec_fn(TimeRecord) -> int,
)
    requires
        ns.no_duplicates(),
        additive(f, w),
    ensures
        sum_over_names(pre.push(r), ns, f) == sum_over_names(pre, ns, f) + if ns.contains(r.name@) {
            w(r)
        } else {
            0
        },
    decreases ns.len(),
{
    if ns.len() > 0 {
        let rest = ns.drop_last();
        assert(rest.no_duplicates()) by {
            assert forall|a: int, b: int| 0 <= a < rest.len() && 0 <= b < rest.len() && a != b implies rest[a] != rest[b] by {
                assert(rest[a] == ns[a] && rest[b] == ns[b]);
            }
        }
        sum_step(pre, r, rest, f, w);
        pre.lemma_filter_push(r, named(ns.last()));
        let before = pre.filter(named(ns.last()));
        if r.name@ == ns.last() {
            assert(f(before.push(r)) == f(before) + w(r));
        }
        assert(ns =~= rest.push(ns.last()));
        if rest.contains(r.name@) {
            let k = choose|k: int| 0 <= k < rest.len() && rest[k] == r.name@;
            assert(ns[k] == rest[k]);
            assert(ns.contains(r.name@));
            if r.name@ == ns.last() {
                assert(ns[ns.len() - 1] == ns[k]);
            }
        }
        if ns.contains(r.name@) && r.name@ != ns.last() {
            let k = choose|k: int| 0 <= k < ns.len() && ns[k] == r.name@;
            assert(k != ns.len() - 1);
            assert(rest[k] == r.name@);
        }
        if r.name@ == ns.last() {
            assert(ns[ns.len() - 1] == r.name@);
        }
    }
}

proof fn sum_partitions(
    rs: Seq<TimeRecord>,
    ns: Seq<Seq<char>>,
    f: spec_fn(Seq<TimeRecord>) -> int,
    w: spec_fn(TimeRecord) -> int,
)
    requires
        ns.no_duplicates(),
        additive(f, w),
        forall|n: Seq<char>| #[trigger] names_in(rs).contains(n) ==> ns.contains(n),
    ensures
        sum_over_names(rs, ns, f) == f(rs),
    decreases rs.len(),
{
    if rs.len() == 0 {
        empty_sum(rs, ns, f);
        assert(rs =~= Seq::<TimeRecord>::empty());
    } else {
        let pre = rs.drop_last();
        let r = rs.last();
        assert(rs =~= pre.push(r));
        names_in_push(pre, r);
        assert forall|n: Seq<char>| #[trigger] names_in(pre).contains(n) implies ns.contains(n) by {
            assert(names_in(rs).contains(n));
        }
        sum_partitions(pre, ns, f, w);
        sum_step(pre, r, ns, f, w);
        assert(names_in(rs).contains(r.name@));
        assert(f(pre.push(r)) == f(pre) + w(r));
    }
}

proof fn empty_sum(rs: Seq<TimeRecord>, ns: Seq<Seq<char>>, f: spec_fn(Seq<TimeRecord>) -> int)
    requires
        rs.len() == 0,
        f(Seq::<TimeRecord>::empty()) == 0,
    ensures
        sum_over_names(rs, ns, f) == 0,
    decreases ns.len(),
{
    if ns.len() > 0 {
        empty_sum(rs, ns.drop_last(), f);
        reveal(Seq::filter);
        assert(rs.filter(named(ns.last())) =~= Seq::<TimeRecord>::empty());
    }
}

/// Every entry falls under exactly one name: over the names the log is
/// recorded under, each once, the groups' entries, running entries and
/// nanoseconds add up to the whole log's. So the groups `time_groups` lists
/// count, between them, what `time_totals` counts.
pub proof fn groups_partition_the_log(rs: Seq<TimeRecord>, ns: Seq<Seq<char>>, now: int)
    requires
        ns.no_duplicates(),
        forall|n: Seq<char>| #[trigger] names_in(rs).contains(n) <==> ns.contains(n),
    ensures
        sum_over_names(rs, ns, |s: Seq<TimeRecord>| s.len() as int) == rs.len(),
        sum_over_names(rs, ns, |s: Seq<TimeRecord>| running_count(s)) == running_count(rs),
        sum_over_names(rs, ns, |s: Seq<TimeRecord>| total_span(s, now)) == total_span(rs, now),
{
    let count = |s: Seq<TimeRecord>| s.len() as int;
    let running = |s: Seq<TimeRecord>| running_count(s);
    let spent = |s: Seq<TimeRecord>| total_span(s, now);
    assert forall|s: Seq<TimeRecord>, r: TimeRecord| #[trigger] running(s.push(r)) == running(s) + (if r.end is None {
        1int
    } else {
        0int
    }) by {
        assert(s.push(r).drop_last() =~= s);
    }
    assert forall|s: Seq<TimeRecord>, r: TimeRecord| #[trigger] spent(s.push(r)) == spent(s) + span(r, now) by {
        assert(s.push(r).drop_last() =~= s);
    }
    sum_partitions(rs, ns, count, |r: TimeRecord| 1int);
    sum_partitions(rs, ns, running, |r: TimeRecord| if r.end is None { 1int } else { 0int });
    sum_partitions(rs, ns, spent, |r: TimeRecord| span(r, now));
}

/// No two of the entries share an id, as no two rows of the index do.
pub open spec fn ids_distinct(s: Seq<TimeRecord>) -> bool {
    forall|i: int, j: int| 0 <= i < s.len() && 0 <= j < s.len() && i != j ==> #[trigger] s[i].id@ != #[trigger] s[j].id@
}

proof fn listed_before_total(a: TimeRecord, b: TimeRecord, sort: TimeSortBy, order: SortOrder, now: int)
    requires
        a.id@ != b.id@,
    ensures
        listed_before(a, b, sort, order, now) || listed_before(b, a, sort, order, now),
{
    seq_lt_total(a.name@, b.name@);
    seq_lt_total(a.id@, b.id@);
}

/// Entries in listing order are settled by which entries they are: two
/// orderings of the same entries, no two sharing an id, are one and the same.
/// So the page `list_times` returns is determined by its inputs.
pub proof fn the_listing_order_is_settled(
    a: Seq<TimeRecord>,
    b: Seq<TimeRecord>,
    sort: TimeSortBy,
    order: SortOrder,
    now: int,
)
    requires
        in_listing_order(a, sort, order, now),
        in_listing_order(b, sort, order, now),
        a.to_multiset() == b.to_multiset(),
        ids_distinct(a),
    ensures
        a == b,
    decreases a.len(),
{
    broadcast use vstd::seq_lib::group_to_multiset_ensures;

    assert(a.to_multiset().len() == a.len());
    assert(b.to_multiset().len() == b.len());
    if a.len() == 0 {
        assert(b.len() == 0);
        assert(a =~= b);
    } else {
        assert(b.len() == a.len());
        assert(a.to_multiset().count(a[0]) > 0);
        assert(b.contains(a[0]));
        let j = choose|j: int| 0 <= j < b.len() && b[j] == a[0];
        if j > 0 {
            assert(b.to_multiset().count(b[0]) > 0);
            assert(a.contains(b[0]));
            let k = choose|k: int| 0 <= k < a.len() && a[k] == b[0];
            if k == 0 {
                assert(b[0] == b[j]);
                assert(b.to_multiset().count(b[0]) >= 2) by {
                    multiset_counts_two(b, 0, j);
                }
                assert(a.to_multiset().count(a[0]) >= 2);
                assert(a.no_duplicates()) by {
                    assert forall|x: int, y: int| 0 <= x < a.len() && 0 <= y < a.len() && x != y implies a[x] != a[y] by {
                        assert(a[x].id@ != a[y].id@);
                    }
                }
                multiset_count_one(a, 0);
            }
            assert(a[0].id@ != a[k].id@);
            listed_before_total(a[0], a[k], sort, order, now);
            assert(!listed_before(a[k], a[0], sort, order, now));
            assert(!listed_before(b[j], b[0], sort, order, now));
        }
        assert(b[0] == a[0]);
        let a1 = a.drop_first();
        let b1 = b.drop_first();
        assert(a1.to_multiset() == a.to_multiset().remove(a[0])) by {
            assert(a =~= seq![a[0]] + a1);
            a1.to_multiset_ensures();
            assert(a.remove(0) =~= a1);
        }
        assert(b1.to_multiset() == b.to_multiset().remove(b[0])) by {
            assert(b.remove(0) =~= b1);
        }
        assert forall|i: int, k: int| 0 <= i < a1.len() && 0 <= k < a1.len() && i != k implies #[trigger] a1[i].id@
            != #[trigger] a1[k].id@ by {
            assert(a1[i] == a[i + 1] && a1[k] == a[k + 1]);
        }
        assert forall|i: int, k: int| 0 <= i < k < a1.len() implies !listed_before(#[trigger] a1[k], #[trigger] a1[i], sort, order, now) by {
            assert(a1[i] == a[i + 1] && a1[k] == a[k + 1]);
        }
        assert forall|i: int, k: int| 0 <= i < k < b1.len() implies !listed_before(#[trigger] b1[k], #[trigger] b1[i], sort, order, now) by {
            assert(b1[i] == b[i + 1] && b1[k] == b[k + 1]);
        }
        the_listing_order_is_settled(a1, b1, sort, order, now);
        assert forall|i: int| 0 <= i < a.len() implies a[i] == b[i] by {
            if i > 0 {
                assert(a[i] == a1[i - 1] && b[i] == b1[i - 1]);
            }
        }
        assert(a =~= b);
    }
}

} // verus!
