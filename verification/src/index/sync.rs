//! Reconciling the index with what is on disk: how each file found in a scan
//! is judged, and how a scan's findings are counted.
//!
//! There are five trees to check and they are checked the same way: every file
//! found is compared by modification time and size with what the index
//! recorded; a match is left alone, anything else is read and indexed again,
//! and whatever the index holds that was not found is removed.
use vstd::prelude::*;

use vstd::hash_map::StringHashMap;

use crate::index::Stamp;
use crate::sorted::names_view;

verus! {

/// What one scan of one tree found.
#[derive(Debug, Clone, Copy, Default, PartialEq, Eq, Structural)]
pub struct SyncCounts {
    /// Files found on disk.
    pub scanned: usize,
    /// Files read and written to the index because they were new or changed.
    pub indexed: usize,
    /// Files already indexed with a matching mtime and size.
    pub unchanged: usize,
    /// Rows dropped from the index because the file is no longer on disk.
    pub removed: usize,
    /// Files on disk that could not be read, and so are not in the index.
    pub failed: usize,
}

/// What became of one file a scan found.
#[derive(Debug, Clone, Copy, PartialEq, Eq, Structural)]
pub enum Outcome {
    /// Its stamp matched what the index recorded.
    Unchanged,
    /// It was read and indexed.
    Indexed,
    /// It could not be read, and was dropped from the index.
    Failed,
}

/// Whether a file can be left alone: the index recorded it, with the same
/// modification time and size.
pub fn is_unchanged(previous: Option<Stamp>, updated: i128, size: u64) -> (r: bool)
    ensures
        r == (previous matches Some(stamp) && stamp.updated == updated && stamp.size == size),
{
    match previous {
        Some(stamp) => stamp.updated == updated && stamp.size == size,
        None => false,
    }
}

pub open spec fn accounted(c: SyncCounts) -> int {
    c.indexed + c.unchanged + c.failed
}

pub open spec fn tally_spec(c: SyncCounts, outcome: Outcome) -> SyncCounts {
    match outcome {
        Outcome::Unchanged => SyncCounts { unchanged: (c.unchanged + 1) as usize, ..c },
        Outcome::Indexed => SyncCounts { indexed: (c.indexed + 1) as usize, ..c },
        Outcome::Failed => SyncCounts { failed: (c.failed + 1) as usize, ..c },
    }
}

/// Counting a scan's files, one outcome after another.
pub open spec fn tally_all(c: SyncCounts, outcomes: Seq<Outcome>) -> SyncCounts
    decreases outcomes.len(),
{
    if outcomes.len() == 0 {
        c
    } else {
        tally_spec(tally_all(c, outcomes.drop_last()), outcomes.last())
    }
}

pub open spec fn changed(c: SyncCounts) -> bool {
    c.indexed > 0 || c.removed > 0
}

impl SyncCounts {
    /// The counts of a scan that found `found` files and has judged none yet.
    pub fn scanning(found: usize) -> (c: Self)
        ensures
            c == (SyncCounts { scanned: found, indexed: 0, unchanged: 0, removed: 0, failed: 0 }),
    {
        SyncCounts { scanned: found, indexed: 0, unchanged: 0, removed: 0, failed: 0 }
    }

    /// Count one found file's outcome. Every file found is counted once, so
    /// there is always one more to count.
    pub fn tally(self, outcome: Outcome) -> (c: Self)
        requires
            accounted(self) < self.scanned,
        ensures
            c == tally_spec(self, outcome),
    {
        match outcome {
            Outcome::Unchanged => SyncCounts { unchanged: self.unchanged + 1, ..self },
            Outcome::Indexed => SyncCounts { indexed: self.indexed + 1, ..self },
            Outcome::Failed => SyncCounts { failed: self.failed + 1, ..self },
        }
    }

    /// Count one row dropped because its file is gone.
    pub fn tally_removed(self) -> (c: Self)
        requires
            self.removed < usize::MAX,
        ensures
            c == (SyncCounts { removed: (self.removed + 1) as usize, ..self }),
    {
        SyncCounts { removed: self.removed + 1, ..self }
    }

    /// Whether the scan changed the index.
    pub fn changed_anything(&self) -> (r: bool)
        ensures
            r == changed(*self),
            r <==> (self.indexed > 0 || self.removed > 0),
    {
        self.indexed > 0 || self.removed > 0
    }
}

/// A scan that judges every file it found once accounts for every file:
/// each was left alone, indexed, or failed, and nothing was removed on their
/// account.
pub proof fn every_file_is_accounted_for(found: usize, outcomes: Seq<Outcome>)
    requires
        outcomes.len() == found,
    ensures
        accounted(tally_all(SyncCounts { scanned: found, indexed: 0, unchanged: 0, removed: 0, failed: 0 }, outcomes))
            == found,
        tally_all(SyncCounts { scanned: found, indexed: 0, unchanged: 0, removed: 0, failed: 0 }, outcomes).removed
            == 0,
        tally_all(SyncCounts { scanned: found, indexed: 0, unchanged: 0, removed: 0, failed: 0 }, outcomes).scanned
            == found,
{
    tally_all_accounts(SyncCounts { scanned: found, indexed: 0, unchanged: 0, removed: 0, failed: 0 }, outcomes);
}

proof fn tally_all_accounts(c: SyncCounts, outcomes: Seq<Outcome>)
    requires
        accounted(c) + outcomes.len() <= c.scanned,
    ensures
        accounted(tally_all(c, outcomes)) == accounted(c) + outcomes.len(),
        tally_all(c, outcomes).removed == c.removed,
        tally_all(c, outcomes).scanned == c.scanned,
    decreases outcomes.len(),
{
    if outcomes.len() > 0 {
        tally_all_accounts(c, outcomes.drop_last());
    }
}

proof fn tally_all_indexes(c: SyncCounts, outcomes: Seq<Outcome>)
    requires
        accounted(c) + outcomes.len() <= c.scanned,
    ensures
        tally_all(c, outcomes).indexed > 0 <==> (c.indexed > 0 || exists|i: int|
            0 <= i < outcomes.len() && outcomes[i] == Outcome::Indexed),
        tally_all(c, outcomes).removed == c.removed,
    decreases outcomes.len(),
{
    if outcomes.len() > 0 {
        let front = outcomes.drop_last();
        tally_all_indexes(c, front);
        tally_all_accounts(c, front);
        assert forall|i: int| 0 <= i < front.len() implies front[i] == outcomes[i] by {}
        if exists|i: int| 0 <= i < outcomes.len() && outcomes[i] == Outcome::Indexed {
            let i = choose|i: int| 0 <= i < outcomes.len() && outcomes[i] == Outcome::Indexed;
            if i < front.len() {
                assert(front[i] == Outcome::Indexed);
            }
        }
    }
}

/// A file a scan left alone, or could not read, changes nothing in the index;
/// a file it indexed is a change.
pub proof fn only_indexing_a_file_is_a_change(c: SyncCounts)
    requires
        accounted(c) < c.scanned,
    ensures
        changed(tally_spec(c, Outcome::Unchanged)) == changed(c),
        changed(tally_spec(c, Outcome::Failed)) == changed(c),
        changed(tally_spec(c, Outcome::Indexed)),
{
}

/// Dropping a row whose file is gone changes the index, whatever else the
/// scan found.
pub proof fn removing_a_row_is_a_change(c: SyncCounts)
    requires
        c.removed < usize::MAX,
    ensures
        changed((SyncCounts { removed: (c.removed + 1) as usize, ..c })),
{
}

/// A scan that judges each of the files it found and then removes `removed`
/// rows has changed the index exactly when it indexed one of those files or
/// removed a row: files left alone or that failed change nothing.
pub proof fn a_scan_changes_the_index_by_indexing_or_removing(found: usize, outcomes: Seq<Outcome>, removed: usize)
    requires
        outcomes.len() == found,
    ensures
        changed(
            (SyncCounts {
                removed,
                ..tally_all(SyncCounts { scanned: found, indexed: 0, unchanged: 0, removed: 0, failed: 0 }, outcomes)
            }),
        ) <==> (removed > 0 || exists|i: int| 0 <= i < outcomes.len() && outcomes[i] == Outcome::Indexed),
{
    tally_all_indexes(SyncCounts { scanned: found, indexed: 0, unchanged: 0, removed: 0, failed: 0 }, outcomes);
}

/// What reading the word log found. Not [`SyncCounts`]: the log is read and
/// replaced whole, so "indexed" and "unchanged" would mean nothing about it.
#[derive(Debug, Clone, Copy, Default, PartialEq, Eq, Structural)]
pub struct WordSync {
    /// Observations folded into the index.
    pub observations: usize,
    /// Lines that would not parse.
    pub skipped: usize,
    /// Whether the log could be read at all.
    pub read: bool,
}

#[derive(Debug, Clone, Copy, Default, PartialEq, Eq, Structural)]
pub struct SyncReport {
    pub pages: SyncCounts,
    pub times: SyncCounts,
    pub captures: SyncCounts,
    pub ideas: SyncCounts,
    pub events: SyncCounts,
    /// The word log, which is read rather than reconciled.
    pub words: WordSync,
}

pub open spec fn trees(r: SyncReport) -> Seq<SyncCounts> {
    seq![r.pages, r.times, r.captures, r.ideas, r.events]
}

impl SyncReport {
    /// Whether the wiki on disk turned out to differ from what was indexed.
    /// The word log is not consulted: it is replaced on every run.
    pub fn changed_anything(&self) -> (r: bool)
        ensures
            r == exists|i: int| 0 <= i < 5 && changed(#[trigger] trees(*self)[i]),
    {
        let r = self.pages.changed_anything() || self.times.changed_anything()
            || self.captures.changed_anything() || self.ideas.changed_anything()
            || self.events.changed_anything();
        proof {
            let t = trees(*self);
            assert(t[0] == self.pages && t[1] == self.times && t[2] == self.captures && t[3] == self.ideas
                && t[4] == self.events);
            if r {
                if changed(self.pages) {
                    assert(changed(t[0]));
                } else if changed(self.times) {
                    assert(changed(t[1]));
                } else if changed(self.captures) {
                    assert(changed(t[2]));
                } else if changed(self.ideas) {
                    assert(changed(t[3]));
                } else {
                    assert(changed(t[4]));
                }
            }
        }
        r
    }

    /// Every tree's counts, in the order pages, times, captures, ideas, events.
    pub fn every_tree(&self) -> (t: [SyncCounts; 5])
        ensures
            t@ == trees(*self),
    {
        let t = [self.pages, self.times, self.captures, self.ideas, self.events];
        assert(t@ =~= trees(*self));
        t
    }

    /// Files that could not be read, across every tree.
    pub fn failed(&self) -> (n: usize)
        requires
            self.pages.failed + self.times.failed + self.captures.failed + self.ideas.failed
                + self.events.failed <= usize::MAX,
        ensures
            n == self.pages.failed + self.times.failed + self.captures.failed + self.ideas.failed
                + self.events.failed,
    {
        self.pages.failed + self.times.failed + self.captures.failed + self.ideas.failed
            + self.events.failed
    }

    /// Rows dropped because their file is gone, across every tree.
    pub fn removed(&self) -> (n: usize)
        requires
            self.pages.removed + self.times.removed + self.captures.removed + self.ideas.removed
                + self.events.removed <= usize::MAX,
        ensures
            n == self.pages.removed + self.times.removed + self.captures.removed
                + self.ideas.removed + self.events.removed,
    {
        self.pages.removed + self.times.removed + self.captures.removed + self.ideas.removed
            + self.events.removed
    }
}


/// A file a scan found: its id, modification instant and size.
#[derive(Debug, Clone)]
pub struct Found {
    pub id: String,
    pub updated: i128,
    pub size: u64,
}

/// What the index recorded, by id; a later row for an id overrides an earlier.
pub open spec fn stamp_map(stamps: Seq<(String, Stamp)>) -> Map<Seq<char>, Stamp>
    decreases stamps.len(),
{
    if stamps.len() == 0 {
        Map::empty()
    } else {
        stamp_map(stamps.drop_last()).insert(stamps.last().0@, stamps.last().1)
    }
}

/// An earlier file of the scan carried the same id.
pub open spec fn found_before(found: Seq<Found>, i: int) -> bool {
    exists|j: int| 0 <= j < i && #[trigger] found[j].id@ == found[i].id@
}

/// The scan's `i`th file can be left alone: it is the first with its id, and
/// the index recorded that id with the same modification instant and size.
pub open spec fn left_alone(found: Seq<Found>, stamps: Seq<(String, Stamp)>, i: int) -> bool {
    &&& !found_before(found, i)
    &&& stamp_map(stamps).contains_key(found[i].id@)
    &&& stamp_map(stamps)[found[i].id@] == Stamp { updated: found[i].updated, size: found[i].size }
}

/// Some file of the scan carries the id `x`.
pub open spec fn found_id(found: Seq<Found>, x: Seq<char>) -> bool {
    exists|i: int| 0 <= i < found.len() && #[trigger] found[i].id@ == x
}

/// How a scan will proceed: the files to read again, in the order found; how
/// many can be left alone; and the ids the index holds that no file carries
/// any more, each once.
#[derive(Debug, Clone)]
pub struct ScanPlan {
    pub to_read: Vec<usize>,
    pub unchanged: usize,
    pub stale: Vec<String>,
}

fn index_stamps(stamps: &Vec<(String, Stamp)>) -> (m: StringHashMap<Stamp>)
    ensures
        m@ == stamp_map(stamps@),
{
    let mut m: StringHashMap<Stamp> = StringHashMap::new();
    let mut i: usize = 0;
    while i < stamps.len()
        invariant
            i <= stamps@.len(),
            m@ == stamp_map(stamps@.take(i as int)),
        decreases stamps@.len() - i,
    {
        proof {
            assert(stamps@.take(i + 1).drop_last() =~= stamps@.take(i as int));
        }
        m.insert(stamps[i].0.clone(), stamps[i].1);
        proof {
            assert(m@ =~= stamp_map(stamps@.take(i + 1)));
        }
        i = i + 1;
    }
    assert(stamps@.take(stamps@.len() as int) =~= stamps@);
    m
}

/// Compares what a scan found with what the index recorded, as each file is
/// judged in turn: a file is left alone when the index recorded its id with
/// the same stamp and no earlier file of the scan claimed that id, and read
/// again otherwise; what the index recorded and no file carries is stale.
#[verifier::spinoff_prover]
pub fn plan_scan(found: &Vec<Found>, stamps: &Vec<(String, Stamp)>) -> (plan: ScanPlan)
    ensures
        forall|k: int| 0 <= k < plan.to_read@.len() ==> #[trigger] plan.to_read@[k] < found@.len(),
        forall|a: int, b: int| 0 <= a < b < plan.to_read@.len() ==> #[trigger] plan.to_read@[a] < #[trigger] plan.to_read@[b],
        forall|i: int| 0 <= i < found@.len() ==> (plan.to_read@.contains(i as usize) <==> !left_alone(found@, stamps@, i)),
        plan.unchanged + plan.to_read@.len() == found@.len(),
        forall|a: int, b: int| 0 <= a < b < plan.stale@.len() ==> #[trigger] plan.stale@[a]@ != #[trigger] plan.stale@[b]@,
        forall|x: Seq<char>| #[trigger] names_view(plan.stale@).contains(x) <==> (stamp_map(stamps@).contains_key(x) && !found_id(found@, x)),
{
    let recorded = index_stamps(stamps);
    let ghost fs = found@;
    let mut seen: StringHashMap<()> = StringHashMap::new();
    let mut to_read: Vec<usize> = Vec::new();
    let mut unchanged: usize = 0;
    let mut i: usize = 0;
    while i < found.len()
        invariant
            fs == found@,
            recorded@ == stamp_map(stamps@),
            i <= fs.len(),
            forall|x: Seq<char>| #[trigger] seen@.contains_key(x) <==> exists|j: int| 0 <= j < i && #[trigger] fs[j].id@ == x,
            forall|k: int| 0 <= k < to_read@.len() ==> #[trigger] to_read@[k] < i,
            forall|a: int, b: int| 0 <= a < b < to_read@.len() ==> #[trigger] to_read@[a] < #[trigger] to_read@[b],
            forall|j: int| 0 <= j < i ==> (to_read@.contains(j as usize) <==> !left_alone(fs, stamps@, j)),
            unchanged + to_read@.len() == i,
        decreases fs.len() - i,
    {
        let entry = &found[i];
        let earlier = seen.contains_key(entry.id.as_str());
        let alone = if earlier {
            false
        } else {
            match recorded.get(entry.id.as_str()) {
                Some(stamp) => is_unchanged(Some(*stamp), entry.updated, entry.size),
                None => false,
            }
        };
        proof {
            if earlier {
                let j = choose|j: int| 0 <= j < i && #[trigger] fs[j].id@ == entry.id@;
                assert(found_before(fs, i as int));
            } else {
                if found_before(fs, i as int) {
                    let j = choose|j: int| 0 <= j < i && #[trigger] fs[j].id@ == fs[i as int].id@;
                    assert(seen@.contains_key(entry.id@));
                }
            }
            assert(alone == left_alone(fs, stamps@, i as int));
        }
        let ghost before = to_read@;
        if alone {
            unchanged = unchanged + 1;
        } else {
            to_read.push(i);
        }
        seen.insert(entry.id.clone(), ());
        proof {
            assert forall|j: int| 0 <= j < i + 1 implies (to_read@.contains(j as usize) <==> !left_alone(fs, stamps@, j)) by {
                if j < i {
                    if to_read@.contains(j as usize) && alone == false {
                        let k = choose|k: int| 0 <= k < to_read@.len() && to_read@[k] == j as usize;
                        if k == before.len() {
                        } else {
                            assert(before[k] == j as usize);
                        }
                    }
                    if before.contains(j as usize) {
                        let k = choose|k: int| 0 <= k < before.len() && before[k] == j as usize;
                        assert(to_read@[k] == j as usize);
                    }
                } else {
                    if !alone {
                        assert(to_read@[before.len() as int] == i);
                    } else {
                        if to_read@.contains(j as usize) {
                            let k = choose|k: int| 0 <= k < to_read@.len() && to_read@[k] == j as usize;
                        }
                    }
                }
            }
            assert forall|x: Seq<char>| #[trigger] seen@.contains_key(x) <==> exists|j: int| 0 <= j < i + 1 && #[trigger] fs[j].id@ == x by {
                if x == fs[i as int].id@ {
                    assert(fs[i as int].id@ == x);
                }
            }
        }
        i = i + 1;
    }
    let mut stale: Vec<String> = Vec::new();
    let mut taken: StringHashMap<()> = StringHashMap::new();
    let mut r: usize = 0;
    while r < stamps.len()
        invariant
            fs == found@,
            forall|x: Seq<char>| #[trigger] seen@.contains_key(x) <==> found_id(fs, x),
            r <= stamps@.len(),
            forall|x: Seq<char>| #[trigger] taken@.contains_key(x) <==> names_view(stale@).contains(x),
            forall|a: int, b: int| 0 <= a < b < stale@.len() ==> #[trigger] stale@[a]@ != #[trigger] stale@[b]@,
            forall|x: Seq<char>| #[trigger] names_view(stale@).contains(x) <==> (exists|j: int| 0 <= j < r && #[trigger] stamps@[j].0@ == x) && !found_id(fs, x),
        decreases stamps@.len() - r,
    {
        let id = &stamps[r].0;
        let ghost prior = names_view(stale@);
        let known = seen.contains_key(id.as_str());
        let listed = taken.contains_key(id.as_str());
        assert(listed <==> prior.contains(id@));
        if !known && !listed {
            let ghost before = stale@;
            stale.push(id.clone());
            taken.insert(id.clone(), ());
            proof {
                assert(names_view(stale@) =~= names_view(before).push(id@));
                assert forall|a: int, b: int| 0 <= a < b < stale@.len() implies #[trigger] stale@[a]@ != #[trigger] stale@[b]@ by {
                    if b == before.len() {
                        assert(names_view(before)[a] == stale@[a]@);
                        assert(names_view(before).contains(stale@[a]@));
                    } else {
                        assert(stale@[a] == before[a] && stale@[b] == before[b]);
                    }
                }
            }
        }
        proof {
            let v = names_view(stale@);
            assert forall|x: Seq<char>| #[trigger] v.contains(x) implies prior.contains(x) || x == id@ by {
                let k = choose|k: int| 0 <= k < v.len() && v[k] == x;
                if k < prior.len() {
                    assert(prior[k] == v[k]);
                }
            }
            assert forall|x: Seq<char>| #[trigger] prior.contains(x) implies v.contains(x) by {
                let k = choose|k: int| 0 <= k < prior.len() && prior[k] == x;
                assert(v[k] == prior[k]);
            }
            if !known && !listed {
                assert(v[prior.len() as int] == id@);
                assert(v.contains(id@));
            } else {
                assert(v =~= prior);
                if !known {
                    assert(prior.contains(id@));
                }
            }
            assert forall|x: Seq<char>| #[trigger] names_view(stale@).contains(x) <==> (exists|j: int| 0 <= j < r + 1 && #[trigger] stamps@[j].0@ == x) && !found_id(fs, x) by {
                let e_old = exists|j: int| 0 <= j < r && #[trigger] stamps@[j].0@ == x;
                let e_new = exists|j: int| 0 <= j < r + 1 && #[trigger] stamps@[j].0@ == x;
                assert(prior.contains(x) <==> e_old && !found_id(fs, x));
                if e_old {
                    let j = choose|j: int| 0 <= j < r && #[trigger] stamps@[j].0@ == x;
                    assert(0 <= j < r + 1 && stamps@[j].0@ == x);
                }
                if x == id@ {
                    assert(stamps@[r as int].0@ == x);
                    assert(e_new);
                    assert(known <==> found_id(fs, x));
                    assert(listed <==> prior.contains(x));
                } else {
                    if e_new {
                        let j = choose|j: int| 0 <= j < r + 1 && #[trigger] stamps@[j].0@ == x;
                        assert(j != r);
                        assert(e_old);
                    }
                }
            }
        }
        r = r + 1;
    }
    proof {
        assert forall|x: Seq<char>| #[trigger] names_view(stale@).contains(x) <==> (stamp_map(stamps@).contains_key(x) && !found_id(fs, x)) by {
            stamp_map_keys(stamps@, x);
        }
    }
    ScanPlan { to_read, unchanged, stale }
}

proof fn stamp_map_keys(stamps: Seq<(String, Stamp)>, x: Seq<char>)
    ensures
        stamp_map(stamps).contains_key(x) <==> exists|j: int| 0 <= j < stamps.len() && #[trigger] stamps[j].0@ == x,
    decreases stamps.len(),
{
    if stamps.len() > 0 {
        let pre = stamps.drop_last();
        stamp_map_keys(pre, x);
        if exists|j: int| 0 <= j < pre.len() && #[trigger] pre[j].0@ == x {
            let j = choose|j: int| 0 <= j < pre.len() && #[trigger] pre[j].0@ == x;
            assert(stamps[j] == pre[j]);
        }
        if exists|j: int| 0 <= j < stamps.len() && #[trigger] stamps[j].0@ == x {
            let j = choose|j: int| 0 <= j < stamps.len() && #[trigger] stamps[j].0@ == x;
            if j < pre.len() {
                assert(pre[j] == stamps[j]);
            }
        }
    }
}
} // verus!
