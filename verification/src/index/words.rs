//! What a write to a page is worth recording in the word log.
use vstd::prelude::*;

use crate::words::{churn, churn_spec, net, net_spec, Churn, Kind};

verus! {

/// What indexing a page turned out to be worth recording about it.
#[derive(Debug, Clone, Copy, PartialEq, Eq, Structural)]
pub struct WordChange {
    pub kind: Kind,
    pub added: u64,
    pub removed: u64,
    /// The page's count after the write.
    pub total: u64,
}

pub open spec fn recordable(change: WordChange) -> bool {
    change.kind == Kind::Baseline || change.added > 0 || change.removed > 0
}

pub open spec fn written_spec(change: WordChange) -> WordChange {
    if change.kind != Kind::Baseline {
        change
    } else {
        WordChange { kind: Kind::Observed, added: change.total, removed: 0, total: change.total }
    }
}

impl WordChange {
    /// Whether this is worth a line in the log: a baseline always is, and an
    /// observation only when it found writing.
    pub fn is_recordable(&self) -> (r: bool)
        ensures
            r == recordable(*self),
    {
        self.kind == Kind::Baseline || self.added > 0 || self.removed > 0
    }

    pub fn churn(&self) -> (c: Churn)
        ensures
            c == (Churn { added: self.added, removed: self.removed }),
    {
        Churn { added: self.added, removed: self.removed }
    }

    /// Read a first sighting as words just written, rather than as a wiki that
    /// was already there. Anything else is left as it is.
    pub fn as_written(self) -> (w: Self)
        ensures
            w == written_spec(self),
    {
        if self.kind != Kind::Baseline {
            return self;
        }
        WordChange { kind: Kind::Observed, added: self.total, removed: 0, total: self.total }
    }
}

/// The count a previous body had, recovered from a churn and the count after
/// it: `total + removed - added`, when that is a count at all.
pub open spec fn counted_before_spec(c: Churn, total: u64) -> Option<u64> {
    if total + c.removed > u64::MAX || total + c.removed < c.added {
        None
    } else {
        Some((total + c.removed - c.added) as u64)
    }
}

pub fn counted_before(c: Churn, total: u64) -> (n: Option<u64>)
    ensures
        n == counted_before_spec(c, total),
{
    match total.checked_add(c.removed) {
        Some(sum) => sum.checked_sub(c.added),
        None => None,
    }
}

/// What a write is worth, from the last total recorded at the slug, the body
/// the index held before, the body after, and the count after.
pub open spec fn weigh_spec(
    last: Option<u64>,
    before: Option<Seq<char>>,
    after: Seq<char>,
    total: u64,
) -> WordChange {
    match last {
        None => WordChange { kind: Kind::Baseline, added: 0, removed: 0, total },
        Some(l) => {
            let c = match before {
                Some(b) => {
                    let diff = churn_spec(b, after);
                    if counted_before_spec(diff, total) == Some(l) {
                        diff
                    } else {
                        net_spec(l, total)
                    }
                },
                None => net_spec(l, total),
            };
            let kind = match before {
                Some(b) => if counted_before_spec(churn_spec(b, after), total) == Some(l) {
                    Kind::Observed
                } else {
                    Kind::Net
                },
                None => Kind::Net,
            };
            WordChange { kind, added: c.added, removed: c.removed, total }
        },
    }
}

pub open spec fn body_of(before: Option<&str>) -> Option<Seq<char>> {
    match before {
        Some(b) => Some(b@),
        None => None,
    }
}

/// Decide what a write was worth.
///
/// Nothing recorded at the slug is a baseline. A previous body whose count is
/// the log's last total is an observed churn. Anything else (no previous body,
/// or one the log never saw) is the net change between the two totals.
pub fn weigh(last: Option<u64>, before: Option<&str>, after: &str, total: u64) -> (w: WordChange)
    ensures
        w == weigh_spec(last, body_of(before), after@, total),
        last is None <==> w.kind == Kind::Baseline,
        last matches Some(l) ==> w.added - w.removed == total - l,
{
    match last {
        None => WordChange { kind: Kind::Baseline, added: 0, removed: 0, total },
        Some(l) => match before {
            Some(b) => {
                let diff = churn(b, after);
                let counted = counted_before(diff, total);
                if counted == Some(l) {
                    WordChange { kind: Kind::Observed, added: diff.added, removed: diff.removed, total }
                } else {
                    let c = net(l, total);
                    WordChange { kind: Kind::Net, added: c.added, removed: c.removed, total }
                }
            },
            None => {
                let c = net(l, total);
                WordChange { kind: Kind::Net, added: c.added, removed: c.removed, total }
            },
        },
    }
}

/// Rebuilding over a page nobody touched records nothing: with no body to
/// compare and the same total as the log's last, the change is not recordable.
pub proof fn an_untouched_page_records_nothing(total: u64, after: Seq<char>)
    ensures
        !recordable(weigh_spec(Some(total), None, after, total)),
{
}

/// Reading a change as written touches only a baseline, and reading it twice
/// is reading it once.
pub proof fn as_written_only_touches_baselines(change: WordChange)
    ensures
        change.kind != Kind::Baseline ==> written_spec(change) == change,
        written_spec(written_spec(change)) == written_spec(change),
        written_spec(change).kind != Kind::Baseline,
{
}

} // verus!
