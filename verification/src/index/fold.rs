//! Folding Idea Inbox's decisions into the state the index keeps.
//!
//! Nothing about an idea's state is written down: which captures a thread
//! holds, which candidates were turned down, whether it is retired, which page
//! it became, whether a capture is archived, which pairs were turned down. Each
//! is the kind of the latest decision bearing on the question, where latest
//! means the greatest id, because an id is the instant the decision was taken.
//! A question nobody decided has its default: a seed is connected, a capture is
//! in the inbox, an idea is live.
use vstd::prelude::*;

use crate::ideas::records::{event_kind_name, EventKind};
use crate::sorted::{add_name, add_pair, locate_name, names_sorted, names_view, pairs_sorted, pairs_view, Name, Pair};
use crate::text::{less_than, same_text, seq_lt, seq_lt_irreflexive, seq_lt_total, seq_lt_transitive};

verus! {

/// One row of the index's event table, as the fold reads it.
#[derive(Debug, Clone)]
pub struct FoldEvent {
    pub id: String,
    /// Spelled as the file spells it.
    pub kind: String,
    pub idea: Option<String>,
    pub capture: Option<String>,
    pub other: Option<String>,
    pub page: Option<String>,
    /// Nanoseconds since the epoch.
    pub created: i64,
}

/// A capture the index holds, and when it was made.
#[derive(Debug, Clone)]
pub struct KnownCapture {
    pub id: String,
    /// Nanoseconds since the epoch.
    pub created: i64,
}

pub open spec fn text_of(o: Option<String>) -> Option<Seq<char>> {
    match o {
        Some(s) => Some(s@),
        None => None,
    }
}

pub open spec fn kind_is(e: FoldEvent, kind: EventKind) -> bool {
    e.kind@ == event_kind_name(kind)@
}

/// Which of `events` is the latest to bear on a question: the one with the
/// greatest id, and of equal ids the one listed last.
pub open spec fn latest(events: Seq<FoldEvent>, bears: spec_fn(FoldEvent) -> bool) -> Option<int>
    decreases events.len(),
{
    if events.len() == 0 {
        None
    } else {
        let before = latest(events.drop_last(), bears);
        let last = events.len() - 1;
        if bears(events[last]) && match before {
            None => true,
            Some(b) => !seq_lt(events[last].id@, events[b].id@),
        } {
            Some(last)
        } else {
            before
        }
    }
}

/// The latest event bearing on a question bears on it and no event bearing on
/// it has a greater id; there is none exactly when no event bears on it.
pub proof fn latest_is_greatest(events: Seq<FoldEvent>, bears: spec_fn(FoldEvent) -> bool)
    ensures
        latest(events, bears) is None <==> forall|j: int|
            0 <= j < events.len() ==> !bears(#[trigger] events[j]),
        latest(events, bears) matches Some(i) ==> {
            &&& 0 <= i < events.len()
            &&& bears(events[i])
            &&& forall|j: int|
                0 <= j < events.len() && bears(#[trigger] events[j]) ==> !seq_lt(
                    events[i].id@,
                    events[j].id@,
                )
        },
    decreases events.len(),
{
    if events.len() > 0 {
        let prefix = events.drop_last();
        let last = events.len() - 1;
        latest_is_greatest(prefix, bears);
        assert(forall|j: int| 0 <= j < prefix.len() ==> prefix[j] == events[j]);
        seq_lt_irreflexive(events[last].id@);
        match latest(prefix, bears) {
            None => {},
            Some(b) => {
                let lid = events[last].id@;
                let bid = events[b].id@;
                seq_lt_total(lid, bid);
                if latest(events, bears) == Some(last) {
                    assert forall|j: int|
                        0 <= j < events.len() && bears(#[trigger] events[j]) implies !seq_lt(
                            lid,
                            events[j].id@,
                        ) by {
                        if j < last {
                            let jid = events[j].id@;
                            assert(prefix[j] == events[j]);
                            seq_lt_total(bid, jid);
                            if seq_lt(lid, jid) && jid != bid {
                                seq_lt_transitive(lid, jid, bid);
                            }
                        }
                    }
                } else {
                    assert forall|j: int|
                        0 <= j < events.len() && bears(#[trigger] events[j]) implies !seq_lt(
                            bid,
                            events[j].id@,
                        ) by {
                        if j < last {
                            assert(prefix[j] == events[j]);
                        }
                    }
                }
            },
        }
    }
}

/// A connect or disconnect between this idea and this capture.
pub open spec fn settles_membership(idea: Seq<char>, capture: Seq<char>) -> spec_fn(FoldEvent) -> bool {
    |e: FoldEvent|
        text_of(e.idea) == Some(idea) && text_of(e.capture) == Some(capture) && (kind_is(
            e,
            EventKind::CaptureConnected,
        ) || kind_is(e, EventKind::CaptureDisconnected))
}

/// A rejection or reconsideration of this capture as a candidate for this idea.
pub open spec fn settles_candidacy(idea: Seq<char>, capture: Seq<char>) -> spec_fn(FoldEvent) -> bool {
    |e: FoldEvent|
        text_of(e.idea) == Some(idea) && text_of(e.capture) == Some(capture) && e.other is None && (
        kind_is(e, EventKind::CandidateRejected) || kind_is(e, EventKind::CandidateReconsidered))
}

/// A retirement or reopening of this idea.
pub open spec fn settles_retirement(idea: Seq<char>) -> spec_fn(FoldEvent) -> bool {
    |e: FoldEvent|
        text_of(e.idea) == Some(idea) && (kind_is(e, EventKind::IdeaRetired) || kind_is(
            e,
            EventKind::IdeaReopened,
        ))
}

/// A promotion of this idea to a page.
pub open spec fn records_promotion(idea: Seq<char>) -> spec_fn(FoldEvent) -> bool {
    |e: FoldEvent| text_of(e.idea) == Some(idea) && kind_is(e, EventKind::IdeaPromoted)
}

/// An archiving or restoring of this capture.
pub open spec fn settles_archive(capture: Seq<char>) -> spec_fn(FoldEvent) -> bool {
    |e: FoldEvent|
        text_of(e.capture) == Some(capture) && (kind_is(e, EventKind::CaptureArchived) || kind_is(
            e,
            EventKind::CaptureRestored,
        ))
}

/// Any decision naming exactly this pair of captures, in this order.
pub open spec fn settles_pair(capture: Seq<char>, other: Seq<char>) -> spec_fn(FoldEvent) -> bool {
    |e: FoldEvent| text_of(e.capture) == Some(capture) && text_of(e.other) == Some(other)
}

/// One question the fold asks of the events.
enum Question<'a> {
    Membership(&'a str, &'a str),
    Candidacy(&'a str, &'a str),
    Retirement(&'a str),
    Promotion(&'a str),
    Archive(&'a str),
    Pair(&'a str, &'a str),
}

spec fn bears_on(q: Question) -> spec_fn(FoldEvent) -> bool {
    match q {
        Question::Membership(idea, capture) => settles_membership(idea@, capture@),
        Question::Candidacy(idea, capture) => settles_candidacy(idea@, capture@),
        Question::Retirement(idea) => settles_retirement(idea@),
        Question::Promotion(idea) => records_promotion(idea@),
        Question::Archive(capture) => settles_archive(capture@),
        Question::Pair(capture, other) => settles_pair(capture@, other@),
    }
}

fn names(field: &Option<String>, x: &str) -> (r: bool)
    ensures
        r == (text_of(*field) == Some(x@)),
{
    match field {
        Some(s) => same_text(s.as_str(), x),
        None => false,
    }
}

fn is_kind(e: &FoldEvent, kind: EventKind) -> (r: bool)
    ensures
        r == kind_is(*e, kind),
{
    same_text(e.kind.as_str(), kind.as_str())
}

fn answers(q: &Question, e: &FoldEvent) -> (r: bool)
    ensures
        r == bears_on(*q)(*e),
{
    match q {
        Question::Membership(idea, capture) => names(&e.idea, idea) && names(&e.capture, capture)
            && (is_kind(e, EventKind::CaptureConnected) || is_kind(e, EventKind::CaptureDisconnected)),
        Question::Candidacy(idea, capture) => names(&e.idea, idea) && names(&e.capture, capture)
            && e.other.is_none() && (is_kind(e, EventKind::CandidateRejected) || is_kind(
            e,
            EventKind::CandidateReconsidered,
        )),
        Question::Retirement(idea) => names(&e.idea, idea) && (is_kind(e, EventKind::IdeaRetired)
            || is_kind(e, EventKind::IdeaReopened)),
        Question::Promotion(idea) => names(&e.idea, idea) && is_kind(e, EventKind::IdeaPromoted),
        Question::Archive(capture) => names(&e.capture, capture) && (is_kind(
            e,
            EventKind::CaptureArchived,
        ) || is_kind(e, EventKind::CaptureRestored)),
        Question::Pair(capture, other) => names(&e.capture, capture) && names(&e.other, other),
    }
}

/// The position of the latest event bearing on `q`.
fn latest_on(events: &Vec<FoldEvent>, q: &Question) -> (r: Option<usize>)
    ensures
        match r {
            None => latest(events@, bears_on(*q)) is None,
            Some(i) => i < events@.len() && latest(events@, bears_on(*q)) == Some(i as int),
        },
{
    let mut best: Option<usize> = None;
    let mut i: usize = 0;
    while i < events.len()
        invariant
            i <= events@.len(),
            match best {
                None => latest(events@.take(i as int), bears_on(*q)) is None,
                Some(b) => b < i && latest(events@.take(i as int), bears_on(*q)) == Some(b as int),
            },
        decreases events@.len() - i,
    {
        let ghost prefix = events@.take(i + 1);
        proof {
            assert(prefix.drop_last() =~= events@.take(i as int));
            assert(prefix[i as int] == events@[i as int]);
        }
        if answers(q, &events[i]) {
            let newer = match best {
                None => true,
                Some(b) => {
                    proof {
                        assert(prefix[b as int] == events@[b as int]);
                    }
                    !less_than(events[i].id.as_str(), events[b].id.as_str())
                },
            };
            if newer {
                best = Some(i);
            }
        }
        i = i + 1;
    }
    proof {
        assert(events@.take(i as int) =~= events@);
    }
    best
}

/// Whether an idea holds `capture`: it is a seed or a connect or disconnect
/// names it, and the latest such decision, if there is one, connected it.
pub open spec fn holds(seeds: Seq<Name>, events: Seq<FoldEvent>, idea: Name, capture: Name) -> bool {
    &&& (seeds.contains(capture) || exists|i: int|
        0 <= i < events.len() && settles_membership(idea, capture)(#[trigger] events[i]))
    &&& match latest(events, settles_membership(idea, capture)) {
        None => true,
        Some(i) => kind_is(events[i], EventKind::CaptureConnected),
    }
}

/// Whether the index holds a capture with this id.
pub open spec fn known(captures: Seq<KnownCapture>, id: Name) -> bool {
    exists|k: int| 0 <= k < captures.len() && (#[trigger] captures[k]).id@ == id
}

/// Whether `capture` stands turned down as a candidate for the idea: the
/// latest rejection-or-reconsideration rejected it, and it still exists.
pub open spec fn turned_down(
    events: Seq<FoldEvent>,
    captures: Seq<KnownCapture>,
    idea: Name,
    capture: Name,
) -> bool {
    &&& latest(events, settles_candidacy(idea, capture)) matches Some(i) && kind_is(
        events[i],
        EventKind::CandidateRejected,
    )
    &&& known(captures, capture)
}

/// Whether the latest retirement-or-reopening retired the idea.
pub open spec fn retired_by(events: Seq<FoldEvent>, idea: Name) -> bool {
    latest(events, settles_retirement(idea)) matches Some(i) && kind_is(
        events[i],
        EventKind::IdeaRetired,
    )
}

/// The page the latest promotion names.
pub open spec fn promoted_by(events: Seq<FoldEvent>, idea: Name) -> Option<Name> {
    match latest(events, records_promotion(idea)) {
        Some(i) => text_of(events[i].page),
        None => None,
    }
}

/// An event that says the idea is alive: an affirmation, a connection, a
/// reopening or a promotion.
pub open spec fn signals(idea: Name) -> spec_fn(FoldEvent) -> bool {
    |e: FoldEvent|
        text_of(e.idea) == Some(idea) && (kind_is(e, EventKind::InterestAffirmed) || kind_is(
            e,
            EventKind::CaptureConnected,
        ) || kind_is(e, EventKind::IdeaReopened) || kind_is(e, EventKind::IdeaPromoted))
}

/// Whether `t` is when something happened to the idea: a capture it holds
/// was made, or a signalling event was recorded.
pub open spec fn signal_at(
    seeds: Seq<Name>,
    events: Seq<FoldEvent>,
    captures: Seq<KnownCapture>,
    idea: Name,
    t: i64,
) -> bool {
    ||| exists|k: int|
        0 <= k < captures.len() && holds(seeds, events, idea, (#[trigger] captures[k]).id@)
            && captures[k].created == t
    ||| exists|i: int| 0 <= i < events.len() && signals(idea)(#[trigger] events[i]) && events[i].created == t
}

/// Whether `last` is the latest signal there is, or none when there is none.
pub open spec fn is_last_signal(
    seeds: Seq<Name>,
    events: Seq<FoldEvent>,
    captures: Seq<KnownCapture>,
    idea: Name,
    last: Option<i64>,
) -> bool {
    match last {
        None => forall|t: i64| !#[trigger] signal_at(seeds, events, captures, idea, t),
        Some(s) => signal_at(seeds, events, captures, idea, s) && forall|t: i64|
            #[trigger] signal_at(seeds, events, captures, idea, t) ==> t <= s,
    }
}

/// Whether the latest connect-or-disconnect, if any, left `capture` connected.
fn still_held(events: &Vec<FoldEvent>, idea: &str, capture: &str) -> (r: bool)
    ensures
        r == match latest(events@, settles_membership(idea@, capture@)) {
            None => true,
            Some(i) => kind_is(events@[i], EventKind::CaptureConnected),
        },
{
    let q = Question::Membership(idea, capture);
    match latest_on(events, &q) {
        None => true,
        Some(i) => {
            proof {
                latest_is_greatest(events@, settles_membership(idea@, capture@));
            }
            is_kind(&events[i], EventKind::CaptureConnected)
        },
    }
}

/// The captures an idea holds, in order and each once.
fn members_of(idea: &str, seeds: &Vec<String>, events: &Vec<FoldEvent>) -> (m: Vec<String>)
    ensures
        names_sorted(names_view(m@)),
        forall|c: Name| #[trigger]
            names_view(m@).contains(c) <==> holds(names_view(seeds@), events@, idea@, c),
{
    let ghost sv = names_view(seeds@);
    let mut m: Vec<String> = Vec::new();
    let mut i: usize = 0;
    while i < seeds.len()
        invariant
            i <= seeds@.len(),
            sv == names_view(seeds@),
            names_sorted(names_view(m@)),
            forall|c: Name| #[trigger]
                names_view(m@).contains(c) <==> (holds(sv, events@, idea@, c) && sv.take(
                    i as int,
                ).contains(c)),
        decreases seeds@.len() - i,
    {
        let seed = &seeds[i];
        let keep = still_held(events, idea, seed.as_str());
        let ghost before = names_view(m@);
        if keep {
            add_name(&mut m, seed);
        }
        proof {
            assert(sv[i as int] == seed@);
            assert(sv.contains(seed@));
            assert forall|c: Name| #[trigger]
                names_view(m@).contains(c) <==> (holds(sv, events@, idea@, c) && sv.take(
                    i + 1,
                ).contains(c)) by {
                assert(sv.take(i + 1) =~= sv.take(i as int).push(seed@));
                if c == seed@ {
                    assert(sv.take(i + 1)[i as int] == c);
                }
            }
        }
        i = i + 1;
    }
    proof {
        assert(sv.take(i as int) =~= sv);
    }
    let mut k: usize = 0;
    while k < events.len()
        invariant
            k <= events@.len(),
            sv == names_view(seeds@),
            names_sorted(names_view(m@)),
            forall|c: Name| #[trigger]
                names_view(m@).contains(c) <==> (holds(sv, events@, idea@, c) && (sv.contains(c)
                    || exists|j: int| 0 <= j < k && settles_membership(idea@, c)(#[trigger] events@[j]))),
        decreases events@.len() - k,
    {
        let e = &events[k];
        if names(&e.idea, idea) && (is_kind(e, EventKind::CaptureConnected) || is_kind(
            e,
            EventKind::CaptureDisconnected,
        )) {
            match &e.capture {
                Some(c0) => {
                    let keep = still_held(events, idea, c0.as_str());
                    if keep {
                        add_name(&mut m, c0);
                    }
                    proof {
                        assert(settles_membership(idea@, c0@)(events@[k as int]));
                    }
                },
                None => {},
            }
        }
        proof {
            assert forall|c: Name| #[trigger]
                names_view(m@).contains(c) <==> (holds(sv, events@, idea@, c) && (sv.contains(c)
                    || exists|j: int| 0 <= j < k + 1 && settles_membership(idea@, c)(#[trigger] events@[j]))) by {
                if settles_membership(idea@, c)(events@[k as int]) {
                    assert(text_of(events@[k as int].capture) == Some(c));
                }
            }
        }
        k = k + 1;
    }
    m
}

fn is_known(captures: &Vec<KnownCapture>, id: &str) -> (r: bool)
    ensures
        r == known(captures@, id@),
{
    let mut k: usize = 0;
    while k < captures.len()
        invariant
            k <= captures@.len(),
            forall|j: int| 0 <= j < k ==> (#[trigger] captures@[j]).id@ != id@,
        decreases captures@.len() - k,
    {
        if same_text(captures[k].id.as_str(), id) {
            return true;
        }
        k = k + 1;
    }
    false
}

/// The captures turned down as candidates for an idea, in order and each once.
fn turned_down_for(idea: &str, events: &Vec<FoldEvent>, captures: &Vec<KnownCapture>) -> (t: Vec<String>)
    ensures
        names_sorted(names_view(t@)),
        forall|c: Name| #[trigger]
            names_view(t@).contains(c) <==> turned_down(events@, captures@, idea@, c),
{
    let mut t: Vec<String> = Vec::new();
    let mut k: usize = 0;
    while k < events.len()
        invariant
            k <= events@.len(),
            names_sorted(names_view(t@)),
            forall|c: Name| #[trigger]
                names_view(t@).contains(c) <==> (turned_down(events@, captures@, idea@, c) && exists|j: int|
                    0 <= j < k && settles_candidacy(idea@, c)(#[trigger] events@[j])),
        decreases events@.len() - k,
    {
        let e = &events[k];
        if names(&e.idea, idea) && e.other.is_none() && (is_kind(e, EventKind::CandidateRejected)
            || is_kind(e, EventKind::CandidateReconsidered)) {
            match &e.capture {
                Some(c0) => {
                    let q = Question::Candidacy(idea, c0.as_str());
                    let rejected = match latest_on(events, &q) {
                        None => false,
                        Some(i) => is_kind(&events[i], EventKind::CandidateRejected),
                    };
                    if rejected && is_known(captures, c0.as_str()) {
                        add_name(&mut t, c0);
                    }
                    proof {
                        assert(settles_candidacy(idea@, c0@)(events@[k as int]));
                    }
                },
                None => {},
            }
        }
        proof {
            assert forall|c: Name| #[trigger]
                names_view(t@).contains(c) <==> (turned_down(events@, captures@, idea@, c) && exists|j: int|
                    0 <= j < k + 1 && settles_candidacy(idea@, c)(#[trigger] events@[j])) by {
                if settles_candidacy(idea@, c)(events@[k as int]) {
                    assert(text_of(events@[k as int].capture) == Some(c));
                }
            }
        }
        k = k + 1;
    }
    proof {
        assert forall|c: Name| #[trigger]
            names_view(t@).contains(c) <==> turned_down(events@, captures@, idea@, c) by {
            latest_is_greatest(events@, settles_candidacy(idea@, c));
        }
    }
    t
}

/// The latest signal among the captures an idea holds and the events that
/// say it is alive.
fn last_signal_for(
    idea: &str,
    seeds: &Vec<String>,
    members: &Vec<String>,
    events: &Vec<FoldEvent>,
    captures: &Vec<KnownCapture>,
) -> (last: Option<i64>)
    requires
        names_sorted(names_view(members@)),
        forall|c: Name| #[trigger]
            names_view(members@).contains(c) <==> holds(names_view(seeds@), events@, idea@, c),
    ensures
        is_last_signal(names_view(seeds@), events@, captures@, idea@, last),
{
    let ghost sv = names_view(seeds@);
    let mut best: Option<i64> = None;
    let mut k: usize = 0;
    while k < captures.len()
        invariant
            k <= captures@.len(),
            sv == names_view(seeds@),
            names_sorted(names_view(members@)),
            forall|c: Name| #[trigger] names_view(members@).contains(c) <==> holds(sv, events@, idea@, c),
            match best {
                None => forall|j: int| 0 <= j < k ==> !holds(sv, events@, idea@, (#[trigger] captures@[j]).id@),
                Some(s) => (exists|j: int|
                    0 <= j < k && holds(sv, events@, idea@, (#[trigger] captures@[j]).id@)
                        && captures@[j].created == s) && forall|j: int|
                    0 <= j < k && holds(sv, events@, idea@, (#[trigger] captures@[j]).id@)
                        ==> captures@[j].created <= s,
            },
        decreases captures@.len() - k,
    {
        let c = &captures[k];
        let (at, found) = locate_name(members, c.id.as_str());
        proof {
            if !found {
                assert forall|j: int| 0 <= j < members@.len() implies names_view(members@)[j] != c.id@ by {
                    seq_lt_irreflexive(c.id@);
                }
                assert(!names_view(members@).contains(c.id@));
                assert(!holds(sv, events@, idea@, captures@[k as int].id@));
            } else {
                assert(names_view(members@)[at as int] == c.id@);
                assert(names_view(members@).contains(c.id@));
                assert(holds(sv, events@, idea@, captures@[k as int].id@));
            }
        }
        if found {
            best = match best {
                None => Some(c.created),
                Some(s) => if c.created > s {
                    Some(c.created)
                } else {
                    Some(s)
                },
            };
        }
        k = k + 1;
    }
    let mut i: usize = 0;
    while i < events.len()
        invariant
            i <= events@.len(),
            sv == names_view(seeds@),
            match best {
                None => (forall|j: int| 0 <= j < captures@.len() ==> !holds(sv, events@, idea@, (#[trigger] captures@[j]).id@))
                    && forall|j: int| 0 <= j < i ==> !signals(idea@)(#[trigger] events@[j]),
                Some(s) => ((exists|j: int|
                    0 <= j < captures@.len() && holds(sv, events@, idea@, (#[trigger] captures@[j]).id@)
                        && captures@[j].created == s) || (exists|j: int|
                    0 <= j < i && signals(idea@)(#[trigger] events@[j]) && events@[j].created == s))
                    && (forall|j: int|
                    0 <= j < captures@.len() && holds(sv, events@, idea@, (#[trigger] captures@[j]).id@)
                        ==> captures@[j].created <= s) && (forall|j: int|
                    0 <= j < i && signals(idea@)(#[trigger] events@[j]) ==> events@[j].created <= s),
            },
        decreases events@.len() - i,
    {
        let e = &events[i];
        let signalling = names(&e.idea, idea) && (is_kind(e, EventKind::InterestAffirmed) || is_kind(
            e,
            EventKind::CaptureConnected,
        ) || is_kind(e, EventKind::IdeaReopened) || is_kind(e, EventKind::IdeaPromoted));
        if signalling {
            best = match best {
                None => Some(e.created),
                Some(s) => if e.created > s {
                    Some(e.created)
                } else {
                    Some(s)
                },
            };
        }
        i = i + 1;
    }
    proof {
        match best {
            None => {
                assert forall|t: i64| !#[trigger] signal_at(sv, events@, captures@, idea@, t) by {}
            },
            Some(s) => {
                assert forall|t: i64| #[trigger] signal_at(sv, events@, captures@, idea@, t) implies t <= s by {}
            },
        }
    }
    best
}

/// What an idea's decisions fold to.
#[derive(Debug)]
pub struct IdeaFold {
    /// The captures it holds, in order and each once.
    pub members: Vec<String>,
    /// The candidates that stand turned down, in order and each once.
    pub turned_down: Vec<String>,
    pub retired: bool,
    /// The page the latest promotion named.
    pub promoted_to: Option<String>,
    /// When anything last happened to it.
    pub last_signal: Option<i64>,
}

/// Fold an idea's decisions. `seeds` are the captures its file was started
/// from, `events` the decisions recorded about it, in any order, and
/// `captures` the captures the index holds among those they name.
pub fn fold_idea(
    idea: &str,
    seeds: &Vec<String>,
    events: &Vec<FoldEvent>,
    captures: &Vec<KnownCapture>,
) -> (f: IdeaFold)
    ensures
        names_sorted(names_view(f.members@)),
        forall|c: Name| #[trigger]
            names_view(f.members@).contains(c) <==> holds(names_view(seeds@), events@, idea@, c),
        names_sorted(names_view(f.turned_down@)),
        forall|c: Name| #[trigger]
            names_view(f.turned_down@).contains(c) <==> turned_down(events@, captures@, idea@, c),
        f.retired == retired_by(events@, idea@),
        text_of(f.promoted_to) == promoted_by(events@, idea@),
        is_last_signal(names_view(seeds@), events@, captures@, idea@, f.last_signal),
{
    let members = members_of(idea, seeds, events);
    let turned = turned_down_for(idea, events, captures);
    let retired = match latest_on(events, &Question::Retirement(idea)) {
        None => false,
        Some(i) => is_kind(&events[i], EventKind::IdeaRetired),
    };
    let promoted_to = match latest_on(events, &Question::Promotion(idea)) {
        None => None,
        Some(i) => match &events[i].page {
            Some(page) => Some(page.clone()),
            None => None,
        },
    };
    proof {
        latest_is_greatest(events@, settles_retirement(idea@));
        latest_is_greatest(events@, records_promotion(idea@));
    }
    let last_signal = last_signal_for(idea, seeds, &members, events, captures);
    IdeaFold { members, turned_down: turned, retired, promoted_to, last_signal }
}

/// Whether the latest archiving-or-restoring archived the capture, or `None`
/// when nothing ever did either: the capture is in the inbox.
pub open spec fn archived_by(events: Seq<FoldEvent>, capture: Name) -> Option<bool> {
    match latest(events, settles_archive(capture)) {
        None => None,
        Some(i) => Some(kind_is(events[i], EventKind::CaptureArchived)),
    }
}

/// Whether a pair stands turned down: the latest decision naming it rejected
/// it, and both captures still exist.
pub open spec fn pair_turned_down(
    events: Seq<FoldEvent>,
    captures: Seq<KnownCapture>,
    capture: Name,
    other: Name,
) -> bool {
    &&& latest(events, settles_pair(capture, other)) matches Some(i) && kind_is(
        events[i],
        EventKind::CandidateRejected,
    )
    &&& known(captures, capture)
    &&& known(captures, other)
}

/// What a capture's decisions fold to.
#[derive(Debug)]
pub struct CaptureFold {
    /// Whether it is archived; `None` when it was never archived or restored.
    pub archived: Option<bool>,
    /// The pairs it is in that stand turned down, in order and each once.
    pub turned_down_pairs: Vec<(String, String)>,
}

/// Fold a capture's decisions. `events` are those naming it, in any order,
/// and `captures` the captures the index holds among those they name.
pub fn fold_capture(capture: &str, events: &Vec<FoldEvent>, captures: &Vec<KnownCapture>) -> (f: CaptureFold)
    ensures
        f.archived == archived_by(events@, capture@),
        pairs_sorted(pairs_view(f.turned_down_pairs@)),
        forall|p: Pair| #[trigger]
            pairs_view(f.turned_down_pairs@).contains(p) <==> ((p.0 == capture@ || p.1 == capture@)
                && pair_turned_down(events@, captures@, p.0, p.1)),
{
    let archived = match latest_on(events, &Question::Archive(capture)) {
        None => None,
        Some(i) => Some(is_kind(&events[i], EventKind::CaptureArchived)),
    };
    let mut pairs: Vec<(String, String)> = Vec::new();
    let mut k: usize = 0;
    while k < events.len()
        invariant
            k <= events@.len(),
            pairs_sorted(pairs_view(pairs@)),
            forall|p: Pair| #[trigger]
                pairs_view(pairs@).contains(p) <==> ((p.0 == capture@ || p.1 == capture@)
                    && pair_turned_down(events@, captures@, p.0, p.1) && exists|j: int|
                    0 <= j < k && settles_pair(p.0, p.1)(#[trigger] events@[j])),
        decreases events@.len() - k,
    {
        let e = &events[k];
        match (&e.capture, &e.other) {
            (Some(a), Some(b)) => {
                if same_text(a.as_str(), capture) || same_text(b.as_str(), capture) {
                    let q = Question::Pair(a.as_str(), b.as_str());
                    let rejected = match latest_on(events, &q) {
                        None => false,
                        Some(i) => is_kind(&events[i], EventKind::CandidateRejected),
                    };
                    if rejected && is_known(captures, a.as_str()) && is_known(captures, b.as_str()) {
                        let pair = (a.clone(), b.clone());
                        add_pair(&mut pairs, &pair);
                    }
                }
                proof {
                    assert(settles_pair(a@, b@)(events@[k as int]));
                }
            },
            _ => {},
        }
        proof {
            assert forall|p: Pair| #[trigger]
                pairs_view(pairs@).contains(p) <==> ((p.0 == capture@ || p.1 == capture@)
                    && pair_turned_down(events@, captures@, p.0, p.1) && exists|j: int|
                    0 <= j < k + 1 && settles_pair(p.0, p.1)(#[trigger] events@[j])) by {
                if settles_pair(p.0, p.1)(events@[k as int]) {
                    assert(text_of(events@[k as int].capture) == Some(p.0));
                    assert(text_of(events@[k as int].other) == Some(p.1));
                }
            }
        }
        k = k + 1;
    }
    proof {
        latest_is_greatest(events@, settles_archive(capture@));
        assert forall|p: Pair| #[trigger]
            pairs_view(pairs@).contains(p) <==> ((p.0 == capture@ || p.1 == capture@)
                && pair_turned_down(events@, captures@, p.0, p.1)) by {
            latest_is_greatest(events@, settles_pair(p.0, p.1));
        }
    }
    CaptureFold { archived, turned_down_pairs: pairs }
}

/// A decision newer than every one recorded is the latest on any question it
/// bears on.
proof fn newest_is_latest(events: Seq<FoldEvent>, e: FoldEvent, bears: spec_fn(FoldEvent) -> bool)
    requires
        forall|j: int| 0 <= j < events.len() ==> seq_lt((#[trigger] events[j]).id@, e.id@),
        bears(e),
    ensures
        latest(events.push(e), bears) == Some(events.len() as int),
{
    let all = events.push(e);
    assert(all.drop_last() =~= events);
    latest_is_greatest(events, bears);
    if let Some(b) = latest(events, bears) {
        seq_lt_total(events[b].id@, e.id@);
    }
}

/// The latest decision is the one that counts: a decision newer than every
/// one already recorded settles whatever question it bears on, whatever was
/// decided before.
pub proof fn the_newest_decision_counts(
    seeds: Seq<Name>,
    events: Seq<FoldEvent>,
    captures: Seq<KnownCapture>,
    e: FoldEvent,
    idea: Name,
    capture: Name,
    other: Name,
)
    requires
        forall|j: int| 0 <= j < events.len() ==> seq_lt((#[trigger] events[j]).id@, e.id@),
    ensures
        settles_membership(idea, capture)(e) ==> holds(seeds, events.push(e), idea, capture)
            == kind_is(e, EventKind::CaptureConnected),
        settles_candidacy(idea, capture)(e) ==> turned_down(events.push(e), captures, idea, capture)
            == (kind_is(e, EventKind::CandidateRejected) && known(captures, capture)),
        settles_retirement(idea)(e) ==> retired_by(events.push(e), idea) == kind_is(
            e,
            EventKind::IdeaRetired,
        ),
        records_promotion(idea)(e) ==> promoted_by(events.push(e), idea) == text_of(e.page),
        settles_archive(capture)(e) ==> archived_by(events.push(e), capture) == Some(
            kind_is(e, EventKind::CaptureArchived),
        ),
        settles_pair(capture, other)(e) ==> pair_turned_down(events.push(e), captures, capture, other)
            == (kind_is(e, EventKind::CandidateRejected) && known(captures, capture) && known(
            captures,
            other,
        )),
{
    let all = events.push(e);
    assert(all[events.len() as int] == e);
    if settles_membership(idea, capture)(e) {
        newest_is_latest(events, e, settles_membership(idea, capture));
    }
    if settles_candidacy(idea, capture)(e) {
        newest_is_latest(events, e, settles_candidacy(idea, capture));
    }
    if settles_retirement(idea)(e) {
        newest_is_latest(events, e, settles_retirement(idea));
    }
    if records_promotion(idea)(e) {
        newest_is_latest(events, e, records_promotion(idea));
    }
    if settles_archive(capture)(e) {
        newest_is_latest(events, e, settles_archive(capture));
    }
    if settles_pair(capture, other)(e) {
        newest_is_latest(events, e, settles_pair(capture, other));
    }
}

/// Whether `a` and `b` list the same events, each id once.
pub open spec fn same_events(a: Seq<FoldEvent>, b: Seq<FoldEvent>) -> bool {
    &&& forall|i: int, j: int| 0 <= i < a.len() && 0 <= j < a.len() && i != j ==> (#[trigger] a[i]).id@ != (#[trigger] a[j]).id@
    &&& forall|e: FoldEvent| #[trigger] a.contains(e) <==> b.contains(e)
}

/// Two listings of the same events agree on the latest decision on any
/// question.
proof fn latest_ignores_order(a: Seq<FoldEvent>, b: Seq<FoldEvent>, bears: spec_fn(FoldEvent) -> bool)
    requires
        same_events(a, b),
    ensures
        latest(a, bears) is None <==> latest(b, bears) is None,
        latest(a, bears) matches Some(i) ==> (latest(b, bears) matches Some(j) && b[j] == a[i]),
{
    latest_is_greatest(a, bears);
    latest_is_greatest(b, bears);
    if latest(b, bears) is Some {
        let j = latest(b, bears)->0;
        assert(b.contains(b[j]));
        assert(a.contains(b[j]));
        let m = choose|m: int| 0 <= m < a.len() && a[m] == b[j];
        assert(bears(a[m]));
    }
    if latest(a, bears) is Some {
        let i = latest(a, bears)->0;
        assert(a.contains(a[i]));
        assert(b.contains(a[i]));
        let k = choose|k: int| 0 <= k < b.len() && b[k] == a[i];
        assert(bears(b[k]));
    }
    if let (Some(i), Some(j)) = (latest(a, bears), latest(b, bears)) {
        assert(a.contains(a[i]));
        assert(b.contains(a[i]));
        assert(b.contains(b[j]));
        assert(a.contains(b[j]));
        let k = choose|k: int| 0 <= k < b.len() && b[k] == a[i];
        let m = choose|m: int| 0 <= m < a.len() && a[m] == b[j];
        assert(bears(b[k]));
        assert(bears(a[m]));
        assert(!seq_lt(b[j].id@, b[k].id@));
        assert(!seq_lt(a[i].id@, a[m].id@));
        seq_lt_total(a[i].id@, b[j].id@);
        assert(a[m].id@ == a[i].id@);
        assert(m == i);
    }
}

/// The fold does not depend on the order rows come in: two listings of the
/// same events, each id once, fold to the same state.
pub proof fn the_fold_ignores_row_order(
    seeds: Seq<Name>,
    a: Seq<FoldEvent>,
    b: Seq<FoldEvent>,
    captures: Seq<KnownCapture>,
    idea: Name,
    capture: Name,
    other: Name,
)
    requires
        same_events(a, b),
    ensures
        holds(seeds, a, idea, capture) == holds(seeds, b, idea, capture),
        turned_down(a, captures, idea, capture) == turned_down(b, captures, idea, capture),
        retired_by(a, idea) == retired_by(b, idea),
        promoted_by(a, idea) == promoted_by(b, idea),
        archived_by(a, capture) == archived_by(b, capture),
        pair_turned_down(a, captures, capture, other) == pair_turned_down(b, captures, capture, other),
{
    latest_ignores_order(a, b, settles_membership(idea, capture));
    latest_ignores_order(a, b, settles_candidacy(idea, capture));
    latest_ignores_order(a, b, settles_retirement(idea));
    latest_ignores_order(a, b, records_promotion(idea));
    latest_ignores_order(a, b, settles_archive(capture));
    latest_ignores_order(a, b, settles_pair(capture, other));
    latest_is_greatest(a, settles_membership(idea, capture));
    latest_is_greatest(b, settles_membership(idea, capture));
}

} // verus!
