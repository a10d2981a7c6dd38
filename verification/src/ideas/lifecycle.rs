//! What state an idea is in, and how much momentum it has: `idea-momentum/v1`.
//!
//! A pure function of the folded evidence and an explicit instant. Neither the
//! label nor the score is stored anywhere: an idea becomes dormant because time
//! passes and nothing happens, so it is computed when it is asked about.
//!
//! An idea whose captures have all been deleted has no authored evidence left.
//! It gets [`Integrity::EvidenceMissing`] and no state and no momentum at all; a
//! retired idea is exempt, because retiring is itself a decision.
use vstd::prelude::*;

use crate::calendar::{days_before, days_before_spec, min_instant, MAX_SECONDS, NANOS_PER_DAY};
use crate::ideas::ids::{CaptureId, EventId};
use crate::ideas::records::EventKind;
use crate::text::{decimal, push_decimal, same_text};

verus! {

/// The name this ruleset answers to, returned with every receipt.
pub const RULESET: &'static str = "idea-momentum/v1";

/// The short window. Three captures inside it is a burst.
pub const RECENT_DAYS: i64 = 14;

/// The long window: one capture inside it is a sign of life, and it is how far
/// back an affirmation counts.
pub const WINDOW_DAYS: i64 = 30;

/// How long nothing has to happen before an idea is dormant.
pub const DORMANT_DAYS: i64 = 60;

/// How many captures inside [`RECENT_DAYS`] make a burst.
pub const BURST: usize = 3;

/// The most `base` can be worth, however many captures an idea holds.
pub const MAX_BASE: usize = 4;

/// The momentum an idea needs to count as active.
pub const ACTIVE_MOMENTUM: u32 = 4;

/// The ceiling on momentum. Version 1 cannot reach it.
pub const MAX_MOMENTUM: u32 = 10;

/// Where an idea is in its life.
#[derive(Debug, Clone, Copy, PartialEq, Eq, Hash)]
pub enum Lifecycle {
    /// Set aside by an explicit decision. Nothing else is consulted.
    Retired,
    /// Nothing has happened for sixty days.
    Dormant,
    /// Exactly one capture connected.
    New,
    /// Momentum of four or more.
    Active,
    /// Coming back, but not right now.
    Recurring,
}

pub open spec fn lifecycle_name(state: Lifecycle) -> &'static str {
    match state {
        Lifecycle::Retired => "retired",
        Lifecycle::Dormant => "dormant",
        Lifecycle::New => "new",
        Lifecycle::Active => "active",
        Lifecycle::Recurring => "recurring",
    }
}

pub open spec fn lifecycle_named(raw: Seq<char>) -> Option<Lifecycle> {
    if raw == "retired"@ {
        Some(Lifecycle::Retired)
    } else if raw == "dormant"@ {
        Some(Lifecycle::Dormant)
    } else if raw == "new"@ {
        Some(Lifecycle::New)
    } else if raw == "active"@ {
        Some(Lifecycle::Active)
    } else if raw == "recurring"@ {
        Some(Lifecycle::Recurring)
    } else {
        None
    }
}

impl Lifecycle {
    /// Every state's name, in the order the states are tried.
    pub const NAMES: [&'static str; 5] = ["retired", "dormant", "new", "active", "recurring"];

    pub fn as_str(self) -> (s: &'static str)
        ensures
            s == lifecycle_name(self),
    {
        match self {
            Lifecycle::Retired => "retired",
            Lifecycle::Dormant => "dormant",
            Lifecycle::New => "new",
            Lifecycle::Active => "active",
            Lifecycle::Recurring => "recurring",
        }
    }

    pub fn parse(raw: &str) -> (state: Option<Self>)
        ensures
            state == lifecycle_named(raw@),
    {
        if same_text(raw, "retired") {
            Some(Lifecycle::Retired)
        } else if same_text(raw, "dormant") {
            Some(Lifecycle::Dormant)
        } else if same_text(raw, "new") {
            Some(Lifecycle::New)
        } else if same_text(raw, "active") {
            Some(Lifecycle::Active)
        } else if same_text(raw, "recurring") {
            Some(Lifecycle::Recurring)
        } else {
            None
        }
    }
}

/// Whether an idea still has the evidence it rests on.
#[derive(Debug, Clone, Copy, PartialEq, Eq, Hash)]
pub enum Integrity {
    /// Every connected capture is still readable.
    Sound,
    /// Captures this idea holds have been deleted, and nothing live is left.
    EvidenceMissing,
}

pub open spec fn integrity_name(integrity: Integrity) -> &'static str {
    match integrity {
        Integrity::Sound => "sound",
        Integrity::EvidenceMissing => "evidence_missing",
    }
}

pub open spec fn integrity_named(raw: Seq<char>) -> Option<Integrity> {
    if raw == "sound"@ {
        Some(Integrity::Sound)
    } else if raw == "evidence_missing"@ {
        Some(Integrity::EvidenceMissing)
    } else {
        None
    }
}

impl Integrity {
    /// Every integrity finding's name.
    pub const NAMES: [&'static str; 2] = ["sound", "evidence_missing"];

    pub fn as_str(self) -> (s: &'static str)
        ensures
            s == integrity_name(self),
    {
        match self {
            Integrity::Sound => "sound",
            Integrity::EvidenceMissing => "evidence_missing",
        }
    }

    pub fn parse(raw: &str) -> (integrity: Option<Self>)
        ensures
            integrity == integrity_named(raw@),
    {
        if same_text(raw, "sound") {
            Some(Integrity::Sound)
        } else if same_text(raw, "evidence_missing") {
            Some(Integrity::EvidenceMissing)
        } else {
            None
        }
    }
}

/// Every state's name reads back as that state, and every integrity's too.
pub proof fn names_round_trip(state: Lifecycle, integrity: Integrity)
    ensures
        lifecycle_named(lifecycle_name(state)@) == Some(state),
        integrity_named(integrity_name(integrity)@) == Some(integrity),
{
    reveal_strlit("retired");
    reveal_strlit("dormant");
    reveal_strlit("new");
    reveal_strlit("active");
    reveal_strlit("recurring");
    reveal_strlit("sound");
    reveal_strlit("evidence_missing");
    assert("retired"@ != "dormant"@ && "retired"@ != "new"@ && "retired"@ != "active"@ && "retired"@ != "recurring"@) by {
        assert("retired"@[0] != "dormant"@[0]);
        assert("retired"@.len() != "new"@.len());
        assert("retired"@[0] != "active"@[0]);
        assert("retired"@[2] != "recurring"@[2]);
    }
    assert("dormant"@ != "new"@ && "dormant"@ != "active"@ && "dormant"@ != "recurring"@) by {
        assert("dormant"@.len() != "new"@.len());
        assert("dormant"@[0] != "active"@[0]);
        assert("dormant"@[0] != "recurring"@[0]);
    }
    assert("new"@ != "active"@ && "new"@ != "recurring"@) by {
        assert("new"@.len() != "active"@.len());
        assert("new"@.len() != "recurring"@.len());
    }
    assert("active"@ != "recurring"@) by {
        assert("active"@.len() != "recurring"@.len());
    }
    assert("sound"@ != "evidence_missing"@) by {
        assert("sound"@.len() != "evidence_missing"@.len());
    }
}

/// One connected capture, and when the thought was had.
#[derive(Debug)]
pub struct CaptureMoment {
    pub id: CaptureId,
    /// Nanoseconds since the epoch.
    pub created: i128,
}

/// One `interest_affirmed` or `idea_reopened`: somebody saying, at a moment,
/// that they still care.
#[derive(Debug)]
pub struct Affirmation {
    pub id: EventId,
    pub kind: EventKind,
    pub created: i128,
}

/// Everything the rules read about one idea.
#[derive(Debug, Default)]
pub struct Evidence {
    /// Whether the latest retire-or-reopen decision says retired.
    pub retired: bool,
    /// The latest of a connected capture's creation and an affirm, connect,
    /// reopen or promote event.
    pub last_signal: Option<i128>,
    /// Connected captures whose files are still there, oldest first.
    pub captures: Vec<CaptureMoment>,
    /// Connected captures whose files are gone.
    pub missing: Vec<CaptureId>,
    /// Every affirmation and reopening, in decision order.
    pub affirmations: Vec<Affirmation>,
}

/// The arithmetic behind a momentum score.
#[derive(Debug, Clone, Copy, PartialEq, Eq)]
pub struct Components {
    /// Connected captures whose files are still there.
    pub total: usize,
    /// How many were captured in the fourteen days up to the instant asked about.
    pub recent_14: usize,
    /// How many in the thirty days up to it.
    pub recent_30: usize,
    /// `min(total, 4)`.
    pub base: u32,
    /// `2` for a burst, `1` for any sign of life in the long window, else `0`.
    pub recency: u32,
    /// `1` for an affirmation or reopening inside the long window.
    pub affirmation: u32,
    /// `min(base + recency + affirmation, 10)`.
    pub momentum: u32,
}

/// Where each window starts, so every flag in a receipt can be checked against
/// the timestamps beside it.
#[derive(Debug, Clone, Copy, PartialEq, Eq)]
pub struct Boundaries {
    /// `at - 14 days`. A capture at or after this counts toward `recent_14`.
    pub recent_14: i128,
    /// `at - 30 days`.
    pub recent_30: i128,
    /// `at - 60 days`. A `last_signal` at or before this is dormant.
    pub dormant: i128,
}

/// One capture, and which windows it fell in.
#[derive(Debug)]
pub struct CountedCapture {
    pub id: CaptureId,
    pub created: i128,
    pub within_14_days: bool,
    pub within_30_days: bool,
}

/// One affirmation, and whether it was recent enough to count.
#[derive(Debug)]
pub struct CountedAffirmation {
    pub id: EventId,
    pub kind: EventKind,
    pub created: i128,
    pub within_30_days: bool,
}

/// The rules, the numbers and the evidence behind one answer.
#[derive(Debug)]
pub struct Receipt {
    pub ruleset: &'static str,
    /// The instant this is an answer about.
    pub computed_at: i128,
    pub boundaries: Boundaries,
    pub integrity: Integrity,
    /// Absent when the evidence is missing.
    pub state: Option<Lifecycle>,
    pub momentum: Option<u32>,
    pub components: Option<Components>,
    pub last_signal: Option<i128>,
    /// Every connected capture that is still readable, oldest first.
    pub captures: Vec<CountedCapture>,
    /// Every affirmation and reopening, in decision order.
    pub affirmations: Vec<CountedAffirmation>,
    /// Connected captures whose files are gone.
    pub missing: Vec<CaptureId>,
    /// One sentence per line, each from a fixed template.
    pub explanation: Vec<String>,
}

impl Receipt {
    pub fn needs_repair(&self) -> (r: bool)
        ensures
            r == (self.integrity == Integrity::EvidenceMissing),
    {
        match self.integrity {
            Integrity::EvidenceMissing => true,
            Integrity::Sound => false,
        }
    }
}

/// The instants chrono can represent.
pub open spec fn representable(at: int) -> bool {
    min_instant() <= at < (MAX_SECONDS + 1) * 1_000_000_000
}

pub open spec fn boundaries_at(at: int) -> Boundaries {
    Boundaries {
        recent_14: days_before_spec(at, 14) as i128,
        recent_30: days_before_spec(at, 30) as i128,
        dormant: days_before_spec(at, 60) as i128,
    }
}

impl Boundaries {
    pub fn at(at: i128) -> (b: Self)
        requires
            representable(at as int),
        ensures
            b == boundaries_at(at as int),
            b.recent_14 == days_before_spec(at as int, 14),
            b.recent_30 == days_before_spec(at as int, 30),
            b.dormant == days_before_spec(at as int, 60),
    {
        Boundaries {
            recent_14: days_before(at, RECENT_DAYS),
            recent_30: days_before(at, WINDOW_DAYS),
            dormant: days_before(at, DORMANT_DAYS),
        }
    }
}

/// Whether an instant falls in `[start, at]`, both ends included.
pub open spec fn within_spec(instant: int, start: int, at: int) -> bool {
    start <= instant && instant <= at
}

fn within(instant: i128, start: i128, at: i128) -> (r: bool)
    ensures
        r == within_spec(instant as int, start as int, at as int),
{
    instant >= start && instant <= at
}

/// How many of `captures` fall in `[start, at]`.
pub open spec fn count_within(captures: Seq<CaptureMoment>, start: int, at: int) -> nat
    decreases captures.len(),
{
    if captures.len() == 0 {
        0
    } else {
        count_within(captures.drop_last(), start, at) + if within_spec(
            captures.last().created as int,
            start,
            at,
        ) {
            1nat
        } else {
            0nat
        }
    }
}

/// Whether any affirmation falls in `[start, at]`.
pub open spec fn affirmed_within(affirmations: Seq<Affirmation>, start: int, at: int) -> bool {
    exists|i: int|
        0 <= i < affirmations.len() && within_spec(
            #[trigger] affirmations[i].created as int,
            start,
            at,
        )
}

pub open spec fn min_int(a: int, b: int) -> int {
    if a <= b {
        a
    } else {
        b
    }
}

/// The components the rules compute for this evidence at `at`.
pub open spec fn components_at(evidence: Evidence, at: int) -> Components {
    let b = boundaries_at(at);
    let total = evidence.captures@.len();
    let recent_14 = count_within(evidence.captures@, b.recent_14 as int, at);
    let recent_30 = count_within(evidence.captures@, b.recent_30 as int, at);
    let base = min_int(total as int, 4);
    let recency: int = if recent_14 >= 3 {
        2
    } else if recent_30 >= 1 {
        1
    } else {
        0
    };
    let affirmation: int = if affirmed_within(evidence.affirmations@, b.recent_30 as int, at) {
        1
    } else {
        0
    };
    Components {
        total: total as usize,
        recent_14: recent_14 as usize,
        recent_30: recent_30 as usize,
        base: base as u32,
        recency: recency as u32,
        affirmation: affirmation as u32,
        momentum: min_int(base + recency + affirmation, 10) as u32,
    }
}

/// The state the rules assign, in order: retirement is a decision and beats
/// everything derived; dormancy beats the capture count.
pub open spec fn state_at(evidence: Evidence, at: int) -> Lifecycle {
    let c = components_at(evidence, at);
    if evidence.retired {
        Lifecycle::Retired
    } else if evidence.last_signal matches Some(signal) && signal <= boundaries_at(at).dormant {
        Lifecycle::Dormant
    } else if c.total == 1 {
        Lifecycle::New
    } else if c.momentum >= 4 {
        Lifecycle::Active
    } else {
        Lifecycle::Recurring
    }
}

/// Whether the rules can answer for this evidence at all.
pub open spec fn evidence_missing(evidence: Evidence) -> bool {
    !evidence.retired && evidence.captures@.len() == 0
}

pub open spec fn plural_spec(count: int, one: Seq<char>, many: Seq<char>) -> Seq<char> {
    if count == 1 {
        one
    } else {
        many
    }
}

fn plural(count: u64, one: &'static str, many: &'static str) -> (word: &'static str)
    ensures
        word@ == plural_spec(count as int, one@, many@),
{
    if count == 1 {
        one
    } else {
        many
    }
}

/// The two lines said about an idea with no evidence left.
pub open spec fn missing_lines(missing: nat) -> Seq<Seq<char>> {
    seq![
        "This idea holds "@ + decimal(missing) + " "@ + plural_spec(
            missing as int,
            "capture"@,
            "captures"@,
        ) + " whose files are gone and nothing that is still readable, so there is no authored evidence to derive a state from."@,
        "Restore one of them, connect another capture, or retire the idea."@,
    ]
}

fn missing_evidence(missing: usize) -> (lines: Vec<String>)
    ensures
        lines@.map_values(|line: String| line@) == missing_lines(missing as nat),
{
    let mut first = String::new();
    first.append("This idea holds ");
    push_decimal(&mut first, missing as u64);
    first.append(" ");
    first.append(plural(missing as u64, "capture", "captures"));
    first.append(
        " whose files are gone and nothing that is still readable, so there is no authored evidence to derive a state from.",
    );
    let second = "Restore one of them, connect another capture, or retire the idea.".to_owned();
    let mut lines = Vec::new();
    lines.push(first);
    lines.push(second);
    assert(lines@.map_values(|line: String| line@) =~= missing_lines(missing as nat));
    lines
}

/// Whole days from `signal` to `at`, and none when `signal` is later.
pub open spec fn days_since(signal: int, at: int) -> int {
    if at >= signal {
        (at - signal) / 86_400_000_000_000
    } else {
        0
    }
}

/// The first line of an explanation: what the state is.
pub open spec fn heading(state: Lifecycle, momentum: nat, days: nat) -> Seq<char> {
    match state {
        Lifecycle::Retired => "Retired: the latest decision taken about this idea was to retire it."@,
        Lifecycle::Dormant => "Dormant: the last signal was "@ + decimal(days) + " "@
            + plural_spec(days as int, "day"@, "days"@)
            + " ago, and an idea goes dormant after 60."@,
        Lifecycle::New => "New: exactly one capture is connected."@,
        Lifecycle::Active => "Active: momentum is "@ + decimal(momentum)
            + ", and 4 or more is active."@,
        Lifecycle::Recurring => "Recurring: momentum is "@ + decimal(momentum)
            + ", below the 4 an active idea needs."@,
    }
}

pub open spec fn held_text(c: Components) -> Seq<char> {
    if c.total > 4 {
        decimal(c.base as nat) + " for "@ + decimal(c.total as nat)
            + " connected captures, capped at 4"@
    } else {
        decimal(c.base as nat) + " for "@ + decimal(c.total as nat) + " connected "@
            + plural_spec(c.total as int, "capture"@, "captures"@)
    }
}

pub open spec fn recent_text(c: Components) -> Seq<char> {
    if c.recency == 2 {
        decimal(c.recency as nat) + " because "@ + decimal(c.recent_14 as nat)
            + " arrived in the last 14 days"@
    } else if c.recency == 1 {
        decimal(c.recency as nat) + " because "@ + decimal(c.recent_30 as nat)
            + " arrived in the last 30 days"@
    } else {
        decimal(c.recency as nat) + " because none arrived in the last 30 days"@
    }
}

pub open spec fn affirmed_text(c: Components) -> Seq<char> {
    if c.affirmation == 1 {
        decimal(c.affirmation as nat) + " for an affirmation in the last 30 days"@
    } else {
        decimal(c.affirmation as nat) + " with no affirmation in the last 30 days"@
    }
}

/// The second line of an explanation: how the momentum was arrived at.
pub open spec fn arithmetic(c: Components) -> Seq<char> {
    "Momentum "@ + decimal(c.momentum as nat) + " = "@ + held_text(c) + "; "@ + recent_text(c)
        + "; "@ + affirmed_text(c) + "."@
}

fn heading_line(state: Lifecycle, momentum: u32, days: u64) -> (line: String)
    ensures
        line@ == heading(state, momentum as nat, days as nat),
{
    match state {
        Lifecycle::Retired => "Retired: the latest decision taken about this idea was to retire it.".to_owned(),
        Lifecycle::Dormant => {
            let mut line = String::new();
            line.append("Dormant: the last signal was ");
            push_decimal(&mut line, days);
            line.append(" ");
            line.append(plural(days, "day", "days"));
            line.append(" ago, and an idea goes dormant after 60.");
            line
        },
        Lifecycle::New => "New: exactly one capture is connected.".to_owned(),
        Lifecycle::Active => {
            let mut line = String::new();
            line.append("Active: momentum is ");
            push_decimal(&mut line, momentum as u64);
            line.append(", and 4 or more is active.");
            line
        },
        Lifecycle::Recurring => {
            let mut line = String::new();
            line.append("Recurring: momentum is ");
            push_decimal(&mut line, momentum as u64);
            line.append(", below the 4 an active idea needs.");
            line
        },
    }
}

fn held_part(c: Components) -> (text: String)
    ensures
        text@ == held_text(c),
{
    let mut text = String::new();
    push_decimal(&mut text, c.base as u64);
    text.append(" for ");
    push_decimal(&mut text, c.total as u64);
    if c.total > MAX_BASE {
        text.append(" connected captures, capped at 4");
    } else {
        text.append(" connected ");
        text.append(plural(c.total as u64, "capture", "captures"));
    }
    assert(text@ =~= held_text(c));
    text
}

fn recent_part(c: Components) -> (text: String)
    ensures
        text@ == recent_text(c),
{
    let mut text = String::new();
    push_decimal(&mut text, c.recency as u64);
    if c.recency == 2 {
        text.append(" because ");
        push_decimal(&mut text, c.recent_14 as u64);
        text.append(" arrived in the last 14 days");
    } else if c.recency == 1 {
        text.append(" because ");
        push_decimal(&mut text, c.recent_30 as u64);
        text.append(" arrived in the last 30 days");
    } else {
        text.append(" because none arrived in the last 30 days");
    }
    assert(text@ =~= recent_text(c));
    text
}

fn affirmed_part(c: Components) -> (text: String)
    ensures
        text@ == affirmed_text(c),
{
    let mut text = String::new();
    push_decimal(&mut text, c.affirmation as u64);
    if c.affirmation == 1 {
        text.append(" for an affirmation in the last 30 days");
    } else {
        text.append(" with no affirmation in the last 30 days");
    }
    text
}

fn arithmetic_line(c: Components) -> (line: String)
    ensures
        line@ == arithmetic(c),
{
    let mut line = String::new();
    line.append("Momentum ");
    push_decimal(&mut line, c.momentum as u64);
    line.append(" = ");
    line.append(held_part(c).as_str());
    line.append("; ");
    line.append(recent_part(c).as_str());
    line.append("; ");
    line.append(affirmed_part(c).as_str());
    line.append(".");
    line
}

/// The two lines explaining a state and its momentum.
pub open spec fn explanation_lines(state: Lifecycle, c: Components, last_signal: Option<i128>, at: int) -> Seq<
    Seq<char>,
> {
    let days = match last_signal {
        Some(signal) => days_since(signal as int, at),
        None => 0,
    };
    seq![heading(state, c.momentum as nat, days as nat), arithmetic(c)]
}

fn explain(state: Lifecycle, c: Components, last_signal: Option<i128>, at: i128) -> (lines: Vec<
    String,
>)
    requires
        representable(at as int),
        last_signal matches Some(s) ==> representable(s as int),
    ensures
        lines@.map_values(|line: String| line@) == explanation_lines(state, c, last_signal, at as int),
{
    let days: u64 = match last_signal {
        Some(signal) => if at >= signal {
            ((at - signal) / NANOS_PER_DAY) as u64
        } else {
            0
        },
        None => 0,
    };
    proof {
        if let Some(signal) = last_signal {
            if at >= signal {
                assert((at - signal) / 86_400_000_000_000 <= 1_000_000_000_000) by (nonlinear_arith)
                    requires
                        0 <= at - signal <= 20_000_000_000_000_000_000_000_000,
                ;
            }
        }
    }
    let mut lines = Vec::new();
    lines.push(heading_line(state, c.momentum, days));
    lines.push(arithmetic_line(c));
    assert(lines@.map_values(|line: String| line@) =~= explanation_lines(
        state,
        c,
        last_signal,
        at as int,
    ));
    lines
}

/// The flags one capture gets.
pub open spec fn counted_capture_ok(counted: CountedCapture, moment: CaptureMoment, b: Boundaries, at: int) -> bool {
    &&& counted.id@ == moment.id@
    &&& counted.created == moment.created
    &&& counted.within_14_days == within_spec(moment.created as int, b.recent_14 as int, at)
    &&& counted.within_30_days == within_spec(moment.created as int, b.recent_30 as int, at)
}

pub open spec fn counted_affirmation_ok(counted: CountedAffirmation, a: Affirmation, b: Boundaries, at: int) -> bool {
    &&& counted.id@ == a.id@
    &&& counted.kind == a.kind
    &&& counted.created == a.created
    &&& counted.within_30_days == within_spec(a.created as int, b.recent_30 as int, at)
}

/// How many counted captures carry the long-window flag (`long`) or the
/// short-window one.
pub open spec fn flagged(captures: Seq<CountedCapture>, long: bool) -> nat
    decreases captures.len(),
{
    if captures.len() == 0 {
        0
    } else {
        flagged(captures.drop_last(), long) + if (if long {
            captures.last().within_30_days
        } else {
            captures.last().within_14_days
        }) {
            1nat
        } else {
            0nat
        }
    }
}

/// The components recomputed from nothing but a receipt's own lists: the
/// flags on its captures and affirmations.
pub open spec fn components_from_receipt(
    captures: Seq<CountedCapture>,
    affirmations: Seq<CountedAffirmation>,
) -> Components {
    let total = captures.len();
    let recent_14 = flagged(captures, false);
    let recent_30 = flagged(captures, true);
    let base = min_int(total as int, 4);
    let recency: int = if recent_14 >= 3 {
        2
    } else if recent_30 >= 1 {
        1
    } else {
        0
    };
    let affirmation: int = if exists|i: int|
        0 <= i < affirmations.len() && (#[trigger] affirmations[i]).within_30_days {
        1
    } else {
        0
    };
    Components {
        total: total as usize,
        recent_14: recent_14 as usize,
        recent_30: recent_30 as usize,
        base: base as u32,
        recency: recency as u32,
        affirmation: affirmation as u32,
        momentum: min_int(base + recency + affirmation, 10) as u32,
    }
}

/// Work out where an idea stands at a given instant.
pub fn assess(evidence: &Evidence, at: i128) -> (receipt: Receipt)
    requires
        representable(at as int),
        evidence.last_signal matches Some(s) ==> representable(s as int),
    ensures
        receipt.ruleset == RULESET,
        receipt.computed_at == at,
        receipt.boundaries == boundaries_at(at as int),
        receipt.last_signal == evidence.last_signal,
        receipt.captures@.len() == evidence.captures@.len(),
        forall|i: int|
            0 <= i < evidence.captures@.len() ==> counted_capture_ok(
                #[trigger] receipt.captures@[i],
                evidence.captures@[i],
                receipt.boundaries,
                at as int,
            ),
        receipt.affirmations@.len() == evidence.affirmations@.len(),
        forall|i: int|
            0 <= i < evidence.affirmations@.len() ==> counted_affirmation_ok(
                #[trigger] receipt.affirmations@[i],
                evidence.affirmations@[i],
                receipt.boundaries,
                at as int,
            ),
        receipt.missing@.map_values(|id: CaptureId| id@) == evidence.missing@.map_values(
            |id: CaptureId| id@,
        ),
        evidence_missing(*evidence) ==> {
            &&& receipt.integrity == Integrity::EvidenceMissing
            &&& receipt.state is None
            &&& receipt.momentum is None
            &&& receipt.components is None
            &&& receipt.explanation@.map_values(|line: String| line@) == missing_lines(
                evidence.missing@.len(),
            )
        },
        !evidence_missing(*evidence) ==> {
            &&& receipt.integrity == Integrity::Sound
            &&& receipt.components == Some(components_at(*evidence, at as int))
            &&& receipt.components == Some(
                components_from_receipt(receipt.captures@, receipt.affirmations@),
            )
            &&& receipt.momentum == Some(components_at(*evidence, at as int).momentum)
            &&& receipt.state == Some(state_at(*evidence, at as int))
            &&& receipt.explanation@.map_values(|line: String| line@) == explanation_lines(
                state_at(*evidence, at as int),
                components_at(*evidence, at as int),
                evidence.last_signal,
                at as int,
            )
        },
{
    let boundaries = Boundaries::at(at);
    let ghost b = boundaries;

    let mut captures: Vec<CountedCapture> = Vec::new();
    let mut recent_14: usize = 0;
    let mut recent_30: usize = 0;
    let mut i: usize = 0;
    while i < evidence.captures.len()
        invariant
            i <= evidence.captures@.len(),
            b == boundaries,
            captures@.len() == i,
            forall|j: int|
                0 <= j < i ==> counted_capture_ok(
                    #[trigger] captures@[j],
                    evidence.captures@[j],
                    b,
                    at as int,
                ),
            recent_14 == count_within(evidence.captures@.take(i as int), b.recent_14 as int, at as int),
            recent_14 == flagged(captures@, false),
            recent_30 == flagged(captures@, true),
            recent_30 == count_within(evidence.captures@.take(i as int), b.recent_30 as int, at as int),
            recent_14 <= i,
            recent_30 <= i,
        decreases evidence.captures@.len() - i,
    {
        let moment = &evidence.captures[i];
        let in_14 = within(moment.created, boundaries.recent_14, at);
        let in_30 = within(moment.created, boundaries.recent_30, at);
        proof {
            assert(evidence.captures@.take(i + 1).drop_last() =~= evidence.captures@.take(i as int));
            assert(evidence.captures@.take(i + 1).last() == evidence.captures@[i as int]);
        }
        if in_14 {
            recent_14 = recent_14 + 1;
        }
        if in_30 {
            recent_30 = recent_30 + 1;
        }
        let ghost before = captures@;
        captures.push(
            CountedCapture {
                id: moment.id.clone(),
                created: moment.created,
                within_14_days: in_14,
                within_30_days: in_30,
            },
        );
        proof {
            assert(captures@.drop_last() =~= before);
        }
        i = i + 1;
    }
    assert(evidence.captures@.take(i as int) =~= evidence.captures@);

    let mut affirmations: Vec<CountedAffirmation> = Vec::new();
    let mut any_affirmed = false;
    let mut k: usize = 0;
    while k < evidence.affirmations.len()
        invariant
            k <= evidence.affirmations@.len(),
            b == boundaries,
            affirmations@.len() == k,
            forall|j: int|
                0 <= j < k ==> counted_affirmation_ok(
                    #[trigger] affirmations@[j],
                    evidence.affirmations@[j],
                    b,
                    at as int,
                ),
            any_affirmed == exists|j: int|
                0 <= j < k && within_spec(
                    #[trigger] evidence.affirmations@[j].created as int,
                    b.recent_30 as int,
                    at as int,
                ),
            any_affirmed == exists|j: int|
                0 <= j < k && (#[trigger] affirmations@[j]).within_30_days,
        decreases evidence.affirmations@.len() - k,
    {
        let a = &evidence.affirmations[k];
        let in_30 = within(a.created, boundaries.recent_30, at);
        if in_30 {
            any_affirmed = true;
        }
        let ghost before = affirmations@;
        affirmations.push(
            CountedAffirmation {
                id: a.id.clone(),
                kind: a.kind,
                created: a.created,
                within_30_days: in_30,
            },
        );
        proof {
            assert(affirmations@[k as int].within_30_days == in_30);
            assert(forall|j: int| 0 <= j < k ==> affirmations@[j] == before[j]);
        }
        k = k + 1;
    }

    let missing = clone_ids(&evidence.missing);

    if !evidence.retired && captures.len() == 0 {
        let explanation = missing_evidence(evidence.missing.len());
        return Receipt {
            ruleset: RULESET,
            computed_at: at,
            boundaries,
            integrity: Integrity::EvidenceMissing,
            state: None,
            momentum: None,
            components: None,
            last_signal: evidence.last_signal,
            captures,
            affirmations,
            missing,
            explanation,
        };
    }

    let total = captures.len();
    let base: u32 = if total < MAX_BASE {
        total as u32
    } else {
        4
    };
    let recency: u32 = if recent_14 >= BURST {
        2
    } else if recent_30 >= 1 {
        1
    } else {
        0
    };
    let affirmation: u32 = if any_affirmed {
        1
    } else {
        0
    };
    let sum = base + recency + affirmation;
    let momentum = if sum < MAX_MOMENTUM {
        sum
    } else {
        MAX_MOMENTUM
    };
    let components = Components {
        total,
        recent_14,
        recent_30,
        base,
        recency,
        affirmation,
        momentum,
    };
    assert(components == components_at(*evidence, at as int));

    let dormant = match evidence.last_signal {
        Some(signal) => signal <= boundaries.dormant,
        None => false,
    };
    let state = if evidence.retired {
        Lifecycle::Retired
    } else if dormant {
        Lifecycle::Dormant
    } else if total == 1 {
        Lifecycle::New
    } else if momentum >= ACTIVE_MOMENTUM {
        Lifecycle::Active
    } else {
        Lifecycle::Recurring
    };
    let explanation = explain(state, components, evidence.last_signal, at);

    Receipt {
        ruleset: RULESET,
        computed_at: at,
        boundaries,
        integrity: Integrity::Sound,
        state: Some(state),
        momentum: Some(momentum),
        components: Some(components),
        last_signal: evidence.last_signal,
        captures,
        affirmations,
        missing,
        explanation,
    }
}

fn clone_ids(ids: &Vec<CaptureId>) -> (copy: Vec<CaptureId>)
    ensures
        copy@.map_values(|id: CaptureId| id@) == ids@.map_values(|id: CaptureId| id@),
{
    let mut copy: Vec<CaptureId> = Vec::new();
    let mut i: usize = 0;
    while i < ids.len()
        invariant
            i <= ids@.len(),
            copy@.len() == i,
            forall|j: int| 0 <= j < i ==> #[trigger] copy@[j]@ == ids@[j]@,
        decreases ids@.len() - i,
    {
        copy.push(ids[i].clone());
        i = i + 1;
    }
    assert(copy@.map_values(|id: CaptureId| id@) =~= ids@.map_values(|id: CaptureId| id@));
    copy
}

/// Version 1 never scores above seven: `base` tops out at four, `recency` at
/// two and `affirmation` at one, so the ceiling of ten is out of its reach.
pub proof fn momentum_never_exceeds_seven(evidence: Evidence, at: int)
    ensures
        components_at(evidence, at).momentum <= 7,
        components_at(evidence, at).momentum < MAX_MOMENTUM,
{
}

proof fn count_within_monotone(captures: Seq<CaptureMoment>, wide: int, narrow: int, at: int)
    requires
        wide <= narrow,
    ensures
        count_within(captures, narrow, at) <= count_within(captures, wide, at),
        count_within(captures, wide, at) <= captures.len(),
    decreases captures.len(),
{
    if captures.len() > 0 {
        count_within_monotone(captures.drop_last(), wide, narrow, at);
    }
}

/// The short window lies inside the long one, so a capture counted as recent
/// is also counted as a sign of life: `recent_14 <= recent_30 <= total`.
pub proof fn windows_nest(evidence: Evidence, at: int)
    requires
        representable(at),
        evidence.captures@.len() <= usize::MAX,
    ensures
        components_at(evidence, at).recent_14 <= components_at(evidence, at).recent_30,
        components_at(evidence, at).recent_30 <= components_at(evidence, at).total,
{
    let b = boundaries_at(at);
    assert(b.recent_30 <= b.recent_14);
    count_within_monotone(evidence.captures@, b.recent_30 as int, b.recent_14 as int, at);
    count_within_monotone(evidence.captures@, b.recent_14 as int, b.recent_14 as int, at);
}

/// Retirement beats everything derived: a retired idea is retired whatever
/// its captures, signals and momentum say.
pub proof fn retirement_beats_everything(evidence: Evidence, at: int)
    requires
        evidence.retired,
    ensures
        state_at(evidence, at) == Lifecycle::Retired,
        !evidence_missing(evidence),
{
}

/// Dormancy only deepens with time: an idea that is dormant at one instant is
/// dormant at every later one, as long as nothing new happens to it.
pub proof fn dormancy_only_deepens(evidence: Evidence, earlier: int, later: int)
    requires
        representable(earlier),
        representable(later),
        earlier <= later,
        !evidence.retired,
        state_at(evidence, earlier) == Lifecycle::Dormant,
    ensures
        state_at(evidence, later) == Lifecycle::Dormant,
{
    assert(boundaries_at(earlier).dormant <= boundaries_at(later).dormant);
}

} // verus!
