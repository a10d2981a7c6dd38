use chrono::{DateTime, Utc};
use rhizolog::ideas::ids::{CaptureId, EventId};
use rhizolog::ideas::lifecycle::{
    assess, Affirmation, Boundaries, CaptureMoment, Evidence, Integrity, Lifecycle, Receipt,
    MAX_MOMENTUM, RULESET,
};
use rhizolog::ideas::records::EventKind;

const DAY: i128 = 86_400_000_000_000;

fn at(text: &str) -> i128 {
    DateTime::parse_from_rfc3339(text)
        .expect("valid timestamp")
        .timestamp_nanos_opt()
        .expect("in range") as i128
}

/// The instant every test asks about.
fn now() -> i128 {
    at("2026-08-20T12:00:00Z")
}

fn capture_id(raw: &str) -> CaptureId {
    CaptureId::parse(raw).expect("valid capture id")
}

/// A capture made `days` before [`now`], numbered so ids stay distinct.
fn made(n: u32, days: i64) -> CaptureMoment {
    CaptureMoment {
        id: capture_id(&format!("20260820T1200{n:02}-000000000")),
        created: now() - i128::from(days) * DAY,
    }
}

fn affirmed(days: i64) -> Affirmation {
    let created = now() - i128::from(days) * DAY;
    Affirmation {
        id: EventId::mint(created, 0),
        kind: EventKind::InterestAffirmed,
        created,
    }
}

/// Evidence whose `last_signal` is the newest capture, which is what the index
/// folds when nothing else has happened.
fn held(captures: Vec<CaptureMoment>) -> Evidence {
    Evidence {
        last_signal: captures.iter().map(|c| c.created).max(),
        captures,
        ..Evidence::default()
    }
}

fn assessed(evidence: &Evidence) -> Receipt {
    assess(evidence, now())
}

/// The first instant chrono can represent, in nanoseconds.
fn min_utc() -> i128 {
    let min = DateTime::<Utc>::MIN_UTC;
    i128::from(min.timestamp()) * 1_000_000_000 + i128::from(min.timestamp_subsec_nanos())
}

#[test]
fn one_capture_is_new() {
    let receipt = assessed(&held(vec![made(1, 0)]));

    assert_eq!(receipt.state, Some(Lifecycle::New));
    assert_eq!(receipt.momentum, Some(2), "1 base + 1 recency");
    assert_eq!(receipt.integrity, Integrity::Sound);
    assert_eq!(receipt.ruleset, RULESET);
    assert_eq!(receipt.computed_at, now());
}

/// The arithmetic, written out: four captures inside 14 days is a burst.
#[test]
fn a_burst_of_recent_captures_is_active() {
    let receipt = assessed(&held(vec![made(1, 1), made(2, 3), made(3, 5), made(4, 40)]));

    let components = receipt.components.expect("components");
    assert_eq!(components.total, 4);
    assert_eq!(components.recent_14, 3);
    assert_eq!(components.recent_30, 3);
    assert_eq!(components.base, 4);
    assert_eq!(components.recency, 2);
    assert_eq!(components.affirmation, 0);
    assert_eq!(components.momentum, 6);
    assert_eq!(receipt.state, Some(Lifecycle::Active));
}

#[test]
fn base_is_capped_at_four_captures() {
    let captures: Vec<_> = (1..=9).map(|n| made(n, i64::from(n) * 100)).collect();
    let mut evidence = held(captures);
    // Otherwise this would be dormant, which is decided before the count.
    evidence.last_signal = Some(now());

    let components = assessed(&evidence).components.expect("components");

    assert_eq!(components.total, 9);
    assert_eq!(components.base, 4);
    assert_eq!(components.recent_30, 0);
    assert_eq!(components.recency, 0);
    assert_eq!(components.momentum, 4);
}

/// The three boundaries, tested exactly on them. Both ends are inclusive.
#[test]
fn a_capture_exactly_fourteen_days_old_still_counts_as_recent() {
    let components = assessed(&held(vec![made(1, 14), made(2, 14), made(3, 14)]))
        .components
        .expect("components");

    assert_eq!(components.recent_14, 3);
    assert_eq!(components.recency, 2);
}

#[test]
fn a_capture_a_day_past_fourteen_is_not_a_burst() {
    let components = assessed(&held(vec![made(1, 14), made(2, 14), made(3, 15)]))
        .components
        .expect("components");

    assert_eq!(components.recent_14, 2);
    assert_eq!(components.recent_30, 3);
    assert_eq!(components.recency, 1);
}

#[test]
fn a_capture_exactly_thirty_days_old_is_still_a_sign_of_life() {
    let components = assessed(&held(vec![made(1, 30), made(2, 100)]))
        .components
        .expect("components");

    assert_eq!(components.recent_30, 1);
    assert_eq!(components.recency, 1);
}

#[test]
fn a_capture_a_day_past_thirty_is_not() {
    let components = assessed(&held(vec![made(1, 31), made(2, 100)]))
        .components
        .expect("components");

    assert_eq!(components.recent_30, 0);
    assert_eq!(components.recency, 0);
}

#[test]
fn nothing_for_exactly_sixty_days_is_dormant() {
    let mut evidence = held(vec![made(1, 60), made(2, 200)]);
    evidence.last_signal = Some(now() - 60 * DAY);

    assert_eq!(assessed(&evidence).state, Some(Lifecycle::Dormant));

    evidence.last_signal = Some(now() - 59 * DAY);
    assert_ne!(assessed(&evidence).state, Some(Lifecycle::Dormant));
}

/// A capture dated in the future counts toward the total and toward neither
/// window, which keeps a mistyped timestamp from inventing recency.
#[test]
fn a_capture_after_the_instant_asked_about_counts_for_nothing_recent() {
    let mut evidence = held(vec![made(1, 100), made(2, -5)]);
    evidence.last_signal = Some(now());

    let components = assessed(&evidence).components.expect("components");

    assert_eq!(components.total, 2);
    assert_eq!(components.recent_14, 0);
    assert_eq!(components.recent_30, 0);
}

#[test]
fn an_affirmation_inside_thirty_days_is_worth_a_point() {
    let mut evidence = held(vec![made(1, 100), made(2, 200)]);
    evidence.last_signal = Some(now() - DAY);
    assert_eq!(assessed(&evidence).momentum, Some(2), "2 base, no recency");

    evidence.affirmations = vec![affirmed(30)];
    let receipt = assessed(&evidence);
    assert_eq!(receipt.momentum, Some(3));
    assert!(receipt.affirmations[0].within_30_days);

    evidence.affirmations = vec![affirmed(31)];
    let receipt = assessed(&evidence);
    assert_eq!(receipt.momentum, Some(2));
    assert!(!receipt.affirmations[0].within_30_days);
    assert_eq!(
        receipt.affirmations.len(),
        1,
        "an affirmation that did not count is still evidence and is still named"
    );
}

/// Reopening is a way of saying you still care, so it counts as one.
#[test]
fn a_reopening_counts_as_an_affirmation() {
    let mut evidence = held(vec![made(1, 100), made(2, 200)]);
    evidence.last_signal = Some(now() - DAY);
    evidence.affirmations = vec![Affirmation {
        kind: EventKind::IdeaReopened,
        ..affirmed(2)
    }];

    assert_eq!(assessed(&evidence).components.unwrap().affirmation, 1);
}

#[test]
fn retirement_beats_everything_derived() {
    let mut evidence = held(vec![made(1, 1), made(2, 2), made(3, 3)]);
    evidence.retired = true;

    let receipt = assessed(&evidence);

    assert_eq!(receipt.state, Some(Lifecycle::Retired));
    // The arithmetic is still reported, so reopening it is a known quantity.
    assert_eq!(receipt.momentum, Some(5));
}

/// Dormancy is decided before the capture count, so an idea with one capture
/// and nothing since is dormant rather than new.
#[test]
fn dormancy_beats_the_capture_count() {
    let receipt = assessed(&held(vec![made(1, 90)]));

    assert_eq!(receipt.state, Some(Lifecycle::Dormant));
    assert_eq!(receipt.momentum, Some(1));
}

#[test]
fn two_quiet_captures_are_recurring() {
    let mut evidence = held(vec![made(1, 40), made(2, 45)]);
    evidence.last_signal = Some(now() - DAY);

    let receipt = assessed(&evidence);

    assert_eq!(receipt.state, Some(Lifecycle::Recurring));
    assert_eq!(receipt.momentum, Some(2));
}

/// The one thing this must never do: derive an answer from absent evidence.
#[test]
fn a_thread_whose_captures_are_gone_gets_no_state_and_no_score() {
    let evidence = Evidence {
        missing: vec![capture_id("20260820T120001-000000000")],
        last_signal: None,
        ..Evidence::default()
    };

    let receipt = assess(&evidence, now());

    assert_eq!(receipt.integrity, Integrity::EvidenceMissing);
    assert!(receipt.needs_repair());
    assert_eq!(receipt.state, None);
    assert_eq!(receipt.momentum, None);
    assert_eq!(receipt.components, None);
    assert_eq!(receipt.missing.len(), 1);
    assert!(receipt.explanation[0].contains("no authored evidence"));
}

/// Retiring is the way out of Needs repair, and it is a decision rather than an
/// inference, so it does not need evidence to stand on.
#[test]
fn a_retired_thread_with_nothing_left_is_retired_rather_than_broken() {
    let evidence = Evidence {
        retired: true,
        missing: vec![capture_id("20260820T120001-000000000")],
        ..Evidence::default()
    };

    let receipt = assess(&evidence, now());

    assert_eq!(receipt.integrity, Integrity::Sound);
    assert_eq!(receipt.state, Some(Lifecycle::Retired));
    assert_eq!(receipt.momentum, Some(0));
}

/// The same files answer differently at two moments, and neither answer is
/// stored.
#[test]
fn the_same_evidence_answers_differently_at_two_instants() {
    let evidence = held(vec![made(1, 0), made(2, 1), made(3, 2)]);

    assert_eq!(assess(&evidence, now()).state, Some(Lifecycle::Active));
    assert_eq!(
        assess(&evidence, now() + 90 * DAY).state,
        Some(Lifecycle::Dormant)
    );
}

#[test]
fn the_highest_momentum_version_one_can_produce_is_seven() {
    let mut evidence = held(vec![
        made(1, 0),
        made(2, 1),
        made(3, 2),
        made(4, 3),
        made(5, 4),
    ]);
    evidence.affirmations = vec![affirmed(0)];

    let components = assessed(&evidence).components.expect("components");

    assert_eq!(components.base, 4);
    assert_eq!(components.recency, 2);
    assert_eq!(components.affirmation, 1);
    assert_eq!(components.momentum, 7);
    assert!(components.momentum < MAX_MOMENTUM);
}

/// Every window boundary is in the receipt, and every flag beside it agrees
/// with the timestamps, so the components can be recomputed from the answer.
#[test]
fn a_receipt_carries_the_boundaries_its_flags_were_measured_against() {
    let receipt = assessed(&held(vec![made(1, 2), made(2, 20), made(3, 200)]));

    assert_eq!(receipt.boundaries.recent_14, now() - 14 * DAY);
    assert_eq!(receipt.boundaries.recent_30, now() - 30 * DAY);
    assert_eq!(receipt.boundaries.dormant, now() - 60 * DAY);

    for capture in &receipt.captures {
        assert_eq!(
            capture.within_14_days,
            capture.created >= receipt.boundaries.recent_14 && capture.created <= now()
        );
        assert_eq!(
            capture.within_30_days,
            capture.created >= receipt.boundaries.recent_30 && capture.created <= now()
        );
    }

    let components = receipt.components.expect("components");
    assert_eq!(
        components.recent_14,
        receipt.captures.iter().filter(|c| c.within_14_days).count()
    );
    assert_eq!(
        components.recent_30,
        receipt.captures.iter().filter(|c| c.within_30_days).count()
    );
}

#[test]
fn the_explanation_says_the_state_and_the_arithmetic() {
    let receipt = assessed(&held(vec![made(1, 1), made(2, 2), made(3, 3)]));

    assert_eq!(receipt.explanation.len(), 2);
    assert!(receipt.explanation[0].starts_with("Active:"), "{receipt:#?}");
    assert!(
        receipt.explanation[1].starts_with("Momentum 5 = 3 for 3 connected captures; 2 because 3 arrived in the last 14 days; 0 with no affirmation"),
        "{}",
        receipt.explanation[1]
    );
}

/// An `at` near the start of representable time must not take the request down
/// with it, which subtracting sixty days from it otherwise would.
#[test]
fn an_absurd_instant_saturates_rather_than_panicking() {
    let boundaries = Boundaries::at(min_utc());

    assert_eq!(boundaries.recent_14, min_utc());
    assert_eq!(boundaries.dormant, min_utc());
    assert_eq!(
        assess(&Evidence::default(), min_utc()).integrity,
        Integrity::EvidenceMissing
    );
}

#[test]
fn a_dormant_heading_counts_the_days_since_the_last_signal() {
    let receipt = assessed(&held(vec![made(1, 90)]));

    assert_eq!(
        receipt.explanation[0],
        "Dormant: the last signal was 90 days ago, and an idea goes dormant after 60."
    );
    assert_eq!(
        receipt.explanation[1],
        "Momentum 1 = 1 for 1 connected capture; 0 because none arrived in the last 30 days; 0 with no affirmation in the last 30 days."
    );
}

#[test]
fn a_missing_capture_is_named_in_the_singular() {
    let evidence = Evidence {
        missing: vec![capture_id("20260820T120001-000000000")],
        ..Evidence::default()
    };

    let receipt = assess(&evidence, now());

    assert_eq!(
        receipt.explanation,
        vec![
            "This idea holds 1 capture whose files are gone and nothing that is still readable, so there is no authored evidence to derive a state from.".to_owned(),
            "Restore one of them, connect another capture, or retire the idea.".to_owned(),
        ]
    );
}

#[test]
fn a_dormant_idea_stays_dormant_as_time_passes() {
    let evidence = held(vec![made(1, 60), made(2, 61)]);

    for later in [0, 1, 30, 365] {
        assert_eq!(
            assess(&evidence, now() + later * DAY).state,
            Some(Lifecycle::Dormant)
        );
    }
}

#[test]
fn the_counted_flags_recompute_the_components() {
    let mut evidence = held(vec![made(1, 1), made(2, 13), made(3, 20), made(4, 300)]);
    evidence.affirmations = vec![affirmed(45), affirmed(10)];

    let receipt = assessed(&evidence);
    let components = receipt.components.expect("components");
    let flagged_14 = receipt.captures.iter().filter(|c| c.within_14_days).count();
    let flagged_30 = receipt.captures.iter().filter(|c| c.within_30_days).count();
    let affirmed_30 = receipt.affirmations.iter().any(|a| a.within_30_days);

    assert_eq!(components.total, receipt.captures.len());
    assert_eq!((components.recent_14, components.recent_30), (flagged_14, flagged_30));
    assert_eq!((flagged_14, flagged_30), (2, 3));
    assert_eq!(components.affirmation, u32::from(affirmed_30));
    assert_eq!(components.momentum, 4 + 1 + 1);
}
