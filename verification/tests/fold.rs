use rhizolog::ideas::records::EventKind;
use rhizolog::index::fold::{fold_capture, fold_idea, FoldEvent, IdeaFold, KnownCapture};

const IDEA: &str = "20260820T142000-000000000";
const SEED: &str = "20260820T141530-000000000";
const LOOSE: &str = "20260820T141600-000000000";

fn event(id: &str, kind: &str) -> FoldEvent {
    FoldEvent {
        id: id.to_owned(),
        kind: kind.to_owned(),
        idea: None,
        capture: None,
        other: None,
        page: None,
        created: nanos_of(id),
    }
}

/// The instant an id names, close enough for ordering: the id's digits.
fn nanos_of(id: &str) -> i64 {
    let digits: String = id[9..15].chars().chain(id[16..].chars()).collect();
    digits.parse::<i64>().unwrap()
}

fn about_idea(id: &str, kind: EventKind, capture: Option<&str>) -> FoldEvent {
    FoldEvent {
        idea: Some(IDEA.to_owned()),
        capture: capture.map(str::to_owned),
        ..event(id, kind.as_str())
    }
}

fn about_capture(id: &str, kind: EventKind, capture: &str) -> FoldEvent {
    FoldEvent {
        capture: Some(capture.to_owned()),
        ..event(id, kind.as_str())
    }
}

fn about_pair(id: &str, kind: EventKind, capture: &str, other: &str) -> FoldEvent {
    FoldEvent {
        capture: Some(capture.to_owned()),
        other: Some(other.to_owned()),
        ..event(id, kind.as_str())
    }
}

fn known(ids: &[&str]) -> Vec<KnownCapture> {
    ids.iter()
        .map(|id| KnownCapture {
            id: (*id).to_owned(),
            created: nanos_of(id),
        })
        .collect()
}

/// A thread seeded from one capture, with a second loose capture beside it.
fn fold(events: Vec<FoldEvent>) -> IdeaFold {
    fold_idea(IDEA, &vec![SEED.to_owned()], &events, &known(&[SEED, LOOSE]))
}

#[test]
fn the_fold_spells_event_kinds_the_way_the_files_do() {
    for (kind, spelling) in [
        (EventKind::CaptureConnected, "capture_connected"),
        (EventKind::CaptureDisconnected, "capture_disconnected"),
        (EventKind::CandidateRejected, "candidate_rejected"),
        (EventKind::CandidateReconsidered, "candidate_reconsidered"),
        (EventKind::InterestAffirmed, "interest_affirmed"),
        (EventKind::CaptureArchived, "capture_archived"),
        (EventKind::CaptureRestored, "capture_restored"),
        (EventKind::CaptureDeleted, "capture_deleted"),
        (EventKind::IdeaRetired, "idea_retired"),
        (EventKind::IdeaReopened, "idea_reopened"),
        (EventKind::IdeaPromoted, "idea_promoted"),
        (EventKind::RediscoveryDismissed, "rediscovery_dismissed"),
    ] {
        assert_eq!(kind.as_str(), spelling);
    }

    // Every kind the fold reads changes what it folds to when a row spells it
    // the way the files do.
    let plain = fold(vec![]);
    for kind in [
        EventKind::CaptureConnected,
        EventKind::CaptureDisconnected,
        EventKind::CandidateRejected,
        EventKind::CandidateReconsidered,
        EventKind::InterestAffirmed,
        EventKind::CaptureArchived,
        EventKind::CaptureRestored,
        EventKind::IdeaRetired,
        EventKind::IdeaReopened,
        EventKind::IdeaPromoted,
    ] {
        let read = match kind {
            EventKind::CaptureConnected => {
                fold(vec![about_idea("20260820T142100-000000000", kind, Some(LOOSE))]).members
                    != plain.members
            }
            EventKind::CaptureDisconnected => {
                fold(vec![about_idea("20260820T142100-000000000", kind, Some(SEED))]).members
                    != plain.members
            }
            EventKind::CandidateRejected => {
                !fold(vec![about_idea("20260820T142100-000000000", kind, Some(LOOSE))])
                    .turned_down
                    .is_empty()
            }
            EventKind::CandidateReconsidered => fold(vec![
                about_idea("20260820T142100-000000000", EventKind::CandidateRejected, Some(LOOSE)),
                about_idea("20260820T142200-000000000", kind, Some(LOOSE)),
            ])
            .turned_down
            .is_empty(),
            EventKind::InterestAffirmed | EventKind::IdeaReopened => {
                fold(vec![about_idea("20260820T142100-000000000", kind, None)]).last_signal
                    != plain.last_signal
            }
            EventKind::CaptureArchived => {
                fold_capture(
                    SEED,
                    &vec![about_capture("20260820T142100-000000000", kind, SEED)],
                    &known(&[SEED]),
                )
                .archived
                    == Some(true)
            }
            EventKind::CaptureRestored => {
                fold_capture(
                    SEED,
                    &vec![about_capture("20260820T142100-000000000", kind, SEED)],
                    &known(&[SEED]),
                )
                .archived
                    == Some(false)
            }
            EventKind::IdeaRetired => {
                fold(vec![about_idea("20260820T142100-000000000", kind, None)]).retired
            }
            _ => fold(vec![FoldEvent {
                page: Some("notes/dungeon-seeds".to_owned()),
                ..about_idea("20260820T142100-000000000", kind, None)
            }])
            .promoted_to
            .is_some(),
        };
        assert!(read, "the fold never mentions {kind:?}");
    }
}

#[test]
fn a_seed_is_held_until_a_decision_says_otherwise() {
    let plain = fold(vec![]);
    assert_eq!(plain.members, [SEED]);
    assert!(plain.turned_down.is_empty());
    assert!(!plain.retired);
    assert_eq!(plain.promoted_to, None);
    assert_eq!(plain.last_signal, Some(nanos_of(SEED)));

    let disconnected = fold(vec![about_idea(
        "20260820T142100-000000000",
        EventKind::CaptureDisconnected,
        Some(SEED),
    )]);
    assert!(disconnected.members.is_empty());
    assert_eq!(disconnected.last_signal, None);
}

#[test]
fn connecting_and_disconnecting_fold_to_the_latest_decision() {
    let connect = about_idea("20260820T142100-000000000", EventKind::CaptureConnected, Some(LOOSE));
    let disconnect = about_idea("20260820T142200-000000000", EventKind::CaptureDisconnected, Some(LOOSE));
    let reconnect = about_idea("20260820T142300-000000000", EventKind::CaptureConnected, Some(LOOSE));

    assert_eq!(fold(vec![connect.clone()]).members, [SEED, LOOSE]);
    assert_eq!(fold(vec![connect.clone(), disconnect.clone()]).members, [SEED]);
    assert_eq!(
        fold(vec![connect, disconnect, reconnect]).members,
        [SEED, LOOSE]
    );
}

#[test]
fn the_fold_does_not_care_what_order_rows_come_in() {
    let connect = about_idea("20260820T142100-000000000", EventKind::CaptureConnected, Some(LOOSE));
    let disconnect = about_idea("20260820T142200-000000000", EventKind::CaptureDisconnected, Some(LOOSE));
    let retire = about_idea("20260820T142300-000000000", EventKind::IdeaRetired, None);
    let reopen = about_idea("20260820T142400-000000000", EventKind::IdeaReopened, None);

    let forwards = fold(vec![connect.clone(), disconnect.clone(), retire.clone(), reopen.clone()]);
    let backwards = fold(vec![reopen, retire, disconnect, connect]);

    assert_eq!(forwards.members, [SEED]);
    assert_eq!(backwards.members, forwards.members);
    assert!(!forwards.retired);
    assert_eq!(backwards.retired, forwards.retired);
    assert_eq!(backwards.last_signal, forwards.last_signal);
    assert_eq!(forwards.last_signal, Some(nanos_of("20260820T142400-000000000")));
}

#[test]
fn a_rejected_candidate_can_be_reconsidered() {
    let reject = about_idea("20260820T142100-000000000", EventKind::CandidateRejected, Some(LOOSE));
    let reconsider =
        about_idea("20260820T142200-000000000", EventKind::CandidateReconsidered, Some(LOOSE));

    assert_eq!(fold(vec![reject.clone()]).turned_down, [LOOSE]);
    assert!(fold(vec![reject.clone(), reconsider]).turned_down.is_empty());

    // A capture that is gone can no longer be suggested, so nothing stands
    // turned down for it.
    let gone = fold_idea(IDEA, &vec![SEED.to_owned()], &vec![reject], &known(&[SEED]));
    assert!(gone.turned_down.is_empty());
}

#[test]
fn retiring_reopening_and_promoting_fold_onto_the_thread() {
    let retire = about_idea("20260820T142100-000000000", EventKind::IdeaRetired, None);
    let reopen = about_idea("20260820T142200-000000000", EventKind::IdeaReopened, None);
    let promote = FoldEvent {
        page: Some("notes/dungeon-seeds".to_owned()),
        ..about_idea("20260820T142300-000000000", EventKind::IdeaPromoted, None)
    };

    assert!(fold(vec![retire.clone()]).retired);
    let folded = fold(vec![retire, reopen, promote]);
    assert!(!folded.retired);
    assert_eq!(folded.promoted_to.as_deref(), Some("notes/dungeon-seeds"));
    // Promotion is a signal, so it moves the clock forward.
    assert_eq!(folded.last_signal, Some(nanos_of("20260820T142300-000000000")));
}

#[test]
fn archiving_and_restoring_fold_to_the_latest_decision() {
    let archive = about_capture("20260820T142100-000000000", EventKind::CaptureArchived, SEED);
    let restore = about_capture("20260820T142200-000000000", EventKind::CaptureRestored, SEED);

    assert_eq!(fold_capture(SEED, &vec![], &known(&[SEED])).archived, None);
    assert_eq!(
        fold_capture(SEED, &vec![archive.clone()], &known(&[SEED])).archived,
        Some(true)
    );
    assert_eq!(
        fold_capture(SEED, &vec![restore, archive], &known(&[SEED])).archived,
        Some(false)
    );
}

#[test]
fn a_turned_down_pair_holds_until_reconsidered_and_while_both_exist() {
    let reject = about_pair("20260820T142100-000000000", EventKind::CandidateRejected, SEED, LOOSE);
    let reconsider =
        about_pair("20260820T142200-000000000", EventKind::CandidateReconsidered, SEED, LOOSE);
    let both = known(&[SEED, LOOSE]);

    let pairs = fold_capture(LOOSE, &vec![reject.clone()], &both).turned_down_pairs;
    assert_eq!(pairs, [(SEED.to_owned(), LOOSE.to_owned())]);
    assert!(fold_capture(SEED, &vec![reject.clone(), reconsider], &both)
        .turned_down_pairs
        .is_empty());
    assert!(fold_capture(SEED, &vec![reject], &known(&[SEED]))
        .turned_down_pairs
        .is_empty());
}

/// The thread's file says which captures it was started from, and that is
/// creation evidence rather than a claim about now.
#[test]
fn a_seed_can_be_disconnected() {
    let folded = fold(vec![about_idea(
        "20260820T142100-000000000",
        EventKind::CaptureDisconnected,
        Some(SEED),
    )]);
    assert!(folded.members.is_empty());
}
