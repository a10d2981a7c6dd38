use std::path::Path;

use rhizolog::ideas::ids::{CaptureId, EventId, IdError, IdeaId};
use rhizolog::ideas::records::{EventKind, Owner, RecordError, Subject};
use rhizolog::ideas::store::{CAPTURES_DIR, EVENTS_DIR, THREADS_DIR};
use rhizolog::users::Username;

fn capture_id(raw: &str) -> CaptureId {
    CaptureId::parse(raw).expect("valid capture id")
}

fn idea_id(raw: &str) -> IdeaId {
    IdeaId::parse(raw).expect("valid idea id")
}

fn event_id(raw: &str) -> EventId {
    EventId::parse(raw).expect("valid event id")
}

fn tim() -> Owner {
    Owner::of(Username::new("tim".to_owned()))
}

#[test]
fn ids_sort_chronologically_as_text() {
    let mut ids = [
        event_id("20260820T142030-345678901"),
        event_id("20250101T000000-000000000"),
        event_id("20260820T142030-345678902"),
    ];
    ids.sort();

    assert_eq!(
        ids.map(|id| id.as_str().to_owned()),
        [
            "20250101T000000-000000000",
            "20260820T142030-345678901",
            "20260820T142030-345678902",
        ]
    );
}

#[test]
fn rejects_anything_that_is_not_exactly_an_id() {
    for raw in [
        "",
        "20260820T141530",
        "20260820T141530-12345678",
        "20260820T141530-1234567890",
        "../../../../../../etc/passwd",
        "20260820X141530-123456789",
        "20260820T141530_123456789",
        "2026082aT141530-123456789",
        "20260820T141530-12345678a",
        "20260820T141530-12345678\u{e9}",
    ] {
        assert!(CaptureId::parse(raw).is_err(), "{raw:?} was accepted");
        assert!(IdeaId::parse(raw).is_err(), "{raw:?} was accepted");
        assert!(EventId::parse(raw).is_err(), "{raw:?} was accepted");
    }

    assert!(matches!(
        CaptureId::parse("20261340T141530-123456789"),
        Err(IdError::Timestamp { .. })
    ));
    assert!(matches!(
        CaptureId::parse("20260820T256130-123456789"),
        Err(IdError::Timestamp { .. })
    ));
}

#[test]
fn a_refusal_says_which_kind_of_id_it_wanted() {
    let error = IdeaId::parse("nope").expect_err("refused");
    assert!(error.message().starts_with("idea ids are"), "{}", error.message());

    let error = EventId::parse("20260820X141530-123456789").expect_err("refused");
    assert!(
        error.message().starts_with("event ids may only"),
        "{}",
        error.message()
    );
}

#[test]
fn captures_and_events_are_filed_by_month_and_threads_are_not() {
    let root = Path::new("/wiki/.rhizolog/ideas");

    assert_eq!(
        capture_id("20260820T141530-123456789").to_path(&root.join(CAPTURES_DIR)),
        Path::new("/wiki/.rhizolog/ideas/captures/2026-08/20260820T141530-123456789.md")
    );
    assert_eq!(
        event_id("20260820T142030-345678901").to_path(&root.join(EVENTS_DIR)),
        Path::new("/wiki/.rhizolog/ideas/events/2026-08/20260820T142030-345678901.md")
    );
    assert_eq!(
        idea_id("20260820T142000-234567890").to_path(&root.join(THREADS_DIR)),
        Path::new("/wiki/.rhizolog/ideas/threads/20260820T142000-234567890.md")
    );
}

#[test]
fn ids_round_trip_through_a_relative_path() {
    let capture = capture_id("20260820T141530-123456789");
    assert_eq!(
        CaptureId::from_relative_path(&capture.to_path(Path::new(""))),
        Some(capture)
    );

    let idea = idea_id("20260820T142000-234567890");
    assert_eq!(
        IdeaId::from_relative_path(&idea.to_path(Path::new(""))),
        Some(idea)
    );

    let event = event_id("20260820T142030-345678901");
    assert_eq!(
        EventId::from_relative_path(&event.to_path(Path::new(""))),
        Some(event)
    );
}

#[test]
fn ignores_paths_that_are_not_records() {
    for path in [
        "2026-08/notes.md",
        "20260820T141530-123456789.md",
        "2026-08/20260820T141530-123456789.txt",
        "2026-08/sub/20260820T141530-123456789.md",
        "2026-07/20260820T141530-123456789.md",
    ] {
        assert_eq!(
            CaptureId::from_relative_path(Path::new(path)),
            None,
            "{path}"
        );
    }

    for path in [
        "notes.md",
        "2026-08/20260820T142000-234567890.md",
        "20260820T142000-234567890.txt",
    ] {
        assert_eq!(IdeaId::from_relative_path(Path::new(path)), None, "{path}");
    }
}

#[test]
fn a_capture_pair_is_held_in_lexical_order() {
    let first = capture_id("20260820T141530-123456789");
    let second = capture_id("20260820T142000-000000000");

    let forwards = Subject::pair(first.clone(), second.clone());
    let backwards = Subject::pair(second.clone(), first.clone());

    assert_eq!(forwards, backwards);
    assert_eq!(
        forwards,
        Subject::CapturePair {
            capture: first,
            other: second
        }
    );
}

#[test]
fn checking_a_subject_against_a_kind_uses_the_readers_rules() {
    let idea = idea_id("20260820T142000-234567890");
    let capture = capture_id("20260820T141530-123456789");

    assert!(
        Subject::Idea { idea: idea.clone() }
            .checked_for(EventKind::IdeaRetired)
            .is_ok()
    );

    let error = Subject::Idea { idea: idea.clone() }
        .checked_for(EventKind::CaptureConnected)
        .expect_err("refused");
    assert!(
        matches!(
            error,
            RecordError::MissingReference {
                field: "capture",
                ..
            }
        ),
        "{error:?}"
    );

    let error = Subject::IdeaCapture { idea, capture }
        .checked_for(EventKind::CaptureArchived)
        .expect_err("refused");
    assert!(
        matches!(
            error,
            RecordError::UnexpectedReference { field: "idea", .. }
        ),
        "{error:?}"
    );
}

#[test]
fn an_owner_prints_as_a_name_or_as_the_one_open_user() {
    assert_eq!(tim().to_display(), "tim");
    assert_eq!(Owner::open().to_display(), "the open user");
    assert!(Owner::open().is_open());
    assert!(!tim().is_open());
    assert_ne!(tim(), Owner::open());
}

#[test]
fn a_wrong_length_names_the_length_it_got() {
    let error = CaptureId::parse("2026").expect_err("refused");
    assert_eq!(
        error,
        IdError::Length {
            kind: "capture",
            length: 4
        }
    );
    assert_eq!(
        error.message(),
        "capture ids are 25 characters like `20260820T141530-123456789`, not 4"
    );
}

#[test]
fn a_stamp_that_is_not_a_date_is_quoted() {
    let error = IdeaId::parse("20261340T141530-123456789").expect_err("refused");
    assert_eq!(error.message(), "`20261340T141530` is not a real date and time");
}

fn at(text: &str) -> i128 {
    chrono::DateTime::parse_from_rfc3339(text)
        .expect("valid timestamp")
        .timestamp_nanos_opt()
        .expect("in range") as i128
}

#[test]
fn ids_are_minted_from_the_instant_they_record() {
    let minted = CaptureId::mint(at("2026-08-20T14:15:30.123456789Z"), 0);

    assert_eq!(minted.as_str(), "20260820T141530-123456789");
    assert_eq!(minted.stamp(), "20260820T141530");
    assert_eq!(minted.month(), "2026-08");
    assert_eq!(minted.instant(), at("2026-08-20T14:15:30.123456789Z"));
}

/// A hand-written `created` is whole seconds, so two records made for the same
/// second must not name the same file.
#[test]
fn the_nudge_separates_two_records_at_the_same_instant() {
    let created = at("2026-08-20T09:00:00Z");

    assert_eq!(
        EventId::mint(created, 0).as_str(),
        "20260820T090000-000000000"
    );
    assert_eq!(
        EventId::mint(created, 1).as_str(),
        "20260820T090000-000000001"
    );
}
