use rhizolog::ideas::ids::CaptureId;
use rhizolog::ideas::records::EventKind;
use rhizolog::slug::slug_shaped;
use rhizolog::text::trim;

const KINDS: [EventKind; 12] = [
    EventKind::CaptureConnected,
    EventKind::CaptureDisconnected,
    EventKind::CandidateRejected,
    EventKind::CandidateReconsidered,
    EventKind::InterestAffirmed,
    EventKind::CaptureArchived,
    EventKind::CaptureRestored,
    EventKind::CaptureDeleted,
    EventKind::IdeaRetired,
    EventKind::IdeaReopened,
    EventKind::IdeaPromoted,
    EventKind::RediscoveryDismissed,
];

#[test]
fn every_event_kind_reads_back_from_its_spelling() {
    for kind in KINDS {
        assert_eq!(EventKind::parse(kind.as_str()), Some(kind));
    }
    assert_eq!(EventKind::parse("Capture_Connected"), None);
    assert_eq!(EventKind::parse("capture_connected "), None);
    assert_eq!(EventKind::parse(""), None);
}

#[test]
fn a_slug_is_relative_and_its_segments_are_names() {
    for good in ["notes", "notes/rust", "a/b.c/..d", ".hidden/x"] {
        assert!(slug_shaped(good), "{good}");
    }
    for bad in ["", "/notes", "notes/", "a//b", "./a", "a/.", "a/../b", "..", "a\\b"] {
        assert!(!slug_shaped(bad), "{bad}");
    }
}

#[test]
fn an_id_names_a_real_calendar_date() {
    assert!(CaptureId::parse("20240229T120000-000000000").is_ok());
    assert!(CaptureId::parse("20260229T120000-000000000").is_err());
    assert!(CaptureId::parse("21000229T120000-000000000").is_err());
    assert!(CaptureId::parse("20000229T120000-000000000").is_ok());
    assert!(CaptureId::parse("20261301T120000-000000000").is_err());
    assert!(CaptureId::parse("20260820T240000-000000000").is_err());
}

#[test]
fn a_leap_second_reads_as_the_second_before_it() {
    let leap = CaptureId::parse("20261231T235960-000000000").expect("a leap second");
    let before = CaptureId::parse("20261231T235959-000000000").expect("a second");
    assert_eq!(leap.instant(), before.instant());
}

#[test]
fn unicode_spaces_are_whitespace() {
    assert_eq!(trim("\u{3000}\u{2003}word\u{00a0}\u{2028}"), "word");
    assert_eq!(trim("\u{200b}word"), "\u{200b}word");
}
