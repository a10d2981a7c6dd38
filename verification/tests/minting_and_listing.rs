use std::path::Path;

use rhizolog::calendar::{days_before, earliest, is_instant, MAX_DAYS, MAX_SECONDS};
use rhizolog::ideas::analysis::{checked_counts, terms, terms_of_lowered, Corpus, Document};
use rhizolog::ideas::ids::{CaptureId, EventId, IdeaId};
use rhizolog::ideas::records::Owner;
use rhizolog::ideas::store::IdeaStore;
use rhizolog::index::ideas::{inbox_page, CaptureListOptions, CaptureRow};

const NANOS: i128 = 1_000_000_000;

fn at(text: &str) -> i128 {
    chrono::DateTime::parse_from_rfc3339(text)
        .expect("valid timestamp")
        .timestamp_nanos_opt()
        .expect("in range") as i128
}

fn capture(n: u32) -> CaptureId {
    CaptureId::parse(&format!("20260820T1415{n:02}-000000000")).expect("valid capture id")
}

fn document(capture: CaptureId, text: &str) -> Document {
    Document {
        capture,
        terms: checked_counts(text).expect("a short text"),
    }
}

fn row(id: &str, created: i64, archived: i64) -> CaptureRow {
    (id.to_owned(), created, created, 10, format!("body of {id}"), archived)
}

fn options() -> CaptureListOptions {
    CaptureListOptions {
        query: None,
        archived: None,
        from: None,
        to: None,
        limit: 50,
        offset: 0,
    }
}

fn ids(page: &[rhizolog::index::ideas::CaptureRecord]) -> Vec<&str> {
    page.iter().map(|record| record.id.as_str()).collect()
}

#[test]
fn every_instant_of_a_four_digit_year_mints_an_id() {
    let first = CaptureId::try_mint(-62_167_219_200 * NANOS, 0).expect("year 0");
    assert_eq!(first.as_str(), "00000101T000000-000000000");
    let last = IdeaId::try_mint(253_402_300_799 * NANOS + 999_999_999, 0).expect("year 9999");
    assert_eq!(last.as_str(), "99991231T235959-999999999");
    let epoch = EventId::try_mint(0, 7).expect("the epoch");
    assert_eq!(epoch.as_str(), "19700101T000000-000000007");
}

#[test]
fn an_instant_past_year_9999_mints_no_id() {
    assert!(CaptureId::try_mint(253_402_300_800 * NANOS, 0).is_none());
    assert!(CaptureId::try_mint(-62_167_219_201 * NANOS, 0).is_none());
}

#[test]
fn a_minted_id_names_the_instant_it_was_minted_for() {
    let instant = at("1999-12-31T23:59:59.000000001Z");
    let id = CaptureId::mint(instant, 0);
    assert_eq!(id.as_str(), "19991231T235959-000000001");
    assert_eq!(id.instant(), instant);
    let before_epoch = at("1969-07-20T20:17:40.5Z");
    assert_eq!(CaptureId::mint(before_epoch, 0).instant(), before_epoch);
}

#[test]
fn the_nudge_wraps_within_the_second() {
    let instant = at("2026-08-20T09:00:00.999999999Z");
    let id = EventId::mint(instant, 2);
    assert_eq!(id.as_str(), "20260820T090000-000000001");
    assert_eq!(id.instant(), at("2026-08-20T09:00:00.000000001Z"));
}

#[test]
fn paths_keep_the_root_they_are_joined_to() {
    let store = IdeaStore::at(Path::new("/wiki"));
    let capture = CaptureId::parse("20260820T141530-123456789").unwrap();
    assert_eq!(
        capture.to_path(store.tree(rhizolog::ideas::records::RecordKind::Capture)),
        Path::new("/wiki/.rhizolog/ideas/captures/2026-08/20260820T141530-123456789.md")
    );
    let idea = IdeaId::parse("20260820T142000-234567890").unwrap();
    assert_eq!(
        idea.to_path(Path::new("relative/threads")),
        Path::new("relative/threads/20260820T142000-234567890.md")
    );
}

#[test]
fn an_instant_is_recognised_by_its_range() {
    assert!(is_instant(earliest()));
    assert!(!is_instant(earliest() - 1));
    assert!(is_instant((MAX_SECONDS as i128 + 1) * NANOS - 1));
    assert!(!is_instant((MAX_SECONDS as i128 + 1) * NANOS));
}

#[test]
fn days_before_falls_back_to_the_earliest_instant() {
    let noon = at("2026-08-20T12:00:00Z");
    assert_eq!(days_before(noon, 14), at("2026-08-06T12:00:00Z"));
    assert_eq!(days_before(noon, 0), noon);
    assert_eq!(days_before(earliest() + 5, 1), earliest());
    assert_eq!(days_before(noon, MAX_DAYS), earliest());
    assert_eq!(days_before(noon, -1), at("2026-08-21T12:00:00Z"));
    let late = (MAX_SECONDS as i128) * NANOS;
    assert_eq!(days_before(late, -1), earliest());
}

#[test]
fn lowered_text_splits_where_its_flags_say() {
    let text = "dungeon seeds again";
    let flags: Vec<bool> = text.chars().map(char::is_alphanumeric).collect();
    assert_eq!(
        terms_of_lowered(text, &flags),
        ["dungeon", "seeds", "again", "dungeon seeds", "seeds again"]
    );
    assert_eq!(terms_of_lowered(text, &flags), terms("Dungeon seeds again"));
    let mut split_inside = flags.clone();
    split_inside[3] = false;
    assert_eq!(
        terms_of_lowered(text, &split_inside),
        ["dun", "eon", "seeds", "again", "dun eon", "eon seeds", "seeds again"]
    );
    let none = vec![false; text.chars().count()];
    assert!(terms_of_lowered(text, &none).is_empty());
}

#[test]
fn a_corpus_counts_documents_not_occurrences() {
    let corpus = Corpus::new(vec![
        document(capture(1), "seeds"),
        document(capture(2), "seeds dungeon seeds"),
        document(capture(3), "ferry"),
    ]);
    assert_eq!(corpus.frequency("seeds"), 2);
    assert_eq!(corpus.frequency("ferry"), 1);
    assert_eq!(corpus.frequency("unheard"), 0);
}

#[test]
fn a_corpus_counts_a_capture_given_twice_by_its_later_text() {
    let corpus = Corpus::new(vec![
        document(capture(1), "seeds"),
        document(capture(1), "ferry"),
    ]);
    assert_eq!(corpus.frequency("seeds"), 0);
    assert_eq!(corpus.frequency("ferry"), 1);
}

#[test]
fn the_inbox_is_newest_first_with_the_later_id_breaking_ties() {
    let rows = vec![
        row("20260820T141501-000000000", 100, 0),
        row("20260820T141503-000000000", 300, 0),
        row("20260820T141502-000000000", 300, 1),
        row("20260820T141504-000000000", 200, 0),
    ];
    let list = inbox_page(rows, &Owner::open(), &options());
    assert_eq!(list.total, 4);
    assert_eq!(
        ids(&list.captures),
        [
            "20260820T141503-000000000",
            "20260820T141502-000000000",
            "20260820T141504-000000000",
            "20260820T141501-000000000"
        ]
    );
    assert!(list.captures[1].archived);
    assert_eq!(list.captures[0].body, "body of 20260820T141503-000000000");
}

#[test]
fn the_inbox_filters_by_archive_and_window_of_time() {
    let rows = vec![
        row("20260820T141501-000000000", 100, 0),
        row("20260820T141502-000000000", 200, 1),
        row("20260820T141503-000000000", 300, 0),
        row("20260820T141504-000000000", 400, 0),
    ];
    let live = CaptureListOptions {
        archived: Some(false),
        ..options()
    };
    let list = inbox_page(rows.clone(), &Owner::open(), &live);
    assert_eq!(list.total, 3);
    assert_eq!(
        ids(&list.captures),
        ["20260820T141504-000000000", "20260820T141503-000000000", "20260820T141501-000000000"]
    );
    let archived = CaptureListOptions {
        archived: Some(true),
        ..options()
    };
    assert_eq!(ids(&inbox_page(rows.clone(), &Owner::open(), &archived).captures), ["20260820T141502-000000000"]);
    let between = CaptureListOptions {
        from: Some(200),
        to: Some(300),
        ..options()
    };
    let list = inbox_page(rows, &Owner::open(), &between);
    assert_eq!(list.total, 2);
    assert_eq!(
        ids(&list.captures),
        ["20260820T141503-000000000", "20260820T141502-000000000"]
    );
}

#[test]
fn the_inbox_pages_after_counting_and_drops_rows_that_are_not_ids() {
    let rows = vec![
        row("20260820T141501-000000000", 100, 0),
        row("not an id", 250, 0),
        row("20260820T141503-000000000", 300, 0),
        row("20260820T141504-000000000", 400, 0),
    ];
    let page = CaptureListOptions {
        limit: 2,
        offset: 1,
        ..options()
    };
    let list = inbox_page(rows.clone(), &Owner::open(), &page);
    assert_eq!(list.total, 4);
    assert_eq!(ids(&list.captures), ["20260820T141503-000000000"]);
    let past_the_end = CaptureListOptions {
        offset: 9,
        ..options()
    };
    let list = inbox_page(rows, &Owner::open(), &past_the_end);
    assert_eq!(list.total, 4);
    assert!(list.captures.is_empty());
}

#[test]
fn ids_that_sort_first_name_earlier_instants() {
    let ids = [
        "19991231T235959-999999999",
        "20000101T000000-000000000",
        "20000101T000000-000000001",
        "20000229T120000-000000000",
        "20000301T000000-000000000",
        "20261231T235959-000000000",
        "20270101T000000-000000000",
    ];
    for pair in ids.windows(2) {
        let first = CaptureId::parse(pair[0]).unwrap();
        let second = CaptureId::parse(pair[1]).unwrap();
        assert!(first.precedes(&second));
        assert!(first.instant() < second.instant(), "{} before {}", pair[0], pair[1]);
    }
}

#[test]
fn a_leap_second_names_the_second_before_it() {
    let ordinary = CaptureId::parse("20161231T235959-000000009").unwrap();
    let leap = CaptureId::parse("20161231T235960-000000001").unwrap();
    assert!(ordinary.precedes(&leap));
    assert!(leap.instant() < ordinary.instant());
}
