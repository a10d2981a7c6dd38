use rhizolog::ideas::analysis::{checked_counts, eligible, Corpus, Document, Field, Thread};
use rhizolog::ideas::ids::{CaptureId, IdeaId};
use rhizolog::index::ideas::{capture_bindings, capture_records, CaptureListOptions};
use rhizolog::index::pins::{check_session, Pin, SessionCheck};
use rhizolog::index::IndexError;
use rhizolog::ideas::records::Owner;
use rhizolog::slug::Slug;

fn capture(n: u32) -> CaptureId {
    CaptureId::parse(&format!("20260820T1415{n:02}-000000000")).expect("valid capture id")
}

fn idea(n: u32) -> IdeaId {
    IdeaId::parse(&format!("20260820T1420{n:02}-000000000")).expect("valid idea id")
}

fn document(capture: CaptureId, text: &str) -> Document {
    Document {
        capture,
        terms: checked_counts(text).expect("a short text"),
    }
}

fn field() -> Field {
    Field {
        corpus: Corpus::new(vec![
            document(capture(1), "dungeon seeds"),
            document(capture(2), "dungeon seeds again"),
            document(capture(3), "ferry timetable"),
            document(capture(4), "seed vault"),
        ]),
        threads: vec![
            Thread {
                id: idea(1),
                name: "Dungeon seeds".to_owned(),
                retired: false,
                members: vec![capture(2)],
            },
            Thread {
                id: idea(2),
                name: "Old".to_owned(),
                retired: true,
                members: vec![capture(3)],
            },
            Thread {
                id: idea(3),
                name: "Turned down".to_owned(),
                retired: false,
                members: vec![capture(4)],
            },
        ],
        rejected_candidates: vec![(idea(3), capture(1))],
        rejected_pairs: vec![(capture(1), capture(4))],
    }
}

#[test]
fn candidates_come_from_live_threads_and_loose_captures() {
    let allowed = eligible(&field(), &capture(1));
    // The retired thread and the turned-down one are left out.
    assert_eq!(allowed.threads, [0]);
    // capture 2 and 4 are threaded, capture 3 belongs only to a retired thread.
    assert_eq!(allowed.captures, [capture(3)]);
}

#[test]
fn a_capture_already_in_a_thread_is_not_suggested_for_it() {
    let allowed = eligible(&field(), &capture(2));
    assert!(allowed.threads.iter().all(|&i| i != 0));
    assert_eq!(allowed.threads, [2]);
    assert_eq!(allowed.captures, [capture(1), capture(3)]);
}

#[test]
fn a_listing_binds_its_window_and_search() {
    let bound = capture_bindings(CaptureListOptions {
        query: Some("seeds*".to_owned()),
        archived: Some(false),
        from: Some(5),
        to: None,
        limit: 20,
        offset: 40,
    })
    .unwrap();
    assert_eq!(bound.query, Some("\"seeds\"*".to_owned()));
    assert_eq!(bound.archived, Some(0));
    assert_eq!((bound.from, bound.to), (Some(5), None));
    assert_eq!((bound.limit, bound.offset), (20, 40));

    let everything = capture_bindings(CaptureListOptions {
        query: Some("   ".to_owned()),
        ..CaptureListOptions::default()
    })
    .unwrap();
    assert_eq!(everything.query, None);

    assert!(matches!(
        capture_bindings(CaptureListOptions {
            to: Some(i64::MAX as i128 + 1),
            ..CaptureListOptions::default()
        }),
        Err(IndexError::TimestampOutOfRange { label: "to" })
    ));
}

#[test]
fn a_listing_row_that_is_not_an_id_is_dropped() {
    let rows = vec![
        ("20260820T141501-000000000".to_owned(), 1, 2, 3, "a".to_owned(), 0),
        ("nonsense".to_owned(), 1, 2, 3, "b".to_owned(), 1),
        ("20260820T141502-000000000".to_owned(), 4, 5, 6, "c".to_owned(), 1),
    ];
    let records = capture_records(rows, &Owner::open());
    assert_eq!(records.len(), 2);
    assert_eq!(records[0].id, capture(1));
    assert_eq!(records[1].body, "c");
    assert!(records[1].archived);
    assert_eq!((records[1].created, records[1].updated, records[1].size), (4, 5, 6));
}

#[test]
fn a_session_holds_until_it_expires() {
    assert_eq!(check_session(None, 10), SessionCheck::Unknown);
    assert_eq!(
        check_session(Some(("tim".to_owned(), 1, 10)), 10),
        SessionCheck::Expired
    );
    match check_session(Some(("tim".to_owned(), 1, 11)), 10) {
        SessionCheck::Current(session) => {
            assert_eq!(session.username.as_str(), "tim");
            assert_eq!((session.created, session.expires), (1, 11));
        }
        other => panic!("expected a current session, got {other:?}"),
    }
}

#[test]
fn a_pin_without_a_title_has_no_page_behind_it() {
    let pin = Pin {
        slug: Slug::new("notes/a".to_owned()),
        title: None,
        pinned_at: 0,
    };
    assert!(!pin.has_page());
    assert!(Pin {
        title: Some("A".to_owned()),
        ..pin
    }
    .has_page());
}

#[test]
fn minting_gives_the_id_an_instant_names() {
    let at = 1_755_699_330_123_456_789i128;
    let id = CaptureId::try_mint(at, 0).expect("a real instant");
    assert_eq!(id.as_str(), "20250820T141530-123456789");
    assert_eq!(id.instant(), at);
    let nudged = CaptureId::try_mint(at, 1).expect("a real instant");
    assert_eq!(nudged.as_str(), "20250820T141530-123456790");
}
