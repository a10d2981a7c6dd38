use rhizolog::ideas::adoption::{plan, Adoption, Plan};
use rhizolog::ideas::ids::CaptureId;
use rhizolog::ideas::records::{EventKind, Owner, RecordKind, Subject};
use rhizolog::ideas::service::{
    check_capture_text, check_idea_name, check_new_name, check_seeds, IdeaServiceError,
};
use rhizolog::ideas::store::{EventDraft, IdeaStoreError};
use rhizolog::index::ideas::{
    idea_state_from, owner_column, parse_captures, split_membership, FoldedRow, IdeaHold,
    IdeaSummary, ThreadRow,
};
use rhizolog::ideas::ids::IdeaId;
use rhizolog::users::Username;

fn capture_id(raw: &str) -> CaptureId {
    CaptureId::parse(raw).expect("valid capture id")
}

fn name(raw: &str) -> Username {
    Username::new(raw.to_owned())
}

#[test]
fn adoption_waits_for_accounts_and_refuses_to_guess() {
    assert_eq!(plan(&vec![], 3, 1, 2), Plan::Done(Adoption::NotNeeded));
    assert_eq!(plan(&vec![name("tim")], 0, 0, 0), Plan::Done(Adoption::NothingToAdopt));
    assert_eq!(plan(&vec![name("tim")], 3, 1, 2), Plan::AdoptFor(name("tim")));
    assert_eq!(
        plan(&vec![name("tim"), name("ana")], 3, 1, 2),
        Plan::Done(Adoption::Ambiguous {
            accounts: 2,
            records: 6
        })
    );
    assert!(!Adoption::NothingToAdopt.adopted_anything());
    assert!(Adoption::Adopted {
        owner: name("tim"),
        captures: 1,
        ideas: 0,
        events: 0
    }
    .adopted_anything());
}

#[test]
fn a_capture_needs_some_text() {
    assert!(check_capture_text("a thought").is_ok());
    assert!(matches!(
        check_capture_text(" \n\t "),
        Err(IdeaServiceError::EmptyCapture)
    ));
    assert_eq!(check_capture_text("").unwrap_err().code(), "capture_empty");
}

#[test]
fn an_idea_name_is_trimmed_and_needed() {
    assert_eq!(check_idea_name("  Dungeon seeds \n").unwrap(), "Dungeon seeds");
    assert_eq!(check_idea_name("   ").unwrap_err().code(), "idea_name_empty");
    assert_eq!(check_new_name(None).unwrap(), None);
    assert_eq!(check_new_name(Some(" x ")).unwrap(), Some("x".to_owned()));
    assert!(check_new_name(Some("\t")).is_err());
}

#[test]
fn seeds_are_each_taken_once_and_there_must_be_some() {
    let a = capture_id("20260820T141530-123456789");
    let b = capture_id("20260820T142000-000000000");
    let kept = check_seeds(&[a.clone(), b.clone(), a.clone()]).unwrap();
    assert_eq!(kept, [a, b]);

    let error = check_seeds(&[]).unwrap_err();
    assert_eq!(error.code(), "idea_no_seeds");
}

#[test]
fn too_many_seeds_are_refused_with_their_count() {
    let seeds: Vec<CaptureId> = (0..201)
        .map(|n| capture_id(&format!("20260820T14{:02}{:02}-000000000", n / 60, n % 60)))
        .collect();
    match check_seeds(&seeds) {
        Err(IdeaServiceError::TooManySeeds { count }) => assert_eq!(count, 201),
        other => panic!("expected too many seeds, got {other:?}"),
    }
}

#[test]
fn store_failures_name_their_record_kind() {
    assert_eq!(
        IdeaStoreError::not_found(RecordKind::Capture, "x").code(),
        "capture_not_found"
    );
    assert_eq!(
        IdeaStoreError::not_utf8(RecordKind::Event, "x").code(),
        "idea_event_not_utf8"
    );
    assert_eq!(
        IdeaStoreError::NoFreeId {
            kind: RecordKind::Idea,
            at: 0
        }
        .code(),
        "idea_id_exhausted"
    );
    assert_eq!(IdeaStoreError::not_found(RecordKind::Idea, "abc").id(), Some("abc"));
    assert_eq!(
        IdeaServiceError::Store(IdeaStoreError::not_found(RecordKind::Idea, "abc")).code(),
        "idea_not_found"
    );
}

#[test]
fn a_draft_that_does_not_match_its_kind_cannot_be_built() {
    let idea = IdeaId::parse("20260820T142000-234567890").unwrap();
    assert!(EventDraft::new(
        EventKind::CaptureConnected,
        Subject::Idea { idea: idea.clone() },
        0,
        Owner::open()
    )
    .is_err());
    let draft = EventDraft::new(EventKind::IdeaRetired, Subject::Idea { idea }, 7, Owner::open())
        .expect("an idea event about an idea");
    assert_eq!(draft.kind(), EventKind::IdeaRetired);
    assert_eq!(draft.created(), 7);
    assert!(draft.actor().is_open());
}

#[test]
fn membership_splits_live_from_missing_and_skips_what_is_not_an_id() {
    let rows = vec![
        ("20260820T141530-123456789".to_owned(), true),
        ("garbage".to_owned(), true),
        ("20260820T142000-000000000".to_owned(), false),
    ];
    let (members, missing) = split_membership(&rows);
    assert_eq!(members, [capture_id("20260820T141530-123456789")]);
    assert_eq!(missing, [capture_id("20260820T142000-000000000")]);
    assert_eq!(
        parse_captures(&vec!["nope".to_owned(), "20260820T141530-123456789".to_owned()]),
        [capture_id("20260820T141530-123456789")]
    );
}

#[test]
fn an_idea_the_fold_never_touched_is_neither_retired_nor_promoted() {
    let idea = IdeaId::parse("20260820T142000-234567890").unwrap();
    let state = idea_state_from(
        idea.clone(),
        Owner::open(),
        ThreadRow {
            name: "Seeds".to_owned(),
            created: 10,
            updated: 20,
            size: 30,
        },
        &vec![],
        &vec![],
        None,
    );
    assert!(!state.retired);
    assert_eq!(state.promoted_to, None);
    assert_eq!(state.last_signal, None);
    assert!(state.evidence_missing());
    assert_eq!((state.created, state.updated, state.size), (10, 20, 30));

    let folded = idea_state_from(
        idea,
        Owner::open(),
        ThreadRow {
            name: "Seeds".to_owned(),
            created: 10,
            updated: 20,
            size: 30,
        },
        &vec![("20260820T141530-123456789".to_owned(), true)],
        &vec![],
        Some(FoldedRow {
            retired: 1,
            promoted_to: Some("notes/seeds".to_owned()),
            last_signal: Some(15),
        }),
    );
    assert!(folded.retired);
    assert_eq!(folded.promoted_to.as_ref().map(|s| s.as_str()), Some("notes/seeds"));
    assert_eq!(folded.last_signal, Some(15));
    assert!(!folded.evidence_missing());
}

#[test]
fn the_last_live_capture_of_a_live_idea_cannot_go() {
    let idea = IdeaId::parse("20260820T142000-234567890").unwrap();
    let hold = |retired, members| IdeaHold {
        id: idea.clone(),
        name: "Seeds".to_owned(),
        retired,
        members,
    };
    assert!(hold(false, 1).depends_on_it());
    assert!(!hold(false, 2).depends_on_it());
    assert!(!hold(true, 1).depends_on_it());
    let summary = IdeaSummary {
        id: idea.clone(),
        name: "Seeds".to_owned(),
        created: 0,
        members: 0,
        missing: 2,
        retired: false,
        promoted_to: None,
        last_signal: None,
        updated: 0,
    };
    assert!(summary.evidence_missing());
}

#[test]
fn the_open_user_is_a_null_owner() {
    assert_eq!(owner_column(&Owner::open()), None);
    assert_eq!(owner_column(&Owner::of(name("tim"))), Some("tim".to_owned()));
}

#[test]
fn a_draft_puts_a_capture_pair_in_canonical_order() {
    let first = CaptureId::parse("20260820T141530-123456789").unwrap();
    let second = CaptureId::parse("20260820T142000-000000000").unwrap();
    let created = chrono::DateTime::parse_from_rfc3339("2026-08-20T14:20:30Z")
        .expect("valid timestamp")
        .timestamp_nanos_opt()
        .expect("in range") as i128;

    let draft = EventDraft::new(
        EventKind::CandidateRejected,
        Subject::CapturePair {
            capture: second.clone(),
            other: first.clone(),
        },
        created,
        Owner::open(),
    )
    .expect("draft");

    assert_eq!(
        draft.subject(),
        &Subject::CapturePair {
            capture: first,
            other: second
        }
    );
}
