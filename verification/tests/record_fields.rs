use rhizolog::frontmatter::{split, strip_bom};
use rhizolog::ideas::files::{
    Capture, CaptureFrontmatter, Event, EventFrontmatter, Idea, IdeaFrontmatter,
};
use rhizolog::ideas::ids::{CaptureId, EventId, IdeaId};
use rhizolog::ideas::records::{EventKind, Owner, RecordError, RecordKind, Subject};
use rhizolog::slug::Slug;
use rhizolog::users::Username;
use serde_yaml_ng::{Mapping, Value};

fn at(text: &str) -> i128 {
    chrono::DateTime::parse_from_rfc3339(text)
        .expect("valid timestamp")
        .timestamp_nanos_opt()
        .expect("in range") as i128
}

fn capture_id(raw: &str) -> CaptureId {
    CaptureId::parse(raw).expect("valid capture id")
}

fn idea_id(raw: &str) -> IdeaId {
    IdeaId::parse(raw).expect("valid idea id")
}

fn tim() -> Owner {
    Owner::of(Username::new("tim".to_owned()))
}

/// A file's frontmatter fields and its body, read the way the program reads
/// an authored file: the block found by the library, the YAML by serde.
fn read(text: &str) -> (Mapping, String) {
    let text = strip_bom(text);
    match split(&text).expect("a closed block") {
        Some((yaml, body)) => {
            let fields = if yaml.trim().is_empty() {
                Mapping::new()
            } else {
                serde_yaml_ng::from_str(&yaml).expect("yaml")
            };
            (fields, body)
        }
        None => (Mapping::new(), text),
    }
}

fn text_of(fields: &Mapping, key: &str) -> Option<String> {
    fields.get(key).and_then(Value::as_str).map(str::to_owned)
}

fn owner_of(fields: &Mapping, key: &str) -> Owner {
    match text_of(fields, key) {
        Some(name) => Owner::of(Username::new(name)),
        None => Owner::open(),
    }
}

fn capture(text: &str) -> Capture {
    let (fields, body) = read(text);
    Capture::from_fields(
        capture_id("20260820T141530-123456789"),
        CaptureFrontmatter {
            created: text_of(&fields, "created").map(|t| at(&t)),
            owner: owner_of(&fields, "owner"),
        },
        body,
        at("2026-08-20T16:00:00Z"),
        text.len() as u64,
    )
}

fn idea(text: &str) -> Result<Idea, RecordError> {
    let (fields, note) = read(text);
    let captures = match fields.get("captures") {
        Some(Value::Sequence(ids)) => ids
            .iter()
            .map(|id| capture_id(id.as_str().expect("an id")))
            .collect(),
        _ => Vec::new(),
    };
    Idea::from_fields(
        idea_id("20260820T142000-234567890"),
        IdeaFrontmatter {
            name: text_of(&fields, "name"),
            created: text_of(&fields, "created").map(|t| at(&t)),
            owner: owner_of(&fields, "owner"),
            captures,
        },
        note,
        at("2026-08-20T16:00:00Z"),
        text.len() as u64,
    )
}

fn event(text: &str) -> Result<Event, RecordError> {
    let (fields, _) = read(text);
    Event::from_fields(
        EventId::parse("20260820T142030-345678901").expect("valid event id"),
        EventFrontmatter {
            kind: text_of(&fields, "kind").map(|k| EventKind::parse(&k).expect("a kind")),
            created: text_of(&fields, "created").map(|t| at(&t)),
            actor: owner_of(&fields, "actor"),
            idea: text_of(&fields, "idea").map(|id| idea_id(&id)),
            capture: text_of(&fields, "capture").map(|id| capture_id(&id)),
            other_capture: text_of(&fields, "other_capture").map(|id| capture_id(&id)),
            page: text_of(&fields, "page").map(Slug::new),
        },
        at("2026-08-20T16:00:00Z"),
        text.len() as u64,
    )
}

#[test]
fn parses_a_capture() {
    let parsed = capture(
        "---\ncreated: 2026-08-20T14:15:30Z\nowner: tim\n---\n\nMaybe dungeon quests should require finding particular seeds.\n",
    );

    assert_eq!(parsed.created, at("2026-08-20T14:15:30Z"));
    assert_eq!(parsed.owner, tim());
    assert_eq!(
        parsed.body,
        "\nMaybe dungeon quests should require finding particular seeds.\n"
    );
    assert!(!parsed.is_blank());
}

#[test]
fn a_capture_with_no_frontmatter_is_still_a_capture() {
    let parsed = capture("Just a thought.\n");

    assert_eq!(parsed.body, "Just a thought.\n");
    assert!(parsed.owner.is_open());
    // Recovered exactly from the id, which was minted from it.
    assert_eq!(parsed.created, at("2026-08-20T14:15:30.123456789Z"));
}

#[test]
fn a_utf8_bom_does_not_hide_a_captures_frontmatter() {
    let parsed = capture("\u{feff}---\ncreated: 2026-08-20T14:15:30Z\nowner: tim\n---\n\nHi.\n");

    assert_eq!(parsed.owner, tim());
    assert_eq!(parsed.created, at("2026-08-20T14:15:30Z"));
}

#[test]
fn crlf_line_endings_parse() {
    let parsed = capture("---\r\ncreated: 2026-08-20T14:15:30Z\r\nowner: tim\r\n---\r\nHi.\r\n");

    assert_eq!(parsed.owner, tim());
    assert_eq!(parsed.body, "Hi.\r\n");
}

#[test]
fn a_blank_capture_is_recognisable_as_one() {
    assert!(capture("---\ncreated: 2026-08-20T14:15:30Z\n---\n\n   \n").is_blank());
}

#[test]
fn parses_an_idea() {
    let parsed = idea(
        "---\nname: Dungeon seeds\ncreated: 2026-08-20T14:20:00Z\nowner: tim\ncaptures:\n- 20260820T141530-123456789\n---\n\nWorking notes.\n",
    )
    .expect("idea should parse");

    assert_eq!(parsed.name, "Dungeon seeds");
    assert_eq!(parsed.created, at("2026-08-20T14:20:00Z"));
    assert_eq!(parsed.owner, tim());
    assert_eq!(parsed.seeds, [capture_id("20260820T141530-123456789")]);
    assert_eq!(parsed.note, "\nWorking notes.\n");
}

#[test]
fn an_idea_without_a_name_or_a_seed_is_refused() {
    let error = idea("---\ncaptures:\n- 20260820T141530-123456789\n---\n").expect_err("refused");
    assert!(matches!(error, RecordError::MissingField { .. }), "{error:?}");

    let error = idea("---\nname: Dungeon seeds\n---\n").expect_err("refused");
    assert!(matches!(error, RecordError::NoSeeds), "{error:?}");

    let error = idea("Just a note.\n").expect_err("refused");
    assert!(matches!(error, RecordError::MissingField { .. }), "{error:?}");
}

#[test]
fn a_repeated_seed_is_recorded_once() {
    let parsed = idea(
        "---\nname: Dungeon seeds\ncaptures:\n- 20260820T141530-123456789\n- 20260820T141530-123456789\n- 20260820T142000-000000000\n---\n",
    )
    .expect("idea should parse");

    assert_eq!(
        parsed.seeds,
        [
            capture_id("20260820T141530-123456789"),
            capture_id("20260820T142000-000000000"),
        ]
    );
}

#[test]
fn parses_every_reference_shape() {
    let connected = event(
        "---\nkind: capture_connected\ncreated: 2026-08-20T14:20:30Z\nactor: tim\nidea: 20260820T142000-234567890\ncapture: 20260820T141530-123456789\n---\n",
    )
    .expect("connect should parse");
    assert_eq!(connected.kind, EventKind::CaptureConnected);
    assert_eq!(
        connected.subject,
        Subject::IdeaCapture {
            idea: idea_id("20260820T142000-234567890"),
            capture: capture_id("20260820T141530-123456789"),
        }
    );
    assert_eq!(connected.actor, tim());

    let retired = event("---\nkind: idea_retired\nidea: 20260820T142000-234567890\n---\n")
        .expect("retire should parse");
    assert_eq!(
        retired.subject,
        Subject::Idea {
            idea: idea_id("20260820T142000-234567890")
        }
    );

    let archived =
        event("---\nkind: capture_archived\ncapture: 20260820T141530-123456789\n---\n")
            .expect("archive should parse");
    assert_eq!(
        archived.subject,
        Subject::Capture {
            capture: capture_id("20260820T141530-123456789")
        }
    );

    let promoted = event(
        "---\nkind: idea_promoted\nidea: 20260820T142000-234567890\npage: notes/dungeon-seeds\n---\n",
    )
    .expect("promote should parse");
    assert_eq!(
        promoted.subject,
        Subject::Promotion {
            idea: idea_id("20260820T142000-234567890"),
            page: Slug::new("notes/dungeon-seeds".to_owned()),
        }
    );
}

#[test]
fn a_candidate_rejection_takes_either_shape() {
    let against_idea = event(
        "---\nkind: candidate_rejected\nidea: 20260820T142000-234567890\ncapture: 20260820T141530-123456789\n---\n",
    )
    .expect("idea candidate should parse");
    assert!(matches!(against_idea.subject, Subject::IdeaCapture { .. }));

    let against_capture = event(
        "---\nkind: candidate_rejected\ncapture: 20260820T141530-123456789\nother_capture: 20260820T142000-000000000\n---\n",
    )
    .expect("capture pair should parse");
    assert!(matches!(
        against_capture.subject,
        Subject::CapturePair { .. }
    ));

    let neither =
        event("---\nkind: candidate_rejected\ncapture: 20260820T141530-123456789\n---\n")
            .expect_err("refused");
    assert!(
        matches!(neither, RecordError::CandidateShape { .. }),
        "{neither:?}"
    );
}

#[test]
fn a_capture_cannot_be_paired_with_itself() {
    let error = event(
        "---\nkind: candidate_rejected\ncapture: 20260820T141530-123456789\nother_capture: 20260820T141530-123456789\n---\n",
    )
    .expect_err("refused");

    assert!(matches!(error, RecordError::SelfPair), "{error:?}");
}

#[test]
fn a_reference_the_kind_does_not_take_is_refused() {
    let error = event(
        "---\nkind: idea_retired\nidea: 20260820T142000-234567890\ncapture: 20260820T141530-123456789\n---\n",
    )
    .expect_err("refused");
    assert!(
        matches!(
            error,
            RecordError::UnexpectedReference {
                field: "capture",
                ..
            }
        ),
        "{error:?}"
    );

    let error = event(
        "---\nkind: capture_connected\nidea: 20260820T142000-234567890\ncapture: 20260820T141530-123456789\npage: notes/anything\n---\n",
    )
    .expect_err("refused");
    assert!(
        matches!(
            error,
            RecordError::UnexpectedReference { field: "page", .. }
        ),
        "{error:?}"
    );
}

#[test]
fn a_reference_the_kind_needs_is_named_when_it_is_missing() {
    let error =
        event("---\nkind: capture_connected\ncapture: 20260820T141530-123456789\n---\n")
            .expect_err("refused");
    assert!(
        matches!(error, RecordError::MissingReference { field: "idea", .. }),
        "{error:?}"
    );

    let error = event("---\nkind: idea_promoted\nidea: 20260820T142000-234567890\n---\n")
        .expect_err("refused");
    assert!(
        matches!(error, RecordError::MissingReference { field: "page", .. }),
        "{error:?}"
    );
}

#[test]
fn an_event_without_a_kind_is_refused() {
    let error = event("---\nidea: 20260820T142000-234567890\n---\n").expect_err("refused");
    assert!(
        matches!(
            error,
            RecordError::MissingField {
                record: RecordKind::Event,
                field: "kind"
            }
        ),
        "{error:?}"
    );
}

#[test]
fn an_event_may_not_disagree_with_its_own_id() {
    let error = event(
        "---\nkind: idea_retired\ncreated: 2026-08-20T14:20:31Z\nidea: 20260820T142000-234567890\n---\n",
    )
    .expect_err("refused");

    assert!(
        matches!(error, RecordError::IdDisagreement { .. }),
        "{error:?}"
    );
    assert!(format!("{error:?}").contains("20260820T142030"), "{error:?}");
}

#[test]
fn an_event_with_no_created_takes_the_instant_from_its_id() {
    let parsed = event("---\nkind: idea_retired\nidea: 20260820T142000-234567890\n---\n")
        .expect("parse");

    assert_eq!(parsed.created, at("2026-08-20T14:20:30.345678901Z"));
}
