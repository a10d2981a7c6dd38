use rhizolog::ideas::files::{Capture, Idea};
use rhizolog::ideas::ids::{CaptureId, IdeaId};
use rhizolog::ideas::records::Owner;
use rhizolog::ideas::store::{patched_capture, patched_idea};

fn idea() -> Idea {
    Idea {
        id: IdeaId::parse("20260820T141530-000000001").unwrap(),
        name: "Dungeon seeds".to_owned(),
        created: 42,
        owner: Owner::open(),
        seeds: vec![CaptureId::parse("20260820T141530-000000002").unwrap()],
        note: "Old note".to_owned(),
        updated: 50,
        size: 10,
    }
}

#[test]
fn a_rename_keeps_the_note_the_seeds_and_the_origin() {
    let draft = patched_idea(idea(), Some("Caves"), None);
    assert_eq!(draft.name, "Caves");
    assert_eq!(draft.note, "Old note");
    assert_eq!(draft.created, 42);
    assert_eq!(draft.seeds.len(), 1);
    assert_eq!(draft.seeds[0].as_str(), "20260820T141530-000000002");
}

#[test]
fn a_note_edit_keeps_the_name() {
    let draft = patched_idea(idea(), None, Some("New note"));
    assert_eq!(draft.name, "Dungeon seeds");
    assert_eq!(draft.note, "New note");
}

#[test]
fn a_corrected_capture_keeps_its_timestamp_and_owner() {
    let capture = Capture {
        id: CaptureId::parse("20260820T141530-000000002").unwrap(),
        created: 7,
        owner: Owner::open(),
        body: "typo".to_owned(),
        updated: 9,
        size: 4,
    };
    let draft = patched_capture(capture, "fixed");
    assert_eq!(draft.created, 7);
    assert_eq!(draft.body, "fixed");
    assert!(draft.owner.is_open());
}
