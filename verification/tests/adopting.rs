use rhizolog::ideas::files::{Capture, Event, Idea};
use rhizolog::ideas::ids::{CaptureId, EventId, IdeaId};
use rhizolog::ideas::records::{EventKind, Owner, Subject};
use rhizolog::ideas::store::{adopted_capture, adopted_event, adopted_idea, needs_adopting};
use rhizolog::users::Username;

fn tim() -> Owner {
    Owner::of(Username::new("tim".to_owned()))
}

fn ana() -> Owner {
    Owner::of(Username::new("ana".to_owned()))
}

fn capture(owner: Owner) -> Capture {
    Capture {
        id: CaptureId::parse("20260820T141530-123456789").unwrap(),
        created: 1_787_235_330_000_000_000,
        owner,
        body: "Dungeon seeds.\n".to_owned(),
        updated: 5,
        size: 15,
    }
}

fn idea(owner: Owner) -> Idea {
    Idea {
        id: IdeaId::parse("20260820T142000-234567890").unwrap(),
        name: "Dungeon seeds".to_owned(),
        created: 1_787_235_600_000_000_000,
        owner,
        seeds: vec![CaptureId::parse("20260820T141530-123456789").unwrap()],
        note: "Working notes.\n".to_owned(),
        updated: 6,
        size: 80,
    }
}

fn event(actor: Owner) -> Event {
    let idea = IdeaId::parse("20260820T142000-234567890").unwrap();
    Event {
        id: EventId::parse("20260820T142100-000000000").unwrap(),
        kind: EventKind::InterestAffirmed,
        subject: Subject::Idea { idea },
        created: 1_787_235_660_000_000_000,
        actor,
        updated: 7,
        size: 60,
    }
}

#[test]
fn an_unowned_capture_is_given_to_the_account_and_nothing_else_moves() {
    let draft = adopted_capture(capture(Owner::open()), &tim()).expect("adopted");

    assert_eq!(draft.owner, tim());
    assert_eq!(draft.created, 1_787_235_330_000_000_000);
    assert_eq!(draft.body, "Dungeon seeds.\n");
}

#[test]
fn an_owned_record_is_never_reattributed() {
    assert!(adopted_capture(capture(ana()), &tim()).is_none());
    assert!(adopted_idea(idea(ana()), &tim()).is_none());
    assert!(adopted_event(event(ana()), &tim()).is_none());
    assert!(!needs_adopting(&ana()));
    assert!(needs_adopting(&Owner::open()));
}

#[test]
fn an_unowned_idea_keeps_its_name_seeds_and_note() {
    let draft = adopted_idea(idea(Owner::open()), &tim()).expect("adopted");

    assert_eq!(draft.owner, tim());
    assert_eq!(draft.name, "Dungeon seeds");
    assert_eq!(draft.seeds, idea(Owner::open()).seeds);
    assert_eq!(draft.note, "Working notes.\n");
    assert_eq!(draft.created, 1_787_235_600_000_000_000);
}

#[test]
fn an_unattributed_event_is_attributed_and_keeps_what_it_decided() {
    let adopted = adopted_event(event(Owner::open()), &tim()).expect("adopted");

    assert_eq!(adopted.actor, tim());
    assert_eq!(adopted.kind, EventKind::InterestAffirmed);
    assert_eq!(adopted.created, 1_787_235_660_000_000_000);
    assert_eq!(adopted.subject, event(Owner::open()).subject);
}

#[test]
fn a_second_adoption_finds_nothing_to_do() {
    let first = adopted_capture(capture(Owner::open()), &tim()).expect("adopted");
    let again = Capture {
        owner: first.owner,
        ..capture(Owner::open())
    };

    assert!(adopted_capture(again, &tim()).is_none());
}
