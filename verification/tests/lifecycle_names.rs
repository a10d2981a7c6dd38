use rhizolog::ideas::lifecycle::{Integrity, Lifecycle};

#[test]
fn every_state_and_integrity_name_round_trips() {
    for name in Lifecycle::NAMES {
        assert_eq!(Lifecycle::parse(name).map(Lifecycle::as_str), Some(name));
    }
    for name in Integrity::NAMES {
        assert_eq!(Integrity::parse(name).map(Integrity::as_str), Some(name));
    }
    assert_eq!(Lifecycle::parse("dormantish"), None);
    assert_eq!(Integrity::parse("broken"), None);
}
