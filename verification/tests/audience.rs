use rhizolog::index::audience::{visible_as, Audience, VISIBLE};
use rhizolog::users::Username;

fn name(raw: &str) -> Username {
    Username::new(raw.to_owned())
}

#[test]
fn the_aliased_form_rewrites_every_reference() {
    let aliased = visible_as("target");

    assert!(!aliased.contains("pages.visibility"));
    assert!(!aliased.contains("pages.owner"));
    assert!(aliased.contains("target.visibility"));
    assert!(aliased.contains("target.owner"));
    assert!(aliased.contains("page_readers.slug = target.slug"));
}

#[test]
fn an_open_wiki_is_signed_in_and_an_anonymous_caller_is_not() {
    assert!(Audience::Everything.is_signed_in());
    assert!(Audience::Account(name("tim")).is_signed_in());
    assert!(!Audience::Public.is_signed_in());
}

#[test]
fn the_bindings_follow_the_audience() {
    assert_eq!(Audience::Everything.params(), (1, None));
    assert_eq!(Audience::Public.params(), (0, None));
    assert_eq!(
        Audience::Account(name("tim")).params(),
        (0, Some("tim".to_owned()))
    );
}

#[test]
fn the_aliased_form_is_the_predicate_with_every_table_name_replaced() {
    assert_eq!(visible_as("pages"), VISIBLE);
    assert_eq!(visible_as("target"), VISIBLE.replace("pages.", "target."));
}
