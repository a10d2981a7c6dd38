use rhizolog::ideas::analysis::{canonical, checked_counts, counts, terms};
use rhizolog::ideas::ids::CaptureId;
use rhizolog::ideas::records::Subject;

fn capture_id(raw: &str) -> CaptureId {
    CaptureId::parse(raw).expect("valid capture id")
}

fn capture(n: u32) -> CaptureId {
    capture_id(&format!("20260820T1415{n:02}-000000000"))
}

#[test]
fn tokenizes_into_unigrams_then_adjacent_bigrams() {
    assert_eq!(
        terms("Dungeon seeds again"),
        ["dungeon", "seeds", "again", "dungeon seeds", "seeds again"]
    );
}

#[test]
fn splits_on_everything_that_is_not_alphanumeric() {
    assert_eq!(
        terms("Rust-lang, don't!"),
        ["rust", "lang", "don", "t", "rust lang", "lang don", "don t"]
    );
    assert_eq!(
        terms("v2 costs 3"),
        ["v2", "costs", "3", "v2 costs", "costs 3"]
    );
}

#[test]
fn a_single_word_makes_no_bigram() {
    assert_eq!(terms("Seeds"), ["seeds"]);
}

#[test]
fn text_with_no_letters_or_digits_has_no_terms() {
    assert!(terms("...   ---   ").is_empty());
    assert!(terms("").is_empty());
}

#[test]
fn counts_repeats() {
    let counted = counts("seeds seeds seeds");
    assert_eq!(counted.get("seeds"), Some(3));
    assert_eq!(counted.get("seeds seeds"), Some(2));
}

#[test]
fn lowercases_before_splitting() {
    assert_eq!(terms("STRASSE"), ["strasse"]);
    assert_eq!(terms("Ünlü"), ["ünlü"]);
}

#[test]
fn a_pair_is_ordered_the_way_an_event_records_it() {
    let (first, second) = canonical(&capture(2), &capture(1));

    assert_eq!(first, capture(1));
    assert_eq!(second, capture(2));
    assert_eq!(
        Subject::pair(capture(2), capture(1)),
        Subject::CapturePair {
            capture: first,
            other: second,
        }
    );
}

#[test]
fn a_term_absent_from_the_text_is_not_counted() {
    let counted = counts("dungeon seeds");
    assert_eq!(counted.get("dungeon"), Some(1));
    assert_eq!(counted.get("seeds dungeon"), None);
    assert_eq!(counted.len(), 3);
}

#[test]
fn counting_checks_the_text_is_small_enough() {
    let counted = checked_counts("a b a").expect("small text");
    assert_eq!(counted.get("a"), Some(2));
    assert_eq!(counted.get("a b"), Some(1));
    assert_eq!(counted.get("b a"), Some(1));
}

#[test]
fn a_pair_already_in_order_is_kept() {
    let (first, second) = canonical(&capture(1), &capture(2));
    assert_eq!(first, capture(1));
    assert_eq!(second, capture(2));
}
