use rhizolog::index::words::{counted_before, weigh};
use rhizolog::words::{churn, net, Churn, Kind};

#[test]
fn a_page_nobody_has_a_record_of_is_a_baseline() {
    let change = weigh(None, None, "One two three.\n", 3);

    assert_eq!(change.kind, Kind::Baseline);
    assert_eq!((change.added, change.removed, change.total), (0, 0, 3));
    assert!(
        change.is_recordable(),
        "a baseline reports no writing and still has to be written down"
    );
}

#[test]
fn a_live_write_reads_a_first_sighting_as_words_that_just_arrived() {
    let written = weigh(None, None, "One two three.\n", 3).as_written();

    assert_eq!(written.kind, Kind::Observed);
    assert_eq!((written.added, written.removed, written.total), (3, 0, 3));

    let ordinary = weigh(Some(3), Some("One two three.\n"), "One two.\n", 2);
    assert_eq!(ordinary.as_written(), ordinary);
}

#[test]
fn a_previous_body_makes_it_a_churn() {
    let change = weigh(
        Some(5),
        Some("The ferry was very late.\n"),
        "The ferry was early.\n",
        4,
    );

    assert_eq!(change.kind, Kind::Observed);
    assert_eq!((change.added, change.removed), (1, 2));
    assert_eq!(change.total, 4);
}

#[test]
fn a_total_with_no_body_to_compare_is_a_net() {
    let change = weigh(Some(100), None, "irrelevant\n", 140);

    assert_eq!(change.kind, Kind::Net);
    assert_eq!((change.added, change.removed), (40, 0));
}

#[test]
fn a_rebuild_over_an_untouched_wiki_records_nothing() {
    let change = weigh(Some(41230), None, "irrelevant\n", 41230);

    assert!(change.churn().is_nothing());
    assert!(!change.is_recordable());
}

#[test]
fn an_edit_that_keeps_the_count_is_still_a_churn() {
    let change = weigh(Some(3), Some("One two three.\n"), "One two four.\n", 3);

    assert_eq!(change.kind, Kind::Observed);
    assert_eq!((change.added, change.removed), (1, 1));
}

#[test]
fn a_body_the_log_never_saw_is_not_a_churn() {
    let caught_up = weigh(
        Some(5),
        Some("One two three.\n"),
        "One two three four five.\n",
        5,
    );

    assert_eq!(caught_up.kind, Kind::Net);
    assert!(
        !caught_up.is_recordable(),
        "the log already says five, and so does the page"
    );

    let further = weigh(
        Some(5),
        Some("One two three.\n"),
        "One two three four five six seven.\n",
        7,
    );

    assert_eq!(further.kind, Kind::Net);
    assert_eq!((further.added, further.removed), (2, 0));
    assert_eq!(further.total, 7);
}

#[test]
fn a_shrinking_total_with_no_body_is_a_net_removal() {
    let change = weigh(Some(140), None, "irrelevant\n", 100);
    assert_eq!(change.kind, Kind::Net);
    assert_eq!((change.added, change.removed), (0, 40));
    assert!(change.is_recordable());
}

#[test]
fn churn_pairs_each_word_once() {
    assert_eq!(churn("a a b", "a b b"), Churn { added: 1, removed: 1 });
    assert_eq!(churn("", "one two"), Churn { added: 2, removed: 0 });
    assert_eq!(churn("one two", "   "), Churn { added: 0, removed: 2 });
    assert!(churn("same words", "same\twords\n").is_nothing());
}

#[test]
fn net_is_the_difference_between_totals() {
    assert_eq!(net(10, 13), Churn { added: 3, removed: 0 });
    assert_eq!(net(13, 10), Churn { added: 0, removed: 3 });
}

#[test]
fn the_previous_count_is_recovered_from_the_churn() {
    assert_eq!(counted_before(Churn { added: 2, removed: 1 }, 7), Some(6));
    assert_eq!(counted_before(Churn { added: 9, removed: 1 }, 7), None);
    assert_eq!(counted_before(Churn { added: 0, removed: 1 }, u64::MAX), None);
}

#[test]
fn kinds_read_back_from_their_names() {
    for kind in [Kind::Baseline, Kind::Observed, Kind::Net, Kind::Deleted, Kind::Moved] {
        assert_eq!(Kind::parse(kind.as_str()), Some(kind));
    }
    assert_eq!(Kind::parse("rewritten"), None);
}
