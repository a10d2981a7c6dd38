use rhizolog::index::{from_nanos, stored_instant, to_fts_query, to_nanos, IndexError, ListOptions, SortBy, SortOrder};

#[test]
fn fts_queries_are_escaped() {
    assert_eq!(to_fts_query("alpha"), Some("\"alpha\"".to_owned()));
    assert_eq!(
        to_fts_query("alpha beta"),
        Some("\"alpha\" \"beta\"".to_owned())
    );
    assert_eq!(to_fts_query("alpha*"), Some("\"alpha\"*".to_owned()));
    assert_eq!(
        to_fts_query("say \"hi\""),
        Some("\"say\" \"\"\"hi\"\"\"".to_owned())
    );
    assert_eq!(to_fts_query(""), None);
    assert_eq!(to_fts_query("   "), None);
    assert_eq!(to_fts_query("*"), None);
}

#[test]
fn a_bare_star_between_terms_is_dropped() {
    assert_eq!(
        to_fts_query("  alpha  *  beta** "),
        Some("\"alpha\" \"beta*\"*".to_owned())
    );
}

#[test]
fn an_instant_outside_sixty_four_bits_of_nanoseconds_is_refused() {
    assert_eq!(to_nanos(1_234, "at").ok(), Some(1_234));
    assert_eq!(to_nanos(i64::MIN as i128, "at").ok(), Some(i64::MIN));
    assert!(matches!(
        to_nanos(i64::MAX as i128 + 1, "last sync"),
        Err(IndexError::TimestampOutOfRange { label: "last sync" })
    ));
    assert_eq!(from_nanos(-5), -5);
}

#[test]
fn a_stored_instant_is_read_back_only_when_it_parses() {
    assert_eq!(stored_instant(Some("1755699330345678901".to_owned())), Some(1_755_699_330_345_678_901));
    assert_eq!(stored_instant(Some("-42".to_owned())), Some(-42));
    assert_eq!(stored_instant(Some("+7".to_owned())), Some(7));
    assert_eq!(stored_instant(Some("12a".to_owned())), None);
    assert_eq!(stored_instant(Some("".to_owned())), None);
    assert_eq!(stored_instant(Some("-".to_owned())), None);
    assert_eq!(stored_instant(Some("9223372036854775808".to_owned())), None);
    assert_eq!(
        stored_instant(Some("-9223372036854775808".to_owned())),
        Some(i64::MIN as i128)
    );
    assert_eq!(stored_instant(None), None);
}

#[test]
fn listing_defaults_to_the_first_fifty_pages_by_slug() {
    let options = ListOptions::default();
    assert_eq!(options.limit, 50);
    assert_eq!(options.offset, 0);
    assert_eq!(options.sort, SortBy::Slug);
    assert_eq!(options.order, SortOrder::Ascending);
    assert!(options.tag.is_none() && options.prefix.is_none() && options.segment.is_none());
    assert_eq!(SortBy::Updated.column(), "updated");
    assert_eq!(SortBy::Title.column(), "title");
    assert_eq!(SortOrder::Descending.keyword(), "desc");
}
