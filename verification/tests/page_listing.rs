use rhizolog::index::pages::{directories, has_directory, is_under, list, PageRecord};
use rhizolog::index::{ListOptions, SortBy, SortOrder};
use rhizolog::slug::Slug;

fn page(slug: &str, title: &str, tags: &[&str]) -> PageRecord {
    PageRecord {
        slug: Slug::new(slug.to_owned()),
        title: title.to_owned(),
        tags: tags.iter().map(|tag| tag.to_string()).collect(),
        created: 1_000,
        updated: 2_000,
        size: 4,
    }
}

fn branching() -> Vec<PageRecord> {
    [
        "notes/rust",
        "notes/rust/async",
        "notes/rust/pinning",
        "notes/rustlings",
        "code/rust/traits",
        "index",
    ]
    .iter()
    .map(|slug| page(slug, slug, &[]))
    .collect()
}

fn slugs_under(records: Vec<PageRecord>, options: ListOptions) -> Vec<String> {
    let listed = list(records, options);
    assert_eq!(listed.total, listed.pages.len(), "nothing was paginated away");
    listed
        .pages
        .into_iter()
        .map(|page| page.slug.as_str().to_owned())
        .collect()
}

#[test]
fn lists_pages_without_their_bodies() {
    let listed = list(
        vec![page("notes/rhizome", "Rhizome", &["theory"])],
        ListOptions::default(),
    );
    assert_eq!(listed.total, 1);
    let record = &listed.pages[0];
    assert_eq!(record.slug.as_str(), "notes/rhizome");
    assert_eq!(record.title, "Rhizome");
    assert_eq!(record.tags, ["theory"]);
}

#[test]
fn lists_filtered_by_tag() {
    let records = vec![page("a", "A", &["theory", "shared"]), page("b", "B", &["shared"])];

    let theory = list(
        records.clone(),
        ListOptions {
            tag: Some("theory".to_owned()),
            ..ListOptions::default()
        },
    );
    assert_eq!(theory.total, 1);
    assert_eq!(theory.pages[0].slug.as_str(), "a");

    let shared = list(
        records.clone(),
        ListOptions {
            tag: Some("shared".to_owned()),
            ..ListOptions::default()
        },
    );
    assert_eq!(shared.total, 2);

    let missing = list(
        records,
        ListOptions {
            tag: Some("nonexistent".to_owned()),
            ..ListOptions::default()
        },
    );
    assert_eq!(missing.total, 0);
}

#[test]
fn lists_filtered_by_slug_prefix() {
    let under = slugs_under(
        branching(),
        ListOptions {
            prefix: Some("notes/rust".to_owned()),
            ..ListOptions::default()
        },
    );
    assert_eq!(under, ["notes/rust", "notes/rust/async", "notes/rust/pinning"]);
    assert!(!under.contains(&"code/rust/traits".to_owned()));

    let shouted = slugs_under(
        branching(),
        ListOptions {
            prefix: Some("NOTES/RUST".to_owned()),
            ..ListOptions::default()
        },
    );
    assert!(shouted.is_empty());
}

#[test]
fn lists_filtered_by_slug_segment() {
    let rust = slugs_under(
        branching(),
        ListOptions {
            segment: Some("rust".to_owned()),
            ..ListOptions::default()
        },
    );
    assert_eq!(rust, ["code/rust/traits", "notes/rust/async", "notes/rust/pinning"]);
    assert!(!rust.contains(&"notes/rust".to_owned()));

    let basename = slugs_under(
        branching(),
        ListOptions {
            segment: Some("async".to_owned()),
            ..ListOptions::default()
        },
    );
    assert!(basename.is_empty());
}

#[test]
fn path_filters_intersect_with_tags() {
    let records = vec![
        page("notes/rust/async", "A", &["theory"]),
        page("notes/rust/pinning", "P", &[]),
        page("code/rust/traits", "T", &["theory"]),
    ];
    let both = slugs_under(
        records,
        ListOptions {
            tag: Some("theory".to_owned()),
            segment: Some("rust".to_owned()),
            prefix: Some("notes".to_owned()),
            ..ListOptions::default()
        },
    );
    assert_eq!(both, ["notes/rust/async"]);
}

#[test]
fn lists_sorted_and_paginated() {
    let records = vec![page("c", "Gamma", &[]), page("a", "Alpha", &[]), page("b", "Beta", &[])];

    let by_slug = list(records.clone(), ListOptions::default());
    let slugs: Vec<&str> = by_slug.pages.iter().map(|p| p.slug.as_str()).collect();
    assert_eq!(slugs, ["a", "b", "c"]);

    let by_title_desc = list(
        records.clone(),
        ListOptions {
            sort: SortBy::Title,
            order: SortOrder::Descending,
            ..ListOptions::default()
        },
    );
    let titles: Vec<&str> = by_title_desc.pages.iter().map(|p| p.title.as_str()).collect();
    assert_eq!(titles, ["Gamma", "Beta", "Alpha"]);

    let page_two = list(
        records,
        ListOptions {
            limit: 2,
            offset: 2,
            ..ListOptions::default()
        },
    );
    assert_eq!(page_two.pages.len(), 1);
    assert_eq!(page_two.total, 3, "total counts every page, not the slice");
}

#[test]
fn equal_keys_fall_back_to_the_slug() {
    let mut later = page("b", "Same", &[]);
    later.updated = 5;
    let mut earlier = page("a", "Same", &[]);
    earlier.updated = 5;
    let listed = list(
        vec![later, earlier],
        ListOptions {
            sort: SortBy::Updated,
            order: SortOrder::Descending,
            ..ListOptions::default()
        },
    );
    let slugs: Vec<&str> = listed.pages.iter().map(|p| p.slug.as_str()).collect();
    assert_eq!(slugs, ["a", "b"]);
}

#[test]
fn directories_stop_at_the_separator() {
    assert!(has_directory("notes/rust/async", "notes"));
    assert!(has_directory("notes/rust/async", "rust"));
    assert!(!has_directory("notes/rust/async", "async"));
    assert!(!has_directory("notes/rustlings", "rust"));
    assert!(!has_directory("index", "index"));
    assert!(is_under("notes/rust", "notes/rust"));
    assert!(is_under("notes/rust/async", "notes/rust"));
    assert!(!is_under("notes/rustlings", "notes/rust"));
    assert!(!is_under("notes", "notes/rust"));
}

#[test]
fn a_slug_sits_in_its_directories_outermost_first() {
    assert_eq!(directories("notes/rust/async"), ["notes", "rust"]);
    assert!(directories("index").is_empty());
    assert_eq!(directories("a/b"), ["a"]);
    for name in directories("code/rust/traits") {
        assert!(has_directory("code/rust/traits", &name));
    }
}
