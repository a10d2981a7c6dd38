use std::path::Path;

use rhizolog::ideas::store::IdeaStore;
use rhizolog::paths::{display_path, plain_segments, strip_verbatim};

#[test]
fn the_displayed_root_is_free_of_verbatim_prefixes() {
    let store = IdeaStore::at(Path::new("/srv/wiki"));
    let shown = store.root_display();
    assert!(!shown.starts_with(r"\\?\"));
    assert!(shown.starts_with("/srv/wiki"));
    assert!(shown.ends_with("ideas"));
}

#[test]
fn a_verbatim_prefix_is_taken_off() {
    assert_eq!(strip_verbatim(r"\\?\C:\wiki"), r"C:\wiki");
    assert_eq!(strip_verbatim(r"\\?\\\?\C:\wiki"), r"C:\wiki");
    assert_eq!(strip_verbatim(r"C:\wiki"), r"C:\wiki");
    assert_eq!(strip_verbatim(r"\\server\share"), r"\\server\share");
    assert_eq!(strip_verbatim(""), "");
}

#[test]
fn an_ordinary_path_displays_as_written() {
    assert_eq!(display_path(Path::new("notes/rust")), "notes/rust");
}

#[test]
fn the_trees_sit_under_the_wiki_s_own_directory() {
    let store = IdeaStore::at(Path::new("/srv/wiki"));
    assert_eq!(store.root(), Path::new("/srv/wiki/.rhizolog/ideas"));
    assert_eq!(store.captures_root(), Path::new("/srv/wiki/.rhizolog/ideas/captures"));
    assert_eq!(store.threads_root(), Path::new("/srv/wiki/.rhizolog/ideas/threads"));
    assert_eq!(store.events_root(), Path::new("/srv/wiki/.rhizolog/ideas/events"));
    let service = rhizolog::ideas::service::IdeaService::new(store.clone());
    assert_eq!(service.store().root(), store.root());
}

#[test]
fn a_path_splits_into_plain_names_or_not_at_all() {
    assert_eq!(
        plain_segments(Path::new("2026-08/x.md")),
        Some(vec!["2026-08".to_owned(), "x.md".to_owned()])
    );
    assert_eq!(plain_segments(Path::new("a//b/./c")), Some(vec!["a".to_owned(), "b".to_owned(), "c".to_owned()]));
    assert_eq!(plain_segments(Path::new("../x.md")), None);
    assert_eq!(plain_segments(Path::new("/x.md")), None);
    assert_eq!(plain_segments(Path::new("")), Some(vec![]));
}
