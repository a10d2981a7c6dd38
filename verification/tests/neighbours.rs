use std::collections::BTreeMap;

use rhizolog::index::drawing::walk_rows;
use rhizolog::index::neighbours::neighbourhood;

fn edges(pairs: &[(&str, &str)]) -> Vec<(String, String)> {
    pairs.iter().map(|(a, b)| ((*a).to_owned(), (*b).to_owned())).collect()
}

fn walk(pairs: &[(&str, &str)], root: &str, depth: i64) -> BTreeMap<String, u64> {
    let found = neighbourhood(&edges(pairs), root, depth);
    let map: BTreeMap<String, u64> = found.iter().cloned().collect();
    assert_eq!(map.len(), found.len(), "each name once");
    map
}

fn expect(entries: &[(&str, u64)]) -> BTreeMap<String, u64> {
    entries.iter().map(|(name, hops)| ((*name).to_owned(), *hops)).collect()
}

const WIKI: &[(&str, &str)] = &[("a", "b"), ("c", "b"), ("b", "d"), ("d", "e")];

#[test]
fn a_walk_crosses_edges_either_way_and_stops_at_the_depth() {
    assert_eq!(walk(WIKI, "a", 1), expect(&[("a", 0), ("b", 1)]));
    assert_eq!(
        walk(WIKI, "a", 2),
        expect(&[("a", 0), ("b", 1), ("c", 2), ("d", 2)])
    );
    assert_eq!(
        walk(WIKI, "e", 2),
        expect(&[("e", 0), ("d", 1), ("b", 2)])
    );
}

#[test]
fn a_name_is_listed_at_the_fewest_hops_that_reach_it() {
    let shortcut = [("a", "b"), ("b", "c"), ("c", "d"), ("a", "d")];
    assert_eq!(
        walk(&shortcut, "a", 5),
        expect(&[("a", 0), ("b", 1), ("d", 1), ("c", 2)])
    );
}

#[test]
fn cycles_and_self_links_end_the_walk() {
    assert_eq!(walk(&[("a", "a")], "a", 4), expect(&[("a", 0)]));
    assert_eq!(
        walk(&[("a", "b"), ("b", "a")], "a", i64::MAX),
        expect(&[("a", 0), ("b", 1)])
    );
}

#[test]
fn no_hops_leave_only_the_root() {
    assert_eq!(walk(WIKI, "a", 0), expect(&[("a", 0)]));
    assert_eq!(walk(WIKI, "a", -3), expect(&[("a", 0)]));
    assert_eq!(walk(&[], "a", 2), expect(&[("a", 0)]));
}

#[test]
fn a_wanted_page_has_the_pages_waiting_on_it_for_neighbours() {
    assert_eq!(
        walk(&[("a", "missing"), ("c", "missing")], "missing", 1),
        expect(&[("missing", 0), ("a", 1), ("c", 1)])
    );
}

#[test]
fn nearness_is_mutual() {
    for depth in 0..4 {
        for x in ["a", "b", "c", "d", "e"] {
            for y in ["a", "b", "c", "d", "e"] {
                assert_eq!(
                    walk(WIKI, x, depth).contains_key(y),
                    walk(WIKI, y, depth).contains_key(x),
                    "{x} and {y} at {depth} hops"
                );
            }
        }
    }
}

#[test]
fn the_rows_a_view_is_drawn_around_carry_the_walk() {
    let rows: BTreeMap<String, usize> = walk_rows(&edges(WIKI), "b", 1).into_iter().collect();
    let expected: BTreeMap<String, usize> =
        [("a", 1), ("b", 0), ("c", 1), ("d", 1)].iter().map(|(n, h)| ((*n).to_owned(), *h)).collect();
    assert_eq!(rows, expected);
    let far: BTreeMap<String, usize> = walk_rows(&edges(WIKI), "a", 3).into_iter().collect();
    assert_eq!(far.get("e"), Some(&3));
    let wrapped = walk_rows(&edges(WIKI), "a", usize::MAX);
    assert_eq!(wrapped, vec![("a".to_owned(), 0)]);
}
