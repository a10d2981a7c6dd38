use rhizolog::index::drawing::{assemble, GraphRows, LinkRow, PartRow};
use rhizolog::index::graph::{
    outbound_links, referenced, stats, tags, visible_link, visible_part, Graph, GraphOptions,
    LinkTotals, OutboundLink, OutboundRow, StatsRows, TagCount, IS_PAGE_LINK,
};
use rhizolog::markdown::LinkKind;

fn link(source: &str, target: &str, kind: &str) -> LinkRow {
    LinkRow {
        source: source.to_owned(),
        target: target.to_owned(),
        kind: kind.to_owned(),
    }
}

fn part(source: &str, target: &str, is_slug: bool) -> PartRow {
    PartRow {
        source: source.to_owned(),
        target: target.to_owned(),
        is_slug,
    }
}

fn pages(slugs: &[&str]) -> Vec<(String, String)> {
    slugs
        .iter()
        .map(|slug| (slug.to_string(), format!("Title of {slug}")))
        .collect()
}

fn rows(links: Vec<LinkRow>, parts: Vec<PartRow>, all: &[&str], matched: &[&str]) -> GraphRows {
    GraphRows {
        links,
        parts,
        titles: pages(all),
        reached: None,
        matched: matched.iter().map(|s| s.to_string()).collect(),
        tags: Vec::new(),
    }
}

fn slugs(graph: &Graph) -> Vec<&str> {
    graph.nodes.iter().map(|n| n.slug.as_str()).collect()
}

fn pairs(graph: &Graph) -> Vec<(&str, &str)> {
    graph
        .edges
        .iter()
        .map(|e| (e.source.as_str(), e.target.as_str()))
        .collect()
}

#[test]
fn the_whole_graph_carries_orphans_and_wants_alike() {
    let all = ["a", "b", "lonely"];
    let graph = assemble(
        &rows(
            vec![link("a", "b", "wiki"), link("b", "ghost", "wiki")],
            vec![],
            &all,
            &all,
        ),
        true,
        500,
    );

    assert_eq!(slugs(&graph), ["a", "b", "ghost", "lonely"]);
    assert_eq!(pairs(&graph), [("a", "b"), ("b", "ghost")]);
    let ghost = &graph.nodes[2];
    assert!(!ghost.exists);
    assert_eq!(ghost.title, "ghost");
    assert_eq!((ghost.inbound, ghost.outbound), (1, 0));
    let b = &graph.nodes[1];
    assert!(b.exists);
    assert_eq!(b.title, "Title of b");
    assert_eq!((b.inbound, b.outbound), (1, 1));
    assert_eq!(graph.matched, 3);
    assert!(!graph.truncated);
}

#[test]
fn links_of_two_kinds_between_one_pair_are_one_edge() {
    let all = ["a", "b"];
    let graph = assemble(
        &rows(
            vec![link("a", "b", "internal"), link("a", "b", "wiki")],
            vec![],
            &all,
            &all,
        ),
        true,
        500,
    );

    assert_eq!(graph.edges.len(), 1);
    assert_eq!(graph.edges[0].kinds, [LinkKind::Internal, LinkKind::Wiki]);
    assert!(!graph.edges[0].part);
    assert_eq!(graph.nodes[1].inbound, 1);
}

#[test]
fn a_filter_selects_pages_and_edges_need_both_ends() {
    let all = ["a", "b", "c"];
    let graph = assemble(
        &rows(
            vec![link("a", "b", "wiki"), link("a", "c", "wiki")],
            vec![],
            &all,
            &["a", "b"],
        ),
        true,
        500,
    );

    assert_eq!(slugs(&graph), ["a", "b"]);
    assert_eq!(pairs(&graph), [("a", "b")]);
    // Degrees are wiki-wide, so `a` still shows what it reaches outside.
    assert_eq!(graph.nodes[0].outbound, 2);
}

#[test]
fn a_wanted_page_is_not_filtered_because_it_is_not_a_page() {
    let all = ["a", "b"];
    let graph = assemble(
        &rows(vec![link("a", "nowhere", "wiki")], vec![], &all, &["a"]),
        true,
        500,
    );

    assert_eq!(slugs(&graph), ["a", "nowhere"]);
    assert_eq!(pairs(&graph), [("a", "nowhere")]);
}

#[test]
fn wants_can_be_left_out() {
    let all = ["a"];
    let graph = assemble(
        &rows(vec![link("a", "nowhere", "wiki")], vec![], &all, &all),
        false,
        500,
    );

    assert_eq!(slugs(&graph), ["a"]);
    assert!(graph.edges.is_empty());
}

#[test]
fn external_links_and_unknown_kinds_are_not_drawn_by_kind() {
    let all = ["a", "b"];
    let graph = assemble(
        &rows(vec![link("a", "b", "sideways")], vec![], &all, &all),
        true,
        500,
    );
    assert!(graph.edges.is_empty());
    assert_eq!(graph.nodes[0].outbound, 0);
}

#[test]
fn a_walk_bounds_wants_too() {
    let all = ["root", "near"];
    let mut query = rows(
        vec![link("root", "near", "wiki"), link("near", "far-want", "wiki")],
        vec![],
        &all,
        &all,
    );
    query.reached = Some(vec![("root".to_owned(), 0), ("near".to_owned(), 1)]);
    let graph = assemble(&query, true, 500);

    assert_eq!(slugs(&graph), ["near", "root"]);
    assert_eq!(graph.nodes[0].distance, Some(1));
    assert_eq!(graph.nodes[1].distance, Some(0));
    assert_eq!(pairs(&graph), [("root", "near")]);
}

#[test]
fn truncation_keeps_the_hubs() {
    let all = ["hub", "leaf-a", "leaf-b", "leaf-c"];
    let graph = assemble(
        &rows(
            vec![
                link("leaf-a", "hub", "wiki"),
                link("leaf-b", "hub", "wiki"),
                link("leaf-c", "hub", "wiki"),
                link("leaf-a", "leaf-b", "wiki"),
            ],
            vec![],
            &all,
            &all,
        ),
        true,
        2,
    );

    assert!(graph.truncated);
    assert_eq!(graph.matched, 4);
    // hub has three, leaf-a and leaf-b two each; the tie goes to the earlier slug.
    assert_eq!(slugs(&graph), ["hub", "leaf-a"]);
    assert_eq!(pairs(&graph), [("leaf-a", "hub")]);
}

#[test]
fn a_contents_entry_is_an_edge_and_says_it_is_a_part() {
    let all = ["book", "chapter-one"];
    let graph = assemble(
        &rows(
            vec![link("book", "chapter-one", "wiki")],
            vec![
                part("book", "chapter-one", true),
                part("book", "chapter-two", true),
                part("book", "../etc/passwd", false),
            ],
            &all,
            &all,
        ),
        true,
        500,
    );

    assert_eq!(pairs(&graph), [("book", "chapter-one"), ("book", "chapter-two")]);
    assert_eq!(graph.edges[0].kinds, [LinkKind::Wiki]);
    assert!(graph.edges[0].part);
    assert!(graph.edges[1].kinds.is_empty());
    assert!(graph.edges[1].part);
    assert_eq!(slugs(&graph), ["book", "chapter-one", "chapter-two"]);
    assert_eq!(graph.nodes[0].outbound, 2);
}

#[test]
fn a_self_link_terminates() {
    let all = ["loop"];
    let graph = assemble(&rows(vec![link("loop", "loop", "wiki")], vec![], &all, &all), true, 500);
    assert_eq!(pairs(&graph), [("loop", "loop")]);
    assert_eq!((graph.nodes[0].inbound, graph.nodes[0].outbound), (1, 1));
}

#[test]
fn an_empty_wiki_draws_nothing() {
    let graph = assemble(&rows(vec![], vec![], &[], &[]), true, 500);
    assert!(graph.nodes.is_empty());
    assert!(graph.edges.is_empty());
    assert_eq!(graph.matched, 0);
    assert!(!graph.truncated);
}

#[test]
fn a_node_carries_its_tags_in_order() {
    let all = ["a"];
    let mut query = rows(vec![], vec![], &all, &all);
    query.tags = vec![
        ("a".to_owned(), "craft".to_owned()),
        ("b".to_owned(), "other".to_owned()),
        ("a".to_owned(), "writing".to_owned()),
    ];
    let graph = assemble(&query, true, 500);
    assert_eq!(graph.nodes[0].tags, ["craft", "writing"]);
    assert_eq!(graph.nodes[0].distance, None);
}

#[test]
fn the_graph_defaults_to_two_hops_with_wants_and_five_hundred_pages() {
    let options = GraphOptions::default();
    assert_eq!(options.depth, 2);
    assert!(options.wanted);
    assert_eq!(options.limit, 500);
    assert!(options.tag.is_none() && options.prefix.is_none() && options.root.is_none());
}

#[test]
fn outbound_links_skip_kinds_nobody_knows() {
    let links = outbound_links(vec![
        OutboundRow {
            target: "b".to_owned(),
            display: None,
            kind: "wiki".to_owned(),
            title: Some("B".to_owned()),
        },
        OutboundRow {
            target: "c".to_owned(),
            display: Some("see".to_owned()),
            kind: "telepathic".to_owned(),
            title: None,
        },
        OutboundRow {
            target: "https://example.org".to_owned(),
            display: None,
            kind: "external".to_owned(),
            title: None,
        },
    ]);

    assert_eq!(links.len(), 2);
    assert!(links[0].is_resolved());
    assert!(!links[1].is_resolved());
    assert_eq!(
        links[1],
        OutboundLink {
            target: "https://example.org".to_owned(),
            display: None,
            kind: LinkKind::External,
            title: None,
        }
    );
}

fn dashboard(
    readable: &[&str],
    existing: &[&str],
    links: Vec<LinkRow>,
    parts: Vec<PartRow>,
    tags: &[(&str, &str)],
) -> StatsRows {
    StatsRows {
        pages: pages(readable),
        existing: existing.iter().map(|s| s.to_string()).collect(),
        links,
        parts,
        tags: tags
            .iter()
            .map(|(page, tag)| (page.to_string(), tag.to_string()))
            .collect(),
        last_sync: Some("1000".to_owned()),
    }
}

#[test]
fn counts_orphans_and_wanted_pages() {
    let all = ["hub", "spoke", "lonely"];
    let figures = stats(dashboard(
        &all,
        &all,
        vec![link("hub", "spoke", "wiki"), link("hub", "missing", "wiki")],
        Vec::new(),
        &[],
    ));

    assert_eq!(figures.pages, 3);
    // `hub` and `lonely` have no inbound links.
    assert_eq!(figures.orphan_count, 2);
    let orphans: Vec<_> = figures.orphans.iter().map(|p| p.slug.as_str()).collect();
    assert_eq!(orphans, ["hub", "lonely"]);
    assert_eq!(figures.orphans[0].title, "Title of hub");

    assert_eq!(figures.wanted_count, 1);
    assert_eq!(figures.wanted[0].slug, "missing");
    assert_eq!(figures.wanted[0].referrers, 1);
    assert_eq!(
        figures.links,
        LinkTotals {
            internal: 2,
            external: 0,
            resolved: 1,
            wanted: 1
        }
    );
    assert_eq!(figures.last_indexed, Some(1000));
}

#[test]
fn ranks_the_most_linked_pages() {
    let all = ["popular", "quiet", "a", "b", "c", "d"];
    let figures = stats(dashboard(
        &all,
        &all,
        vec![
            link("a", "popular", "wiki"),
            link("b", "popular", "wiki"),
            link("c", "popular", "internal"),
            // A second link from the same page is not a second referrer.
            link("c", "popular", "wiki"),
            link("d", "quiet", "wiki"),
        ],
        Vec::new(),
        &[],
    ));

    assert_eq!(figures.most_linked[0].slug.as_str(), "popular");
    assert_eq!(figures.most_linked[0].referrers, 3);
    assert_eq!(figures.most_linked[0].title, "Title of popular");
    assert_eq!(figures.most_linked[1].slug.as_str(), "quiet");
    assert_eq!(figures.most_linked[1].referrers, 1);
    assert_eq!(figures.links.resolved, 5);
}

#[test]
fn counts_tags() {
    let all = ["a", "b"];
    let figures = stats(dashboard(
        &all,
        &all,
        Vec::new(),
        Vec::new(),
        &[("a", "theory"), ("a", "shared"), ("b", "shared")],
    ));

    assert_eq!(figures.tags, 2);
    let listed = tags(
        &pages(&all),
        &vec![
            ("a".to_owned(), "theory".to_owned()),
            ("a".to_owned(), "shared".to_owned()),
            ("b".to_owned(), "shared".to_owned()),
        ],
    );
    assert_eq!(listed, figures.tag_counts);
    assert_eq!(
        figures.tag_counts,
        vec![
            TagCount {
                tag: "shared".into(),
                pages: 2
            },
            TagCount {
                tag: "theory".into(),
                pages: 1
            },
        ]
    );
}

#[test]
fn separates_internal_and_external_link_totals() {
    let figures = stats(dashboard(
        &["a"],
        &["a"],
        vec![
            link("a", "internal", "wiki"),
            link("a", "https://example.com", "external"),
            link("a", "mailto:a@b.c", "external"),
        ],
        Vec::new(),
        &[],
    ));

    assert_eq!(figures.links.internal, 1);
    assert_eq!(figures.links.external, 2);
}

#[test]
fn an_empty_wiki_has_empty_stats() {
    let figures = stats(dashboard(&[], &[], Vec::new(), Vec::new(), &[]));

    assert_eq!(figures.pages, 0);
    assert_eq!(figures.links, LinkTotals::default());
    assert!(figures.orphans.is_empty());
    assert!(figures.wanted.is_empty());
    assert!(figures.tag_counts.is_empty());
    assert_eq!(figures.wanted_count, 0);
}

#[test]
fn a_page_this_audience_cannot_read_is_neither_counted_nor_wanted() {
    let figures = stats(dashboard(
        &["open", "other"],
        &["open", "other", "secret"],
        vec![
            link("open", "secret", "wiki"),
            link("secret", "open", "wiki"),
            link("secret", "https://example.com", "external"),
            link("other", "open", "wiki"),
        ],
        Vec::new(),
        &[("secret", "private-tag")],
    ));

    // Only `other -> open` is theirs: the link into the secret page is no
    // link of theirs, and nothing the secret page says is counted.
    assert_eq!(figures.links.internal, 1);
    assert_eq!(figures.links.external, 0);
    assert_eq!(figures.wanted_count, 0, "a private page is not wanted");
    assert_eq!(figures.tags, 0);
    let orphans: Vec<_> = figures.orphans.iter().map(|p| p.slug.as_str()).collect();
    assert_eq!(orphans, ["other"]);
}

#[test]
fn a_contents_entry_keeps_a_page_from_being_an_orphan() {
    let figures = stats(dashboard(
        &["book", "chapter"],
        &["book", "chapter"],
        Vec::new(),
        vec![part("book", "chapter", true)],
        &[],
    ));
    assert_eq!(figures.orphan_count, 1);
    assert_eq!(figures.orphans[0].slug.as_str(), "book");
}

#[test]
fn the_top_lists_stop_at_ten() {
    let names: Vec<String> = (0..12).map(|n| format!("p{n:02}")).collect();
    let all: Vec<&str> = names.iter().map(|s| s.as_str()).collect();
    let links = (0..12)
        .map(|n| link(&names[n], &format!("want{n:02}"), "wiki"))
        .collect();
    let figures = stats(dashboard(&all, &all, links, Vec::new(), &[]));
    assert_eq!(figures.orphan_count, 12);
    assert_eq!(figures.orphans.len(), 10);
    assert_eq!(figures.orphans[9].slug.as_str(), "p09");
    assert_eq!(figures.wanted_count, 12);
    assert_eq!(figures.wanted.len(), 10);
    assert_eq!(figures.wanted[0].slug, "want00");
}

#[test]
fn the_link_predicates_are_built_from_the_visibility_rule() {
    assert!(visible_link().starts_with(IS_PAGE_LINK));
    assert!(visible_link().contains("target.visibility"));
    assert!(visible_part().contains("parent.owner"));
    assert!(visible_part().contains("chapter.owner"));
    assert!(referenced().contains(&visible_link()));
    assert!(referenced().contains(&visible_part()));
}

#[test]
fn a_cut_view_draws_exactly_the_limit_of_pages() {
    let all = ["a", "b", "c", "d", "e"];
    for limit in 0..7usize {
        let graph = assemble(
            &rows(vec![link("a", "b", "wiki"), link("c", "b", "wiki")], vec![], &all, &all),
            false,
            limit,
        );
        let pages = graph.nodes.iter().filter(|n| n.exists).count();
        assert_eq!(pages, limit.min(all.len()), "limit {limit}");
    }
}
