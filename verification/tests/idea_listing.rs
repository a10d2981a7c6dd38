use rhizolog::index::ideas::{holds_from, list_ideas, rejection_pairs, HoldRow, IdeaRow};

fn row(id: &str, signal: Option<i64>) -> IdeaRow {
    IdeaRow {
        id: id.to_owned(),
        name: format!("Idea {id}"),
        created: 10,
        updated: 20,
        live: 2,
        connected: 3,
        retired: 0,
        promoted_to: None,
        last_signal: signal,
    }
}

#[test]
fn ideas_list_newest_signal_first_and_unsignalled_last() {
    let rows = vec![
        row("20260820T141530-000000001", Some(5)),
        row("20260820T141530-000000002", None),
        row("20260820T141530-000000003", Some(9)),
        row("20260820T141530-000000004", None),
    ];
    let list = list_ideas(rows, 50, 0);
    assert_eq!(list.total, 4);
    let ids: Vec<&str> = list.ideas.iter().map(|idea| idea.id.as_str()).collect();
    assert_eq!(
        ids,
        [
            "20260820T141530-000000003",
            "20260820T141530-000000001",
            "20260820T141530-000000004",
            "20260820T141530-000000002",
        ]
    );
}

#[test]
fn a_summary_counts_the_evidence_an_idea_has_lost() {
    let mut promoted = row("20260820T141530-000000001", Some(5));
    promoted.retired = 1;
    promoted.promoted_to = Some("notes/seeds".to_owned());
    let list = list_ideas(vec![promoted], 50, 0);
    let summary = &list.ideas[0];
    assert_eq!(summary.members, 2);
    assert_eq!(summary.missing, 1);
    assert!(summary.retired);
    assert_eq!(summary.promoted_to.as_ref().map(|s| s.as_str()), Some("notes/seeds"));
    assert_eq!(summary.last_signal, Some(5));
    assert_eq!(summary.created, 10);
    assert_eq!(summary.name, "Idea 20260820T141530-000000001");

    // More live than connected never counts as negative evidence.
    let mut odd = row("20260820T141530-000000002", None);
    odd.live = 4;
    let list = list_ideas(vec![odd], 50, 0);
    assert_eq!(list.ideas[0].missing, 0);
}

#[test]
fn an_unparseable_id_is_counted_but_not_listed() {
    let rows = vec![
        row("20260820T141530-000000001", Some(5)),
        row("not-an-id", Some(7)),
    ];
    let list = list_ideas(rows, 50, 0);
    assert_eq!(list.total, 2);
    assert_eq!(list.ideas.len(), 1);
    assert_eq!(list.ideas[0].id.as_str(), "20260820T141530-000000001");
}

#[test]
fn ideas_paginate() {
    let rows: Vec<IdeaRow> = (1..=5)
        .map(|n| row(&format!("20260820T141530-00000000{n}"), Some(n)))
        .collect();
    let list = list_ideas(rows, 2, 1);
    assert_eq!(list.total, 5);
    let ids: Vec<&str> = list.ideas.iter().map(|idea| idea.id.as_str()).collect();
    assert_eq!(ids, ["20260820T141530-000000004", "20260820T141530-000000003"]);
}

#[test]
fn holds_keep_their_order_and_drop_what_does_not_parse() {
    let holds = holds_from(vec![
        HoldRow {
            id: "20260820T141530-000000001".to_owned(),
            name: "Seeds".to_owned(),
            retired: 0,
            members: 1,
        },
        HoldRow {
            id: "garbage".to_owned(),
            name: "Nope".to_owned(),
            retired: 0,
            members: 3,
        },
        HoldRow {
            id: "20260820T141530-000000002".to_owned(),
            name: "Dungeons".to_owned(),
            retired: 1,
            members: 2,
        },
    ]);
    assert_eq!(holds.len(), 2);
    assert_eq!(holds[0].name, "Seeds");
    assert!(holds[0].depends_on_it());
    assert_eq!(holds[1].name, "Dungeons");
    assert!(holds[1].retired);
    assert!(!holds[1].depends_on_it());
}

#[test]
fn turned_down_pairs_need_both_ids() {
    let pairs = rejection_pairs(vec![
        (
            "20260820T141530-000000001".to_owned(),
            "20260820T141530-000000002".to_owned(),
        ),
        ("20260820T141530-000000001".to_owned(), "gone".to_owned()),
        (
            "20260820T141530-000000003".to_owned(),
            "20260820T141530-000000004".to_owned(),
        ),
    ]);
    assert_eq!(pairs.len(), 2);
    assert_eq!(pairs[0].0.as_str(), "20260820T141530-000000001");
    assert_eq!(pairs[0].1.as_str(), "20260820T141530-000000002");
    assert_eq!(pairs[1].1.as_str(), "20260820T141530-000000004");
}
