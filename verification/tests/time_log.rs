use chrono::DateTime;
use rhizolog::index::times::{
    list_times, page_times, time_groups, time_totals, PageTimes, TimeListOptions, TimePageRef,
    TimeRecord, TimeSortBy,
};
use rhizolog::index::{IndexError, SortOrder};
use rhizolog::slug::Slug;

fn at(text: &str) -> i128 {
    DateTime::parse_from_rfc3339(text)
        .expect("valid timestamp")
        .timestamp_nanos_opt()
        .expect("in range") as i128
}

fn now() -> i128 {
    at("2026-08-06T20:00:00Z")
}

fn now_nanos() -> i64 {
    now() as i64
}

fn entry(name: &str, start: &str, end: Option<&str>, pages: &[&str]) -> TimeRecord {
    TimeRecord {
        id: format!("{}-{}", start, name),
        name: name.to_owned(),
        start: at(start),
        end: end.map(at),
        pages: pages
            .iter()
            .map(|page| TimePageRef {
                slug: Slug::new(page.to_string()),
                title: None,
            })
            .collect(),
        has_note: false,
        updated: at("2026-08-06T20:00:00Z"),
        size: 120,
    }
}

#[test]
fn a_running_entry_counts_up_and_is_filterable() {
    let records = vec![
        entry("Running", "2026-08-06T19:30:00Z", None, &[]),
        entry(
            "Finished",
            "2026-08-06T14:00:00Z",
            Some("2026-08-06T15:00:00Z"),
            &[],
        ),
    ];

    let running = list_times(
        records.clone(),
        TimeListOptions {
            running: Some(true),
            ..TimeListOptions::default()
        },
        now(),
    )
    .unwrap();
    assert_eq!(running.total, 1);
    assert_eq!(running.times[0].name, "Running");
    assert_eq!(running.times[0].seconds(now()), 30 * 60);

    let finished = list_times(
        records,
        TimeListOptions {
            running: Some(false),
            ..TimeListOptions::default()
        },
        now(),
    )
    .unwrap();
    assert_eq!(finished.total, 1);
    assert_eq!(finished.times[0].name, "Finished");
}

#[test]
fn overlapping_entries_are_all_counted() {
    let records = vec![
        entry(
            "Pairing",
            "2026-08-06T14:00:00Z",
            Some("2026-08-06T15:00:00Z"),
            &[],
        ),
        entry(
            "Listening",
            "2026-08-06T14:30:00Z",
            Some("2026-08-06T15:30:00Z"),
            &[],
        ),
    ];

    let totals = time_totals(&records, now_nanos()).unwrap();
    assert_eq!(totals.entries, 2);
    assert_eq!(totals.groups, 2);
    assert_eq!(totals.seconds, 2 * 3600, "overlap is not deduplicated");
    assert_eq!(totals.running, 0);
    assert_eq!(totals.first_start, Some(at("2026-08-06T14:00:00Z")));
    assert_eq!(totals.last_start, Some(at("2026-08-06T14:30:00Z")));
}

#[test]
fn an_empty_log_totals_nothing() {
    let totals = time_totals(&Vec::new(), now_nanos()).unwrap();
    assert_eq!(totals.entries, 0);
    assert_eq!(totals.groups, 0);
    assert_eq!(totals.seconds, 0);
    assert_eq!(totals.first_start, None);
    assert_eq!(totals.last_start, None);
}

#[test]
fn lists_newest_first_by_default_and_filters_by_name() {
    let records = vec![
        entry("Deep work", "2026-08-06T09:00:00Z", None, &[]),
        entry("Email", "2026-08-06T11:00:00Z", None, &[]),
        entry("Deep work", "2026-08-06T14:00:00Z", None, &[]),
    ];

    let all = list_times(records.clone(), TimeListOptions::default(), now()).unwrap();
    assert_eq!(all.times[0].start, at("2026-08-06T14:00:00Z"));
    assert_eq!(all.times[2].start, at("2026-08-06T09:00:00Z"));

    let deep = list_times(
        records.clone(),
        TimeListOptions {
            name: Some("Deep work".to_owned()),
            ..TimeListOptions::default()
        },
        now(),
    )
    .unwrap();
    assert_eq!(deep.total, 2);

    // Exactly, not case-insensitively: a group is its name as written.
    let shouted = list_times(
        records,
        TimeListOptions {
            name: Some("DEEP WORK".to_owned()),
            ..TimeListOptions::default()
        },
        now(),
    )
    .unwrap();
    assert_eq!(shouted.total, 0);
}

#[test]
fn a_window_admits_overlapping_entries() {
    let records = vec![
        entry(
            "Overnight",
            "2026-08-05T22:00:00Z",
            Some("2026-08-06T02:00:00Z"),
            &[],
        ),
        entry(
            "Yesterday",
            "2026-08-05T09:00:00Z",
            Some("2026-08-05T10:00:00Z"),
            &[],
        ),
    ];

    let today = list_times(
        records,
        TimeListOptions {
            from: Some(at("2026-08-06T00:00:00Z")),
            to: Some(at("2026-08-07T00:00:00Z")),
            ..TimeListOptions::default()
        },
        now(),
    )
    .unwrap();
    assert_eq!(today.total, 1);
    assert_eq!(today.times[0].name, "Overnight");
}

#[test]
fn lists_filtered_by_the_page_the_time_was_spent_on() {
    let records = vec![
        entry("Deep work", "2026-08-06T09:00:00Z", None, &["notes/a"]),
        entry("Email", "2026-08-06T11:00:00Z", None, &["notes/b"]),
    ];

    let list = list_times(
        records,
        TimeListOptions {
            page: Some("notes/a".to_owned()),
            ..TimeListOptions::default()
        },
        now(),
    )
    .unwrap();
    assert_eq!(list.total, 1);
    assert_eq!(list.times[0].name, "Deep work");
}

#[test]
fn paginates_and_reports_the_full_total() {
    let records: Vec<TimeRecord> = (0..5)
        .map(|hour| entry("Deep work", &format!("2026-08-06T0{hour}:00:00Z"), None, &[]))
        .collect();

    let page = list_times(
        records,
        TimeListOptions {
            limit: 2,
            offset: 2,
            ..TimeListOptions::default()
        },
        now(),
    )
    .unwrap();
    assert_eq!(page.times.len(), 2);
    assert_eq!(page.total, 5, "total counts every entry, not the slice");
    // Newest first, so the third and fourth newest.
    assert_eq!(page.times[0].start, at("2026-08-06T02:00:00Z"));
    assert_eq!(page.times[1].start, at("2026-08-06T01:00:00Z"));
}

#[test]
fn an_offset_past_the_end_is_an_empty_page() {
    let records = vec![entry("Deep work", "2026-08-06T09:00:00Z", None, &[])];
    let page = list_times(
        records,
        TimeListOptions {
            offset: 7,
            ..TimeListOptions::default()
        },
        now(),
    )
    .unwrap();
    assert!(page.times.is_empty());
    assert_eq!(page.total, 1);
}

#[test]
fn lists_by_duration_and_by_name() {
    let records = vec![
        entry(
            "Beta",
            "2026-08-06T09:00:00Z",
            Some("2026-08-06T09:10:00Z"),
            &[],
        ),
        entry(
            "Alpha",
            "2026-08-06T10:00:00Z",
            Some("2026-08-06T12:00:00Z"),
            &[],
        ),
        entry("Gamma", "2026-08-06T19:00:00Z", None, &[]),
    ];

    let longest = list_times(
        records.clone(),
        TimeListOptions {
            sort: TimeSortBy::Duration,
            ..TimeListOptions::default()
        },
        now(),
    )
    .unwrap();
    let names: Vec<&str> = longest.times.iter().map(|t| t.name.as_str()).collect();
    assert_eq!(names, vec!["Alpha", "Gamma", "Beta"]);

    let by_name = list_times(
        records,
        TimeListOptions {
            sort: TimeSortBy::Name,
            order: SortOrder::Ascending,
            ..TimeListOptions::default()
        },
        now(),
    )
    .unwrap();
    let names: Vec<&str> = by_name.times.iter().map(|t| t.name.as_str()).collect();
    assert_eq!(names, vec!["Alpha", "Beta", "Gamma"]);
}

#[test]
fn equal_keys_list_the_later_id_first() {
    let mut first = entry("Same", "2026-08-06T09:00:00Z", None, &[]);
    first.id = "a".to_owned();
    let mut second = entry("Same", "2026-08-06T09:00:00Z", None, &[]);
    second.id = "b".to_owned();

    let list = list_times(vec![first, second], TimeListOptions::default(), now()).unwrap();
    assert_eq!(list.times[0].id, "b");
    assert_eq!(list.times[1].id, "a");
}

#[test]
fn an_instant_the_index_cannot_hold_is_refused_by_name() {
    let far = i128::from(i64::MAX) + 1;
    match list_times(Vec::new(), TimeListOptions::default(), far) {
        Err(IndexError::TimestampOutOfRange { label }) => assert_eq!(label, "now"),
        _ => panic!("now out of range must be refused"),
    }
    match list_times(
        Vec::new(),
        TimeListOptions {
            to: Some(far),
            ..TimeListOptions::default()
        },
        now(),
    ) {
        Err(IndexError::TimestampOutOfRange { label }) => assert_eq!(label, "to"),
        _ => panic!("to out of range must be refused"),
    }
    match list_times(
        Vec::new(),
        TimeListOptions {
            from: Some(-far - 1),
            to: Some(far),
            ..TimeListOptions::default()
        },
        now(),
    ) {
        Err(IndexError::TimestampOutOfRange { label }) => assert_eq!(label, "from"),
        _ => panic!("from out of range must be refused first"),
    }
}

#[test]
fn groups_entries_by_name_most_time_first() {
    let records = vec![
        entry(
            "Email",
            "2026-08-06T11:00:00Z",
            Some("2026-08-06T11:30:00Z"),
            &[],
        ),
        entry(
            "Deep work",
            "2026-08-06T09:00:00Z",
            Some("2026-08-06T11:00:00Z"),
            &[],
        ),
        entry(
            "Deep work",
            "2026-08-06T14:00:00Z",
            Some("2026-08-06T15:00:00Z"),
            &[],
        ),
        entry("Deep work", "2026-08-06T19:00:00Z", None, &[]),
    ];

    let groups = time_groups(&records, now_nanos()).unwrap();
    assert_eq!(groups.len(), 2);
    assert_eq!(groups[0].name, "Deep work");
    assert_eq!(groups[0].entries, 3);
    assert_eq!(groups[0].running, 1);
    // Two finished hours plus an hour still running.
    assert_eq!(groups[0].seconds, 4 * 3600);
    assert_eq!(groups[0].first_start, at("2026-08-06T09:00:00Z"));
    assert_eq!(groups[0].last_start, at("2026-08-06T19:00:00Z"));
    assert_eq!(groups[1].name, "Email");
    assert_eq!(groups[1].seconds, 30 * 60);

    // The totals count what the groups count.
    let totals = time_totals(&records, now_nanos()).unwrap();
    assert_eq!(totals.groups, groups.len());
    assert_eq!(
        totals.entries,
        groups.iter().map(|group| group.entries).sum::<usize>()
    );
}

#[test]
fn groups_with_equal_time_go_by_name() {
    let records = vec![
        entry(
            "Zither",
            "2026-08-06T09:00:00Z",
            Some("2026-08-06T10:00:00Z"),
            &[],
        ),
        entry(
            "Accordion",
            "2026-08-06T11:00:00Z",
            Some("2026-08-06T12:00:00Z"),
            &[],
        ),
    ];
    let groups = time_groups(&records, now_nanos()).unwrap();
    assert_eq!(groups[0].name, "Accordion");
    assert_eq!(groups[1].name, "Zither");
}

#[test]
fn sums_too_large_for_the_index_are_refused() {
    let mut huge = entry("Forever", "2026-08-06T09:00:00Z", None, &[]);
    huge.start = i128::from(i64::MIN);
    huge.end = Some(i128::from(i64::MAX));
    assert!(time_totals(&vec![huge.clone()], now_nanos()).is_none());
    assert!(time_groups(&vec![huge.clone()], now_nanos()).is_none());
    let mut attached = huge;
    attached.pages = vec![TimePageRef {
        slug: Slug::new("notes/a".to_owned()),
        title: None,
    }];
    assert!(page_times(vec![attached], "notes/a", now_nanos()).is_none());
}

#[test]
fn summarises_the_time_attached_to_a_page() {
    let records = vec![
        entry(
            "Deep work",
            "2026-08-06T09:00:00Z",
            Some("2026-08-06T11:00:00Z"),
            &["notes/a"],
        ),
        entry(
            "Reading",
            "2026-08-06T14:00:00Z",
            Some("2026-08-06T15:00:00Z"),
            &["notes/a"],
        ),
        entry("Deep work", "2026-08-06T19:00:00Z", None, &["notes/a"]),
        entry("Elsewhere", "2026-08-06T08:00:00Z", None, &["notes/b"]),
    ];

    let times = page_times(records, "notes/a", now_nanos()).unwrap();
    assert_eq!(times.entries, 3);
    assert_eq!(times.running, 1);
    assert_eq!(times.groups, 2);
    assert_eq!(times.seconds, 4 * 3600);
    assert_eq!(times.recent[0].name, "Deep work");
    assert_eq!(times.recent[0].start, at("2026-08-06T19:00:00Z"));
    assert_eq!(times.recent[0].seconds, 3600);
    assert_eq!(times.recent[1].name, "Reading");
    assert_eq!(times.recent.len(), 3);
}

#[test]
fn a_page_summary_samples_at_most_ten() {
    let records: Vec<TimeRecord> = (0..12)
        .map(|hour| {
            let start = format!("2026-08-06T{:02}:00:00Z", hour);
            let end = format!("2026-08-06T{:02}:30:00Z", hour);
            entry("Deep work", &start, Some(end.as_str()), &["notes/a"])
        })
        .collect();
    let times = page_times(records, "notes/a", now_nanos()).unwrap();
    assert_eq!(times.entries, 12);
    assert_eq!(times.recent.len(), 10);
    assert_eq!(times.recent[0].start, at("2026-08-06T11:00:00Z"));
    assert_eq!(times.recent[9].start, at("2026-08-06T02:00:00Z"));
}

#[test]
fn a_page_with_no_time_reports_zeroes_rather_than_nothing() {
    let times = page_times(Vec::new(), "notes/a", now_nanos()).unwrap();
    assert_eq!(times, PageTimes::default());
}
