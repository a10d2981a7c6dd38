use rhizolog::index::sync::{is_unchanged, plan_scan, Found, Outcome, SyncCounts, SyncReport};
use rhizolog::index::times::{nanos_to_seconds, TimeListOptions, TimeRecord, TimeSortBy};
use rhizolog::index::{SortOrder, Stamp};

#[test]
fn a_file_with_the_recorded_stamp_is_left_alone() {
    let stamp = Stamp {
        updated: 100,
        size: 7,
    };
    assert!(is_unchanged(Some(stamp), 100, 7));
    assert!(!is_unchanged(Some(stamp), 101, 7));
    assert!(!is_unchanged(Some(stamp), 100, 8));
    assert!(!is_unchanged(None, 100, 7));
}

#[test]
fn every_file_a_scan_found_is_counted_once() {
    let mut counts = SyncCounts::scanning(3);
    for outcome in [Outcome::Unchanged, Outcome::Indexed, Outcome::Failed] {
        counts = counts.tally(outcome);
    }
    counts = counts.tally_removed();
    assert_eq!(
        counts,
        SyncCounts {
            scanned: 3,
            indexed: 1,
            unchanged: 1,
            removed: 1,
            failed: 1
        }
    );
    assert!(counts.changed_anything());
    assert!(!SyncCounts::scanning(5).tally(Outcome::Unchanged).changed_anything());
}

#[test]
fn a_report_totals_every_tree() {
    let mut report = SyncReport::default();
    assert!(!report.changed_anything());
    report.ideas.failed = 2;
    report.pages.failed = 1;
    report.events.removed = 4;
    assert_eq!(report.failed(), 3);
    assert_eq!(report.removed(), 4);
    assert!(report.changed_anything());
    assert_eq!(report.every_tree()[4].removed, 4);
    report.words.observations = 10;
    assert_eq!(report.every_tree().len(), 5);
}

#[test]
fn durations_are_whole_seconds_and_never_negative() {
    assert_eq!(nanos_to_seconds(-5), 0);
    assert_eq!(nanos_to_seconds(2_999_999_999), 2);
    let record = TimeRecord {
        id: "x".to_owned(),
        name: "Deep work".to_owned(),
        start: 10_000_000_000,
        end: None,
        pages: Vec::new(),
        has_note: false,
        updated: 0,
        size: 0,
    };
    assert!(record.is_running());
    assert_eq!(record.seconds(12_500_000_000), 2);
    assert_eq!(record.seconds(9_000_000_000), 0);
    let finished = TimeRecord {
        end: Some(70_000_000_000),
        ..record
    };
    assert_eq!(finished.seconds(0), 60);
}

#[test]
fn the_time_log_lists_newest_first() {
    let options = TimeListOptions::default();
    assert_eq!(options.order, SortOrder::Descending);
    assert_eq!(options.sort, TimeSortBy::Start);
    assert_eq!(options.limit, 50);
    assert_eq!(
        TimeSortBy::Duration.expression(),
        "max(0, coalesce(ended, ?1) - started)"
    );
}

fn found(id: &str, updated: i128, size: u64) -> Found {
    Found {
        id: id.to_owned(),
        updated,
        size,
    }
}

fn recorded(id: &str, updated: i128, size: u64) -> (String, Stamp) {
    (id.to_owned(), Stamp { updated, size })
}

#[test]
fn a_scan_reads_what_changed_and_drops_what_is_gone() {
    let plan = plan_scan(
        &vec![
            found("same", 10, 100),
            found("touched", 11, 100),
            found("resized", 10, 101),
            found("new", 10, 100),
        ],
        &vec![
            recorded("same", 10, 100),
            recorded("touched", 10, 100),
            recorded("resized", 10, 100),
            recorded("gone", 10, 100),
        ],
    );
    assert_eq!(plan.unchanged, 1);
    assert_eq!(plan.to_read, vec![1, 2, 3]);
    assert_eq!(plan.stale, vec!["gone".to_owned()]);
}

#[test]
fn a_second_file_with_one_id_is_read_rather_than_trusted() {
    let plan = plan_scan(
        &vec![found("twice", 10, 100), found("twice", 10, 100)],
        &vec![recorded("twice", 10, 100)],
    );
    assert_eq!(plan.unchanged, 1);
    assert_eq!(plan.to_read, vec![1]);
    assert!(plan.stale.is_empty());
}

#[test]
fn the_last_recorded_stamp_for_an_id_counts_and_stale_ids_come_once() {
    let plan = plan_scan(
        &vec![found("kept", 20, 5)],
        &vec![
            recorded("kept", 10, 5),
            recorded("kept", 20, 5),
            recorded("gone", 1, 1),
            recorded("gone", 2, 2),
        ],
    );
    assert_eq!(plan.unchanged, 1);
    assert!(plan.to_read.is_empty());
    assert_eq!(plan.stale, vec!["gone".to_owned()]);
}
