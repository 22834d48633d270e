use period_search::progress::{CompletionTable, SweepConfig, MAX_PERIOD, MIN_PERIOD, TABLE_SIZE};
use period_search::search::{search_period, Finding};

#[test]
fn new_table_marks_the_periods_below_the_start() {
    let table = CompletionTable::new(5);
    assert_eq!(table.completed.len(), 64);
    for period in 0..64 {
        assert_eq!(table.is_completed(period), period < 5);
    }
    assert_eq!(table.least_uncompleted(), Some(5));
}

#[test]
fn complete_reports_the_least_open_period() {
    let mut table = CompletionTable::new(5);
    assert_eq!(table.complete(7), Some(5));
    assert_eq!(table.complete(5), Some(6));
    assert_eq!(table.complete(6), Some(8));
    assert!(table.is_completed(5));
    assert!(table.is_completed(6));
    assert!(table.is_completed(7));
    assert!(!table.is_completed(8));
}

#[test]
fn complete_changes_one_mark_only() {
    let mut table = CompletionTable::new(5);
    let before = table.completed.clone();
    table.complete(20);
    for period in 0..64 {
        assert_eq!(table.completed[period], before[period] || period == 20);
    }
}

#[test]
fn a_full_table_has_no_open_period() {
    let mut table = CompletionTable::new(63);
    assert_eq!(table.least_uncompleted(), Some(63));
    assert_eq!(table.complete(63), None);
    assert_eq!(table.least_uncompleted(), None);
    assert_eq!(CompletionTable::new(64).least_uncompleted(), None);
    assert_eq!(CompletionTable::new(0).least_uncompleted(), Some(0));
}

#[test]
fn a_completed_period_is_seen_before_a_second_completion() {
    let mut table = CompletionTable::new(5);
    assert!(!table.is_completed(9));
    table.complete(9);
    assert!(table.is_completed(9));
}

#[test]
fn period_five_is_searched_and_completed() {
    let mut table = CompletionTable::new(5);
    let found = search_period(5);
    assert_eq!(found, vec![Finding::Trivial { period: 5 }]);
    let least = table.complete(5);
    assert!(table.is_completed(5));
    assert_eq!(least, Some(6));
}

#[test]
fn standard_sweep_covers_five_to_sixty() {
    let config = SweepConfig::standard();
    assert_eq!(config, SweepConfig { start_period: 5, end_period: 61, worker_count: 7 });
    assert!(config.is_valid());
}

#[test]
fn sweep_limits() {
    assert_eq!(TABLE_SIZE, 64);
    assert_eq!(MIN_PERIOD, 3);
    assert_eq!(MAX_PERIOD, 63);
    let ok = SweepConfig { start_period: 3, end_period: 64, worker_count: 1 };
    assert!(ok.is_valid());
    assert!(SweepConfig { start_period: 4, end_period: 4, worker_count: 1 }.is_valid());
    assert!(!SweepConfig { start_period: 2, end_period: 10, worker_count: 1 }.is_valid());
    assert!(!SweepConfig { start_period: 5, end_period: 65, worker_count: 1 }.is_valid());
    assert!(!SweepConfig { start_period: 9, end_period: 8, worker_count: 1 }.is_valid());
    assert!(!SweepConfig { start_period: 5, end_period: 10, worker_count: 0 }.is_valid());
}
