use mtdalgos::errors::ErrorKind;
use mtdalgos::graph::Cost;
use mtdalgos::pool::{batch_status, check_thread_count, BatchStatus, OutcomeLog};
use mtdalgos::table::ResultTable;

#[test]
fn zero_threads_are_rejected_with_invalid_argument() {
    match check_thread_count(0) {
        Err(error) => assert_eq!(error.kind, ErrorKind::InvalidArgument),
        Ok(()) => panic!("a pool of zero threads must be rejected"),
    }
}

#[test]
fn positive_thread_counts_are_accepted() {
    for threads in [1, 2, 8] {
        assert!(check_thread_count(threads).is_ok());
    }
}

#[test]
fn outcome_log_counts_ten_successes_and_no_failures() {
    let mut log = OutcomeLog::new();
    for _ in 0..10 {
        log.record(true);
    }
    assert_eq!(log.jobs_ok(), 10);
    assert_eq!(log.jobs_err(), 0);
    assert_eq!(batch_status(log.jobs_ok(), log.jobs_err(), 10), BatchStatus::Complete);
}

#[test]
fn outcome_log_separates_successes_from_failures_and_resets() {
    let mut log = OutcomeLog::new();
    log.record(true);
    log.record(false);
    log.record(true);
    assert_eq!(log.jobs_ok(), 2);
    assert_eq!(log.jobs_err(), 1);
    log.reset_log();
    assert_eq!(log.jobs_ok(), 0);
    assert_eq!(log.jobs_err(), 0);
}

#[test]
fn batch_status_covers_all_three_outcomes() {
    assert_eq!(batch_status(0, 0, 5), BatchStatus::Pending);
    assert_eq!(batch_status(4, 0, 5), BatchStatus::Pending);
    assert_eq!(batch_status(5, 0, 5), BatchStatus::Complete);
    assert_eq!(batch_status(0, 0, 0), BatchStatus::Complete);
    assert_eq!(batch_status(0, 1, 5), BatchStatus::Failed);
    // one failure blocks the whole batch even when every other job succeeded
    assert_eq!(batch_status(5, 1, 5), BatchStatus::Failed);
}

#[test]
fn result_table_records_and_returns_entries() {
    let mut table = ResultTable::new(3);
    assert_eq!(table.len(), 3);
    assert!(table.get(0).is_none());
    assert!(table.get(3).is_none());

    let distances: Vec<Option<Cost>> = vec![Some(0), Some(4), None];
    table.insert(1, distances.clone());
    assert_eq!(table.get(1), Some(distances));
    assert!(table.get(0).is_none());
    assert!(table.get(2).is_none());
}
