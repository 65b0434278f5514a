use query_log::entry::QueryLog;
use query_log::error::LogError;
use std::time::{Duration, SystemTime, UNIX_EPOCH};

#[test]
fn new_entry_holds_timestamp_and_query() {
    let entry = QueryLog::new(1700000000, "SELECT * FROM i0");
    assert_eq!(entry.timestamp, 1700000000);
    assert_eq!(entry.query, "SELECT * FROM i0");
}

#[test]
fn duplicate_is_an_equal_entry() {
    let entry = QueryLog::new(77, "SELECT 77");
    let copy = entry.duplicate();
    assert_eq!(copy.timestamp, 77);
    assert_eq!(copy.query, "SELECT 77");
}

#[test]
fn try_new_stamps_the_query_with_the_current_time() {
    let before = SystemTime::now().duration_since(UNIX_EPOCH).unwrap().as_secs();
    let entry = match QueryLog::try_new("SELECT now()") {
        Ok(entry) => entry,
        Err(e) => panic!("{}", e.message()),
    };
    let after = SystemTime::now().duration_since(UNIX_EPOCH).unwrap().as_secs();
    assert_eq!(entry.query, "SELECT now()");
    assert!(before <= entry.timestamp && entry.timestamp <= after);
    assert!(entry.timestamp > 1_600_000_000);
}

#[test]
fn from_elapsed_takes_the_whole_seconds() {
    let entry = QueryLog::from_elapsed(Ok(Duration::from_millis(5_999)), "q").unwrap();
    assert_eq!(entry.timestamp, 5);
    assert_eq!(entry.query, "q");
    let entry = QueryLog::from_elapsed(Ok(Duration::from_secs(1_700_000_000)), "q").unwrap();
    assert_eq!(entry.timestamp, 1_700_000_000);
    let entry = QueryLog::from_elapsed(Ok(Duration::ZERO), "q").unwrap();
    assert_eq!(entry.timestamp, 0);
}

#[test]
fn clock_before_the_epoch_is_a_clock_error() {
    let before_epoch = UNIX_EPOCH - Duration::from_secs(10);
    let elapsed = before_epoch.duration_since(UNIX_EPOCH);
    assert!(elapsed.is_err());
    match QueryLog::from_elapsed(elapsed, "q") {
        Ok(_) => panic!("stamped"),
        Err(e) => assert_eq!(e, LogError::Clock),
    }
}

#[test]
fn each_error_has_its_message() {
    assert_eq!(LogError::Io.message(), "log file i/o error");
    assert_eq!(LogError::Serialization.message(), "log file is not a valid query log");
    assert_eq!(LogError::Clock.message(), "system clock is before the Unix epoch");
    assert_ne!(LogError::Io, LogError::Clock);
    assert_ne!(LogError::Io, LogError::Serialization);
}
