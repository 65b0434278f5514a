use query_log::entry::QueryLog;
use query_log::store::{QueryLogRepository, MAX_ENTRIES};

fn pairs(log: &QueryLogRepository) -> Vec<(u64, String)> {
    log.entries().iter().map(|e| (e.timestamp, e.query.clone())).collect()
}

fn pair(timestamp: u64, query: &str) -> (u64, String) {
    (timestamp, query.to_string())
}

#[test]
fn new_log_is_empty() {
    let log = QueryLogRepository::new();
    assert_eq!(log.len(), 0);
    assert!(log.is_empty());
    assert!(log.entries().is_empty());
}

#[test]
fn capacity_is_one_hundred() {
    assert_eq!(MAX_ENTRIES, 100);
}

#[test]
fn recorded_entries_come_out_in_order_of_time() {
    let mut log = QueryLogRepository::new();
    log.add_entry(QueryLog::new(30, "c"));
    log.add_entry(QueryLog::new(10, "a"));
    log.add_entry(QueryLog::new(20, "b"));
    assert_eq!(pairs(&log), vec![pair(10, "a"), pair(20, "b"), pair(30, "c")]);
    assert_eq!(log.len(), 3);
    assert!(!log.is_empty());
}

#[test]
fn entry_with_a_tied_timestamp_goes_behind_its_ties() {
    let mut log = QueryLogRepository::new();
    log.add_entry(QueryLog::new(10, "a"));
    log.add_entry(QueryLog::new(20, "b"));
    log.add_entry(QueryLog::new(10, "c"));
    assert_eq!(pairs(&log), vec![pair(10, "a"), pair(10, "c"), pair(20, "b")]);
}

#[test]
fn same_query_twice_leaves_one_entry_with_the_second_time() {
    let mut log = QueryLogRepository::new();
    log.add_entry(QueryLog::new(100, "Q"));
    log.add_entry(QueryLog::new(250, "Q"));
    assert_eq!(pairs(&log), vec![pair(250, "Q")]);
}

#[test]
fn running_a_query_again_moves_it_to_the_most_recent_place() {
    let mut log = QueryLogRepository::new();
    log.add_entry(QueryLog::new(1, "first"));
    log.add_entry(QueryLog::new(2, "second"));
    log.add_entry(QueryLog::new(3, "third"));
    log.add_entry(QueryLog::new(4, "first"));
    assert_eq!(pairs(&log), vec![pair(2, "second"), pair(3, "third"), pair(4, "first")]);
}

#[test]
fn running_a_query_again_at_the_same_time_changes_nothing() {
    let mut log = QueryLogRepository::new();
    log.add_entry(QueryLog::new(5, "a"));
    log.add_entry(QueryLog::new(5, "b"));
    log.add_entry(QueryLog::new(5, "a"));
    assert_eq!(pairs(&log), vec![pair(5, "b"), pair(5, "a")]);
}

#[test]
fn queries_differ_by_their_exact_text() {
    let mut log = QueryLogRepository::new();
    log.add_entry(QueryLog::new(1, "select 1"));
    log.add_entry(QueryLog::new(2, "SELECT 1"));
    log.add_entry(QueryLog::new(3, "select 1 "));
    assert_eq!(log.len(), 3);
}

#[test]
fn one_entry_more_than_the_capacity_evicts_the_first() {
    let mut log = QueryLogRepository::new();
    for i in 0..101u64 {
        log.add_entry(QueryLog::new(1_000 + i, &format!("query {}", i)));
    }
    assert_eq!(log.len(), 100);
    let held = pairs(&log);
    assert!(!held.iter().any(|(_, q)| q == "query 0"));
    assert_eq!(held[0], pair(1_001, "query 1"));
    assert_eq!(held[99], pair(1_100, "query 100"));
}

#[test]
fn exactly_the_capacity_evicts_nothing() {
    let mut log = QueryLogRepository::new();
    for i in 0..100u64 {
        log.add_entry(QueryLog::new(i, &format!("query {}", i)));
    }
    assert_eq!(log.len(), 100);
    assert_eq!(pairs(&log)[0], pair(0, "query 0"));
}

#[test]
fn log_never_grows_beyond_the_capacity() {
    let mut log = QueryLogRepository::new();
    for i in 0..350u64 {
        log.add_entry(QueryLog::new(i, &format!("query {}", i % 170)));
        assert!(log.len() <= MAX_ENTRIES);
    }
    assert_eq!(log.len(), 100);
    assert_eq!(pairs(&log)[0], pair(250, "query 80"));
    assert_eq!(pairs(&log)[99], pair(349, "query 9"));
}

#[test]
fn rerunning_a_query_in_a_full_log_evicts_nothing() {
    let mut log = QueryLogRepository::new();
    for i in 0..100u64 {
        log.add_entry(QueryLog::new(i, &format!("query {}", i)));
    }
    log.add_entry(QueryLog::new(500, "query 0"));
    assert_eq!(log.len(), 100);
    let held = pairs(&log);
    assert_eq!(held[0], pair(1, "query 1"));
    assert_eq!(held[99], pair(500, "query 0"));
}

#[test]
fn entry_older_than_a_full_log_leaves_at_once() {
    let mut log = QueryLogRepository::new();
    for i in 0..100u64 {
        log.add_entry(QueryLog::new(1_000 + i, &format!("query {}", i)));
    }
    let before = pairs(&log);
    log.add_entry(QueryLog::new(5, "late"));
    assert_eq!(pairs(&log), before);
}

#[test]
fn entry_as_old_as_the_oldest_of_a_full_log_replaces_it() {
    let mut log = QueryLogRepository::new();
    for i in 0..100u64 {
        log.add_entry(QueryLog::new(1_000 + i, &format!("query {}", i)));
    }
    log.add_entry(QueryLog::new(1_000, "tie"));
    assert_eq!(log.len(), 100);
    assert_eq!(pairs(&log)[0], pair(1_000, "tie"));
    assert_eq!(pairs(&log)[1], pair(1_001, "query 1"));
}

#[test]
fn timestamps_never_decrease_along_the_entries() {
    let mut log = QueryLogRepository::new();
    let mut t: u64 = 7;
    for i in 0..300u64 {
        t = (t * 31 + 11) % 1_000;
        log.add_entry(QueryLog::new(t, &format!("query {}", i % 130)));
        let held = log.entries();
        for w in held.windows(2) {
            assert!(w[0].timestamp <= w[1].timestamp);
        }
    }
}

#[test]
fn no_two_entries_share_a_query() {
    let mut log = QueryLogRepository::new();
    let mut t: u64 = 3;
    for i in 0..300u64 {
        t = (t * 17 + 5) % 500;
        log.add_entry(QueryLog::new(t, &format!("query {}", i % 40)));
    }
    let held = pairs(&log);
    assert_eq!(held.len(), 40);
    for i in 0..held.len() {
        for j in (i + 1)..held.len() {
            assert_ne!(held[i].1, held[j].1);
        }
    }
}

#[test]
fn largest_timestamp_is_held() {
    let mut log = QueryLogRepository::new();
    log.add_entry(QueryLog::new(u64::MAX, "last"));
    log.add_entry(QueryLog::new(0, "first"));
    log.add_entry(QueryLog::new(u64::MAX, "very last"));
    assert_eq!(pairs(&log), vec![pair(0, "first"), pair(u64::MAX, "last"), pair(u64::MAX, "very last")]);
}

#[test]
fn from_entries_orders_by_time() {
    let entries = vec![QueryLog::new(9, "z"), QueryLog::new(3, "y"), QueryLog::new(6, "x")];
    let log = QueryLogRepository::from_entries(&entries);
    assert_eq!(pairs(&log), vec![pair(3, "y"), pair(6, "x"), pair(9, "z")]);
}

#[test]
fn from_entries_keeps_the_first_entry_of_a_query() {
    let entries = vec![QueryLog::new(9, "q"), QueryLog::new(3, "other"), QueryLog::new(1, "q")];
    let log = QueryLogRepository::from_entries(&entries);
    assert_eq!(pairs(&log), vec![pair(3, "other"), pair(9, "q")]);
}

#[test]
fn from_entries_of_nothing_is_empty() {
    let log = QueryLogRepository::from_entries(&Vec::new());
    assert!(log.is_empty());
}

#[test]
fn from_entries_does_not_cut_back_to_the_capacity() {
    let entries: Vec<QueryLog> = (0..120u64).map(|i| QueryLog::new(i, &format!("q{}", i))).collect();
    let mut log = QueryLogRepository::from_entries(&entries);
    assert_eq!(log.len(), 120);
    log.add_entry(QueryLog::new(500, "new"));
    assert_eq!(log.len(), 120);
    assert_eq!(pairs(&log)[0], pair(1, "q1"));
}

#[test]
fn from_entries_of_its_own_entries_is_the_same_log() {
    let mut log = QueryLogRepository::new();
    for i in 0..20u64 {
        log.add_entry(QueryLog::new((i * 7) % 5, &format!("query {}", i)));
    }
    let again = QueryLogRepository::from_entries(log.entries());
    assert_eq!(pairs(&again), pairs(&log));
}
