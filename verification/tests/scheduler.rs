use pool_delegators::account_set::AccountSet;
use pool_delegators::scheduler::{PendingWork, BATCH_SIZE, TICK_SECONDS};

fn accounts(names: &[&str]) -> AccountSet {
    let mut set = AccountSet::new();
    for name in names {
        set.insert(name.to_string());
    }
    set
}

fn batch_of(entries: &[(&str, u64)]) -> Vec<(String, u64)> {
    entries.iter().map(|(name, mark)| (name.to_string(), *mark)).collect()
}

#[test]
fn scheduler_constants() {
    assert_eq!(BATCH_SIZE, 5);
    assert_eq!(TICK_SECONDS, 60);
}

#[test]
fn dedup_watermark() {
    let mut work = PendingWork::new();
    assert!(work.submit("v1.near".to_string(), 10));
    assert!(work.submit("v1.near".to_string(), 20));
    assert_eq!(work.pending_len(), 1);
    assert_eq!(work.pending_watermark("v1.near"), Some(20));
    let batch = work.take_batch(BATCH_SIZE);
    assert_eq!(batch, batch_of(&[("v1.near", 20)]));
    assert_eq!(work.pending_len(), 0);
    assert_eq!(work.in_flight_watermark("v1.near"), Some(20));
    assert!(!work.submit("v1.near".to_string(), 5));
    assert_eq!(work.pending_len(), 0);
    assert!(work.take_batch(BATCH_SIZE).is_empty());
}

#[test]
fn a_stale_request_is_dropped_while_the_higher_one_waits() {
    let mut work = PendingWork::new();
    assert!(work.submit("v1".to_string(), 20));
    assert!(!work.submit("v1".to_string(), 5));
    assert!(!work.submit("v1".to_string(), 20));
    assert!(work.is_covered("v1", 20));
    assert!(!work.is_covered("v1", 21));
    assert!(!work.is_covered("v2", 0));
    assert_eq!(work.pending_watermark("v1"), Some(20));
    assert_eq!(work.pending_watermark("v2"), None);
    assert_eq!(work.in_flight_watermark("v1"), None);
}

#[test]
fn a_higher_request_waits_while_the_lower_one_is_in_flight() {
    let mut work = PendingWork::new();
    assert!(work.submit("v1".to_string(), 10));
    assert_eq!(work.take_batch(5), batch_of(&[("v1", 10)]));
    assert!(work.submit("v1".to_string(), 11));
    assert_eq!(work.pending_watermark("v1"), Some(11));
    assert_eq!(work.in_flight_watermark("v1"), Some(10));
    assert!(work.take_batch(5).is_empty());
    assert_eq!(work.pending_len(), 1);
    assert_eq!(work.complete("v1", true), Some(10));
    assert_eq!(work.committed_watermark("v1"), Some(10));
    assert_eq!(work.in_flight_len(), 0);
    assert_eq!(work.take_batch(5), batch_of(&[("v1", 11)]));
    assert_eq!(work.complete("v1", true), Some(11));
    assert_eq!(work.complete("v1", true), None);
    assert_eq!(work.committed_watermark("v1"), Some(11));
    assert!(!work.submit("v1".to_string(), 5));
    assert!(!work.submit("v1".to_string(), 11));
    assert_eq!(work.pending_len(), 0);
    assert!(work.take_batch(5).is_empty());
    assert!(work.submit("v1".to_string(), 12));
    assert_eq!(work.take_batch(5), batch_of(&[("v1", 12)]));
}

#[test]
fn a_request_is_dropped_once_a_higher_one_has_committed() {
    let mut work = PendingWork::new();
    assert!(work.submit("v".to_string(), 20));
    assert_eq!(work.take_batch(BATCH_SIZE), batch_of(&[("v", 20)]));
    assert_eq!(work.complete("v", true), Some(20));
    assert_eq!(work.pending_len(), 0);
    assert_eq!(work.in_flight_len(), 0);
    assert!(work.is_covered("v", 10));
    assert!(work.is_covered("v", 20));
    assert!(!work.is_covered("v", 21));
    assert!(!work.submit("v".to_string(), 10));
    assert!(work.take_batch(BATCH_SIZE).is_empty());
    assert!(!work.is_covered("w", 0));
}

#[test]
fn a_failed_fetch_commits_no_watermark() {
    let mut work = PendingWork::new();
    assert!(work.submit("v".to_string(), 20));
    assert_eq!(work.take_batch(BATCH_SIZE), batch_of(&[("v", 20)]));
    assert_eq!(work.complete("v", false), Some(20));
    assert_eq!(work.committed_watermark("v"), None);
    assert!(work.submit("v".to_string(), 10));
    assert_eq!(work.take_batch(BATCH_SIZE), batch_of(&[("v", 10)]));
    assert_eq!(work.complete("v", true), Some(10));
    assert_eq!(work.committed_watermark("v"), Some(10));
    assert!(work.submit("v".to_string(), 20));
}

#[test]
fn a_committed_watermark_is_never_lowered() {
    let mut work = PendingWork::new();
    work.submit("v".to_string(), 30);
    work.take_batch(1);
    work.complete("v", true);
    assert_eq!(work.committed_watermark("v"), Some(30));
    work.complete("v", true);
    work.complete("w", true);
    assert_eq!(work.committed_watermark("v"), Some(30));
    assert_eq!(work.committed_watermark("w"), None);
}

#[test]
fn batches_take_the_first_validators_in_order() {
    let mut work = PendingWork::new();
    for (name, mark) in [("g", 7u64), ("a", 1), ("e", 5), ("c", 3), ("b", 2), ("f", 6), ("d", 4)] {
        assert!(work.submit(name.to_string(), mark));
    }
    assert_eq!(work.pending_len(), 7);
    let first = work.take_batch(BATCH_SIZE);
    assert_eq!(first, batch_of(&[("a", 1), ("b", 2), ("c", 3), ("d", 4), ("e", 5)]));
    assert_eq!(work.pending_len(), 2);
    assert_eq!(work.in_flight_len(), 5);
    let second = work.take_batch(BATCH_SIZE);
    assert_eq!(second, batch_of(&[("f", 6), ("g", 7)]));
    assert_eq!(work.pending_len(), 0);
    assert_eq!(work.in_flight_len(), 7);
    assert!(work.take_batch(0).is_empty());
}

#[test]
fn batches_skip_validators_in_flight() {
    let mut work = PendingWork::new();
    work.submit("a".to_string(), 1);
    work.submit("b".to_string(), 1);
    assert_eq!(work.take_batch(1), batch_of(&[("a", 1)]));
    work.submit("a".to_string(), 2);
    work.submit("c".to_string(), 1);
    assert_eq!(work.take_batch(2), batch_of(&[("b", 1), ("c", 1)]));
    assert_eq!(work.pending_watermark("a"), Some(2));
    assert_eq!(work.take_batch(0), Vec::new());
    work.complete("a", true);
    assert_eq!(work.take_batch(9), batch_of(&[("a", 2)]));
}

#[test]
fn full_refresh_schedules_every_validator() {
    let mut work = PendingWork::new();
    work.submit("v2".to_string(), 50);
    work.submit("v3".to_string(), 150);
    work.submit("v4".to_string(), 100);
    work.submit("v5".to_string(), 10);
    assert_eq!(work.take_batch(4).len(), 4);
    work.submit("v5".to_string(), 20);
    work.submit("v6".to_string(), 200);
    work.schedule_all(&accounts(&["v1", "v2", "v3", "v5", "v6"]), 100);
    assert_eq!(work.pending_watermark("v1"), Some(100));
    assert_eq!(work.pending_watermark("v2"), Some(100));
    assert_eq!(work.pending_watermark("v3"), None);
    assert_eq!(work.pending_watermark("v4"), None);
    assert_eq!(work.pending_watermark("v5"), Some(100));
    assert_eq!(work.pending_watermark("v6"), Some(200));
    assert_eq!(work.in_flight_watermark("v2"), Some(50));
    assert_eq!(work.in_flight_watermark("v3"), Some(150));
    assert_eq!(work.in_flight_len(), 4);
    assert_eq!(work.pending_len(), 4);
    work.schedule_all(&AccountSet::new(), 1000);
    assert_eq!(work.pending_len(), 4);
}

#[test]
fn new_work_is_idle() {
    let mut work = PendingWork::new();
    assert_eq!(work.pending_len(), 0);
    assert_eq!(work.in_flight_len(), 0);
    assert!(work.take_batch(5).is_empty());
    assert_eq!(work.complete("nobody", true), None);
    assert!(work.submit("v".to_string(), 0));
    assert!(!work.submit("v".to_string(), 0));
}
