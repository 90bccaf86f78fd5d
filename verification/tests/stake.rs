use pool_delegators::stake_delegators::{
    copy_of, read_delegators_from_file, refreshed, same_texts, update_stake_delegators_cache,
    CacheUpdate, DelegatorsWithTimestamp, STAKE_DELEGATORS_FILENAME,
};
use pool_delegators::str_map::StrMap;

fn stakes(entries: &[(&str, &str)]) -> StrMap<String> {
    let mut map = StrMap::new();
    for (delegator, stake) in entries {
        map.insert(delegator.to_string(), stake.to_string());
    }
    map
}

fn record(timestamp: i64, entries: &[(&str, &str)]) -> DelegatorsWithTimestamp {
    DelegatorsWithTimestamp { timestamp, stake_delegators: stakes(entries) }
}

#[test]
fn stake_file_name() {
    assert_eq!(STAKE_DELEGATORS_FILENAME, "stake_delegators.json");
}

#[test]
fn stake_maps_are_compared_by_their_texts() {
    let a = stakes(&[("d1", "10"), ("d2", "20")]);
    assert!(same_texts(&a, &stakes(&[("d2", "20"), ("d1", "10")])));
    assert!(!same_texts(&a, &stakes(&[("d1", "10")])));
    assert!(!same_texts(&a, &stakes(&[("d1", "10"), ("d2", "21")])));
    assert!(!same_texts(&a, &stakes(&[("d1", "10"), ("d3", "20")])));
    assert!(same_texts(&stakes(&[]), &stakes(&[])));
    assert!(same_texts(&copy_of(&a), &a));
}

#[test]
fn unreadable_stake_file_gives_the_default_record() {
    let loaded = read_delegators_from_file(None);
    assert_eq!(loaded.timestamp, 0);
    assert!(loaded.stake_delegators.is_empty());
    let loaded = read_delegators_from_file(Some(record(12, &[("d1", "5")])));
    assert_eq!(loaded.timestamp, 12);
    assert!(same_texts(&loaded.stake_delegators, &stakes(&[("d1", "5")])));
    let default = DelegatorsWithTimestamp::default();
    assert_eq!(default.timestamp, 0);
    assert!(default.stake_delegators.is_empty());
}

#[test]
fn unchanged_stakes_within_ttl_are_not_written() {
    let update = refreshed(record(1000, &[("d1", "5")]), stakes(&[("d1", "5")]), 2799);
    match update {
        CacheUpdate::UpToDate(kept) => {
            assert_eq!(kept.timestamp, 1000);
            assert!(same_texts(&kept.stake_delegators, &stakes(&[("d1", "5")])));
        }
        CacheUpdate::Written(_) => panic!("nothing was to be written"),
    }
}

#[test]
fn unchanged_stakes_at_ttl_are_written_anew() {
    let update = refreshed(record(1000, &[("d1", "5")]), stakes(&[("d1", "5")]), 2800);
    match update {
        CacheUpdate::Written(written) => {
            assert_eq!(written.timestamp, 2800);
            assert!(same_texts(&written.stake_delegators, &stakes(&[("d1", "5")])));
        }
        CacheUpdate::UpToDate(_) => panic!("the record was to be written"),
    }
}

#[test]
fn changed_stakes_are_written() {
    let update = refreshed(record(1000, &[("d1", "5")]), stakes(&[("d1", "6"), ("d2", "1")]), 1001);
    match update {
        CacheUpdate::Written(written) => {
            assert_eq!(written.timestamp, 1001);
            assert!(same_texts(&written.stake_delegators, &stakes(&[("d1", "6"), ("d2", "1")])));
            let copy = written.clone();
            assert_eq!(copy.timestamp, 1001);
            assert!(same_texts(&copy.stake_delegators, &written.stake_delegators));
        }
        CacheUpdate::UpToDate(_) => panic!("the record was to be written"),
    }
}

#[test]
fn stake_update_goes_by_the_clock() {
    let update = update_stake_delegators_cache(record(0, &[("d1", "5")]), stakes(&[("d1", "5")]));
    match update {
        CacheUpdate::Written(written) => {
            assert!(written.timestamp > 1_600_000_000);
            assert!(same_texts(&written.stake_delegators, &stakes(&[("d1", "5")])));
        }
        CacheUpdate::UpToDate(_) => panic!("a record of time 0 is not recent"),
    }
    let update = update_stake_delegators_cache(
        record(i64::MAX, &[("d1", "5")]),
        stakes(&[("d1", "5")]),
    );
    match update {
        CacheUpdate::UpToDate(kept) => assert_eq!(kept.timestamp, i64::MAX),
        CacheUpdate::Written(_) => panic!("a record of the far future is recent"),
    }
}
