use pool_delegators::account_set::AccountSet;
use pool_delegators::keys::{compare_keys, KeyOrder};
use pool_delegators::pool_map::PoolMap;
use pool_delegators::str_map::StrMap;

fn set_of(accounts: &[&str]) -> AccountSet {
    let mut set = AccountSet::new();
    for account in accounts {
        set.insert(account.to_string());
    }
    set
}

fn strings(accounts: &[&str]) -> Vec<String> {
    accounts.iter().map(|account| account.to_string()).collect()
}

#[test]
fn keys_are_ordered_byte_by_byte() {
    assert_eq!(compare_keys("a", "b"), KeyOrder::Before);
    assert_eq!(compare_keys("b", "a"), KeyOrder::After);
    assert_eq!(compare_keys("pool.near", "pool.near"), KeyOrder::Same);
    assert_eq!(compare_keys("", ""), KeyOrder::Same);
    assert_eq!(compare_keys("", "a"), KeyOrder::Before);
    assert_eq!(compare_keys("ab", "a"), KeyOrder::After);
    assert_eq!(compare_keys("a", "ab"), KeyOrder::Before);
    assert_eq!(compare_keys("Z", "a"), KeyOrder::Before);
    assert_eq!(compare_keys("a-b", "a.b"), KeyOrder::Before);
}

#[test]
fn keys_order_as_strings_do() {
    let samples = ["", "a", "ab", "b", "a.near", "a-near", "zz", "é", "z", "0", "10", "9"];
    for a in samples {
        for b in samples {
            let expected = if a < b {
                KeyOrder::Before
            } else if a == b {
                KeyOrder::Same
            } else {
                KeyOrder::After
            };
            assert_eq!(compare_keys(a, b), expected);
        }
    }
}

#[test]
fn str_map_holds_the_last_value_of_each_key() {
    let mut map: StrMap<u64> = StrMap::new();
    assert!(map.is_empty());
    assert_eq!(map.insert("b".to_string(), 2), None);
    assert_eq!(map.insert("a".to_string(), 1), None);
    assert_eq!(map.insert("c".to_string(), 3), None);
    assert_eq!(map.insert("b".to_string(), 20), Some(2));
    assert_eq!(map.len(), 3);
    assert!(!map.is_empty());
    assert_eq!(map.get("a"), Some(&1));
    assert_eq!(map.get("b"), Some(&20));
    assert_eq!(map.get("c"), Some(&3));
    assert_eq!(map.get("d"), None);
    assert!(map.contains_key("c"));
    assert!(!map.contains_key(""));
}

#[test]
fn str_map_walks_its_keys_in_increasing_order() {
    let mut map: StrMap<u64> = StrMap::new();
    for (key, value) in [("m", 1u64), ("z", 2), ("a", 3), ("q", 4), ("b", 5)] {
        map.insert(key.to_string(), value);
    }
    let mut keys = Vec::new();
    let mut values = Vec::new();
    for i in 0..map.len() {
        keys.push(map.key_at(i).clone());
        values.push(*map.value_at(i));
    }
    assert_eq!(keys, strings(&["a", "b", "m", "q", "z"]));
    assert_eq!(values, vec![3, 5, 1, 4, 2]);
    assert_eq!(map.index_of("m"), Some(2));
    assert_eq!(map.index_of("n"), None);
}

#[test]
fn str_map_removes_and_replaces() {
    let mut map: StrMap<u64> = StrMap::new();
    map.insert("a".to_string(), 1);
    map.insert("b".to_string(), 2);
    map.insert("c".to_string(), 3);
    assert_eq!(map.remove("b"), Some(2));
    assert_eq!(map.remove("b"), None);
    assert_eq!(map.len(), 2);
    assert_eq!(map.replace_at(1, 30), 3);
    assert_eq!(map.get("c"), Some(&30));
    assert_eq!(map.get("a"), Some(&1));
    assert_eq!(map.remove("a"), Some(1));
    assert_eq!(map.remove("c"), Some(30));
    assert!(map.is_empty());
}

#[test]
fn account_set_holds_each_account_once() {
    let mut set = AccountSet::new();
    assert!(set.is_empty());
    assert!(set.insert("b.near".to_string()));
    assert!(set.insert("a.near".to_string()));
    assert!(!set.insert("b.near".to_string()));
    assert_eq!(set.len(), 2);
    assert!(set.contains("a.near"));
    assert!(!set.contains("c.near"));
    assert_eq!(set.to_vec(), strings(&["a.near", "b.near"]));
    assert_eq!(set.get(0), "a.near");
    assert_eq!(set.get(1), "b.near");
    assert!(set.remove("a.near"));
    assert!(!set.remove("a.near"));
    assert_eq!(set.to_vec(), strings(&["b.near"]));
}

#[test]
fn account_set_from_vec_drops_repeats() {
    let set = AccountSet::from_vec(&strings(&["c", "a", "c", "b", "a"]));
    assert_eq!(set.to_vec(), strings(&["a", "b", "c"]));
    assert_eq!(AccountSet::from_vec(&Vec::new()).len(), 0);
}

#[test]
fn account_set_union_and_equality() {
    let mut left = set_of(&["a", "c"]);
    let right = set_of(&["b", "c", "d"]);
    left.union_with(&right);
    assert_eq!(left.to_vec(), strings(&["a", "b", "c", "d"]));
    assert!(left.same_as(&set_of(&["d", "c", "b", "a"])));
    assert!(!left.same_as(&right));
    assert!(!set_of(&["a", "b"]).same_as(&set_of(&["a", "c"])));
    assert_eq!(left.clone(), left);
    assert_ne!(left, right);
    assert_eq!(AccountSet::default(), AccountSet::new());
}

#[test]
fn pool_map_inserts_replaces_and_removes() {
    let mut map = PoolMap::new();
    assert!(map.is_empty());
    assert!(map.insert("v1".to_string(), set_of(&["a", "b"])).is_none());
    let previous = map.insert("v1".to_string(), set_of(&["b", "c"]));
    assert_eq!(previous, Some(set_of(&["a", "b"])));
    assert_eq!(map.get("v1"), Some(&set_of(&["b", "c"])));
    assert_eq!(map.get("v2"), None);
    assert!(map.contains_key("v1"));
    assert_eq!(map.len(), 1);
    assert_eq!(map.key_at(0), "v1");
    assert_eq!(map.pool_at(0), &set_of(&["b", "c"]));
    assert_eq!(map.remove("v1"), Some(set_of(&["b", "c"])));
    assert_eq!(map.remove("v1"), None);
    assert!(map.is_empty());
}

#[test]
fn pool_map_links_and_unlinks() {
    let mut map = PoolMap::new();
    map.add_link("d1".to_string(), "v1".to_string());
    map.add_link("d1".to_string(), "v2".to_string());
    map.add_link("d2".to_string(), "v1".to_string());
    assert_eq!(map.get("d1"), Some(&set_of(&["v1", "v2"])));
    assert_eq!(map.get("d2"), Some(&set_of(&["v1"])));
    map.remove_link("d1", "v3");
    map.remove_link("d3", "v1");
    assert_eq!(map.len(), 2);
    map.remove_link("d1", "v1");
    assert_eq!(map.get("d1"), Some(&set_of(&["v2"])));
    map.remove_link("d2", "v1");
    assert_eq!(map.get("d2"), None);
    assert_eq!(map.len(), 1);
}

#[test]
fn pool_map_unlink_keeps_an_empty_pool_that_was_there() {
    let mut map = PoolMap::new();
    map.insert("v1".to_string(), AccountSet::new());
    map.remove_link("v1", "a");
    assert_eq!(map.get("v1"), Some(&AccountSet::new()));
}

#[test]
fn pool_map_invert_turns_every_link_round() {
    let mut forward = PoolMap::new();
    forward.insert("v1".to_string(), set_of(&["a", "b"]));
    forward.insert("v2".to_string(), set_of(&["b", "c"]));
    forward.insert("v3".to_string(), AccountSet::new());
    let inverse = forward.invert();
    assert_eq!(inverse.len(), 3);
    assert_eq!(inverse.get("a"), Some(&set_of(&["v1"])));
    assert_eq!(inverse.get("b"), Some(&set_of(&["v1", "v2"])));
    assert_eq!(inverse.get("c"), Some(&set_of(&["v2"])));
    let back = inverse.invert();
    assert_eq!(back.len(), 2);
    assert_eq!(back.get("v1"), Some(&set_of(&["a", "b"])));
    assert_eq!(back.get("v2"), Some(&set_of(&["b", "c"])));
    assert_eq!(back.get("v3"), None);
    assert!(back.invert().same_as(&inverse));
    assert!(PoolMap::new().invert().is_empty());
}

#[test]
fn pool_map_equality_goes_by_keys_and_pools() {
    let mut left = PoolMap::new();
    left.insert("v1".to_string(), set_of(&["a"]));
    left.insert("v2".to_string(), set_of(&["b"]));
    let mut right = PoolMap::new();
    right.insert("v2".to_string(), set_of(&["b"]));
    right.insert("v1".to_string(), set_of(&["a"]));
    assert!(left.same_as(&right));
    assert_eq!(left, right);
    assert_eq!(left.clone(), left);
    right.insert("v2".to_string(), set_of(&["c"]));
    assert!(!left.same_as(&right));
    right.remove("v2");
    assert!(!left.same_as(&right));
    right.insert("v3".to_string(), set_of(&["b"]));
    assert_ne!(left, right);
    assert_eq!(PoolMap::default(), PoolMap::new());
}
