//! The cache of stake delegators: for each delegator one text, with the
//! time it was written at.

use crate::clock::unix_now;
use crate::freshness::{is_recent, recent};
use crate::str_map::{lemma_increasing_unique, StrMap};
use vstd::prelude::*;

verus! {

/// The name of the file in which the stake delegators are kept.
pub const STAKE_DELEGATORS_FILENAME: &'static str = "stake_delegators.json";

/// The texts of a map of strings.
pub open spec fn texts(m: Map<Seq<char>, String>) -> Map<Seq<char>, Seq<char>> {
    Map::new(|k: Seq<char>| m.contains_key(k), |k: Seq<char>| m[k]@)
}

/// The stake delegators with the time they were written at.
#[derive(Debug)]
pub struct DelegatorsWithTimestamp {
    pub timestamp: i64,
    pub stake_delegators: StrMap<String>,
}

impl View for DelegatorsWithTimestamp {
    type V = (i64, Map<Seq<char>, Seq<char>>);

    open spec fn view(&self) -> (i64, Map<Seq<char>, Seq<char>>) {
        (self.timestamp, texts(self.stake_delegators@))
    }
}

/// A copy of a map of strings.
pub fn copy_of(map: &StrMap<String>) -> (copy: StrMap<String>)
    ensures
        texts(copy@) == texts(map@),
{
    let mut copy: StrMap<String> = StrMap::new();
    let n = map.len();
    let mut i: usize = 0;
    while i < n
        invariant
            i <= n,
            n == map@.len(),
            map.walkable(),
            forall|k: Seq<char>|
                copy@.contains_key(k) <==> map.key_order().take(i as int).contains(k),
            forall|k: Seq<char>| copy@.contains_key(k) ==> copy@[k]@ == map@[k]@,
        decreases n - i,
    {
        let key = map.key_at(i).clone();
        let value = map.value_at(i).clone();
        proof {
            assert forall|k: Seq<char>|
                map.key_order().take(i + 1).contains(k) <==> map.key_order().take(
                    i as int,
                ).contains(k) || k == key@ by {
                crate::keys::lemma_take_next(map.key_order(), i as int, k);
            }
        }
        copy.insert(key, value);
        i += 1;
    }
    proof {
        assert(map.key_order().take(n as int) =~= map.key_order());
        assert forall|k: Seq<char>| copy@.contains_key(k) <==> map@.contains_key(k) by {
            assert(map.key_order().to_set().contains(k) <==> map.key_order().contains(k));
        }
        assert(texts(copy@) =~= texts(map@));
    }
    copy
}

/// Whether two maps of strings hold the same keys with the same texts.
pub fn same_texts(a: &StrMap<String>, b: &StrMap<String>) -> (same: bool)
    ensures
        same == (texts(a@) == texts(b@)),
{
    let n = a.len();
    if b.len() != n {
        proof {
            if texts(a@) == texts(b@) {
                assert(a@.dom() =~= texts(a@).dom());
                assert(b@.dom() =~= texts(b@).dom());
            }
        }
        return false;
    }
    let mut i: usize = 0;
    while i < n
        invariant
            i <= n,
            n == a@.len(),
            n == b@.len(),
            a.walkable(),
            b.walkable(),
            forall|j: int|
                0 <= j < i ==> a.key_order()[j] == b.key_order()[j] && a@[a.key_order()[j]]@
                    == b@[a.key_order()[j]]@,
        decreases n - i,
    {
        let equal = *a.key_at(i) == *b.key_at(i);
        if !equal {
            proof {
                if texts(a@) == texts(b@) {
                    assert(a@.dom() =~= texts(a@).dom());
                    assert(b@.dom() =~= texts(b@).dom());
                    lemma_increasing_unique(a.key_order(), b.key_order());
                }
            }
            return false;
        }
        let alike = *a.value_at(i) == *b.value_at(i);
        if !alike {
            proof {
                let k = a.key_order()[i as int];
                assert(texts(a@)[k] == a@[k]@);
                assert(texts(b@)[k] == b@[k]@);
            }
            return false;
        }
        i += 1;
    }
    proof {
        assert(a.key_order() =~= b.key_order());
        assert forall|k: Seq<char>| a@.contains_key(k) implies a@[k]@ == b@[k]@ by {
            assert(a.key_order().to_set().contains(k));
            let j = a.key_order().index_of(k);
            assert(a.key_order()[j] == k);
        }
        assert(texts(a@) =~= texts(b@));
    }
    true
}

impl Clone for DelegatorsWithTimestamp {
    fn clone(&self) -> (copy: Self)
        ensures
            copy@ == self@,
    {
        DelegatorsWithTimestamp {
            timestamp: self.timestamp,
            stake_delegators: copy_of(&self.stake_delegators),
        }
    }
}

impl Default for DelegatorsWithTimestamp {
    fn default() -> (empty: Self)
        ensures
            empty.timestamp == 0,
            empty.stake_delegators@ == Map::<Seq<char>, String>::empty(),
    {
        DelegatorsWithTimestamp { timestamp: 0, stake_delegators: StrMap::new() }
    }
}

/// What was parsed from the persisted file, or the empty record of time 0
/// where nothing could be parsed: an empty or malformed file never stops a
/// start.
pub fn read_delegators_from_file(parsed: Option<DelegatorsWithTimestamp>) -> (delegators:
    DelegatorsWithTimestamp)
    ensures
        parsed matches Some(found) ==> delegators == found,
        parsed is None ==> delegators.timestamp == 0 && delegators.stake_delegators@
            == Map::<Seq<char>, String>::empty(),
{
    match parsed {
        Some(found) => found,
        None => DelegatorsWithTimestamp::default(),
    }
}

/// What a refresh of the cache came to.
#[derive(Debug)]
pub enum CacheUpdate {
    /// The file holds what was fetched and is still recent: it stays as it
    /// is, and so does its time.
    UpToDate(DelegatorsWithTimestamp),
    /// The record is new and is to be written.
    Written(DelegatorsWithTimestamp),
}

/// The fetched delegators are those of the record, which is still recent at
/// `timestamp`: there is nothing to write.
pub open spec fn up_to_date(
    existing: (i64, Map<Seq<char>, Seq<char>>),
    fetched: Map<Seq<char>, Seq<char>>,
    timestamp: i64,
) -> bool {
    recent(timestamp, existing.0) && fetched == existing.1
}

/// Decides what a refresh at time `timestamp` comes to, from the record in
/// the file and the delegators just fetched. Where they are those of the
/// record and the record is still recent, the record stays; else the
/// fetched delegators are the new record, of time `timestamp`.
pub fn refreshed(
    existing: DelegatorsWithTimestamp,
    new_delegators: StrMap<String>,
    timestamp: i64,
) -> (update: CacheUpdate)
    ensures
        match update {
            CacheUpdate::UpToDate(kept) => up_to_date(
                existing@,
                texts(new_delegators@),
                timestamp,
            ) && kept == existing,
            CacheUpdate::Written(record) => !up_to_date(
                existing@,
                texts(new_delegators@),
                timestamp,
            ) && record.timestamp == timestamp && record.stake_delegators == new_delegators,
        },
{
    if is_recent(timestamp, existing.timestamp) && same_texts(
        &new_delegators,
        &existing.stake_delegators,
    ) {
        CacheUpdate::UpToDate(existing)
    } else {
        CacheUpdate::Written(
            DelegatorsWithTimestamp { timestamp, stake_delegators: new_delegators },
        )
    }
}

/// Decides what a refresh comes to at the time that the system clock
/// gives. Whatever the clock said, a record that is kept is the one given,
/// and a record to write holds the fetched delegators.
pub fn update_stake_delegators_cache(
    existing: DelegatorsWithTimestamp,
    new_delegators: StrMap<String>,
) -> (update: CacheUpdate)
    ensures
        match update {
            CacheUpdate::UpToDate(kept) => texts(new_delegators@) == existing@.1 && kept
                == existing,
            CacheUpdate::Written(record) => record.stake_delegators == new_delegators
                && !up_to_date(existing@, texts(new_delegators@), record.timestamp),
        },
{
    let timestamp = unix_now();
    refreshed(existing, new_delegators, timestamp)
}

} // verus!
