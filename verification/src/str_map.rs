//! A map from strings to values, kept as a vector of entries in increasing
//! key order.
//!
//! The map is seen as a `Map<Seq<char>, V>`. Lookups are binary searches; the
//! entries can be walked in key order by index.

use crate::keys::{
    compare_keys, increasing, key_lt, lemma_increasing_no_duplicates, lemma_key_lt_asymmetric,
    lemma_key_lt_transitive, KeyOrder,
};
use vstd::prelude::*;

verus! {

/// The map that holds `values[i]` under `keys[i]`.
pub open spec fn map_of<V>(keys: Seq<Seq<char>>, values: Seq<V>) -> Map<Seq<char>, V> {
    Map::new(|k: Seq<char>| keys.contains(k), |k: Seq<char>| values[keys.index_of(k)])
}

/// `key` belongs at index `at` of the increasing sequence `keys`: every key
/// below `at` comes before it and every key from `at` on comes after it.
pub open spec fn slot_of(keys: Seq<Seq<char>>, key: Seq<char>, at: int) -> bool {
    &&& 0 <= at <= keys.len()
    &&& forall|j: int| 0 <= j < at ==> key_lt(#[trigger] keys[j], key)
    &&& forall|j: int| at <= j < keys.len() ==> key_lt(key, #[trigger] keys[j])
}

/// Under increasing keys, each index is found again through its key.
pub proof fn lemma_map_of_index<V>(keys: Seq<Seq<char>>, values: Seq<V>, i: int)
    requires
        increasing(keys),
        keys.len() == values.len(),
        0 <= i < keys.len(),
    ensures
        keys.index_of(keys[i]) == i,
        map_of(keys, values).contains_key(keys[i]),
        map_of(keys, values)[keys[i]] == values[i],
{
    lemma_increasing_no_duplicates(keys);
    assert(keys.contains(keys[i]));
}

/// The keys of `map_of` are those of the sequence, and as many.
pub proof fn lemma_map_of_dom<V>(keys: Seq<Seq<char>>, values: Seq<V>)
    requires
        increasing(keys),
    ensures
        map_of(keys, values).dom() == keys.to_set(),
        map_of(keys, values).dom().finite(),
        map_of(keys, values).len() == keys.len(),
{
    lemma_increasing_no_duplicates(keys);
    assert(map_of(keys, values).dom() =~= keys.to_set());
    vstd::seq_lib::seq_to_set_is_finite(keys);
    keys.unique_seq_to_set();
}

/// A key that has a slot is not among the keys.
pub proof fn lemma_slot_absent(keys: Seq<Seq<char>>, key: Seq<char>, at: int)
    requires
        slot_of(keys, key, at),
    ensures
        !keys.contains(key),
{
    if keys.contains(key) {
        let j = keys.index_of(key);
        if j < at {
            lemma_key_lt_asymmetric(keys[j], key);
        } else {
            lemma_key_lt_asymmetric(key, keys[j]);
        }
    }
}

/// Putting a new key into its slot keeps the order and adds one binding.
pub proof fn lemma_map_of_insert<V>(
    keys: Seq<Seq<char>>,
    values: Seq<V>,
    at: int,
    key: Seq<char>,
    value: V,
)
    requires
        increasing(keys),
        keys.len() == values.len(),
        slot_of(keys, key, at),
    ensures
        increasing(keys.insert(at, key)),
        map_of(keys.insert(at, key), values.insert(at, value)) == map_of(keys, values).insert(
            key,
            value,
        ),
{
    let keys2 = keys.insert(at, key);
    let values2 = values.insert(at, value);
    assert forall|i: int, j: int| 0 <= i < j < keys2.len() implies key_lt(
        #[trigger] keys2[i],
        #[trigger] keys2[j],
    ) by {
        if j < at {
        } else if j == at {
        } else if i < at {
            assert(keys2[j] == keys[j - 1]);
        } else if i == at {
            assert(keys2[j] == keys[j - 1]);
        } else {
            assert(keys2[i] == keys[i - 1]);
            assert(keys2[j] == keys[j - 1]);
        }
    }
    let m1 = map_of(keys2, values2);
    let m2 = map_of(keys, values).insert(key, value);
    assert forall|k: Seq<char>| m1.contains_key(k) <==> m2.contains_key(k) by {
        if keys2.contains(k) {
            let i = keys2.index_of(k);
            if i < at {
                assert(keys[i] == k);
            } else if i > at {
                assert(keys[i - 1] == k);
            }
        }
        if keys.contains(k) {
            let i = keys.index_of(k);
            if i < at {
                assert(keys2[i] == k);
            } else {
                assert(keys2[i + 1] == k);
            }
        }
        if k == key {
            assert(keys2[at] == k);
        }
    }
    assert forall|k: Seq<char>| m1.contains_key(k) implies m1[k] == m2[k] by {
        let i = keys2.index_of(k);
        lemma_map_of_index(keys2, values2, i);
        if i < at {
            lemma_map_of_index(keys, values, i);
            lemma_key_lt_asymmetric(keys[i], key);
        } else if i > at {
            lemma_map_of_index(keys, values, i - 1);
            lemma_key_lt_asymmetric(key, keys[i - 1]);
        }
    }
    assert(m1 =~= m2);
}

/// Putting another value at an index rebinds that index's key.
pub proof fn lemma_map_of_update<V>(keys: Seq<Seq<char>>, values: Seq<V>, at: int, value: V)
    requires
        increasing(keys),
        keys.len() == values.len(),
        0 <= at < keys.len(),
    ensures
        map_of(keys, values.update(at, value)) == map_of(keys, values).insert(keys[at], value),
{
    let values2 = values.update(at, value);
    let m1 = map_of(keys, values2);
    let m2 = map_of(keys, values).insert(keys[at], value);
    assert(keys.contains(keys[at]));
    assert forall|k: Seq<char>| m1.contains_key(k) implies m1[k] == m2[k] by {
        let i = keys.index_of(k);
        lemma_map_of_index(keys, values2, i);
        lemma_map_of_index(keys, values, i);
        lemma_map_of_index(keys, values, at);
    }
    assert(m1 =~= m2);
}

/// Taking an index out keeps the order and drops that index's key.
pub proof fn lemma_map_of_remove<V>(keys: Seq<Seq<char>>, values: Seq<V>, at: int)
    requires
        increasing(keys),
        keys.len() == values.len(),
        0 <= at < keys.len(),
    ensures
        increasing(keys.remove(at)),
        map_of(keys.remove(at), values.remove(at)) == map_of(keys, values).remove(keys[at]),
{
    let keys2 = keys.remove(at);
    let values2 = values.remove(at);
    assert forall|i: int, j: int| 0 <= i < j < keys2.len() implies key_lt(
        #[trigger] keys2[i],
        #[trigger] keys2[j],
    ) by {
        let i0 = if i < at {
            i
        } else {
            i + 1
        };
        let j0 = if j < at {
            j
        } else {
            j + 1
        };
        assert(keys2[i] == keys[i0]);
        assert(keys2[j] == keys[j0]);
    }
    lemma_increasing_no_duplicates(keys);
    let m1 = map_of(keys2, values2);
    let m2 = map_of(keys, values).remove(keys[at]);
    assert forall|k: Seq<char>| m1.contains_key(k) <==> m2.contains_key(k) by {
        if keys2.contains(k) {
            let i = keys2.index_of(k);
            if i < at {
                assert(keys[i] == k);
            } else {
                assert(keys[i + 1] == k);
            }
        }
        if keys.contains(k) && k != keys[at] {
            let i = keys.index_of(k);
            if i < at {
                assert(keys2[i] == k);
            } else {
                assert(keys2[i - 1] == k);
            }
        }
    }
    assert forall|k: Seq<char>| m1.contains_key(k) implies m1[k] == m2[k] by {
        let i = keys2.index_of(k);
        lemma_map_of_index(keys2, values2, i);
        if i < at {
            lemma_map_of_index(keys, values, i);
        } else {
            lemma_map_of_index(keys, values, i + 1);
        }
    }
    assert(m1 =~= m2);
}

/// Two increasing sequences that hold the same keys are the same sequence.
pub proof fn lemma_increasing_unique(a: Seq<Seq<char>>, b: Seq<Seq<char>>)
    requires
        increasing(a),
        increasing(b),
        a.to_set() == b.to_set(),
    ensures
        a == b,
{
    lemma_increasing_no_duplicates(a);
    lemma_increasing_no_duplicates(b);
    vstd::seq_lib::seq_to_set_is_finite(a);
    a.unique_seq_to_set();
    b.unique_seq_to_set();
    assert forall|i: int| 0 <= i < a.len() implies a[i] == b[i] by {
        lemma_agree_upto(a, b, i);
    }
    assert(a =~= b);
}

proof fn lemma_agree_upto(a: Seq<Seq<char>>, b: Seq<Seq<char>>, i: int)
    requires
        increasing(a),
        increasing(b),
        a.to_set() == b.to_set(),
        a.len() == b.len(),
        0 <= i < a.len(),
    ensures
        a[i] == b[i],
    decreases i,
{
    assert forall|j: int| 0 <= j < i implies a[j] == b[j] by {
        lemma_agree_upto(a, b, j);
    }
    if a[i] != b[i] {
        assert(a.to_set().contains(a[i]));
        assert(b.contains(a[i]));
        let j = b.index_of(a[i]);
        assert(b.to_set().contains(b[i]));
        assert(a.contains(b[i]));
        let k = a.index_of(b[i]);
        lemma_increasing_no_duplicates(a);
        lemma_increasing_no_duplicates(b);
        assert(j > i);
        assert(k > i);
        lemma_key_lt_asymmetric(b[i], b[j]);
    }
}

#[derive(Debug)]
struct Entry<V> {
    key: String,
    value: V,
}

/// A finite map from strings to values of type `V`.
#[derive(Debug)]
pub struct StrMap<V> {
    entries: Vec<Entry<V>>,
}

impl<V> View for StrMap<V> {
    type V = Map<Seq<char>, V>;

    closed spec fn view(&self) -> Map<Seq<char>, V> {
        map_of(self.key_order(), self.value_order())
    }
}

impl<V> StrMap<V> {
    /// The keys of the map, in increasing order.
    pub closed spec fn key_order(&self) -> Seq<Seq<char>> {
        Seq::new(self.entries@.len(), |i: int| self.entries@[i].key@)
    }

    /// The values of the map, in the order of their keys.
    pub closed spec fn value_order(&self) -> Seq<V> {
        Seq::new(self.entries@.len(), |i: int| self.entries@[i].value)
    }

    #[verifier::type_invariant]
    spec fn ordered(&self) -> bool {
        increasing(self.key_order())
    }

    /// What `key_order` and `value_order` have to do with the view: the keys
    /// are increasing, they are the view's domain, and each value stands under
    /// its key.
    pub open spec fn walkable(&self) -> bool {
        &&& increasing(self.key_order())
        &&& self.key_order().len() == self.value_order().len()
        &&& self@ == map_of(self.key_order(), self.value_order())
        &&& self@.dom() == self.key_order().to_set()
        &&& self@.dom().finite()
        &&& self@.len() == self.key_order().len()
        &&& forall|i: int|
            0 <= i < self.key_order().len() ==> self@.contains_key(#[trigger] self.key_order()[i])
                && self@[self.key_order()[i]] == self.value_order()[i]
    }

    proof fn lemma_walkable(&self)
        requires
            self.ordered(),
        ensures
            self.walkable(),
    {
        let keys = self.key_order();
        let values = self.value_order();
        lemma_map_of_dom(keys, values);
        assert forall|i: int| 0 <= i < keys.len() implies self@.contains_key(#[trigger] keys[i])
            && self@[keys[i]] == values[i] by {
            lemma_map_of_index(keys, values, i);
        }
    }

    /// An empty map.
    pub fn new() -> (map: Self)
        ensures
            map@ == Map::<Seq<char>, V>::empty(),
    {
        let map = StrMap { entries: Vec::new() };
        assert(map@ =~= Map::<Seq<char>, V>::empty());
        map
    }

    /// The number of keys.
    pub fn len(&self) -> (n: usize)
        ensures
            n == self@.len(),
            self.walkable(),
    {
        proof {
            use_type_invariant(&*self);
            self.lemma_walkable();
        }
        self.entries.len()
    }

    /// Whether the map holds no key.
    pub fn is_empty(&self) -> (empty: bool)
        ensures
            empty == (self@ == Map::<Seq<char>, V>::empty()),
    {
        proof {
            use_type_invariant(&*self);
            self.lemma_walkable();
            if self.entries@.len() == 0 {
                assert(self@ =~= Map::<Seq<char>, V>::empty());
            } else {
                assert(self@.contains_key(self.key_order()[0]));
            }
        }
        self.entries.len() == 0
    }

    /// Finds `key` by binary search: its index if it is there, else the index
    /// at which it belongs.
    fn search(&self, key: &str) -> (found: (bool, usize))
        ensures
            found.0 ==> found.1 < self.key_order().len() && self.key_order()[found.1 as int]
                == key@,
            !found.0 ==> slot_of(self.key_order(), key@, found.1 as int),
            found.0 == self@.contains_key(key@),
    {
        proof {
            use_type_invariant(&*self);
        }
        let ghost keys = self.key_order();
        let mut lo: usize = 0;
        let mut hi: usize = self.entries.len();
        while lo < hi
            invariant
                keys == self.key_order(),
                increasing(keys),
                lo <= hi <= keys.len(),
                keys.len() == self.entries@.len(),
                forall|j: int| 0 <= j < lo ==> key_lt(#[trigger] keys[j], key@),
                forall|j: int| hi <= j < keys.len() ==> key_lt(key@, #[trigger] keys[j]),
            decreases hi - lo,
        {
            let mid = lo + (hi - lo) / 2;
            assert(keys[mid as int] == self.entries@[mid as int].key@);
            match compare_keys(self.entries[mid].key.as_str(), key) {
                KeyOrder::Same => {
                    proof {
                        assert(keys.contains(key@));
                    }
                    return (true, mid);
                },
                KeyOrder::Before => {
                    proof {
                        assert forall|j: int| 0 <= j < mid + 1 implies key_lt(
                            #[trigger] keys[j],
                            key@,
                        ) by {
                            if j < mid {
                                lemma_key_lt_transitive(keys[j], keys[mid as int], key@);
                            }
                        }
                    }
                    lo = mid + 1;
                },
                KeyOrder::After => {
                    proof {
                        assert forall|j: int| mid <= j < keys.len() implies key_lt(
                            key@,
                            #[trigger] keys[j],
                        ) by {
                            if j > mid {
                                lemma_key_lt_transitive(key@, keys[mid as int], keys[j]);
                            }
                        }
                    }
                    hi = mid;
                },
            }
        }
        proof {
            lemma_slot_absent(keys, key@, lo as int);
        }
        (false, lo)
    }

    /// The index of `key` in key order, if the map holds it.
    pub fn index_of(&self, key: &str) -> (index: Option<usize>)
        ensures
            index is Some <==> self@.contains_key(key@),
            index matches Some(i) ==> i < self.key_order().len() && self.key_order()[i as int]
                == key@,
            self.walkable(),
    {
        proof {
            use_type_invariant(&*self);
            self.lemma_walkable();
        }
        let (found, at) = self.search(key);
        if found {
            Some(at)
        } else {
            None
        }
    }

    /// Whether the map holds `key`.
    pub fn contains_key(&self, key: &str) -> (held: bool)
        ensures
            held == self@.contains_key(key@),
    {
        self.search(key).0
    }

    /// The value under `key`, if the map holds it.
    pub fn get(&self, key: &str) -> (value: Option<&V>)
        ensures
            value is Some <==> self@.contains_key(key@),
            value matches Some(v) ==> *v == self@[key@],
    {
        proof {
            use_type_invariant(&*self);
            self.lemma_walkable();
        }
        let (found, at) = self.search(key);
        if found {
            Some(&self.entries[at].value)
        } else {
            None
        }
    }

    /// The key at index `i` of the key order.
    pub fn key_at(&self, i: usize) -> (key: &String)
        requires
            i < self@.len(),
        ensures
            key@ == self.key_order()[i as int],
            self@.contains_key(key@),
            self.walkable(),
    {
        proof {
            use_type_invariant(&*self);
            self.lemma_walkable();
        }
        &self.entries[i].key
    }

    /// The value under the key at index `i` of the key order.
    pub fn value_at(&self, i: usize) -> (value: &V)
        requires
            i < self@.len(),
        ensures
            *value == self.value_order()[i as int],
            *value == self@[self.key_order()[i as int]],
            self.walkable(),
    {
        proof {
            use_type_invariant(&*self);
            self.lemma_walkable();
        }
        &self.entries[i].value
    }

    /// Binds `key` to `value` and returns what it was bound to before.
    pub fn insert(&mut self, key: String, value: V) -> (previous: Option<V>)
        ensures
            final(self)@ == old(self)@.insert(key@, value),
            previous == if old(self)@.contains_key(key@) {
                Some(old(self)@[key@])
            } else {
                None::<V>
            },
    {
        proof {
            use_type_invariant(&*self);
            self.lemma_walkable();
        }
        let ghost keys = self.key_order();
        let ghost values = self.value_order();
        let (found, at) = self.search(key.as_str());
        let mut entries: Vec<Entry<V>> = Vec::new();
        std::mem::swap(&mut entries, &mut self.entries);
        let previous = if found {
            entries.push(Entry { key, value });
            let replaced = entries.swap_remove(at);
            proof {
                lemma_map_of_update(keys, values, at as int, value);
                assert(Seq::new(entries@.len(), |i: int| entries@[i].key@) =~= keys);
                assert(Seq::new(entries@.len(), |i: int| entries@[i].value) =~= values.update(
                    at as int,
                    value,
                ));
            }
            Some(replaced.value)
        } else {
            entries.insert(at, Entry { key, value });
            proof {
                lemma_map_of_insert(keys, values, at as int, key@, value);
                assert(Seq::new(entries@.len(), |i: int| entries@[i].key@) =~= keys.insert(
                    at as int,
                    key@,
                ));
                assert(Seq::new(entries@.len(), |i: int| entries@[i].value) =~= values.insert(
                    at as int,
                    value,
                ));
            }
            None
        };
        self.entries = entries;
        previous
    }

    /// Puts `value` under the key at index `i` and returns the value that
    /// stood there.
    pub fn replace_at(&mut self, i: usize, value: V) -> (previous: V)
        requires
            i < old(self)@.len(),
        ensures
            final(self)@ == old(self)@.insert(old(self).key_order()[i as int], value),
            final(self).key_order() == old(self).key_order(),
            previous == old(self).value_order()[i as int],
            previous == old(self)@[old(self).key_order()[i as int]],
            final(self).walkable(),
    {
        proof {
            use_type_invariant(&*self);
            self.lemma_walkable();
        }
        let ghost keys = self.key_order();
        let ghost values = self.value_order();
        let mut slot = value;
        let mut entries: Vec<Entry<V>> = Vec::new();
        std::mem::swap(&mut entries, &mut self.entries);
        std::mem::swap(&mut slot, &mut entries[i].value);
        proof {
            assert(Seq::new(entries@.len(), |j: int| entries@[j].key@) =~= keys);
        }
        self.entries = entries;
        proof {
            lemma_map_of_update(keys, values, i as int, value);
            assert(self.key_order() =~= keys);
            assert(self.value_order() =~= values.update(i as int, value));
            self.lemma_walkable();
        }
        slot
    }

    /// Takes `key` out of the map and returns what it was bound to.
    pub fn remove(&mut self, key: &str) -> (previous: Option<V>)
        ensures
            final(self)@ == old(self)@.remove(key@),
            previous == if old(self)@.contains_key(key@) {
                Some(old(self)@[key@])
            } else {
                None::<V>
            },
    {
        proof {
            use_type_invariant(&*self);
            self.lemma_walkable();
        }
        let ghost keys = self.key_order();
        let ghost values = self.value_order();
        let (found, at) = self.search(key);
        if found {
            let mut entries: Vec<Entry<V>> = Vec::new();
            std::mem::swap(&mut entries, &mut self.entries);
            let removed = entries.remove(at);
            proof {
                lemma_map_of_remove(keys, values, at as int);
                assert(Seq::new(entries@.len(), |i: int| entries@[i].key@) =~= keys.remove(
                    at as int,
                ));
                assert(Seq::new(entries@.len(), |i: int| entries@[i].value) =~= values.remove(
                    at as int,
                ));
            }
            self.entries = entries;
            Some(removed.value)
        } else {
            assert(self@.remove(key@) =~= self@);
            None
        }
    }
}

} // verus!
