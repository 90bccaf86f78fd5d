//! Maps from an account to a set of accounts, and how one is turned round.
//!
//! A forward map takes each validator to its delegators; the inverse map
//! takes each delegator to its validators. Both are seen as
//! `Map<Seq<char>, Set<Seq<char>>>`, and the relation between them is stated
//! over the pairs that such a map links.

use crate::account_set::AccountSet;
use crate::keys::{increasing, lemma_take_next};
use crate::str_map::{lemma_increasing_unique, StrMap};
use vstd::prelude::*;

verus! {

/// The mathematical form of a pool map.
pub type Pools = Map<Seq<char>, Set<Seq<char>>>;

/// A pair of a key and one member of its pool.
pub type Link = (Seq<char>, Seq<char>);

/// `m` holds `member` in the pool under `key`.
pub open spec fn linked(m: Pools, key: Seq<char>, member: Seq<char>) -> bool {
    m.contains_key(key) && m[key].contains(member)
}

/// The pool under `key`, empty where `m` has no such key.
pub open spec fn pool_of(m: Pools, key: Seq<char>) -> Set<Seq<char>> {
    if m.contains_key(key) {
        m[key]
    } else {
        Set::empty()
    }
}

/// All the pairs that `m` links.
pub open spec fn relation(m: Pools) -> Set<Link> {
    Set::new(|p: Link| linked(m, p.0, p.1))
}

/// The pairs of `r`, each turned round.
pub open spec fn flip(r: Set<Link>) -> Set<Link> {
    Set::new(|p: Link| r.contains((p.1, p.0)))
}

/// The map that links exactly the pairs of `r`: its keys are the first
/// components, and under each stands the set of its second components.
pub open spec fn pools_of(r: Set<Link>) -> Pools {
    Map::new(
        |k: Seq<char>| exists|x: Seq<char>| r.contains((k, x)),
        |k: Seq<char>| Set::new(|x: Seq<char>| r.contains((k, x))),
    )
}

/// The map turned round: it takes each member of some pool of `m` to the set
/// of the keys under whose pool it stands.
pub open spec fn inverse(m: Pools) -> Pools {
    pools_of(flip(relation(m)))
}

/// No key of `m` has an empty pool.
pub open spec fn no_empty_pool(m: Pools) -> bool {
    forall|k: Seq<char>| #[trigger] m.contains_key(k) ==> exists|x: Seq<char>| m[k].contains(x)
}

/// `i` links a delegator to a validator exactly where `f` links that
/// validator to that delegator.
pub open spec fn inverse_links(f: Pools, i: Pools) -> bool {
    forall|v: Seq<char>, d: Seq<char>| #[trigger] linked(f, v, d) <==> linked(i, d, v)
}

/// The map of `pools_of` links exactly the pairs it was made from.
pub proof fn lemma_pools_of_linked(r: Set<Link>, key: Seq<char>, member: Seq<char>)
    ensures
        linked(pools_of(r), key, member) <==> r.contains((key, member)),
{
}

/// The inverse links a delegator to a validator exactly where the map links
/// the validator to the delegator.
pub proof fn lemma_inverse_linked(m: Pools, v: Seq<char>, d: Seq<char>)
    ensures
        linked(inverse(m), d, v) <==> linked(m, v, d),
{
    let r = flip(relation(m));
    lemma_pools_of_linked(r, d, v);
    assert(r.contains((d, v)) <==> relation(m).contains((v, d)));
}

/// The inverse of a map stands to it as `inverse_links` says, and has no
/// empty pool.
pub proof fn lemma_inverse_is_inverse(m: Pools)
    ensures
        inverse_links(m, inverse(m)),
        no_empty_pool(inverse(m)),
{
    assert forall|v: Seq<char>, d: Seq<char>| #[trigger] linked(m, v, d) <==> linked(
        inverse(m),
        d,
        v,
    ) by {
        lemma_inverse_linked(m, v, d);
    }
    let r = flip(relation(m));
    assert forall|k: Seq<char>| #[trigger] inverse(m).contains_key(k) implies exists|x: Seq<char>|
        inverse(m)[k].contains(x) by {
        let x = choose|x: Seq<char>| r.contains((k, x));
        assert(inverse(m)[k].contains(x));
    }
}

/// Two maps without empty pools that link the same pairs are the same map.
pub proof fn lemma_same_links_same_map(a: Pools, b: Pools)
    requires
        no_empty_pool(a),
        no_empty_pool(b),
        forall|k: Seq<char>, x: Seq<char>| #[trigger] linked(a, k, x) <==> linked(b, k, x),
    ensures
        a == b,
{
    assert forall|k: Seq<char>| a.contains_key(k) <==> b.contains_key(k) by {
        if a.contains_key(k) {
            let x = choose|x: Seq<char>| a[k].contains(x);
            assert(linked(a, k, x));
            assert(linked(b, k, x));
        }
        if b.contains_key(k) {
            let x = choose|x: Seq<char>| b[k].contains(x);
            assert(linked(b, k, x));
            assert(linked(a, k, x));
        }
    }
    assert forall|k: Seq<char>| a.contains_key(k) implies a[k] == b[k] by {
        assert forall|x: Seq<char>| a[k].contains(x) <==> b[k].contains(x) by {
            assert(linked(a, k, x) <==> linked(b, k, x));
        }
        assert(a[k] =~= b[k]);
    }
    assert(a =~= b);
}

/// The only map without empty pools that is inverse to `f` is `inverse(f)`.
pub proof fn lemma_inverse_unique(f: Pools, i: Pools)
    requires
        inverse_links(f, i),
        no_empty_pool(i),
    ensures
        i == inverse(f),
{
    lemma_inverse_is_inverse(f);
    assert forall|k: Seq<char>, x: Seq<char>| #[trigger] linked(i, k, x) <==> linked(
        inverse(f),
        k,
        x,
    ) by {
        assert(linked(f, x, k) <==> linked(i, k, x));
        assert(linked(f, x, k) <==> linked(inverse(f), k, x));
    }
    lemma_same_links_same_map(i, inverse(f));
}

/// Turning a map without empty pools round twice gives it back.
pub proof fn lemma_inverse_involution(m: Pools)
    requires
        no_empty_pool(m),
    ensures
        inverse(inverse(m)) == m,
{
    lemma_inverse_is_inverse(m);
    lemma_inverse_is_inverse(inverse(m));
    assert forall|k: Seq<char>, x: Seq<char>| #[trigger] linked(inverse(inverse(m)), k, x)
        <==> linked(m, k, x) by {
        assert(linked(inverse(m), x, k) <==> linked(inverse(inverse(m)), k, x));
        assert(linked(m, k, x) <==> linked(inverse(m), x, k));
    }
    lemma_same_links_same_map(inverse(inverse(m)), m);
}

/// One more pair in the relation is one more member in one pool.
pub proof fn lemma_pools_of_insert(r: Set<Link>, key: Seq<char>, member: Seq<char>)
    ensures
        pools_of(r.insert((key, member))) == pools_of(r).insert(
            key,
            pool_of(pools_of(r), key).insert(member),
        ),
{
    let r2 = r.insert((key, member));
    let m1 = pools_of(r2);
    let m2 = pools_of(r).insert(key, pool_of(pools_of(r), key).insert(member));
    assert forall|k: Seq<char>| m1.contains_key(k) <==> m2.contains_key(k) by {
        if m1.contains_key(k) && k != key {
            let x = choose|x: Seq<char>| r2.contains((k, x));
            assert(r.contains((k, x)));
        }
        if pools_of(r).contains_key(k) {
            let x = choose|x: Seq<char>| r.contains((k, x));
            assert(r2.contains((k, x)));
        }
        if k == key {
            assert(r2.contains((k, member)));
        }
    }
    assert forall|k: Seq<char>| m1.contains_key(k) implies m1[k] == m2[k] by {
        assert forall|x: Seq<char>| m1[k].contains(x) <==> m2[k].contains(x) by {
            assert(m1[k].contains(x) <==> r2.contains((k, x)));
            if k == key {
                if pools_of(r).contains_key(k) {
                    assert(pools_of(r)[k].contains(x) <==> r.contains((k, x)));
                } else {
                    assert(!r.contains((k, x)));
                }
            } else {
                assert(pools_of(r)[k].contains(x) <==> r.contains((k, x)));
            }
        }
        assert(m1[k] =~= m2[k]);
    }
    assert(m1 =~= m2);
}

/// `m` without the link from `key` to `member`. A pool left empty goes, and
/// its key with it.
pub open spec fn unlinked(m: Pools, key: Seq<char>, member: Seq<char>) -> Pools {
    if !linked(m, key, member) {
        m
    } else if m[key].remove(member) == Set::<Seq<char>>::empty() {
        m.remove(key)
    } else {
        m.insert(key, m[key].remove(member))
    }
}

/// One pair less in the relation is one member less in one pool.
pub proof fn lemma_pools_of_remove(r: Set<Link>, key: Seq<char>, member: Seq<char>)
    ensures
        pools_of(r.remove((key, member))) == unlinked(pools_of(r), key, member),
{
    let r2 = r.remove((key, member));
    let m0 = pools_of(r);
    let m1 = pools_of(r2);
    let m2 = unlinked(m0, key, member);
    if !r.contains((key, member)) {
        assert(r2 =~= r);
    } else {
        assert(linked(m0, key, member));
        let rest = m0[key].remove(member);
        assert forall|x: Seq<char>| rest.contains(x) <==> r2.contains((key, x)) by {}
        if rest =~= Set::<Seq<char>>::empty() {
            assert forall|k: Seq<char>| m1.contains_key(k) <==> m2.contains_key(k) by {
                if m1.contains_key(k) {
                    let x = choose|x: Seq<char>| r2.contains((k, x));
                    assert(r.contains((k, x)));
                    if k == key {
                        assert(rest.contains(x));
                    }
                }
                if m0.contains_key(k) && k != key {
                    let x = choose|x: Seq<char>| r.contains((k, x));
                    assert(r2.contains((k, x)));
                }
            }
        } else {
            let y = choose|y: Seq<char>| rest.contains(y);
            assert(rest.contains(y)) by {
                if forall|y: Seq<char>| !rest.contains(y) {
                    assert(rest =~= Set::<Seq<char>>::empty());
                }
            }
            assert forall|k: Seq<char>| m1.contains_key(k) <==> m2.contains_key(k) by {
                if m1.contains_key(k) {
                    let x = choose|x: Seq<char>| r2.contains((k, x));
                    assert(r.contains((k, x)));
                }
                if m0.contains_key(k) && k != key {
                    let x = choose|x: Seq<char>| r.contains((k, x));
                    assert(r2.contains((k, x)));
                }
                if k == key {
                    assert(r2.contains((k, y)));
                }
            }
        }
        assert forall|k: Seq<char>| m1.contains_key(k) implies m1[k] == m2[k] by {
            assert forall|x: Seq<char>| m1[k].contains(x) <==> m2[k].contains(x) by {
                assert(m1[k].contains(x) <==> r2.contains((k, x)));
                assert(m0[k].contains(x) <==> r.contains((k, x)));
            }
            assert(m1[k] =~= m2[k]);
        }
        assert(m1 =~= m2);
    }
}

/// The sets of a map of account sets.
pub open spec fn lift(m: Map<Seq<char>, AccountSet>) -> Pools {
    Map::new(|k: Seq<char>| m.contains_key(k), |k: Seq<char>| m[k]@)
}

/// The pairs of `m` whose key is among the first `i` of `keys`.
pub open spec fn links_upto(m: Pools, keys: Seq<Seq<char>>, i: int) -> Set<Link> {
    Set::new(|p: Link| linked(m, p.0, p.1) && keys.take(i).contains(p.0))
}

/// The pairs of `key` with each of the first `j` of `members`.
pub open spec fn links_within(key: Seq<char>, members: Seq<Seq<char>>, j: int) -> Set<Link> {
    Set::new(|p: Link| p.0 == key && members.take(j).contains(p.1))
}

/// A finite map from accounts to sets of accounts.
#[derive(Debug)]
pub struct PoolMap {
    pools: StrMap<AccountSet>,
}

impl View for PoolMap {
    type V = Pools;

    closed spec fn view(&self) -> Pools {
        lift(self.pools@)
    }
}

impl PoolMap {
    /// The keys of the map, in increasing order.
    pub closed spec fn key_order(&self) -> Seq<Seq<char>> {
        self.pools.key_order()
    }

    /// What `key_order` has to do with the view: it is increasing and holds
    /// the keys of the map, each once.
    pub open spec fn walkable(&self) -> bool {
        &&& increasing(self.key_order())
        &&& self@.dom() == self.key_order().to_set()
        &&& self@.dom().finite()
        &&& self@.len() == self.key_order().len()
        &&& forall|i: int|
            0 <= i < self.key_order().len() ==> self@.contains_key(#[trigger] self.key_order()[i])
    }

    proof fn lemma_lift_walkable(&self)
        requires
            self.pools.walkable(),
        ensures
            self.walkable(),
            self@.dom() == self.pools@.dom(),
            self@.len() == self.pools@.len(),
    {
        assert(self@.dom() =~= self.pools@.dom());
    }

    /// An empty map.
    pub fn new() -> (map: Self)
        ensures
            map@ == Map::<Seq<char>, Set<Seq<char>>>::empty(),
    {
        let map = PoolMap { pools: StrMap::new() };
        assert(map@ =~= Map::<Seq<char>, Set<Seq<char>>>::empty());
        map
    }

    /// The number of keys.
    pub fn len(&self) -> (n: usize)
        ensures
            n == self@.len(),
            self.walkable(),
    {
        let n = self.pools.len();
        proof {
            self.lemma_lift_walkable();
        }
        n
    }

    /// Whether the map holds no key.
    pub fn is_empty(&self) -> (empty: bool)
        ensures
            empty == (self@ == Map::<Seq<char>, Set<Seq<char>>>::empty()),
    {
        let n = self.len();
        proof {
            if n == 0 {
                assert(self@.dom() =~= Set::<Seq<char>>::empty());
                assert(self@ =~= Map::<Seq<char>, Set<Seq<char>>>::empty());
            }
        }
        n == 0
    }

    /// Whether the map holds `key`.
    pub fn contains_key(&self, key: &str) -> (held: bool)
        ensures
            held == self@.contains_key(key@),
    {
        self.pools.contains_key(key)
    }

    /// The pool under `key`, if the map holds it.
    pub fn get(&self, key: &str) -> (pool: Option<&AccountSet>)
        ensures
            pool is Some <==> self@.contains_key(key@),
            pool matches Some(set) ==> set@ == self@[key@],
    {
        self.pools.get(key)
    }

    /// The key at index `i` of the key order.
    pub fn key_at(&self, i: usize) -> (key: &String)
        requires
            i < self@.len(),
        ensures
            key@ == self.key_order()[i as int],
            self@.contains_key(key@),
            self.walkable(),
    {
        let n = self.pools.len();
        proof {
            self.lemma_lift_walkable();
        }
        self.pools.key_at(i)
    }

    /// The pool under the key at index `i` of the key order.
    pub fn pool_at(&self, i: usize) -> (pool: &AccountSet)
        requires
            i < self@.len(),
        ensures
            pool@ == self@[self.key_order()[i as int]],
            self.walkable(),
    {
        let n = self.pools.len();
        proof {
            self.lemma_lift_walkable();
        }
        self.pools.value_at(i)
    }

    /// Puts `pool` under `key`, in place of any pool that stood there, and
    /// returns that one.
    pub fn insert(&mut self, key: String, pool: AccountSet) -> (previous: Option<AccountSet>)
        ensures
            final(self)@ == old(self)@.insert(key@, pool@),
            previous is Some <==> old(self)@.contains_key(key@),
            previous matches Some(set) ==> set@ == old(self)@[key@],
    {
        let previous = self.pools.insert(key, pool);
        assert(self@ =~= old(self)@.insert(key@, pool@));
        previous
    }

    /// Takes `key` and its pool out of the map, and returns the pool.
    pub fn remove(&mut self, key: &str) -> (previous: Option<AccountSet>)
        ensures
            final(self)@ == old(self)@.remove(key@),
            previous is Some <==> old(self)@.contains_key(key@),
            previous matches Some(set) ==> set@ == old(self)@[key@],
    {
        let previous = self.pools.remove(key);
        assert(self@ =~= old(self)@.remove(key@));
        previous
    }

    /// Makes `member` a member of the pool under `key`, which is made if the
    /// map has no such key.
    pub fn add_link(&mut self, key: String, member: String)
        ensures
            final(self)@ == old(self)@.insert(key@, pool_of(old(self)@, key@).insert(member@)),
    {
        match self.pools.index_of(key.as_str()) {
            Some(i) => {
                let mut pool = self.pools.replace_at(i, AccountSet::new());
                pool.insert(member);
                self.pools.replace_at(i, pool);
            },
            None => {
                let mut pool = AccountSet::new();
                pool.insert(member);
                self.pools.insert(key, pool);
            },
        }
        assert(self@ =~= old(self)@.insert(key@, pool_of(old(self)@, key@).insert(member@)));
    }

    /// Takes `member` out of the pool under `key`. A pool left empty goes,
    /// and its key with it.
    pub fn remove_link(&mut self, key: &str, member: &str)
        ensures
            final(self)@ == unlinked(old(self)@, key@, member@),
    {
        match self.pools.index_of(key) {
            Some(i) => {
                let mut pool = self.pools.replace_at(i, AccountSet::new());
                let removed = pool.remove(member);
                if removed && pool.is_empty() {
                    self.pools.remove(key);
                    assert(self@ =~= old(self)@.remove(key@));
                } else {
                    self.pools.replace_at(i, pool);
                    proof {
                        if linked(old(self)@, key@, member@) {
                            assert(self@ =~= old(self)@.insert(
                                key@,
                                old(self)@[key@].remove(member@),
                            ));
                        } else {
                            assert(old(self)@[key@].remove(member@) =~= old(self)@[key@]);
                            assert(self@ =~= old(self)@);
                        }
                    }
                }
            },
            None => {},
        }
    }

    /// The map turned round.
    pub fn invert(&self) -> (turned: PoolMap)
        ensures
            turned@ == inverse(self@),
    {
        let mut turned = PoolMap::new();
        let n = self.len();
        let ghost keys = self.key_order();
        let ghost done: Set<Link> = Set::empty();
        let mut i: usize = 0;
        proof {
            assert(links_upto(self@, keys, 0) =~= done);
            assert(flip(done) =~= Set::<Link>::empty());
            assert(pools_of(Set::<Link>::empty()) =~= Map::<Seq<char>, Set<Seq<char>>>::empty());
        }
        while i < n
            invariant
                i <= n,
                n == self@.len(),
                self.walkable(),
                keys == self.key_order(),
                done == links_upto(self@, keys, i as int),
                turned@ == pools_of(flip(done)),
            decreases n - i,
        {
            let key = self.key_at(i);
            let pool = self.pool_at(i);
            let m = pool.len();
            let ghost members = pool.order();
            let ghost before = done;
            let mut j: usize = 0;
            proof {
                assert(links_within(keys[i as int], members, 0) =~= Set::<Link>::empty());
                assert(done =~= before.union(links_within(keys[i as int], members, 0)));
            }
            while j < m
                invariant
                    i < n,
                    j <= m,
                    m == pool@.len(),
                    pool.walkable(),
                    members == pool.order(),
                    key@ == keys[i as int],
                    done == before.union(links_within(key@, members, j as int)),
                    turned@ == pools_of(flip(done)),
                decreases m - j,
            {
                let member = pool.get(j);
                turned.add_link(member.clone(), key.clone());
                proof {
                    let next = done.insert((key@, member@));
                    lemma_pools_of_insert(flip(done), member@, key@);
                    assert(flip(next) =~= flip(done).insert((member@, key@)));
                    assert forall|p: Link|
                        next.contains(p) <==> before.union(
                            links_within(key@, members, j + 1),
                        ).contains(p) by {
                        lemma_take_next(members, j as int, p.1);
                    }
                    assert(next =~= before.union(links_within(key@, members, j + 1)));
                    done = next;
                }
                j += 1;
            }
            proof {
                assert(members.take(m as int) =~= members);
                assert forall|p: Link|
                    done.contains(p) <==> links_upto(self@, keys, i + 1).contains(p) by {
                    lemma_take_next(keys, i as int, p.0);
                    if p.0 == keys[i as int] {
                        assert(members.contains(p.1) <==> pool@.contains(p.1));
                    }
                }
                assert(done =~= links_upto(self@, keys, i + 1));
            }
            i += 1;
        }
        proof {
            assert(keys.take(n as int) =~= keys);
            assert forall|p: Link| done.contains(p) <==> relation(self@).contains(p) by {
                if linked(self@, p.0, p.1) {
                    assert(keys.to_set().contains(p.0));
                }
            }
            assert(done =~= relation(self@));
        }
        turned
    }

    /// Whether both maps hold the same keys with the same pools.
    pub fn same_as(&self, other: &PoolMap) -> (same: bool)
        ensures
            same == (self@ == other@),
    {
        let n = self.len();
        if other.len() != n {
            return false;
        }
        let mut i: usize = 0;
        while i < n
            invariant
                i <= n,
                n == self@.len(),
                n == other@.len(),
                self.walkable(),
                other.walkable(),
                forall|j: int|
                    0 <= j < i ==> self.key_order()[j] == other.key_order()[j] && self@[self.key_order()[j]]
                        == other@[self.key_order()[j]],
            decreases n - i,
        {
            let equal = *self.key_at(i) == *other.key_at(i);
            if !equal {
                proof {
                    if self@ == other@ {
                        lemma_increasing_unique(self.key_order(), other.key_order());
                    }
                }
                return false;
            }
            if !self.pool_at(i).same_as(other.pool_at(i)) {
                return false;
            }
            i += 1;
        }
        proof {
            assert(self.key_order() =~= other.key_order());
            assert forall|k: Seq<char>| self@.contains_key(k) implies self@[k] == other@[k] by {
                assert(self.key_order().to_set().contains(k));
                let j = self.key_order().index_of(k);
                assert(self.key_order()[j] == k);
            }
            assert(self@ =~= other@);
        }
        true
    }
}

impl Clone for PoolMap {
    fn clone(&self) -> (copy: Self)
        ensures
            copy@ == self@,
    {
        let mut copy = PoolMap::new();
        let n = self.len();
        let mut i: usize = 0;
        while i < n
            invariant
                i <= n,
                n == self@.len(),
                self.walkable(),
                forall|k: Seq<char>|
                    copy@.contains_key(k) <==> self.key_order().take(i as int).contains(k),
                forall|k: Seq<char>| copy@.contains_key(k) ==> copy@[k] == self@[k],
            decreases n - i,
        {
            let key = self.key_at(i).clone();
            let pool = self.pool_at(i).clone();
            proof {
                assert forall|k: Seq<char>|
                    self.key_order().take(i + 1).contains(k) <==> self.key_order().take(
                        i as int,
                    ).contains(k) || k == key@ by {
                    lemma_take_next(self.key_order(), i as int, k);
                }
            }
            copy.insert(key, pool);
            i += 1;
        }
        proof {
            assert(self.key_order().take(n as int) =~= self.key_order());
            assert forall|k: Seq<char>| copy@.contains_key(k) <==> self@.contains_key(k) by {
                assert(self.key_order().to_set().contains(k) <==> self.key_order().contains(k));
            }
            assert(copy@ =~= self@);
        }
        copy
    }
}

impl Default for PoolMap {
    fn default() -> (map: Self)
        ensures
            map@ == Map::<Seq<char>, Set<Seq<char>>>::empty(),
    {
        PoolMap::new()
    }
}

impl PartialEq for PoolMap {
    fn eq(&self, other: &Self) -> (same: bool) {
        self.same_as(other)
    }
}

impl vstd::std_specs::cmp::PartialEqSpecImpl for PoolMap {
    open spec fn obeys_eq_spec() -> bool {
        true
    }

    open spec fn eq_spec(&self, other: &Self) -> bool {
        self@ == other@
    }
}

} // verus!
