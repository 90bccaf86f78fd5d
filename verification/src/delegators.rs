//! The cache of staking pools: the forward map from validators to their
//! delegators, the inverse map from delegators to their validators, and the
//! time of the last merge.
//!
//! The two maps are kept as exact inverses of one another. A merge for one
//! validator patches the inverse map; a full refresh rebuilds it. With each
//! validator the cache keeps the block height of the data it holds for
//! it, and merges no data of a lower height in their place.

use crate::account_set::AccountSet;
use crate::clock::unix_now;
use crate::freshness::{is_recent, is_stale, recent, stale};
use crate::keys::lemma_take_next;
use crate::str_map::StrMap;
use crate::pool_map::{
    flip, inverse, inverse_links, lemma_inverse_involution, lemma_inverse_is_inverse,
    lemma_inverse_linked, lemma_inverse_unique, lemma_pools_of_insert, lemma_pools_of_remove,
    linked, no_empty_pool, pool_of, pools_of, relation, Link, PoolMap, Pools,
};
use vstd::prelude::*;

verus! {

/// The name of the file in which the delegators are kept.
pub const DELEGATORS_FILENAME: &'static str = "delegators.json";

/// The forward map with the time it was last changed at.
#[derive(Debug)]
pub struct ValidatorsWithTimestamp {
    pub timestamp: i64,
    pub validator_staking_pools: PoolMap,
}

/// The inverse map with the time it was last changed at. This is what is
/// read, and what is persisted.
#[derive(Debug)]
pub struct DelegatorsWithTimestamp {
    pub timestamp: i64,
    pub delegator_staking_pools: PoolMap,
}

/// The validators of one delegator with the time of the snapshot they were
/// read from.
#[derive(Debug)]
pub struct DelegatorWithTimestamp {
    pub timestamp: i64,
    pub delegator_staking_pools: AccountSet,
}

impl Clone for ValidatorsWithTimestamp {
    fn clone(&self) -> (copy: Self)
        ensures
            copy.timestamp == self.timestamp,
            copy.validator_staking_pools@ == self.validator_staking_pools@,
    {
        ValidatorsWithTimestamp {
            timestamp: self.timestamp,
            validator_staking_pools: self.validator_staking_pools.clone(),
        }
    }
}

impl Default for ValidatorsWithTimestamp {
    fn default() -> (empty: Self)
        ensures
            empty.timestamp == 0,
            empty.validator_staking_pools@ == Map::<Seq<char>, Set<Seq<char>>>::empty(),
    {
        ValidatorsWithTimestamp { timestamp: 0, validator_staking_pools: PoolMap::new() }
    }
}

impl Clone for DelegatorsWithTimestamp {
    fn clone(&self) -> (copy: Self)
        ensures
            copy.timestamp == self.timestamp,
            copy.delegator_staking_pools@ == self.delegator_staking_pools@,
    {
        DelegatorsWithTimestamp {
            timestamp: self.timestamp,
            delegator_staking_pools: self.delegator_staking_pools.clone(),
        }
    }
}

impl Default for DelegatorsWithTimestamp {
    fn default() -> (empty: Self)
        ensures
            empty.timestamp == 0,
            empty.delegator_staking_pools@ == Map::<Seq<char>, Set<Seq<char>>>::empty(),
    {
        DelegatorsWithTimestamp { timestamp: 0, delegator_staking_pools: PoolMap::new() }
    }
}

impl Clone for DelegatorWithTimestamp {
    fn clone(&self) -> (copy: Self)
        ensures
            copy.timestamp == self.timestamp,
            copy.delegator_staking_pools@ == self.delegator_staking_pools@,
    {
        DelegatorWithTimestamp {
            timestamp: self.timestamp,
            delegator_staking_pools: self.delegator_staking_pools.clone(),
        }
    }
}

impl Default for DelegatorWithTimestamp {
    fn default() -> (empty: Self)
        ensures
            empty.timestamp == 0,
            empty.delegator_staking_pools@ == Set::<Seq<char>>::empty(),
    {
        DelegatorWithTimestamp { timestamp: 0, delegator_staking_pools: AccountSet::new() }
    }
}

impl From<&DelegatorsWithTimestamp> for ValidatorsWithTimestamp {
    /// The forward map that belongs to an inverse map: each validator with
    /// the delegators under which it stands, at the same time.
    fn from(delegators: &DelegatorsWithTimestamp) -> (validators: Self)
        ensures
            validators.timestamp == delegators.timestamp,
            validators.validator_staking_pools@ == inverse(delegators.delegator_staking_pools@),
    {
        ValidatorsWithTimestamp {
            timestamp: delegators.timestamp,
            validator_staking_pools: delegators.delegator_staking_pools.invert(),
        }
    }
}

/// What `from` gives is stated by its own `ensures`, over the views of the
/// maps; no function gives the maps themselves.
impl vstd::std_specs::convert::FromSpecImpl<&DelegatorsWithTimestamp> for ValidatorsWithTimestamp {
    open spec fn obeys_from_spec() -> bool {
        false
    }

    open spec fn from_spec(delegators: &DelegatorsWithTimestamp) -> Self {
        arbitrary()
    }
}

impl From<&ValidatorsWithTimestamp> for DelegatorsWithTimestamp {
    /// The inverse map that belongs to a forward map: each delegator with
    /// the validators under which it stands, at the same time.
    fn from(validators: &ValidatorsWithTimestamp) -> (delegators: Self)
        ensures
            delegators.timestamp == validators.timestamp,
            delegators.delegator_staking_pools@ == inverse(validators.validator_staking_pools@),
    {
        DelegatorsWithTimestamp {
            timestamp: validators.timestamp,
            delegator_staking_pools: validators.validator_staking_pools.invert(),
        }
    }
}

/// What `from` gives is stated by its own `ensures`, over the views of the
/// maps; no function gives the maps themselves.
impl vstd::std_specs::convert::FromSpecImpl<&ValidatorsWithTimestamp> for DelegatorsWithTimestamp {
    open spec fn obeys_from_spec() -> bool {
        false
    }

    open spec fn from_spec(validators: &ValidatorsWithTimestamp) -> Self {
        arbitrary()
    }
}

/// What was parsed from the persisted file, or the empty snapshot of time 0
/// where nothing could be parsed: an empty, missing or malformed file never
/// stops a start.
pub fn get_delegators_from_cache(parsed: Option<DelegatorsWithTimestamp>) -> (delegators:
    DelegatorsWithTimestamp)
    ensures
        parsed matches Some(found) ==> delegators == found,
        parsed is None ==> delegators.timestamp == 0 && delegators.delegator_staking_pools@
            == Map::<Seq<char>, Set<Seq<char>>>::empty(),
{
    match parsed {
        Some(found) => found,
        None => DelegatorsWithTimestamp::default(),
    }
}

/// The state of the cache as mathematics: the time of the last merge, the
/// two maps, for each validator the block height of the delegators that a
/// partial refresh last merged for it, and the block height of the last
/// full refresh.
pub struct CacheModel {
    pub timestamp: i64,
    pub forward: Pools,
    pub inverse: Pools,
    pub heights: Map<Seq<char>, u64>,
    pub floor: u64,
}

/// One merge into the cache.
pub enum Merge {
    /// The delegators of one validator as of block `height`, handed in at
    /// time `now`.
    Partial { validator: Seq<char>, delegators: Set<Seq<char>>, height: u64, now: i64 },
    /// A whole forward map as of block `height`, handed in at time `now`.
    Full { forward: Pools, height: u64, now: i64 },
}

/// The block height of what the cache holds of `validator`: the height of
/// its last partial refresh or that of the last full refresh, whichever is
/// higher.
pub open spec fn height_of(c: CacheModel, validator: Seq<char>) -> u64 {
    if c.heights.contains_key(validator) && c.heights[validator] > c.floor {
        c.heights[validator]
    } else {
        c.floor
    }
}

/// Delegators of `validator` as of block `height` come too late: what the
/// cache holds of that validator is of a higher block.
pub open spec fn outdated(c: CacheModel, validator: Seq<char>, height: u64) -> bool {
    height < height_of(c, validator)
}

/// A full refresh as of block `height` leaves the pool of `validator` as
/// the cache holds it: a partial refresh of a higher block merged it.
pub open spec fn kept(c: CacheModel, validator: Seq<char>, height: u64) -> bool {
    &&& c.forward.contains_key(validator)
    &&& c.heights.contains_key(validator)
    &&& c.heights[validator] > height
}

/// The forward map that a full refresh with `forward` as of block `height`
/// installs: `forward`, but for the pools that the cache holds of a higher
/// block.
pub open spec fn installed(c: CacheModel, forward: Pools, height: u64) -> Pools {
    Map::new(
        |v: Seq<char>| forward.contains_key(v) || kept(c, v, height),
        |v: Seq<char>|
            if kept(c, v, height) {
                c.forward[v]
            } else {
                forward[v]
            },
    )
}

/// The central invariant: the inverse map is the forward map turned round.
pub open spec fn committed(c: CacheModel) -> bool {
    c.inverse == inverse(c.forward)
}

/// The cache after `delegators`, the delegators of `validator` as of block
/// `height`, were handed in at time `now`. Where they come too late, the
/// cache stays as it is. Else they take the place of the validator's
/// delegators, and `height` is the validator's height from then on.
pub open spec fn merged_partial(
    c: CacheModel,
    validator: Seq<char>,
    delegators: Set<Seq<char>>,
    height: u64,
    now: i64,
) -> CacheModel {
    if outdated(c, validator, height) {
        c
    } else {
        CacheModel {
            timestamp: now,
            forward: c.forward.insert(validator, delegators),
            inverse: inverse(c.forward.insert(validator, delegators)),
            heights: c.heights.insert(validator, height),
            floor: c.floor,
        }
    }
}

/// The map that a full refresh installs, as far as the validators of
/// `seen` were looked at: `forward`, but for the pools of those among them
/// that the cache holds of a higher block.
pub open spec fn installed_upto(
    c: CacheModel,
    forward: Pools,
    height: u64,
    seen: Seq<Seq<char>>,
) -> Pools {
    Map::new(
        |v: Seq<char>| forward.contains_key(v) || (seen.contains(v) && kept(c, v, height)),
        |v: Seq<char>|
            if seen.contains(v) && kept(c, v, height) {
                c.forward[v]
            } else {
                forward[v]
            },
    )
}

/// A full refresh with `forward` as of block `height`, handed in at time
/// `now`, changes the cache, and so asks for a write. It does not where it
/// is of a lower block than the last full refresh, and so comes too late;
/// nor where the cache holds the very map it would install and is still
/// recent.
pub open spec fn full_refresh_writes(c: CacheModel, forward: Pools, height: u64, now: i64) -> bool {
    &&& height >= c.floor
    &&& !(c.forward == installed(c, forward, height) && recent(now, c.timestamp))
}

/// The cache after a full refresh with `forward` as of block `height`,
/// handed in at time `now`. Where it changes the cache, the forward map is
/// `forward` but for the pools that the cache holds of a higher block, the
/// inverse map is that map turned round, and `height` is the height of the
/// last full refresh.
pub open spec fn merged_full(c: CacheModel, forward: Pools, height: u64, now: i64) -> CacheModel {
    if full_refresh_writes(c, forward, height, now) {
        CacheModel {
            timestamp: now,
            forward: installed(c, forward, height),
            inverse: inverse(installed(c, forward, height)),
            heights: c.heights,
            floor: height,
        }
    } else {
        c
    }
}

/// The cache after one merge.
pub open spec fn merged(c: CacheModel, merge: Merge) -> CacheModel {
    match merge {
        Merge::Partial { validator, delegators, height, now } => merged_partial(
            c,
            validator,
            delegators,
            height,
            now,
        ),
        Merge::Full { forward, height, now } => merged_full(c, forward, height, now),
    }
}

/// The cache after a sequence of merges, the first one first.
pub open spec fn merged_all(c: CacheModel, merges: Seq<Merge>) -> CacheModel
    decreases merges.len(),
{
    if merges.len() == 0 {
        c
    } else {
        merged(merged_all(c, merges.drop_last()), merges.last())
    }
}

/// The inverse invariant. Take a cache whose inverse map is its forward map
/// turned round, and any sequence of merges, partial or full. After each of
/// them a delegator stands under a validator in the forward map exactly
/// where that validator stands under the delegator in the inverse map.
pub proof fn lemma_inverse_invariant(c: CacheModel, merges: Seq<Merge>, k: int)
    requires
        committed(c),
        0 <= k <= merges.len(),
    ensures
        committed(merged_all(c, merges.take(k))),
        inverse_links(
            merged_all(c, merges.take(k)).forward,
            merged_all(c, merges.take(k)).inverse,
        ),
    decreases k,
{
    if k > 0 {
        lemma_inverse_invariant(c, merges, k - 1);
        assert(merges.take(k).drop_last() =~= merges.take(k - 1));
    }
    lemma_inverse_is_inverse(merged_all(c, merges.take(k)).forward);
}

/// The central invariant in the words of its two maps: the inverse map is
/// the forward map turned round exactly where it links a delegator to a
/// validator whenever the forward map links that validator to that
/// delegator, and holds no delegator without a validator.
pub proof fn lemma_committed_is_inverse(c: CacheModel)
    ensures
        committed(c) <==> inverse_links(c.forward, c.inverse) && no_empty_pool(c.inverse),
{
    if committed(c) {
        lemma_inverse_is_inverse(c.forward);
    }
    if inverse_links(c.forward, c.inverse) && no_empty_pool(c.inverse) {
        lemma_inverse_unique(c.forward, c.inverse);
    }
}

/// A partial refresh replaces. After delegators of a validator that do
/// not come too late were merged, the forward map holds exactly them under
/// the validator, and the inverse map holds the validator under an account
/// exactly where the account is one of them: a delegator that left is
/// gone, one that came is there.
pub proof fn lemma_partial_refresh_replaces(
    c: CacheModel,
    validator: Seq<char>,
    delegators: Set<Seq<char>>,
    height: u64,
    now: i64,
    account: Seq<char>,
)
    requires
        !outdated(c, validator, height),
    ensures
        merged_partial(c, validator, delegators, height, now).forward[validator] == delegators,
        merged_partial(c, validator, delegators, height, now).heights[validator] == height,
        linked(
            merged_partial(c, validator, delegators, height, now).inverse,
            account,
            validator,
        ) <==> delegators.contains(account),
{
    lemma_inverse_linked(c.forward.insert(validator, delegators), validator, account);
}

/// Heights never fall. Whatever is merged, partial or full, what the cache
/// holds of a validator is of a block at least as high as before.
pub proof fn lemma_heights_never_fall(
    c: CacheModel,
    merges: Seq<Merge>,
    k: int,
    validator: Seq<char>,
)
    requires
        0 <= k <= merges.len(),
    ensures
        height_of(merged_all(c, merges.take(k)), validator) >= height_of(c, validator),
    decreases k,
{
    if k > 0 {
        lemma_heights_never_fall(c, merges, k - 1, validator);
        assert(merges.take(k).drop_last() =~= merges.take(k - 1));
    } else {
        assert(merges.take(0) =~= Seq::<Merge>::empty());
    }
}

/// A lower watermark never overwrites a committed higher one. Once
/// delegators of a validator as of some block were merged, then, whatever
/// is merged after them, delegators of that validator as of a lower block
/// change nothing when they are handed in: not the maps, not the heights,
/// not the time. Where nothing was merged in between, the forward map
/// still holds the delegators of the higher block.
pub proof fn lemma_lower_watermark_never_overwrites(
    c: CacheModel,
    validator: Seq<char>,
    higher: Set<Seq<char>>,
    high: u64,
    then: i64,
    merges: Seq<Merge>,
    lower: Set<Seq<char>>,
    low: u64,
    now: i64,
)
    requires
        !outdated(c, validator, high),
        low < high,
    ensures
        outdated(merged_all(merged_partial(c, validator, higher, high, then), merges), validator, low),
        merged_partial(
            merged_all(merged_partial(c, validator, higher, high, then), merges),
            validator,
            lower,
            low,
            now,
        ) == merged_all(merged_partial(c, validator, higher, high, then), merges),
        merges.len() == 0 ==> merged_partial(
            merged_partial(c, validator, higher, high, then),
            validator,
            lower,
            low,
            now,
        ).forward[validator] == higher,
{
    let first = merged_partial(c, validator, higher, high, then);
    assert(height_of(first, validator) >= high);
    lemma_heights_never_fall(first, merges, merges.len() as int, validator);
    assert(merges.take(merges.len() as int) =~= merges);
}

/// A full refresh of a lower block overwrites no pool of a higher one.
/// Once delegators of a validator as of some block were merged, a full
/// refresh as of a lower block leaves the validator's pool as it is,
/// whatever map it brings.
pub proof fn lemma_full_refresh_keeps_newer(
    c: CacheModel,
    validator: Seq<char>,
    higher: Set<Seq<char>>,
    high: u64,
    then: i64,
    forward: Pools,
    low: u64,
    now: i64,
)
    requires
        !outdated(c, validator, high),
        low < high,
    ensures
        merged_full(
            merged_partial(c, validator, higher, high, then),
            forward,
            low,
            now,
        ).forward.contains_key(validator),
        merged_full(merged_partial(c, validator, higher, high, then), forward, low, now).forward[validator]
            == higher,
{
}

/// A full refresh as of block `height` is of no lower block than anything
/// that the cache holds: not than the last full refresh, and not than the
/// partial refresh of any validator in the cache.
pub open spec fn abreast(c: CacheModel, height: u64) -> bool {
    &&& height >= c.floor
    &&& forall|v: Seq<char>| !kept(c, v, height)
}

/// A full refresh is idempotent. Take a forward map that was handed in as
/// a full refresh of no lower block than anything in the cache. Handing in
/// the same map again, as of whatever block, while the cache is still
/// recent leaves the cache as it is, its time too, and asks for no write.
pub proof fn lemma_full_refresh_idempotent(
    c: CacheModel,
    forward: Pools,
    height: u64,
    first: i64,
    again: u64,
    second: i64,
)
    requires
        abreast(c, height),
        recent(second, merged_full(c, forward, height, first).timestamp),
    ensures
        merged_full(merged_full(c, forward, height, first), forward, again, second) == merged_full(
            c,
            forward,
            height,
            first,
        ),
        !full_refresh_writes(merged_full(c, forward, height, first), forward, again, second),
{
    let once = merged_full(c, forward, height, first);
    assert(installed(c, forward, height) =~= forward);
    assert(once.forward == forward);
    assert(installed(once, forward, again) =~= forward);
}

/// The pairs of `validator` with each account of `stale` that is not in
/// `fresh`.
pub open spec fn links_left(
    validator: Seq<char>,
    stale: Set<Seq<char>>,
    fresh: Set<Seq<char>>,
) -> Set<Link> {
    Set::new(|p: Link| p.0 == validator && stale.contains(p.1) && !fresh.contains(p.1))
}

/// The pairs of `validator` with each account of `fresh`.
pub open spec fn links_with(validator: Seq<char>, fresh: Set<Seq<char>>) -> Set<Link> {
    Set::new(|p: Link| p.0 == validator && fresh.contains(p.1))
}

/// Takes `validator` out of the pool of every delegator of `stale` that is
/// not in `fresh`.
fn unlink_left(
    turned: &mut PoolMap,
    validator: &String,
    stale: &AccountSet,
    fresh: &AccountSet,
    Ghost(r): Ghost<Set<Link>>,
)
    requires
        old(turned)@ == pools_of(flip(r)),
    ensures
        final(turned)@ == pools_of(flip(r.difference(links_left(validator@, stale@, fresh@)))),
{
    let n = stale.len();
    let ghost order = stale.order();
    let ghost v = validator@;
    let ghost now = r;
    let mut i: usize = 0;
    proof {
        assert(r.difference(
            Set::new(
                |p: Link| p.0 == v && order.take(0).contains(p.1) && !fresh@.contains(p.1),
            ),
        ) =~= r);
    }
    while i < n
        invariant
            i <= n,
            n == stale@.len(),
            stale.walkable(),
            order == stale.order(),
            v == validator@,
            now == r.difference(
                Set::new(
                    |p: Link|
                        p.0 == v && order.take(i as int).contains(p.1) && !fresh@.contains(p.1),
                ),
            ),
            turned@ == pools_of(flip(now)),
        decreases n - i,
    {
        let delegator = stale.get(i);
        let ghost d = delegator@;
        let ghost next = r.difference(
            Set::new(
                |p: Link| p.0 == v && order.take(i + 1).contains(p.1) && !fresh@.contains(p.1),
            ),
        );
        if !fresh.contains(delegator.as_str()) {
            turned.remove_link(delegator.as_str(), validator.as_str());
            proof {
                lemma_pools_of_remove(flip(now), d, v);
                assert(flip(now.remove((v, d))) =~= flip(now).remove((d, v)));
                assert forall|p: Link| next.contains(p) <==> now.remove((v, d)).contains(p) by {
                    lemma_take_next(order, i as int, p.1);
                }
                assert(next =~= now.remove((v, d)));
            }
        } else {
            proof {
                assert forall|p: Link| next.contains(p) <==> now.contains(p) by {
                    lemma_take_next(order, i as int, p.1);
                }
                assert(next =~= now);
            }
        }
        proof {
            now = next;
        }
        i += 1;
    }
    proof {
        assert(order.take(n as int) =~= order);
        assert(now =~= r.difference(links_left(v, stale@, fresh@)));
    }
}

/// Puts `validator` into the pool of every delegator of `fresh`.
fn link_fresh(
    turned: &mut PoolMap,
    validator: &String,
    fresh: &AccountSet,
    Ghost(r): Ghost<Set<Link>>,
)
    requires
        old(turned)@ == pools_of(flip(r)),
    ensures
        final(turned)@ == pools_of(flip(r.union(links_with(validator@, fresh@)))),
{
    let n = fresh.len();
    let ghost order = fresh.order();
    let ghost v = validator@;
    let ghost now = r;
    let mut i: usize = 0;
    proof {
        assert(r.union(Set::new(|p: Link| p.0 == v && order.take(0).contains(p.1))) =~= r);
    }
    while i < n
        invariant
            i <= n,
            n == fresh@.len(),
            fresh.walkable(),
            order == fresh.order(),
            v == validator@,
            now == r.union(Set::new(|p: Link| p.0 == v && order.take(i as int).contains(p.1))),
            turned@ == pools_of(flip(now)),
        decreases n - i,
    {
        let delegator = fresh.get(i);
        let ghost d = delegator@;
        let ghost next = r.union(
            Set::new(|p: Link| p.0 == v && order.take(i + 1).contains(p.1)),
        );
        turned.add_link(delegator.clone(), validator.clone());
        proof {
            lemma_pools_of_insert(flip(now), d, v);
            assert(flip(now.insert((v, d))) =~= flip(now).insert((d, v)));
            assert forall|p: Link| next.contains(p) <==> now.insert((v, d)).contains(p) by {
                lemma_take_next(order, i as int, p.1);
            }
            assert(next =~= now.insert((v, d)));
            now = next;
        }
        i += 1;
    }
    proof {
        assert(order.take(n as int) =~= order);
        assert(now =~= r.union(links_with(v, fresh@)));
    }
}

/// The cache: both maps and the time of the last merge, committed together.
#[derive(Debug)]
pub struct CacheStore {
    validators: ValidatorsWithTimestamp,
    delegators: DelegatorsWithTimestamp,
    heights: StrMap<u64>,
    floor: u64,
}

impl CacheStore {
    /// The state of the cache.
    pub closed spec fn model(&self) -> CacheModel {
        CacheModel {
            timestamp: self.delegators.timestamp,
            forward: self.validators.validator_staking_pools@,
            inverse: self.delegators.delegator_staking_pools@,
            heights: self.heights@,
            floor: self.floor,
        }
    }

    #[verifier::type_invariant]
    spec fn inverse_kept(&self) -> bool {
        &&& self.delegators.delegator_staking_pools@ == inverse(
            self.validators.validator_staking_pools@,
        )
        &&& self.delegators.timestamp == self.validators.timestamp
    }

    /// An empty cache of time 0.
    pub fn new() -> (cache: Self)
        ensures
            cache.model().timestamp == 0,
            cache.model().forward == Map::<Seq<char>, Set<Seq<char>>>::empty(),
            cache.model().inverse == Map::<Seq<char>, Set<Seq<char>>>::empty(),
            cache.model().heights == Map::<Seq<char>, u64>::empty(),
            cache.model().floor == 0,
            committed(cache.model()),
    {
        let validators = ValidatorsWithTimestamp::default();
        let delegators = DelegatorsWithTimestamp::default();
        proof {
            assert(inverse(Map::<Seq<char>, Set<Seq<char>>>::empty()) =~= Map::<
                Seq<char>,
                Set<Seq<char>>,
            >::empty());
        }
        CacheStore { validators, delegators, heights: StrMap::new(), floor: 0 }
    }

    /// The cache that a persisted snapshot stands for: its forward map is
    /// the snapshot's map turned round, and its time is the snapshot's. The
    /// inverse map is the snapshot's map, but for delegators that stood
    /// there without any validator. A snapshot holds no heights: whatever
    /// is merged next is merged.
    pub fn from_snapshot(snapshot: &DelegatorsWithTimestamp) -> (cache: Self)
        ensures
            cache.model().timestamp == snapshot.timestamp,
            cache.model().forward == inverse(snapshot.delegator_staking_pools@),
            cache.model().inverse == inverse(inverse(snapshot.delegator_staking_pools@)),
            no_empty_pool(snapshot.delegator_staking_pools@) ==> cache.model().inverse
                == snapshot.delegator_staking_pools@,
            cache.model().heights == Map::<Seq<char>, u64>::empty(),
            cache.model().floor == 0,
            committed(cache.model()),
    {
        let validators = ValidatorsWithTimestamp::from(snapshot);
        let delegators = DelegatorsWithTimestamp::from(&validators);
        proof {
            if no_empty_pool(snapshot.delegator_staking_pools@) {
                lemma_inverse_involution(snapshot.delegator_staking_pools@);
            }
        }
        CacheStore { validators, delegators, heights: StrMap::new(), floor: 0 }
    }

    /// The time of the last merge.
    pub fn timestamp(&self) -> (timestamp: i64)
        ensures
            timestamp == self.model().timestamp,
    {
        self.delegators.timestamp
    }

    /// Whether a full refresh is due at time `now`.
    pub fn is_stale(&self, now: i64) -> (due: bool)
        ensures
            due == stale(now, self.model().timestamp),
    {
        is_stale(now, self.delegators.timestamp)
    }

    /// A copy of the inverse map with its time: what readers are given.
    pub fn read(&self) -> (snapshot: DelegatorsWithTimestamp)
        ensures
            snapshot.timestamp == self.model().timestamp,
            snapshot.delegator_staking_pools@ == self.model().inverse,
            committed(self.model()),
            inverse_links(self.model().forward, self.model().inverse),
    {
        proof {
            use_type_invariant(&*self);
            lemma_inverse_is_inverse(self.model().forward);
        }
        self.delegators.clone()
    }

    /// A copy of the forward map with its time.
    pub fn validators(&self) -> (snapshot: ValidatorsWithTimestamp)
        ensures
            snapshot.timestamp == self.model().timestamp,
            snapshot.validator_staking_pools@ == self.model().forward,
    {
        proof {
            use_type_invariant(&*self);
        }
        self.validators.clone()
    }

    /// The validators of the delegator `account_id` with the time of the
    /// cache, or nothing where the inverse map does not hold that account.
    pub fn get_by_account_id(&self, account_id: &str) -> (found: Option<DelegatorWithTimestamp>)
        ensures
            found is Some <==> self.model().inverse.contains_key(account_id@),
            found matches Some(delegator) ==> delegator.timestamp == self.model().timestamp
                && delegator.delegator_staking_pools@ == self.model().inverse[account_id@],
    {
        match self.delegators.delegator_staking_pools.get(account_id) {
            Some(validators) => Some(
                DelegatorWithTimestamp {
                    timestamp: self.delegators.timestamp,
                    delegator_staking_pools: validators.clone(),
                },
            ),
            None => None,
        }
    }

    /// The block height of what the cache holds of `validator`: 0 where
    /// nothing with a height was merged yet.
    pub fn height_of(&self, validator: &str) -> (height: u64)
        ensures
            height == height_of(self.model(), validator@),
    {
        match self.heights.get(validator) {
            Some(height) => if *height > self.floor {
                *height
            } else {
                self.floor
            },
            None => self.floor,
        }
    }

    /// The pool that a full refresh holds for `validator`: the delegators
    /// that its fetch brought, or, where the fetch failed, the delegators
    /// that the cache holds for it, so that a failed fetch wipes nothing.
    /// A validator whose fetch failed and that the cache does not hold has
    /// no pool.
    pub fn pool_for_refresh(&self, validator: &str, fetched: Option<AccountSet>) -> (pool: Option<
        AccountSet,
    >)
        ensures
            match fetched {
                Some(delegators) => pool matches Some(set) && set@ == delegators@,
                None => if self.model().forward.contains_key(validator@) {
                    pool matches Some(set) && set@ == self.model().forward[validator@]
                } else {
                    pool is None
                },
            },
    {
        match fetched {
            Some(delegators) => Some(delegators),
            None => match self.validators.validator_staking_pools.get(validator) {
                Some(held) => Some(held.clone()),
                None => None,
            },
        }
    }

    /// Merges the freshly fetched delegators of one validator, as of block
    /// `block_id`, at time `timestamp`, and says whether they were merged.
    /// Delegators of a lower block than the cache has merged for the
    /// validator come too late: the cache stays as it is. Else the
    /// validator's pool in the forward map is replaced, not added to. In
    /// the inverse map the validator leaves the pool of each delegator that
    /// is no longer its own, a pool left empty going with its key, and
    /// enters the pool of each delegator that is.
    pub fn merge_validator(
        &mut self,
        validator_account_id: String,
        validator_delegators: AccountSet,
        block_id: u64,
        timestamp: i64,
    ) -> (merged: bool)
        ensures
            merged == !outdated(old(self).model(), validator_account_id@, block_id),
            final(self).model() == merged_partial(
                old(self).model(),
                validator_account_id@,
                validator_delegators@,
                block_id,
                timestamp,
            ),
            committed(final(self).model()),
            inverse_links(final(self).model().forward, final(self).model().inverse),
    {
        proof {
            use_type_invariant(&*self);
            lemma_inverse_is_inverse(self.model().forward);
        }
        if block_id < self.height_of(validator_account_id.as_str()) {
            return false;
        }
        let mut taken = CacheStore::new();
        std::mem::swap(self, &mut taken);
        let CacheStore { validators, delegators, heights, floor } = taken;
        let mut forward = validators.validator_staking_pools;
        let mut turned = delegators.delegator_staking_pools;
        let mut heights = heights;
        let ghost v = validator_account_id@;
        let ghost fresh = validator_delegators@;
        let ghost f0 = forward@;
        let ghost r0 = relation(f0);
        let ghost stale = pool_of(f0, v);
        match forward.get(validator_account_id.as_str()) {
            Some(pool) => {
                unlink_left(&mut turned, &validator_account_id, pool, &validator_delegators, Ghost(r0));
            },
            None => {
                proof {
                    assert(r0.difference(links_left(v, stale, fresh)) =~= r0);
                }
            },
        }
        let ghost r1 = r0.difference(links_left(v, stale, fresh));
        link_fresh(&mut turned, &validator_account_id, &validator_delegators, Ghost(r1));
        proof {
            let f1 = f0.insert(v, fresh);
            assert forall|p: Link|
                r1.union(links_with(v, fresh)).contains(p) <==> relation(f1).contains(p) by {}
            assert(r1.union(links_with(v, fresh)) =~= relation(f1));
            lemma_inverse_is_inverse(f1);
        }
        heights.insert(validator_account_id.clone(), block_id);
        forward.insert(validator_account_id, validator_delegators);
        *self = CacheStore {
            validators: ValidatorsWithTimestamp { timestamp, validator_staking_pools: forward },
            delegators: DelegatorsWithTimestamp { timestamp, delegator_staking_pools: turned },
            heights,
            floor,
        };
        true
    }

    /// The forward map that a full refresh with `forward` as of block
    /// `block_id` installs: `forward`, but for the pools that the cache
    /// holds of a higher block.
    fn install(&self, forward: PoolMap, block_id: u64) -> (install: PoolMap)
        ensures
            install@ == installed(self.model(), forward@, block_id),
    {
        let mut install = forward;
        let ghost c = self.model();
        let ghost f = forward@;
        let ghost keys = self.heights.key_order();
        let n = self.heights.len();
        let mut i: usize = 0;
        proof {
            assert(install@ =~= installed_upto(c, f, block_id, keys.take(0)));
        }
        while i < n
            invariant
                i <= n,
                n == self.heights@.len(),
                self.heights.walkable(),
                keys == self.heights.key_order(),
                c == self.model(),
                install@ == installed_upto(c, f, block_id, keys.take(i as int)),
            decreases n - i,
        {
            let validator = self.heights.key_at(i);
            let height = *self.heights.value_at(i);
            let ghost v = validator@;
            if height > block_id {
                match self.validators.validator_staking_pools.get(validator.as_str()) {
                    Some(pool) => {
                        install.insert(validator.clone(), pool.clone());
                    },
                    None => {},
                }
            }
            proof {
                assert forall|k: Seq<char>|
                    keys.take(i + 1).contains(k) <==> keys.take(i as int).contains(k) || k == v by {
                    lemma_take_next(keys, i as int, k);
                }
                assert(install@ =~= installed_upto(c, f, block_id, keys.take(i + 1)));
            }
            i += 1;
        }
        proof {
            assert(keys.take(n as int) =~= keys);
            assert forall|k: Seq<char>| kept(c, k, block_id) implies keys.contains(k) by {
                assert(keys.to_set().contains(k));
            }
            assert(install@ =~= installed(c, f, block_id));
        }
        install
    }

    /// Merges a whole freshly fetched forward map, as of block `block_id`,
    /// at time `now`, and says whether the cache changed and is to be
    /// written. A map of a lower block than the last full refresh comes too
    /// late and changes nothing. Else the map to install is `forward`, but
    /// for the pools that a partial refresh of a higher block merged, which
    /// stay. Where the cache holds that very map and is still recent,
    /// nothing changes, the time neither. Otherwise the forward map is
    /// replaced, the inverse map is rebuilt from it, and the time is `now`.
    pub fn merge_full(&mut self, forward: PoolMap, block_id: u64, now: i64) -> (written: bool)
        ensures
            final(self).model() == merged_full(old(self).model(), forward@, block_id, now),
            written == full_refresh_writes(old(self).model(), forward@, block_id, now),
            committed(final(self).model()),
            inverse_links(final(self).model().forward, final(self).model().inverse),
    {
        proof {
            use_type_invariant(&*self);
            lemma_inverse_is_inverse(self.model().forward);
        }
        if block_id < self.floor {
            return false;
        }
        let install = self.install(forward, block_id);
        proof {
            lemma_inverse_is_inverse(install@);
        }
        if is_recent(now, self.delegators.timestamp) && self.validators.validator_staking_pools.same_as(
            &install,
        ) {
            return false;
        }
        let turned = install.invert();
        let mut taken = CacheStore::new();
        std::mem::swap(self, &mut taken);
        let CacheStore { validators: _, delegators: _, heights, floor: _ } = taken;
        *self = CacheStore {
            validators: ValidatorsWithTimestamp { timestamp: now, validator_staking_pools: install },
            delegators: DelegatorsWithTimestamp { timestamp: now, delegator_staking_pools: turned },
            heights,
            floor: block_id,
        };
        true
    }
}

/// Merges the freshly fetched delegators of one validator, as of block
/// `block_id`, into the cache, at the time that the system clock gives, and
/// says whether they were merged. Delegators of a lower block than the
/// cache has merged for the validator change nothing. Else, whatever the
/// clock said, the validator's pool is replaced by `validator_delegators`,
/// and the inverse map is the new forward map turned round.
pub fn update_delegators_by_validator_account_id(
    cache: &mut CacheStore,
    validator_account_id: String,
    validator_delegators: AccountSet,
    block_id: u64,
) -> (merged: bool)
    ensures
        merged == !outdated(old(cache).model(), validator_account_id@, block_id),
        final(cache).model() == merged_partial(
            old(cache).model(),
            validator_account_id@,
            validator_delegators@,
            block_id,
            final(cache).model().timestamp,
        ),
        committed(final(cache).model()),
        inverse_links(final(cache).model().forward, final(cache).model().inverse),
{
    let timestamp = unix_now();
    cache.merge_validator(validator_account_id, validator_delegators, block_id, timestamp)
}

} // verus!
