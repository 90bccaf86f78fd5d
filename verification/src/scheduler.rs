//! The work that waits for a worker: which validators are to be fetched
//! anew, and up to which block height.
//!
//! A request for one validator is pending until a worker takes it, then in
//! flight until the worker is done. The watermark of a request whose data
//! were merged is kept as committed. A request that brings no higher
//! watermark than one already pending, in flight or committed is dropped.

use crate::account_set::AccountSet;
use crate::keys::{increasing, lemma_increasing_no_duplicates, lemma_take_next};
use crate::str_map::StrMap;
use vstd::prelude::*;

verus! {

/// How many requests a worker takes at one time.
pub const BATCH_SIZE: usize = 5;

/// Seconds between two looks at the age of the cache.
pub const TICK_SECONDS: u64 = 60;

/// Watermarks by validator.
pub type Marks = Map<Seq<char>, u64>;

/// The work as mathematics: the watermark of each validator that waits, of
/// each that a worker is busy with, and the highest watermark of each whose
/// data were merged.
pub struct WorkModel {
    pub pending: Marks,
    pub in_flight: Marks,
    pub committed: Marks,
}

/// A request for `validator` with `watermark` brings nothing new: one
/// with at least that watermark is pending or in flight, or its data were
/// merged already.
pub open spec fn covered(w: WorkModel, validator: Seq<char>, watermark: u64) -> bool {
    ||| w.pending.contains_key(validator) && w.pending[validator] >= watermark
    ||| w.in_flight.contains_key(validator) && w.in_flight[validator] >= watermark
    ||| w.committed.contains_key(validator) && w.committed[validator] >= watermark
}

/// The work after a request for `validator` with `watermark` came in: a
/// request that brings nothing new is dropped, any other is pending with
/// its watermark from then on.
pub open spec fn submitted(w: WorkModel, validator: Seq<char>, watermark: u64) -> WorkModel {
    if covered(w, validator, watermark) {
        w
    } else {
        WorkModel {
            pending: w.pending.insert(validator, watermark),
            in_flight: w.in_flight,
            committed: w.committed,
        }
    }
}

/// The work after a request with `watermark` came in for each of
/// `validators`.
pub open spec fn submitted_all(w: WorkModel, validators: Set<Seq<char>>, watermark: u64) -> WorkModel {
    WorkModel {
        pending: Map::new(
            |k: Seq<char>|
                w.pending.contains_key(k) || (validators.contains(k) && !covered(
                    w,
                    k,
                    watermark,
                )),
            |k: Seq<char>|
                if validators.contains(k) && !covered(w, k, watermark) {
                    watermark
                } else {
                    w.pending[k]
                },
        ),
        in_flight: w.in_flight,
        committed: w.committed,
    }
}

/// Whether no worker is busy with `validator`.
pub open spec fn free(in_flight: Marks) -> spec_fn(Seq<char>) -> bool {
    |validator: Seq<char>| !in_flight.contains_key(validator)
}

/// The validators that a worker takes next: of those that wait, in
/// increasing order, the first `limit` that no worker is busy with.
pub open spec fn next_up(order: Seq<Seq<char>>, in_flight: Marks, limit: int) -> Seq<Seq<char>> {
    let ready = order.filter(free(in_flight));
    if 0 <= limit < ready.len() {
        ready.take(limit)
    } else {
        ready
    }
}

/// The work after a worker took the validators of `taken`: they wait no
/// more, and are in flight with the watermark they waited with.
pub open spec fn after_batch(w: WorkModel, taken: Set<Seq<char>>) -> WorkModel {
    WorkModel {
        pending: w.pending.remove_keys(taken),
        in_flight: Map::new(
            |k: Seq<char>| w.in_flight.contains_key(k) || taken.contains(k),
            |k: Seq<char>|
                if taken.contains(k) {
                    w.pending[k]
                } else {
                    w.in_flight[k]
                },
        ),
        committed: w.committed,
    }
}

/// The committed watermarks after data of `validator` with `watermark` were
/// merged: the watermark of the validator is that one, unless a higher one
/// was committed before.
pub open spec fn raised(committed: Marks, validator: Seq<char>, watermark: u64) -> Marks {
    if committed.contains_key(validator) && committed[validator] >= watermark {
        committed
    } else {
        committed.insert(validator, watermark)
    }
}

/// The work after the worker is done with `validator`: it is in flight no
/// more. Where the worker's data were merged, the watermark it worked with
/// is committed. Whatever came in for the validator meanwhile still waits.
pub open spec fn completed(w: WorkModel, validator: Seq<char>, merged: bool) -> WorkModel {
    WorkModel {
        pending: w.pending,
        in_flight: w.in_flight.remove(validator),
        committed: if merged && w.in_flight.contains_key(validator) {
            raised(w.committed, validator, w.in_flight[validator])
        } else {
            w.committed
        },
    }
}

/// Where a validator stands in the work.
pub enum WorkState {
    /// Nothing waits for the validator and no worker is busy with it.
    Idle,
    /// A request for the validator waits.
    Pending,
    /// A worker is busy with the validator.
    InFlight,
}

/// Where `validator` stands in the work. A validator that a worker is busy
/// with is in flight, whether or not a further request waits for it.
pub open spec fn state_of(w: WorkModel, validator: Seq<char>) -> WorkState {
    if w.in_flight.contains_key(validator) {
        WorkState::InFlight
    } else if w.pending.contains_key(validator) {
        WorkState::Pending
    } else {
        WorkState::Idle
    }
}

/// The validators of a batch, in its order.
pub open spec fn batch_keys(batch: Seq<(String, u64)>) -> Seq<Seq<char>> {
    Seq::new(batch.len(), |i: int| batch[i].0@)
}

/// The round of one request. A request that brings something new for an
/// idle validator makes it pending; the batch that takes it makes it in
/// flight, with the watermark of the request; and when the worker is done,
/// the validator is idle again.
pub proof fn lemma_request_round(
    w: WorkModel,
    validator: Seq<char>,
    watermark: u64,
    taken: Set<Seq<char>>,
    merged: bool,
)
    requires
        state_of(w, validator) is Idle,
        !covered(w, validator, watermark),
        taken.contains(validator),
    ensures
        state_of(submitted(w, validator, watermark), validator) is Pending,
        state_of(after_batch(submitted(w, validator, watermark), taken), validator) is InFlight,
        after_batch(submitted(w, validator, watermark), taken).in_flight[validator] == watermark,
        state_of(
            completed(after_batch(submitted(w, validator, watermark), taken), validator, merged),
            validator,
        ) is Idle,
{
}

/// A stale request is dropped for good. Once the data of a request for a
/// validator were merged, any later request for that validator with no
/// higher watermark is dropped, though the validator is idle again: it
/// leaves the work as it is, so that no fetch is made whose data could
/// take the place of newer ones.
pub proof fn lemma_committed_request_dropped(
    w: WorkModel,
    validator: Seq<char>,
    watermark: u64,
    taken: Set<Seq<char>>,
    later: u64,
)
    requires
        !covered(w, validator, watermark),
        taken.contains(validator),
        later <= watermark,
    ensures
        covered(
            completed(after_batch(submitted(w, validator, watermark), taken), validator, true),
            validator,
            later,
        ),
        submitted(
            completed(after_batch(submitted(w, validator, watermark), taken), validator, true),
            validator,
            later,
        ) == completed(after_batch(submitted(w, validator, watermark), taken), validator, true),
{
}

/// Committed watermarks never fall: whatever comes in, is taken or is
/// done, a validator whose data were merged keeps a committed watermark at
/// least as high.
pub proof fn lemma_committed_never_lowered(
    w: WorkModel,
    validator: Seq<char>,
    watermark: u64,
    taken: Set<Seq<char>>,
    merged: bool,
    other: Seq<char>,
)
    requires
        w.committed.contains_key(other),
    ensures
        submitted(w, validator, watermark).committed == w.committed,
        after_batch(w, taken).committed == w.committed,
        completed(w, validator, merged).committed.contains_key(other),
        completed(w, validator, merged).committed[other] >= w.committed[other],
{
}

/// A request never lowers a watermark: whoever waited still waits, with a
/// watermark at least as high.
pub proof fn lemma_watermark_never_lowered(
    w: WorkModel,
    validator: Seq<char>,
    watermark: u64,
    other: Seq<char>,
)
    requires
        w.pending.contains_key(other),
    ensures
        submitted(w, validator, watermark).pending.contains_key(other),
        submitted(w, validator, watermark).pending[other] >= w.pending[other],
{
}

/// Once a request for a validator came in, a later one for the same
/// validator with no higher watermark is dropped: it leaves the work as it
/// is.
pub proof fn lemma_stale_request_dropped(
    w: WorkModel,
    validator: Seq<char>,
    first: u64,
    second: u64,
)
    requires
        second <= first,
    ensures
        covered(submitted(w, validator, first), validator, second),
        submitted(submitted(w, validator, first), validator, second) == submitted(
            w,
            validator,
            first,
        ),
{
}

/// A request for a validator that a worker is busy with, with no higher
/// watermark than the worker's, is dropped; and to take a batch changes no
/// watermark, so that a request dropped before is dropped after.
pub proof fn lemma_batch_keeps_cover(
    w: WorkModel,
    taken: Set<Seq<char>>,
    validator: Seq<char>,
    watermark: u64,
)
    requires
        covered(w, validator, watermark),
        forall|k: Seq<char>|
            taken.contains(k) ==> w.pending.contains_key(k) && !w.in_flight.contains_key(k),
    ensures
        covered(after_batch(w, taken), validator, watermark),
{
}

/// The requests for partial refreshes that wait and that are in flight.
#[derive(Debug)]
pub struct PendingWork {
    pending: StrMap<u64>,
    in_flight: StrMap<u64>,
    committed: StrMap<u64>,
}

impl PendingWork {
    /// The work as mathematics.
    pub closed spec fn model(&self) -> WorkModel {
        WorkModel {
            pending: self.pending@,
            in_flight: self.in_flight@,
            committed: self.committed@,
        }
    }

    /// The validators that wait, in increasing order.
    pub closed spec fn pending_order(&self) -> Seq<Seq<char>> {
        self.pending.key_order()
    }

    /// What `pending_order` has to do with the model: it is increasing and
    /// holds the validators that wait, each once.
    pub open spec fn walkable(&self) -> bool {
        &&& increasing(self.pending_order())
        &&& self.pending_order().to_set() == self.model().pending.dom()
        &&& self.pending_order().len() == self.model().pending.len()
    }

    /// No work.
    pub fn new() -> (work: Self)
        ensures
            work.model().pending == Map::<Seq<char>, u64>::empty(),
            work.model().in_flight == Map::<Seq<char>, u64>::empty(),
            work.model().committed == Map::<Seq<char>, u64>::empty(),
    {
        PendingWork { pending: StrMap::new(), in_flight: StrMap::new(), committed: StrMap::new() }
    }

    /// The number of validators that wait.
    pub fn pending_len(&self) -> (n: usize)
        ensures
            n == self.model().pending.len(),
            self.walkable(),
    {
        self.pending.len()
    }

    /// The number of validators that workers are busy with.
    pub fn in_flight_len(&self) -> (n: usize)
        ensures
            n == self.model().in_flight.len(),
    {
        self.in_flight.len()
    }

    /// The watermark that `validator` waits with, if it waits.
    pub fn pending_watermark(&self, validator: &str) -> (watermark: Option<u64>)
        ensures
            watermark == if self.model().pending.contains_key(validator@) {
                Some(self.model().pending[validator@])
            } else {
                None::<u64>
            },
    {
        match self.pending.get(validator) {
            Some(watermark) => Some(*watermark),
            None => None,
        }
    }

    /// The watermark that a worker is busy with for `validator`, if one is.
    pub fn in_flight_watermark(&self, validator: &str) -> (watermark: Option<u64>)
        ensures
            watermark == if self.model().in_flight.contains_key(validator@) {
                Some(self.model().in_flight[validator@])
            } else {
                None::<u64>
            },
    {
        match self.in_flight.get(validator) {
            Some(watermark) => Some(*watermark),
            None => None,
        }
    }

    /// The highest watermark with which data of `validator` were merged, if
    /// any were.
    pub fn committed_watermark(&self, validator: &str) -> (watermark: Option<u64>)
        ensures
            watermark == if self.model().committed.contains_key(validator@) {
                Some(self.model().committed[validator@])
            } else {
                None::<u64>
            },
    {
        match self.committed.get(validator) {
            Some(watermark) => Some(*watermark),
            None => None,
        }
    }

    /// Whether a request for `validator` with `watermark` would bring
    /// nothing new.
    pub fn is_covered(&self, validator: &str, watermark: u64) -> (dropped: bool)
        ensures
            dropped == covered(self.model(), validator@, watermark),
    {
        let waits = match self.pending.get(validator) {
            Some(held) => *held >= watermark,
            None => false,
        };
        let flies = match self.in_flight.get(validator) {
            Some(held) => *held >= watermark,
            None => false,
        };
        let merged = match self.committed.get(validator) {
            Some(held) => *held >= watermark,
            None => false,
        };
        waits || flies || merged
    }

    /// Takes in a request for `validator` with `watermark`, and says
    /// whether it was accepted. A request that brings no higher watermark
    /// than one pending, in flight or committed for the validator is
    /// dropped. Any other makes the validator wait with that watermark, in
    /// place of a lower one that it waited with.
    pub fn submit(&mut self, validator: String, watermark: u64) -> (accepted: bool)
        ensures
            accepted == !covered(old(self).model(), validator@, watermark),
            final(self).model() == submitted(old(self).model(), validator@, watermark),
    {
        if self.is_covered(validator.as_str(), watermark) {
            false
        } else {
            self.pending.insert(validator, watermark);
            true
        }
    }

    /// Takes in a request with `watermark` for each of `validators`, as a
    /// full refresh asks.
    pub fn schedule_all(&mut self, validators: &AccountSet, watermark: u64)
        ensures
            final(self).model() == submitted_all(old(self).model(), validators@, watermark),
    {
        let n = validators.len();
        let ghost w = self.model();
        let ghost order = validators.order();
        let mut i: usize = 0;
        proof {
            assert(self.model().pending =~= submitted_all(
                w,
                order.take(0).to_set(),
                watermark,
            ).pending);
        }
        while i < n
            invariant
                i <= n,
                n == validators@.len(),
                validators.walkable(),
                order == validators.order(),
                w == old(self).model(),
                self.model() == submitted_all(w, order.take(i as int).to_set(), watermark),
            decreases n - i,
        {
            let validator = validators.get(i);
            let ghost v = validator@;
            let ghost before = self.model();
            proof {
                lemma_increasing_no_duplicates(order);
                let done = order.take(i as int);
                if done.contains(v) {
                    let j = done.index_of(v);
                    assert(order[j] == order[i as int]);
                }
                assert(!done.to_set().contains(v));
                assert(covered(before, v, watermark) == covered(w, v, watermark));
            }
            self.submit(validator.clone(), watermark);
            proof {
                let done = order.take(i as int).to_set();
                let more = order.take(i + 1).to_set();
                assert forall|k: Seq<char>| more.contains(k) <==> (done.contains(k) || k == v) by {
                    lemma_take_next(order, i as int, k);
                }
                assert(self.model().pending =~= submitted_all(w, more, watermark).pending);
            }
            i += 1;
        }
        proof {
            assert(order.take(n as int) =~= order);
            assert(self.model().pending =~= submitted_all(w, validators@, watermark).pending);
        }
    }

    /// Hands a worker its next batch: of the validators that wait, in
    /// increasing order, the first `limit` that no worker is busy with,
    /// each with its watermark. They wait no more and are in flight.
    pub fn take_batch(&mut self, limit: usize) -> (batch: Vec<(String, u64)>)
        ensures
            old(self).walkable(),
            batch_keys(batch@) == next_up(
                old(self).pending_order(),
                old(self).model().in_flight,
                limit as int,
            ),
            forall|i: int|
                0 <= i < batch@.len() ==> old(self).model().pending.contains_key(
                    #[trigger] batch_keys(batch@)[i],
                ) && batch@[i].1 == old(self).model().pending[batch_keys(batch@)[i]],
            final(self).model() == after_batch(old(self).model(), batch_keys(batch@).to_set()),
    {
        let n = self.pending.len();
        let ghost w = self.model();
        let ghost order = self.pending_order();
        let ghost ready = free(w.in_flight);
        let mut batch: Vec<(String, u64)> = Vec::new();
        let mut i: usize = 0;
        proof {
            assert(order.take(0) =~= Seq::<Seq<char>>::empty());
            reveal(Seq::filter);
            assert(batch_keys(batch@) =~= order.take(0).filter(ready));
        }
        while i < n && batch.len() < limit
            invariant
                i <= n,
                n == order.len(),
                n == self.pending@.len(),
                self.pending.walkable(),
                w == self.model(),
                order == self.pending.key_order(),
                ready == free(w.in_flight),
                batch@.len() <= limit,
                batch_keys(batch@) == order.take(i as int).filter(ready),
                forall|j: int|
                    0 <= j < batch@.len() ==> w.pending.contains_key(
                        #[trigger] batch_keys(batch@)[j],
                    ) && batch@[j].1 == w.pending[batch_keys(batch@)[j]] && !w.in_flight.contains_key(
                        batch_keys(batch@)[j],
                    ),
            decreases n - i,
        {
            let key = self.pending.key_at(i);
            let ghost before = batch_keys(batch@);
            proof {
                assert(order.take(i + 1) =~= order.take(i as int).push(order[i as int]));
                order.take(i as int).lemma_filter_push(order[i as int], ready);
            }
            if !self.in_flight.contains_key(key.as_str()) {
                let watermark = *self.pending.value_at(i);
                batch.push((key.clone(), watermark));
                proof {
                    assert(batch_keys(batch@) =~= before.push(order[i as int]));
                }
            }
            i += 1;
        }
        proof {
            let whole = order.filter(ready);
            assert(order =~= order.take(i as int) + order.skip(i as int));
            Seq::filter_distributes_over_add(order.take(i as int), order.skip(i as int), ready);
            if i == n {
                assert(order.skip(i as int) =~= Seq::<Seq<char>>::empty());
                reveal(Seq::filter);
                assert(order.skip(i as int).filter(ready) =~= Seq::<Seq<char>>::empty());
                assert(whole =~= batch_keys(batch@));
                assert(whole.len() <= limit);
            } else {
                assert(batch@.len() == limit);
                assert(whole.take(limit as int) =~= batch_keys(batch@));
                if !((limit as int) < whole.len()) {
                    assert(whole =~= batch_keys(batch@));
                }
            }
            assert(batch_keys(batch@) == next_up(order, w.in_flight, limit as int));
        }
        let m = batch.len();
        let ghost keys = batch_keys(batch@);
        let mut j: usize = 0;
        proof {
            assert(keys.take(0).to_set() =~= Set::<Seq<char>>::empty());
            assert(self.model().pending =~= after_batch(w, keys.take(0).to_set()).pending);
            assert(self.model().in_flight =~= after_batch(w, keys.take(0).to_set()).in_flight);
        }
        while j < m
            invariant
                j <= m,
                m == batch@.len(),
                keys == batch_keys(batch@),
                forall|k: int|
                    0 <= k < batch@.len() ==> w.pending.contains_key(#[trigger] keys[k])
                        && batch@[k].1 == w.pending[keys[k]] && !w.in_flight.contains_key(keys[k]),
                self.model() == after_batch(w, keys.take(j as int).to_set()),
            decreases m - j,
        {
            let ghost done = keys.take(j as int).to_set();
            let ghost more = keys.take(j + 1).to_set();
            let ghost key = keys[j as int];
            self.pending.remove(batch[j].0.as_str());
            self.in_flight.insert(batch[j].0.clone(), batch[j].1);
            proof {
                assert(batch@[j as int].0@ == key);
                assert forall|k: Seq<char>| more.contains(k) <==> (done.contains(k) || k == key) by {
                    lemma_take_next(keys, j as int, k);
                }
                assert(self.model().pending =~= after_batch(w, more).pending);
                assert(self.model().in_flight =~= after_batch(w, more).in_flight);
            }
            j += 1;
        }
        proof {
            assert(keys.take(m as int) =~= keys);
        }
        batch
    }

    /// Takes note that the worker is done with `validator`, and gives the
    /// watermark it worked with. `merged` says whether the worker's data were
    /// merged into the cache; where they were, that watermark is committed,
    /// and no request at or below it is accepted again. Whatever came in for
    /// the validator meanwhile still waits.
    pub fn complete(&mut self, validator: &str, merged: bool) -> (watermark: Option<u64>)
        ensures
            final(self).model() == completed(old(self).model(), validator@, merged),
            watermark == if old(self).model().in_flight.contains_key(validator@) {
                Some(old(self).model().in_flight[validator@])
            } else {
                None::<u64>
            },
    {
        let watermark = self.in_flight.remove(validator);
        match watermark {
            Some(worked) => {
                if merged {
                    let higher = match self.committed.get(validator) {
                        Some(held) => *held >= worked,
                        None => false,
                    };
                    if !higher {
                        self.committed.insert(validator.to_owned(), worked);
                    }
                }
            },
            None => {},
        }
        watermark
    }
}

} // verus!
