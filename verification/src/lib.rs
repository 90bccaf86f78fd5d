//! A cache of staking pools: for each validator of a staking network the
//! accounts that delegate to it, and for each delegator the validators it
//! delegates to.
//!
//! The data comes from a ledger's query service, one validator at a time
//! and page by page. This library holds what is decided and computed on the
//! way: which calls are made and what their answers mean (`methods`,
//! `extensions`), how fetched delegators are merged into the two maps, which
//! are kept exact inverses of one another (`delegators`, `pool_map`), when
//! the cache is stale (`freshness`), and which validators wait to be fetched
//! anew (`scheduler`, `trigger`). Calls, files and clocks of a service are
//! its own; it hands this library plain values and takes plain values back.

pub mod account_set;
mod clock;
pub mod delegators;
pub mod extensions;
pub mod freshness;
pub mod keys;
pub mod methods;
pub mod pool_map;
pub mod scheduler;
pub mod stake_delegators;
pub mod str_map;
pub mod trigger;
