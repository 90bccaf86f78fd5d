//! How old a snapshot may grow.

use vstd::prelude::*;

verus! {

/// Seconds after which a snapshot counts as stale.
pub const TTL_SECONDS: i64 = 1800;

/// A snapshot taken at `timestamp` is older than the staleness threshold at
/// time `now`.
pub open spec fn stale(now: i64, timestamp: i64) -> bool {
    now - timestamp > TTL_SECONDS
}

/// A snapshot taken at `timestamp` is younger than the staleness threshold at
/// time `now`.
pub open spec fn recent(now: i64, timestamp: i64) -> bool {
    now - timestamp < TTL_SECONDS
}

/// Says whether a snapshot taken at `timestamp` is stale at time `now`, so
/// that a full refresh is due.
pub fn is_stale(now: i64, timestamp: i64) -> (due: bool)
    ensures
        due == stale(now, timestamp),
{
    now as i128 - timestamp as i128 > TTL_SECONDS as i128
}

/// Says whether a snapshot taken at `timestamp` is still recent at time
/// `now`.
pub fn is_recent(now: i64, timestamp: i64) -> (young: bool)
    ensures
        young == recent(now, timestamp),
{
    (now as i128 - timestamp as i128) < TTL_SECONDS as i128
}

} // verus!
