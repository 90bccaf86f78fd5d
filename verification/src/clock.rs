//! The system clock.

use vstd::prelude::*;

verus! {

/// Reads the system clock through `chrono::Utc::now` and gives its
/// `timestamp`: seconds since the Unix epoch. Nothing is claimed of the
/// value: two readings may differ in either direction.
#[verifier::external_body]
pub(crate) fn unix_now() -> (seconds: i64) {
    chrono::Utc::now().timestamp()
}

} // verus!
