//! The wall clock.

use vstd::prelude::*;

verus! {

/// `time::get_time`: the wall clock, in seconds since the epoch. Nothing is
/// promised of what it shows.
#[verifier::external_body]
pub(crate) fn now_seconds() -> (now: u64) {
    time::get_time().sec as u64
}

} // verus!
