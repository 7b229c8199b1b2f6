//! The clock that the cache reads.

use std::time::Instant;
use vstd::prelude::*;

verus! {

/// A moment of the monotonic clock of `std::time`.
#[verifier::external_type_specification]
#[verifier::external_body]
pub struct ExInstant(Instant);

/// The nanoseconds in a second.
pub const NANOS_PER_SECOND: u128 = 1000000000;

/// Calls `Instant::now`: the present moment.
#[verifier::external_body]
pub(crate) fn moment_now() -> Instant {
    Instant::now()
}

/// Calls `Instant::elapsed` and gives the time that has passed since
/// `origin` in nanoseconds, as `Duration::as_nanos` counts them.
#[verifier::external_body]
pub(crate) fn nanos_since(origin: &Instant) -> u128 {
    origin.elapsed().as_nanos()
}

/// The nanoseconds from `start` to `now`: 0 where `now` is before `start`.
pub open spec fn nanos_between(start: u128, now: u128) -> int {
    if now >= start {
        now - start
    } else {
        0
    }
}

/// The nanoseconds from `start` to `now`: 0 where `now` is before `start`.
pub fn elapsed_nanos(start: u128, now: u128) -> (nanos: u128)
    ensures
        nanos == nanos_between(start, now),
{
    if now >= start {
        now - start
    } else {
        0
    }
}

/// The nanoseconds of a time to live of `seconds` seconds.
pub open spec fn nanos_of(seconds: u64) -> int {
    seconds * NANOS_PER_SECOND
}

/// The nanoseconds of a time to live of `seconds` seconds.
pub fn seconds_to_nanos(seconds: u64) -> (nanos: u128)
    ensures
        nanos == nanos_of(seconds),
{
    seconds as u128 * NANOS_PER_SECOND
}

} // verus!
