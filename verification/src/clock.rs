//! Reading the time.
//!
//! The listener measures time in whole nanoseconds since it was created.

use std::time::{Duration, Instant};
use vstd::prelude::*;

verus! {

#[verifier::external_type_specification]
#[verifier::external_body]
pub struct ExInstant(Instant);

/// `Instant::now` reads the machine's monotonic clock; nothing is claimed of
/// what it returns.
pub assume_specification[ Instant::now ]() -> (now: Instant);

/// `Instant::elapsed` reads the clock again; nothing is claimed of the time
/// that has passed.
pub assume_specification[ Instant::elapsed ](start: &Instant) -> (passed: Duration);

/// `Duration::as_nanos` gives a span in whole nanoseconds. The span is opaque
/// here, so nothing is claimed of the number.
pub assume_specification[ Duration::as_nanos ](span: &Duration) -> (nanos: u128);

/// The largest time the listener can tell: a count of nanoseconds that does
/// not fit stays at this value.
pub open spec fn clamp_nanos(nanos: int) -> int {
    if nanos > u64::MAX {
        u64::MAX as int
    } else {
        nanos
    }
}

/// Narrows a count of nanoseconds to 64 bits, staying at the largest value
/// where it does not fit.
pub fn nanos_to_u64(nanos: u128) -> (r: u64)
    ensures
        r == clamp_nanos(nanos as int),
{
    if nanos > u64::MAX as u128 {
        u64::MAX
    } else {
        nanos as u64
    }
}

/// The nanoseconds that have passed since `start`.
pub(crate) fn nanos_since(start: &Instant) -> (now: u64) {
    let passed = start.elapsed();
    nanos_to_u64(passed.as_nanos())
}

} // verus!
