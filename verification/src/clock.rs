//! The monotonic clock that capture relies on.
//!
//! Each thread profiler keeps the instant of its creation as its clock
//! origin; every recorded time is the wall time elapsed since that origin,
//! in nanoseconds. The clock is read through the two trusted functions
//! below; everything that depends on the reading takes the nanosecond value
//! as an argument and is verified for every value of it.

use vstd::prelude::*;

verus! {

#[verifier::external_type_specification]
#[verifier::external_body]
pub struct ExInstant(std::time::Instant);

/// Relies on `std::time::Instant::now`: an opaque reading of the process's
/// monotonic clock. Nothing is assumed of the value.
#[verifier::external_body]
pub(crate) fn instant_now() -> std::time::Instant {
    std::time::Instant::now()
}

/// Relies on `std::time::Instant::elapsed` and `Duration::as_nanos`: the
/// wall time since `origin`, in nanoseconds, saturating at `u64::MAX`.
/// The value depends on when the call happens, so nothing is assumed of it.
#[verifier::external_body]
pub(crate) fn elapsed_nanos(origin: &std::time::Instant) -> u64 {
    u64::try_from(origin.elapsed().as_nanos()).unwrap_or(u64::MAX)
}

} // verus!
