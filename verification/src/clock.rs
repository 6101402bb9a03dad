//! Wall-clock readings for the run statistics. A clock value depends on when
//! it is taken, so nothing is stated about these results.
use vstd::prelude::*;

verus! {

/// An opaque point in time, used only to measure a run's elapsed wall time.
#[verifier::external_type_specification]
#[verifier::external_body]
pub struct ExInstant(std::time::Instant);

/// Relies on `std::time::Instant::now`: a reading of the monotonic clock.
#[verifier::external_body]
pub(crate) fn instant_now() -> (r: std::time::Instant) {
    std::time::Instant::now()
}

/// Relies on `std::time::Instant::elapsed`: the time passed since `start`
/// was taken.
#[verifier::external_body]
pub(crate) fn elapsed_since(start: &std::time::Instant) -> (r: core::time::Duration) {
    start.elapsed()
}

} // verus!
