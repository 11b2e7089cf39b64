//! The monotonic clock, read as whole microseconds since an origin.
use vstd::prelude::*;

use std::time::Instant;

verus! {

/// std's `Instant`, carried opaquely as the origin of a window's clock.
#[verifier::external_type_specification]
#[verifier::external_body]
pub struct ExInstant(Instant);

/// Relies on std's `Instant::now`: a reading of the monotonic clock, used as the
/// origin that later readings are measured from.
#[verifier::external_body]
pub(crate) fn clock_origin() -> Instant {
    Instant::now()
}

/// Relies on std's `Instant::elapsed`: microseconds that have passed since `origin`.
/// Nothing is promised of the value: it depends on the time of the call.
#[verifier::external_body]
pub(crate) fn elapsed_micros(origin: &Instant) -> u64 {
    origin.elapsed().as_micros() as u64
}

} // verus!
