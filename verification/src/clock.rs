//! The monotonic clock, taken on trust.
//!
//! Sampling windows are timed with [`std::time::Instant`]. An instant is
//! opaque and what the clock returns depends on when it is asked, so nothing
//! is promised about these results; everything the library computes from an
//! elapsed time is stated to hold for every value the clock could hand back.

use vstd::prelude::*;

verus! {

#[verifier::external_type_specification]
#[verifier::external_body]
pub struct ExInstant(std::time::Instant);

/// Relies on std::time::Instant::now: an opaque point in time; nothing can
/// be promised of it.
pub assume_specification[ std::time::Instant::now ]() -> (r: std::time::Instant);

/// Relies on std::time::Instant::elapsed: the time since the instant, which
/// depends on the clock, so nothing is promised of it.
pub assume_specification[ std::time::Instant::elapsed ](i: &std::time::Instant) -> (r:
    core::time::Duration);

/// Relies on core::time::Duration::as_millis: the duration in whole
/// milliseconds; durations are opaque here, so nothing is promised.
pub assume_specification[ core::time::Duration::as_millis ](d: &core::time::Duration) -> (r:
    u128);

} // verus!
