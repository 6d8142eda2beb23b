//! The parts of `std` that tell the time and wait.
//!
//! Nothing is claimed of their results, which depend on when and where they run.
//! `Trace::start_clock` and `Trace::read_clock` record each look at the clock that
//! decides something.

use std::time::{Duration, Instant};
use vstd::prelude::*;

verus! {

/// `std::time::Instant`, a point in time. Nothing is claimed of what it holds.
#[verifier::external_type_specification]
#[verifier::external_body]
pub struct ExInstant(Instant);

/// `std::time::Instant::now`, the present time. Nothing is claimed of it.
pub assume_specification[ Instant::now ]() -> Instant
;

/// `std::time::Instant::elapsed`, the time since. Nothing is claimed of it.
pub assume_specification[ Instant::elapsed ](start: &Instant) -> Duration
;

/// `std::time::Duration::as_nanos`, a duration in nanoseconds. Nothing is
/// claimed of the number.
pub assume_specification[ Duration::as_nanos ](duration: &Duration) -> u128
;

/// `std::hint::spin_loop`, which tells the processor that the caller is
/// waiting. It has no result, and nothing is claimed of it.
pub assume_specification[ std::hint::spin_loop ]()
;

} // verus!
