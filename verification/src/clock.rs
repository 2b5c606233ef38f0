//! Wall-clock timing of solver runs.
use vstd::prelude::*;
use std::time::{Duration, Instant};

verus! {

/// Declares std's `Instant` so that solver runs can hold a start time.
#[verifier::external_type_specification]
#[verifier::external_body]
pub struct ExInstant(Instant);

/// Current monotonic time, from std's `Instant::now`. Nothing is promised of
/// the value: it depends on the clock.
#[verifier::external_body]
pub(crate) fn now() -> Instant {
    Instant::now()
}

/// Time elapsed since `start`, from std's `Instant::elapsed`. Nothing is
/// promised of the value: it depends on the clock.
#[verifier::external_body]
pub(crate) fn elapsed_since(start: &Instant) -> Duration {
    start.elapsed()
}

/// The zero duration, from std's `Duration::new(0, 0)`. `Duration` is opaque
/// to the library, so no clause describes the value.
#[verifier::external_body]
pub(crate) fn zero_duration() -> Duration {
    Duration::new(0, 0)
}

/// The `Debug` rendering of a duration, from std's `format!("{:?}", d)`. The
/// text depends on std's formatting of `Duration`, which is left unstated.
#[verifier::external_body]
pub(crate) fn duration_text(d: &Duration) -> String {
    format!("{:?}", d)
}

} // verus!
