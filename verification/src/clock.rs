//! Measuring elapsed time with the monotonic clock.

use std::time::{Duration, Instant};
use vstd::prelude::*;

verus! {

/// `std::time::Instant`, carried from the start of a measurement to its end.
#[verifier::external_type_specification]
#[verifier::external_body]
pub struct ExInstant(std::time::Instant);

/// What `Debug` prints of `Duration::new(secs, nanos)`.
pub uninterp spec fn duration_debug(secs: u64, nanos: u32) -> Seq<char>;

/// Reads the monotonic clock with `Instant::now`. Nothing is promised of the reading.
#[verifier::external_body]
pub(crate) fn start() -> Instant {
    Instant::now()
}

/// The time since `since`, by `Instant::elapsed`. Nothing is promised of the duration.
#[verifier::external_body]
fn elapsed(since: &Instant) -> Duration {
    since.elapsed()
}

/// The whole nanoseconds of a duration, by `Duration::as_nanos`. Nothing is promised of the
/// number, as a duration is opaque here.
#[verifier::external_body]
fn whole_nanos(d: Duration) -> u128 {
    d.as_nanos()
}

/// Whether `r` may be the nanoseconds since `since`: the whole ones of what the clock says.
pub closed spec fn is_since(since: Instant, r: u128) -> bool {
    exists|d: Duration| #[trigger]
        call_ensures(elapsed, (&since,), d) && call_ensures(whole_nanos, (d,), r)
}

/// The nanoseconds since `since`.
pub(crate) fn nanos_since(since: &Instant) -> (r: u128)
    ensures
        is_since(*since, r),
{
    let d = elapsed(since);
    whole_nanos(d)
}

/// Renders the duration of `secs` seconds and `nanos` nanoseconds with the `Debug` format of
/// `std::time::Duration`. The text is a fixed function of the two numbers and is left as a name.
#[verifier::external_body]
pub(crate) fn render_duration(secs: u64, nanos: u32) -> (s: String)
    requires
        nanos < 1_000_000_000,
    ensures
        s@ == duration_debug(secs, nanos),
{
    format!("{:?}", Duration::new(secs, nanos))
}

} // verus!
