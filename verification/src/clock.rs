//! Time as the number of nanoseconds since a stopwatch was started.

use std::time::Instant;
use vstd::prelude::*;

verus! {

/// Nanoseconds in a second.
pub const NANOS_PER_SECOND: i128 = 1_000_000_000;

/// `std::time::Instant`, a reading of the monotonic clock. Nothing is known of what
/// a reading holds.
#[verifier::external_type_specification]
#[verifier::external_body]
pub struct ExInstant(std::time::Instant);

/// `Instant::now` reads the clock. Nothing is claimed of the reading.
pub assume_specification[ std::time::Instant::now ]() -> std::time::Instant
;

/// The nanoseconds from one reading of the clock to another, as
/// `Instant::duration_since` gives them: none where the other is no later.
pub uninterp spec fn time_between(earlier: std::time::Instant, later: std::time::Instant) -> u128;

/// The nanoseconds from `earlier` to `later`.
///
/// `Instant::duration_since` depends on the two readings alone, and the `Duration` that
/// it gives, whose nanoseconds `Duration::as_nanos` counts, is no longer than
/// `Duration::MAX`. What a reading holds is not said, and so neither is how much time
/// lies between two given ones.
#[verifier::external_body]
fn duration_since(later: &Instant, earlier: Instant) -> (nanos: u128)
    ensures
        nanos == time_between(earlier, *later),
        nanos <= u64::MAX * NANOS_PER_SECOND + NANOS_PER_SECOND - 1,
{
    later.duration_since(earlier).as_nanos()
}

/// Measures the time since it was started.
#[derive(Clone, Copy, Debug)]
pub struct Stopwatch {
    origin: Instant,
}

impl Stopwatch {
    /// What the clock showed at the start.
    pub closed spec fn origin(self) -> Instant {
        self.origin
    }

    /// The nanoseconds since the start when the clock shows `reading`.
    pub open spec fn nanos_at(self, reading: Instant) -> int {
        time_between(self.origin(), reading) as int
    }

    /// Starts a stopwatch. At what moment that is depends on the clock.
    pub fn start() -> Stopwatch {
        Stopwatch::start_at(Instant::now())
    }

    /// Does what `start` does when the clock shows `reading`.
    pub fn start_at(reading: Instant) -> (watch: Stopwatch)
        ensures
            watch.origin() == reading,
    {
        Stopwatch { origin: reading }
    }

    /// The nanoseconds since the start. How many there are depends on the clock.
    pub fn now(&self) -> (nanos: i128)
        ensures
            exists|reading: Instant| nanos == #[trigger] self.nanos_at(reading),
            0 <= nanos <= u64::MAX * NANOS_PER_SECOND + NANOS_PER_SECOND - 1,
    {
        self.now_at(Instant::now())
    }

    /// Does what `now` does when the clock shows `reading`.
    pub fn now_at(&self, reading: Instant) -> (nanos: i128)
        ensures
            nanos == self.nanos_at(reading),
            0 <= nanos <= u64::MAX * NANOS_PER_SECOND + NANOS_PER_SECOND - 1,
    {
        duration_since(&reading, self.origin) as i128
    }
}

} // verus!
