//! Time on the receiver's own monotonic clock.
//!
//! Nothing in this crate reads a clock. A caller says what time it is, counted
//! in nanoseconds from any origin it likes, as long as it keeps to that one.

use vstd::prelude::*;

verus! {

/// A length of time.
#[derive(Clone, Copy, Debug, PartialEq, Eq, Structural)]
pub struct Duration {
    pub nanos: u128,
}

impl Duration {
    pub fn from_millis(millis: u64) -> (duration: Self)
        ensures
            duration.nanos == millis * 1_000_000,
    {
        Duration { nanos: millis as u128 * 1_000_000 }
    }
}

/// A reading of the receiver's clock.
#[derive(Clone, Copy, Debug, PartialEq, Eq, Structural)]
pub struct Instant {
    pub nanos: u128,
}

impl Instant {
    /// How long `earlier` lies before this reading; nothing if it lies after.
    pub open spec fn since(self, earlier: Instant) -> int {
        if earlier.nanos <= self.nanos {
            self.nanos - earlier.nanos
        } else {
            0
        }
    }

    /// How long `earlier` lies before this reading, or zero if it lies after.
    pub fn duration_since(&self, earlier: Instant) -> (elapsed: Duration)
        ensures
            elapsed.nanos == self.since(earlier),
            earlier.nanos <= self.nanos ==> earlier.nanos + elapsed.nanos == self.nanos,
            earlier.nanos > self.nanos ==> elapsed.nanos == 0,
    {
        if earlier.nanos <= self.nanos {
            Duration { nanos: self.nanos - earlier.nanos }
        } else {
            Duration { nanos: 0 }
        }
    }
}

/// Time elapsed makes up the difference between two readings, and never counts
/// below nothing. Some length of time, more than none, has passed since a
/// reading exactly when the clock has come that much further.
pub proof fn law_elapsed_time_is_the_difference(now: Instant, earlier: Instant, length: u128)
    ensures
        now.since(earlier) >= 0,
        earlier.nanos <= now.nanos ==> earlier.nanos + now.since(earlier) == now.nanos,
        earlier.nanos >= now.nanos ==> now.since(earlier) == 0,
        length > 0 ==> (now.since(earlier) >= length <==> earlier.nanos + length <= now.nanos),
{
}

} // verus!
