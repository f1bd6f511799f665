//! Time as the cache measures it.

use vstd::prelude::*;

verus! {

/// The last nanosecond of the second `i64::MAX`: the end of the range of a monotonic clock that
/// counts its seconds in an `i64`.
pub const MAX_INSTANT_NANOS: u128 = 9_223_372_036_854_775_807_999_999_999;

/// A point on the monotonic clock, in nanoseconds since an origin that the caller fixes once.
#[derive(Clone, Copy, Debug, PartialEq, Eq, PartialOrd, Ord, Structural)]
pub struct Instant {
    pub nanos: u128,
}

/// A span of time in nanoseconds.
#[derive(Clone, Copy, Debug, PartialEq, Eq, PartialOrd, Ord, Structural)]
pub struct Duration {
    pub nanos: u128,
}

impl Instant {
    /// The instant `duration` later, or `None` where that lies outside the clock's range.
    pub fn checked_add(self, duration: Duration) -> (later: Option<Instant>)
        ensures
            self.nanos + duration.nanos <= MAX_INSTANT_NANOS ==> later == Some(
                Instant { nanos: (self.nanos + duration.nanos) as u128 },
            ),
            self.nanos + duration.nanos > MAX_INSTANT_NANOS ==> later is None,
    {
        match self.nanos.checked_add(duration.nanos) {
            Some(nanos) => if nanos <= MAX_INSTANT_NANOS {
                Some(Instant { nanos })
            } else {
                None
            },
            None => None,
        }
    }
}

} // verus!
