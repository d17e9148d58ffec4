//! A minimal absolute-time stamp, as handed to device polls.

use vstd::prelude::*;

verus! {

/// An absolute point in time, in microseconds. The loopback device ignores
/// it; concrete devices use it to pace transmission.
#[derive(Debug, Clone, Copy, PartialEq, Eq, Structural)]
pub struct Instant {
    pub micros: i64,
}

impl Instant {
    /// Create a time stamp from a count of microseconds.
    pub fn from_micros(micros: i64) -> (r: Instant)
        ensures
            r.micros == micros,
    {
        Instant { micros }
    }

    /// The count of microseconds.
    pub fn total_micros(&self) -> (r: i64)
        ensures
            r == self.micros,
    {
        self.micros
    }
}

} // verus!
