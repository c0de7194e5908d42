//! Monotonic time in nanoseconds.

use vstd::prelude::*;

verus! {

/// One second.
pub const SECOND: u64 = 1_000_000_000;

/// A monotonic instant: nanoseconds since an arbitrary origin.
#[derive(Clone, Copy, Debug, PartialEq, Eq, Structural)]
pub struct Mono {
    pub nanos: u64,
}

impl Mono {
    /// The instant `duration` nanoseconds later, or the last one that can be told.
    pub open spec fn later(self, duration: nat) -> Mono {
        if self.nanos + duration <= u64::MAX {
            Mono { nanos: (self.nanos + duration) as u64 }
        } else {
            Mono { nanos: u64::MAX }
        }
    }

    /// The nanoseconds since `earlier`, none if `earlier` is not earlier.
    pub open spec fn since(self, earlier: Mono) -> nat {
        if self.nanos >= earlier.nanos {
            (self.nanos - earlier.nanos) as nat
        } else {
            0
        }
    }

    /// The instant `duration` nanoseconds later.
    pub fn plus(self, duration: u64) -> (instant: Mono)
        ensures
            instant == self.later(duration as nat),
    {
        if self.nanos <= u64::MAX - duration {
            Mono { nanos: self.nanos + duration }
        } else {
            Mono { nanos: u64::MAX }
        }
    }

    /// The nanoseconds since `earlier`.
    pub fn duration_since(self, earlier: Mono) -> (duration: u64)
        ensures
            duration == self.since(earlier),
    {
        if self.nanos >= earlier.nanos {
            self.nanos - earlier.nanos
        } else {
            0
        }
    }
}

} // verus!
