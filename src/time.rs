//! Monotonic instants and durations as nanosecond counts.

use vstd::prelude::*;

verus! {

pub const NANOS_PER_SEC: u64 = 1_000_000_000;

/// A point on a monotonic clock, in nanoseconds from the clock's origin.
#[derive(Clone, Copy, Debug, PartialEq, Eq, Structural)]
pub struct Instant {
    pub nanos: u64,
}

/// A span of time in nanoseconds.
#[derive(Clone, Copy, Debug, PartialEq, Eq, Structural)]
pub struct Duration {
    pub nanos: u64,
}

impl Instant {
    pub fn from_nanos(nanos: u64) -> (r: Instant)
        ensures
            r.nanos == nanos,
    {
        Instant { nanos }
    }

    /// The instant `secs` seconds later.
    pub fn plus_secs(&self, secs: u64) -> (r: Instant)
        requires
            self.nanos + secs * NANOS_PER_SEC <= u64::MAX,
        ensures
            r.nanos == self.nanos + secs * NANOS_PER_SEC,
    {
        assert(secs * NANOS_PER_SEC <= u64::MAX) by (nonlinear_arith)
            requires
                self.nanos + secs * NANOS_PER_SEC <= u64::MAX,
        ;
        Instant { nanos: self.nanos + secs * NANOS_PER_SEC }
    }
}

impl Duration {
    pub fn from_nanos(nanos: u64) -> (r: Duration)
        ensures
            r.nanos == nanos,
    {
        Duration { nanos }
    }

    pub fn from_secs(secs: u64) -> (r: Duration)
        requires
            secs * NANOS_PER_SEC <= u64::MAX,
        ensures
            r.nanos == secs * NANOS_PER_SEC,
    {
        Duration { nanos: secs * NANOS_PER_SEC }
    }
}

} // verus!
