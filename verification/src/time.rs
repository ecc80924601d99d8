//! Points in time and the spans between them, in nanoseconds.

use core::ops::Add;
use vstd::prelude::*;
use vstd::std_specs::ops::AddSpecImpl;

verus! {

/// A span of time.
#[derive(Debug, Clone, Copy, PartialEq, Eq, PartialOrd, Ord, Hash, Structural)]
pub struct Duration {
    pub nanos: u128,
}

/// A point in time, counted from an origin that whoever reads the clock chooses.
///
/// The library never reads a clock. All instants that one value of the library is given have
/// to share one origin.
#[derive(Debug, Clone, Copy, PartialEq, Eq, PartialOrd, Ord, Hash, Structural)]
pub struct Instant {
    pub nanos: u128,
}

impl View for Duration {
    type V = nat;

    open spec fn view(&self) -> nat {
        self.nanos as nat
    }
}

impl View for Instant {
    type V = nat;

    open spec fn view(&self) -> nat {
        self.nanos as nat
    }
}

impl Duration {
    pub fn from_nanos(nanos: u128) -> (duration: Duration)
        ensures
            duration@ == nanos,
    {
        Duration { nanos }
    }

    pub fn from_millis(millis: u64) -> (duration: Duration)
        ensures
            duration@ == millis * 1_000_000,
    {
        Duration { nanos: (millis as u128) * 1_000_000 }
    }

    pub fn from_secs(secs: u64) -> (duration: Duration)
        ensures
            duration@ == secs * 1_000_000_000,
    {
        Duration { nanos: (secs as u128) * 1_000_000_000 }
    }
}

impl Instant {
    /// The instant that lies `nanos` nanoseconds after the origin.
    pub fn from_nanos(nanos: u128) -> (instant: Instant)
        ensures
            instant@ == nanos,
    {
        Instant { nanos }
    }
}

impl AddSpecImpl<Duration> for Instant {
    open spec fn obeys_add_spec() -> bool {
        true
    }

    open spec fn add_req(self, rhs: Duration) -> bool {
        self@ + rhs@ <= u128::MAX
    }

    open spec fn add_spec(self, rhs: Duration) -> Instant {
        Instant { nanos: (self.nanos + rhs.nanos) as u128 }
    }
}

impl Add<Duration> for Instant {
    type Output = Instant;

    fn add(self, rhs: Duration) -> (sum: Instant)
        ensures
            sum.nanos == self.nanos + rhs.nanos,
    {
        Instant { nanos: self.nanos + rhs.nanos }
    }
}

} // verus!
