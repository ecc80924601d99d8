//! Data rates.

use core::ops::Add;
use vstd::prelude::*;
use vstd::std_specs::ops::AddSpecImpl;

verus! {

/// A data rate in bits per second.
#[derive(Debug, Clone, Copy, PartialEq, Eq, PartialOrd, Ord, Hash, Structural)]
pub struct DataRate {
    pub bps: u64,
}

impl View for DataRate {
    type V = nat;

    open spec fn view(&self) -> nat {
        self.bps as nat
    }
}

impl DataRate {
    /// The rate of nothing.
    pub fn zero() -> (rate: DataRate)
        ensures
            rate@ == 0,
    {
        DataRate { bps: 0 }
    }

    /// The largest rate there is; as a budget it means "no limit".
    pub fn max_value() -> (rate: DataRate)
        ensures
            rate@ == u64::MAX,
    {
        DataRate { bps: u64::MAX }
    }

    pub fn from_bps(bps: u64) -> (rate: DataRate)
        ensures
            rate@ == bps,
    {
        DataRate { bps }
    }

    pub fn from_kbps(kbps: u64) -> (rate: DataRate)
        requires
            kbps * 1000 <= u64::MAX,
        ensures
            rate@ == kbps * 1000,
    {
        DataRate { bps: kbps * 1000 }
    }

    pub fn as_bps(self) -> (bps: u64)
        ensures
            bps == self@,
    {
        self.bps
    }

    /// The difference of two rates, or zero where it would be negative.
    pub fn saturating_sub(self, other: DataRate) -> (rate: DataRate)
        ensures
            rate@ == if self@ > other@ {
                (self@ - other@) as nat
            } else {
                0
            },
    {
        DataRate { bps: self.bps.saturating_sub(other.bps) }
    }
}

impl Default for DataRate {
    fn default() -> (rate: DataRate)
        ensures
            rate@ == 0,
    {
        DataRate::zero()
    }
}

impl AddSpecImpl for DataRate {
    open spec fn obeys_add_spec() -> bool {
        true
    }

    open spec fn add_req(self, rhs: DataRate) -> bool {
        self@ + rhs@ <= u64::MAX
    }

    open spec fn add_spec(self, rhs: DataRate) -> DataRate {
        DataRate { bps: (self.bps + rhs.bps) as u64 }
    }
}

impl Add for DataRate {
    type Output = DataRate;

    fn add(self, rhs: DataRate) -> (sum: DataRate)
        ensures
            sum.bps == self.bps + rhs.bps,
    {
        DataRate { bps: self.bps + rhs.bps }
    }
}

} // verus!
