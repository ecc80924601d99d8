//! How much of the bandwidth is handed to an allocator.

use crate::allocation_model;
use crate::allocation_model::Allocation;
use crate::allocator;
use crate::allocator::{AllocationError, AllocationResult, Allocator, SelectedDecodeTargets};
use crate::media::{DecodeTargetInfo, DecodeTargetInfoLists, DemuxId, VideoHeight};
use crate::units::DataRate;
use vstd::prelude::*;

verus! {

/// What one participant is to be sent.
pub struct BasicAllocationStrategy<'a> {
    pub demux_id: DemuxId,
    /// The rate to aim at.
    pub target_rate: DataRate,
    pub heights: Option<&'a [VideoHeight]>,
    pub decode_target_lists: DecodeTargetInfoLists<'a>,
    /// The part of the target rate that is needed to drain the outgoing queue.
    pub outgoing_queue_drain_rate: DataRate,
    /// The part of the target rate that is for allocation even while the queue is drained.
    pub guaranteed_rate: DataRate,
}

/// What came of it.
#[derive(Debug, PartialEq)]
pub struct BasicAllocationStrategyResult {
    pub ideal_send_rate: DataRate,
    pub requested_base_rate: DataRate,
    pub allocated_rate: DataRate,
    pub selected_decode_targets: SelectedDecodeTargets,
}

/// The allocation that an outcome stands for: a refusal stands for an empty one.
pub open spec fn or_empty(outcome: Result<Allocation, AllocationError>) -> Allocation {
    match outcome {
        Ok(allocation) => allocation,
        Err(_) => Allocation { rate: 0, selected: Seq::empty() },
    }
}

/// The rate to allocate: what is left of the target rate once the queue is drained, but no less
/// than the guaranteed rate, and no more than the ideal rate.
pub open spec fn allocatable(target: nat, drain: nat, guaranteed: nat, ideal: nat) -> nat {
    let left = if target > drain {
        (target - drain) as nat
    } else {
        0
    };
    let wanted = if left > guaranteed {
        left
    } else {
        guaranteed
    };
    if ideal < wanted {
        ideal
    } else {
        wanted
    }
}

impl BasicAllocationStrategyResult {
    pub open spec fn allocation(&self) -> Allocation {
        Allocation { rate: self.allocated_rate@, selected: self.selected_decode_targets@ }
    }
}

impl<'a> BasicAllocationStrategy<'a> {
    /// What the senders offer.
    pub open spec fn lists(&self) -> Seq<Seq<DecodeTargetInfo>> {
        allocation_model::contents(self.decode_target_lists@)
    }

    /// The budget for an allocation if the ideal rate is `ideal`.
    pub open spec fn budget(&self, ideal: nat) -> nat {
        allocatable(
            self.target_rate@,
            self.outgoing_queue_drain_rate@,
            self.guaranteed_rate@,
            ideal,
        )
    }

    /// `allocate` can yield `result`: the allocator is asked for the ideal allocation of the
    /// senders, then for an allocation within the budget that follows from it, then for the base
    /// rate, each time about the senders in their order and without heights.
    pub open spec fn may_result<A: Allocator + ?Sized>(
        &self,
        allocator: &A,
        result: BasicAllocationStrategyResult,
    ) -> bool {
        let lists = allocation_model::contents(self.decode_target_lists@);
        &&& exists|
            ideal: Result<Allocation, AllocationError>,
            granted: Result<Allocation, AllocationError>,
        | #![trigger or_empty(ideal), or_empty(granted)]
            {
                &&& allocator.may_be_ideal(None, lists, ideal)
                &&& allocator.may_allocate(
                    self.budget(or_empty(ideal).rate),
                    None,
                    lists,
                    granted,
                )
                &&& result.ideal_send_rate@ == or_empty(ideal).rate
                &&& result.allocation() == or_empty(granted)
            }
        &&& allocator.may_be_base_rate(lists, result.requested_base_rate@)
    }

    /// The rate to allocate if `ideal_send_rate` is the ideal rate.
    pub fn allocatable_rate(&self, ideal_send_rate: DataRate) -> (rate: DataRate)
        ensures
            rate@ == self.budget(ideal_send_rate@),
            rate@ == vstd::math::min(
                ideal_send_rate@ as int,
                vstd::math::max(
                    self.target_rate@ - self.outgoing_queue_drain_rate@,
                    self.guaranteed_rate@ as int,
                ),
            ),
    {
        let left: DataRate = self.target_rate.saturating_sub(self.outgoing_queue_drain_rate);
        let wanted: DataRate = if left.bps > self.guaranteed_rate.bps {
            left
        } else {
            self.guaranteed_rate
        };
        if ideal_send_rate.bps < wanted.bps {
            ideal_send_rate
        } else {
            wanted
        }
    }

    /// The result of an allocation, or an empty result where it was refused.
    pub fn result_or_default(result: Result<AllocationResult, AllocationError>) -> (res:
        AllocationResult)
        ensures
            res@ == or_empty(allocator::outcome_of(result)),
            match result {
                Ok(result) => res == result,
                Err(_) => res.allocated_rate.bps == 0 && res.selected_decode_targets@.len() == 0,
            },
    {
        match result {
            Ok(result) => result,
            Err(_) => AllocationResult::default(),
        }
    }

    /// Asks `allocator` for the ideal rate, and then for an allocation within what that leaves.
    pub fn allocate<A: Allocator + ?Sized>(&self, allocator: &A) -> (result:
        BasicAllocationStrategyResult)
        requires
            allocator.ready(),
            allocator.base_rate_exists(self.lists()),
        ensures
            exists|
                ideal: Result<Allocation, AllocationError>,
                granted: Result<Allocation, AllocationError>,
            | #![trigger or_empty(ideal), or_empty(granted)]
                {
                    &&& allocator.may_be_ideal(None, self.lists(), ideal)
                    &&& allocator.may_allocate(
                        self.budget(or_empty(ideal).rate),
                        None,
                        self.lists(),
                        granted,
                    )
                    &&& result.ideal_send_rate@ == or_empty(ideal).rate
                    &&& result.allocation() == or_empty(granted)
                },
            allocator.may_be_base_rate(self.lists(), result.requested_base_rate@),
            self.may_result(allocator, result),
    {
        let ideal = allocator.calculate_ideal_send_rate(None, self.decode_target_lists.as_slice());
        let ghost ideal_outcome = allocator::outcome_of(ideal);
        let ideal_send_rate: DataRate = Self::result_or_default(ideal).allocated_rate;

        let granted = allocator.allocate(
            self.allocatable_rate(ideal_send_rate),
            None,
            self.decode_target_lists.as_slice(),
        );
        let ghost granted_outcome = allocator::outcome_of(granted);
        let AllocationResult { allocated_rate, selected_decode_targets } = Self::result_or_default(
            granted,
        );

        let requested_base_rate: DataRate = allocator.calculate_base_rate(
            self.decode_target_lists.as_slice(),
        );

        let result = BasicAllocationStrategyResult {
            ideal_send_rate,
            requested_base_rate,
            allocated_rate,
            selected_decode_targets,
        };
        assert(result.ideal_send_rate@ == or_empty(ideal_outcome).rate);
        assert(result.allocation() == or_empty(granted_outcome));
        result
    }
}

} // verus!
