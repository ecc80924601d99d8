//! Splits a bandwidth budget over the senders of a call.

use crate::allocation_laws;
use crate::allocation_model;
use crate::allocation_model::Allocation;
use crate::media::{DecodeTarget, DecodeTargetInfo, DecodeTargetInfoList, VideoHeight};
use crate::units::DataRate;
use vstd::prelude::*;

pub use crate::allocation_strategy::{BasicAllocationStrategy, BasicAllocationStrategyResult};
pub use crate::selected_targets::{SelectedDecodeTargets, MAX_EXPECTED_CLIENTS};
pub use crate::throttled_allocator::ThrottledAllocator;

verus! {

/// The outcome of an allocation.
#[derive(Debug, PartialEq)]
pub struct AllocationResult {
    /// The bandwidth that has been allocated.
    pub allocated_rate: DataRate,
    /// The decode target, if any, of each sender.
    pub selected_decode_targets: SelectedDecodeTargets,
}

impl View for AllocationResult {
    type V = Allocation;

    open spec fn view(&self) -> Allocation {
        Allocation { rate: self.allocated_rate@, selected: self.selected_decode_targets@ }
    }
}

impl Default for AllocationResult {
    fn default() -> (result: AllocationResult)
        ensures
            result@ == (Allocation { rate: 0, selected: Seq::empty() }),
    {
        AllocationResult {
            allocated_rate: DataRate::zero(),
            selected_decode_targets: SelectedDecodeTargets::new(),
        }
    }
}

/// Why an allocation was refused.
#[derive(Debug, Clone, Copy, PartialEq, Eq, Structural)]
pub enum AllocationError {
    /// There is not one height for each sender.
    MismatchedHeightConstraints,
}

/// What an allocation yields.
pub open spec fn outcome_of(result: Result<AllocationResult, AllocationError>) -> Result<
    Allocation,
    AllocationError,
> {
    match result {
        Ok(result) => Ok(result@),
        Err(e) => Err(e),
    }
}

/// What `DefaultAllocator` yields for a budget.
pub open spec fn greedy_outcome(
    budget: nat,
    heights: Option<Seq<VideoHeight>>,
    lists: Seq<Seq<DecodeTargetInfo>>,
) -> Result<Allocation, AllocationError> {
    if heights is Some && heights->0.len() != lists.len() {
        Err(AllocationError::MismatchedHeightConstraints)
    } else {
        Ok(allocation_model::greedy(budget, heights, lists))
    }
}

/// `predicate` accepts target `t` of sender `i` exactly if `ok(t, i)`.
pub open spec fn decides<F: Fn(DecodeTarget, usize, &DecodeTargetInfo) -> bool>(
    predicate: &F,
    lists: Seq<Seq<DecodeTargetInfo>>,
    ok: spec_fn(int, int) -> bool,
) -> bool {
    &&& forall|t: DecodeTarget, i: usize, info: &DecodeTargetInfo|
        i < lists.len() && t < lists[i as int].len() && *info == lists[i as int][t as int]
            ==> #[trigger] call_requires(predicate, (t, i, info))
    &&& forall|t: DecodeTarget, i: usize, info: &DecodeTargetInfo, accepted: bool|
        i < lists.len() && t < lists[i as int].len() && *info == lists[i as int][t as int]
            && #[trigger] call_ensures(predicate, (t, i, info), accepted) ==> accepted == ok(
            t as int,
            i as int,
        )
}

/// Decides which decode target each sender is granted.
///
/// What is known of an allocator is what its impl says of the five specification functions.
/// An impl that leaves one out promises nothing there.
pub trait Allocator {
    /// The allocator can be asked.
    open spec fn ready(&self) -> bool {
        true
    }

    /// `allocate` can yield `outcome`.
    open spec fn may_allocate(
        &self,
        budget: nat,
        heights: Option<Seq<VideoHeight>>,
        lists: Seq<Seq<DecodeTargetInfo>>,
        outcome: Result<Allocation, AllocationError>,
    ) -> bool {
        true
    }

    /// `calculate_ideal_send_rate` can yield `outcome`.
    open spec fn may_be_ideal(
        &self,
        heights: Option<Seq<VideoHeight>>,
        lists: Seq<Seq<DecodeTargetInfo>>,
        outcome: Result<Allocation, AllocationError>,
    ) -> bool {
        true
    }

    /// `calculate_base_rate` can be asked about `lists`.
    open spec fn base_rate_exists(&self, lists: Seq<Seq<DecodeTargetInfo>>) -> bool {
        true
    }

    /// `calculate_base_rate` can yield `rate`.
    open spec fn may_be_base_rate(&self, lists: Seq<Seq<DecodeTargetInfo>>, rate: nat) -> bool {
        true
    }

    /// Splits `rate_budget` over the senders.
    ///
    /// `decode_target_info_lists` holds what each sender offers. `heights`, if given, holds for
    /// each sender the largest picture height to consider.
    fn allocate(
        &self,
        rate_budget: DataRate,
        heights: Option<&[VideoHeight]>,
        decode_target_info_lists: &[&DecodeTargetInfoList],
    ) -> (result: Result<AllocationResult, AllocationError>)
        requires
            self.ready(),
        ensures
            self.may_allocate(
                rate_budget@,
                allocation_model::heights_of(heights),
                allocation_model::contents(decode_target_info_lists@),
                outcome_of(result),
            ),
    ;

    /// What the senders would be granted if bandwidth were no limit.
    fn calculate_ideal_send_rate(
        &self,
        heights: Option<&[VideoHeight]>,
        decode_target_info_lists: &[&DecodeTargetInfoList],
    ) -> (result: Result<AllocationResult, AllocationError>)
        requires
            self.ready(),
        ensures
            self.may_be_ideal(
                allocation_model::heights_of(heights),
                allocation_model::contents(decode_target_info_lists@),
                outcome_of(result),
            ),
    ;

    /// What the base layers of all senders take.
    fn calculate_base_rate(&self, decode_target_info_lists: &[&DecodeTargetInfoList]) -> (rate:
        DataRate)
        requires
            self.ready(),
            self.base_rate_exists(allocation_model::contents(decode_target_info_lists@)),
        ensures
            self.may_be_base_rate(
                allocation_model::contents(decode_target_info_lists@),
                rate@,
            ),
    ;
}

/// Splits the budget greedily. Base layers are granted in the order of the senders; then all
/// senders go up together, tier by tier, for as long as the whole tier fits the budget.
///
/// Rates that add up to more than the largest `DataRate` fit no budget.
#[derive(Debug)]
pub struct DefaultAllocator;

impl Default for DefaultAllocator {
    fn default() -> (allocator: DefaultAllocator)
        ensures
            allocator == DefaultAllocator,
    {
        DefaultAllocator
    }
}

impl DefaultAllocator {
    /// Whether a decode target of sender `i` can be granted.
    fn is_eligible(heights: Option<&[VideoHeight]>, i: usize, info: &DecodeTargetInfo) -> (eligible:
        bool)
        requires
            heights matches Some(heights) ==> i < heights@.len(),
        ensures
            eligible == allocation_model::eligible(
                allocation_model::heights_of(heights),
                i as int,
                *info,
            ),
    {
        match heights {
            Some(heights) => info.resolution.height <= heights[i].as_u16() && info.rate.bps > 0,
            None => info.rate.bps > 0,
        }
    }

    /// Grants base layers in the order of the senders, as far as the budget goes, among those that
    /// `predicate` accepts. Senders that are granted none keep what they had.
    ///
    /// Returns whether the upper layers are to be considered, and the rate that was granted.
    fn allocate_base_layer<F: Fn(DecodeTarget, usize, &DecodeTargetInfo) -> bool>(
        &self,
        rate_budget: DataRate,
        target_info_lists: &[&DecodeTargetInfoList],
        selected_targets: &mut SelectedDecodeTargets,
        predicate: &F,
        Ghost(ok): Ghost<spec_fn(int, int) -> bool>,
    ) -> (granted: (bool, DataRate))
        requires
            decides(predicate, allocation_model::contents(target_info_lists@), ok),
            old(selected_targets)@.len() == target_info_lists@.len(),
        ensures
            final(selected_targets)@ == ({
                let granted_base = allocation_model::granted_base(
                    rate_budget@,
                    ok,
                    allocation_model::contents(target_info_lists@),
                );
                Seq::new(
                    target_info_lists@.len(),
                    |i: int|
                        if granted_base[i] is Some {
                            granted_base[i]
                        } else {
                            old(selected_targets)@[i]
                        },
                )
            }),
            granted.0 == allocation_model::base_succeeds(
                rate_budget@,
                ok,
                allocation_model::contents(target_info_lists@),
            ),
            granted.1@ == allocation_model::total_cost(
                allocation_model::contents(target_info_lists@),
                allocation_model::granted_base(
                    rate_budget@,
                    ok,
                    allocation_model::contents(target_info_lists@),
                ),
            ),
    {
        let ghost lists = allocation_model::contents(target_info_lists@);
        let ghost wanted = allocation_model::wanted_base(ok, lists);
        let ghost budget = rate_budget@;
        let sender_count: usize = target_info_lists.len();
        let mut success: bool = true;
        let mut allocated_rate: DataRate = DataRate::zero();

        let mut i: usize = 0;
        while i < sender_count
            invariant_except_break
                success,
                !allocation_model::used_up(budget, ok, lists, i as int),
            invariant
                i <= sender_count == target_info_lists@.len(),
                budget == rate_budget@,
                lists == allocation_model::contents(target_info_lists@),
                wanted == allocation_model::wanted_base(ok, lists),
                decides(predicate, lists, ok),
                allocated_rate@ == allocation_model::cost_of_first(lists, wanted, i as int),
                allocated_rate@ <= budget,
                forall|j: int|
                    0 <= j < i && wanted[j] is Some ==> !#[trigger] allocation_model::used_up(
                        budget,
                        ok,
                        lists,
                        j,
                    ),
                old(selected_targets)@.len() == lists.len(),
                selected_targets@ == Seq::new(
                    lists.len(),
                    |j: int|
                        if j < i && wanted[j] is Some {
                            wanted[j]
                        } else {
                            old(selected_targets)@[j]
                        },
                ),
            ensures
                success ==> i == sender_count || (i > 0 && wanted[i - 1] is Some
                    && allocated_rate@ == budget),
                !success ==> i < sender_count && !allocation_model::used_up(
                    budget,
                    ok,
                    lists,
                    i as int,
                ) && allocation_model::cost_of_first(lists, wanted, i + 1) > budget,
            decreases sender_count - i,
        {
            if let Some(info) = target_info_lists[i].get(0) {
                if predicate(0, i, info) {
                    // Compared this way round, the sum cannot overflow.
                    if info.rate.bps > rate_budget.bps - allocated_rate.bps {
                        success = false;
                        break;
                    }
                    allocated_rate = allocated_rate + info.rate;
                    selected_targets.set(i, Some(0));
                    if allocated_rate.bps == rate_budget.bps {
                        i += 1;
                        break;
                    }
                }
            }
            i += 1;
        }

        proof {
            let n = lists.len() as int;
            assert forall|j: int|
                i <= j < n && wanted[j] is Some implies allocation_model::cost_of_first(
                lists,
                wanted,
                j + 1,
            ) > budget || #[trigger] allocation_model::used_up(budget, ok, lists, j) by {
                if success {
                    allocation_model::lemma_cost_grows(lists, wanted, i as int, j);
                    assert(wanted[i - 1] is Some);
                } else {
                    allocation_model::lemma_cost_grows(lists, wanted, i + 1, j + 1);
                }
            }
            allocation_model::lemma_granted_base(budget, ok, lists, i as int);
            let granted_base = allocation_model::granted_base(budget, ok, lists);
            if !success {
                allocation_model::lemma_cost_grows(lists, wanted, i + 1, n);
                assert forall|j: int| 0 <= j < n && #[trigger] granted_base[j] is Some implies
                    allocation_model::total_cost(lists, granted_base) < budget by {
                    assert(wanted[j] is Some);
                }
            } else if i < n {
                assert(granted_base[i - 1] is Some);
            }
        }
        (success, allocated_rate)
    }

    /// Moves all senders up together, tier by tier below `max_targets`, for as long as the whole
    /// tier fits the budget. A tier consists of the targets that `predicate` accepts; a sender
    /// without one keeps what it has. `allocated_rate` is the rate that was granted before.
    ///
    /// Returns the rate that is granted in the end.
    fn allocate_upper_layers<F: Fn(DecodeTarget, usize, &DecodeTargetInfo) -> bool>(
        &self,
        rate_budget: DataRate,
        target_info_lists: &[&DecodeTargetInfoList],
        max_targets: usize,
        allocated_rate: DataRate,
        selected_targets: &mut SelectedDecodeTargets,
        predicate: &F,
        Ghost(ok): Ghost<spec_fn(int, int) -> bool>,
    ) -> (granted_rate: DataRate)
        requires
            decides(predicate, allocation_model::contents(target_info_lists@), ok),
            old(selected_targets)@.len() == target_info_lists@.len(),
            allocation_model::in_bounds(
                allocation_model::contents(target_info_lists@),
                old(selected_targets)@,
            ),
        ensures
            ({
                let lists = allocation_model::contents(target_info_lists@);
                let base = old(selected_targets)@;
                let top = allocation_model::top_tier(
                    rate_budget@,
                    ok,
                    lists,
                    base,
                    max_targets as nat,
                    0,
                );
                &&& final(selected_targets)@ == allocation_model::at_tier(ok, lists, base, top)
                &&& granted_rate@ == if top == 0 {
                    allocated_rate@
                } else {
                    allocation_model::total_cost(lists, final(selected_targets)@)
                }
            }),
    {
        let ghost lists = allocation_model::contents(target_info_lists@);
        let ghost base = selected_targets@;
        let ghost limit = max_targets as nat;
        let ghost top = allocation_model::top_tier(rate_budget@, ok, lists, base, limit, 0);
        let sender_count: usize = target_info_lists.len();
        let mut tentative_targets = selected_targets.duplicate();
        let mut current_rate: DataRate = allocated_rate;

        assert(allocation_model::at_tier(ok, lists, base, 0) =~= base);
        let mut target: usize = 1;
        while target < max_targets
            invariant
                1 <= target,
                sender_count == target_info_lists@.len(),
                limit == max_targets,
                lists == allocation_model::contents(target_info_lists@),
                decides(predicate, lists, ok),
                base == old(selected_targets)@,
                base.len() == lists.len(),
                allocation_model::in_bounds(lists, base),
                top == allocation_model::top_tier(rate_budget@, ok, lists, base, limit, 0),
                top == allocation_model::top_tier(
                    rate_budget@,
                    ok,
                    lists,
                    base,
                    limit,
                    (target - 1) as nat,
                ),
                selected_targets@ == allocation_model::at_tier(
                    ok,
                    lists,
                    base,
                    (target - 1) as nat,
                ),
                tentative_targets@ == selected_targets@,
                current_rate@ == if target == 1 {
                    allocated_rate@
                } else {
                    allocation_model::total_cost(lists, selected_targets@)
                },
            decreases max_targets - target,
        {
            let ghost tier = allocation_model::at_tier(ok, lists, base, target as nat);
            let mut tentative_rate: DataRate = DataRate::zero();
            let mut i: usize = 0;
            while i < sender_count
                invariant
                    1 <= target < max_targets,
                    i <= sender_count == target_info_lists@.len(),
                    limit == max_targets,
                    lists == allocation_model::contents(target_info_lists@),
                    decides(predicate, lists, ok),
                    base == old(selected_targets)@,
                    base.len() == lists.len(),
                    allocation_model::in_bounds(lists, base),
                    top == allocation_model::top_tier(rate_budget@, ok, lists, base, limit, 0),
                    top == allocation_model::top_tier(
                        rate_budget@,
                        ok,
                        lists,
                        base,
                        limit,
                        (target - 1) as nat,
                    ),
                    selected_targets@ == allocation_model::at_tier(
                        ok,
                        lists,
                        base,
                        (target - 1) as nat,
                    ),
                    current_rate@ == if target == 1 {
                        allocated_rate@
                    } else {
                        allocation_model::total_cost(lists, selected_targets@)
                    },
                    tier == allocation_model::at_tier(ok, lists, base, target as nat),
                    tentative_targets@ == Seq::new(
                        lists.len(),
                        |j: int|
                            if j < i {
                                tier[j]
                            } else {
                                selected_targets@[j]
                            },
                    ),
                    tentative_rate@ == allocation_model::cost_of_first(lists, tier, i as int),
                    tentative_rate@ <= rate_budget@,
                decreases sender_count - i,
            {
                let list: &DecodeTargetInfoList = target_info_lists[i];
                let raised: Option<DataRate> = match list.get(target) {
                    Some(info) => if predicate(target, i, info) {
                        Some(info.rate)
                    } else {
                        None
                    },
                    None => None,
                };
                let choice: Option<(DataRate, DecodeTarget)> = match raised {
                    Some(rate) => Some((rate, target)),
                    None => match selected_targets.at(i) {
                        Some(selected_target) => {
                            proof {
                                allocation_model::lemma_best_in_bounds(
                                    ok,
                                    lists,
                                    base,
                                    i as int,
                                    (target - 1) as nat,
                                );
                            }
                            Some((list.rate_of(selected_target), selected_target))
                        },
                        None => None,
                    },
                };
                if let Some((rate, selected_target)) = choice {
                    // Compared this way round, the sum cannot overflow.
                    if rate.bps > rate_budget.bps - tentative_rate.bps {
                        proof {
                            allocation_model::lemma_cost_grows(
                                lists,
                                tier,
                                i + 1,
                                lists.len() as int,
                            );
                        }
                        return current_rate;
                    }
                    tentative_rate = tentative_rate + rate;
                    tentative_targets.set(i, Some(selected_target));
                }
                i += 1;
            }
            assert(tentative_targets@ =~= tier);
            current_rate = tentative_rate;
            selected_targets.copy_from(&tentative_targets);
            target += 1;
        }

        current_rate
    }

    /// The largest number of decode targets that a sender has.
    fn max_targets(target_info_lists: &[&DecodeTargetInfoList]) -> (max_targets: usize)
        ensures
            max_targets == allocation_model::tiers(
                allocation_model::contents(target_info_lists@),
            ),
            allocation_model::lists_fit(allocation_model::contents(target_info_lists@)),
    {
        let ghost lists = allocation_model::contents(target_info_lists@);
        let mut max_targets: usize = 0;
        let mut i: usize = 0;
        while i < target_info_lists.len()
            invariant
                i <= target_info_lists@.len(),
                lists == allocation_model::contents(target_info_lists@),
                max_targets == allocation_model::most_targets(lists, i as int),
                forall|j: int| 0 <= j < i ==> (#[trigger] lists[j]).len() <= usize::MAX,
            decreases target_info_lists@.len() - i,
        {
            let count: usize = target_info_lists[i].len();
            if count > max_targets {
                max_targets = count;
            }
            i += 1;
        }
        max_targets
    }

    /// Splits the budget over the senders, among the targets that `filter` accepts.
    fn do_allocate<F: Fn(DecodeTarget, usize, &DecodeTargetInfo) -> bool>(
        &self,
        rate_budget: DataRate,
        decode_target_info_lists: &[&DecodeTargetInfoList],
        filter: F,
        Ghost(ok): Ghost<spec_fn(int, int) -> bool>,
    ) -> (result: AllocationResult)
        requires
            decides(&filter, allocation_model::contents(decode_target_info_lists@), ok),
        ensures
            result@ == allocation_model::split(
                rate_budget@,
                ok,
                allocation_model::contents(decode_target_info_lists@),
            ),
            allocation_model::lists_fit(allocation_model::contents(decode_target_info_lists@)),
    {
        let ghost lists = allocation_model::contents(decode_target_info_lists@);
        let ghost base = allocation_model::granted_base(rate_budget@, ok, lists);
        let max_targets: usize = Self::max_targets(decode_target_info_lists);
        let mut selected_decode_targets = SelectedDecodeTargets::none_for(
            decode_target_info_lists.len(),
        );
        let (success, base_layer_rate) = self.allocate_base_layer(
            rate_budget,
            decode_target_info_lists,
            &mut selected_decode_targets,
            &filter,
            Ghost(ok),
        );
        assert(selected_decode_targets@ =~= base);
        if !success {
            return AllocationResult { allocated_rate: base_layer_rate, selected_decode_targets };
        }
        let allocated_rate: DataRate = self.allocate_upper_layers(
            rate_budget,
            decode_target_info_lists,
            max_targets,
            base_layer_rate,
            &mut selected_decode_targets,
            &filter,
            Ghost(ok),
        );
        assert(allocation_model::at_tier(ok, lists, base, 0) =~= base);
        AllocationResult { allocated_rate, selected_decode_targets }
    }
}

impl Allocator for DefaultAllocator {
    open spec fn ready(&self) -> bool {
        true
    }

    open spec fn may_allocate(
        &self,
        budget: nat,
        heights: Option<Seq<VideoHeight>>,
        lists: Seq<Seq<DecodeTargetInfo>>,
        outcome: Result<Allocation, AllocationError>,
    ) -> bool {
        outcome == greedy_outcome(budget, heights, lists)
    }

    open spec fn may_be_ideal(
        &self,
        heights: Option<Seq<VideoHeight>>,
        lists: Seq<Seq<DecodeTargetInfo>>,
        outcome: Result<Allocation, AllocationError>,
    ) -> bool {
        outcome == greedy_outcome(u64::MAX as nat, heights, lists)
    }

    open spec fn base_rate_exists(&self, lists: Seq<Seq<DecodeTargetInfo>>) -> bool {
        allocation_model::base_rate(lists) <= u64::MAX
    }

    open spec fn may_be_base_rate(&self, lists: Seq<Seq<DecodeTargetInfo>>, rate: nat) -> bool {
        rate == allocation_model::base_rate(lists)
    }

    fn allocate(
        &self,
        rate_budget: DataRate,
        heights: Option<&[VideoHeight]>,
        decode_target_info_lists: &[&DecodeTargetInfoList],
    ) -> (result: Result<AllocationResult, AllocationError>)
        ensures
            result is Ok ==> allocation_model::lists_fit(
                allocation_model::contents(decode_target_info_lists@),
            ),
            allocation_laws::is_allocation(
                rate_budget@,
                heights,
                decode_target_info_lists@,
                result,
            ),
            result matches Ok(granted) ==> forall|i: int|
                0 <= i < decode_target_info_lists@.len() ==> (
                #[trigger] granted.selected_decode_targets@[i] matches Some(t) ==> {
                    let info = decode_target_info_lists@[i]@[t as int];
                    &&& t < decode_target_info_lists@[i]@.len()
                    &&& info.rate.bps > 0
                    &&& heights matches Some(heights) ==> info.resolution.height
                        <= heights@[i].pixels
                }),
    {
        let result = match heights {
            Some(hs) if hs.len() != decode_target_info_lists.len() => Err(
                AllocationError::MismatchedHeightConstraints,
            ),
            _ => {
                let filter = |_target: DecodeTarget, i: usize, info: &DecodeTargetInfo| -> (ok: bool)
                    requires
                        heights matches Some(heights) ==> i < heights@.len(),
                    ensures
                        ok == allocation_model::eligible(
                            allocation_model::heights_of(heights),
                            i as int,
                            *info,
                        ),
                    { Self::is_eligible(heights, i, info) };
                Ok(
                    self.do_allocate(
                        rate_budget,
                        decode_target_info_lists,
                        filter,
                        Ghost(
                            allocation_model::filter(
                                allocation_model::heights_of(heights),
                                allocation_model::contents(decode_target_info_lists@),
                            ),
                        ),
                    ),
                )
            },
        };
        proof {
            if result is Ok {
                allocation_laws::lemma_valid(decode_target_info_lists@);
                allocation_laws::law_default_allocator_splits(
                    *self,
                    rate_budget@,
                    heights,
                    decode_target_info_lists@,
                    result,
                );
                assert forall|i: int| 0 <= i < decode_target_info_lists@.len() implies (
                #[trigger] result->Ok_0.selected_decode_targets@[i] matches Some(t) ==> {
                    let info = decode_target_info_lists@[i]@[t as int];
                    &&& t < decode_target_info_lists@[i]@.len()
                    &&& info.rate.bps > 0
                    &&& heights matches Some(heights) ==> info.resolution.height
                        <= heights@[i].pixels
                }) by {
                    allocation_laws::law_limits_are_kept(
                        *self,
                        rate_budget@,
                        heights,
                        decode_target_info_lists@,
                        result->Ok_0,
                        i,
                    );
                }
            }
        }
        result
    }

    fn calculate_ideal_send_rate(
        &self,
        heights: Option<&[VideoHeight]>,
        decode_target_info_lists: &[&DecodeTargetInfoList],
    ) -> (result: Result<AllocationResult, AllocationError>)
        ensures
            result is Ok ==> allocation_model::lists_fit(
                allocation_model::contents(decode_target_info_lists@),
            ),
            allocation_laws::is_allocation(
                u64::MAX as nat,
                heights,
                decode_target_info_lists@,
                result,
            ),
    {
        let result = match heights {
            Some(hs) if hs.len() != decode_target_info_lists.len() => Err(
                AllocationError::MismatchedHeightConstraints,
            ),
            _ => {
                let filter = |_target: DecodeTarget, i: usize, info: &DecodeTargetInfo| -> (ok: bool)
                    requires
                        heights matches Some(heights) ==> i < heights@.len(),
                    ensures
                        ok == allocation_model::eligible(
                            allocation_model::heights_of(heights),
                            i as int,
                            *info,
                        ),
                    { Self::is_eligible(heights, i, info) };
                Ok(
                    self.do_allocate(
                        DataRate::max_value(),
                        decode_target_info_lists,
                        filter,
                        Ghost(
                            allocation_model::filter(
                                allocation_model::heights_of(heights),
                                allocation_model::contents(decode_target_info_lists@),
                            ),
                        ),
                    ),
                )
            },
        };
        proof {
            if result is Ok {
                allocation_laws::lemma_valid(decode_target_info_lists@);
                allocation_laws::law_default_allocator_splits(
                    *self,
                    0,
                    heights,
                    decode_target_info_lists@,
                    result,
                );
            }
        }
        result
    }

    fn calculate_base_rate(&self, decode_target_info_lists: &[&DecodeTargetInfoList]) -> (rate:
        DataRate)
        ensures
            rate.bps == allocation_laws::sum(
                allocation_laws::first_rates(decode_target_info_lists@),
            ),
    {
        let ghost lists = allocation_model::contents(decode_target_info_lists@);
        let mut total_rate: DataRate = DataRate::zero();
        let mut i: usize = 0;
        while i < decode_target_info_lists.len()
            invariant
                i <= decode_target_info_lists@.len(),
                lists == allocation_model::contents(decode_target_info_lists@),
                allocation_model::base_rate(lists) <= u64::MAX,
                total_rate@ == allocation_model::first_targets_cost(lists, i as int),
            decreases decode_target_info_lists@.len() - i,
        {
            proof {
                allocation_model::lemma_first_targets_cost_grows(
                    lists,
                    i + 1,
                    lists.len() as int,
                );
            }
            if let Some(info) = decode_target_info_lists[i].get(0) {
                total_rate = total_rate + info.rate;
            }
            i += 1;
        }
        proof {
            allocation_laws::lemma_base_rate(decode_target_info_lists@);
        }
        total_rate
    }
}

/// An allocator like `DefaultAllocator` that disregards the budget. Useful only for testing and
/// troubleshooting.
pub struct BlastAllocator {
    allocator: DefaultAllocator,
}

impl Default for BlastAllocator {
    fn default() -> (allocator: BlastAllocator)
        ensures
            allocator.ready(),
    {
        BlastAllocator { allocator: DefaultAllocator }
    }
}

impl Allocator for BlastAllocator {
    open spec fn ready(&self) -> bool {
        true
    }

    open spec fn may_allocate(
        &self,
        budget: nat,
        heights: Option<Seq<VideoHeight>>,
        lists: Seq<Seq<DecodeTargetInfo>>,
        outcome: Result<Allocation, AllocationError>,
    ) -> bool {
        outcome == greedy_outcome(u64::MAX as nat, heights, lists)
    }

    open spec fn may_be_ideal(
        &self,
        heights: Option<Seq<VideoHeight>>,
        lists: Seq<Seq<DecodeTargetInfo>>,
        outcome: Result<Allocation, AllocationError>,
    ) -> bool {
        outcome == greedy_outcome(u64::MAX as nat, heights, lists)
    }

    open spec fn base_rate_exists(&self, lists: Seq<Seq<DecodeTargetInfo>>) -> bool {
        allocation_model::base_rate(lists) <= u64::MAX
    }

    open spec fn may_be_base_rate(&self, lists: Seq<Seq<DecodeTargetInfo>>, rate: nat) -> bool {
        rate == allocation_model::base_rate(lists)
    }

    fn allocate(
        &self,
        _rate_budget: DataRate,
        heights: Option<&[VideoHeight]>,
        decode_target_info_lists: &[&DecodeTargetInfoList],
    ) -> (result: Result<AllocationResult, AllocationError>)
        ensures
            result is Ok ==> allocation_model::lists_fit(
                allocation_model::contents(decode_target_info_lists@),
            ),
            allocation_laws::is_allocation(
                u64::MAX as nat,
                heights,
                decode_target_info_lists@,
                result,
            ),
    {
        self.allocator.allocate(DataRate::max_value(), heights, decode_target_info_lists)
    }

    fn calculate_ideal_send_rate(
        &self,
        heights: Option<&[VideoHeight]>,
        decode_target_info_lists: &[&DecodeTargetInfoList],
    ) -> (result: Result<AllocationResult, AllocationError>)
        ensures
            result is Ok ==> allocation_model::lists_fit(
                allocation_model::contents(decode_target_info_lists@),
            ),
            allocation_laws::is_allocation(
                u64::MAX as nat,
                heights,
                decode_target_info_lists@,
                result,
            ),
    {
        self.allocator.calculate_ideal_send_rate(heights, decode_target_info_lists)
    }

    fn calculate_base_rate(&self, decode_target_info_lists: &[&DecodeTargetInfoList]) -> (rate:
        DataRate)
        ensures
            rate.bps == allocation_laws::sum(
                allocation_laws::first_rates(decode_target_info_lists@),
            ),
    {
        self.allocator.calculate_base_rate(decode_target_info_lists)
    }
}

} // verus!
