//! What holds of every split of a budget.
//!
//! `ok(t, i)` says that target `t` of sender `i` is eligible. In a `greedy` split, `filter` says
//! so: it goes by the heights and by whether the target carries data.

use crate::allocation_model;
use crate::allocation_model::Allocation;
use crate::allocation_strategy;
use crate::allocation_strategy::{BasicAllocationStrategy, BasicAllocationStrategyResult};
use crate::allocator;
use crate::allocator::{
    AllocationError, AllocationResult, Allocator, BlastAllocator, DefaultAllocator,
};
use crate::media::{DecodeTarget, DecodeTargetInfo, DecodeTargetInfoList, VideoHeight};
use vstd::prelude::*;

verus! {

/// Target `t` of sender `i` is eligible, and no higher one is.
pub open spec fn is_highest(
    ok: spec_fn(int, int) -> bool,
    lists: Seq<Seq<DecodeTargetInfo>>,
    i: int,
    t: int,
) -> bool {
    &&& allocation_model::offers(ok, lists, i, t)
    &&& forall|u: int| #[trigger] allocation_model::offers(ok, lists, i, u) ==> u <= t
}

/// Of two eligible targets of a sender, the higher one does not take less.
pub open spec fn rates_ascend(
    ok: spec_fn(int, int) -> bool,
    lists: Seq<Seq<DecodeTargetInfo>>,
) -> bool {
    forall|i: int, t: int, u: int|
        #![trigger allocation_model::offers(ok, lists, i, t), allocation_model::offers(ok, lists, i, u)]
        0 <= i < lists.len() && t <= u && allocation_model::offers(ok, lists, i, t)
            && allocation_model::offers(ok, lists, i, u) ==> lists[i][t].rate@
            <= lists[i][u].rate@
}

/// The base layers and all tiers fit a budget.
pub open spec fn every_tier_fits(
    budget: nat,
    ok: spec_fn(int, int) -> bool,
    lists: Seq<Seq<DecodeTargetInfo>>,
) -> bool {
    let wanted = allocation_model::wanted_base(ok, lists);
    &&& allocation_model::total_cost(lists, wanted) <= budget
    &&& forall|tier: nat|
        tier < allocation_model::tiers(lists) ==> allocation_model::total_cost(
            lists,
            #[trigger] allocation_model::at_tier(ok, lists, wanted, tier),
        ) <= budget
}

/// The tiers up to `top` fit the budget, and the next one, if there is one, does not.
pub open spec fn reaches(
    budget: nat,
    ok: spec_fn(int, int) -> bool,
    lists: Seq<Seq<DecodeTargetInfo>>,
    top: nat,
) -> bool {
    let base = allocation_model::granted_base(budget, ok, lists);
    &&& forall|t: nat|
        t <= top ==> allocation_model::total_cost(
            lists,
            #[trigger] allocation_model::at_tier(ok, lists, base, t),
        ) <= budget
    &&& top + 1 < allocation_model::tiers(lists) ==> allocation_model::total_cost(
        lists,
        allocation_model::at_tier(ok, lists, base, top + 1),
    ) > budget
}

proof fn lemma_tiers_fit(lists: Seq<Seq<DecodeTargetInfo>>, k: int)
    requires
        allocation_model::lists_fit(lists),
        0 <= k <= lists.len(),
    ensures
        allocation_model::most_targets(lists, k) <= usize::MAX,
    decreases k,
{
    if k > 0 {
        lemma_tiers_fit(lists, k - 1);
        assert(lists[k - 1].len() <= usize::MAX);
    }
}

proof fn lemma_granted_cost(
    budget: nat,
    ok: spec_fn(int, int) -> bool,
    lists: Seq<Seq<DecodeTargetInfo>>,
    k: int,
)
    requires
        0 <= k <= lists.len(),
    ensures
        ({
            let wanted = allocation_model::wanted_base(ok, lists);
            let granted = allocation_model::granted_base(budget, ok, lists);
            &&& allocation_model::cost_of_first(lists, granted, k) <= budget
            &&& allocation_model::cost_of_first(lists, granted, k)
                <= allocation_model::cost_of_first(lists, wanted, k)
        }),
    decreases k,
{
    if k > 0 {
        let wanted = allocation_model::wanted_base(ok, lists);
        lemma_granted_cost(budget, ok, lists, k - 1);
        allocation_model::lemma_cost_grows(lists, wanted, k - 1, k);
    }
}

/// Going up from a tier, one gets to the last tier below the limit such that all tiers on the way
/// fit the budget.
pub proof fn law_top_tier(
    budget: nat,
    ok: spec_fn(int, int) -> bool,
    lists: Seq<Seq<DecodeTargetInfo>>,
    base: Seq<Option<DecodeTarget>>,
    limit: nat,
    tier: nat,
)
    ensures
        ({
            let top = allocation_model::top_tier(budget, ok, lists, base, limit, tier);
            &&& tier <= top
            &&& top > tier ==> top < limit
            &&& forall|t: nat|
                tier < t <= top ==> allocation_model::total_cost(
                    lists,
                    #[trigger] allocation_model::at_tier(ok, lists, base, t),
                ) <= budget
            &&& top + 1 < limit ==> allocation_model::total_cost(
                lists,
                allocation_model::at_tier(ok, lists, base, top + 1),
            ) > budget
        }),
    decreases limit - tier,
{
    if tier + 1 < limit && allocation_model::total_cost(
        lists,
        allocation_model::at_tier(ok, lists, base, tier + 1),
    ) <= budget {
        law_top_tier(budget, ok, lists, base, limit, tier + 1);
    }
}

/// What is allocated never exceeds the budget.
pub proof fn law_within_budget(
    budget: nat,
    ok: spec_fn(int, int) -> bool,
    lists: Seq<Seq<DecodeTargetInfo>>,
)
    ensures
        allocation_model::split(budget, ok, lists).rate <= budget,
{
    let tiers = allocation_model::tiers(lists);
    let base = allocation_model::granted_base(budget, ok, lists);
    lemma_granted_cost(budget, ok, lists, lists.len() as int);
    law_top_tier(budget, ok, lists, base, tiers, 0);
    assert(allocation_model::at_tier(ok, lists, base, 0) =~= base);
}

/// Each sender is granted at most one decode target, which it offers, which carries data and
/// whose picture is not higher than is wanted; and what is allocated is what these take.
pub proof fn law_selected_targets_are_eligible(
    budget: nat,
    ok: spec_fn(int, int) -> bool,
    lists: Seq<Seq<DecodeTargetInfo>>,
)
    requires
        allocation_model::lists_fit(lists),
    ensures
        allocation_model::split(budget, ok, lists).selected.len() == lists.len(),
        allocation_model::all_offered(
            ok,
            lists,
            allocation_model::split(budget, ok, lists).selected,
        ),
        allocation_model::split(budget, ok, lists).rate == allocation_model::total_cost(
            lists,
            allocation_model::split(budget, ok, lists).selected,
        ),
{
    let tiers = allocation_model::tiers(lists);
    let base = allocation_model::granted_base(budget, ok, lists);
    let top = allocation_model::top_tier(budget, ok, lists, base, tiers, 0);
    let selected = allocation_model::split(budget, ok, lists).selected;
    lemma_tiers_fit(lists, lists.len() as int);
    law_top_tier(budget, ok, lists, base, tiers, 0);
    assert forall|i: int| #![trigger selected[i]] 0 <= i < selected.len() implies (
    selected[i] matches Some(t) ==> allocation_model::offers(ok, lists, i, t as int)) by {
        allocation_model::lemma_best_offered(ok, lists, base, i, top);
    }
}

/// Every eligible target carries data.
spec fn positive(ok: spec_fn(int, int) -> bool, lists: Seq<Seq<DecodeTargetInfo>>) -> bool {
    forall|i: int, t: int| #[trigger]
        allocation_model::offers(ok, lists, i, t) ==> lists[i][t].rate@ > 0
}

proof fn lemma_granted_if_all_fit(
    budget: nat,
    ok: spec_fn(int, int) -> bool,
    lists: Seq<Seq<DecodeTargetInfo>>,
)
    requires
        positive(ok, lists),
        allocation_model::total_cost(lists, allocation_model::wanted_base(ok, lists)) <= budget,
    ensures
        allocation_model::granted_base(budget, ok, lists) == allocation_model::wanted_base(
            ok,
            lists,
        ),
{
    let wanted = allocation_model::wanted_base(ok, lists);
    let granted = allocation_model::granted_base(budget, ok, lists);
    assert forall|i: int| 0 <= i < lists.len() implies granted[i] == wanted[i] by {
        allocation_model::lemma_cost_grows(lists, wanted, i + 1, lists.len() as int);
        assert(wanted[i] is Some ==> allocation_model::offers(ok, lists, i, 0));
    }
    assert(granted =~= wanted);
}

/// Without a budget nobody is granted anything.
pub proof fn law_zero_budget(
    heights: Option<Seq<VideoHeight>>,
    lists: Seq<Seq<DecodeTargetInfo>>,
    i: int,
)
    requires
        allocation_model::lists_fit(lists),
        0 <= i < lists.len(),
    ensures
        allocation_model::greedy(0, heights, lists).selected[i] is None,
{
    let ok = allocation_model::filter(heights, lists);
    let selected = allocation_model::split(0, ok, lists).selected;
    law_within_budget(0, ok, lists);
    law_selected_targets_are_eligible(0, ok, lists);
    allocation_model::lemma_cost_grows(lists, selected, i + 1, lists.len() as int);
    assert(selected[i] matches Some(t) ==> allocation_model::offers(
        ok,
        lists,
        i,
        t as int,
    ));
}

/// Base layers are granted in the order of the senders: a sender whose base layer can be granted
/// is passed over only if nobody after it is granted a base layer.
pub proof fn law_earlier_senders_first(
    budget: nat,
    ok: spec_fn(int, int) -> bool,
    lists: Seq<Seq<DecodeTargetInfo>>,
    i: int,
    j: int,
)
    requires
        0 <= i < j < lists.len(),
        allocation_model::offers(ok, lists, i, 0),
        allocation_model::granted_base(budget, ok, lists)[j] is Some,
    ensures
        allocation_model::granted_base(budget, ok, lists)[i] == Some(0usize),
{
    let wanted = allocation_model::wanted_base(ok, lists);
    allocation_model::lemma_cost_grows(lists, wanted, i + 1, j + 1);
    allocation_model::lemma_cost_grows(lists, wanted, i, j);
}

/// Where some base layer does not fit and the others leave a part of the budget unused, no
/// sender goes beyond its base layer.
pub proof fn law_upper_layers_need_base_layers(
    budget: nat,
    ok: spec_fn(int, int) -> bool,
    lists: Seq<Seq<DecodeTargetInfo>>,
)
    requires
        allocation_model::total_cost(lists, allocation_model::wanted_base(ok, lists))
            > budget,
        allocation_model::total_cost(
            lists,
            allocation_model::granted_base(budget, ok, lists),
        ) < budget,
    ensures
        allocation_model::split(budget, ok, lists).selected
            == allocation_model::granted_base(budget, ok, lists),
{
}

/// All senders go up together: there is one tier such that each sender gets the best of its
/// eligible targets up to that tier, all tiers up to it fit the budget, and the next one, if
/// there is one, does not.
pub proof fn law_one_tier_for_all(
    budget: nat,
    ok: spec_fn(int, int) -> bool,
    lists: Seq<Seq<DecodeTargetInfo>>,
)
    requires
        allocation_model::base_succeeds(budget, ok, lists),
    ensures
        exists|top: nat|
            #![trigger reaches(budget, ok, lists, top)]
            reaches(budget, ok, lists, top) && allocation_model::split(
                budget,
                ok,
                lists,
            ).selected == allocation_model::at_tier(
                ok,
                lists,
                allocation_model::granted_base(budget, ok, lists),
                top,
            ),
{
    let tiers = allocation_model::tiers(lists);
    let base = allocation_model::granted_base(budget, ok, lists);
    let top = allocation_model::top_tier(budget, ok, lists, base, tiers, 0);
    lemma_granted_cost(budget, ok, lists, lists.len() as int);
    law_top_tier(budget, ok, lists, base, tiers, 0);
    assert(allocation_model::at_tier(ok, lists, base, 0) =~= base);
    assert(reaches(budget, ok, lists, top));
}

/// At a tier, a sender gets the best of its eligible targets from 1 to that tier, and without
/// any what it had before.
pub proof fn law_best_of_tier(
    ok: spec_fn(int, int) -> bool,
    lists: Seq<Seq<DecodeTargetInfo>>,
    base: Seq<Option<DecodeTarget>>,
    i: int,
    tier: nat,
)
    requires
        tier <= usize::MAX,
    ensures
        ({
            let choice = allocation_model::best(ok, lists, base, i, tier);
            if exists|t: int| 1 <= t <= tier && allocation_model::offers(ok, lists, i, t) {
                &&& choice is Some
                &&& 1 <= choice->0 <= tier
                &&& allocation_model::offers(ok, lists, i, choice->0 as int)
                &&& forall|t: int|
                    1 <= t <= tier && #[trigger] allocation_model::offers(ok, lists, i, t)
                        ==> t <= choice->0
            } else {
                choice == base[i]
            }
        }),
    decreases tier,
{
    if tier > 0 {
        law_best_of_tier(ok, lists, base, i, (tier - 1) as nat);
        if !allocation_model::offers(ok, lists, i, tier as int) {
            assert(forall|t: int|
                1 <= t <= tier && allocation_model::offers(ok, lists, i, t) ==> t <= tier - 1);
        }
    }
}

/// With a budget that fits everything, all senders get to the last tier.
proof fn lemma_ample_budget(
    budget: nat,
    ok: spec_fn(int, int) -> bool,
    lists: Seq<Seq<DecodeTargetInfo>>,
)
    requires
        positive(ok, lists),
        every_tier_fits(budget, ok, lists),
    ensures
        ({
            let wanted = allocation_model::wanted_base(ok, lists);
            let tiers = allocation_model::tiers(lists);
            let last = if tiers > 0 {
                (tiers - 1) as nat
            } else {
                0
            };
            allocation_model::split(budget, ok, lists).selected
                == allocation_model::at_tier(ok, lists, wanted, last)
        }),
{
    let tiers = allocation_model::tiers(lists);
    let wanted = allocation_model::wanted_base(ok, lists);
    lemma_granted_if_all_fit(budget, ok, lists);
    law_top_tier(budget, ok, lists, wanted, tiers, 0);
}

/// With a budget that fits everything, each sender is granted the highest of its eligible
/// targets, and nothing only if it has none.
pub proof fn law_ample_budget_grants_highest(
    budget: nat,
    heights: Option<Seq<VideoHeight>>,
    lists: Seq<Seq<DecodeTargetInfo>>,
    i: int,
)
    requires
        allocation_model::lists_fit(lists),
        every_tier_fits(budget, allocation_model::filter(heights, lists), lists),
        0 <= i < lists.len(),
    ensures
        match allocation_model::greedy(budget, heights, lists).selected[i] {
            Some(t) => is_highest(allocation_model::filter(heights, lists), lists, i, t as int),
            None => forall|t: int|
                !#[trigger] allocation_model::offers(
                    allocation_model::filter(heights, lists),
                    lists,
                    i,
                    t,
                ),
        },
{
    let ok = allocation_model::filter(heights, lists);
    let wanted = allocation_model::wanted_base(ok, lists);
    let tiers = allocation_model::tiers(lists);
    let last = if tiers > 0 {
        (tiers - 1) as nat
    } else {
        0
    };
    lemma_ample_budget(budget, ok, lists);
    lemma_tiers_fit(lists, lists.len() as int);
    law_best_of_tier(ok, lists, wanted, i, last);
    allocation_model::lemma_most_targets(lists, i, lists.len() as int);
}

/// A tier does not take less than what is below it, if rates ascend.
proof fn lemma_tiers_ascend(
    ok: spec_fn(int, int) -> bool,
    lists: Seq<Seq<DecodeTargetInfo>>,
    base: Seq<Option<DecodeTarget>>,
    tier: nat,
    top: nat,
    k: int,
)
    requires
        rates_ascend(ok, lists),
        tier <= top <= usize::MAX,
        0 <= k <= lists.len(),
        forall|i: int|
            0 <= i < lists.len() ==> #[trigger] base[i] is None || (base[i] == Some(0usize)
                && allocation_model::offers(ok, lists, i, 0)),
    ensures
        allocation_model::cost_of_first(
            lists,
            allocation_model::at_tier(ok, lists, base, tier),
            k,
        ) <= allocation_model::cost_of_first(
            lists,
            allocation_model::at_tier(ok, lists, base, top),
            k,
        ),
    decreases k,
{
    if k > 0 {
        let i = k - 1;
        lemma_tiers_ascend(ok, lists, base, tier, top, i);
        law_best_of_tier(ok, lists, base, i, tier);
        law_best_of_tier(ok, lists, base, i, top);
        allocation_model::lemma_best_offered(ok, lists, base, i, tier);
        allocation_model::lemma_best_offered(ok, lists, base, i, top);
        let low = allocation_model::best(ok, lists, base, i, tier);
        let high = allocation_model::best(ok, lists, base, i, top);
        assert(allocation_model::cost(lists, i, low) <= allocation_model::cost(lists, i, high));
    }
}

/// Where rates ascend, the rate of an allocation that has room for everything is all that the
/// same allocation takes as a budget: any budget from there on gives the same allocation.
pub proof fn law_ideal_rate_suffices(
    limit: nat,
    budget: nat,
    heights: Option<Seq<VideoHeight>>,
    lists: Seq<Seq<DecodeTargetInfo>>,
)
    requires
        allocation_model::lists_fit(lists),
        rates_ascend(allocation_model::filter(heights, lists), lists),
        every_tier_fits(limit, allocation_model::filter(heights, lists), lists),
        budget >= allocation_model::greedy(limit, heights, lists).rate,
    ensures
        allocation_model::greedy(budget, heights, lists) == allocation_model::greedy(
            limit,
            heights,
            lists,
        ),
{
    let ok = allocation_model::filter(heights, lists);
    let wanted = allocation_model::wanted_base(ok, lists);
    let tiers = allocation_model::tiers(lists);
    let last = if tiers > 0 {
        (tiers - 1) as nat
    } else {
        0
    };
    let n = lists.len() as int;
    lemma_ample_budget(limit, ok, lists);
    lemma_tiers_fit(lists, n);
    assert(allocation_model::at_tier(ok, lists, wanted, 0) =~= wanted);
    lemma_tiers_ascend(ok, lists, wanted, 0, last, n);
    assert forall|tier: nat| tier < tiers implies allocation_model::total_cost(
        lists,
        #[trigger] allocation_model::at_tier(ok, lists, wanted, tier),
    ) <= budget by {
        lemma_tiers_ascend(ok, lists, wanted, tier, last, n);
    }
    lemma_ample_budget(budget, ok, lists);
}

/// A larger budget grants no fewer base layers.
proof fn lemma_base_grows(
    budget: nat,
    larger: nat,
    ok: spec_fn(int, int) -> bool,
    lists: Seq<Seq<DecodeTargetInfo>>,
    k: int,
)
    requires
        budget <= larger,
        0 <= k <= lists.len(),
    ensures
        allocation_model::cost_of_first(
            lists,
            allocation_model::granted_base(budget, ok, lists),
            k,
        ) <= allocation_model::cost_of_first(
            lists,
            allocation_model::granted_base(larger, ok, lists),
            k,
        ),
    decreases k,
{
    if k > 0 {
        lemma_base_grows(budget, larger, ok, lists, k - 1);
    }
}

/// Going up from the base layers never takes less than they do, if rates ascend.
proof fn lemma_no_less_than_base(
    budget: nat,
    ok: spec_fn(int, int) -> bool,
    lists: Seq<Seq<DecodeTargetInfo>>,
)
    requires
        allocation_model::lists_fit(lists),
        rates_ascend(ok, lists),
    ensures
        allocation_model::split(budget, ok, lists).rate >= allocation_model::total_cost(
            lists,
            allocation_model::granted_base(budget, ok, lists),
        ),
{
    let tiers = allocation_model::tiers(lists);
    let base = allocation_model::granted_base(budget, ok, lists);
    let top = allocation_model::top_tier(budget, ok, lists, base, tiers, 0);
    lemma_tiers_fit(lists, lists.len() as int);
    law_top_tier(budget, ok, lists, base, tiers, 0);
    lemma_tiers_ascend(ok, lists, base, 0, top, lists.len() as int);
    assert(allocation_model::at_tier(ok, lists, base, 0) =~= base);
}

/// A larger budget goes up at least as far.
proof fn lemma_top_tier_grows(
    budget: nat,
    larger: nat,
    ok: spec_fn(int, int) -> bool,
    lists: Seq<Seq<DecodeTargetInfo>>,
    base: Seq<Option<DecodeTarget>>,
    limit: nat,
    tier: nat,
)
    requires
        budget <= larger,
    ensures
        allocation_model::top_tier(budget, ok, lists, base, limit, tier)
            <= allocation_model::top_tier(larger, ok, lists, base, limit, tier),
    decreases limit - tier,
{
    if tier + 1 < limit && allocation_model::total_cost(
        lists,
        allocation_model::at_tier(ok, lists, base, tier + 1),
    ) <= budget {
        lemma_top_tier_grows(budget, larger, ok, lists, base, limit, tier + 1);
    } else {
        law_top_tier(larger, ok, lists, base, limit, tier);
    }
}

/// Where rates ascend, a larger budget never yields a smaller allocated rate.
pub proof fn law_larger_budget_yields_no_less(
    budget: nat,
    larger: nat,
    heights: Option<Seq<VideoHeight>>,
    lists: Seq<Seq<DecodeTargetInfo>>,
)
    requires
        allocation_model::lists_fit(lists),
        rates_ascend(allocation_model::filter(heights, lists), lists),
        budget <= larger,
    ensures
        allocation_model::greedy(budget, heights, lists).rate <= allocation_model::greedy(
            larger,
            heights,
            lists,
        ).rate,
{
    let ok = allocation_model::filter(heights, lists);
    let tiers = allocation_model::tiers(lists);
    let n = lists.len() as int;
    let wanted = allocation_model::wanted_base(ok, lists);
    let base = allocation_model::granted_base(budget, ok, lists);
    lemma_base_grows(budget, larger, ok, lists, n);
    lemma_no_less_than_base(larger, ok, lists);
    law_within_budget(budget, ok, lists);
    if allocation_model::total_cost(lists, wanted) <= budget {
        // All base layers fit either budget, so that both go up from the same tier.
        lemma_granted_if_all_fit(budget, ok, lists);
        lemma_granted_if_all_fit(larger, ok, lists);
        let low = allocation_model::top_tier(budget, ok, lists, base, tiers, 0);
        let high = allocation_model::top_tier(larger, ok, lists, base, tiers, 0);
        lemma_top_tier_grows(budget, larger, ok, lists, base, tiers, 0);
        law_top_tier(larger, ok, lists, base, tiers, 0);
        lemma_tiers_fit(lists, n);
        lemma_tiers_ascend(ok, lists, base, low, high, n);
    }
}

proof fn lemma_same_offers(
    budget: nat,
    a: spec_fn(int, int) -> bool,
    b: spec_fn(int, int) -> bool,
    lists: Seq<Seq<DecodeTargetInfo>>,
    base: Seq<Option<DecodeTarget>>,
    limit: nat,
    tier: nat,
)
    requires
        forall|i: int, t: int|
            0 <= i < lists.len() ==> #[trigger] allocation_model::offers(a, lists, i, t)
                == allocation_model::offers(b, lists, i, t),
    ensures
        allocation_model::wanted_base(a, lists) == allocation_model::wanted_base(b, lists),
        allocation_model::top_tier(budget, a, lists, base, limit, tier)
            == allocation_model::top_tier(budget, b, lists, base, limit, tier),
    decreases limit - tier,
{
    assert(allocation_model::wanted_base(a, lists) =~= allocation_model::wanted_base(b, lists));
    if tier + 1 < limit {
        lemma_same_tier(a, b, lists, base, tier + 1);
        lemma_same_offers(budget, a, b, lists, base, limit, tier + 1);
    }
}

proof fn lemma_same_tier(
    a: spec_fn(int, int) -> bool,
    b: spec_fn(int, int) -> bool,
    lists: Seq<Seq<DecodeTargetInfo>>,
    base: Seq<Option<DecodeTarget>>,
    tier: nat,
)
    requires
        forall|i: int, t: int|
            0 <= i < lists.len() ==> #[trigger] allocation_model::offers(a, lists, i, t)
                == allocation_model::offers(b, lists, i, t),
    ensures
        allocation_model::at_tier(a, lists, base, tier) == allocation_model::at_tier(
            b,
            lists,
            base,
            tier,
        ),
    decreases tier,
{
    if tier > 0 {
        lemma_same_tier(a, b, lists, base, (tier - 1) as nat);
    }
    assert forall|i: int| 0 <= i < lists.len() implies allocation_model::best(
        a,
        lists,
        base,
        i,
        tier,
    ) == allocation_model::best(b, lists, base, i, tier) by {
        if tier > 0 {
            let below = (tier - 1) as nat;
            assert(allocation_model::at_tier(a, lists, base, below)[i]
                == allocation_model::at_tier(b, lists, base, below)[i]);
            assert(allocation_model::offers(a, lists, i, tier as int) == allocation_model::offers(
                b,
                lists,
                i,
                tier as int,
            ));
        }
    }
    assert(allocation_model::at_tier(a, lists, base, tier) =~= allocation_model::at_tier(
        b,
        lists,
        base,
        tier,
    ));
}

/// Not to give heights means to consider all heights: it is the same as to give a height for
/// each sender that no picture exceeds.
pub proof fn law_no_heights_means_all_heights(
    budget: nat,
    heights: Seq<VideoHeight>,
    lists: Seq<Seq<DecodeTargetInfo>>,
)
    requires
        forall|i: int, t: int|
            0 <= i < lists.len() && 0 <= t < lists[i].len() ==> (
            #[trigger] lists[i][t]).resolution.height <= heights[i].pixels,
    ensures
        allocation_model::greedy(budget, Some(heights), lists) == allocation_model::greedy(
            budget,
            None,
            lists,
        ),
{
    let some = allocation_model::filter(Some(heights), lists);
    let none = allocation_model::filter(None, lists);
    let tiers = allocation_model::tiers(lists);
    assert forall|i: int, t: int| 0 <= i < lists.len() implies #[trigger] allocation_model::offers(
        some,
        lists,
        i,
        t,
    ) == allocation_model::offers(none, lists, i, t) by {
        if 0 <= t < lists[i].len() {
            assert(lists[i][t].resolution.height <= heights[i].pixels);
        }
    }
    let base = allocation_model::granted_base(budget, none, lists);
    lemma_same_offers(budget, some, none, lists, base, tiers, 0);
    assert(allocation_model::granted_base(budget, some, lists) =~= base);
    lemma_same_tier(
        some,
        none,
        lists,
        base,
        allocation_model::top_tier(budget, none, lists, base, tiers, 0),
    );
}

/// An allocation is refused exactly when heights are given, but not one for each sender.
pub proof fn law_refused_iff_mismatched(
    budget: nat,
    heights: Option<Seq<VideoHeight>>,
    lists: Seq<Seq<DecodeTargetInfo>>,
)
    ensures
        allocator::greedy_outcome(budget, heights, lists) is Err <==> heights is Some
            && heights->0.len() != lists.len(),
{
}

/// The ideal allocation is the allocation of the largest budget there is.
pub proof fn law_ideal_is_unlimited(
    allocator: DefaultAllocator,
    heights: Option<Seq<VideoHeight>>,
    lists: Seq<Seq<DecodeTargetInfo>>,
    outcome: Result<Allocation, AllocationError>,
)
    ensures
        allocator.may_be_ideal(heights, lists, outcome) <==> allocator.may_allocate(
            u64::MAX as nat,
            heights,
            lists,
            outcome,
        ),
{
}

/// `BlastAllocator` disregards the budget: whatever it is, the outcome is the ideal one of
/// `DefaultAllocator`.
pub proof fn law_blast_disregards_budget(
    blast: BlastAllocator,
    allocator: DefaultAllocator,
    budget: nat,
    heights: Option<Seq<VideoHeight>>,
    lists: Seq<Seq<DecodeTargetInfo>>,
    outcome: Result<Allocation, AllocationError>,
)
    ensures
        blast.may_allocate(budget, heights, lists, outcome) <==> allocator.may_be_ideal(
            heights,
            lists,
            outcome,
        ),
        blast.may_be_ideal(heights, lists, outcome) <==> allocator.may_be_ideal(
            heights,
            lists,
            outcome,
        ),
{
}

/// What is allocatable is no more than the ideal rate, and where the ideal rate allows it, no
/// less than the guaranteed rate and no less than what draining the queue leaves.
pub proof fn law_allocatable(target: nat, drain: nat, guaranteed: nat, ideal: nat)
    ensures
        ({
            let rate = allocation_strategy::allocatable(target, drain, guaranteed, ideal);
            &&& rate <= ideal
            &&& rate < ideal ==> rate >= guaranteed && rate + drain >= target
            &&& rate == ideal || rate == guaranteed || rate + drain == target
        }),
{
}

/// With the default allocator, a strategy allocates no more than the ideal rate, and no more
/// than the larger of the guaranteed rate and what draining the queue leaves.
pub proof fn law_strategy_keeps_limits(
    target: nat,
    drain: nat,
    guaranteed: nat,
    lists: Seq<Seq<DecodeTargetInfo>>,
)
    ensures
        ({
            let ideal = allocation_model::greedy(u64::MAX as nat, None, lists).rate;
            let budget = allocation_strategy::allocatable(target, drain, guaranteed, ideal);
            let granted = allocation_model::greedy(budget, None, lists).rate;
            &&& granted <= ideal
            &&& granted <= guaranteed || granted + drain <= target
        }),
{
    let ideal = allocation_model::greedy(u64::MAX as nat, None, lists).rate;
    let budget = allocation_strategy::allocatable(target, drain, guaranteed, ideal);
    law_within_budget(budget, allocation_model::filter(None, lists), lists);
}

/// Sender `i` can be granted target `t`: it offers it, the target carries data, and where heights
/// are given, its picture is not higher than the height that is given for this sender.
pub open spec fn grantable(
    heights: Option<&[VideoHeight]>,
    lists: Seq<&DecodeTargetInfoList>,
    i: int,
    t: int,
) -> bool {
    &&& 0 <= i < lists.len()
    &&& 0 <= t < lists[i]@.len()
    &&& lists[i]@[t].rate.bps > 0
    &&& heights matches Some(heights) ==> lists[i]@[t].resolution.height <= heights@[i].pixels
}

/// The sum of the terms.
pub open spec fn sum(terms: Seq<nat>) -> nat
    decreases terms.len(),
{
    if terms.len() == 0 {
        0
    } else {
        sum(terms.drop_last()) + terms.last()
    }
}

/// What each sender takes with its selected target.
pub open spec fn rates(
    lists: Seq<&DecodeTargetInfoList>,
    selected: Seq<Option<DecodeTarget>>,
) -> Seq<nat> {
    Seq::new(
        lists.len(),
        |i: int|
            match selected[i] {
                Some(t) => lists[i]@[t as int].rate.bps as nat,
                None => 0,
            },
    )
}

/// What each sender takes with its first target, whatever that is.
pub open spec fn first_rates(lists: Seq<&DecodeTargetInfoList>) -> Seq<nat> {
    Seq::new(
        lists.len(),
        |i: int|
            if lists[i]@.len() > 0 {
                lists[i]@[0].rate.bps as nat
            } else {
                0
            },
    )
}

/// Those of the first `k` senders that can be granted their base layer have it, and nobody else
/// has anything.
pub open spec fn base_of_first(
    heights: Option<&[VideoHeight]>,
    lists: Seq<&DecodeTargetInfoList>,
    k: int,
) -> Seq<Option<DecodeTarget>> {
    Seq::new(
        lists.len(),
        |i: int|
            if i < k && grantable(heights, lists, i, 0) {
                Some(0usize)
            } else {
                None
            },
    )
}

/// The budget has room for the base layers of the first `k` senders, and not for that of the next
/// one, if there is a next one.
pub open spec fn base_ends_at(
    budget: nat,
    heights: Option<&[VideoHeight]>,
    lists: Seq<&DecodeTargetInfoList>,
    k: int,
) -> bool {
    &&& 0 <= k <= lists.len()
    &&& sum(rates(lists, base_of_first(heights, lists, k))) <= budget
    &&& k < lists.len() ==> grantable(heights, lists, k, 0) && sum(
        rates(lists, base_of_first(heights, lists, k + 1)),
    ) > budget
}

/// Each sender has the highest target from 1 to `tier` that it can be granted, and one without any
/// has what it has in `base`.
pub open spec fn is_tier(
    heights: Option<&[VideoHeight]>,
    lists: Seq<&DecodeTargetInfoList>,
    base: Seq<Option<DecodeTarget>>,
    tier: int,
    selected: Seq<Option<DecodeTarget>>,
) -> bool {
    &&& selected.len() == lists.len()
    &&& forall|i: int|
        #![trigger selected[i]]
        0 <= i < lists.len() ==> {
            ||| selected[i] == base[i] && forall|u: int|
                1 <= u <= tier ==> !#[trigger] grantable(heights, lists, i, u)
            ||| selected[i] is Some && 1 <= selected[i]->0 <= tier && grantable(
                heights,
                lists,
                i,
                selected[i]->0 as int,
            ) && forall|u: int|
                selected[i]->0 < u <= tier ==> !#[trigger] grantable(heights, lists, i, u)
        }
}

/// Tier `tier` is within the budget.
pub open spec fn tier_within(
    budget: nat,
    heights: Option<&[VideoHeight]>,
    lists: Seq<&DecodeTargetInfoList>,
    base: Seq<Option<DecodeTarget>>,
    tier: int,
) -> bool {
    exists|selected: Seq<Option<DecodeTarget>>| #[trigger]
        is_tier(heights, lists, base, tier, selected) && sum(rates(lists, selected)) <= budget
}

/// Some sender has a target `tier`.
pub open spec fn tier_exists(lists: Seq<&DecodeTargetInfoList>, tier: int) -> bool {
    exists|i: int| 0 <= i < lists.len() && tier < (#[trigger] lists[i])@.len()
}

/// The senders have been moved up from `base` as far as whole tiers are within the budget.
pub open spec fn is_climb(
    budget: nat,
    heights: Option<&[VideoHeight]>,
    lists: Seq<&DecodeTargetInfoList>,
    base: Seq<Option<DecodeTarget>>,
    top: int,
    selected: Seq<Option<DecodeTarget>>,
) -> bool {
    &&& 0 <= top
    &&& top > 0 ==> tier_exists(lists, top)
    &&& is_tier(heights, lists, base, top, selected)
    &&& forall|tier: int|
        1 <= tier <= top ==> #[trigger] tier_within(budget, heights, lists, base, tier)
    &&& tier_exists(lists, top + 1) ==> !tier_within(budget, heights, lists, base, top + 1)
}

/// How a budget is to be split: base layers in the order of the senders, as far as the budget
/// goes; then, if no base layer is left out or nothing of the budget is left, all senders together
/// go up as many whole tiers as the budget has room for.
pub open spec fn is_split(
    budget: nat,
    heights: Option<&[VideoHeight]>,
    lists: Seq<&DecodeTargetInfoList>,
    selected: Seq<Option<DecodeTarget>>,
) -> bool {
    exists|k: int| #[trigger]
        base_ends_at(budget, heights, lists, k) && {
            let base = base_of_first(heights, lists, k);
            if k == lists.len() || 0 < budget == sum(rates(lists, base)) {
                exists|top: int| #[trigger] is_climb(budget, heights, lists, base, top, selected)
            } else {
                selected == base
            }
        }
}

/// What a list of targets can be.
pub open spec fn valid(lists: Seq<&DecodeTargetInfoList>) -> bool {
    forall|i: int| 0 <= i < lists.len() ==> (#[trigger] lists[i])@.len() <= usize::MAX
}

spec fn filter_of(
    heights: Option<&[VideoHeight]>,
    lists: Seq<&DecodeTargetInfoList>,
) -> spec_fn(int, int) -> bool {
    allocation_model::filter(
        allocation_model::heights_of(heights),
        allocation_model::contents(lists),
    )
}

/// Lists whose lengths fit are valid.
pub(crate) proof fn lemma_valid(lists: Seq<&DecodeTargetInfoList>)
    requires
        allocation_model::lists_fit(allocation_model::contents(lists)),
    ensures
        valid(lists),
{
    assert forall|i: int| 0 <= i < lists.len() implies (#[trigger] lists[i])@.len()
        <= usize::MAX by {
        assert(allocation_model::contents(lists)[i].len() <= usize::MAX);
    }
}

proof fn lemma_grantable(
    heights: Option<&[VideoHeight]>,
    lists: Seq<&DecodeTargetInfoList>,
    i: int,
    t: int,
)
    requires
        0 <= i < lists.len(),
    ensures
        allocation_model::offers(
            filter_of(heights, lists),
            allocation_model::contents(lists),
            i,
            t,
        ) <==> grantable(heights, lists, i, t),
{
}

proof fn lemma_cost_is_sum(
    lists: Seq<&DecodeTargetInfoList>,
    selected: Seq<Option<DecodeTarget>>,
    k: int,
)
    requires
        0 <= k <= lists.len(),
    ensures
        allocation_model::cost_of_first(allocation_model::contents(lists), selected, k) == sum(
            rates(lists, selected).take(k),
        ),
    decreases k,
{
    if k > 0 {
        lemma_cost_is_sum(lists, selected, k - 1);
        assert(rates(lists, selected).take(k).drop_last() =~= rates(lists, selected).take(k - 1));
    }
}

proof fn lemma_total_is_sum(
    lists: Seq<&DecodeTargetInfoList>,
    selected: Seq<Option<DecodeTarget>>,
)
    requires
        selected.len() == lists.len(),
    ensures
        allocation_model::total_cost(allocation_model::contents(lists), selected) == sum(
            rates(lists, selected),
        ),
{
    lemma_cost_is_sum(lists, selected, lists.len() as int);
    assert(rates(lists, selected).take(lists.len() as int) =~= rates(lists, selected));
}

proof fn lemma_first_that_does_not_fit(
    budget: nat,
    ok: spec_fn(int, int) -> bool,
    lists: Seq<Seq<DecodeTargetInfo>>,
    from: int,
) -> (k: int)
    requires
        0 <= from <= lists.len(),
        allocation_model::cost_of_first(lists, allocation_model::wanted_base(ok, lists), from)
            <= budget,
    ensures
        from <= k <= lists.len(),
        allocation_model::cost_of_first(lists, allocation_model::wanted_base(ok, lists), k)
            <= budget,
        k < lists.len() ==> allocation_model::wanted_base(ok, lists)[k] is Some
            && allocation_model::cost_of_first(
            lists,
            allocation_model::wanted_base(ok, lists),
            k + 1,
        ) > budget,
    decreases lists.len() - from,
{
    let wanted = allocation_model::wanted_base(ok, lists);
    if from < lists.len() && allocation_model::cost_of_first(lists, wanted, from + 1) <= budget {
        lemma_first_that_does_not_fit(budget, ok, lists, from + 1)
    } else {
        from
    }
}

/// The base layers that are granted are those of the senders up to the first whose base layer does
/// not fit.
proof fn lemma_base_end(
    budget: nat,
    heights: Option<&[VideoHeight]>,
    lists: Seq<&DecodeTargetInfoList>,
) -> (k: int)
    ensures
        base_ends_at(budget, heights, lists, k),
        allocation_model::granted_base(
            budget,
            filter_of(heights, lists),
            allocation_model::contents(lists),
        ) == base_of_first(heights, lists, k),
        allocation_model::base_succeeds(
            budget,
            filter_of(heights, lists),
            allocation_model::contents(lists),
        ) <==> k == lists.len() || 0 < budget == sum(
            rates(lists, base_of_first(heights, lists, k)),
        ),
{
    let ok = filter_of(heights, lists);
    let all = allocation_model::contents(lists);
    let n = lists.len() as int;
    let wanted = allocation_model::wanted_base(ok, all);
    let granted = allocation_model::granted_base(budget, ok, all);
    let k = lemma_first_that_does_not_fit(budget, ok, all, 0);
    assert forall|i: int| 0 <= i < n implies (#[trigger] wanted[i] is Some <==> grantable(
        heights,
        lists,
        i,
        0,
    )) by {
        lemma_grantable(heights, lists, i, 0);
    }
    assert forall|j: int|
        0 <= j < k && wanted[j] is Some implies !#[trigger] allocation_model::used_up(
        budget,
        ok,
        all,
        j,
    ) by {
        assert(grantable(heights, lists, j, 0));
        allocation_model::lemma_cost_grows(all, wanted, j + 1, k);
    }
    assert forall|j: int|
        k <= j < n && wanted[j] is Some implies allocation_model::cost_of_first(all, wanted, j + 1)
        > budget || #[trigger] allocation_model::used_up(budget, ok, all, j) by {
        allocation_model::lemma_cost_grows(all, wanted, k + 1, j + 1);
    }
    allocation_model::lemma_granted_base(budget, ok, all, k);
    let base = base_of_first(heights, lists, k);
    assert(granted =~= base);
    lemma_total_is_sum(lists, base);
    if k < n {
        let more = base_of_first(heights, lists, k + 1);
        lemma_total_is_sum(lists, more);
        allocation_model::lemma_cost_agrees(all, more, wanted, k + 1);
        allocation_model::lemma_cost_of_none(all, more, k + 1, n);
        allocation_model::lemma_cost_grows(all, wanted, k + 1, n);
    }
    if exists|i: int| 0 <= i < all.len() && #[trigger] granted[i] is Some {
        let i = choose|i: int| 0 <= i < all.len() && #[trigger] granted[i] is Some;
        assert(wanted[i] is Some);
        assert(grantable(heights, lists, i, 0));
        allocation_model::lemma_cost_grows(all, granted, i + 1, n);
    } else {
        assert(forall|i: int| 0 <= i < n ==> granted[i] is None);
        allocation_model::lemma_cost_of_none(all, granted, 0, n);
    }
    k
}

proof fn lemma_tier_exists(lists: Seq<&DecodeTargetInfoList>, tier: nat, k: int)
    requires
        0 <= k <= lists.len(),
    ensures
        tier < allocation_model::most_targets(allocation_model::contents(lists), k) <==> exists|
            i: int,
        |
            0 <= i < k && tier < (#[trigger] lists[i])@.len(),
    decreases k,
{
    let all = allocation_model::contents(lists);
    if k > 0 {
        lemma_tier_exists(lists, tier, k - 1);
        if tier < allocation_model::most_targets(all, k) {
            if tier < allocation_model::most_targets(all, k - 1) {
                let i = choose|i: int| 0 <= i < k - 1 && tier < (#[trigger] lists[i])@.len();
                assert(0 <= i < k && tier < lists[i]@.len());
            } else {
                assert(tier < lists[k - 1]@.len());
            }
        }
        if exists|i: int| 0 <= i < k && tier < (#[trigger] lists[i])@.len() {
            let i = choose|i: int| 0 <= i < k && tier < (#[trigger] lists[i])@.len();
            if i < k - 1 {
                assert(0 <= i < k - 1 && tier < lists[i]@.len());
            }
        }
    }
}

proof fn lemma_is_tier(
    heights: Option<&[VideoHeight]>,
    lists: Seq<&DecodeTargetInfoList>,
    base: Seq<Option<DecodeTarget>>,
    tier: nat,
    selected: Seq<Option<DecodeTarget>>,
)
    requires
        tier <= usize::MAX,
    ensures
        is_tier(heights, lists, base, tier as int, selected) <==> selected
            == allocation_model::at_tier(
            filter_of(heights, lists),
            allocation_model::contents(lists),
            base,
            tier,
        ),
{
    let ok = filter_of(heights, lists);
    let all = allocation_model::contents(lists);
    let there = allocation_model::at_tier(ok, all, base, tier);
    assert forall|i: int| 0 <= i < lists.len() implies {
        ||| #[trigger] there[i] == base[i] && forall|u: int|
            1 <= u <= tier ==> !#[trigger] grantable(heights, lists, i, u)
        ||| there[i] is Some && 1 <= there[i]->0 <= tier && grantable(
            heights,
            lists,
            i,
            there[i]->0 as int,
        ) && forall|u: int|
            there[i]->0 < u <= tier ==> !#[trigger] grantable(heights, lists, i, u)
    } by {
        law_best_of_tier(ok, all, base, i, tier);
        assert forall|u: int| #[trigger] allocation_model::offers(ok, all, i, u) <==> grantable(
            heights,
            lists,
            i,
            u,
        ) by {
            lemma_grantable(heights, lists, i, u);
        }
        assert forall|u: int| #[trigger] grantable(heights, lists, i, u) implies
            allocation_model::offers(ok, all, i, u) by {
            lemma_grantable(heights, lists, i, u);
        }
    }
    assert(is_tier(heights, lists, base, tier as int, there));
    if is_tier(heights, lists, base, tier as int, selected) {
        assert forall|i: int| 0 <= i < lists.len() implies selected[i] == there[i] by {
            assert(selected[i] is Some ==> grantable(heights, lists, i, selected[i]->0 as int)
                || selected[i] == base[i]);
            assert(there[i] is Some ==> grantable(heights, lists, i, there[i]->0 as int)
                || there[i] == base[i]);
        }
        assert(selected =~= there);
    }
}

/// What the default allocator yields is how the budget is to be split.
proof fn lemma_is_split(
    budget: nat,
    heights: Option<&[VideoHeight]>,
    lists: Seq<&DecodeTargetInfoList>,
)
    requires
        valid(lists),
    ensures
        ({
            let outcome = allocation_model::greedy(
                budget,
                allocation_model::heights_of(heights),
                allocation_model::contents(lists),
            );
            &&& is_split(budget, heights, lists, outcome.selected)
            &&& outcome.selected.len() == lists.len()
            &&& outcome.rate == sum(rates(lists, outcome.selected))
        }),
{
    let ok = filter_of(heights, lists);
    let all = allocation_model::contents(lists);
    let n = lists.len() as int;
    let selected = allocation_model::split(budget, ok, all).selected;
    let k = lemma_base_end(budget, heights, lists);
    let base = base_of_first(heights, lists, k);
    let tiers = allocation_model::tiers(all);
    assert(allocation_model::lists_fit(all)) by {
        assert forall|i: int| 0 <= i < all.len() implies (#[trigger] all[i]).len() <= usize::MAX by {
            assert(lists[i]@.len() <= usize::MAX);
        }
    }
    lemma_tiers_fit(all, n);
    if allocation_model::base_succeeds(budget, ok, all) {
        let top = allocation_model::top_tier(budget, ok, all, base, tiers, 0);
        law_top_tier(budget, ok, all, base, tiers, 0);
        lemma_is_tier(heights, lists, base, top, selected);
        lemma_tier_exists(lists, top, n);
        lemma_tier_exists(lists, top + 1, n);
        assert forall|tier: int| 1 <= tier <= top implies #[trigger] tier_within(
            budget,
            heights,
            lists,
            base,
            tier,
        ) by {
            let there = allocation_model::at_tier(ok, all, base, tier as nat);
            lemma_is_tier(heights, lists, base, tier as nat, there);
            lemma_total_is_sum(lists, there);
        }
        let next = top as int + 1;
        if tier_exists(lists, next) {
            assert forall|s: Seq<Option<DecodeTarget>>| #[trigger]
                is_tier(heights, lists, base, next, s) implies sum(rates(lists, s)) > budget by {
                lemma_is_tier(heights, lists, base, top + 1, s);
                lemma_total_is_sum(lists, s);
            }
        }
        assert(is_climb(budget, heights, lists, base, top as int, selected));
    }
    lemma_total_is_sum(lists, selected);
}

/// There is one way to split a budget.
pub proof fn law_one_split(
    budget: nat,
    heights: Option<&[VideoHeight]>,
    lists: Seq<&DecodeTargetInfoList>,
    a: Seq<Option<DecodeTarget>>,
    b: Seq<Option<DecodeTarget>>,
)
    requires
        valid(lists),
        is_split(budget, heights, lists, a),
        is_split(budget, heights, lists, b),
    ensures
        a == b,
{
    lemma_only_split(budget, heights, lists, a);
    lemma_only_split(budget, heights, lists, b);
}

proof fn lemma_base_sums_grow(
    heights: Option<&[VideoHeight]>,
    lists: Seq<&DecodeTargetInfoList>,
    j: int,
    k: int,
)
    requires
        0 <= j <= k <= lists.len(),
    ensures
        sum(rates(lists, base_of_first(heights, lists, j))) <= sum(
            rates(lists, base_of_first(heights, lists, k)),
        ),
{
    let all = allocation_model::contents(lists);
    let n = lists.len() as int;
    let a = base_of_first(heights, lists, j);
    let b = base_of_first(heights, lists, k);
    lemma_total_is_sum(lists, a);
    lemma_total_is_sum(lists, b);
    allocation_model::lemma_cost_of_none(all, a, j, n);
    allocation_model::lemma_cost_agrees(all, a, b, j);
    allocation_model::lemma_cost_grows(all, b, j, n);
}

proof fn lemma_only_split(
    budget: nat,
    heights: Option<&[VideoHeight]>,
    lists: Seq<&DecodeTargetInfoList>,
    selected: Seq<Option<DecodeTarget>>,
)
    requires
        valid(lists),
        is_split(budget, heights, lists, selected),
    ensures
        selected == allocation_model::greedy(
            budget,
            allocation_model::heights_of(heights),
            allocation_model::contents(lists),
        ).selected,
{
    let ok = filter_of(heights, lists);
    let all = allocation_model::contents(lists);
    let n = lists.len() as int;
    let j = lemma_base_end(budget, heights, lists);
    let k = choose|k: int| #[trigger]
        base_ends_at(budget, heights, lists, k) && {
            let base = base_of_first(heights, lists, k);
            if k == lists.len() || 0 < budget == sum(rates(lists, base)) {
                exists|top: int| #[trigger] is_climb(budget, heights, lists, base, top, selected)
            } else {
                selected == base
            }
        };
    if j < k {
        lemma_base_sums_grow(heights, lists, j + 1, k);
    } else if k < j {
        lemma_base_sums_grow(heights, lists, k + 1, j);
    }
    let base = base_of_first(heights, lists, k);
    let tiers = allocation_model::tiers(all);
    assert forall|i: int| 0 <= i < all.len() implies (#[trigger] all[i]).len() <= usize::MAX by {
        assert(lists[i]@.len() <= usize::MAX);
    }
    lemma_tiers_fit(all, n);
    if allocation_model::base_succeeds(budget, ok, all) {
        let model_top = allocation_model::top_tier(budget, ok, all, base, tiers, 0);
        let top = choose|top: int| #[trigger]
            is_climb(budget, heights, lists, base, top, selected);
        law_top_tier(budget, ok, all, base, tiers, 0);
        lemma_tier_exists(lists, top as nat, n);
        lemma_tier_exists(lists, (top + 1) as nat, n);
        lemma_tier_exists(lists, model_top, n);
        lemma_tier_exists(lists, model_top + 1, n);
        if top < model_top {
            let next = (top + 1) as nat;
            let there = allocation_model::at_tier(ok, all, base, next);
            lemma_is_tier(heights, lists, base, next, there);
            lemma_total_is_sum(lists, there);
            assert(tier_within(budget, heights, lists, base, top + 1));
        }
        if model_top < top {
            let next = model_top + 1;
            assert(tier_within(budget, heights, lists, base, next as int));
            let there = choose|s: Seq<Option<DecodeTarget>>| #[trigger]
                is_tier(heights, lists, base, next as int, s) && sum(rates(lists, s)) <= budget;
            lemma_is_tier(heights, lists, base, next, there);
            lemma_total_is_sum(lists, there);
        }
        lemma_is_tier(heights, lists, base, model_top, selected);
    }
}

/// What an allocation is to yield: a refusal exactly if heights are given, but not one for each
/// sender; and otherwise the one split of the budget, and the rate that its targets take together.
pub open spec fn is_allocation(
    budget: nat,
    heights: Option<&[VideoHeight]>,
    lists: Seq<&DecodeTargetInfoList>,
    result: Result<AllocationResult, AllocationError>,
) -> bool {
    match result {
        Ok(granted) => {
            &&& heights matches Some(heights) ==> heights@.len() == lists.len()
            &&& granted.selected_decode_targets@.len() == lists.len()
            &&& is_split(budget, heights, lists, granted.selected_decode_targets@)
            &&& granted.allocated_rate.bps == sum(
                rates(lists, granted.selected_decode_targets@),
            )
        },
        Err(_) => heights matches Some(heights) && heights@.len() != lists.len(),
    }
}

/// `DefaultAllocator` splits the budget as it is to be split. Its ideal allocation is the split of
/// the largest rate there is.
pub proof fn law_default_allocator_splits(
    allocator: DefaultAllocator,
    budget: nat,
    heights: Option<&[VideoHeight]>,
    lists: Seq<&DecodeTargetInfoList>,
    result: Result<AllocationResult, AllocationError>,
)
    requires
        valid(lists),
    ensures
        allocator.may_allocate(
            budget,
            allocation_model::heights_of(heights),
            allocation_model::contents(lists),
            allocator::outcome_of(result),
        ) ==> is_allocation(budget, heights, lists, result),
        allocator.may_be_ideal(
            allocation_model::heights_of(heights),
            allocation_model::contents(lists),
            allocator::outcome_of(result),
        ) ==> is_allocation(u64::MAX as nat, heights, lists, result),
{
    lemma_is_split(budget, heights, lists);
    lemma_is_split(u64::MAX as nat, heights, lists);
}

/// `BlastAllocator` splits the largest rate there is, whatever the budget.
pub proof fn law_blast_allocator_splits(
    allocator: BlastAllocator,
    budget: nat,
    heights: Option<&[VideoHeight]>,
    lists: Seq<&DecodeTargetInfoList>,
    result: Result<AllocationResult, AllocationError>,
)
    requires
        valid(lists),
    ensures
        allocator.may_allocate(
            budget,
            allocation_model::heights_of(heights),
            allocation_model::contents(lists),
            allocator::outcome_of(result),
        ) ==> is_allocation(u64::MAX as nat, heights, lists, result),
        allocator.may_be_ideal(
            allocation_model::heights_of(heights),
            allocation_model::contents(lists),
            allocator::outcome_of(result),
        ) ==> is_allocation(u64::MAX as nat, heights, lists, result),
{
    lemma_is_split(u64::MAX as nat, heights, lists);
}

/// Nobody is granted a picture that is higher than the height that was given for this sender, nor
/// a target that this sender does not offer or that carries no data; and what is allocated is
/// within the budget.
pub proof fn law_limits_are_kept(
    allocator: DefaultAllocator,
    budget: nat,
    heights: Option<&[VideoHeight]>,
    lists: Seq<&DecodeTargetInfoList>,
    granted: AllocationResult,
    i: int,
)
    requires
        valid(lists),
        allocator.may_allocate(
            budget,
            allocation_model::heights_of(heights),
            allocation_model::contents(lists),
            allocator::outcome_of(Ok(granted)),
        ),
        0 <= i < lists.len(),
    ensures
        granted.allocated_rate.bps <= budget,
        granted.selected_decode_targets@[i] matches Some(t) ==> {
            &&& t < lists[i]@.len()
            &&& lists[i]@[t as int].rate.bps > 0
            &&& heights matches Some(heights) ==> lists[i]@[t as int].resolution.height
                <= heights@[i].pixels
        },
{
    let hs = allocation_model::heights_of(heights);
    let all = allocation_model::contents(lists);
    law_default_allocator_splits(allocator, budget, heights, lists, Ok(granted));
    law_within_budget(budget, filter_of(heights, lists), all);
    assert forall|j: int| 0 <= j < all.len() implies (#[trigger] all[j]).len() <= usize::MAX by {
        assert(lists[j]@.len() <= usize::MAX);
    }
    law_selected_targets_are_eligible(budget, filter_of(heights, lists), all);
    let selected = granted.selected_decode_targets@;
    assert(selected == allocation_model::greedy(budget, hs, all).selected);
    assert(selected[i] matches Some(t) ==> allocation_model::offers(
        filter_of(heights, lists),
        all,
        i,
        t as int,
    ));
    lemma_grantable(heights, lists, i, selected[i]->0 as int);
}

proof fn lemma_first_rates(lists: Seq<&DecodeTargetInfoList>, k: int)
    requires
        0 <= k <= lists.len(),
    ensures
        allocation_model::first_targets_cost(allocation_model::contents(lists), k) == sum(
            first_rates(lists).take(k),
        ),
    decreases k,
{
    if k > 0 {
        lemma_first_rates(lists, k - 1);
        assert(first_rates(lists).take(k).drop_last() =~= first_rates(lists).take(k - 1));
    }
}

pub(crate) proof fn lemma_base_rate(lists: Seq<&DecodeTargetInfoList>)
    ensures
        allocation_model::base_rate(allocation_model::contents(lists)) == sum(first_rates(lists)),
{
    lemma_first_rates(lists, lists.len() as int);
    assert(first_rates(lists).take(lists.len() as int) =~= first_rates(lists));
}

/// The base rate is what the first targets of the senders take together.
pub proof fn law_base_rate(
    allocator: DefaultAllocator,
    blast: BlastAllocator,
    lists: Seq<&DecodeTargetInfoList>,
    rate: nat,
)
    ensures
        allocator.may_be_base_rate(allocation_model::contents(lists), rate) <==> rate == sum(
            first_rates(lists),
        ),
        blast.may_be_base_rate(allocation_model::contents(lists), rate) <==> rate == sum(
            first_rates(lists),
        ),
        allocator.base_rate_exists(allocation_model::contents(lists)) <==> sum(first_rates(lists))
            <= u64::MAX,
        blast.base_rate_exists(allocation_model::contents(lists)) <==> sum(first_rates(lists))
            <= u64::MAX,
{
    lemma_base_rate(lists);
}

/// The base rate of a sender is the rate of its first target, or nothing if it has none; and the
/// base rates of two groups of senders add up.
pub proof fn law_base_rates_add_up(
    allocator: DefaultAllocator,
    list: &DecodeTargetInfoList,
    a: Seq<&DecodeTargetInfoList>,
    b: Seq<&DecodeTargetInfoList>,
    rate: nat,
    rate_a: nat,
    rate_b: nat,
)
    requires
        allocator.may_be_base_rate(allocation_model::contents(a), rate_a),
        allocator.may_be_base_rate(allocation_model::contents(b), rate_b),
    ensures
        allocator.may_be_base_rate(allocation_model::contents(seq![list]), rate) <==> rate
            == if list@.len() > 0 {
            list@[0].rate.bps as nat
        } else {
            0
        },
        allocator.may_be_base_rate(allocation_model::contents(a + b), rate) <==> rate == rate_a
            + rate_b,
{
    lemma_base_rate(a);
    lemma_base_rate(b);
    lemma_base_rate(a + b);
    lemma_base_rate(seq![list]);
    reveal_with_fuel(sum, 2);
    assert(first_rates(seq![list]).drop_last() =~= Seq::<nat>::empty());
    assert(first_rates(a + b) =~= first_rates(a) + first_rates(b));
    lemma_sum_adds(first_rates(a), first_rates(b));
}

proof fn lemma_sum_adds(a: Seq<nat>, b: Seq<nat>)
    ensures
        sum(a + b) == sum(a) + sum(b),
    decreases b.len(),
{
    if b.len() == 0 {
        assert(a + b =~= a);
    } else {
        lemma_sum_adds(a, b.drop_last());
        assert((a + b).drop_last() =~= a + b.drop_last());
    }
}

/// Base layers go to earlier senders first: where some sender is left with its base layer, no
/// earlier one that can be granted a base layer is left with nothing.
pub proof fn law_base_layers_in_order(
    budget: nat,
    heights: Option<&[VideoHeight]>,
    lists: Seq<&DecodeTargetInfoList>,
    selected: Seq<Option<DecodeTarget>>,
    i: int,
    j: int,
)
    requires
        is_split(budget, heights, lists, selected),
        0 <= i < j < lists.len(),
        grantable(heights, lists, i, 0),
        selected[j] == Some(0usize),
    ensures
        selected[i] is Some,
{
    let k = choose|k: int| #[trigger]
        base_ends_at(budget, heights, lists, k) && {
            let base = base_of_first(heights, lists, k);
            if k == lists.len() || 0 < budget == sum(rates(lists, base)) {
                exists|top: int| #[trigger] is_climb(budget, heights, lists, base, top, selected)
            } else {
                selected == base
            }
        };
    let base = base_of_first(heights, lists, k);
    assert(base[j] == Some(0usize));
    assert(base[i] is Some);
}

/// The budget of a strategy whose ideal rate is `ideal`: what draining the queue leaves of the
/// target rate, or the guaranteed rate if that is more, and in any case not more than the ideal
/// rate.
pub open spec fn strategy_budget(strategy: &BasicAllocationStrategy<'_>, ideal: int) -> int {
    vstd::math::min(
        ideal,
        vstd::math::max(
            strategy.target_rate.bps - strategy.outgoing_queue_drain_rate.bps,
            strategy.guaranteed_rate.bps as int,
        ),
    )
}

/// Whatever the allocator: a strategy hands it its budget, and reports what it yields. What it
/// refuses counts as nothing.
pub proof fn law_strategy_reports<A: Allocator + ?Sized>(
    strategy: &BasicAllocationStrategy<'_>,
    allocator: &A,
    result: BasicAllocationStrategyResult,
)
    requires
        strategy.may_result(allocator, result),
    ensures
        exists|
            ideal: Result<Allocation, AllocationError>,
            granted: Result<Allocation, AllocationError>,
        |
            {
                &&& #[trigger] allocator.may_be_ideal(
                    None,
                    allocation_model::contents(strategy.decode_target_lists@),
                    ideal,
                )
                &&& #[trigger] allocator.may_allocate(
                    strategy_budget(strategy, result.ideal_send_rate.bps as int) as nat,
                    None,
                    allocation_model::contents(strategy.decode_target_lists@),
                    granted,
                )
                &&& match ideal {
                    Ok(ideal) => result.ideal_send_rate.bps == ideal.rate,
                    Err(_) => result.ideal_send_rate.bps == 0,
                }
                &&& match granted {
                    Ok(granted) => result.allocated_rate.bps == granted.rate
                        && result.selected_decode_targets@ == granted.selected,
                    Err(_) => result.allocated_rate.bps == 0
                        && result.selected_decode_targets@.len() == 0,
                }
            },
        allocator.may_be_base_rate(
            allocation_model::contents(strategy.decode_target_lists@),
            result.requested_base_rate.bps as nat,
        ),
{
    let lists = allocation_model::contents(strategy.decode_target_lists@);
    let (ideal, granted) = choose|
        ideal: Result<Allocation, AllocationError>,
        granted: Result<Allocation, AllocationError>,
    | #![trigger allocation_strategy::or_empty(ideal), allocation_strategy::or_empty(granted)]
        {
            &&& allocator.may_be_ideal(None, lists, ideal)
            &&& allocator.may_allocate(
                strategy.budget(allocation_strategy::or_empty(ideal).rate),
                None,
                lists,
                granted,
            )
            &&& result.ideal_send_rate@ == allocation_strategy::or_empty(ideal).rate
            &&& result.allocation() == allocation_strategy::or_empty(granted)
        };
    assert(strategy.budget(result.ideal_send_rate@) == strategy_budget(
        strategy,
        result.ideal_send_rate.bps as int,
    ));
    assert(allocator.may_be_ideal(None, lists, ideal));
    assert(allocator.may_allocate(
        strategy_budget(strategy, result.ideal_send_rate.bps as int) as nat,
        None,
        lists,
        granted,
    ));
}

/// With the default allocator, a strategy splits its budget over its senders, in their order: the
/// `i`-th selected target is one of the `i`-th sender. The ideal rate is what the split of the
/// largest rate there is takes, and the base rate is what the first targets take.
pub proof fn law_strategy_splits(
    strategy: &BasicAllocationStrategy<'_>,
    allocator: &DefaultAllocator,
    result: BasicAllocationStrategyResult,
)
    requires
        strategy.may_result(allocator, result),
        valid(strategy.decode_target_lists@),
    ensures
        ({
            let lists = strategy.decode_target_lists@;
            let selected = result.selected_decode_targets@;
            &&& exists|ideal: Seq<Option<DecodeTarget>>| #[trigger]
                is_split(u64::MAX as nat, None, lists, ideal) && result.ideal_send_rate.bps == sum(
                    rates(lists, ideal),
                )
            &&& is_split(
                strategy_budget(strategy, result.ideal_send_rate.bps as int) as nat,
                None,
                lists,
                selected,
            )
            &&& selected.len() == lists.len()
            &&& forall|i: int|
                0 <= i < lists.len() ==> (#[trigger] selected[i] matches Some(t) ==> t
                    < lists[i]@.len() && lists[i]@[t as int].rate.bps > 0)
            &&& result.allocated_rate.bps == sum(rates(lists, selected))
            &&& result.allocated_rate.bps <= strategy_budget(
                strategy,
                result.ideal_send_rate.bps as int,
            )
            &&& result.requested_base_rate.bps == sum(first_rates(lists))
        }),
{
    let raw = strategy.decode_target_lists@;
    let lists = allocation_model::contents(raw);
    let none = None::<&[VideoHeight]>;
    let budget = strategy_budget(strategy, result.ideal_send_rate.bps as int) as nat;
    law_strategy_reports(strategy, allocator, result);
    lemma_is_split(u64::MAX as nat, none, raw);
    lemma_is_split(budget, none, raw);
    lemma_base_rate(raw);
    law_within_budget(budget, filter_of(none, raw), lists);
    assert forall|j: int| 0 <= j < lists.len() implies (#[trigger] lists[j]).len()
        <= usize::MAX by {
        assert(raw[j]@.len() <= usize::MAX);
    }
    law_selected_targets_are_eligible(budget, filter_of(none, raw), lists);
    let selected = result.selected_decode_targets@;
    assert forall|i: int| 0 <= i < raw.len() implies (#[trigger] selected[i] matches Some(t) ==> t
        < raw[i]@.len() && raw[i]@[t as int].rate.bps > 0) by {
        assert(selected[i] matches Some(t) ==> allocation_model::offers(
            filter_of(none, raw),
            lists,
            i,
            t as int,
        ));
        lemma_grantable(none, raw, i, selected[i]->0 as int);
    }
}

} // verus!
