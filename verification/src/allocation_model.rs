//! The mathematical model of splitting a bandwidth budget over senders.
//!
//! `lists` holds the decode targets of each sender, `heights`, if any, the largest picture
//! height that is wanted of each sender.

use crate::media::{DecodeTarget, DecodeTargetInfo, DecodeTargetInfoList, VideoHeight};
use vstd::prelude::*;

verus! {

/// Which decode target each sender is granted, if any, and what that takes in all.
#[verifier::ext_equal]
pub struct Allocation {
    pub rate: nat,
    pub selected: Seq<Option<DecodeTarget>>,
}

/// The contents of a slice of lists.
pub open spec fn contents(lists: Seq<&DecodeTargetInfoList>) -> Seq<Seq<DecodeTargetInfo>> {
    Seq::new(lists.len(), |i: int| lists[i]@)
}

/// No sender has more decode targets than a list can hold.
pub open spec fn lists_fit(lists: Seq<Seq<DecodeTargetInfo>>) -> bool {
    forall|i: int| 0 <= i < lists.len() ==> (#[trigger] lists[i]).len() <= usize::MAX
}

/// The contents of an optional slice.
pub open spec fn heights_of(heights: Option<&[VideoHeight]>) -> Option<Seq<VideoHeight>> {
    match heights {
        Some(heights) => Some(heights@),
        None => None,
    }
}

/// A decode target of sender `i` can be granted if it carries data and its picture is not
/// higher than is wanted.
pub open spec fn eligible(
    heights: Option<Seq<VideoHeight>>,
    i: int,
    info: DecodeTargetInfo,
) -> bool {
    &&& info.rate@ > 0
    &&& heights matches Some(heights) ==> info.resolution.height <= heights[i].pixels
}

/// What the heights leave eligible: a target `t` of a sender `i`.
pub open spec fn filter(
    heights: Option<Seq<VideoHeight>>,
    lists: Seq<Seq<DecodeTargetInfo>>,
) -> spec_fn(int, int) -> bool {
    |t: int, i: int| eligible(heights, i, lists[i][t])
}

/// Sender `i` has an eligible target `t`.
pub open spec fn offers(
    ok: spec_fn(int, int) -> bool,
    lists: Seq<Seq<DecodeTargetInfo>>,
    i: int,
    t: int,
) -> bool {
    0 <= t < lists[i].len() && ok(t, i)
}

/// Each choice is an eligible target of its sender.
pub open spec fn all_offered(
    ok: spec_fn(int, int) -> bool,
    lists: Seq<Seq<DecodeTargetInfo>>,
    selected: Seq<Option<DecodeTarget>>,
) -> bool {
    forall|i: int|
        #![trigger selected[i]]
        0 <= i < selected.len() ==> (selected[i] matches Some(t) ==> offers(
            ok,
            lists,
            i,
            t as int,
        ))
}

/// Each choice is a target of its sender.
pub open spec fn in_bounds(
    lists: Seq<Seq<DecodeTargetInfo>>,
    selected: Seq<Option<DecodeTarget>>,
) -> bool {
    forall|i: int|
        #![trigger selected[i]]
        0 <= i < selected.len() ==> (selected[i] matches Some(t) ==> t < lists[i].len())
}

/// What target `choice` of sender `i` takes.
pub open spec fn cost(
    lists: Seq<Seq<DecodeTargetInfo>>,
    i: int,
    choice: Option<DecodeTarget>,
) -> nat {
    match choice {
        Some(t) => lists[i][t as int].rate@,
        None => 0,
    }
}

/// What the choices for the first `k` senders take together.
pub open spec fn cost_of_first(
    lists: Seq<Seq<DecodeTargetInfo>>,
    selected: Seq<Option<DecodeTarget>>,
    k: int,
) -> nat
    decreases k,
{
    if k <= 0 {
        0
    } else {
        cost_of_first(lists, selected, k - 1) + cost(lists, k - 1, selected[k - 1])
    }
}

/// What the choices take together.
pub open spec fn total_cost(
    lists: Seq<Seq<DecodeTargetInfo>>,
    selected: Seq<Option<DecodeTarget>>,
) -> nat {
    cost_of_first(lists, selected, selected.len() as int)
}

/// The base layer of each sender that can be granted its base layer.
pub open spec fn wanted_base(
    ok: spec_fn(int, int) -> bool,
    lists: Seq<Seq<DecodeTargetInfo>>,
) -> Seq<Option<DecodeTarget>> {
    Seq::new(
        lists.len(),
        |i: int|
            if offers(ok, lists, i, 0) {
                Some(0)
            } else {
                None
            },
    )
}

/// The base layers before that of sender `i` use the budget up.
pub open spec fn used_up(
    budget: nat,
    ok: spec_fn(int, int) -> bool,
    lists: Seq<Seq<DecodeTargetInfo>>,
    i: int,
) -> bool {
    let wanted = wanted_base(ok, lists);
    cost_of_first(lists, wanted, i) >= budget && exists|j: int|
        0 <= j < i && #[trigger] wanted[j] is Some
}

/// The base layers that are granted: in the order of the senders, as far as the budget goes.
pub open spec fn granted_base(
    budget: nat,
    ok: spec_fn(int, int) -> bool,
    lists: Seq<Seq<DecodeTargetInfo>>,
) -> Seq<Option<DecodeTarget>> {
    let wanted = wanted_base(ok, lists);
    Seq::new(
        lists.len(),
        |i: int|
            if cost_of_first(lists, wanted, i + 1) <= budget && !used_up(budget, ok, lists, i) {
                wanted[i]
            } else {
                None
            },
    )
}

/// The upper layers are considered if all base layers fit the budget, or if those that are granted
/// use it up.
pub open spec fn base_succeeds(
    budget: nat,
    ok: spec_fn(int, int) -> bool,
    lists: Seq<Seq<DecodeTargetInfo>>,
) -> bool {
    ||| total_cost(lists, wanted_base(ok, lists)) <= budget
    ||| total_cost(lists, granted_base(budget, ok, lists)) == budget && exists|i: int|
        0 <= i < lists.len() && #[trigger] granted_base(budget, ok, lists)[i] is Some
}

/// The best eligible target of sender `i` among those from 1 to `tier`, or else what it had before.
pub open spec fn best(
    ok: spec_fn(int, int) -> bool,
    lists: Seq<Seq<DecodeTargetInfo>>,
    base: Seq<Option<DecodeTarget>>,
    i: int,
    tier: nat,
) -> Option<DecodeTarget>
    decreases tier,
{
    if tier == 0 {
        base[i]
    } else if offers(ok, lists, i, tier as int) {
        Some(tier as usize)
    } else {
        best(ok, lists, base, i, (tier - 1) as nat)
    }
}

/// What each sender gets at a tier.
pub open spec fn at_tier(
    ok: spec_fn(int, int) -> bool,
    lists: Seq<Seq<DecodeTargetInfo>>,
    base: Seq<Option<DecodeTarget>>,
    tier: nat,
) -> Seq<Option<DecodeTarget>> {
    Seq::new(lists.len(), |i: int| best(ok, lists, base, i, tier))
}

/// The largest number of targets that one of the first `k` senders has.
pub open spec fn most_targets(lists: Seq<Seq<DecodeTargetInfo>>, k: int) -> nat
    decreases k,
{
    if k <= 0 {
        0
    } else if lists[k - 1].len() > most_targets(lists, k - 1) {
        lists[k - 1].len()
    } else {
        most_targets(lists, k - 1)
    }
}

/// The number of tiers.
pub open spec fn tiers(lists: Seq<Seq<DecodeTargetInfo>>) -> nat {
    most_targets(lists, lists.len() as int)
}

/// The tier that is reached from `tier` by going up for as long as the next tier fits the budget
/// and is below `limit`.
pub open spec fn top_tier(
    budget: nat,
    ok: spec_fn(int, int) -> bool,
    lists: Seq<Seq<DecodeTargetInfo>>,
    base: Seq<Option<DecodeTarget>>,
    limit: nat,
    tier: nat,
) -> nat
    decreases limit - tier,
{
    if tier + 1 < limit && total_cost(lists, at_tier(ok, lists, base, tier + 1))
        <= budget {
        top_tier(budget, ok, lists, base, limit, tier + 1)
    } else {
        tier
    }
}

/// How the budget is split over eligible targets: base layers first, in the order of the senders;
/// where that succeeds, all senders then go up together, tier by tier, for as long as the whole
/// tier fits.
pub open spec fn split(
    budget: nat,
    ok: spec_fn(int, int) -> bool,
    lists: Seq<Seq<DecodeTargetInfo>>,
) -> Allocation {
    let base = granted_base(budget, ok, lists);
    let selected = if base_succeeds(budget, ok, lists) {
        at_tier(ok, lists, base, top_tier(budget, ok, lists, base, tiers(lists), 0))
    } else {
        base
    };
    Allocation { rate: total_cost(lists, selected), selected }
}

/// How the budget is split over the targets that the heights leave eligible.
pub open spec fn greedy(
    budget: nat,
    heights: Option<Seq<VideoHeight>>,
    lists: Seq<Seq<DecodeTargetInfo>>,
) -> Allocation {
    split(budget, filter(heights, lists), lists)
}

/// What the first target of each of the first `k` senders takes, eligible or not.
pub open spec fn first_targets_cost(lists: Seq<Seq<DecodeTargetInfo>>, k: int) -> nat
    decreases k,
{
    if k <= 0 {
        0
    } else {
        first_targets_cost(lists, k - 1) + if lists[k - 1].len() > 0 {
            lists[k - 1][0].rate@
        } else {
            0
        }
    }
}

/// What the first targets of all senders take together.
pub open spec fn base_rate(lists: Seq<Seq<DecodeTargetInfo>>) -> nat {
    first_targets_cost(lists, lists.len() as int)
}

/// The cost of the first senders grows with their number.
pub(crate) proof fn lemma_cost_grows(
    lists: Seq<Seq<DecodeTargetInfo>>,
    selected: Seq<Option<DecodeTarget>>,
    j: int,
    k: int,
)
    requires
        0 <= j <= k,
    ensures
        cost_of_first(lists, selected, j) <= cost_of_first(lists, selected, k),
    decreases k,
{
    if j < k {
        lemma_cost_grows(lists, selected, j, k - 1);
    }
}

/// The cost of the first targets grows with the number of senders.
pub(crate) proof fn lemma_first_targets_cost_grows(
    lists: Seq<Seq<DecodeTargetInfo>>,
    j: int,
    k: int,
)
    requires
        0 <= j <= k,
    ensures
        first_targets_cost(lists, j) <= first_targets_cost(lists, k),
    decreases k,
{
    if j < k {
        lemma_first_targets_cost_grows(lists, j, k - 1);
    }
}

/// Choices that agree for the first `k` senders cost the same for those.
pub(crate) proof fn lemma_cost_agrees(
    lists: Seq<Seq<DecodeTargetInfo>>,
    a: Seq<Option<DecodeTarget>>,
    b: Seq<Option<DecodeTarget>>,
    k: int,
)
    requires
        0 <= k,
        forall|i: int| 0 <= i < k ==> a[i] == b[i],
    ensures
        cost_of_first(lists, a, k) == cost_of_first(lists, b, k),
    decreases k,
{
    if k > 0 {
        lemma_cost_agrees(lists, a, b, k - 1);
    }
}

/// Senders that are granted nothing cost nothing.
pub(crate) proof fn lemma_cost_of_none(
    lists: Seq<Seq<DecodeTargetInfo>>,
    selected: Seq<Option<DecodeTarget>>,
    j: int,
    k: int,
)
    requires
        0 <= j <= k,
        forall|i: int| j <= i < k ==> selected[i] is None,
    ensures
        cost_of_first(lists, selected, k) == cost_of_first(lists, selected, j),
    decreases k,
{
    if j < k {
        lemma_cost_of_none(lists, selected, j, k - 1);
    }
}

/// Each sender has at most as many targets as there are tiers.
pub(crate) proof fn lemma_most_targets(lists: Seq<Seq<DecodeTargetInfo>>, i: int, k: int)
    requires
        0 <= i < k,
    ensures
        lists[i].len() <= most_targets(lists, k),
    decreases k,
{
    if i < k - 1 {
        lemma_most_targets(lists, i, k - 1);
    }
}

/// What the base layers grant is known once it is known how far the budget goes: to all senders
/// before `i`, and to no base layer from there on.
pub(crate) proof fn lemma_granted_base(
    budget: nat,
    ok: spec_fn(int, int) -> bool,
    lists: Seq<Seq<DecodeTargetInfo>>,
    i: int,
)
    requires
        0 <= i <= lists.len(),
        cost_of_first(lists, wanted_base(ok, lists), i) <= budget,
        forall|j: int|
            0 <= j < i && wanted_base(ok, lists)[j] is Some ==> !#[trigger] used_up(
                budget,
                ok,
                lists,
                j,
            ),
        forall|j: int|
            i <= j < lists.len() && wanted_base(ok, lists)[j] is Some ==> cost_of_first(
                lists,
                wanted_base(ok, lists),
                j + 1,
            ) > budget || #[trigger] used_up(budget, ok, lists, j),
    ensures
        granted_base(budget, ok, lists) == Seq::new(
            lists.len(),
            |j: int|
                if j < i {
                    wanted_base(ok, lists)[j]
                } else {
                    None
                },
        ),
        total_cost(lists, granted_base(budget, ok, lists)) == cost_of_first(
            lists,
            wanted_base(ok, lists),
            i,
        ),
{
    let wanted = wanted_base(ok, lists);
    let granted = granted_base(budget, ok, lists);
    assert forall|j: int| 0 <= j < lists.len() implies granted[j] == if j < i {
        wanted[j]
    } else {
        None
    } by {
        if j < i {
            lemma_cost_grows(lists, wanted, j + 1, i);
        }
        assert(used_up(budget, ok, lists, j) || !used_up(budget, ok, lists, j));
    }
    lemma_cost_of_none(lists, granted, i, lists.len() as int);
    lemma_cost_agrees(lists, granted, wanted, i);
}

/// What a tier grants a sender is a target of the sender, if what it had before is.
pub(crate) proof fn lemma_best_in_bounds(
    ok: spec_fn(int, int) -> bool,
    lists: Seq<Seq<DecodeTargetInfo>>,
    base: Seq<Option<DecodeTarget>>,
    i: int,
    tier: nat,
)
    requires
        base[i] matches Some(t) ==> t < lists[i].len(),
        tier <= usize::MAX,
    ensures
        best(ok, lists, base, i, tier) matches Some(t) ==> t < lists[i].len(),
    decreases tier,
{
    if tier > 0 {
        lemma_best_in_bounds(ok, lists, base, i, (tier - 1) as nat);
    }
}

/// What a tier grants a sender is eligible, if what it had before is.
pub(crate) proof fn lemma_best_offered(
    ok: spec_fn(int, int) -> bool,
    lists: Seq<Seq<DecodeTargetInfo>>,
    base: Seq<Option<DecodeTarget>>,
    i: int,
    tier: nat,
)
    requires
        base[i] matches Some(t) ==> offers(ok, lists, i, t as int),
        tier <= usize::MAX,
    ensures
        best(ok, lists, base, i, tier) matches Some(t) ==> offers(ok, lists, i, t as int),
    decreases tier,
{
    if tier > 0 {
        lemma_best_offered(ok, lists, base, i, (tier - 1) as nat);
    }
}

} // verus!
