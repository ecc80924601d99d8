//! An allocator that can be asked at certain intervals only.

use crate::allocation_model::Allocation;
use crate::allocator::{AllocationError, AllocationResult, Allocator};
use crate::media::{DecodeTargetInfo, DecodeTargetInfoList, DemuxId, VideoHeight};
use crate::time::{Duration, Instant};
use crate::units::DataRate;
use vstd::prelude::*;

verus! {

/// When a throttled allocator can be asked.
#[verifier::ext_equal]
pub struct ThrottleState {
    /// How long after a release it stays closed.
    pub quiesce_period: nat,
    /// The end of the current pause, if there has been a release.
    pub next_allocation_time: Option<nat>,
    /// It has been acquired and not released since.
    pub acquired: bool,
}

impl ThrottleState {
    /// Whether an attempt to acquire it at `now` succeeds. By force it always does; otherwise it
    /// has to be free, and the pause after the last release has to be over.
    pub open spec fn grants(self, now: nat, force: bool) -> bool {
        force || (!self.acquired && (self.next_allocation_time matches Some(time) ==> time < now))
    }

    /// After an attempt to acquire it.
    pub open spec fn acquire(self, now: nat, force: bool) -> ThrottleState {
        ThrottleState { acquired: self.acquired || self.grants(now, force), ..self }
    }

    /// After a release.
    pub open spec fn release(self, now: nat) -> ThrottleState {
        ThrottleState {
            acquired: false,
            next_allocation_time: Some(now + self.quiesce_period),
            ..self
        }
    }
}

/// Wraps an allocator so that allocations are performed at certain intervals only: it has to be
/// acquired before it can be asked, and after its release it cannot be acquired for a while.
pub struct ThrottledAllocator<A: Allocator + ?Sized> {
    demux_id: DemuxId,
    allocator: Box<A>,
    quiesce_period: Duration,
    next_allocation_time: Option<Instant>,
    acquired: bool,
}

impl<A: Allocator + ?Sized> View for ThrottledAllocator<A> {
    type V = ThrottleState;

    closed spec fn view(&self) -> ThrottleState {
        ThrottleState {
            quiesce_period: self.quiesce_period@,
            next_allocation_time: match self.next_allocation_time {
                Some(time) => Some(time@),
                None => None,
            },
            acquired: self.acquired,
        }
    }
}

impl<A: Allocator + ?Sized> ThrottledAllocator<A> {
    /// Whom the allocations are for.
    pub closed spec fn owner(&self) -> DemuxId {
        self.demux_id
    }

    /// The allocator that is wrapped.
    pub closed spec fn wrapped(&self) -> &A {
        &*self.allocator
    }

    pub fn new(demux_id: DemuxId, allocator: Box<A>, quiesce_period: Duration) -> (res:
        ThrottledAllocator<A>)
        ensures
            res.owner() == demux_id,
            res.wrapped() == &*allocator,
            res@ == (ThrottleState {
                quiesce_period: quiesce_period@,
                next_allocation_time: None,
                acquired: false,
            }),
    {
        ThrottledAllocator {
            demux_id,
            allocator,
            quiesce_period,
            acquired: false,
            next_allocation_time: None,
        }
    }

    pub fn demux_id(&self) -> (demux_id: DemuxId)
        ensures
            demux_id == self.owner(),
    {
        self.demux_id
    }

    /// Whether the allocator has been acquired and not released since.
    pub fn is_acquired(&self) -> (acquired: bool)
        ensures
            acquired == self@.acquired,
    {
        self.acquired
    }

    /// Tries to acquire the allocator. With `force` this succeeds even where the allocator has
    /// been acquired already or the pause after its last release is not over.
    pub fn acquire(&mut self, now: Instant, force: bool) -> (acquired: bool)
        ensures
            acquired == old(self)@.grants(now@, force),
            acquired <==> force || (!old(self)@.acquired && (
            old(self)@.next_allocation_time matches Some(time) ==> now@ > time)),
            final(self)@ == old(self)@.acquire(now@, force),
            final(self)@.acquired == (acquired || old(self)@.acquired),
            final(self)@.quiesce_period == old(self)@.quiesce_period,
            final(self)@.next_allocation_time == old(self)@.next_allocation_time,
            final(self).owner() == old(self).owner(),
            final(self).wrapped() == old(self).wrapped(),
    {
        if self.acquired && !force {
            return false;
        }
        let pause_over: bool = match self.next_allocation_time {
            Some(time) => time.nanos < now.nanos,
            None => true,
        };
        self.acquired = pause_over || force;
        self.acquired
    }

    /// Releases the allocator, which has to have been acquired. The pause starts at `now`.
    pub fn release(&mut self, now: Instant)
        requires
            old(self)@.acquired,
            now@ + old(self)@.quiesce_period <= u128::MAX,
        ensures
            final(self)@ == old(self)@.release(now@),
            !final(self)@.acquired,
            final(self)@.quiesce_period == old(self)@.quiesce_period,
            final(self)@.next_allocation_time == Some(now@ + old(self)@.quiesce_period),
            final(self).owner() == old(self).owner(),
            final(self).wrapped() == old(self).wrapped(),
    {
        self.acquired = false;
        self.next_allocation_time = Some(now + self.quiesce_period);
    }
}

impl<A: Allocator + ?Sized> Allocator for ThrottledAllocator<A> {
    open spec fn ready(&self) -> bool {
        self@.acquired && self.wrapped().ready()
    }

    open spec fn may_allocate(
        &self,
        budget: nat,
        heights: Option<Seq<VideoHeight>>,
        lists: Seq<Seq<DecodeTargetInfo>>,
        outcome: Result<Allocation, AllocationError>,
    ) -> bool {
        self.wrapped().may_allocate(budget, heights, lists, outcome)
    }

    open spec fn may_be_ideal(
        &self,
        heights: Option<Seq<VideoHeight>>,
        lists: Seq<Seq<DecodeTargetInfo>>,
        outcome: Result<Allocation, AllocationError>,
    ) -> bool {
        self.wrapped().may_be_ideal(heights, lists, outcome)
    }

    open spec fn base_rate_exists(&self, lists: Seq<Seq<DecodeTargetInfo>>) -> bool {
        self.wrapped().base_rate_exists(lists)
    }

    open spec fn may_be_base_rate(&self, lists: Seq<Seq<DecodeTargetInfo>>, rate: nat) -> bool {
        self.wrapped().may_be_base_rate(lists, rate)
    }

    fn allocate(
        &self,
        rate_budget: DataRate,
        heights: Option<&[VideoHeight]>,
        decode_target_info_lists: &[&DecodeTargetInfoList],
    ) -> (result: Result<AllocationResult, AllocationError>) {
        self.allocator.allocate(rate_budget, heights, decode_target_info_lists)
    }

    fn calculate_ideal_send_rate(
        &self,
        heights: Option<&[VideoHeight]>,
        decode_target_info_lists: &[&DecodeTargetInfoList],
    ) -> (result: Result<AllocationResult, AllocationError>) {
        self.allocator.calculate_ideal_send_rate(heights, decode_target_info_lists)
    }

    fn calculate_base_rate(&self, decode_target_info_lists: &[&DecodeTargetInfoList]) -> (rate:
        DataRate) {
        self.allocator.calculate_base_rate(decode_target_info_lists)
    }
}

/// After a release at `released`, the allocator can be acquired without force as soon as the
/// pause is over, and not before.
pub proof fn law_pause_after_release(throttle: ThrottleState, released: nat, now: nat)
    ensures
        throttle.release(released).grants(now, false) <==> now > released
            + throttle.quiesce_period,
{
}

/// Once acquired, the allocator cannot be acquired again without force until it is released, and
/// a vain attempt changes nothing.
pub proof fn law_acquired_once(throttle: ThrottleState, now: nat, later: nat)
    requires
        throttle.grants(now, false),
    ensures
        !throttle.acquire(now, false).grants(later, false),
        throttle.acquire(now, false).acquire(later, false) == throttle.acquire(now, false),
{
}

/// An attempt that succeeds leaves the allocator acquired, and force always succeeds.
pub proof fn law_success_acquires(throttle: ThrottleState, now: nat, force: bool)
    ensures
        throttle.grants(now, force) ==> throttle.acquire(now, force).acquired,
        throttle.grants(now, true),
        !throttle.grants(now, force) ==> throttle.acquire(now, force) == throttle,
{
}

/// A call of a throttled allocator.
pub enum Call {
    Acquire { now: nat, force: bool },
    Release { now: nat },
}

/// The throttle after the calls, if it was `throttle` before.
pub open spec fn after_calls(throttle: ThrottleState, calls: Seq<Call>) -> ThrottleState
    decreases calls.len(),
{
    if calls.len() == 0 {
        throttle
    } else {
        let before = after_calls(throttle, calls.drop_last());
        match calls.last() {
            Call::Acquire { now, force } => before.acquire(now, force),
            Call::Release { now } => before.release(now),
        }
    }
}

/// When the last release was, if there was any.
pub open spec fn last_release(calls: Seq<Call>) -> Option<nat>
    decreases calls.len(),
{
    if calls.len() == 0 {
        None
    } else {
        match calls.last() {
            Call::Acquire { .. } => last_release(calls.drop_last()),
            Call::Release { now } => Some(now),
        }
    }
}

/// An attempt has succeeded since the last release. Without force it takes for that that none has
/// before, and that a pause of `quiesce_period` since the last release is over.
pub open spec fn held(quiesce_period: nat, calls: Seq<Call>) -> bool
    decreases calls.len(),
{
    if calls.len() == 0 {
        false
    } else {
        let before = calls.drop_last();
        match calls.last() {
            Call::Acquire { now, force } => force || held(quiesce_period, before) || (last_release(
                before,
            ) matches Some(released) ==> now > released + quiesce_period),
            Call::Release { .. } => false,
        }
    }
}

/// Whatever has been called on a new allocator: an attempt to acquire it succeeds exactly if it is
/// by force, or if none has succeeded since the last release and the pause that was asked for when
/// the allocator was made is over since then.
pub proof fn law_pause_after_every_release(
    quiesce_period: nat,
    calls: Seq<Call>,
    now: nat,
    force: bool,
)
    ensures
        ({
            let throttle = after_calls(
                ThrottleState { quiesce_period, next_allocation_time: None, acquired: false },
                calls,
            );
            &&& throttle.acquired <==> held(quiesce_period, calls)
            &&& throttle.grants(now, force) <==> force || (!held(quiesce_period, calls) && (
            last_release(calls) matches Some(released) ==> now > released + quiesce_period))
        }),
{
    lemma_after_calls(quiesce_period, calls);
}

proof fn lemma_after_calls(quiesce_period: nat, calls: Seq<Call>)
    ensures
        ({
            let throttle = after_calls(
                ThrottleState { quiesce_period, next_allocation_time: None, acquired: false },
                calls,
            );
            &&& throttle.quiesce_period == quiesce_period
            &&& throttle.acquired <==> held(quiesce_period, calls)
            &&& throttle.next_allocation_time == match last_release(calls) {
                Some(released) => Some(released + quiesce_period),
                None => None,
            }
        }),
    decreases calls.len(),
{
    if calls.len() > 0 {
        lemma_after_calls(quiesce_period, calls.drop_last());
    }
}

/// After a release, whichever it is, nothing but force gets the allocator before the pause is over,
/// whatever has been called before and whatever attempts have been made since.
pub proof fn law_no_release_without_pause(
    quiesce_period: nat,
    before: Seq<Call>,
    released: nat,
    attempts: Seq<Call>,
    now: nat,
)
    requires
        forall|i: int| 0 <= i < attempts.len() ==> #[trigger] attempts[i] is Acquire,
    ensures
        after_calls(
            ThrottleState { quiesce_period, next_allocation_time: None, acquired: false },
            before.push(Call::Release { now: released }) + attempts,
        ).grants(now, false) ==> now > released + quiesce_period,
{
    let calls = before.push(Call::Release { now: released }) + attempts;
    law_pause_after_every_release(quiesce_period, calls, now, false);
    lemma_last_release(before, released, attempts);
}

proof fn lemma_last_release(before: Seq<Call>, released: nat, attempts: Seq<Call>)
    requires
        forall|i: int| 0 <= i < attempts.len() ==> #[trigger] attempts[i] is Acquire,
    ensures
        last_release(before.push(Call::Release { now: released }) + attempts) == Some(released),
    decreases attempts.len(),
{
    let start = before.push(Call::Release { now: released });
    if attempts.len() == 0 {
        assert(start + attempts =~= start);
    } else {
        let init = attempts.drop_last();
        assert forall|i: int| 0 <= i < init.len() implies #[trigger] init[i] is Acquire by {
            assert(init[i] == attempts[i]);
        }
        lemma_last_release(before, released, init);
        assert((start + attempts).drop_last() =~= start + init);
        assert((start + attempts).last() == attempts[attempts.len() - 1]);
    }
}

/// A throttled allocator answers what the one that it wraps answers to the same question, and can
/// be asked whenever that one can and it has been acquired.
pub proof fn law_throttled_asks_the_wrapped_one<A: Allocator + ?Sized>(
    throttled: &ThrottledAllocator<A>,
    budget: nat,
    heights: Option<Seq<VideoHeight>>,
    lists: Seq<Seq<DecodeTargetInfo>>,
    outcome: Result<Allocation, AllocationError>,
    rate: nat,
)
    ensures
        throttled.ready() <==> throttled@.acquired && throttled.wrapped().ready(),
        throttled.may_allocate(budget, heights, lists, outcome)
            <==> throttled.wrapped().may_allocate(budget, heights, lists, outcome),
        throttled.may_be_ideal(heights, lists, outcome) <==> throttled.wrapped().may_be_ideal(
            heights,
            lists,
            outcome,
        ),
        throttled.base_rate_exists(lists) <==> throttled.wrapped().base_rate_exists(lists),
        throttled.may_be_base_rate(lists, rate) <==> throttled.wrapped().may_be_base_rate(
            lists,
            rate,
        ),
{
}

} // verus!
