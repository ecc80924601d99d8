//! The mathematical model of a frame tracker.

use crate::frame_model::FrameState;
use crate::frame_tracker::{FrameTrackerError, PacketInfo};
use crate::media::FullFrameNumber;
use vstd::prelude::*;

verus! {

/// The most frames that are in flight at a time. Frames overlap little and have to be processed
/// quickly, so this can be low.
pub const MAX_FRAMES_IN_FLIGHT: usize = 10;

/// What a frame tracker knows.
#[verifier::ext_equal]
pub struct TrackerState {
    /// The most complete frames that are remembered.
    pub max_complete_frames: nat,
    /// The numbers of the complete frames that are remembered, in ascending order.
    pub complete: Seq<FullFrameNumber>,
    /// The same numbers, in the order in which the frames became complete.
    pub order: Seq<FullFrameNumber>,
    /// The frames in flight, by their numbers.
    pub in_flight: Map<FullFrameNumber, FrameState>,
    /// When the next cleanup is due.
    pub next_prune_time: nat,
    pub prune_period: nat,
    pub frame_lifetime: nat,
}

/// What a packet does to a tracker.
#[verifier::ext_equal]
pub struct TrackerStep {
    pub tracker: TrackerState,
    pub result: Result<(), FrameTrackerError>,
}

/// The numbers are in ascending order.
pub open spec fn ascending(numbers: Seq<FullFrameNumber>) -> bool {
    forall|i: int, j: int| 0 <= i <= j < numbers.len() ==> numbers[i] <= numbers[j]
}

/// The place behind the last of the `numbers` that is smaller than `number`.
pub open spec fn rank(numbers: Seq<FullFrameNumber>, number: FullFrameNumber) -> int
    decreases numbers.len(),
{
    if numbers.len() == 0 || numbers.last() < number {
        numbers.len() as int
    } else {
        rank(numbers.drop_last(), number)
    }
}

/// The numbers, which are in ascending order, with one more.
pub open spec fn with(numbers: Seq<FullFrameNumber>, number: FullFrameNumber) -> Seq<
    FullFrameNumber,
> {
    numbers.insert(rank(numbers, number), number)
}

/// The numbers, which are in ascending order, without one that is among them.
pub open spec fn without(numbers: Seq<FullFrameNumber>, number: FullFrameNumber) -> Seq<
    FullFrameNumber,
> {
    numbers.remove(rank(numbers, number))
}

/// The order in which frames became complete once one more has. The list is kept first in, first
/// out: where that would be one too many, the first one is forgotten.
pub open spec fn enqueue(
    max_complete_frames: nat,
    order: Seq<FullFrameNumber>,
    number: FullFrameNumber,
) -> Seq<FullFrameNumber> {
    if max_complete_frames == 0 {
        order
    } else if order.len() >= max_complete_frames {
        order.drop_first().push(number)
    } else {
        order.push(number)
    }
}

/// Of all frames in flight, `n` expires first. Of several that do, it has the smallest number.
pub open spec fn is_oldest(
    in_flight: Map<FullFrameNumber, FrameState>,
    n: FullFrameNumber,
) -> bool {
    &&& in_flight.contains_key(n)
    &&& forall|m: FullFrameNumber| #[trigger]
        in_flight.contains_key(m) ==> in_flight[n].expires_at < in_flight[m].expires_at || (
        in_flight[n].expires_at == in_flight[m].expires_at && n <= m)
}

/// The frame in flight that gives way where there is no room for another.
pub open spec fn oldest(in_flight: Map<FullFrameNumber, FrameState>) -> FullFrameNumber {
    choose|n: FullFrameNumber| is_oldest(in_flight, n)
}

/// The frames in flight once there is room for frame `n`: where there are as many others as there
/// may be, the oldest of them has given way.
pub open spec fn with_room_for(
    in_flight: Map<FullFrameNumber, FrameState>,
    n: FullFrameNumber,
) -> Map<FullFrameNumber, FrameState> {
    if in_flight.contains_key(n) || in_flight.len() < MAX_FRAMES_IN_FLIGHT {
        in_flight
    } else {
        in_flight.remove(oldest(in_flight))
    }
}

impl TrackerState {
    /// A tracker that has seen nothing.
    pub open spec fn empty(
        max_complete_frames: nat,
        prune_period: nat,
        frame_lifetime: nat,
        now: nat,
    ) -> TrackerState {
        TrackerState {
            max_complete_frames,
            complete: Seq::empty(),
            order: Seq::empty(),
            in_flight: Map::empty(),
            next_prune_time: now + prune_period,
            prune_period,
            frame_lifetime,
        }
    }

    /// What holds of the complete frames: there are not too many, and they are the same in both
    /// orders.
    pub open spec fn remembers_well(self) -> bool {
        &&& ascending(self.complete)
        &&& self.complete.to_multiset() == self.order.to_multiset()
        &&& self.order.len() <= self.max_complete_frames
    }

    /// What holds of every tracker, besides: there are not too many frames in flight, and each
    /// is tracked under its own number and not complete.
    pub open spec fn wf(self) -> bool {
        &&& self.remembers_well()
        &&& self.in_flight.dom().finite()
        &&& self.in_flight.len() <= MAX_FRAMES_IN_FLIGHT
        &&& forall|n: FullFrameNumber| #[trigger]
            self.in_flight.contains_key(n) ==> {
                &&& self.in_flight[n].frame_number == n
                &&& self.in_flight[n].wf()
                &&& !self.in_flight[n].is_complete()
            }
    }

    /// The state of frame `n`, which starts at `now` unless it is in flight already.
    pub open spec fn frame_at(self, n: FullFrameNumber, now: nat) -> FrameState {
        if self.in_flight.contains_key(n) {
            self.in_flight[n]
        } else {
            FrameState::fresh(n, now + self.frame_lifetime)
        }
    }

    /// One more complete frame. Where that would be one too many, the one that became complete
    /// first is forgotten.
    pub open spec fn remember(self, number: FullFrameNumber) -> TrackerState {
        if self.max_complete_frames == 0 {
            self
        } else {
            let kept = if self.order.len() >= self.max_complete_frames {
                without(self.complete, self.order[0])
            } else {
                self.complete
            };
            TrackerState {
                complete: with(kept, number),
                order: enqueue(self.max_complete_frames, self.order, number),
                ..self
            }
        }
    }

    /// What `packet`, arriving at `now`, does to the tracker. Its frame is then remembered as
    /// complete, or is in flight, or is dropped if its gaps have become too many. No other frame
    /// is affected, but for one case: where the frame comes into flight and there are as many
    /// others as there may be, the one that expires first gives way.
    pub open spec fn update(self, now: nat, packet: PacketInfo) -> TrackerStep {
        let n = packet.frame_number;
        let step = self.frame_at(n, now).step(packet);
        let tracker = match step.result {
            Ok(()) => if step.frame.is_complete() {
                TrackerState { in_flight: self.in_flight.remove(n), ..self.remember(n) }
            } else {
                TrackerState {
                    in_flight: with_room_for(self.in_flight, n).insert(n, step.frame),
                    ..self
                }
            },
            Err(FrameTrackerError::TooManyMissingPacketRanges(_)) => TrackerState {
                in_flight: self.in_flight.remove(n),
                ..self
            },
            Err(_) => self,
        };
        TrackerStep { tracker, result: step.result }
    }

    /// What a cleanup at `now` does: nothing unless it is due, and otherwise it drops the
    /// frames in flight that have expired.
    pub open spec fn cleanup(self, now: nat) -> TrackerState {
        if now >= self.next_prune_time {
            TrackerState {
                next_prune_time: now + self.prune_period,
                in_flight: self.in_flight.restrict(
                    Set::new(|n: FullFrameNumber| self.in_flight[n].expires_at > now),
                ),
                ..self
            }
        } else {
            self
        }
    }
}

/// The rank of a number splits the numbers into smaller ones and others.
pub(crate) proof fn lemma_rank(numbers: Seq<FullFrameNumber>, number: FullFrameNumber)
    requires
        ascending(numbers),
    ensures
        0 <= rank(numbers, number) <= numbers.len(),
        forall|i: int| 0 <= i < rank(numbers, number) ==> #[trigger] numbers[i] < number,
        forall|i: int|
            rank(numbers, number) <= i < numbers.len() ==> #[trigger] numbers[i] >= number,
    decreases numbers.len(),
{
    if numbers.len() > 0 && numbers.last() >= number {
        let init = numbers.drop_last();
        lemma_rank(init, number);
        assert(forall|i: int| 0 <= i < init.len() ==> init[i] == numbers[i]);
    }
}

/// A number that is in the list is found at its rank.
pub(crate) proof fn lemma_rank_finds(numbers: Seq<FullFrameNumber>, number: FullFrameNumber)
    requires
        ascending(numbers),
    ensures
        numbers.contains(number) <==> rank(numbers, number) < numbers.len() && numbers[rank(
            numbers,
            number,
        )] == number,
{
    lemma_rank(numbers, number);
    if numbers.contains(number) {
        let i = choose|i: int| 0 <= i < numbers.len() && numbers[i] == number;
        assert(numbers[rank(numbers, number)] <= numbers[i]);
    }
}

/// There is one oldest frame.
pub(crate) proof fn lemma_one_oldest(
    in_flight: Map<FullFrameNumber, FrameState>,
    n: FullFrameNumber,
)
    requires
        is_oldest(in_flight, n),
    ensures
        oldest(in_flight) == n,
{
    assert(is_oldest(in_flight, oldest(in_flight)));
}

/// Among some frames there is an oldest one.
pub(crate) proof fn lemma_oldest_exists(in_flight: Map<FullFrameNumber, FrameState>)
    requires
        in_flight.dom().finite(),
        in_flight.len() > 0,
    ensures
        is_oldest(in_flight, oldest(in_flight)),
    decreases in_flight.len(),
{
    let k = in_flight.dom().choose();
    let rest = in_flight.remove(k);
    if rest.len() > 0 {
        lemma_oldest_exists(rest);
        let m = oldest(rest);
        let n = if in_flight[m].expires_at < in_flight[k].expires_at || (in_flight[m].expires_at
            == in_flight[k].expires_at && m <= k) {
            m
        } else {
            k
        };
        assert forall|o: FullFrameNumber| #[trigger] in_flight.contains_key(o) implies
            in_flight[n].expires_at < in_flight[o].expires_at || (in_flight[n].expires_at
            == in_flight[o].expires_at && n <= o) by {
            if o != k {
                assert(rest.contains_key(o));
            }
        }
        assert(is_oldest(in_flight, n));
    } else {
        assert forall|o: FullFrameNumber| #[trigger] in_flight.contains_key(o) implies o == k by {
            if o != k {
                assert(rest.contains_key(o));
                assert(rest.dom().contains(o));
            }
        }
        assert(is_oldest(in_flight, k));
    }
}

} // verus!
