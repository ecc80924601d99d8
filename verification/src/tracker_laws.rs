//! What holds of a frame tracker whatever happens to it.

use crate::frame_laws;
use crate::frame_model::{FrameState, FrameStep, MAX_MISSING_SEQNUM_RANGES};
use crate::frame_tracker::{FrameTrackerError, PacketInfo};
use crate::media::FullFrameNumber;
use crate::tracker_model;
use crate::tracker_model::{TrackerState, TrackerStep, MAX_FRAMES_IN_FLIGHT};
use vstd::prelude::*;

verus! {

/// A frame is among the complete frames whichever of their two orders is looked at.
pub proof fn law_same_in_both_orders(tracker: TrackerState, n: FullFrameNumber)
    requires
        tracker.remembers_well(),
    ensures
        tracker.complete.contains(n) <==> tracker.order.contains(n),
        tracker.complete.len() == tracker.order.len(),
{
    vstd::seq_lib::to_multiset_contains(tracker.complete, n);
    vstd::seq_lib::to_multiset_contains(tracker.order, n);
    vstd::seq_lib::to_multiset_len(tracker.complete);
    vstd::seq_lib::to_multiset_len(tracker.order);
}

proof fn lemma_with(numbers: Seq<FullFrameNumber>, number: FullFrameNumber)
    requires
        tracker_model::ascending(numbers),
    ensures
        tracker_model::ascending(tracker_model::with(numbers, number)),
        tracker_model::with(numbers, number).to_multiset() == numbers.to_multiset().insert(number),
{
    tracker_model::lemma_rank(numbers, number);
    vstd::seq_lib::to_multiset_insert(numbers, tracker_model::rank(numbers, number), number);
}

pub(crate) proof fn lemma_without(numbers: Seq<FullFrameNumber>, number: FullFrameNumber)
    requires
        tracker_model::ascending(numbers),
        numbers.contains(number),
    ensures
        tracker_model::ascending(tracker_model::without(numbers, number)),
        tracker_model::without(numbers, number).to_multiset() == numbers.to_multiset().remove(
            number,
        ),
{
    tracker_model::lemma_rank(numbers, number);
    tracker_model::lemma_rank_finds(numbers, number);
    vstd::seq_lib::to_multiset_remove(numbers, tracker_model::rank(numbers, number));
}

/// The complete frames stay within their limit and the same in both orders when one more is
/// remembered. The new one is among them, provided that there may be any, and none is that was
/// not before.
pub proof fn law_remember(tracker: TrackerState, number: FullFrameNumber)
    requires
        tracker.remembers_well(),
    ensures
        tracker.remember(number).remembers_well(),
        tracker.max_complete_frames > 0 ==> tracker.remember(number).complete.contains(number),
        forall|n: FullFrameNumber| #[trigger]
            tracker.remember(number).complete.contains(n) ==> n == number
                || tracker.complete.contains(n),
{
    let after = tracker.remember(number);
    if tracker.max_complete_frames > 0 {
        let order = tracker.order;
        let full = order.len() >= tracker.max_complete_frames;
        let kept = if full {
            tracker_model::without(tracker.complete, order[0])
        } else {
            tracker.complete
        };
        let kept_order = if full {
            order.drop_first()
        } else {
            order
        };
        if full {
            assert(order.contains(order[0]));
            law_same_in_both_orders(tracker, order[0]);
            lemma_without(tracker.complete, order[0]);
            assert(order.drop_first() =~= order.remove(0));
            vstd::seq_lib::to_multiset_remove(order, 0);
        }
        lemma_with(kept, number);
        vstd::seq_lib::to_multiset_build(kept_order, number);
        after.complete.to_multiset_ensures();
        tracker.complete.to_multiset_ensures();
        assert(after.complete.to_multiset().count(number) > 0);
        assert forall|n: FullFrameNumber| #[trigger] after.complete.contains(n) implies n == number
            || tracker.complete.contains(n) by {
            assert(after.complete.to_multiset().count(n) > 0);
            assert(n != number ==> tracker.complete.to_multiset().count(n) > 0);
        }
    }
}

/// The complete frames are kept first in, first out: one more goes behind all others, and where
/// there was no room left, the one that became complete first is forgotten.
pub proof fn law_first_in_first_out(tracker: TrackerState, number: FullFrameNumber)
    requires
        tracker.remembers_well(),
        tracker.max_complete_frames > 0,
    ensures
        tracker.remember(number).order == if tracker.order.len() < tracker.max_complete_frames {
            tracker.order.push(number)
        } else {
            tracker.order.drop_first().push(number)
        },
        forall|n: FullFrameNumber| #[trigger]
            tracker.remember(number).complete.contains(n) <==> tracker.remember(
                number,
            ).order.contains(n),
{
    law_remember(tracker, number);
    assert forall|n: FullFrameNumber| #[trigger]
        tracker.remember(number).complete.contains(n) <==> tracker.remember(number).order.contains(
            n,
        ) by {
        law_same_in_both_orders(tracker.remember(number), n);
    }
}

/// The tracker once the frames with these `numbers` have become complete, one after the other.
pub open spec fn remember_all(tracker: TrackerState, numbers: Seq<FullFrameNumber>) -> TrackerState
    decreases numbers.len(),
{
    if numbers.len() == 0 {
        tracker
    } else {
        remember_all(tracker, numbers.drop_last()).remember(numbers.last())
    }
}

/// The last of the numbers, at most `count` of them.
pub open spec fn newest(count: nat, numbers: Seq<FullFrameNumber>) -> Seq<FullFrameNumber> {
    if numbers.len() <= count {
        numbers
    } else {
        numbers.skip(numbers.len() - count)
    }
}

/// The frames that are reported as complete are the ones that became complete last, as many as
/// there may be, in whatever order their numbers are.
pub proof fn law_newest_are_remembered(
    max_complete_frames: nat,
    prune_period: nat,
    frame_lifetime: nat,
    start: nat,
    numbers: Seq<FullFrameNumber>,
)
    ensures
        ({
            let tracker = remember_all(
                TrackerState::empty(max_complete_frames, prune_period, frame_lifetime, start),
                numbers,
            );
            &&& tracker.order == newest(max_complete_frames, numbers)
            &&& forall|n: FullFrameNumber| #[trigger]
                tracker.complete.contains(n) <==> newest(max_complete_frames, numbers).contains(n)
        }),
{
    let empty = TrackerState::empty(max_complete_frames, prune_period, frame_lifetime, start);
    let tracker = remember_all(empty, numbers);
    lemma_remember_all(max_complete_frames, prune_period, frame_lifetime, start, numbers);
    assert forall|n: FullFrameNumber| #[trigger] tracker.complete.contains(n) <==> newest(
        max_complete_frames,
        numbers,
    ).contains(n) by {
        law_same_in_both_orders(tracker, n);
    }
}

proof fn lemma_remember_all(
    max_complete_frames: nat,
    prune_period: nat,
    frame_lifetime: nat,
    start: nat,
    numbers: Seq<FullFrameNumber>,
)
    ensures
        ({
            let tracker = remember_all(
                TrackerState::empty(max_complete_frames, prune_period, frame_lifetime, start),
                numbers,
            );
            &&& tracker.remembers_well()
            &&& tracker.max_complete_frames == max_complete_frames
            &&& tracker.order == newest(max_complete_frames, numbers)
        }),
    decreases numbers.len(),
{
    if numbers.len() > 0 {
        let empty = TrackerState::empty(max_complete_frames, prune_period, frame_lifetime, start);
        let init = numbers.drop_last();
        lemma_remember_all(max_complete_frames, prune_period, frame_lifetime, start, init);
        law_remember(remember_all(empty, init), numbers.last());
        assert(remember_all(empty, numbers).order =~= newest(max_complete_frames, numbers));
    }
}

/// A tracker that has seen nothing is well-formed.
pub proof fn law_empty_wf(
    max_complete_frames: nat,
    prune_period: nat,
    frame_lifetime: nat,
    now: nat,
)
    ensures
        TrackerState::empty(max_complete_frames, prune_period, frame_lifetime, now).wf(),
{
}

/// A packet leaves the tracker well-formed, whether it is accepted or not. In particular, a
/// frame in flight is never complete.
pub proof fn law_update_keeps_wf(tracker: TrackerState, now: nat, packet: PacketInfo)
    requires
        tracker.wf(),
    ensures
        tracker.update(now, packet).tracker.wf(),
{
    let n = packet.frame_number;
    let frame = tracker.frame_at(n, now);
    let step = frame.step(packet);
    if step.result is Ok {
        frame_laws::law_step_keeps_wf(frame, packet);
        law_remember(tracker, n);
        lemma_room(tracker.in_flight, n);
    }
}

proof fn lemma_room(in_flight: Map<FullFrameNumber, FrameState>, n: FullFrameNumber)
    requires
        in_flight.dom().finite(),
        in_flight.len() <= tracker_model::MAX_FRAMES_IN_FLIGHT,
    ensures
        ({
            let room = tracker_model::with_room_for(in_flight, n);
            &&& room.dom().finite()
            &&& room.len() < tracker_model::MAX_FRAMES_IN_FLIGHT || in_flight.contains_key(n)
        }),
{
    if !in_flight.contains_key(n) && in_flight.len() >= tracker_model::MAX_FRAMES_IN_FLIGHT {
        tracker_model::lemma_oldest_exists(in_flight);
    }
}

/// A cleanup leaves the tracker well-formed.
pub proof fn law_cleanup_keeps_wf(tracker: TrackerState, now: nat)
    requires
        tracker.wf(),
    ensures
        tracker.cleanup(now).wf(),
{
    if now >= tracker.next_prune_time {
        vstd::set_lib::lemma_len_subset(
            tracker.cleanup(now).in_flight.dom(),
            tracker.in_flight.dom(),
        );
    }
}

/// A packet changes nothing about the other frames in flight, but for one that gives way to its
/// frame. None comes into flight.
pub proof fn law_update_leaves_other_frames(
    tracker: TrackerState,
    now: nat,
    packet: PacketInfo,
    n: FullFrameNumber,
)
    requires
        n != packet.frame_number,
    ensures
        ({
            let after = tracker.update(now, packet).tracker.in_flight;
            &&& after.contains_key(n) ==> tracker.in_flight.contains_key(n) && after[n]
                == tracker.in_flight[n]
            &&& tracker.in_flight.contains_key(n) && !after.contains_key(n) ==> n
                == tracker_model::oldest(tracker.in_flight)
                && !tracker.in_flight.contains_key(packet.frame_number) && after.contains_key(
                packet.frame_number,
            ) && tracker.in_flight.len() >= tracker_model::MAX_FRAMES_IN_FLIGHT
        }),
{
}

/// Where a frame comes into flight while there are as many others as there may be, the frame that
/// expires first gives way, and of several that do, the one with the smallest number. All others
/// stay.
pub proof fn law_oldest_gives_way(tracker: TrackerState, now: nat, packet: PacketInfo)
    requires
        tracker.wf(),
        tracker.in_flight.len() == tracker_model::MAX_FRAMES_IN_FLIGHT,
        !tracker.in_flight.contains_key(packet.frame_number),
        !(packet.start_frame_flag && packet.end_frame_flag),
    ensures
        ({
            let n = packet.frame_number;
            let gone = tracker_model::oldest(tracker.in_flight);
            let frame = FrameState::fresh(n, now + tracker.frame_lifetime).step(packet).frame;
            &&& tracker_model::is_oldest(tracker.in_flight, gone)
            &&& tracker.update(now, packet).result is Ok
            &&& tracker.update(now, packet).tracker == (TrackerState {
                in_flight: tracker.in_flight.remove(gone).insert(n, frame),
                ..tracker
            })
        }),
{
    tracker_model::lemma_oldest_exists(tracker.in_flight);
    frame_laws::law_first_packet_is_accepted(
        packet.frame_number,
        now + tracker.frame_lifetime,
        packet,
    );
}

/// A packet that is refused for a flag changes nothing at all; one that leaves too many gaps
/// makes the tracker give up its frame and changes nothing else.
pub proof fn law_refused_packet(tracker: TrackerState, now: nat, packet: PacketInfo)
    requires
        tracker.update(now, packet).result is Err,
    ensures
        tracker.update(now, packet).tracker == tracker || tracker.update(now, packet).tracker == (
        TrackerState { in_flight: tracker.in_flight.remove(packet.frame_number), ..tracker }),
        tracker.update(now, packet).tracker.complete == tracker.complete,
        tracker.in_flight.contains_key(packet.frame_number),
{
    frame_laws::law_first_packet_is_accepted(
        packet.frame_number,
        now + tracker.frame_lifetime,
        packet,
    );
}

/// The last packet that a frame was waiting for makes it complete: it is no longer in flight,
/// and it is reported as complete. Any other packet that is accepted leaves it in flight.
///
/// `packets` are the packets of the frame that have arrived before.
pub proof fn law_update_completes_iff_received(
    tracker: TrackerState,
    now: nat,
    packets: Seq<PacketInfo>,
    packet: PacketInfo,
)
    requires
        tracker.wf(),
        tracker.max_complete_frames > 0,
        frame_laws::feed(
            FrameState::fresh(
                packet.frame_number,
                tracker.frame_at(packet.frame_number, now).expires_at,
            ),
            packets,
        ) == (FrameStep { frame: tracker.frame_at(packet.frame_number, now), result: Ok(()) }),
        tracker.update(now, packet).result is Ok,
    ensures
        ({
            let all = packets.push(packet);
            let after = tracker.update(now, packet).tracker;
            if frame_laws::received_in_full(all) {
                after.complete.contains(packet.frame_number) && !after.in_flight.contains_key(
                    packet.frame_number,
                )
            } else {
                after.complete == tracker.complete && after.in_flight.contains_key(
                    packet.frame_number,
                )
            }
        }),
{
    let n = packet.frame_number;
    let frame = tracker.frame_at(n, now);
    let all = packets.push(packet);
    assert(all.drop_last() == packets);
    assert(all.last() == packet);
    frame_laws::law_complete_iff_received(n, frame.expires_at, all);
    law_remember(tracker, n);
}

/// A packet that has arrived before, without flags, changes nothing at all. `packets` are the
/// packets of its frame that have arrived since the frame came into flight.
pub proof fn law_update_ignores_repeat(
    tracker: TrackerState,
    now: nat,
    packets: Seq<PacketInfo>,
    packet: PacketInfo,
)
    requires
        tracker.wf(),
        tracker.in_flight.contains_key(packet.frame_number),
        frame_laws::feed(
            FrameState::fresh(
                packet.frame_number,
                tracker.in_flight[packet.frame_number].expires_at,
            ),
            packets,
        ) == (FrameStep { frame: tracker.in_flight[packet.frame_number], result: Ok(()) }),
        frame_laws::received(packets, packet.seqnum),
        !packet.start_frame_flag,
        !packet.end_frame_flag,
    ensures
        tracker.update(now, packet) == (TrackerStep { tracker, result: Ok(()) }),
{
    let n = packet.frame_number;
    let frame = tracker.in_flight[n];
    frame_laws::law_repeat_is_ignored(n, frame.expires_at, packets, packet);
    assert(tracker.in_flight.insert(n, frame) =~= tracker.in_flight);
}

/// A frame in flight expires a fixed time after its first packet, whatever arrives after that.
pub proof fn law_expiry_is_fixed(tracker: TrackerState, now: nat, packet: PacketInfo)
    requires
        tracker.update(now, packet).tracker.in_flight.contains_key(packet.frame_number),
    ensures
        tracker.update(now, packet).tracker.in_flight[packet.frame_number].expires_at
            == if tracker.in_flight.contains_key(packet.frame_number) {
            tracker.in_flight[packet.frame_number].expires_at
        } else {
            now + tracker.frame_lifetime
        },
{
}

/// A cleanup that is due purges exactly the frames in flight that have expired. It never touches
/// the complete frames, so a purged frame is not reported as complete on that account.
pub proof fn law_cleanup_purges_expired(tracker: TrackerState, now: nat, n: FullFrameNumber)
    ensures
        tracker.cleanup(now).complete == tracker.complete,
        now < tracker.next_prune_time ==> tracker.cleanup(now) == tracker,
        now >= tracker.next_prune_time ==> (tracker.cleanup(now).in_flight.contains_key(n)
            <==> tracker.in_flight.contains_key(n) && tracker.in_flight[n].expires_at > now),
        tracker.cleanup(now).in_flight.contains_key(n) ==> tracker.cleanup(now).in_flight[n]
            == tracker.in_flight[n],
        now >= tracker.next_prune_time ==> tracker.cleanup(now).next_prune_time == now
            + tracker.prune_period,
{
}

/// Something that happens to a tracker.
pub enum Event {
    /// A packet arrives.
    Packet { now: nat, packet: PacketInfo },
    /// A cleanup is asked for.
    Cleanup { now: nat },
}

/// The tracker once all `events` have happened.
pub open spec fn run(tracker: TrackerState, events: Seq<Event>) -> TrackerState
    decreases events.len(),
{
    if events.len() == 0 {
        tracker
    } else {
        let before = run(tracker, events.drop_last());
        match events.last() {
            Event::Packet { now, packet } => before.update(now, packet).tracker,
            Event::Cleanup { now } => before.cleanup(now),
        }
    }
}

/// The packets of frame `n` that were accepted.
pub open spec fn accepted(
    tracker: TrackerState,
    events: Seq<Event>,
    n: FullFrameNumber,
) -> Seq<PacketInfo>
    decreases events.len(),
{
    if events.len() == 0 {
        Seq::empty()
    } else {
        let before = accepted(tracker, events.drop_last(), n);
        match events.last() {
            Event::Packet { now, packet } => if packet.frame_number == n && run(
                tracker,
                events.drop_last(),
            ).update(now, packet).result is Ok {
                before.push(packet)
            } else {
                before
            },
            Event::Cleanup { .. } => before,
        }
    }
}

/// `frame` is what the packets from position `a` on have made of it.
pub open spec fn grew_from(
    frame: FrameState,
    n: FullFrameNumber,
    packets: Seq<PacketInfo>,
    a: int,
) -> bool {
    &&& 0 <= a <= packets.len()
    &&& frame_laws::feed(
        FrameState::fresh(n, frame.expires_at),
        packets.subrange(a, packets.len() as int),
    ) == (FrameStep { frame, result: Ok(()) })
}

/// The packets from position `a` up to `b` are a whole frame.
pub open spec fn whole_frame(packets: Seq<PacketInfo>, a: int, b: int) -> bool {
    &&& 0 <= a < b <= packets.len()
    &&& frame_laws::received_in_full(packets.subrange(a, b))
}

/// The frame of `packet` grew from the `packets` from position `a` on, and `packet` completes it
/// exactly if they are a whole frame together.
pub open spec fn completes_from(
    tracker: TrackerState,
    packets: Seq<PacketInfo>,
    a: int,
    now: nat,
    packet: PacketInfo,
) -> bool {
    let n = packet.frame_number;
    let all = packets.subrange(a, packets.len() as int).push(packet);
    let after = tracker.update(now, packet).tracker;
    &&& grew_from(tracker.frame_at(n, now), n, packets, a)
    &&& if frame_laws::received_in_full(all) {
        after.complete.contains(n) && !after.in_flight.contains_key(n)
    } else {
        after.complete == tracker.complete && after.in_flight.contains_key(n)
    }
}

/// Every frame in flight grew from packets that were accepted, and every complete frame was
/// received as a whole.
spec fn accounted_for(tracker: TrackerState, n: FullFrameNumber, packets: Seq<PacketInfo>) -> bool {
    &&& tracker.in_flight.contains_key(n) ==> exists|a: int|
        grew_from(tracker.in_flight[n], n, packets, a)
    &&& tracker.complete.contains(n) ==> exists|a: int, b: int| whole_frame(packets, a, b)
}

proof fn lemma_accounted_for(
    max_complete_frames: nat,
    prune_period: nat,
    frame_lifetime: nat,
    start: nat,
    events: Seq<Event>,
    n: FullFrameNumber,
)
    ensures
        ({
            let tracker = TrackerState::empty(
                max_complete_frames,
                prune_period,
                frame_lifetime,
                start,
            );
            run(tracker, events).wf() && accounted_for(
                run(tracker, events),
                n,
                accepted(tracker, events, n),
            )
        }),
    decreases events.len(),
{
    let tracker = TrackerState::empty(max_complete_frames, prune_period, frame_lifetime, start);
    if events.len() > 0 {
        let rest = events.drop_last();
        lemma_accounted_for(
            max_complete_frames,
            prune_period,
            frame_lifetime,
            start,
            rest,
            n,
        );
        let before = run(tracker, rest);
        let old_packets = accepted(tracker, rest, n);
        let packets = accepted(tracker, events, n);
        match events.last() {
            Event::Cleanup { now } => {
                law_cleanup_keeps_wf(before, now);
                law_cleanup_purges_expired(before, now, n);
            },
            Event::Packet { now, packet } => {
                law_update_keeps_wf(before, now, packet);
                law_remember(before, packet.frame_number);
                if packet.frame_number != n {
                    law_update_leaves_other_frames(before, now, packet, n);
                } else if before.update(now, packet).result is Ok {
                    let frame = before.frame_at(n, now);
                    let len = old_packets.len() as int;
                    let a = if before.in_flight.contains_key(n) {
                        choose|a: int| grew_from(before.in_flight[n], n, old_packets, a)
                    } else {
                        len
                    };
                    let grown = packets.subrange(a, len + 1);
                    assert(grew_from(frame, n, old_packets, a)) by {
                        assert(old_packets.subrange(len, len) == Seq::<PacketInfo>::empty());
                    }
                    assert(grown.drop_last() == old_packets.subrange(a, len));
                    assert(grown.last() == packet);
                    let next = frame.step(packet).frame;
                    assert(frame_laws::feed(FrameState::fresh(n, frame.expires_at), grown) == (
                    FrameStep { frame: next, result: Ok(()) }));
                    if next.is_complete() {
                        frame_laws::law_complete_iff_received(n, frame.expires_at, grown);
                        assert(whole_frame(packets, a, len + 1));
                    } else {
                        assert(grew_from(next, n, packets, a));
                        lemma_whole_frame_stays(old_packets, packet);
                    }
                }
            },
        }
    }
}

proof fn lemma_whole_frame_stays(packets: Seq<PacketInfo>, packet: PacketInfo)
    ensures
        (exists|a: int, b: int| whole_frame(packets, a, b)) ==> exists|a: int, b: int|
            whole_frame(packets.push(packet), a, b),
{
    if exists|a: int, b: int| whole_frame(packets, a, b) {
        let (a, b) = choose|a: int, b: int| whole_frame(packets, a, b);
        assert(packets.push(packet).subrange(a, b) == packets.subrange(a, b));
        assert(whole_frame(packets.push(packet), a, b));
    }
}

/// The tracker never reports a frame as complete by mistake. Whatever packets of whatever frames
/// have arrived, in whatever order, and whenever cleanups happened: if a frame is reported as
/// complete, then some stretch of its accepted packets has a first packet and a last packet and
/// misses nothing in between.
pub proof fn law_reported_frame_was_received(
    max_complete_frames: nat,
    prune_period: nat,
    frame_lifetime: nat,
    start: nat,
    events: Seq<Event>,
    n: FullFrameNumber,
)
    requires
        run(
            TrackerState::empty(max_complete_frames, prune_period, frame_lifetime, start),
            events,
        ).complete.contains(n),
    ensures
        exists|a: int, b: int| #[trigger]
            whole_frame(
                accepted(
                    TrackerState::empty(max_complete_frames, prune_period, frame_lifetime, start),
                    events,
                    n,
                ),
                a,
                b,
            ),
{
    lemma_accounted_for(max_complete_frames, prune_period, frame_lifetime, start, events, n);
}

/// A frame that is received in full is reported. Whatever has happened so far, let one more packet
/// be accepted: together with those packets of its frame that have been accepted since the frame
/// came into flight, it makes the frame complete exactly if they are a whole frame. The frame is
/// then reported as complete and no longer in flight; otherwise it stays in flight.
pub proof fn law_received_frame_is_reported(
    max_complete_frames: nat,
    prune_period: nat,
    frame_lifetime: nat,
    start: nat,
    events: Seq<Event>,
    now: nat,
    packet: PacketInfo,
)
    requires
        max_complete_frames > 0,
        run(
            TrackerState::empty(max_complete_frames, prune_period, frame_lifetime, start),
            events,
        ).update(now, packet).result is Ok,
    ensures
        exists|a: int|
            #![trigger completes_from(
                run(
                    TrackerState::empty(max_complete_frames, prune_period, frame_lifetime, start),
                    events,
                ),
                accepted(
                    TrackerState::empty(max_complete_frames, prune_period, frame_lifetime, start),
                    events,
                    packet.frame_number,
                ),
                a,
                now,
                packet,
            )]
            completes_from(
                run(
                    TrackerState::empty(max_complete_frames, prune_period, frame_lifetime, start),
                    events,
                ),
                accepted(
                    TrackerState::empty(max_complete_frames, prune_period, frame_lifetime, start),
                    events,
                    packet.frame_number,
                ),
                a,
                now,
                packet,
            ),
{
    let empty = TrackerState::empty(max_complete_frames, prune_period, frame_lifetime, start);
    let n = packet.frame_number;
    let tracker = run(empty, events);
    let packets = accepted(empty, events, n);
    let len = packets.len() as int;
    lemma_accounted_for(max_complete_frames, prune_period, frame_lifetime, start, events, n);
    lemma_limit_is_fixed(empty, events);
    let a = if tracker.in_flight.contains_key(n) {
        choose|a: int| grew_from(tracker.in_flight[n], n, packets, a)
    } else {
        len
    };
    assert(packets.subrange(len, len) == Seq::<PacketInfo>::empty());
    assert(grew_from(tracker.frame_at(n, now), n, packets, a));
    law_update_completes_iff_received(tracker, now, packets.subrange(a, len), packet);
    assert(completes_from(tracker, packets, a, now, packet));
}

proof fn lemma_limit_is_fixed(tracker: TrackerState, events: Seq<Event>)
    ensures
        run(tracker, events).max_complete_frames == tracker.max_complete_frames,
    decreases events.len(),
{
    if events.len() > 0 {
        lemma_limit_is_fixed(tracker, events.drop_last());
    }
}

/// Whatever happens to a tracker, it stays well-formed: neither the complete frames nor the frames
/// in flight are more than there may be, the complete frames are the same in both orders, and no
/// frame in flight is complete or has too many gaps.
pub proof fn law_always_wf(
    max_complete_frames: nat,
    prune_period: nat,
    frame_lifetime: nat,
    start: nat,
    events: Seq<Event>,
)
    ensures
        run(
            TrackerState::empty(max_complete_frames, prune_period, frame_lifetime, start),
            events,
        ).wf(),
{
    lemma_accounted_for(max_complete_frames, prune_period, frame_lifetime, start, events, 0);
}

/// A packet makes the tracker forget no complete frame while there is room, and otherwise none but
/// the one that became complete first.
pub proof fn law_update_keeps_complete_frames(
    tracker: TrackerState,
    now: nat,
    packet: PacketInfo,
    m: FullFrameNumber,
)
    requires
        tracker.wf(),
        tracker.complete.contains(m),
        tracker.order.len() < tracker.max_complete_frames || m != tracker.order[0],
    ensures
        tracker.update(now, packet).tracker.complete.contains(m),
{
    let after = tracker.update(now, packet).tracker;
    law_update_keeps_wf(tracker, now, packet);
    law_same_in_both_orders(tracker, m);
    law_same_in_both_orders(after, m);
    let i = choose|i: int| 0 <= i < tracker.order.len() && tracker.order[i] == m;
    if after.order != tracker.order {
        if tracker.order.len() < tracker.max_complete_frames {
            assert(after.order[i] == m);
        } else {
            assert(after.order[i - 1] == m);
        }
    }
}

/// The frame of a packet becomes complete with it: the packet is accepted, and the frame is not in
/// flight any more.
pub open spec fn becomes_complete(tracker: TrackerState, now: nat, packet: PacketInfo) -> bool {
    &&& tracker.update(now, packet).result is Ok
    &&& !tracker.update(now, packet).tracker.in_flight.contains_key(packet.frame_number)
}

/// A packet that makes its frame complete puts it behind all other complete frames, and where
/// there is no room left, the first one goes. Any other packet leaves the complete frames as they
/// are.
pub proof fn law_update_remembers(tracker: TrackerState, now: nat, packet: PacketInfo)
    requires
        tracker.wf(),
    ensures
        ({
            let after = tracker.update(now, packet).tracker;
            &&& after.order == if !becomes_complete(tracker, now, packet)
                || tracker.max_complete_frames == 0 {
                tracker.order
            } else if tracker.order.len() < tracker.max_complete_frames {
                tracker.order.push(packet.frame_number)
            } else {
                tracker.order.drop_first().push(packet.frame_number)
            }
            &&& forall|m: FullFrameNumber| #[trigger]
                after.complete.contains(m) <==> after.order.contains(m)
            &&& after.max_complete_frames == tracker.max_complete_frames
            &&& after.prune_period == tracker.prune_period
            &&& after.frame_lifetime == tracker.frame_lifetime
            &&& after.next_prune_time == tracker.next_prune_time
        }),
{
    let after = tracker.update(now, packet).tracker;
    law_update_keeps_wf(tracker, now, packet);
    assert forall|m: FullFrameNumber| #[trigger] after.complete.contains(m)
        <==> after.order.contains(m) by {
        law_same_in_both_orders(after, m);
    }
}

/// What has arrived of a frame since it came into flight, and when it counts as lost.
pub struct Receipt {
    pub packets: Seq<PacketInfo>,
    pub expires_at: nat,
}

/// What has come of all that has happened.
#[verifier::ext_equal]
pub struct History {
    /// What has arrived of the frames in flight.
    pub receiving: Map<FullFrameNumber, Receipt>,
    /// The frames that have become complete, one after the other, none of them forgotten.
    pub completed: Seq<FullFrameNumber>,
    /// When the next cleanup is due.
    pub next_prune_time: nat,
}

/// No frame expires before `n` does, and none with a smaller number at the same time.
pub open spec fn expires_first(
    receiving: Map<FullFrameNumber, Receipt>,
    n: FullFrameNumber,
) -> bool {
    &&& receiving.contains_key(n)
    &&& forall|m: FullFrameNumber| #[trigger]
        receiving.contains_key(m) ==> receiving[n].expires_at < receiving[m].expires_at || (
        receiving[n].expires_at == receiving[m].expires_at && n <= m)
}

impl History {
    /// The packets of frame `n` that have arrived since it came into flight, if it is.
    pub open spec fn packets_of(self, n: FullFrameNumber) -> Seq<PacketInfo> {
        if self.receiving.contains_key(n) {
            self.receiving[n].packets
        } else {
            Seq::empty()
        }
    }

    /// What is to be answered to a packet.
    pub open spec fn answer(self, packet: PacketInfo) -> Result<(), FrameTrackerError> {
        let n = packet.frame_number;
        let packets = self.packets_of(n);
        if packet.start_frame_flag && frame_laws::started(packets) {
            Err(FrameTrackerError::FrameStartFlagAlreadySet(n))
        } else if packet.end_frame_flag && frame_laws::ended(packets) {
            Err(FrameTrackerError::FrameEndFlagAlreadySet(n))
        } else if frame_laws::gaps(packets.push(packet)).len() > MAX_MISSING_SEQNUM_RANGES {
            Err(FrameTrackerError::TooManyMissingPacketRanges(n))
        } else {
            Ok(())
        }
    }

    /// What a packet, arriving at `now`, adds to the history.
    pub open spec fn with_packet(
        self,
        frame_lifetime: nat,
        now: nat,
        packet: PacketInfo,
    ) -> History {
        let n = packet.frame_number;
        let packets = self.packets_of(n).push(packet);
        match self.answer(packet) {
            Ok(()) => if frame_laws::received_in_full(packets) {
                History {
                    receiving: self.receiving.remove(n),
                    completed: self.completed.push(n),
                    ..self
                }
            } else if self.receiving.contains_key(n) {
                History {
                    receiving: self.receiving.insert(
                        n,
                        Receipt { packets, ..self.receiving[n] },
                    ),
                    ..self
                }
            } else {
                let others = if self.receiving.len() < MAX_FRAMES_IN_FLIGHT {
                    self.receiving
                } else {
                    self.receiving.remove(
                        choose|m: FullFrameNumber| expires_first(self.receiving, m),
                    )
                };
                History {
                    receiving: others.insert(
                        n,
                        Receipt { packets, expires_at: now + frame_lifetime },
                    ),
                    ..self
                }
            },
            Err(FrameTrackerError::TooManyMissingPacketRanges(_)) => History {
                receiving: self.receiving.remove(n),
                ..self
            },
            Err(_) => self,
        }
    }

    /// What a cleanup at `now` adds to the history.
    pub open spec fn with_cleanup(self, prune_period: nat, now: nat) -> History {
        if now < self.next_prune_time {
            self
        } else {
            History {
                receiving: self.receiving.restrict(
                    Set::new(|n: FullFrameNumber| self.receiving[n].expires_at > now),
                ),
                next_prune_time: now + prune_period,
                ..self
            }
        }
    }
}

/// The history of a tracker that was made at `start`.
pub open spec fn history(
    prune_period: nat,
    frame_lifetime: nat,
    start: nat,
    events: Seq<Event>,
) -> History
    decreases events.len(),
{
    if events.len() == 0 {
        History {
            receiving: Map::empty(),
            completed: Seq::empty(),
            next_prune_time: start + prune_period,
        }
    } else {
        let before = history(prune_period, frame_lifetime, start, events.drop_last());
        match events.last() {
            Event::Packet { now, packet } => before.with_packet(frame_lifetime, now, packet),
            Event::Cleanup { now } => before.with_cleanup(prune_period, now),
        }
    }
}

/// The tracker knows what the history says.
spec fn knows(tracker: TrackerState, h: History) -> bool {
    &&& tracker.wf()
    &&& tracker.order == newest(tracker.max_complete_frames, h.completed)
    &&& tracker.next_prune_time == h.next_prune_time
    &&& tracker.in_flight.dom() == h.receiving.dom()
    &&& forall|n: FullFrameNumber| #[trigger]
        h.receiving.contains_key(n) ==> frame_laws::feed(
            FrameState::fresh(n, h.receiving[n].expires_at),
            h.receiving[n].packets,
        ) == (FrameStep { frame: tracker.in_flight[n], result: Ok(()) })
            && tracker.in_flight[n].expires_at == h.receiving[n].expires_at
}

proof fn lemma_newest_grows(count: nat, numbers: Seq<FullFrameNumber>, number: FullFrameNumber)
    ensures
        newest(count, numbers.push(number)) == tracker_model::enqueue(
            count,
            newest(count, numbers),
            number,
        ),
{
    assert(newest(count, numbers.push(number)) =~= tracker_model::enqueue(
        count,
        newest(count, numbers),
        number,
    ));
}

proof fn lemma_step_keeps_expiry(frame: FrameState, packet: PacketInfo)
    ensures
        frame.step(packet).frame.expires_at == frame.expires_at,
        frame.step(packet).frame.frame_number == frame.frame_number,
{
}

proof fn lemma_packet(tracker: TrackerState, h: History, now: nat, packet: PacketInfo)
    requires
        knows(tracker, h),
    ensures
        tracker.update(now, packet).result == h.answer(packet),
        knows(
            tracker.update(now, packet).tracker,
            h.with_packet(tracker.frame_lifetime, now, packet),
        ),
{
    let n = packet.frame_number;
    let frame = tracker.frame_at(n, now);
    let packets = h.packets_of(n);
    let all = packets.push(packet);
    let after = tracker.update(now, packet).tracker;
    let next = h.with_packet(tracker.frame_lifetime, now, packet);
    law_update_keeps_wf(tracker, now, packet);
    assert(tracker.in_flight.contains_key(n) <==> h.receiving.contains_key(n)) by {
        assert(tracker.in_flight.dom().contains(n) <==> h.receiving.dom().contains(n));
    }
    assert(frame_laws::feed(FrameState::fresh(n, frame.expires_at), packets) == (FrameStep {
        frame,
        result: Ok(()),
    }));
    frame_laws::law_answer(n, frame.expires_at, packets, packet);
    lemma_step_keeps_expiry(frame, packet);
    if h.answer(packet) is Ok {
        assert(all.drop_last() == packets);
        assert(all.last() == packet);
        frame_laws::law_complete_iff_received(n, frame.expires_at, all);
        if frame_laws::received_in_full(all) {
            lemma_newest_grows(tracker.max_complete_frames, h.completed, n);
        } else if !h.receiving.contains_key(n) {
            lemma_who_gives_way(tracker, h);
        }
    }
    assert(after.in_flight.dom() =~= next.receiving.dom());
    assert forall|m: FullFrameNumber| #[trigger] next.receiving.contains_key(m) implies
        frame_laws::feed(
        FrameState::fresh(m, next.receiving[m].expires_at),
        next.receiving[m].packets,
    ) == (FrameStep { frame: after.in_flight[m], result: Ok(()) })
        && after.in_flight[m].expires_at == next.receiving[m].expires_at by {
        if m != n {
            assert(h.receiving.contains_key(m));
        }
    }
}

proof fn lemma_who_gives_way(tracker: TrackerState, h: History)
    requires
        knows(tracker, h),
    ensures
        tracker.in_flight.len() == h.receiving.len(),
        tracker.in_flight.len() > 0 ==> tracker_model::oldest(tracker.in_flight) == (choose|
            m: FullFrameNumber,
        |
            expires_first(h.receiving, m)),
{
    assert forall|m: FullFrameNumber| tracker.in_flight.contains_key(m)
        <==> #[trigger] h.receiving.contains_key(m) by {
        assert(tracker.in_flight.dom().contains(m) <==> h.receiving.dom().contains(m));
    }
    if tracker.in_flight.len() > 0 {
        tracker_model::lemma_oldest_exists(tracker.in_flight);
        let old = tracker_model::oldest(tracker.in_flight);
        assert forall|m: FullFrameNumber| #[trigger] h.receiving.contains_key(m) implies
            h.receiving[old].expires_at < h.receiving[m].expires_at || (h.receiving[old].expires_at
            == h.receiving[m].expires_at && old <= m) by {
            assert(tracker.in_flight.contains_key(m));
            assert(h.receiving.contains_key(old));
        }
        assert(expires_first(h.receiving, old));
        let chosen = choose|m: FullFrameNumber| expires_first(h.receiving, m);
        assert(expires_first(h.receiving, chosen));
        assert(h.receiving.contains_key(chosen) && h.receiving.contains_key(old));
    }
}

proof fn lemma_knows(
    max_complete_frames: nat,
    prune_period: nat,
    frame_lifetime: nat,
    start: nat,
    events: Seq<Event>,
)
    ensures
        ({
            let tracker = run(
                TrackerState::empty(max_complete_frames, prune_period, frame_lifetime, start),
                events,
            );
            &&& knows(tracker, history(prune_period, frame_lifetime, start, events))
            &&& tracker.max_complete_frames == max_complete_frames
            &&& tracker.prune_period == prune_period
            &&& tracker.frame_lifetime == frame_lifetime
        }),
    decreases events.len(),
{
    let empty = TrackerState::empty(max_complete_frames, prune_period, frame_lifetime, start);
    if events.len() == 0 {
        assert(empty.in_flight.dom() =~= Map::<FullFrameNumber, Receipt>::empty().dom());
    } else {
        let rest = events.drop_last();
        lemma_knows(max_complete_frames, prune_period, frame_lifetime, start, rest);
        let before = run(empty, rest);
        let h = history(prune_period, frame_lifetime, start, rest);
        match events.last() {
            Event::Packet { now, packet } => {
                lemma_packet(before, h, now, packet);
            },
            Event::Cleanup { now } => {
                law_cleanup_keeps_wf(before, now);
                let after = before.cleanup(now);
                let next = h.with_cleanup(prune_period, now);
                assert forall|n: FullFrameNumber| after.in_flight.contains_key(n)
                    <==> #[trigger] next.receiving.contains_key(n) by {
                    assert(before.in_flight.dom().contains(n) <==> h.receiving.dom().contains(n));
                    if h.receiving.contains_key(n) {
                        assert(before.in_flight[n].expires_at == h.receiving[n].expires_at);
                    }
                }
                assert(after.in_flight.dom() =~= next.receiving.dom());
                assert forall|n: FullFrameNumber| #[trigger] next.receiving.contains_key(n) implies
                    next.receiving[n] == h.receiving[n] && after.in_flight[n]
                    == before.in_flight[n] && h.receiving.contains_key(n) by {
                    assert(after.in_flight.contains_key(n));
                }
            },
        }
    }
}

/// Whatever happens to a tracker, what it knows and answers follows from the packets that have
/// arrived:
///
/// - The frames that it reports as complete are the last ones that have been received in full, as
///   many as there may be.
/// - In flight are the frames of which packets have arrived, that have been received neither in
///   full nor with too many gaps, have not been purged, and have not given way.
/// - A packet is refused exactly for a second first or last packet, or for too many gaps.
pub proof fn law_tracker_follows_history(
    max_complete_frames: nat,
    prune_period: nat,
    frame_lifetime: nat,
    start: nat,
    events: Seq<Event>,
)
    ensures
        ({
            let tracker = run(
                TrackerState::empty(max_complete_frames, prune_period, frame_lifetime, start),
                events,
            );
            let h = history(prune_period, frame_lifetime, start, events);
            &&& tracker.order == newest(max_complete_frames, h.completed)
            &&& forall|n: FullFrameNumber| #[trigger]
                tracker.complete.contains(n) <==> newest(max_complete_frames, h.completed).contains(
                    n,
                )
            &&& tracker.in_flight.dom() == h.receiving.dom()
            &&& tracker.in_flight.len() == h.receiving.len()
            &&& forall|n: FullFrameNumber| #[trigger]
                h.receiving.contains_key(n) ==> tracker.in_flight[n].expires_at
                    == h.receiving[n].expires_at
            &&& tracker.next_prune_time == h.next_prune_time
            &&& forall|now: nat, packet: PacketInfo| #[trigger]
                tracker.update(now, packet).result == h.answer(packet)
        }),
{
    let tracker = run(
        TrackerState::empty(max_complete_frames, prune_period, frame_lifetime, start),
        events,
    );
    let h = history(prune_period, frame_lifetime, start, events);
    lemma_knows(max_complete_frames, prune_period, frame_lifetime, start, events);
    assert forall|n: FullFrameNumber| #[trigger] tracker.complete.contains(n) <==> newest(
        max_complete_frames,
        h.completed,
    ).contains(n) by {
        law_same_in_both_orders(tracker, n);
    }
    assert forall|now: nat, packet: PacketInfo| #[trigger] tracker.update(now, packet).result
        == h.answer(packet) by {
        lemma_packet(tracker, h, now, packet);
    }
    lemma_who_gives_way(tracker, h);
}

} // verus!
