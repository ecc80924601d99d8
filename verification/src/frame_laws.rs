//! What holds of a frame whatever packets arrive, and in whatever order.

use crate::frame_model;
use crate::frame_model::{FrameState, FrameStep};
use crate::frame_tracker::{FrameTrackerError, PacketInfo};
use crate::media::{FullFrameNumber, FullSequenceNumber};
use core::ops::Range;
use vstd::prelude::*;

verus! {

/// What a frame has become once `packets` have arrived, one after the other. The first packet
/// that is refused ends it.
pub open spec fn feed(frame: FrameState, packets: Seq<PacketInfo>) -> FrameStep
    decreases packets.len(),
{
    if packets.len() == 0 {
        FrameStep { frame, result: Ok(()) }
    } else {
        let before = feed(frame, packets.drop_last());
        if before.result is Ok {
            before.frame.step(packets.last())
        } else {
            before
        }
    }
}

/// A packet with `seqnum` has arrived.
pub open spec fn received(packets: Seq<PacketInfo>, seqnum: FullSequenceNumber) -> bool {
    exists|i: int| #![trigger packets[i]] 0 <= i < packets.len() && packets[i].seqnum == seqnum
}

/// A first packet has arrived.
pub open spec fn started(packets: Seq<PacketInfo>) -> bool {
    exists|i: int| #![trigger packets[i]] 0 <= i < packets.len() && packets[i].start_frame_flag
}

/// A last packet has arrived.
pub open spec fn ended(packets: Seq<PacketInfo>) -> bool {
    exists|i: int| #![trigger packets[i]] 0 <= i < packets.len() && packets[i].end_frame_flag
}

/// The packet with sequence number `x` has not arrived, but one before it and one behind it have.
pub open spec fn missed(packets: Seq<PacketInfo>, x: FullSequenceNumber) -> bool {
    &&& !received(packets, x)
    &&& exists|i: int, j: int|
        #![trigger packets[i], packets[j]]
        0 <= i < packets.len() && 0 <= j < packets.len() && packets[i].seqnum < x
            < packets[j].seqnum
}

/// The packets are a frame that has been received in full: a first packet and a last packet have
/// arrived, and nothing in between has been missed.
pub open spec fn received_in_full(packets: Seq<PacketInfo>) -> bool {
    &&& started(packets)
    &&& ended(packets)
    &&& forall|x: FullSequenceNumber| !#[trigger] missed(packets, x)
}

/// The sequence numbers that are followed by a gap: they have arrived, the next one has not, and
/// one further ahead has.
pub open spec fn gaps(packets: Seq<PacketInfo>) -> Set<FullSequenceNumber> {
    Set::new(
        |x: FullSequenceNumber|
            received(packets, x) && !received(packets, (x + 1) as u64) && exists|
                y: FullSequenceNumber,
            | #[trigger]
                received(packets, y) && y > x,
    )
}

/// No sequence number is in two of the ranges.
pub open spec fn disjoint(ranges: Seq<Range<FullSequenceNumber>>) -> bool {
    forall|i: int, j: int, x: FullSequenceNumber|
        frame_model::covers(ranges, i, x) && frame_model::covers(ranges, j, x) ==> i == j
}

proof fn lemma_note_gap(ranges: Seq<Range<FullSequenceNumber>>, lo: int, hi: int)
    requires
        0 <= lo,
        hi <= u64::MAX,
        frame_model::note_gap(ranges, lo, hi).fit,
    ensures
        forall|x: FullSequenceNumber|
            #![trigger frame_model::covered(frame_model::note_gap(ranges, lo, hi).ranges, x)]
            frame_model::covered(frame_model::note_gap(ranges, lo, hi).ranges, x) <==> (
            frame_model::covered(ranges, x) || lo <= x < hi),
        disjoint(ranges) && (forall|x: FullSequenceNumber|
            lo <= x < hi ==> !#[trigger] frame_model::covered(ranges, x)) ==> disjoint(
            frame_model::note_gap(ranges, lo, hi).ranges,
        ),
{
    let after = frame_model::note_gap(ranges, lo, hi).ranges;
    let n = ranges.len() as int;
    assert forall|x: FullSequenceNumber| #[trigger]
        frame_model::covered(after, x) <==> (frame_model::covered(ranges, x) || lo <= x < hi) by {
        if frame_model::covered(ranges, x) {
            let i = choose|i: int| frame_model::covers(ranges, i, x);
            assert(frame_model::covers(after, i, x));
        }
        if lo <= x < hi {
            assert(frame_model::covers(after, n, x));
        }
        if frame_model::covered(after, x) {
            let i = choose|i: int| frame_model::covers(after, i, x);
            if i < n {
                assert(frame_model::covers(ranges, i, x));
            }
        }
    }
    if disjoint(ranges) && (forall|x: FullSequenceNumber|
        lo <= x < hi ==> !#[trigger] frame_model::covered(ranges, x)) {
        assert forall|i: int, j: int, x: FullSequenceNumber|
            frame_model::covers(after, i, x) && frame_model::covers(after, j, x) implies i == j by {
            assert(i < n ==> frame_model::covers(ranges, i, x));
            assert(j < n ==> frame_model::covers(ranges, j, x));
            assert((i < n || j < n) ==> frame_model::covered(ranges, x));
        }
    }
}

proof fn lemma_first_cover(ranges: Seq<Range<FullSequenceNumber>>, x: FullSequenceNumber, i: int)
    requires
        frame_model::covers(ranges, i, x),
    ensures
        frame_model::covers_first(ranges, frame_model::first_cover(ranges, x), x),
    decreases i,
{
    if !frame_model::covers_first(ranges, i, x) {
        let j = choose|j: int| 0 <= j < i && frame_model::covers(ranges, j, x);
        lemma_first_cover(ranges, x, j);
    }
}

proof fn lemma_swap_removed(ranges: Seq<Range<FullSequenceNumber>>, i: int)
    requires
        0 <= i < ranges.len(),
    ensures
        forall|x: FullSequenceNumber|
            #![trigger frame_model::covered(frame_model::swap_removed(ranges, i), x)]
            frame_model::covered(frame_model::swap_removed(ranges, i), x) <==> exists|j: int|
                j != i && frame_model::covers(ranges, j, x),
        disjoint(ranges) ==> disjoint(frame_model::swap_removed(ranges, i)),
{
    let after = frame_model::swap_removed(ranges, i);
    let last = ranges.len() - 1;
    assert forall|x: FullSequenceNumber| #[trigger]
        frame_model::covered(after, x) <==> exists|j: int|
            j != i && frame_model::covers(ranges, j, x) by {
        if frame_model::covered(after, x) {
            let k = choose|k: int| frame_model::covers(after, k, x);
            if k == i {
                assert(last != i && frame_model::covers(ranges, last, x));
            } else {
                assert(k != i && frame_model::covers(ranges, k, x));
            }
        }
        if exists|j: int| j != i && frame_model::covers(ranges, j, x) {
            let j = choose|j: int| j != i && frame_model::covers(ranges, j, x);
            if j == last {
                assert(frame_model::covers(after, i, x));
            } else {
                assert(frame_model::covers(after, j, x));
            }
        }
    }
    if disjoint(ranges) {
        assert forall|j: int, k: int, x: FullSequenceNumber|
            frame_model::covers(after, j, x) && frame_model::covers(after, k, x) implies j == k by {
            let j2 = if j == i {
                last
            } else {
                j
            };
            let k2 = if k == i {
                last
            } else {
                k
            };
            assert(frame_model::covers(ranges, j2, x));
            assert(frame_model::covers(ranges, k2, x));
        }
    }
}

/// Splitting a gap takes nothing but `seqnum` out of what is missing, and takes it out if it was
/// in one gap only.
proof fn lemma_split_gap(ranges: Seq<Range<FullSequenceNumber>>, seqnum: FullSequenceNumber)
    requires
        frame_model::covered(ranges, seqnum),
        frame_model::split_gap(ranges, seqnum).fit,
    ensures
        forall|x: FullSequenceNumber|
            #![trigger frame_model::covered(frame_model::split_gap(ranges, seqnum).ranges, x)]
            frame_model::covered(ranges, x) && x != seqnum ==> frame_model::covered(
                frame_model::split_gap(ranges, seqnum).ranges,
                x,
            ),
        disjoint(ranges) ==> disjoint(frame_model::split_gap(ranges, seqnum).ranges) && forall|
            x: FullSequenceNumber,
        |
            #![trigger frame_model::covered(frame_model::split_gap(ranges, seqnum).ranges, x)]
            frame_model::covered(frame_model::split_gap(ranges, seqnum).ranges, x)
                ==> frame_model::covered(ranges, x) && x != seqnum,
{
    let w = choose|i: int| frame_model::covers(ranges, i, seqnum);
    lemma_first_cover(ranges, seqnum, w);
    let i = frame_model::first_cover(ranges, seqnum);
    let (lo, hi) = (ranges[i].start as int, ranges[i].end as int);
    let rest = frame_model::swap_removed(ranges, i);
    let below = frame_model::note_gap(rest, lo, seqnum as int);
    let after = frame_model::split_gap(ranges, seqnum);
    lemma_swap_removed(ranges, i);
    lemma_note_gap(rest, lo, seqnum as int);
    lemma_note_gap(below.ranges, seqnum + 1, hi);
    assert forall|x: FullSequenceNumber| frame_model::covered(ranges, x) && x
        != seqnum implies #[trigger] frame_model::covered(after.ranges, x) by {
        let j = choose|j: int| frame_model::covers(ranges, j, x);
        if j != i {
            assert(frame_model::covered(rest, x));
            assert(frame_model::covered(below.ranges, x));
        } else if x < seqnum {
            assert(frame_model::covered(below.ranges, x));
        }
    }
    if disjoint(ranges) {
        assert forall|x: FullSequenceNumber| lo <= x < hi implies !#[trigger] frame_model::covered(
            rest,
            x,
        ) by {
            assert(frame_model::covers(ranges, i, x));
        }
        assert forall|x: FullSequenceNumber|
            seqnum + 1 <= x < hi implies !#[trigger] frame_model::covered(below.ranges, x) by {
            assert(!frame_model::covered(rest, x));
        }
        assert forall|x: FullSequenceNumber| #[trigger]
            frame_model::covered(after.ranges, x) implies frame_model::covered(ranges, x) && x
            != seqnum by {
            if seqnum + 1 <= x < hi {
                assert(frame_model::covers(ranges, i, x));
            } else {
                assert(frame_model::covered(below.ranges, x));
                if lo <= x < seqnum {
                    assert(frame_model::covers(ranges, i, x));
                } else {
                    assert(frame_model::covered(rest, x));
                    assert(!frame_model::covered(rest, seqnum));
                    let j = choose|j: int| j != i && frame_model::covers(ranges, j, x);
                    assert(frame_model::covers(ranges, j, x));
                }
            }
        }
    }
}

/// What lies right before and right behind each range has arrived.
spec fn enclosed(ranges: Seq<Range<FullSequenceNumber>>, packets: Seq<PacketInfo>) -> bool {
    forall|i: int|
        #![trigger ranges[i]]
        0 <= i < ranges.len() ==> ranges[i].start > 0 && received(
            packets,
            (ranges[i].start - 1) as u64,
        ) && received(packets, ranges[i].end)
}

/// What is known of `frame` once `packets` have arrived.
spec fn follows(frame: FrameState, packets: Seq<PacketInfo>) -> bool {
    &&& frame.wf()
    &&& frame.min_seqnum is Some <==> packets.len() > 0
    &&& packets.len() > 0 ==> received(packets, frame.min_seqnum->0) && received(
        packets,
        frame.max_seqnum->0,
    )
    &&& forall|i: int|
        #![trigger packets[i]]
        0 <= i < packets.len() ==> frame.min_seqnum->0 <= packets[i].seqnum <= frame.max_seqnum->0
    &&& frame.start_seqnum is Some <==> started(packets)
    &&& frame.end_seqnum is Some <==> ended(packets)
    &&& disjoint(frame.missing)
    &&& enclosed(frame.missing, packets)
    &&& forall|x: FullSequenceNumber|
        #![trigger frame_model::covered(frame.missing, x)]
        #![trigger received(packets, x)]
        packets.len() > 0 ==> (frame_model::covered(frame.missing, x) <==> frame.min_seqnum->0 <= x
            <= frame.max_seqnum->0 && !received(packets, x))
}

proof fn lemma_received(packets: Seq<PacketInfo>)
    requires
        packets.len() > 0,
    ensures
        forall|x: FullSequenceNumber| #[trigger]
            received(packets, x) <==> received(packets.drop_last(), x) || x
                == packets.last().seqnum,
        started(packets) <==> started(packets.drop_last()) || packets.last().start_frame_flag,
        ended(packets) <==> ended(packets.drop_last()) || packets.last().end_frame_flag,
{
    let before = packets.drop_last();
    let n = before.len() as int;
    assert(forall|i: int| 0 <= i < n ==> #[trigger] before[i] == packets[i]);
    assert(packets.last() == packets[n]);
    assert forall|x: FullSequenceNumber| #[trigger]
        received(packets, x) <==> received(before, x) || x == packets.last().seqnum by {
        if received(before, x) {
            let i = choose|i: int|
                #![trigger before[i]]
                0 <= i < before.len() && before[i].seqnum == x;
            assert(packets[i].seqnum == x);
        }
        if received(packets, x) && x != packets.last().seqnum {
            let i = choose|i: int|
                #![trigger packets[i]]
                0 <= i < packets.len() && packets[i].seqnum == x;
            assert(before[i].seqnum == x);
        }
    }
    if started(before) {
        let i = choose|i: int|
            #![trigger before[i]]
            0 <= i < before.len() && before[i].start_frame_flag;
        assert(packets[i].start_frame_flag);
    }
    if started(packets) && !packets.last().start_frame_flag {
        let i = choose|i: int|
            #![trigger packets[i]]
            0 <= i < packets.len() && packets[i].start_frame_flag;
        assert(before[i].start_frame_flag);
    }
    if ended(before) {
        let i = choose|i: int|
            #![trigger before[i]]
            0 <= i < before.len() && before[i].end_frame_flag;
        assert(packets[i].end_frame_flag);
    }
    if ended(packets) && !packets.last().end_frame_flag {
        let i = choose|i: int|
            #![trigger packets[i]]
            0 <= i < packets.len() && packets[i].end_frame_flag;
        assert(before[i].end_frame_flag);
    }
}

proof fn lemma_note_enclosed(
    ranges: Seq<Range<FullSequenceNumber>>,
    packets: Seq<PacketInfo>,
    lo: int,
    hi: int,
)
    requires
        enclosed(ranges, packets),
        hi <= u64::MAX,
        lo < hi ==> lo > 0 && received(packets, (lo - 1) as u64) && received(packets, hi as u64),
    ensures
        enclosed(frame_model::note_gap(ranges, lo, hi).ranges, packets),
{
}

/// The gaps after a packet: the packet itself is no longer missing, and what lies between it and
/// the rest is.
proof fn lemma_gaps_with(frame: FrameState, packets: Seq<PacketInfo>, packet: PacketInfo)
    requires
        follows(frame, packets),
        frame.gaps_with(packet.seqnum).fit,
        packets.len() > 0,
    ensures
        forall|x: FullSequenceNumber|
            #![trigger frame_model::covered(frame.gaps_with(packet.seqnum).ranges, x)]
            frame_model::covered(frame.gaps_with(packet.seqnum).ranges, x) <==> x != packet.seqnum
                && (frame_model::covered(frame.missing, x) || packet.seqnum < x
                < frame.min_seqnum->0 || frame.max_seqnum->0 < x < packet.seqnum),
        disjoint(frame.gaps_with(packet.seqnum).ranges),
        enclosed(frame.gaps_with(packet.seqnum).ranges, packets.push(packet)),
{
    let seqnum = packet.seqnum;
    let (min, max) = (frame.min_seqnum->0, frame.max_seqnum->0);
    let all = packets.push(packet);
    let missing = frame.missing;
    assert(all.drop_last() == packets);
    lemma_received(all);
    // What is missing lies strictly between the smallest and the largest sequence number.
    assert forall|x: FullSequenceNumber| #[trigger]
        frame_model::covered(missing, x) implies min < x < max by {
        let i = choose|i: int| frame_model::covers(missing, i, x);
        assert(missing[i].start <= x);
    }
    assert(enclosed(missing, all));
    if seqnum < min {
        lemma_note_gap(missing, seqnum + 1, min as int);
        lemma_note_enclosed(missing, all, seqnum + 1, min as int);
    } else if seqnum >= max {
        lemma_note_gap(missing, max + 1, seqnum as int);
        lemma_note_enclosed(missing, all, max + 1, seqnum as int);
    } else if frame_model::covered(missing, seqnum) {
        lemma_split_gap(missing, seqnum);
        let w = choose|i: int| frame_model::covers(missing, i, seqnum);
        lemma_first_cover(missing, seqnum, w);
        let i = frame_model::first_cover(missing, seqnum);
        let range = missing[i];
        let rest = frame_model::swap_removed(missing, i);
        assert(enclosed(rest, all));
        lemma_note_enclosed(rest, all, range.start as int, seqnum as int);
        lemma_note_enclosed(
            frame_model::note_gap(rest, range.start as int, seqnum as int).ranges,
            all,
            seqnum + 1,
            range.end as int,
        );
    }
}

/// A packet that is accepted leaves the frame well-formed.
pub proof fn law_step_keeps_wf(frame: FrameState, packet: PacketInfo)
    requires
        frame.wf(),
        frame.step(packet).result is Ok,
    ensures
        frame.step(packet).frame.wf(),
{
    if frame_model::covered(frame.missing, packet.seqnum) {
        let i = choose|i: int| frame_model::covers(frame.missing, i, packet.seqnum);
        lemma_first_cover(frame.missing, packet.seqnum, i);
    }
}

/// However the packets arrive, the frame follows them.
proof fn lemma_follows(number: FullFrameNumber, expires_at: nat, packets: Seq<PacketInfo>)
    requires
        feed(FrameState::fresh(number, expires_at), packets).result is Ok,
    ensures
        follows(feed(FrameState::fresh(number, expires_at), packets).frame, packets),
    decreases packets.len(),
{
    let fresh = FrameState::fresh(number, expires_at);
    if packets.len() > 0 {
        let before = packets.drop_last();
        let packet = packets.last();
        let old_frame = feed(fresh, before).frame;
        let frame = feed(fresh, packets).frame;
        lemma_follows(number, expires_at, before);
        lemma_received(packets);
        assert(packets == before.push(packet));
        if before.len() > 0 {
            lemma_gaps_with(old_frame, before, packet);
        } else {
            assert(!received(before, packet.seqnum));
        }
        law_step_keeps_wf(old_frame, packet);
        assert forall|i: int| #![trigger packets[i]] 0 <= i < packets.len() implies
            frame.min_seqnum->0 <= packets[i].seqnum <= frame.max_seqnum->0 by {
            if i < before.len() {
                assert(before[i] == packets[i]);
            }
        }
        assert forall|x: FullSequenceNumber| #[trigger]
            frame_model::covered(frame.missing, x) <==> frame.min_seqnum->0 <= x
                <= frame.max_seqnum->0 && !received(packets, x) by {
            if received(before, x) {
                let i = choose|i: int|
                    #![trigger before[i]]
                    0 <= i < before.len() && before[i].seqnum == x;
                assert(old_frame.min_seqnum->0 <= before[i].seqnum <= old_frame.max_seqnum->0);
            }
        }
    }
}

/// What is noted as missing is exactly what has been missed, whatever packets arrive, in whatever
/// order and however often; and nothing is noted twice.
pub proof fn law_missing_is_what_has_been_missed(
    number: FullFrameNumber,
    expires_at: nat,
    packets: Seq<PacketInfo>,
)
    requires
        feed(FrameState::fresh(number, expires_at), packets).result is Ok,
    ensures
        ({
            let missing = feed(FrameState::fresh(number, expires_at), packets).frame.missing;
            &&& forall|x: FullSequenceNumber| #[trigger]
                frame_model::covered(missing, x) <==> missed(packets, x)
            &&& disjoint(missing)
        }),
{
    let frame = feed(FrameState::fresh(number, expires_at), packets).frame;
    let (min, max) = (frame.min_seqnum->0, frame.max_seqnum->0);
    lemma_follows(number, expires_at, packets);
    assert forall|x: FullSequenceNumber| #[trigger]
        frame_model::covered(frame.missing, x) <==> missed(packets, x) by {
        if frame_model::covered(frame.missing, x) {
            let k = choose|k: int| frame_model::covers(frame.missing, k, x);
            assert(min < frame.missing[k].start);
            let i = choose|i: int|
                #![trigger packets[i]]
                0 <= i < packets.len() && packets[i].seqnum == min;
            let j = choose|j: int|
                #![trigger packets[j]]
                0 <= j < packets.len() && packets[j].seqnum == max;
            assert(packets[i].seqnum < x < packets[j].seqnum);
        }
    }
}

/// A frame is complete exactly when it has been received in full: a first packet and a last
/// packet have arrived, and nothing in between has been missed. This holds for any packets, in
/// whatever order and however often they arrive.
pub proof fn law_complete_iff_received(
    number: FullFrameNumber,
    expires_at: nat,
    packets: Seq<PacketInfo>,
)
    requires
        feed(FrameState::fresh(number, expires_at), packets).result is Ok,
    ensures
        feed(FrameState::fresh(number, expires_at), packets).frame.is_complete()
            <==> received_in_full(packets),
{
    let frame = feed(FrameState::fresh(number, expires_at), packets).frame;
    lemma_follows(number, expires_at, packets);
    law_missing_is_what_has_been_missed(number, expires_at, packets);
    if frame.missing.len() > 0 {
        let x = frame.missing[0].start;
        assert(frame_model::covers(frame.missing, 0, x));
        assert(missed(packets, x));
    }
    if frame.is_complete() {
        assert forall|x: FullSequenceNumber| !#[trigger] missed(packets, x) by {
            assert(!frame_model::covered(frame.missing, x));
        }
    }
}

/// There is one range for each gap.
proof fn lemma_gap_count(frame: FrameState, packets: Seq<PacketInfo>)
    requires
        follows(frame, packets),
        packets.len() > 0,
    ensures
        gaps(packets).finite(),
        gaps(packets).len() == frame.missing.len(),
{
    let missing = frame.missing;
    let starts = Seq::new(missing.len(), |i: int| (missing[i].start - 1) as u64);
    let max = frame.max_seqnum->0;
    assert forall|i: int, j: int| 0 <= i < j < starts.len() implies starts[i] != starts[j] by {
        assert(missing[i].start > 0 && missing[j].start > 0);
        if starts[i] == starts[j] {
            assert(frame_model::covers(missing, i, missing[i].start));
            assert(frame_model::covers(missing, j, missing[i].start));
        }
    }
    assert forall|x: FullSequenceNumber| starts.to_set().contains(x) == gaps(packets).contains(
        x,
    ) by {
        if starts.to_set().contains(x) {
            let i = choose|i: int| 0 <= i < starts.len() && starts[i] == x;
            assert(missing[i].start > 0);
            assert(frame_model::covers(missing, i, missing[i].start));
            assert(frame_model::covered(missing, missing[i].start));
            assert(received(packets, max) && max > x);
        }
        if gaps(packets).contains(x) {
            let y = choose|y: FullSequenceNumber| #[trigger] received(packets, y) && y > x;
            let next = (x + 1) as u64;
            let k = choose|k: int|
                #![trigger packets[k]]
                0 <= k < packets.len() && packets[k].seqnum == x;
            let l = choose|l: int|
                #![trigger packets[l]]
                0 <= l < packets.len() && packets[l].seqnum == y;
            assert(frame.min_seqnum->0 <= packets[k].seqnum);
            assert(packets[l].seqnum <= max);
            assert(frame_model::covered(missing, next));
            let i = choose|i: int| frame_model::covers(missing, i, next);
            if missing[i].start <= x {
                assert(frame_model::covers(missing, i, x));
                assert(frame_model::covered(missing, x));
            }
            assert(starts[i] == x);
        }
    }
    assert(starts.to_set() =~= gaps(packets));
    starts.unique_seq_to_set();
}

/// A packet neither of whose neighbours has arrived adds one gap.
proof fn lemma_gap_added(packets: Seq<PacketInfo>, packet: PacketInfo, max: FullSequenceNumber)
    requires
        received(packets, max),
        forall|x: FullSequenceNumber| #[trigger] received(packets, x) ==> x <= max,
        !received(packets, packet.seqnum),
        packet.seqnum > 0 ==> !received(packets, (packet.seqnum - 1) as u64),
        packet.seqnum < u64::MAX ==> !received(packets, (packet.seqnum + 1) as u64),
        gaps(packets).finite(),
    ensures
        gaps(packets.push(packet)).finite(),
        gaps(packets.push(packet)).len() == gaps(packets).len() + 1,
{
    let all = packets.push(packet);
    let seqnum = packet.seqnum;
    let new = if seqnum > max {
        max
    } else {
        seqnum
    };
    assert(all.drop_last() == packets);
    lemma_received(all);
    assert(!gaps(packets).contains(new)) by {
        assert(forall|y: FullSequenceNumber| #[trigger] received(packets, y) ==> y <= max);
    }
    assert forall|x: FullSequenceNumber| gaps(all).contains(x) implies x == new || gaps(
        packets,
    ).contains(x) by {
        let y = choose|y: FullSequenceNumber| #[trigger] received(all, y) && y > x;
        assert(!received(packets, (x + 1) as u64));
    }
    assert forall|x: FullSequenceNumber| gaps(packets).contains(x) implies gaps(all).contains(
        x,
    ) by {
        let y = choose|y: FullSequenceNumber| #[trigger] received(packets, y) && y > x;
        assert(received(all, y));
        assert(x + 1 != seqnum);
        assert(!received(all, (x + 1) as u64));
    }
    assert(gaps(all).contains(new)) by {
        assert(received(all, max));
        assert(received(all, seqnum));
        assert(new + 1 != seqnum);
        assert(!received(all, (new + 1) as u64));
    }
    assert(gaps(all) =~= gaps(packets).insert(new));
}

/// A packet for which there is no room has no neighbour that has arrived.
proof fn lemma_no_room(frame: FrameState, packets: Seq<PacketInfo>, packet: PacketInfo)
    requires
        follows(frame, packets),
        !frame.gaps_with(packet.seqnum).fit,
    ensures
        packets.len() > 0,
        frame.missing.len() == frame_model::MAX_MISSING_SEQNUM_RANGES,
        !received(packets, packet.seqnum),
        packet.seqnum > 0 ==> !received(packets, (packet.seqnum - 1) as u64),
        packet.seqnum < u64::MAX ==> !received(packets, (packet.seqnum + 1) as u64),
        forall|x: FullSequenceNumber| #[trigger]
            received(packets, x) ==> x <= frame.max_seqnum->0,
{
    let seqnum = packet.seqnum;
    let missing = frame.missing;
    assert forall|x: FullSequenceNumber| #[trigger] received(packets, x) implies
        frame.min_seqnum->0 <= x <= frame.max_seqnum->0 by {
        let i = choose|i: int|
            #![trigger packets[i]]
            0 <= i < packets.len() && packets[i].seqnum == x;
    }
    if frame_model::covered(missing, seqnum) {
        let w = choose|i: int| frame_model::covers(missing, i, seqnum);
        lemma_first_cover(missing, seqnum, w);
        let i = frame_model::first_cover(missing, seqnum);
        assert(frame_model::covers(missing, i, (seqnum - 1) as u64));
        assert(frame_model::covers(missing, i, (seqnum + 1) as u64));
        assert(frame_model::covered(missing, (seqnum - 1) as u64));
        assert(frame_model::covered(missing, (seqnum + 1) as u64));
    }
}

/// Packets do not change the number of their frame.
proof fn lemma_feed_keeps_number(frame: FrameState, packets: Seq<PacketInfo>)
    ensures
        feed(frame, packets).frame.frame_number == frame.frame_number,
    decreases packets.len(),
{
    if packets.len() > 0 {
        lemma_feed_keeps_number(frame, packets.drop_last());
    }
}

/// A frame is given up exactly when it has too many gaps: a packet whose flags are in order is
/// refused if and only if, with it, more gaps lie between the packets that have arrived than are
/// tracked.
pub proof fn law_refused_iff_too_many_gaps(
    number: FullFrameNumber,
    expires_at: nat,
    packets: Seq<PacketInfo>,
    packet: PacketInfo,
)
    requires
        feed(FrameState::fresh(number, expires_at), packets).result is Ok,
        packet.start_frame_flag ==> !started(packets),
        packet.end_frame_flag ==> !ended(packets),
    ensures
        gaps(packets.push(packet)).finite(),
        feed(FrameState::fresh(number, expires_at), packets).frame.step(packet).result
            == if gaps(packets.push(packet)).len() > frame_model::MAX_MISSING_SEQNUM_RANGES {
            Err(FrameTrackerError::TooManyMissingPacketRanges(number))
        } else {
            Ok(())
        },
{
    let fresh = FrameState::fresh(number, expires_at);
    let frame = feed(fresh, packets).frame;
    let all = packets.push(packet);
    assert(all.drop_last() == packets);
    lemma_follows(number, expires_at, packets);
    lemma_received(all);
    lemma_feed_keeps_number(fresh, packets);
    if frame.gaps_with(packet.seqnum).fit {
        lemma_follows(number, expires_at, all);
        lemma_gap_count(feed(fresh, all).frame, all);
    } else {
        lemma_no_room(frame, packets, packet);
        lemma_gap_count(frame, packets);
        lemma_gap_added(packets, packet, frame.max_seqnum->0);
    }
}

/// A packet that has arrived before, without flags, is ignored.
pub proof fn law_repeat_is_ignored(
    number: FullFrameNumber,
    expires_at: nat,
    packets: Seq<PacketInfo>,
    packet: PacketInfo,
)
    requires
        feed(FrameState::fresh(number, expires_at), packets).result is Ok,
        received(packets, packet.seqnum),
        !packet.start_frame_flag,
        !packet.end_frame_flag,
    ensures
        ({
            let frame = feed(FrameState::fresh(number, expires_at), packets).frame;
            frame.step(packet) == (FrameStep { frame, result: Ok(()) })
        }),
{
    lemma_follows(number, expires_at, packets);
    let i = choose|i: int|
        #![trigger packets[i]]
        0 <= i < packets.len() && packets[i].seqnum == packet.seqnum;
    assert(packets[i].seqnum == packet.seqnum);
}

/// A second packet that claims to be the first or the last one is refused, and the frame stays
/// as it is.
pub proof fn law_second_flag_is_refused(frame: FrameState, packet: PacketInfo)
    requires
        (packet.start_frame_flag && frame.start_seqnum is Some) || (packet.end_frame_flag
            && frame.end_seqnum is Some),
    ensures
        frame.step(packet).result is Err,
        frame.step(packet).frame == frame,
{
}

/// The first packet of a frame is never refused.
pub proof fn law_first_packet_is_accepted(
    number: FullFrameNumber,
    expires_at: nat,
    packet: PacketInfo,
)
    ensures
        FrameState::fresh(number, expires_at).step(packet).result is Ok,
        FrameState::fresh(number, expires_at).step(packet).frame.is_complete()
            <==> packet.start_frame_flag && packet.end_frame_flag,
{
}

/// What is answered to a packet follows from the packets that have arrived: it is refused if it
/// claims to be the first or the last one and there has been such a one, or if with it there are
/// too many gaps, and it is accepted otherwise.
pub proof fn law_answer(
    number: FullFrameNumber,
    expires_at: nat,
    packets: Seq<PacketInfo>,
    packet: PacketInfo,
)
    requires
        feed(FrameState::fresh(number, expires_at), packets).result is Ok,
    ensures
        feed(FrameState::fresh(number, expires_at), packets).frame.step(packet).result == if
            packet.start_frame_flag && started(packets) {
            Err(FrameTrackerError::FrameStartFlagAlreadySet(number))
        } else if packet.end_frame_flag && ended(packets) {
            Err(FrameTrackerError::FrameEndFlagAlreadySet(number))
        } else if gaps(packets.push(packet)).len() > frame_model::MAX_MISSING_SEQNUM_RANGES {
            Err(FrameTrackerError::TooManyMissingPacketRanges(number))
        } else {
            Ok(())
        },
{
    lemma_follows(number, expires_at, packets);
    lemma_feed_keeps_number(FrameState::fresh(number, expires_at), packets);
    if !(packet.start_frame_flag && started(packets)) && !(packet.end_frame_flag && ended(
        packets,
    )) {
        law_refused_iff_too_many_gaps(number, expires_at, packets, packet);
    }
}

} // verus!
