//! Tracks which frames of a stream have arrived in full.

use crate::frame_info::FrameInfo;
use crate::frames_in_flight;
use crate::frames_in_flight::FramesInFlight;
use crate::media::{FullFrameNumber, FullSequenceNumber};
use crate::time::{Duration, Instant};
use crate::tracker_laws;
use crate::tracker_model;
use crate::tracker_model::TrackerState;
use std::collections::VecDeque;
use vstd::prelude::*;

pub use crate::tracker_model::MAX_FRAMES_IN_FLIGHT;

verus! {

/// The number of complete frames that are remembered by default. A frame can refer to one that
/// was seen 4096 frames before it.
pub const DEFAULT_COMPLETE_FRAMES_TRACKED: usize = 4096;

/// The default time between two cleanups, in milliseconds.
pub const DEFAULT_PRUNE_PERIOD_MILLIS: u64 = 500;

/// The default time that a frame may stay in flight before it is discarded, in seconds.
pub const DEFAULT_FRAME_LIFETIME_SECS: u64 = 5;

/// How close to the newest complete frame a frame that is asked for is expected to be.
const EXPECTED_REFERENCE_RANGE: usize = 10;

/// Why a packet was refused.
#[derive(Debug, Clone, Copy, PartialEq, Eq, Structural)]
pub enum FrameTrackerError {
    /// A second packet of the frame claims to be its first one.
    FrameStartFlagAlreadySet(FullFrameNumber),
    /// A second packet of the frame claims to be its last one.
    FrameEndFlagAlreadySet(FullFrameNumber),
    /// The packets of the frame that have arrived leave more gaps than are tracked.
    TooManyMissingPacketRanges(FullFrameNumber),
}

/// What the tracker needs to know of a packet.
#[derive(Debug, Clone, Copy, PartialEq, Eq, Structural)]
pub struct PacketInfo {
    pub seqnum: FullSequenceNumber,
    pub frame_number: FullFrameNumber,
    pub start_frame_flag: bool,
    pub end_frame_flag: bool,
}

impl Default for PacketInfo {
    fn default() -> (packet: PacketInfo)
        ensures
            packet == (PacketInfo {
                seqnum: 0,
                frame_number: 0,
                start_frame_flag: false,
                end_frame_flag: false,
            }),
    {
        PacketInfo { seqnum: 0, frame_number: 0, start_frame_flag: false, end_frame_flag: false }
    }
}

/// How a `FrameTracker` is to work.
#[derive(Debug, Clone, Copy, PartialEq, Eq, Structural)]
pub struct FrameTrackerConfig {
    /// The most complete frames to remember. The list is kept first in, first out: when there is
    /// one more, the one that became complete first is forgotten.
    pub max_complete_frames: usize,
    /// How often stale frames in flight are discarded.
    pub prune_period: Duration,
    /// How long a frame may stay in flight before it is discarded.
    pub frame_lifetime: Duration,
}

impl Default for FrameTrackerConfig {
    fn default() -> (config: FrameTrackerConfig)
        ensures
            config.max_complete_frames == DEFAULT_COMPLETE_FRAMES_TRACKED,
            config.prune_period@ == DEFAULT_PRUNE_PERIOD_MILLIS * 1_000_000,
            config.frame_lifetime@ == DEFAULT_FRAME_LIFETIME_SECS * 1_000_000_000,
    {
        FrameTrackerConfig {
            max_complete_frames: DEFAULT_COMPLETE_FRAMES_TRACKED,
            prune_period: Duration::from_millis(DEFAULT_PRUNE_PERIOD_MILLIS),
            frame_lifetime: Duration::from_secs(DEFAULT_FRAME_LIFETIME_SECS),
        }
    }
}

/// Tracks which frames of one RTP stream have been received in full.
///
/// A frame that has been received in full is *complete*: it has a first packet, a last packet,
/// and no packet in between is missing. A frame of which some packets have arrived, and which is
/// not complete, is in flight. It may be in flight for a limited time only, after which it is
/// purged and counts as lost. No more than `MAX_FRAMES_IN_FLIGHT` frames are in flight at a time.
///
/// Frames are expected not to overlap: all packets between the first and the last packet of a
/// frame belong to that frame.
#[derive(Debug)]
pub struct FrameTracker {
    max_complete_frames: usize,
    /// The complete frames in ascending order, for looking them up.
    complete_frames: VecDeque<FullFrameNumber>,
    /// The complete frames in the order in which they became complete.
    completion_order: VecDeque<FullFrameNumber>,
    frames_in_flight: FramesInFlight,
    next_prune_time: Instant,
    prune_period: Duration,
    frame_lifetime: Duration,
}

impl View for FrameTracker {
    type V = TrackerState;

    closed spec fn view(&self) -> TrackerState {
        TrackerState {
            max_complete_frames: self.max_complete_frames as nat,
            complete: self.complete_frames@,
            order: self.completion_order@,
            in_flight: frames_in_flight::by_number(self.frames_in_flight@),
            next_prune_time: self.next_prune_time@,
            prune_period: self.prune_period@,
            frame_lifetime: self.frame_lifetime@,
        }
    }
}

impl FrameTracker {
    /// No two frames in flight have the same number.
    pub closed spec fn tracks_each_once(&self) -> bool {
        frames_in_flight::distinct(self.frames_in_flight@)
    }

    /// What holds of every tracker that `new` made.
    pub open spec fn wf(&self) -> bool {
        &&& self.tracks_each_once()
        &&& self@.wf()
    }

    /// A tracker that has seen nothing. `now` is the current time.
    pub fn new(config: FrameTrackerConfig, now: Instant) -> (tracker: FrameTracker)
        requires
            now@ + config.prune_period@ <= u128::MAX,
        ensures
            tracker.wf(),
            tracker@ == TrackerState::empty(
                config.max_complete_frames as nat,
                config.prune_period@,
                config.frame_lifetime@,
                now@,
            ),
            tracker@.max_complete_frames == config.max_complete_frames,
            tracker@.complete.len() == 0,
            tracker@.order.len() == 0,
            tracker@.in_flight.len() == 0,
            tracker@.next_prune_time == now@ + config.prune_period@,
            tracker@.prune_period == config.prune_period@,
            tracker@.frame_lifetime == config.frame_lifetime@,
    {
        let FrameTrackerConfig { max_complete_frames, prune_period, frame_lifetime } = config;
        let tracker = FrameTracker {
            max_complete_frames,
            prune_period,
            frame_lifetime,
            complete_frames: VecDeque::new(),
            completion_order: VecDeque::new(),
            frames_in_flight: FramesInFlight::new(),
            next_prune_time: now + prune_period,
        };
        proof {
            frames_in_flight::lemma_is_by_number(tracker.frames_in_flight@, Map::empty());
        }
        tracker
    }

    fn push_complete_frame(&mut self, frame_number: FullFrameNumber)
        requires
            old(self)@.remembers_well(),
        ensures
            final(self)@ == old(self)@.remember(frame_number),
            final(self).frames_in_flight == old(self).frames_in_flight,
            final(self)@.remembers_well(),
    {
        proof {
            tracker_laws::law_remember(self@, frame_number);
        }
        // Without room for a single frame nothing is remembered.
        if self.max_complete_frames == 0 {
            return;
        }
        if self.completion_order.len() >= self.max_complete_frames {
            if let Some(forgotten) = self.completion_order.pop_front() {
                proof {
                    assert(old(self)@.order.contains(forgotten));
                    tracker_laws::law_same_in_both_orders(old(self)@, forgotten);
                    tracker_model::lemma_rank_finds(self.complete_frames@, forgotten);
                    tracker_laws::lemma_without(self.complete_frames@, forgotten);
                }
                let index: usize = self.place_of(forgotten);
                self.complete_frames.remove(index);
            }
        }
        self.completion_order.push_back(frame_number);
        // The place of the frame number is generally at the very end or close to it, so look
        // from there.
        let ghost kept = self.complete_frames@;
        let mut index: usize = self.complete_frames.len();
        assert(kept.take(kept.len() as int) == kept);
        while index > 0 && self.complete_frames[index - 1] >= frame_number
            invariant
                index <= kept.len(),
                self.complete_frames@ == kept,
                tracker_model::rank(kept, frame_number) == tracker_model::rank(
                    kept.take(index as int),
                    frame_number,
                ),
            decreases index,
        {
            assert(kept.take(index as int).drop_last() == kept.take(index - 1));
            index -= 1;
        }
        if index > 0 {
            self.complete_frames.insert(index, frame_number);
        } else {
            self.complete_frames.push_front(frame_number);
        }
    }

    /// The place of `frame_number` among the complete frames, which are in order.
    fn place_of(&self, frame_number: FullFrameNumber) -> (place: usize)
        requires
            tracker_model::ascending(self@.complete),
        ensures
            place == tracker_model::rank(self@.complete, frame_number),
    {
        let mut low: usize = 0;
        let mut high: usize = self.complete_frames.len();
        while low < high
            invariant
                low <= high <= self.complete_frames@.len(),
                tracker_model::ascending(self.complete_frames@),
                forall|i: int| 0 <= i < low ==> self.complete_frames@[i] < frame_number,
                forall|i: int|
                    high <= i < self.complete_frames@.len() ==> self.complete_frames@[i]
                        >= frame_number,
            decreases high - low,
        {
            let middle: usize = low + (high - low) / 2;
            if self.complete_frames[middle] < frame_number {
                low = middle + 1;
            } else {
                high = middle;
            }
        }
        proof {
            let place = tracker_model::rank(self.complete_frames@, frame_number);
            tracker_model::lemma_rank(self.complete_frames@, frame_number);
            if place < low {
                assert(self.complete_frames@[place] < frame_number);
            }
            if low < place {
                assert(self.complete_frames@[low as int] < frame_number);
            }
        }
        low
    }

    /// Whether the frame is known to be complete: it has a first packet, a last packet, and no
    /// packet in between is missing.
    pub fn is_complete(&self, frame_number: FullFrameNumber) -> (complete: bool)
        requires
            self.wf(),
        ensures
            complete == self@.complete.contains(frame_number),
    {
        // The frame is expected to be close to the end, so look there first.
        let count: usize = self.complete_frames.len();
        let mut scanned: usize = 0;
        while scanned < count && scanned < EXPECTED_REFERENCE_RANGE
            invariant
                scanned <= count == self.complete_frames@.len(),
            decreases count - scanned,
        {
            if self.complete_frames[count - 1 - scanned] == frame_number {
                return true;
            }
            scanned += 1;
        }
        proof {
            tracker_model::lemma_rank(self@.complete, frame_number);
            tracker_model::lemma_rank_finds(self@.complete, frame_number);
        }
        let place: usize = self.place_of(frame_number);
        place < count && self.complete_frames[place] == frame_number
    }

    /// Takes in a packet that arrived at `now`.
    ///
    /// Where the packet brings a frame into flight while `MAX_FRAMES_IN_FLIGHT` others are, the
    /// one that expires first gives way and counts as lost; of several that do, the one with the
    /// smallest number.
    pub fn update(&mut self, now: Instant, packet_info: PacketInfo) -> (result: Result<
        (),
        FrameTrackerError,
    >)
        requires
            old(self).wf(),
            old(self)@.in_flight.contains_key(packet_info.frame_number) || now@
                + old(self)@.frame_lifetime <= u128::MAX,
        ensures
            final(self).wf(),
            final(self)@ == old(self)@.update(now@, packet_info).tracker,
            result == old(self)@.update(now@, packet_info).result,
            forall|m: FullFrameNumber|
                old(self)@.complete.contains(m) && (old(self)@.order.len()
                    < old(self)@.max_complete_frames || m != old(self)@.order[0]) ==> #[trigger]
                final(self)@.complete.contains(m),
    {
        let frame_number: FullFrameNumber = packet_info.frame_number;
        let ghost before = self.frames_in_flight@;
        proof {
            tracker_laws::law_update_keeps_wf(self@, now@, packet_info);
            assert forall|m: FullFrameNumber|
                self@.complete.contains(m) && (self@.order.len() < self@.max_complete_frames || m
                    != self@.order[0]) implies #[trigger] self@.update(
                now@,
                packet_info,
            ).tracker.complete.contains(m) by {
                tracker_laws::law_update_keeps_complete_frames(self@, now@, packet_info, m);
            }
        }

        if let Some(index) = self.frames_in_flight.position(frame_number) {
            proof {
                frames_in_flight::lemma_lookup(before, index as int);
            }
            let frame = self.frames_in_flight.at_mut(index);
            let result = frame.handle_packet(packet_info);
            let complete: bool = frame.is_complete();
            proof {
                let after = self.frames_in_flight@;
                let map = frames_in_flight::by_number(before);
                frames_in_flight::lemma_update(before, index as int, after[index as int]);
                frames_in_flight::lemma_swap_remove(after, index as int);
                assert(map.insert(frame_number, map[frame_number]) =~= map);
                assert(frames_in_flight::by_number(after).remove(frame_number) =~= map.remove(
                    frame_number,
                ));
            }
            if let Err(e) = result {
                // A frame with too many gaps is given up.
                if matches!(e, FrameTrackerError::TooManyMissingPacketRanges(_)) {
                    self.frames_in_flight.swap_remove(index);
                }
                return Err(e);
            }
            if complete {
                self.push_complete_frame(frame_number);
                self.frames_in_flight.swap_remove(index);
            }
        } else {
            let expires_at: Instant = now + self.frame_lifetime;
            let mut frame = FrameInfo::new(frame_number, expires_at);
            frame.handle_packet(packet_info)?;
            if frame.is_complete() {
                self.push_complete_frame(frame_number);
                proof {
                    let map = frames_in_flight::by_number(before);
                    assert(map.remove(frame_number) =~= map);
                }
            } else {
                proof {
                    frames_in_flight::lemma_count(before);
                }
                if self.frames_in_flight.len() >= MAX_FRAMES_IN_FLIGHT {
                    let oldest: usize = self.frames_in_flight.oldest();
                    proof {
                        frames_in_flight::lemma_oldest(before, oldest as int);
                        frames_in_flight::lemma_swap_remove(before, oldest as int);
                    }
                    self.frames_in_flight.swap_remove(oldest);
                }
                proof {
                    let room = self.frames_in_flight@;
                    assert(!frames_in_flight::by_number(room).contains_key(frame_number));
                    frames_in_flight::lemma_push(room, frame);
                }
                self.frames_in_flight.push(frame);
            }
        }

        Ok(())
    }

    /// Discards the frames in flight that have expired, if it is time to. To be called
    /// periodically.
    pub fn do_periodic_cleanup(&mut self, now: Instant)
        requires
            old(self).wf(),
            now@ >= old(self)@.next_prune_time ==> now@ + old(self)@.prune_period <= u128::MAX,
        ensures
            final(self).wf(),
            final(self)@ == old(self)@.cleanup(now@),
            final(self)@.complete == old(self)@.complete,
            final(self)@.order == old(self)@.order,
            forall|n: FullFrameNumber| #[trigger]
                final(self)@.in_flight.contains_key(n) <==> old(self)@.in_flight.contains_key(n)
                    && (now@ < old(self)@.next_prune_time || old(self)@.in_flight[n].expires_at
                    > now@),
    {
        proof {
            let frames = self.frames_in_flight@;
            let in_flight = self@.in_flight;
            let keep = |frame: FrameInfo| frame@.expires_at > now@;
            let kept = Set::new(|n: FullFrameNumber| in_flight[n].expires_at > now@);
            assert forall|i: int| #![trigger frames[i]] 0 <= i < frames.len() implies keep(
                frames[i],
            ) == kept.contains(frames[i]@.frame_number) by {
                frames_in_flight::lemma_lookup(frames, i);
            }
            frames_in_flight::lemma_filter(frames, keep, kept);
            tracker_laws::law_cleanup_keeps_wf(self@, now@);
        }
        if now.nanos >= self.next_prune_time.nanos {
            self.next_prune_time = now + self.prune_period;
            self.frames_in_flight.retain_unexpired(now);
        }
    }

    /// The number of frames in flight.
    #[must_use]
    pub fn len(&self) -> (count: usize)
        requires
            self.wf(),
        ensures
            count == self@.in_flight.len(),
    {
        proof {
            frames_in_flight::lemma_count(self.frames_in_flight@);
        }
        self.frames_in_flight.len()
    }

    /// Whether no frame is in flight.
    pub fn is_empty(&self) -> (empty: bool)
        requires
            self.wf(),
        ensures
            empty == (self@.in_flight.len() == 0),
    {
        proof {
            frames_in_flight::lemma_count(self.frames_in_flight@);
        }
        self.frames_in_flight.is_empty()
    }
}

} // verus!
