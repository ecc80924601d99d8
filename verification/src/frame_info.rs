//! A frame whose packets are arriving.

use crate::frame_model;
use crate::frame_model::{FrameState, MAX_MISSING_SEQNUM_RANGES};
use crate::frame_tracker::{FrameTrackerError, PacketInfo};
use crate::media::{FullFrameNumber, FullSequenceNumber};
use crate::time::Instant;
use core::ops::Range;
use smallvec::SmallVec;
use vstd::prelude::*;

verus! {

/// The gaps of a frame, the first few of them stored in place.
///
/// As with `Vec`, running out of memory is not what the contracts speak of.
#[verifier::external_body]
#[derive(Debug)]
pub struct MissingRanges {
    inner: SmallVec<[Range<FullSequenceNumber>; 8]>,
}

/// The ranges that a `MissingRanges` holds, in order.
pub uninterp spec fn missing_ranges(ranges: MissingRanges) -> Seq<Range<FullSequenceNumber>>;

impl View for MissingRanges {
    type V = Seq<Range<FullSequenceNumber>>;

    open spec fn view(&self) -> Seq<Range<FullSequenceNumber>> {
        missing_ranges(*self)
    }
}

impl MissingRanges {
    /// `SmallVec::new`: an empty collection.
    #[verifier::external_body]
    fn new() -> (ranges: MissingRanges)
        ensures
            missing_ranges(ranges) == Seq::<Range<FullSequenceNumber>>::empty(),
    {
        MissingRanges { inner: SmallVec::new() }
    }

    /// `SmallVec::len`: the number of items.
    #[verifier::external_body]
    fn len(&self) -> (count: usize)
        ensures
            count == missing_ranges(*self).len(),
    {
        self.inner.len()
    }

    /// `SmallVec::is_empty`: whether there are no items.
    #[verifier::external_body]
    fn is_empty(&self) -> (empty: bool)
        ensures
            empty == (missing_ranges(*self).len() == 0),
    {
        self.inner.is_empty()
    }

    /// `SmallVec`'s `Index`: the item at a position, which has to be in bounds.
    #[verifier::external_body]
    fn at(&self, index: usize) -> (range: &Range<FullSequenceNumber>)
        requires
            index < missing_ranges(*self).len(),
        ensures
            *range == missing_ranges(*self)[index as int],
    {
        &self.inner[index]
    }

    /// `SmallVec::push`: one more item, at the end.
    #[verifier::external_body]
    fn push(&mut self, range: Range<FullSequenceNumber>)
        ensures
            missing_ranges(*final(self)) == missing_ranges(*old(self)).push(range),
    {
        self.inner.push(range)
    }

    /// `SmallVec::swap_remove`: takes out the item at a position, which has to be in bounds;
    /// the last item takes its place.
    #[verifier::external_body]
    fn swap_remove(&mut self, index: usize) -> (range: Range<FullSequenceNumber>)
        requires
            index < missing_ranges(*old(self)).len(),
        ensures
            range == missing_ranges(*old(self))[index as int],
            missing_ranges(*final(self)) == frame_model::swap_removed(
                missing_ranges(*old(self)),
                index as int,
            ),
    {
        self.inner.swap_remove(index)
    }

    /// The position of the first range that holds `seqnum`.
    fn position(&self, seqnum: FullSequenceNumber) -> (position: Option<usize>)
        ensures
            match position {
                Some(i) => frame_model::covers_first(self@, i as int, seqnum),
                None => !frame_model::covered(self@, seqnum),
            },
    {
        let count: usize = self.len();
        let mut i: usize = 0;
        while i < count
            invariant
                i <= count == self@.len(),
                forall|j: int| 0 <= j < i ==> !frame_model::covers(self@, j, seqnum),
            decreases count - i,
        {
            let range = self.at(i);
            if range.start <= seqnum && seqnum < range.end {
                return Some(i);
            }
            i += 1;
        }
        None
    }
}

/// A frame whose packets are arriving.
#[derive(Debug)]
pub struct FrameInfo {
    expires_at: Instant,
    frame_number: FullFrameNumber,
    start_seqnum: Option<FullSequenceNumber>,
    end_seqnum: Option<FullSequenceNumber>,
    min_seqnum: Option<FullSequenceNumber>,
    max_seqnum: Option<FullSequenceNumber>,
    // The first 8 gaps are stored in place; MAX_MISSING_SEQNUM_RANGES is the most there can be.
    missing_seqnum_ranges: MissingRanges,
}

impl View for FrameInfo {
    type V = FrameState;

    closed spec fn view(&self) -> FrameState {
        FrameState {
            expires_at: self.expires_at@,
            frame_number: self.frame_number,
            start_seqnum: self.start_seqnum,
            end_seqnum: self.end_seqnum,
            min_seqnum: self.min_seqnum,
            max_seqnum: self.max_seqnum,
            missing: self.missing_seqnum_ranges@,
        }
    }
}

impl FrameInfo {
    pub fn new(frame_number: FullFrameNumber, expires_at: Instant) -> (frame: FrameInfo)
        ensures
            frame@ == FrameState::fresh(frame_number, expires_at@),
    {
        FrameInfo {
            expires_at,
            frame_number,
            start_seqnum: None,
            end_seqnum: None,
            min_seqnum: None,
            max_seqnum: None,
            missing_seqnum_ranges: MissingRanges::new(),
        }
    }

    pub fn frame_number(&self) -> (frame_number: FullFrameNumber)
        ensures
            frame_number == self@.frame_number,
    {
        self.frame_number
    }

    /// Whether the frame may still be waited for at `now`.
    pub fn outlives(&self, now: Instant) -> (outlives: bool)
        ensures
            outlives == (self@.expires_at > now@),
    {
        self.expires_at.nanos > now.nanos
    }

    /// Whether the frame expires before `other`, or when `other` does and has the smaller number.
    pub fn is_older(&self, other: &FrameInfo) -> (older: bool)
        ensures
            older == self@.is_older(other@),
    {
        self.expires_at.nanos < other.expires_at.nanos || (self.expires_at.nanos
            == other.expires_at.nanos && self.frame_number < other.frame_number)
    }

    /// Whether the frame has a first and a last packet and no packet is missing.
    pub fn is_complete(&self) -> (complete: bool)
        ensures
            complete == self@.is_complete(),
    {
        self.missing_seqnum_ranges.is_empty() && self.start_seqnum.is_some()
            && self.end_seqnum.is_some()
    }

    fn push_missing_seqnum_range_if_not_empty(
        &mut self,
        range: Range<FullSequenceNumber>,
    ) -> (result: Result<(), FrameTrackerError>)
        ensures
            final(self)@ == (FrameState {
                missing: frame_model::note_gap(
                    old(self)@.missing,
                    range.start as int,
                    range.end as int,
                ).ranges,
                ..old(self)@
            }),
            result == if frame_model::note_gap(
                old(self)@.missing,
                range.start as int,
                range.end as int,
            ).fit {
                Ok(())
            } else {
                Err(FrameTrackerError::TooManyMissingPacketRanges(old(self)@.frame_number))
            },
    {
        if range.start < range.end {
            if self.missing_seqnum_ranges.len() >= MAX_MISSING_SEQNUM_RANGES {
                return Err(FrameTrackerError::TooManyMissingPacketRanges(self.frame_number));
            }
            self.missing_seqnum_ranges.push(range);
        }
        Ok(())
    }

    /// Takes in one more packet of the frame.
    pub fn handle_packet(&mut self, packet_info: PacketInfo) -> (result: Result<
        (),
        FrameTrackerError,
    >)
        requires
            old(self)@.wf(),
        ensures
            final(self)@ == old(self)@.step(packet_info).frame,
            result == old(self)@.step(packet_info).result,
            result is Ok ==> final(self)@.wf(),
    {
        let PacketInfo { start_frame_flag, end_frame_flag, seqnum, .. } = packet_info;

        if start_frame_flag && self.start_seqnum.is_some() {
            return Err(FrameTrackerError::FrameStartFlagAlreadySet(self.frame_number));
        }
        if end_frame_flag && self.end_seqnum.is_some() {
            return Err(FrameTrackerError::FrameEndFlagAlreadySet(self.frame_number));
        }
        if start_frame_flag {
            self.start_seqnum = Some(seqnum);
        }
        if end_frame_flag {
            self.end_seqnum = Some(seqnum);
        }
        if let Some(min_seqnum) = self.min_seqnum {
            if seqnum < min_seqnum {
                self.push_missing_seqnum_range_if_not_empty(seqnum + 1..min_seqnum)?;
                self.min_seqnum = Some(seqnum);
                if self.max_seqnum.is_none() {
                    self.max_seqnum = Some(seqnum);
                }
                return Ok(());
            }
        } else {
            self.min_seqnum = Some(seqnum);
        }
        if let Some(max_seqnum) = self.max_seqnum {
            if seqnum < max_seqnum {
                if let Some(range_index) = self.missing_seqnum_ranges.position(seqnum) {
                    // Remove the range and keep what is left of it on either side.
                    let range = self.missing_seqnum_ranges.swap_remove(range_index);
                    self.push_missing_seqnum_range_if_not_empty(range.start..seqnum)?;
                    self.push_missing_seqnum_range_if_not_empty(seqnum + 1..range.end)?;
                }
                // A packet that is not missing has arrived before, and is ignored.
            } else {
                if seqnum - max_seqnum > 1 {
                    self.push_missing_seqnum_range_if_not_empty(max_seqnum + 1..seqnum)?;
                }
                self.max_seqnum = Some(seqnum);
            }
        } else {
            self.max_seqnum = Some(seqnum);
        }

        Ok(())
    }
}

} // verus!
