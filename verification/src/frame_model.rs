//! The mathematical model of a frame whose packets are arriving.

use crate::frame_tracker::{FrameTrackerError, PacketInfo};
use crate::media::{FullFrameNumber, FullSequenceNumber};
use core::ops::Range;
use vstd::prelude::*;

verus! {

/// The most gaps that are tracked for one frame.
pub const MAX_MISSING_SEQNUM_RANGES: usize = 20;

/// What is known of a frame.
#[verifier::ext_equal]
pub struct FrameState {
    /// When the frame counts as lost.
    pub expires_at: nat,
    pub frame_number: FullFrameNumber,
    /// The sequence number of the packet that started the frame.
    pub start_seqnum: Option<FullSequenceNumber>,
    /// The sequence number of the packet that ended the frame.
    pub end_seqnum: Option<FullSequenceNumber>,
    /// The smallest sequence number that has arrived.
    pub min_seqnum: Option<FullSequenceNumber>,
    /// The largest sequence number that has arrived.
    pub max_seqnum: Option<FullSequenceNumber>,
    /// The gaps between the two.
    pub missing: Seq<Range<FullSequenceNumber>>,
}

/// The gaps of a frame after a change, and whether there was room for all of them.
#[verifier::ext_equal]
pub struct Gaps {
    pub ranges: Seq<Range<FullSequenceNumber>>,
    pub fit: bool,
}

/// What a packet does to a frame.
#[verifier::ext_equal]
pub struct FrameStep {
    pub frame: FrameState,
    pub result: Result<(), FrameTrackerError>,
}

/// `s` without its element at `i`, whose place the last element takes.
pub open spec fn swap_removed<T>(s: Seq<T>, i: int) -> Seq<T> {
    s.update(i, s.last()).drop_last()
}

/// The `i`-th range holds `seqnum`.
pub open spec fn covers(
    ranges: Seq<Range<FullSequenceNumber>>,
    i: int,
    seqnum: FullSequenceNumber,
) -> bool {
    0 <= i < ranges.len() && ranges[i].start <= seqnum < ranges[i].end
}

/// Some range holds `seqnum`.
pub open spec fn covered(
    ranges: Seq<Range<FullSequenceNumber>>,
    seqnum: FullSequenceNumber,
) -> bool {
    exists|i: int| covers(ranges, i, seqnum)
}

/// The `i`-th range holds `seqnum`, and none before it does.
pub open spec fn covers_first(
    ranges: Seq<Range<FullSequenceNumber>>,
    i: int,
    seqnum: FullSequenceNumber,
) -> bool {
    covers(ranges, i, seqnum) && forall|j: int| 0 <= j < i ==> !covers(ranges, j, seqnum)
}

/// The position of the first range that holds `seqnum`.
pub open spec fn first_cover(
    ranges: Seq<Range<FullSequenceNumber>>,
    seqnum: FullSequenceNumber,
) -> int {
    choose|i: int| covers_first(ranges, i, seqnum)
}

/// Notes the sequence numbers from `lo` up to but without `hi` as missing, if there are any.
pub open spec fn note_gap(ranges: Seq<Range<FullSequenceNumber>>, lo: int, hi: int) -> Gaps {
    if lo >= hi {
        Gaps { ranges, fit: true }
    } else if ranges.len() >= MAX_MISSING_SEQNUM_RANGES {
        Gaps { ranges, fit: false }
    } else {
        Gaps { ranges: ranges.push(Range { start: lo as u64, end: hi as u64 }), fit: true }
    }
}

/// Takes `seqnum` out of the first range that holds it; what is left of that range on either
/// side stays missing.
pub open spec fn split_gap(
    ranges: Seq<Range<FullSequenceNumber>>,
    seqnum: FullSequenceNumber,
) -> Gaps {
    let i = first_cover(ranges, seqnum);
    let below = note_gap(swap_removed(ranges, i), ranges[i].start as int, seqnum as int);
    if below.fit {
        note_gap(below.ranges, seqnum + 1, ranges[i].end as int)
    } else {
        below
    }
}

impl FrameState {
    /// A frame of which nothing has arrived.
    pub open spec fn fresh(frame_number: FullFrameNumber, expires_at: nat) -> FrameState {
        FrameState {
            expires_at,
            frame_number,
            start_seqnum: None,
            end_seqnum: None,
            min_seqnum: None,
            max_seqnum: None,
            missing: Seq::empty(),
        }
    }

    /// What holds of every frame that is tracked: the gaps lie strictly between the smallest
    /// and the largest sequence number that has arrived, and there are not too many of them.
    pub open spec fn wf(self) -> bool {
        &&& self.min_seqnum is Some <==> self.max_seqnum is Some
        &&& self.min_seqnum is None ==> self.start_seqnum is None && self.end_seqnum is None
            && self.missing.len() == 0
        &&& self.min_seqnum is Some ==> self.min_seqnum->0 <= self.max_seqnum->0
        &&& self.missing.len() <= MAX_MISSING_SEQNUM_RANGES
        &&& forall|i: int|
            #![trigger self.missing[i]]
            0 <= i < self.missing.len() ==> self.min_seqnum->0 < self.missing[i].start
                < self.missing[i].end <= self.max_seqnum->0
    }

    /// The frame expires before `other`, or when `other` does and has the smaller number.
    pub open spec fn is_older(self, other: FrameState) -> bool {
        self.expires_at < other.expires_at || (self.expires_at == other.expires_at
            && self.frame_number < other.frame_number)
    }

    /// The frame has a first packet and a last packet, and no packet is missing.
    pub open spec fn is_complete(self) -> bool {
        &&& self.missing.len() == 0
        &&& self.start_seqnum is Some
        &&& self.end_seqnum is Some
    }

    /// The gaps once the packet with `seqnum` has arrived.
    ///
    /// A packet outside of what has arrived so far opens a gap between itself and the rest. One
    /// inside a gap splits it. One that is in no gap has arrived before, and changes nothing.
    pub open spec fn gaps_with(self, seqnum: FullSequenceNumber) -> Gaps {
        match (self.min_seqnum, self.max_seqnum) {
            (Some(min), Some(max)) => if seqnum < min {
                note_gap(self.missing, seqnum + 1, min as int)
            } else if seqnum >= max {
                note_gap(self.missing, max + 1, seqnum as int)
            } else if covered(self.missing, seqnum) {
                split_gap(self.missing, seqnum)
            } else {
                Gaps { ranges: self.missing, fit: true }
            },
            _ => Gaps { ranges: self.missing, fit: true },
        }
    }

    /// What `packet` does to the frame.
    pub open spec fn step(self, packet: PacketInfo) -> FrameStep {
        let seqnum = packet.seqnum;
        if packet.start_frame_flag && self.start_seqnum is Some {
            FrameStep {
                frame: self,
                result: Err(FrameTrackerError::FrameStartFlagAlreadySet(self.frame_number)),
            }
        } else if packet.end_frame_flag && self.end_seqnum is Some {
            FrameStep {
                frame: self,
                result: Err(FrameTrackerError::FrameEndFlagAlreadySet(self.frame_number)),
            }
        } else {
            let gaps = self.gaps_with(seqnum);
            let marked = FrameState {
                start_seqnum: if packet.start_frame_flag {
                    Some(seqnum)
                } else {
                    self.start_seqnum
                },
                end_seqnum: if packet.end_frame_flag {
                    Some(seqnum)
                } else {
                    self.end_seqnum
                },
                missing: gaps.ranges,
                ..self
            };
            if gaps.fit {
                FrameStep {
                    frame: FrameState {
                        min_seqnum: if self.min_seqnum is Some && self.min_seqnum->0 <= seqnum {
                            self.min_seqnum
                        } else {
                            Some(seqnum)
                        },
                        max_seqnum: if self.max_seqnum is Some && seqnum <= self.max_seqnum->0 {
                            self.max_seqnum
                        } else {
                            Some(seqnum)
                        },
                        ..marked
                    },
                    result: Ok(()),
                }
            } else {
                FrameStep {
                    frame: marked,
                    result: Err(FrameTrackerError::TooManyMissingPacketRanges(self.frame_number)),
                }
            }
        }
    }
}

} // verus!
