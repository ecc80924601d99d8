//! What a sender offers: its decode targets, each with the rate it costs and the picture size
//! it yields.

use crate::units::DataRate;
use smallvec::SmallVec;
use vstd::prelude::*;

verus! {

/// The position of a decode target in a sender's list, lowest quality first.
pub type DecodeTarget = usize;

/// A frame number that does not wrap around.
pub type FullFrameNumber = u64;

/// A packet sequence number that does not wrap around.
pub type FullSequenceNumber = u64;

/// Identifies one participant of a call.
#[derive(Debug, Clone, Copy, PartialEq, Eq, PartialOrd, Ord, Hash, Structural)]
pub struct DemuxId {
    pub id: u32,
}

/// The height of a picture in pixels.
#[derive(Debug, Clone, Copy, PartialEq, Eq, PartialOrd, Ord, Hash, Structural)]
pub struct VideoHeight {
    pub pixels: u16,
}

impl VideoHeight {
    pub fn as_u16(self) -> (pixels: u16)
        ensures
            pixels == self.pixels,
    {
        self.pixels
    }
}

impl vstd::std_specs::convert::FromSpecImpl<u16> for VideoHeight {
    open spec fn obeys_from_spec() -> bool {
        true
    }

    open spec fn from_spec(pixels: u16) -> VideoHeight {
        VideoHeight { pixels }
    }
}

impl From<u16> for VideoHeight {
    fn from(pixels: u16) -> (height: VideoHeight)
        ensures
            height.pixels == pixels,
    {
        VideoHeight { pixels }
    }
}

/// The size of a picture in pixels.
#[derive(Debug, Clone, Copy, PartialEq, Eq, Hash, Structural)]
pub struct Resolution {
    pub width: u16,
    pub height: u16,
}

impl Default for Resolution {
    fn default() -> (resolution: Resolution)
        ensures
            resolution == (Resolution { width: 0, height: 0 }),
    {
        Resolution { width: 0, height: 0 }
    }
}

/// What choosing one decode target means.
#[derive(Debug, Clone, Copy, PartialEq, Eq, Hash, Structural)]
pub struct DecodeTargetInfo {
    /// The bandwidth it takes.
    pub rate: DataRate,
    /// The size of the picture it yields.
    pub resolution: Resolution,
    /// The chain of frames that protects it.
    pub chain_index: usize,
}

/// The number of decode targets of one sender that are stored in place.
const INLINE_DECODE_TARGETS: usize = 8;

/// The decode targets of one sender, lowest quality first, the first few of them stored in place.
///
/// As with `Vec`, running out of memory is not what the contracts speak of.
#[verifier::external_body]
#[derive(Debug)]
pub struct DecodeTargetInfoList {
    inner: SmallVec<[DecodeTargetInfo; INLINE_DECODE_TARGETS]>,
}

/// The decode targets that a `DecodeTargetInfoList` holds, in order.
pub uninterp spec fn decode_targets(list: DecodeTargetInfoList) -> Seq<DecodeTargetInfo>;

impl View for DecodeTargetInfoList {
    type V = Seq<DecodeTargetInfo>;

    open spec fn view(&self) -> Seq<DecodeTargetInfo> {
        decode_targets(*self)
    }
}

impl DecodeTargetInfoList {
    /// `SmallVec::from_vec`: the items of a `Vec`, in the same order.
    #[verifier::external_body]
    fn from_vec(targets: Vec<DecodeTargetInfo>) -> (list: DecodeTargetInfoList)
        ensures
            decode_targets(list) == targets@,
    {
        DecodeTargetInfoList { inner: SmallVec::from_vec(targets) }
    }

    /// `SmallVec::len`: the number of items.
    #[verifier::external_body]
    fn count(&self) -> (count: usize)
        ensures
            count == decode_targets(*self).len(),
    {
        self.inner.len()
    }

    /// `SmallVec`'s `Index`: the item at a position, which has to be in bounds.
    #[verifier::external_body]
    fn at(&self, index: usize) -> (info: &DecodeTargetInfo)
        requires
            index < decode_targets(*self).len(),
        ensures
            *info == decode_targets(*self)[index as int],
    {
        &self.inner[index]
    }

    pub fn new(targets: Vec<DecodeTargetInfo>) -> (list: DecodeTargetInfoList)
        ensures
            list@ == targets@,
    {
        DecodeTargetInfoList::from_vec(targets)
    }

    pub fn len(&self) -> (count: usize)
        ensures
            count == self@.len(),
    {
        self.count()
    }

    pub fn is_empty(&self) -> (empty: bool)
        ensures
            empty == (self@.len() == 0),
    {
        self.count() == 0
    }

    /// The decode target at position `target`, if the sender offers one there.
    pub fn get(&self, target: DecodeTarget) -> (info: Option<&DecodeTargetInfo>)
        ensures
            info == if target < self@.len() {
                Some(&self@[target as int])
            } else {
                None
            },
    {
        if target < self.count() {
            Some(self.at(target))
        } else {
            None
        }
    }

    /// The rate of the decode target at position `target`, which the sender has to offer.
    pub(crate) fn rate_of(&self, target: DecodeTarget) -> (rate: DataRate)
        requires
            target < self@.len(),
        ensures
            rate == self@[target as int].rate,
    {
        self.at(target).rate
    }
}

/// The decode targets of several senders, in the order of the senders.
pub type DecodeTargetInfoLists<'a> = Vec<&'a DecodeTargetInfoList>;

} // verus!
