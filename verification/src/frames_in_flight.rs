//! The frames that a tracker waits for.

use crate::frame_info::FrameInfo;
use crate::frame_model;
use crate::frame_model::FrameState;
use crate::media::FullFrameNumber;
use crate::time::Instant;
use crate::tracker_model;
use crate::tracker_model::MAX_FRAMES_IN_FLIGHT;
use smallvec::SmallVec;
use vstd::prelude::*;

verus! {

/// The frames in flight, stored in place.
///
/// As with `Vec`, running out of memory is not what the contracts speak of.
#[verifier::external_body]
#[derive(Debug)]
pub struct FramesInFlight {
    inner: SmallVec<[FrameInfo; MAX_FRAMES_IN_FLIGHT]>,
}

/// The frames that a `FramesInFlight` holds, in order.
pub uninterp spec fn frames_in_flight(frames: FramesInFlight) -> Seq<FrameInfo>;

impl View for FramesInFlight {
    type V = Seq<FrameInfo>;

    open spec fn view(&self) -> Seq<FrameInfo> {
        frames_in_flight(*self)
    }
}

impl FramesInFlight {
    /// `SmallVec::new`: an empty collection.
    #[verifier::external_body]
    pub(crate) fn new() -> (frames: FramesInFlight)
        ensures
            frames_in_flight(frames) == Seq::<FrameInfo>::empty(),
    {
        FramesInFlight { inner: SmallVec::new() }
    }

    /// `SmallVec::len`: the number of items.
    #[verifier::external_body]
    pub(crate) fn len(&self) -> (count: usize)
        ensures
            count == frames_in_flight(*self).len(),
    {
        self.inner.len()
    }

    /// `SmallVec::is_empty`: whether there are no items.
    #[verifier::external_body]
    pub(crate) fn is_empty(&self) -> (empty: bool)
        ensures
            empty == (frames_in_flight(*self).len() == 0),
    {
        self.inner.is_empty()
    }

    /// `SmallVec`'s `Index`: the item at a position, which has to be in bounds.
    #[verifier::external_body]
    pub(crate) fn at(&self, index: usize) -> (frame: &FrameInfo)
        requires
            index < frames_in_flight(*self).len(),
        ensures
            *frame == frames_in_flight(*self)[index as int],
    {
        &self.inner[index]
    }

    /// `SmallVec`'s `IndexMut`: the item at a position, which has to be in bounds, for changing
    /// it in place. The other items stay as they are.
    #[verifier::external_body]
    pub(crate) fn at_mut(&mut self, index: usize) -> (frame: &mut FrameInfo)
        requires
            index < frames_in_flight(*old(self)).len(),
        ensures
            *frame == frames_in_flight(*old(self))[index as int],
            frames_in_flight(*final(self)) == frames_in_flight(*old(self)).update(
                index as int,
                *final(frame),
            ),
    {
        &mut self.inner[index]
    }

    /// `SmallVec::push`: one more item, at the end.
    #[verifier::external_body]
    pub(crate) fn push(&mut self, frame: FrameInfo)
        ensures
            frames_in_flight(*final(self)) == frames_in_flight(*old(self)).push(frame),
    {
        self.inner.push(frame)
    }

    /// `SmallVec::swap_remove`: takes out the item at a position, which has to be in bounds;
    /// the last item takes its place.
    #[verifier::external_body]
    pub(crate) fn swap_remove(&mut self, index: usize) -> (frame: FrameInfo)
        requires
            index < frames_in_flight(*old(self)).len(),
        ensures
            frame == frames_in_flight(*old(self))[index as int],
            frames_in_flight(*final(self)) == frame_model::swap_removed(
                frames_in_flight(*old(self)),
                index as int,
            ),
    {
        self.inner.swap_remove(index)
    }

    /// `SmallVec::retain`: keeps the items that the closure accepts, here the frames that have
    /// not expired at `now`, in their order.
    #[verifier::external_body]
    pub(crate) fn retain_unexpired(&mut self, now: Instant)
        ensures
            frames_in_flight(*final(self)) == frames_in_flight(*old(self)).filter(
                |frame: FrameInfo| frame@.expires_at > now@,
            ),
    {
        self.inner.retain(|frame| frame.outlives(now))
    }

    /// The position of the first frame with number `n`.
    pub(crate) fn position(&self, n: FullFrameNumber) -> (position: Option<usize>)
        ensures
            match position {
                Some(i) => at_number(self@, i as int, n),
                None => !numbered(self@, n),
            },
    {
        let count: usize = self.len();
        let mut i: usize = 0;
        while i < count
            invariant
                i <= count == self@.len(),
                forall|j: int| 0 <= j < i ==> !at_number(self@, j, n),
            decreases count - i,
        {
            if self.at(i).frame_number() == n {
                return Some(i);
            }
            i += 1;
        }
        None
    }

    /// The position of the frame that expires first, or of several that do, of the one with the
    /// smallest number.
    pub(crate) fn oldest(&self) -> (position: usize)
        requires
            self@.len() > 0,
        ensures
            position < self@.len(),
            forall|i: int|
                0 <= i < self@.len() ==> !(#[trigger] self@[i])@.is_older(
                    self@[position as int]@,
                ),
    {
        let count: usize = self.len();
        let mut oldest: usize = 0;
        let mut i: usize = 1;
        while i < count
            invariant
                1 <= i <= count == self@.len(),
                oldest < count,
                forall|j: int|
                    0 <= j < i ==> !(#[trigger] self@[j])@.is_older(self@[oldest as int]@),
            decreases count - i,
        {
            if self.at(i).is_older(self.at(oldest)) {
                oldest = i;
            }
            i += 1;
        }
        oldest
    }
}

/// The `i`-th frame has number `n`.
pub open spec fn at_number(frames: Seq<FrameInfo>, i: int, n: FullFrameNumber) -> bool {
    0 <= i < frames.len() && frames[i]@.frame_number == n
}

/// Some frame has number `n`.
pub open spec fn numbered(frames: Seq<FrameInfo>, n: FullFrameNumber) -> bool {
    exists|i: int| at_number(frames, i, n)
}

/// No two frames have the same number.
pub open spec fn distinct(frames: Seq<FrameInfo>) -> bool {
    forall|i: int, j: int|
        0 <= i < j < frames.len() ==> frames[i]@.frame_number != frames[j]@.frame_number
}

/// The frames by their numbers.
pub open spec fn by_number(frames: Seq<FrameInfo>) -> Map<FullFrameNumber, FrameState> {
    Map::new(
        |n: FullFrameNumber| numbered(frames, n),
        |n: FullFrameNumber| frames[choose|i: int| at_number(frames, i, n)]@,
    )
}

/// A map that holds each frame under its number, and nothing else, is `by_number`.
pub(crate) proof fn lemma_is_by_number(
    frames: Seq<FrameInfo>,
    map: Map<FullFrameNumber, FrameState>,
)
    requires
        distinct(frames),
        forall|i: int|
            #![trigger frames[i]]
            0 <= i < frames.len() ==> map.contains_key(frames[i]@.frame_number)
                && map[frames[i]@.frame_number] == frames[i]@,
        forall|n: FullFrameNumber| #[trigger] map.contains_key(n) ==> numbered(frames, n),
    ensures
        by_number(frames) == map,
{
    assert forall|n: FullFrameNumber| by_number(frames).contains_key(n) == map.contains_key(n) by {
        if numbered(frames, n) {
            let i = choose|i: int| at_number(frames, i, n);
            assert(map.contains_key(frames[i]@.frame_number));
        }
    }
    assert forall|n: FullFrameNumber| map.contains_key(n) implies by_number(frames)[n]
        == map[n] by {
        let i = choose|i: int| at_number(frames, i, n);
        assert(map[frames[i]@.frame_number] == frames[i]@);
    }
    assert(by_number(frames) =~= map);
}

/// Each frame is found under its number.
pub(crate) proof fn lemma_lookup(frames: Seq<FrameInfo>, i: int)
    requires
        distinct(frames),
        0 <= i < frames.len(),
    ensures
        by_number(frames).contains_key(frames[i]@.frame_number),
        by_number(frames)[frames[i]@.frame_number] == frames[i]@,
{
    assert(at_number(frames, i, frames[i]@.frame_number));
}

/// Adding a frame with a new number inserts it.
pub(crate) proof fn lemma_push(frames: Seq<FrameInfo>, frame: FrameInfo)
    requires
        distinct(frames),
        !numbered(frames, frame@.frame_number),
    ensures
        distinct(frames.push(frame)),
        by_number(frames.push(frame)) == by_number(frames).insert(frame@.frame_number, frame@),
{
    let after = frames.push(frame);
    let map = by_number(frames).insert(frame@.frame_number, frame@);
    assert forall|i: int| 0 <= i < frames.len() implies (#[trigger] frames[i])@.frame_number
        != frame@.frame_number by {
        if frames[i]@.frame_number == frame@.frame_number {
            assert(at_number(frames, i, frame@.frame_number));
        }
    }
    assert forall|i: int| #![trigger after[i]] 0 <= i < after.len() implies map.contains_key(
        after[i]@.frame_number,
    ) && map[after[i]@.frame_number] == after[i]@ by {
        if i < frames.len() {
            lemma_lookup(frames, i);
        }
    }
    assert forall|n: FullFrameNumber| #[trigger] map.contains_key(n) implies numbered(after, n) by {
        if n == frame@.frame_number {
            assert(at_number(after, frames.len() as int, n));
        } else {
            let i = choose|i: int| at_number(frames, i, n);
            assert(at_number(after, i, n));
        }
    }
    lemma_is_by_number(after, map);
}

/// Changing a frame in place, but not its number, replaces it.
pub(crate) proof fn lemma_update(frames: Seq<FrameInfo>, i: int, frame: FrameInfo)
    requires
        distinct(frames),
        0 <= i < frames.len(),
        frame@.frame_number == frames[i]@.frame_number,
    ensures
        distinct(frames.update(i, frame)),
        by_number(frames.update(i, frame)) == by_number(frames).insert(frame@.frame_number, frame@),
{
    let after = frames.update(i, frame);
    let map = by_number(frames).insert(frame@.frame_number, frame@);
    assert forall|j: int| #![trigger after[j]] 0 <= j < after.len() implies map.contains_key(
        after[j]@.frame_number,
    ) && map[after[j]@.frame_number] == after[j]@ by {
        lemma_lookup(frames, j);
        if j != i {
            assert(frames[j]@.frame_number != frames[i]@.frame_number);
        }
    }
    assert forall|n: FullFrameNumber| #[trigger] map.contains_key(n) implies numbered(after, n) by {
        if n == frame@.frame_number {
            assert(at_number(after, i, n));
        } else {
            let j = choose|j: int| at_number(frames, j, n);
            assert(at_number(after, j, n));
        }
    }
    lemma_is_by_number(after, map);
}

/// Taking out a frame removes its number.
pub(crate) proof fn lemma_swap_remove(frames: Seq<FrameInfo>, i: int)
    requires
        distinct(frames),
        0 <= i < frames.len(),
    ensures
        distinct(frame_model::swap_removed(frames, i)),
        by_number(frame_model::swap_removed(frames, i)) == by_number(frames).remove(
            frames[i]@.frame_number,
        ),
{
    let after = frame_model::swap_removed(frames, i);
    let removed = frames[i]@.frame_number;
    let map = by_number(frames).remove(removed);
    let last = frames.len() - 1;
    assert forall|j: int| #![trigger after[j]] 0 <= j < after.len() implies map.contains_key(
        after[j]@.frame_number,
    ) && map[after[j]@.frame_number] == after[j]@ && after[j]@.frame_number != removed by {
        let k = if j == i {
            last
        } else {
            j
        };
        assert(after[j] == frames[k]);
        lemma_lookup(frames, k);
        assert(frames[k]@.frame_number != frames[i]@.frame_number);
    }
    assert forall|n: FullFrameNumber| #[trigger] map.contains_key(n) implies numbered(after, n) by {
        let k = choose|k: int| at_number(frames, k, n);
        let j = if k == last {
            i
        } else {
            k
        };
        assert(at_number(after, j, n));
    }
    lemma_is_by_number(after, map);
}

/// Keeping the frames that satisfy `keep` keeps the numbers of those.
pub(crate) proof fn lemma_filter(
    frames: Seq<FrameInfo>,
    keep: spec_fn(FrameInfo) -> bool,
    kept: Set<FullFrameNumber>,
)
    requires
        distinct(frames),
        forall|i: int|
            #![trigger frames[i]]
            0 <= i < frames.len() ==> keep(frames[i]) == kept.contains(frames[i]@.frame_number),
    ensures
        distinct(frames.filter(keep)),
        by_number(frames.filter(keep)) == by_number(frames).restrict(kept),
    decreases frames.len(),
{
    reveal(Seq::filter);
    if frames.len() == 0 {
        assert(frames.filter(keep) =~= frames);
        lemma_is_by_number(frames, by_number(frames).restrict(kept));
    } else {
        let init = frames.drop_last();
        let last = frames.last();
        let number = last@.frame_number;
        assert forall|i: int| #![trigger init[i]] 0 <= i < init.len() implies keep(init[i])
            == kept.contains(init[i]@.frame_number) by {
            assert(init[i] == frames[i]);
        }
        lemma_filter(init, keep, kept);
        assert(!numbered(init, number)) by {
            if numbered(init, number) {
                let i = choose|i: int| at_number(init, i, number);
                assert(frames[i]@.frame_number != frames[frames.len() - 1]@.frame_number);
            }
        }
        assert(frames == init.push(last));
        lemma_push(init, last);
        if keep(last) {
            assert(!by_number(init.filter(keep)).contains_key(number));
            lemma_push(init.filter(keep), last);
        }
        assert(by_number(frames.filter(keep)) =~= by_number(frames).restrict(kept));
    }
}

/// The frame that no other is older than is the oldest.
pub(crate) proof fn lemma_oldest(frames: Seq<FrameInfo>, i: int)
    requires
        distinct(frames),
        0 <= i < frames.len(),
        forall|j: int| 0 <= j < frames.len() ==> !(#[trigger] frames[j])@.is_older(frames[i]@),
    ensures
        tracker_model::oldest(by_number(frames)) == frames[i]@.frame_number,
{
    let map = by_number(frames);
    lemma_lookup(frames, i);
    assert forall|m: FullFrameNumber| #[trigger] map.contains_key(m) implies
        map[frames[i]@.frame_number].expires_at < map[m].expires_at || (
    map[frames[i]@.frame_number].expires_at == map[m].expires_at && frames[i]@.frame_number
        <= m) by {
        let j = choose|j: int| at_number(frames, j, m);
        lemma_lookup(frames, j);
        assert(!frames[j]@.is_older(frames[i]@));
    }
    assert(tracker_model::is_oldest(map, frames[i]@.frame_number));
    tracker_model::lemma_one_oldest(map, frames[i]@.frame_number);
}

/// There are as many numbers as frames.
pub(crate) proof fn lemma_count(frames: Seq<FrameInfo>)
    requires
        distinct(frames),
    ensures
        by_number(frames).dom().finite(),
        by_number(frames).len() == frames.len(),
    decreases frames.len(),
{
    if frames.len() == 0 {
        assert(by_number(frames) =~= Map::empty());
    } else {
        let init = frames.drop_last();
        let last = frames.last();
        lemma_count(init);
        assert(!numbered(init, last@.frame_number)) by {
            if numbered(init, last@.frame_number) {
                let i = choose|i: int| at_number(init, i, last@.frame_number);
                assert(frames[i]@.frame_number != frames[frames.len() - 1]@.frame_number);
            }
        }
        assert(frames == init.push(last));
        lemma_push(init, last);
    }
}

} // verus!
