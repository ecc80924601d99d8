//! The decode targets that an allocation grants.

use crate::media::DecodeTarget;
use smallvec::SmallVec;
use vstd::prelude::*;

verus! {

/// The number of senders whose decode targets are stored in place.
pub const MAX_EXPECTED_CLIENTS: usize = 16;

/// One optional decode target for each sender, the first few of them stored in place.
///
/// As with `Vec`, running out of memory is not what the contracts speak of.
#[verifier::external_body]
#[derive(Debug, PartialEq)]
pub struct SelectedDecodeTargets {
    inner: SmallVec<[Option<DecodeTarget>; MAX_EXPECTED_CLIENTS]>,
}

/// The decode targets that a `SelectedDecodeTargets` holds, in the order of the senders.
pub uninterp spec fn selected_targets(targets: SelectedDecodeTargets) -> Seq<Option<DecodeTarget>>;

impl View for SelectedDecodeTargets {
    type V = Seq<Option<DecodeTarget>>;

    open spec fn view(&self) -> Seq<Option<DecodeTarget>> {
        selected_targets(*self)
    }
}

impl SelectedDecodeTargets {
    /// `SmallVec::new`: an empty collection.
    #[verifier::external_body]
    pub(crate) fn new() -> (targets: SelectedDecodeTargets)
        ensures
            selected_targets(targets) == Seq::<Option<DecodeTarget>>::empty(),
    {
        SelectedDecodeTargets { inner: SmallVec::new() }
    }

    /// `SmallVec::from_elem`: so many copies of one item, here of `None`.
    #[verifier::external_body]
    pub(crate) fn none_for(count: usize) -> (targets: SelectedDecodeTargets)
        ensures
            selected_targets(targets) == Seq::new(count as nat, |i: int| None::<DecodeTarget>),
    {
        SelectedDecodeTargets { inner: SmallVec::from_elem(None, count) }
    }

    /// `SmallVec`'s `Clone`: the same items in the same order.
    #[verifier::external_body]
    pub(crate) fn duplicate(&self) -> (targets: SelectedDecodeTargets)
        ensures
            selected_targets(targets) == selected_targets(*self),
    {
        SelectedDecodeTargets { inner: self.inner.clone() }
    }

    /// `SmallVec::len`: the number of items.
    #[verifier::external_body]
    pub(crate) fn count(&self) -> (count: usize)
        ensures
            count == selected_targets(*self).len(),
    {
        self.inner.len()
    }

    /// `SmallVec`'s `Index`: the item at a position, which has to be in bounds.
    #[verifier::external_body]
    pub(crate) fn at(&self, index: usize) -> (target: Option<DecodeTarget>)
        requires
            index < selected_targets(*self).len(),
        ensures
            target == selected_targets(*self)[index as int],
    {
        self.inner[index]
    }

    /// `SmallVec`'s `IndexMut`: replaces the item at a position, which has to be in bounds.
    #[verifier::external_body]
    pub(crate) fn set(&mut self, index: usize, target: Option<DecodeTarget>)
        requires
            index < selected_targets(*old(self)).len(),
        ensures
            selected_targets(*final(self)) == selected_targets(*old(self)).update(
                index as int,
                target,
            ),
    {
        self.inner[index] = target;
    }

    /// Takes over the decode targets of `other`, which has as many.
    pub(crate) fn copy_from(&mut self, other: &SelectedDecodeTargets)
        requires
            old(self)@.len() == other@.len(),
        ensures
            final(self)@ == other@,
    {
        let count: usize = other.count();
        let mut i: usize = 0;
        while i < count
            invariant
                i <= count == other@.len(),
                self@.len() == other@.len(),
                forall|j: int| 0 <= j < i ==> self@[j] == other@[j],
            decreases count - i,
        {
            self.set(i, other.at(i));
            i += 1;
        }
        assert(self@ =~= other@);
    }

    /// The decode targets, in the order of the senders.
    pub fn to_vec(&self) -> (targets: Vec<Option<DecodeTarget>>)
        ensures
            targets@ == self@,
    {
        let count: usize = self.count();
        let mut targets: Vec<Option<DecodeTarget>> = Vec::new();
        let mut i: usize = 0;
        while i < count
            invariant
                i <= count == self@.len(),
                targets@ == self@.take(i as int),
            decreases count - i,
        {
            targets.push(self.at(i));
            i += 1;
        }
        targets
    }
}

} // verus!
