//! Positional pairing of two sequences with length-mismatch detection.
//!
//! A [`ZippedIterator`] yields pairs for as long as both sources have
//! elements. A size mismatch is recorded the moment one source is
//! exhausted while the other still has at least one more element, so the
//! flag is only reliable once the traversal has been driven to the end.

use vstd::prelude::*;

verus! {

/// Pairs elements of two vectors positionally, recording whether one ran
/// out while the other still had elements.
pub struct ZippedIterator<'a, A, B> {
    left: &'a Vec<A>,
    right: &'a Vec<B>,
    pos: usize,
    mismatch: bool,
}

/// Pair `left` and `right` positionally.
pub fn zip<'a, A, B>(left: &'a Vec<A>, right: &'a Vec<B>) -> (z: ZippedIterator<'a, A, B>)
    ensures
        z.left_spec() == left@,
        z.right_spec() == right@,
        z.pos_spec() == 0,
        !z.mismatch_spec(),
        z.wf(),
{
    ZippedIterator { left, right, pos: 0, mismatch: false }
}

impl<'a, A, B> ZippedIterator<'a, A, B> {
    /// The left source.
    pub closed spec fn left_spec(&self) -> Seq<A> {
        self.left@
    }

    /// The right source.
    pub closed spec fn right_spec(&self) -> Seq<B> {
        self.right@
    }

    /// How many pairs have been produced.
    pub closed spec fn pos_spec(&self) -> int {
        self.pos as int
    }

    /// Whether a size mismatch has been observed so far.
    pub closed spec fn mismatch_spec(&self) -> bool {
        self.mismatch
    }

    /// The number of pairs both sources can supply.
    pub open spec fn common_len(&self) -> int {
        if self.left_spec().len() <= self.right_spec().len() {
            self.left_spec().len() as int
        } else {
            self.right_spec().len() as int
        }
    }

    /// The traversal has not run past the end of the shorter source.
    pub open spec fn wf(&self) -> bool {
        self.pos_spec() <= self.common_len()
    }

    /// The next pair, while both sources still have elements.
    ///
    /// Once one source is exhausted, the call returns `None`; if the other
    /// source still had an element, the mismatch flag is set by that very
    /// call. Reading the flag before the traversal has reached this point
    /// can under-report a mismatch.
    pub fn next(&mut self) -> (r: Option<(&'a A, &'a B)>)
        requires
            old(self).wf(),
        ensures
            final(self).wf(),
            final(self).left_spec() == old(self).left_spec(),
            final(self).right_spec() == old(self).right_spec(),
            old(self).pos_spec() < old(self).common_len() ==> {
                &&& final(self).pos_spec() == old(self).pos_spec() + 1
                &&& final(self).mismatch_spec() == old(self).mismatch_spec()
                &&& match r {
                    Some(p) => *p.0 == old(self).left_spec()[old(self).pos_spec()] && *p.1 == old(
                        self,
                    ).right_spec()[old(self).pos_spec()],
                    None => false,
                }
            },
            old(self).pos_spec() >= old(self).common_len() ==> {
                &&& final(self).pos_spec() == old(self).pos_spec()
                &&& r is None
                &&& final(self).mismatch_spec() == (old(self).mismatch_spec() || old(
                    self,
                ).left_spec().len() != old(self).right_spec().len())
            },
    {
        let left = self.left;
        let right = self.right;
        if self.pos < left.len() && self.pos < right.len() {
            let a = &left[self.pos];
            let b = &right[self.pos];
            self.pos = self.pos + 1;
            Some((a, b))
        } else {
            if self.pos < left.len() || self.pos < right.len() {
                self.mismatch = true;
            }
            None
        }
    }

    /// Whether a size mismatch has been observed.
    ///
    /// Reliable only after the traversal has been driven until [`Self::next`]
    /// returned `None`.
    pub fn has_size_mismatch(&self) -> (r: bool)
        ensures
            r == self.mismatch_spec(),
    {
        self.mismatch
    }
}

} // verus!
