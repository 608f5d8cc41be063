//! A vector of elements of a ring.
use crate::algebra::traits::Ring;
use vstd::prelude::*;

verus! {

/// Elements of a ring, in the order in which they were pushed, together
/// with the ring.
pub struct GenericVector<R: Ring> {
    elements: Vec<R::Element>,
    ring: R,
}

impl<R: Ring> GenericVector<R> {
    /// The elements held, in order.
    pub closed spec fn elements(&self) -> Seq<R::Element> {
        self.elements@
    }

    /// The ring that the elements belong to.
    pub closed spec fn ring(&self) -> R {
        self.ring
    }

    /// The empty vector over the ring.
    pub fn new(ring: R) -> (v: Self)
        ensures
            v.elements() == Seq::<R::Element>::empty(),
            v.ring() == ring,
    {
        GenericVector { elements: Vec::new(), ring }
    }

    /// Appends the element behind the last one.
    pub fn push(&mut self, element: R::Element)
        ensures
            final(self).elements() == old(self).elements().push(element),
            final(self).ring() == old(self).ring(),
    {
        self.elements.push(element);
    }
}

} // verus!
