//! Enumerations of the elements of a binary extension field, by the bit
//! patterns of their coefficients in rising order.

use crate::polynomial::Polynomial;
use crate::polynomial::model::{degree, from_coeffs, trim};
use vstd::prelude::*;

verus! {

/// The polynomial whose coefficients are the lowest `width` bits of
/// `value`, the highest of them first.
pub open spec fn pattern_element(value: u128, width: nat) -> Seq<bool> {
    trim(Seq::new(width, |j: int| (value >> ((width - 1 - j) as u128)) & 1 == 1))
}

/// The lowest `width` bits of `value` as coefficients, the highest first,
/// for a width of 128 at most.
pub fn pattern_coeffs(value: u128, width: usize) -> (coeffs: Vec<u8>)
    requires
        width <= 128,
    ensures
        coeffs@.len() == width,
        from_coeffs(coeffs@) == pattern_element(value, width as nat),
{
    let mut coeffs: Vec<u8> = Vec::new();
    let mut j: usize = 0;
    while j < width
        invariant
            width <= 128,
            j <= width,
            coeffs@.len() == j,
            forall|t: int|
                0 <= t < j ==> (coeffs@[t] == 1u8) == ((value >> ((width - 1 - t) as u128)) & 1
                    == 1),
        decreases width - j,
    {
        let shift: u128 = (width - 1 - j) as u128;
        let bit: u8 = if (value >> shift) & 1 == 1 {
            1
        } else {
            0
        };
        coeffs.push(bit);
        j += 1;
    }
    assert(Seq::new(coeffs@.len(), |i: int| coeffs@[i] == 1u8) =~= Seq::new(
        width as nat,
        |j: int| (value >> ((width - 1 - j) as u128)) & 1 == 1,
    ));
    coeffs
}

/// The elements of a field whose degree is at most `max_degree`, by
/// rising bit pattern.
pub struct BinaryExtensionFieldElementDegreeBoundedIterator {
    pub current: u128,
    pub max: u128,
    pub degree: usize,
    pub max_degree: usize,
}

impl BinaryExtensionFieldElementDegreeBoundedIterator {
    /// Whether the element of the bit pattern `value` is one that the
    /// enumeration gives.
    pub open spec fn accepts(&self, value: u128) -> bool {
        degree(pattern_element(value, self.degree as nat)) <= self.max_degree
    }

    /// The next element: that of the first bit pattern from `current` on,
    /// below `max`, whose polynomial has a degree of at most `max_degree`;
    /// `current` moves behind it. Nothing where no such pattern is left. A
    /// pattern has 128 bits at most.
    pub fn next(&mut self) -> (r: Option<Polynomial>)
        requires
            old(self).degree <= 128,
        ensures
            final(self).max == old(self).max,
            final(self).degree == old(self).degree,
            final(self).max_degree == old(self).max_degree,
            r matches Some(p) ==> {
                &&& old(self).current < final(self).current <= old(self).max
                &&& p@ == pattern_element((final(self).current - 1) as u128, old(self).degree as nat)
                &&& old(self).accepts((final(self).current - 1) as u128)
                &&& forall|w: u128|
                    old(self).current <= w < final(self).current - 1 ==> !old(self).accepts(w)
            },
            r is None ==> {
                &&& forall|w: u128| old(self).current <= w < old(self).max ==> !old(self).accepts(w)
                &&& final(self).current == if old(self).current < old(self).max {
                    old(self).max
                } else {
                    old(self).current
                }
            },
    {
        while self.current < self.max
            invariant
                self.max == old(self).max,
                self.degree == old(self).degree,
                self.max_degree == old(self).max_degree,
                self.degree <= 128,
                old(self).current <= self.current,
                self.current <= self.max || self.current == old(self).current,
                forall|w: u128| old(self).current <= w < self.current ==> !old(self).accepts(w),
            decreases self.max - self.current,
        {
            let bits = pattern_coeffs(self.current, self.degree);
            let poly = Polynomial::new(bits.as_slice());
            self.current += 1;
            if poly.degree() <= self.max_degree {
                return Some(poly);
            }
        }
        None
    }
}

/// The elements of a field whose degree is `target_degree`, by rising bit
/// pattern.
pub struct BinaryExtensionFieldElementFixedDegreeIterator {
    pub current: u128,
    pub max: u128,
    pub degree: usize,
    pub target_degree: usize,
}

impl BinaryExtensionFieldElementFixedDegreeIterator {
    /// Whether the element of the bit pattern `value` is one that the
    /// enumeration gives.
    pub open spec fn accepts(&self, value: u128) -> bool {
        degree(pattern_element(value, self.degree as nat)) == self.target_degree
    }

    /// The next element: that of the first bit pattern from `current` on,
    /// below `max`, whose polynomial has the degree `target_degree`;
    /// `current` moves behind it. Nothing where no such pattern is left. A
    /// pattern has 128 bits at most.
    pub fn next(&mut self) -> (r: Option<Polynomial>)
        requires
            old(self).degree <= 128,
        ensures
            final(self).max == old(self).max,
            final(self).degree == old(self).degree,
            final(self).target_degree == old(self).target_degree,
            r matches Some(p) ==> {
                &&& old(self).current < final(self).current <= old(self).max
                &&& p@ == pattern_element((final(self).current - 1) as u128, old(self).degree as nat)
                &&& old(self).accepts((final(self).current - 1) as u128)
                &&& forall|w: u128|
                    old(self).current <= w < final(self).current - 1 ==> !old(self).accepts(w)
            },
            r is None ==> {
                &&& forall|w: u128| old(self).current <= w < old(self).max ==> !old(self).accepts(w)
                &&& final(self).current == if old(self).current < old(self).max {
                    old(self).max
                } else {
                    old(self).current
                }
            },
    {
        while self.current < self.max
            invariant
                self.max == old(self).max,
                self.degree == old(self).degree,
                self.target_degree == old(self).target_degree,
                self.degree <= 128,
                old(self).current <= self.current,
                self.current <= self.max || self.current == old(self).current,
                forall|w: u128| old(self).current <= w < self.current ==> !old(self).accepts(w),
            decreases self.max - self.current,
        {
            let bits = pattern_coeffs(self.current, self.degree);
            let poly = Polynomial::new(bits.as_slice());
            self.current += 1;
            if poly.degree() == self.target_degree {
                return Some(poly);
            }
        }
        None
    }
}

} // verus!
