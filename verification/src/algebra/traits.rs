//! The capabilities that the algebraic structures share: ring, group and
//! field, each over the elements of a structure.
use num_bigint::BigUint;
use vstd::prelude::*;

verus! {

/// A structure with elements.
pub trait Algebra {
    type Element;

    /// Whether the value is an element of the structure.
    spec fn is_element(&self, e: &Self::Element) -> bool;
}

/// A ring: addition and multiplication of elements, with their neutral
/// elements.
pub trait Ring: Algebra {
    /// The sum of two elements.
    fn add(&self, a: &Self::Element, b: &Self::Element) -> (r: Self::Element)
        requires
            self.is_element(a),
            self.is_element(b),
        ensures
            self.is_element(&r),
    ;

    /// The product of two elements.
    fn mul(&self, a: &Self::Element, b: &Self::Element) -> (r: Self::Element)
        requires
            self.is_element(a),
            self.is_element(b),
        ensures
            self.is_element(&r),
    ;

    /// The neutral element of addition.
    fn zero(&self) -> (r: Self::Element)
        ensures
            self.is_element(&r),
    ;

    /// The neutral element of multiplication.
    fn one(&self) -> Self::Element;
}

/// A group: an operation on elements, with a neutral element, inverses
/// where they exist, and powers.
pub trait Group: Algebra {
    /// The operation of the group on two elements.
    fn combine(&self, a: &Self::Element, b: &Self::Element) -> (r: Self::Element)
        requires
            self.is_element(a),
            self.is_element(b),
        ensures
            self.is_element(&r),
    ;

    /// The neutral element of the operation.
    fn identity(&self) -> Self::Element;

    /// The inverse of an element, where it has one.
    fn inverse(&self, a: &Self::Element) -> (r: Option<Self::Element>)
        requires
            self.is_element(a),
        ensures
            r matches Some(b) ==> self.is_element(&b),
    ;

    /// The element combined with itself `exp` times.
    fn pow(&self, a: &Self::Element, exp: &BigUint) -> (r: Self::Element)
        requires
            self.is_element(a),
        ensures
            self.is_element(&r),
    ;
}

/// A field: a ring whose elements other than zero form a group.
pub trait Field: Ring + Group {

}

} // verus!
