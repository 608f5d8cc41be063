//! The binary extension field under its older name.
use crate::binary_extension_field::BinaryExtensionField;
use crate::binary_extension_field::errors::BinaryExtensionFieldError;
use crate::binary_extension_field::iterators::{
    BinaryExtensionFieldElementDegreeBoundedIterator,
    BinaryExtensionFieldElementFixedDegreeIterator,
};
use vstd::prelude::*;

verus! {

/// The finite field GF(2^n).
pub type FiniteField = BinaryExtensionField;

/// What can go wrong when a finite field is made.
pub type FiniteFieldError = BinaryExtensionFieldError;

/// The elements of a finite field up to a degree.
pub type FiniteFieldElementDegreeBoundedIterator = BinaryExtensionFieldElementDegreeBoundedIterator;

/// The elements of a finite field of one degree.
pub type FiniteFieldElementFixedDegreeIterator = BinaryExtensionFieldElementFixedDegreeIterator;

} // verus!
