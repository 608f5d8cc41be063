//! The bit storage under a polynomial: a `bitvec` vector of bits, most
//! significant bit first, seen by the verifier as a sequence of booleans.
use bitvec::order::Msb0;
use bitvec::vec::BitVec;
use vstd::prelude::*;

verus! {

/// The longest bit sequence that the storage can hold
/// (`BitSlice::MAX_BITS`).
pub open spec fn max_bits() -> nat {
    (usize::MAX / 8) as nat
}

/// A growable sequence of bits, stored in a `bitvec::vec::BitVec<u8, Msb0>`.
/// The vector is hidden from the verifier, which does not take the traits
/// that the type is declared with; what it holds is `bits_of`.
#[derive(Debug)]
#[verifier::external_body]
pub struct BitSeq {
    inner: BitVec<u8, Msb0>,
}

/// The bits that the storage holds, in index order.
pub uninterp spec fn bits_of(v: BitSeq) -> Seq<bool>;

impl BitSeq {
    /// `BitVec::new`: the result holds no bit.
    #[verifier::external_body]
    pub(crate) fn new() -> (v: BitSeq)
        ensures
            bits_of(v) == Seq::<bool>::empty(),
    {
        BitSeq { inner: BitVec::new() }
    }

    /// `BitVec::with_capacity`: the result holds no bit; the call panics for
    /// a capacity beyond `max_bits()`.
    #[verifier::external_body]
    pub(crate) fn with_capacity(capacity: usize) -> (v: BitSeq)
        requires
            capacity <= max_bits(),
        ensures
            bits_of(v) == Seq::<bool>::empty(),
    {
        BitSeq { inner: BitVec::with_capacity(capacity) }
    }

    /// `BitVec::repeat`: `len` copies of `bit`; the call panics for a length
    /// beyond `max_bits()`.
    #[verifier::external_body]
    pub(crate) fn repeat(bit: bool, len: usize) -> (v: BitSeq)
        requires
            len <= max_bits(),
        ensures
            bits_of(v) == Seq::new(len as nat, |i: int| bit),
    {
        BitSeq { inner: BitVec::repeat(bit, len) }
    }

    /// `BitVec::len`: the number of bits held, never more than `max_bits()`.
    #[verifier::external_body]
    pub(crate) fn len(&self) -> (n: usize)
        ensures
            n == bits_of(*self).len(),
            n <= max_bits(),
    {
        self.inner.len()
    }

    /// Indexing a `BitVec`: the bit at `index`; the call panics beyond the
    /// end.
    #[verifier::external_body]
    pub(crate) fn get(&self, index: usize) -> (bit: bool)
        requires
            index < bits_of(*self).len(),
        ensures
            bit == bits_of(*self)[index as int],
    {
        self.inner[index]
    }

    /// `BitSlice::set`: the bit at `index` is replaced, the others stay; the
    /// call panics beyond the end.
    #[verifier::external_body]
    pub(crate) fn set(&mut self, index: usize, bit: bool)
        requires
            index < bits_of(*old(self)).len(),
        ensures
            bits_of(*final(self)) == bits_of(*old(self)).update(index as int, bit),
    {
        self.inner.set(index, bit)
    }

    /// `BitVec::push`: the bit is appended behind the last one; the call
    /// panics when `max_bits()` bits are held already.
    #[verifier::external_body]
    pub(crate) fn push(&mut self, bit: bool)
        requires
            bits_of(*old(self)).len() < max_bits(),
        ensures
            bits_of(*final(self)) == bits_of(*old(self)).push(bit),
    {
        self.inner.push(bit)
    }

    /// `BitVec::pop`: the last bit is taken off and returned, `None` when no
    /// bit is held.
    #[verifier::external_body]
    pub(crate) fn pop(&mut self) -> (bit: Option<bool>)
        ensures
            bits_of(*old(self)).len() == 0 ==> bit is None && bits_of(*final(self)) == bits_of(
                *old(self),
            ),
            bits_of(*old(self)).len() > 0 ==> bit == Some(bits_of(*old(self)).last())
                && bits_of(*final(self)) == bits_of(*old(self)).drop_last(),
    {
        self.inner.pop()
    }

    /// `BitVec::remove`: the bit at `index` is taken out and returned, the
    /// bits behind it move one place forward; the call panics beyond the end.
    #[verifier::external_body]
    pub(crate) fn remove(&mut self, index: usize) -> (bit: bool)
        requires
            index < bits_of(*old(self)).len(),
        ensures
            bit == bits_of(*old(self))[index as int],
            bits_of(*final(self)) == bits_of(*old(self)).remove(index as int),
    {
        self.inner.remove(index)
    }

    /// `BitVec::clone`: the copy holds the same bits.
    #[verifier::external_body]
    pub(crate) fn duplicate(&self) -> (v: BitSeq)
        ensures
            bits_of(v) == bits_of(*self),
    {
        BitSeq { inner: self.inner.clone() }
    }
}

} // verus!
