use crate::bits::{bits_of, BitSeq, max_bits};
use crate::polynomial::{Polynomial, trim_bits};
use crate::polynomial::laws::lemma_square_coeff;
use crate::polynomial::model::{
    coeff, conv, is_canonical, lemma_mod_reduced, lemma_reduce_step, poly_add, poly_mod, poly_mul,
    reducible_by, weight, zero,
};
use vstd::prelude::*;

verus! {

impl Polynomial {
    /// The sum of two polynomials.
    pub fn add(&self, other: &Polynomial) -> (r: Polynomial)
        ensures
            r@ == poly_add(self@, other@),
            is_canonical(r@),
    {
        let la = self.bits.len();
        let lb = other.bits.len();
        let max_len = if la >= lb {
            la
        } else {
            lb
        };
        let mut result_bits = BitSeq::with_capacity(max_len);
        let self_offset = max_len - la;
        let other_offset = max_len - lb;
        let mut i: usize = 0;
        while i < max_len
            invariant
                la == bits_of(self.bits).len(),
                lb == bits_of(other.bits).len(),
                max_len == if la >= lb {
                    la
                } else {
                    lb
                },
                max_len <= max_bits(),
                self_offset == max_len - la,
                other_offset == max_len - lb,
                i <= max_len,
                bits_of(result_bits).len() == i,
                forall|j: int|
                    0 <= j < i ==> bits_of(result_bits)[j] == (coeff(self@, max_len - 1 - j)
                        != coeff(other@, max_len - 1 - j)),
            decreases max_len - i,
        {
            let self_bit = if i >= self_offset {
                self.bits.get(i - self_offset)
            } else {
                false
            };
            let other_bit = if i >= other_offset {
                other.bits.get(i - other_offset)
            } else {
                false
            };
            result_bits.push(self_bit ^ other_bit);
            i += 1;
        }
        assert(bits_of(result_bits) =~= Seq::new(
            max_len as nat,
            |i: int| coeff(self@, max_len - 1 - i) != coeff(other@, max_len - 1 - i),
        ));
        trim_bits(&mut result_bits);
        Polynomial { bits: result_bits }
    }

    /// Replaces `self` by its sum with `other`.
    pub fn add_in_place(&mut self, other: &Polynomial)
        ensures
            final(self)@ == poly_add(old(self)@, other@),
            is_canonical(final(self)@),
    {
        let sum = self.add(other);
        *self = sum;
    }

    /// The product of two polynomials, by carry-less convolution.
    pub fn multiply(&self, other: &Polynomial) -> (r: Polynomial)
        requires
            self@.len() + other@.len() - 1 <= max_bits(),
        ensures
            r@ == poly_mul(self@, other@),
            is_canonical(r@),
    {
        proof {
            use_type_invariant(self);
            use_type_invariant(other);
        }
        let la = self.bits.len();
        let lb = other.bits.len();
        let result_len = la + lb - 1;
        let mut result_bits = BitSeq::repeat(false, result_len);
        let ghost a = self@;
        let ghost b = other@;
        let mut i: usize = 0;
        while i < la
            invariant
                a == bits_of(self.bits),
                b == bits_of(other.bits),
                la == a.len(),
                lb == b.len(),
                la >= 1,
                lb >= 1,
                result_len == la + lb - 1,
                i <= la,
                bits_of(result_bits).len() == result_len,
                forall|t: int|
                    0 <= t < result_len ==> bits_of(result_bits)[t] == conv(
                        a.take(i as int),
                        b,
                        (result_len - 1 - t) - (la - i),
                    ),
            decreases la - i,
        {
            let ghost row_start = bits_of(result_bits);
            if self.bits.get(i) {
                let mut j: usize = 0;
                while j < lb
                    invariant
                        b == bits_of(other.bits),
                        lb == b.len(),
                        la >= 1,
                        result_len == la + lb - 1,
                        i < la,
                        j <= lb,
                        bits_of(result_bits).len() == result_len,
                        row_start.len() == result_len,
                        forall|t: int|
                            0 <= t < result_len ==> bits_of(result_bits)[t] == (row_start[t] != (i
                                <= t < i + j && b[t - i])),
                    decreases lb - j,
                {
                    if other.bits.get(j) {
                        let idx = i + j;
                        let bit = result_bits.get(idx);
                        result_bits.set(idx, bit ^ true);
                    }
                    j += 1;
                }
            }
            proof {
                let prev = a.take(i as int);
                let next = a.take(i + 1);
                assert(next.drop_last() =~= prev);
                assert(next.last() == a[i as int]);
                assert forall|t: int| 0 <= t < result_len implies bits_of(result_bits)[t] == conv(
                    next,
                    b,
                    (result_len - 1 - t) - (la - (i + 1)),
                ) by {
                    let k = (result_len - 1 - t) - (la - (i + 1));
                    assert(row_start[t] == conv(prev, b, k - 1));
                    assert(k == lb - 1 - (t - i));
                }
            }
            i += 1;
        }
        assert(a.take(la as int) =~= a);
        assert(bits_of(result_bits) =~= Seq::new(
            result_len as nat,
            |t: int| conv(a, b, result_len - 1 - t),
        ));
        trim_bits(&mut result_bits);
        Polynomial { bits: result_bits }
    }

    /// Replaces `self` by its product with `other`.
    pub fn multiply_in_place(&mut self, other: &Polynomial)
        requires
            old(self)@.len() + other@.len() - 1 <= max_bits(),
        ensures
            final(self)@ == poly_mul(old(self)@, other@),
            is_canonical(final(self)@),
    {
        let product = self.multiply(other);
        *self = product;
    }
    /// The square, by the Frobenius shortcut: a zero bit goes between every
    /// two coefficient bits.
    pub fn square(&self) -> (r: Polynomial)
        requires
            2 * self@.len() <= max_bits(),
        ensures
            r@ == poly_mul(self@, self@),
            is_canonical(r@),
    {
        proof {
            use_type_invariant(self);
        }
        let la = self.bits.len();
        let mut squared_bits = BitSeq::with_capacity(la * 2);
        let ghost a = self@;
        let mut i: usize = 0;
        while i < la
            invariant
                a == bits_of(self.bits),
                la == a.len(),
                2 * la <= max_bits(),
                i <= la,
                bits_of(squared_bits).len() == 2 * i,
                forall|t: int|
                    0 <= t < 2 * i ==> bits_of(squared_bits)[t] == (t % 2 == 0 && a[t / 2]),
            decreases la - i,
        {
            let bit = self.bits.get(i);
            squared_bits.push(bit);
            squared_bits.push(false);
            i += 1;
        }
        squared_bits.pop();
        proof {
            let n = 2 * la - 1;
            let raw = Seq::new(n as nat, |t: int| conv(a, a, n - 1 - t));
            assert forall|t: int| 0 <= t < n implies bits_of(squared_bits)[t] == raw[t] by {
                lemma_square_coeff(a, n - 1 - t);
                if t % 2 == 0 {
                    assert((n - 1 - t) / 2 == la - 1 - t / 2);
                }
            }
            assert(bits_of(squared_bits) =~= raw);
        }
        trim_bits(&mut squared_bits);
        Polynomial { bits: squared_bits }
    }

    /// The remainder of the division by `modulus`, which must not be zero.
    pub fn modulo(&self, modulus: &Polynomial) -> (r: Polynomial)
        requires
            modulus@ != zero(),
        ensures
            r@ == poly_mod(self@, modulus@),
            is_canonical(r@),
            r@ == zero() || r@.len() < modulus@.len(),
            r@.len() <= self@.len(),
    {
        proof {
            use_type_invariant(self);
            use_type_invariant(modulus);
            lemma_mod_reduced(self@, modulus@);
        }
        let mut remainder = self.clone();
        while remainder.degree() >= modulus.degree() && !remainder.is_zero()
            invariant
                is_canonical(modulus@),
                modulus@ != zero(),
                is_canonical(remainder@),
                poly_mod(remainder@, modulus@) == poly_mod(self@, modulus@),
            decreases weight(remainder@),
        {
            let degree_diff = remainder.degree() - modulus.degree();
            let shifted_modulus = modulus.shift_left(degree_diff);
            proof {
                assert(reducible_by(remainder@, modulus@));
                lemma_reduce_step(remainder@, modulus@);
            }
            remainder = remainder.add(&shifted_modulus);
        }
        remainder
    }
}

} // verus!
