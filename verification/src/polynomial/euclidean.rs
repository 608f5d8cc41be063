use crate::bits::{bits_of, BitSeq, max_bits};
use crate::polynomial::Polynomial;
use crate::polynomial::congruence::{lemma_inverse_correct, lemma_irreducible_inverse};
use crate::polynomial::laws::{lemma_div_rem, lemma_div_step};
use crate::polynomial::model::{
    coeff, ext_euclid, is_canonical, is_irreducible_poly, is_reduced, lemma_canonical_unique,
    lemma_mod_reduced, lemma_reduce_step, one, poly_add, poly_div, poly_gcd, poly_inverse, poly_mod,
    poly_mul, poly_mul_mod, reduce_step, reducible_by, weight, zero,
};
use vstd::prelude::*;

verus! {

impl Polynomial {
    /// Divides `self` by `other`, which must not be zero, by binary long
    /// division: the quotient and the remainder.
    pub fn div_rem(&self, other: &Polynomial) -> (qr: (Polynomial, Polynomial))
        requires
            other@ != zero(),
        ensures
            qr.0@ == poly_div(self@, other@),
            qr.1@ == poly_mod(self@, other@),
            is_canonical(qr.0@),
            is_canonical(qr.1@),
            poly_add(poly_mul(qr.0@, other@), qr.1@) == self@,
            qr.1@ == zero() || qr.1@.len() < other@.len(),
            qr.0@.len() <= self@.len(),
            qr.1@.len() <= self@.len(),
    {
        proof {
            use_type_invariant(self);
            use_type_invariant(other);
            lemma_div_rem(self@, other@);
            lemma_mod_reduced(self@, other@);
        }
        let mut dividend = self.clone();
        let max_diff = if dividend.degree() >= other.degree() {
            dividend.degree() - other.degree()
        } else {
            0
        };
        let mut quotient_bits = BitSeq::repeat(false, max_diff + 1);
        let ghost a = self@;
        let ghost b = other@;
        let ghost mut bound: int = max_diff + 1;
        while dividend.degree() >= other.degree() && !dividend.is_zero()
            invariant
                a == self@,
                b == other@,
                is_canonical(a),
                is_canonical(b),
                b != zero(),
                is_canonical(dividend@),
                max_diff == if a.len() >= b.len() {
                    a.len() - b.len()
                } else {
                    0
                },
                bits_of(quotient_bits).len() == max_diff + 1,
                0 <= bound <= max_diff + 1,
                bound == max_diff + 1 ==> dividend@ == a,
                bound <= max_diff ==> bits_of(quotient_bits)[0],
                reducible_by(dividend@, b) ==> dividend@.len() - b.len() < bound,
                forall|k: int|
                    #![trigger coeff(bits_of(quotient_bits), k)]
                    coeff(bits_of(quotient_bits), k) ==> k >= bound,
                poly_mod(dividend@, b) == poly_mod(a, b),
                forall|k: int|
                    #![trigger coeff(poly_div(a, b), k)]
                    coeff(poly_div(a, b), k) == (coeff(bits_of(quotient_bits), k) != coeff(
                        poly_div(dividend@, b),
                        k,
                    )),
            decreases weight(dividend@),
        {
            let degree_diff = dividend.degree() - other.degree();
            let quotient_idx = max_diff - degree_diff;
            let ghost before = bits_of(quotient_bits);
            let ghost prev = dividend@;
            proof {
                assert(reducible_by(prev, b));
                lemma_reduce_step(prev, b);
                lemma_div_step(prev, b);
                assert(!coeff(before, degree_diff as int));
            }
            quotient_bits.set(quotient_idx, true);
            let shifted_divisor = other.shift_left(degree_diff);
            dividend = dividend.add(&shifted_divisor);
            proof {
                let after = bits_of(quotient_bits);
                assert(dividend@ == reduce_step(prev, b));
                assert forall|k: int| #![trigger coeff(after, k)] coeff(after, k) == (coeff(
                    before,
                    k,
                ) != (k == degree_diff)) by {}
                assert forall|k: int| #![trigger coeff(poly_div(a, b), k)] coeff(poly_div(a, b), k)
                    == (coeff(after, k) != coeff(poly_div(dividend@, b), k)) by {
                    assert(coeff(poly_div(a, b), k) == (coeff(before, k) != coeff(
                        poly_div(prev, b),
                        k,
                    )));
                    assert(coeff(poly_div(prev, b), k) == ((k == prev.len() - b.len()) != coeff(
                        poly_div(dividend@, b),
                        k,
                    )));
                    assert(coeff(after, k) == (coeff(before, k) != (k == degree_diff)));
                }
                bound = degree_diff as int;
                assert forall|k: int| #![trigger coeff(after, k)] coeff(after, k) implies k
                    >= bound by {
                    assert(coeff(after, k) == (coeff(before, k) != (k == degree_diff)));
                    if coeff(before, k) {
                    }
                }
            }
        }
        proof {
            let q = bits_of(quotient_bits);
            assert(!reducible_by(dividend@, b));
            assert(poly_div(dividend@, b) == zero());
            assert(poly_mod(dividend@, b) == dividend@);
            if max_diff >= 1 {
                assert(a.len() >= 2);
                if bound == max_diff + 1 {
                    assert(dividend@ == a);
                    assert(reducible_by(a, b));
                }
            }
            assert(is_canonical(q));
            assert forall|k: int| #![trigger coeff(q, k)] coeff(q, k) == coeff(poly_div(a, b), k) by {
                assert(coeff(poly_div(a, b), k) == (coeff(q, k) != coeff(
                    poly_div(dividend@, b),
                    k,
                )));
            }
            lemma_canonical_unique(q, poly_div(a, b));
        }
        let quotient = Polynomial { bits: quotient_bits };
        let remainder = dividend;
        (quotient, remainder)
    }

    /// The greatest common divisor, by Euclid's algorithm.
    pub fn gcd(&self, other: &Polynomial) -> (g: Polynomial)
        ensures
            g@ == poly_gcd(self@, other@),
            is_canonical(g@),
    {
        proof {
            use_type_invariant(self);
            use_type_invariant(other);
        }
        let mut a = self.clone();
        let mut b = other.clone();
        while !b.is_zero()
            invariant
                is_canonical(a@),
                is_canonical(b@),
                poly_gcd(a@, b@) == poly_gcd(self@, other@),
            decreases weight(b@),
        {
            let remainder = a.modulo(&b);
            a = b;
            b = remainder;
        }
        a
    }

    /// The inverse of `self` modulo `modulus`, by the extended Euclidean
    /// algorithm on `self` and `modulus`; nothing where the two have a
    /// common divisor other than 1, or where `modulus` is zero.
    pub fn inverse(&self, modulus: &Polynomial) -> (inv: Option<Polynomial>)
        requires
            self@.len() + modulus@.len() <= max_bits(),
            2 * modulus@.len() <= max_bits(),
        ensures
            match inv {
                Some(s) => poly_inverse(self@, modulus@) == Some(s@) && is_reduced(s@, modulus@)
                    && poly_mul_mod(self@, s@, modulus@) == poly_mod(one(), modulus@),
                None => poly_inverse(self@, modulus@) is None,
            },
            inv is Some <==> modulus@ != zero() && poly_gcd(self@, modulus@) == one(),
            is_irreducible_poly(modulus@) && self@ != zero() && self@.len() < modulus@.len()
                ==> inv is Some,
    {
        proof {
            use_type_invariant(self);
            use_type_invariant(modulus);
            lemma_inverse_correct(self@, modulus@);
            if is_irreducible_poly(modulus@) && self@ != zero() && self@.len() < modulus@.len() {
                lemma_irreducible_inverse(self@, modulus@);
            }
        }
        if modulus.is_zero() {
            return None;
        }
        let mut r0 = self.clone();
        let mut r1 = modulus.clone();
        let mut s0 = Polynomial::one();
        let mut s1 = Polynomial::zero();
        let ghost m = modulus@;
        while !r1.is_zero()
            invariant
                m == modulus@,
                is_canonical(m),
                m != zero(),
                is_canonical(r0@),
                is_canonical(r1@),
                is_canonical(s0@),
                is_canonical(s1@),
                r0@.len() <= self@.len() || r0@.len() <= m.len(),
                r1@.len() <= self@.len() || r1@.len() <= m.len(),
                s1@.len() <= m.len(),
                self@.len() + m.len() <= max_bits(),
                2 * m.len() <= max_bits(),
                ext_euclid(r0@, r1@, s0@, s1@, m) == ext_euclid(self@, m, one(), zero(), m),
            decreases weight(r1@),
        {
            let (q, r) = r0.div_rem(&r1);
            r0 = r1;
            r1 = r;
            let s_new = s0.add(&q.multiply(&s1)).modulo(modulus);
            s0 = s1;
            s1 = s_new;
        }
        if r0.is_one() {
            Some(s0.modulo(modulus))
        } else {
            None
        }
    }
}

} // verus!
