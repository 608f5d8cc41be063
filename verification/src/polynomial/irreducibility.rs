use crate::bits::max_bits;
use crate::numbers::{is_prime_divisor, is_prime_factor_list, listed};
use crate::polynomial::Polynomial;
use crate::polynomial::laws::{lemma_add_zero_equal, lemma_gcd_nonzero};
use crate::polynomial::model::{
    degree, is_canonical, is_irreducible_poly, lemma_trim, one, rabin_coprime_at, rabin_irreducible,
    zero,
};
use crate::polynomial::rabin::{lemma_degree_one_irreducible, lemma_rabin_exact};
use crate::random::random_bit;
use vstd::prelude::*;

verus! {

impl Polynomial {
    /// Whether the polynomial is irreducible over GF(2), by Rabin's test.
    pub fn is_irreducible(&self) -> (r: bool)
        requires
            2 * self@.len() <= max_bits(),
        ensures
            r == is_irreducible_poly(self@),
    {
        proof {
            lemma_rabin_exact(self@);
        }
        let n = self.degree();
        if n == 0 {
            return false;
        }
        if n == 1 {
            return true;
        }
        let ghost f = self@;
        assert(f != zero());
        let prime_factors = Polynomial::distinct_prime_factors(n);
        let x = Polynomial::x();
        let mut idx: usize = 0;
        while idx < prime_factors.len()
            invariant
                f == self@,
                is_canonical(f),
                f != zero(),
                n == degree(f),
                n >= 2,
                x@ == crate::polynomial::model::x(),
                2 * f.len() <= max_bits(),
                idx <= prime_factors@.len(),
                rabin_irreducible(f) <==> is_irreducible_poly(f),
                is_prime_factor_list(prime_factors@, n as nat),
                forall|j: int| 0 <= j < idx ==> rabin_coprime_at(f, #[trigger] prime_factors@[j] as nat),
            decreases prime_factors@.len() - idx,
        {
            let p = prime_factors[idx];
            assert(is_prime_divisor(prime_factors@[idx as int] as nat, n as nat));
            let exponent = n / p;
            let x_exp = x.pow2_mod(exponent, self);
            let diff = x_exp.add(&x);
            let gcd = self.gcd(&diff);
            proof {
                lemma_gcd_nonzero(f, diff@);
                if gcd@.len() == 1 {
                    if !gcd@[0] {
                        assert(gcd@ =~= zero());
                    }
                    assert(gcd@ =~= one());
                }
            }
            if gcd.degree() >= 1 {
                assert(!rabin_coprime_at(f, p as nat));
                return false;
            }
            idx += 1;
        }
        let x_final = x.pow2_mod(n, self);
        proof {
            lemma_add_zero_equal(x_final@, x@);
            assert forall|p: nat| #[trigger] is_prime_divisor(p, n as nat) implies rabin_coprime_at(
                f,
                p,
            ) by {
                assert(listed(prime_factors@, p));
                let j = choose|j: int|
                    0 <= j < prime_factors@.len() && #[trigger] prime_factors@[j] as nat == p;
                assert(rabin_coprime_at(f, prime_factors@[j] as nat));
            }
        }
        x_final.add(&x).is_zero()
    }

    /// Draws monic polynomials of the given degree at random until one is
    /// irreducible, `max_attempts` times at most. Every polynomial of degree
    /// 1 is irreducible, so the first draw of that degree is taken; none of
    /// degree 0 is.
    pub fn irreducible_element(degree: usize, max_attempts: usize) -> (found: Option<Polynomial>)
        requires
            2 * (degree + 1) <= max_bits(),
        ensures
            found matches Some(p) ==> p@.len() == degree + 1 && is_irreducible_poly(p@),
            (max_attempts == 0 || degree == 0) ==> found is None,
            degree == 1 && max_attempts > 0 ==> found is Some,
    {
        let mut attempt: usize = 0;
        while attempt < max_attempts
            invariant
                2 * (degree + 1) <= max_bits(),
                degree == 1 ==> attempt == 0,
            decreases max_attempts - attempt,
        {
            let poly = Polynomial::random_monic_polynomial(degree);
            proof {
                if degree == 1 {
                    lemma_degree_one_irreducible(poly@);
                }
            }
            if poly.is_irreducible() {
                return Some(poly);
            }
            attempt += 1;
        }
        None
    }

    /// A monic polynomial of the given degree, its lower coefficients drawn
    /// at random.
    pub fn random_monic_polynomial(degree: usize) -> (p: Polynomial)
        requires
            degree < max_bits(),
        ensures
            p@.len() == degree + 1,
            is_canonical(p@),
            p@[0],
    {
        let mut coeffs: Vec<u8> = Vec::new();
        coeffs.push(1u8);
        let mut i: usize = 0;
        while i < degree
            invariant
                i <= degree,
                degree < max_bits(),
                coeffs@.len() == i + 1,
                coeffs@[0] == 1u8,
            decreases degree - i,
        {
            coeffs.push(random_bit());
            i += 1;
        }
        proof {
            let raw = Seq::new(coeffs@.len(), |i: int| coeffs@[i] == 1u8);
            assert(is_canonical(raw));
            lemma_trim(raw);
        }
        Polynomial::new(coeffs.as_slice())
    }
}

} // verus!
