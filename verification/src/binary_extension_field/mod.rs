//! The binary extension field GF(2^n): polynomials over GF(2) modulo an
//! irreducible polynomial of degree `n`.
use crate::algebra::traits::{Algebra, Field, Group, Ring};
use crate::bignum::{big_clone, big_div, big_from_u32, big_is_zero, big_rem, nat_of};
use crate::binary_extension_field::errors::BinaryExtensionFieldError;
use crate::binary_extension_field::iterators::{
    BinaryExtensionFieldElementDegreeBoundedIterator,
    BinaryExtensionFieldElementFixedDegreeIterator,
};
use crate::bits::max_bits;
use crate::polynomial::{poly_text, Polynomial};
use crate::polynomial::congruence::{lemma_mod_of_reduced, lemma_square_multiply_is_power};
use crate::polynomial::laws::lemma_gcd_of_zero;
use crate::polynomial::model::{
    degree, from_coeffs, is_canonical, is_irreducible_poly, lemma_trim, one, poly_add, poly_gcd,
    poly_inverse, poly_mod, poly_mul_mod, poly_pow_mod, square_multiply, zero,
};
use crate::random::random_bit;
use crate::text::{decimal_digits, decimal_string};
use num_bigint::BigUint;
use vstd::prelude::*;
use vstd::string::StringExecFns;

pub mod errors;
pub mod iterators;

verus! {

/// The field GF(2^n), with its modulus of degree `n`.
#[derive(Debug)]
pub struct BinaryExtensionField {
    n: usize,
    modulus: Polynomial,
}

impl Clone for BinaryExtensionField {
    fn clone(&self) -> (f: Self)
        ensures
            f.extension_degree() == self.extension_degree(),
            f.modulus_view() == self.modulus_view(),
    {
        proof {
            use_type_invariant(self);
        }
        BinaryExtensionField { n: self.n, modulus: self.modulus.clone() }
    }
}

impl BinaryExtensionField {
    #[verifier::type_invariant]
    spec fn well_formed(self) -> bool {
        &&& self.n >= 1
        &&& self.modulus@.len() == self.n + 1
        &&& 2 * (self.n + 1) <= max_bits()
        &&& is_irreducible_poly(self.modulus@)
    }

    /// The degree `n` of the extension.
    pub closed spec fn extension_degree(&self) -> nat {
        self.n as nat
    }

    /// The modulus, as its coefficient bits.
    pub closed spec fn modulus_view(&self) -> Seq<bool> {
        self.modulus@
    }

    /// The field of degree `n` with the modulus of the given coefficients,
    /// highest degree first, which must have the degree `n` and be
    /// irreducible.
    pub fn new(n: usize, modulus_coeffs: &[u8]) -> (r: Result<Self, BinaryExtensionFieldError>)
        requires
            2 * modulus_coeffs@.len() <= max_bits(),
        ensures
            degree(from_coeffs(modulus_coeffs@)) != n ==> r == Err::<Self, _>(
                BinaryExtensionFieldError::InvalidModulusDegree,
            ),
            degree(from_coeffs(modulus_coeffs@)) == n && !is_irreducible_poly(
                from_coeffs(modulus_coeffs@),
            ) ==> r == Err::<Self, _>(BinaryExtensionFieldError::NonIrreducibleModulus),
            degree(from_coeffs(modulus_coeffs@)) == n && is_irreducible_poly(
                from_coeffs(modulus_coeffs@),
            ) ==> r is Ok,
            r matches Ok(f) ==> f.extension_degree() == n && f.modulus_view() == from_coeffs(
                modulus_coeffs@,
            ),
    {
        let modulus = Polynomial::new(modulus_coeffs);
        proof {
            lemma_trim(Seq::new(modulus_coeffs@.len(), |i: int| modulus_coeffs@[i] == 1u8));
        }
        if modulus.degree() != n {
            return Err(BinaryExtensionFieldError::InvalidModulusDegree);
        }
        if !modulus.is_irreducible() {
            return Err(BinaryExtensionFieldError::NonIrreducibleModulus);
        }
        Ok(BinaryExtensionField { n, modulus })
    }

    /// The field of degree `n` with a modulus found by drawing monic
    /// polynomials of degree `n` at random, 3000 times at most. For the
    /// degree 1 the first draw is irreducible; for the degree 0 none is.
    pub fn new_auto(n: usize) -> (r: Result<Self, BinaryExtensionFieldError>)
        requires
            2 * (n + 1) <= max_bits(),
        ensures
            r matches Ok(f) ==> f.extension_degree() == n && f.modulus_view().len() == n + 1
                && is_irreducible_poly(f.modulus_view()),
            r matches Err(e) ==> e == BinaryExtensionFieldError::UnableToGenerateModulus,
            n == 0 ==> r is Err,
            n == 1 ==> r is Ok,
    {
        let max_attempts: usize = 3000;
        match Polynomial::irreducible_element(n, max_attempts) {
            Some(modulus) => Ok(BinaryExtensionField { n, modulus }),
            None => Err(BinaryExtensionFieldError::UnableToGenerateModulus),
        }
    }

    /// The modulus of the field.
    pub fn modulus(&self) -> (m: &Polynomial)
        ensures
            m@ == self.modulus_view(),
            m@.len() == self.extension_degree() + 1,
            self.extension_degree() >= 1,
            2 * m@.len() <= max_bits(),
            is_irreducible_poly(m@),
    {
        proof {
            use_type_invariant(self);
        }
        &self.modulus
    }

    /// The sum of two elements.
    pub fn add(&self, a: &Polynomial, b: &Polynomial) -> (r: Polynomial)
        ensures
            r@ == poly_add(a@, b@),
    {
        a.add(b)
    }

    /// The product of two elements: the product of the polynomials,
    /// reduced by the modulus.
    pub fn multiply(&self, a: &Polynomial, b: &Polynomial) -> (r: Polynomial)
        requires
            a@.len() + b@.len() - 1 <= max_bits(),
        ensures
            r@ == poly_mul_mod(a@, b@, self.modulus_view()),
            is_canonical(r@),
            r@.len() <= self.extension_degree(),
    {
        let product = a.multiply(b);
        self.modulo(&product)
    }

    /// The inverse of an element, by the extended Euclidean algorithm on
    /// the element and the modulus; nothing for the zero element.
    pub fn inverse(&self, a: &Polynomial) -> (r: Option<Polynomial>)
        requires
            a@.len() + self.modulus_view().len() <= max_bits(),
        ensures
            match r {
                Some(s) => poly_inverse(a@, self.modulus_view()) == Some(s@) && is_canonical(s@)
                    && s@.len() <= self.extension_degree() && poly_mul_mod(
                    a@,
                    s@,
                    self.modulus_view(),
                ) == one(),
                None => poly_inverse(a@, self.modulus_view()) is None,
            },
            r is Some <==> poly_gcd(a@, self.modulus_view()) == one(),
            a@ == zero() ==> r is None,
            a@ != zero() && a@.len() <= self.extension_degree() ==> r is Some,
    {
        proof {
            use_type_invariant(self);
            lemma_mod_of_reduced(one(), self.modulus@);
            lemma_gcd_of_zero(self.modulus@);
        }
        a.inverse(&self.modulus)
    }

    /// The polynomial, reduced by the modulus of the field.
    fn modulo(&self, poly: &Polynomial) -> (r: Polynomial)
        ensures
            r@ == poly_mod(poly@, self.modulus_view()),
            is_canonical(r@),
            r@.len() <= self.extension_degree(),
            r@.len() <= poly@.len(),
    {
        proof {
            use_type_invariant(self);
        }
        let r = poly.modulo(&self.modulus);
        proof {
            if r@ == zero() {
                assert(r@.len() == 1);
            }
        }
        r
    }

    /// An element drawn at random: each of its `n` coefficients is drawn.
    pub fn random_element(&self) -> (r: Polynomial)
        ensures
            is_canonical(r@),
            r@.len() <= self.extension_degree(),
    {
        proof {
            use_type_invariant(self);
        }
        let degree = self.n;
        let mut coeffs: Vec<u8> = Vec::new();
        let mut i: usize = 0;
        while i < degree
            invariant
                i <= degree,
                coeffs@.len() == i,
            decreases degree - i,
        {
            coeffs.push(random_bit());
            i += 1;
        }
        proof {
            lemma_trim(Seq::new(coeffs@.len(), |i: int| coeffs@[i] == 1u8));
        }
        Polynomial::new(coeffs.as_slice())
    }

    /// The element `a` to the power `exp`, by square-and-multiply on the
    /// bits of the exponent, from the lowest up.
    pub fn mod_exp(&self, a: &Polynomial, exp: &BigUint) -> (r: Polynomial)
        requires
            2 * a@.len() <= max_bits(),
        ensures
            r@ == poly_pow_mod(a@, nat_of(*exp), self.modulus_view()),
            is_canonical(r@),
            r@.len() <= self.extension_degree(),
    {
        proof {
            use_type_invariant(self);
        }
        let two = big_from_u32(2);
        let mut result = Polynomial::one();
        let mut base = a.clone();
        proof {
            lemma_square_multiply_is_power(a@, nat_of(*exp), self.modulus@);
        }
        let mut exponent = big_clone(exp);
        while !big_is_zero(&exponent)
            invariant
                nat_of(two) == 2,
                self.n >= 1,
                2 * (self.n + 1) <= max_bits(),
                2 * a@.len() <= max_bits(),
                is_canonical(result@),
                result@.len() <= self.n,
                base@.len() <= a@.len() || base@.len() <= self.n,
                square_multiply(result@, base@, nat_of(exponent), self.modulus_view())
                    == square_multiply(one(), a@, nat_of(*exp), self.modulus_view()),
            decreases nat_of(exponent),
        {
            if !big_is_zero(&big_rem(&exponent, &two)) {
                result = self.multiply(&result, &base);
            }
            base = base.square();
            base = self.modulo(&base);
            proof {
                let e = nat_of(exponent);
                assert(e / 2 < e);
            }
            exponent = big_div(&exponent, &two);
        }
        result
    }

    /// The description of the field.
    pub fn to_string(&self) -> (text: String)
        ensures
            text@ == "Galois field of size 2^"@ + decimal_digits(self.extension_degree())
                + " with modulus "@ + poly_text(self.modulus_view()),
    {
        let digits = decimal_string(self.n);
        let modulus = self.modulus.to_string();
        let mut text = String::from_str("Galois field of size 2^");
        text.append(digits.as_str());
        text.append(" with modulus ");
        text.append(modulus.as_str());
        text
    }

    /// The enumeration of the elements whose degree is at most
    /// `max_degree`, which must not exceed the degree of the field, over
    /// all `2^n` bit patterns. The patterns are counted in 128 bits, so the
    /// degree of the field must be below 128.
    pub fn elements_up_to_degree(&self, max_degree: usize) -> (it:
        BinaryExtensionFieldElementDegreeBoundedIterator)
        requires
            max_degree <= self.extension_degree(),
            self.extension_degree() < 128,
        ensures
            it.current == 0,
            it.max == 1u128 << (self.extension_degree() as u128),
            it.degree == self.extension_degree(),
            it.max_degree == max_degree,
    {
        BinaryExtensionFieldElementDegreeBoundedIterator {
            current: 0,
            max: 1u128 << (self.n as u128),
            degree: self.n,
            max_degree,
        }
    }

    /// The enumeration of the elements whose degree is `target_degree`,
    /// which must not exceed the degree of the field, over all `2^n` bit
    /// patterns. The patterns are counted in 128 bits, so the degree of the
    /// field must be below 128.
    pub fn elements_of_degree(&self, target_degree: usize) -> (it:
        BinaryExtensionFieldElementFixedDegreeIterator)
        requires
            target_degree <= self.extension_degree(),
            self.extension_degree() < 128,
        ensures
            it.current == 0,
            it.max == 1u128 << (self.extension_degree() as u128),
            it.degree == self.extension_degree(),
            it.target_degree == target_degree,
    {
        BinaryExtensionFieldElementFixedDegreeIterator {
            current: 0,
            max: 1u128 << (self.n as u128),
            degree: self.n,
            target_degree,
        }
    }
}

impl Algebra for BinaryExtensionField {
    type Element = Polynomial;

    open spec fn is_element(&self, e: &Polynomial) -> bool {
        is_canonical(e@) && e@.len() <= self.extension_degree()
    }
}

impl Ring for BinaryExtensionField {
    fn add(&self, a: &Polynomial, b: &Polynomial) -> (r: Polynomial)
        ensures
            r@ == poly_add(a@, b@),
    {
        proof {
            use_type_invariant(self);
            crate::polynomial::model::lemma_add_coeff(a@, b@);
        }
        a.add(b)
    }

    fn mul(&self, a: &Polynomial, b: &Polynomial) -> (r: Polynomial)
        ensures
            r@ == poly_mul_mod(a@, b@, self.modulus_view()),
    {
        proof {
            use_type_invariant(self);
        }
        self.multiply(a, b)
    }

    fn zero(&self) -> (r: Polynomial)
        ensures
            r@ == zero(),
    {
        proof {
            use_type_invariant(self);
        }
        Polynomial::zero()
    }

    fn one(&self) -> (r: Polynomial)
        ensures
            r@ == one(),
            self.is_element(&r),
    {
        proof {
            use_type_invariant(self);
        }
        Polynomial::one()
    }
}

impl Group for BinaryExtensionField {
    fn combine(&self, a: &Polynomial, b: &Polynomial) -> (r: Polynomial)
        ensures
            r@ == poly_mul_mod(a@, b@, self.modulus_view()),
    {
        proof {
            use_type_invariant(self);
        }
        self.multiply(a, b)
    }

    fn identity(&self) -> (r: Polynomial)
        ensures
            r@ == one(),
            self.is_element(&r),
    {
        proof {
            use_type_invariant(self);
        }
        Polynomial::one()
    }

    fn inverse(&self, a: &Polynomial) -> (r: Option<Polynomial>)
        ensures
            match r {
                Some(s) => poly_inverse(a@, self.modulus_view()) == Some(s@) && poly_mul_mod(
                    a@,
                    s@,
                    self.modulus_view(),
                ) == one(),
                None => poly_inverse(a@, self.modulus_view()) is None,
            },
            r is Some <==> a@ != zero(),
    {
        proof {
            use_type_invariant(self);
        }
        BinaryExtensionField::inverse(self, a)
    }

    fn pow(&self, a: &Polynomial, exp: &BigUint) -> (r: Polynomial)
        ensures
            r@ == poly_pow_mod(a@, nat_of(*exp), self.modulus_view()),
    {
        proof {
            use_type_invariant(self);
        }
        self.mod_exp(a, exp)
    }
}

impl Field for BinaryExtensionField {

}

} // verus!
