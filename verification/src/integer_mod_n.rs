//! The ring of the integers modulo `n`, and the group of its units.
use crate::algebra::traits::{Algebra, Group, Ring};
use crate::bignum::{
    be_value, big_add, big_clone, big_eq, big_from_bytes_be, big_is_zero, big_lt, big_modpow,
    big_mul, big_one, big_rem, big_to_bytes_be, big_to_decimal, big_zero, nat_of,
};
use crate::modular::{big_gcd, mod_inverse};
use crate::numbers::{gcd, lemma_gcd_zero_left};
use crate::random::random_bytes;
use crate::text::decimal_digits;
use num_bigint::BigUint;
use vstd::arithmetic::div_mod::lemma_mod_bound;
use vstd::arithmetic::power::pow;
use vstd::prelude::*;
use vstd::std_specs::cmp::PartialEqSpecImpl;
use vstd::string::StringExecFns;

verus! {

/// What can go wrong in the ring of the integers modulo `n`.
#[derive(Debug, Clone, Copy, PartialEq, Eq)]
pub enum IntegerModNError {
    /// The number has no inverse.
    InversionFailed,
}

impl IntegerModNError {
    /// The message of the error.
    pub fn to_string(&self) -> (text: String)
        ensures
            text@ == "Multiplicative inverse does not exist."@,
    {
        String::from_str("Multiplicative inverse does not exist.")
    }
}

/// The integers modulo `n`, which need not be prime.
#[derive(Debug)]
pub struct IntegerModN {
    n: BigUint,
}

impl Clone for IntegerModN {
    fn clone(&self) -> (f: Self)
        ensures
            f.modulus() == self.modulus(),
    {
        proof {
            use_type_invariant(self);
        }
        IntegerModN { n: big_clone(&self.n) }
    }
}

impl PartialEq for IntegerModN {
    fn eq(&self, other: &IntegerModN) -> (r: bool) {
        big_eq(&self.n, &other.n)
    }
}

impl PartialEqSpecImpl for IntegerModN {
    open spec fn obeys_eq_spec() -> bool {
        true
    }

    open spec fn eq_spec(&self, other: &IntegerModN) -> bool {
        self.modulus() == other.modulus()
    }
}

impl Eq for IntegerModN {

}

impl IntegerModN {
    #[verifier::type_invariant]
    spec fn well_formed(self) -> bool {
        nat_of(self.n) >= 1
    }

    /// The modulus of the ring.
    pub closed spec fn modulus(&self) -> nat {
        nat_of(self.n)
    }

    /// The modulus of the ring.
    pub fn n(&self) -> (n: &BigUint)
        ensures
            nat_of(*n) == self.modulus(),
            self.modulus() >= 1,
    {
        proof {
            use_type_invariant(self);
        }
        &self.n
    }

    /// The ring of the integers modulo `n`, which must not be 0.
    pub fn new(n: BigUint) -> (f: Self)
        requires
            nat_of(n) >= 1,
        ensures
            f.modulus() == nat_of(n),
    {
        IntegerModN { n }
    }

    /// The ring of the integers modulo `n`, and nothing where `n` is 0.
    pub fn checked_new(n: BigUint) -> (r: Option<Self>)
        ensures
            r is Some <==> nat_of(n) >= 1,
            r matches Some(f) ==> f.modulus() == nat_of(n),
    {
        if big_is_zero(&n) {
            None
        } else {
            Some(IntegerModN::new(n))
        }
    }

    /// The inverse of `a` modulo `n`, by the extended Euclidean algorithm,
    /// where `a` and `n` have no common divisor but 1, and nothing where
    /// they have one.
    pub fn inverse(a: &BigUint, n: &BigUint) -> (inv: Option<BigUint>)
        requires
            nat_of(*n) >= 1,
        ensures
            inv is Some <==> gcd(nat_of(*a), nat_of(*n)) == 1,
            inv matches Some(b) ==> nat_of(b) < nat_of(*n) && (nat_of(*a) * nat_of(b)) % nat_of(*n)
                == 1nat % nat_of(*n),
    {
        mod_inverse(a, n)
    }

    /// `base` to the power `exp`, modulo `n`.
    pub fn pow(base: &BigUint, exp: &BigUint, n: &BigUint) -> (r: BigUint)
        requires
            nat_of(*n) != 0,
        ensures
            nat_of(r) == pow(nat_of(*base) as int, nat_of(*exp)) % (nat_of(*n) as int),
    {
        big_modpow(base, exp, n)
    }

    /// Whether `a` is a unit of the ring: it has no common divisor with `n`
    /// but 1.
    pub fn is_unit(&self, a: &BigUint) -> (r: bool)
        ensures
            r == (gcd(nat_of(*a), self.modulus()) == 1),
    {
        big_eq(&Self::gcd(a, &self.n), &big_one())
    }

    /// A unit of the ring drawn at random: elements are drawn until one is
    /// a unit, `max_attempts` times at most. Modulo 1 the one element, 0, is
    /// a unit, so the first draw is taken.
    pub fn random_group_element(&self, max_attempts: usize) -> (r: Option<BigUint>)
        ensures
            r matches Some(u) ==> nat_of(u) < self.modulus() && gcd(nat_of(u), self.modulus())
                == 1,
            max_attempts == 0 ==> r is None,
            self.modulus() == 1 && max_attempts > 0 ==> r is Some,
    {
        let mut attempt: usize = 0;
        while attempt < max_attempts
            invariant
                self.modulus() == 1 ==> attempt == 0,
            decreases max_attempts - attempt,
        {
            let random_num = self.random_element();
            proof {
                lemma_gcd_zero_left(1);
            }
            if self.is_unit(&random_num) {
                return Some(random_num);
            }
            attempt += 1;
        }
        None
    }

    /// The element that the bytes stand for, read as a number in base 256
    /// and reduced by `n`.
    pub fn element_from_bytes(&self, bytes: &[u8]) -> (r: BigUint)
        ensures
            nat_of(r) == be_value(bytes@) % self.modulus(),
            nat_of(r) < self.modulus(),
    {
        proof {
            use_type_invariant(self);
            lemma_mod_bound(be_value(bytes@) as int, nat_of(self.n) as int);
        }
        let random_num = big_from_bytes_be(bytes);
        big_rem(&random_num, &self.n)
    }

    /// An element drawn at random: as many random bytes as `n` has, read as
    /// a number and reduced by `n`.
    pub fn random_element(&self) -> (r: BigUint)
        ensures
            nat_of(r) < self.modulus(),
    {
        let bytes = big_to_bytes_be(&self.n);
        let random = random_bytes(bytes.len());
        self.element_from_bytes(random.as_slice())
    }

    /// The greatest common divisor, by Euclid's algorithm.
    pub fn gcd(a: &BigUint, b: &BigUint) -> (g: BigUint)
        ensures
            nat_of(g) == gcd(nat_of(*a), nat_of(*b)),
    {
        big_gcd(a, b)
    }

    /// The description of the ring.
    pub fn to_string(&self) -> (text: String)
        ensures
            text@ == "Multiplicative Group of Integers Modulo "@ + decimal_digits(self.modulus())
                + " (Z/"@ + decimal_digits(self.modulus()) + " Z)"@,
    {
        let digits = big_to_decimal(&self.n);
        let mut text = String::from_str("Multiplicative Group of Integers Modulo ");
        text.append(digits.as_str());
        text.append(" (Z/");
        text.append(digits.as_str());
        text.append(" Z)");
        text
    }

    /// Whether the number is an element of the ring: below `n`.
    pub fn contains(&self, num: &BigUint) -> (r: bool)
        ensures
            r == (nat_of(*num) < self.modulus()),
    {
        big_lt(num, &self.n)
    }
}

impl Algebra for IntegerModN {
    type Element = BigUint;

    open spec fn is_element(&self, e: &BigUint) -> bool {
        nat_of(*e) < self.modulus()
    }
}

impl Ring for IntegerModN {
    fn add(&self, a: &BigUint, b: &BigUint) -> (r: BigUint)
        ensures
            nat_of(r) == (nat_of(*a) + nat_of(*b)) % self.modulus(),
    {
        proof {
            use_type_invariant(self);
            lemma_mod_bound((nat_of(*a) + nat_of(*b)) as int, nat_of(self.n) as int);
        }
        big_rem(&big_add(a, b), &self.n)
    }

    fn mul(&self, a: &BigUint, b: &BigUint) -> (r: BigUint)
        ensures
            nat_of(r) == (nat_of(*a) * nat_of(*b)) % self.modulus(),
    {
        proof {
            use_type_invariant(self);
            lemma_mod_bound((nat_of(*a) * nat_of(*b)) as int, nat_of(self.n) as int);
        }
        big_rem(&big_mul(a, b), &self.n)
    }

    fn zero(&self) -> (r: BigUint)
        ensures
            nat_of(r) == 0,
    {
        proof {
            use_type_invariant(self);
        }
        big_zero()
    }

    fn one(&self) -> (r: BigUint)
        ensures
            nat_of(r) == 1,
    {
        big_one()
    }
}

impl Group for IntegerModN {
    fn combine(&self, a: &BigUint, b: &BigUint) -> (r: BigUint)
        ensures
            nat_of(r) == (nat_of(*a) * nat_of(*b)) % self.modulus(),
    {
        self.mul(a, b)
    }

    fn identity(&self) -> (r: BigUint)
        ensures
            nat_of(r) == 1,
    {
        self.one()
    }

    fn inverse(&self, a: &BigUint) -> (r: Option<BigUint>)
        ensures
            r is Some <==> nat_of(*a) != 0 && gcd(nat_of(*a), self.modulus()) == 1,
            r matches Some(b) ==> (nat_of(*a) * nat_of(b)) % self.modulus() == 1nat
                % self.modulus(),
    {
        proof {
            use_type_invariant(self);
        }
        if big_is_zero(a) {
            None
        } else {
            IntegerModN::inverse(a, &self.n)
        }
    }

    fn pow(&self, a: &BigUint, exp: &BigUint) -> (r: BigUint)
        ensures
            nat_of(r) == pow(nat_of(*a) as int, nat_of(*exp)) % (self.modulus() as int),
    {
        proof {
            use_type_invariant(self);
            lemma_mod_bound(pow(nat_of(*a) as int, nat_of(*exp)), nat_of(self.n) as int);
        }
        IntegerModN::pow(a, exp, &self.n)
    }
}

} // verus!
