//! The prime field of the integers modulo a prime `p`.
use crate::algebra::traits::{Algebra, Field, Group, Ring};
use crate::bignum::{
    be_value, big_add, big_clone, big_div, big_eq, big_from_bytes_be, big_from_u32, big_is_zero,
    big_lt, big_modpow, big_mul, big_one, big_random_range, big_rem, big_sub, big_to_bytes_be,
    big_to_decimal, big_zero, nat_of, nats_of,
};
use crate::fermat::lemma_prime_is_strong_probable_prime;
use crate::modular::mod_inverse;
use crate::numbers::{
    bases_in_range, gcd, is_prime, lemma_exact_division, lemma_gcd_zero_left,
    lemma_mod_pow_square, lemma_prime_coprime, odd_part, passes_all_bases, passes_witness,
    strong_probable_prime, witness_at,
};
use crate::random::random_bytes;
use crate::text::decimal_digits;
use num_bigint::BigUint;
use vstd::arithmetic::div_mod::{lemma_mod_bound, lemma_small_mod};
use vstd::arithmetic::power2::{lemma_pow2_strictly_increases, lemma_pow2_unfold, pow2};
use vstd::arithmetic::power::pow;
use vstd::prelude::*;
use vstd::std_specs::cmp::PartialEqSpecImpl;
use vstd::string::StringExecFns;

verus! {

/// What can go wrong when a prime field is made.
#[derive(Debug, Clone, Copy, PartialEq, Eq)]
pub enum IntegerModPError {
    /// The modulus did not pass the primality test.
    NotPrime,
}

impl IntegerModPError {
    /// The message of the error.
    pub fn to_string(&self) -> (text: String)
        ensures
            text@ == "The modulus `p` must be a prime number."@,
    {
        String::from_str("The modulus `p` must be a prime number.")
    }
}

/// The integers modulo a prime `p`.
#[derive(Debug)]
pub struct IntegerModP {
    p: BigUint,
}

impl Clone for IntegerModP {
    fn clone(&self) -> (f: Self)
        ensures
            f.modulus() == self.modulus(),
    {
        proof {
            use_type_invariant(self);
        }
        IntegerModP { p: big_clone(&self.p) }
    }
}

impl PartialEq for IntegerModP {
    fn eq(&self, other: &IntegerModP) -> (r: bool) {
        big_eq(&self.p, &other.p)
    }
}

impl PartialEqSpecImpl for IntegerModP {
    open spec fn obeys_eq_spec() -> bool {
        true
    }

    open spec fn eq_spec(&self, other: &IntegerModP) -> bool {
        self.modulus() == other.modulus()
    }
}

impl Eq for IntegerModP {

}

/// Whether the base `a` does not show `n` to be composite, for the exponent
/// `d`: one round of the Miller-Rabin test.
pub fn witness_passes(n: &BigUint, d: &BigUint, a: &BigUint) -> (r: bool)
    requires
        nat_of(*n) >= 2,
        nat_of(*d) >= 1,
    ensures
        r == passes_witness(nat_of(*n), nat_of(*d), nat_of(*a)),
{
    let one = big_one();
    let two = big_from_u32(2);
    let n_minus_1 = big_sub(n, &one);
    let ghost nv = nat_of(*n);
    let ghost dv = nat_of(*d);
    let ghost av = nat_of(*a);
    let mut x = big_modpow(a, d, n);
    proof {
        vstd::arithmetic::power2::lemma2_to64();
        assert(dv * pow2(0) == dv) by (nonlinear_arith)
            requires
                pow2(0) == 1,
        ;
    }
    if big_eq(&x, &one) {
        return true;
    }
    if big_eq(&x, &n_minus_1) {
        assert(witness_at(nv, dv, av, 0));
        return true;
    }
    let mut e = big_clone(d);
    let mut e2 = big_mul(&e, &two);
    let ghost mut j: nat = 0;
    while big_lt(&e2, &n_minus_1)
        invariant
            nv == nat_of(*n),
            dv == nat_of(*d),
            av == nat_of(*a),
            nv >= 2,
            dv >= 1,
            nat_of(two) == 2,
            nat_of(n_minus_1) == nv - 1,
            nat_of(e) == dv * pow2(j),
            nat_of(e2) == 2 * nat_of(e),
            nat_of(e) >= 1,
            nat_of(x) == pow(av as int, nat_of(e)) % (nv as int),
            pow(av as int, dv) % (nv as int) != 1,
            forall|i: nat| i <= j ==> !witness_at(nv, dv, av, i),
        decreases nv - nat_of(e),
    {
        proof {
            lemma_mod_pow_square(av as int, nat_of(e), nv as int);
            lemma_pow2_unfold(j + 1);
            assert(dv * pow2(j + 1) == 2 * (dv * pow2(j))) by (nonlinear_arith)
                requires
                    pow2(j + 1) == 2 * pow2(j),
            ;
        }
        x = big_modpow(&x, &two, n);
        e = e2;
        proof {
            j = j + 1;
        }
        if big_eq(&x, &n_minus_1) {
            assert(witness_at(nv, dv, av, j));
            return true;
        }
        e2 = big_mul(&e, &two);
    }
    proof {
        assert forall|i: nat| !witness_at(nv, dv, av, i) by {
            if i > j {
                lemma_pow2_unfold(j + 1);
                if i > j + 1 {
                    lemma_pow2_strictly_increases(j + 1, i);
                }
                assert(dv * pow2(i) >= 2 * (dv * pow2(j))) by (nonlinear_arith)
                    requires
                        pow2(i) >= pow2(j + 1),
                        pow2(j + 1) == 2 * pow2(j),
                        dv >= 1,
                ;
            }
        }
    }
    false
}

/// The odd part `d` of `n - 1`, for an odd `n` above 1: `n - 1 = 2^s * d`.
fn odd_part_of_predecessor(n: &BigUint) -> (d: BigUint)
    requires
        nat_of(*n) >= 2,
    ensures
        nat_of(d) == odd_part((nat_of(*n) - 1) as nat),
        nat_of(d) >= 1,
{
    let one = big_one();
    let two = big_from_u32(2);
    let mut d = big_sub(n, &one);
    while big_is_zero(&big_rem(&d, &two))
        invariant
            nat_of(two) == 2,
            nat_of(d) >= 1,
            odd_part(nat_of(d)) == odd_part((nat_of(*n) - 1) as nat),
        decreases nat_of(d),
    {
        proof {
            lemma_exact_division(nat_of(d), 2);
        }
        d = big_div(&d, &two);
    }
    d
}

/// Whether `n` is a strong probable prime to each of the bases: the
/// rounds of the Miller-Rabin test on `n`, for bases that were drawn.
pub fn passes_all(n: &BigUint, bases: &[BigUint]) -> (r: bool)
    requires
        nat_of(*n) >= 2,
    ensures
        r == passes_all_bases(nat_of(*n), nats_of(bases@)),
{
    let d = odd_part_of_predecessor(n);
    let mut round: usize = 0;
    while round < bases.len()
        invariant
            round <= bases@.len(),
            nat_of(*n) >= 2,
            nat_of(d) == odd_part((nat_of(*n) - 1) as nat),
            nat_of(d) >= 1,
            forall|i: int|
                0 <= i < round ==> strong_probable_prime(
                    nat_of(*n),
                    #[trigger] nats_of(bases@)[i],
                ),
        decreases bases@.len() - round,
    {
        if !witness_passes(n, &d, &bases[round]) {
            assert(!strong_probable_prime(nat_of(*n), nats_of(bases@)[round as int]));
            return false;
        }
        round += 1;
    }
    true
}

impl IntegerModP {
    #[verifier::type_invariant]
    spec fn well_formed(self) -> bool {
        nat_of(self.p) >= 2
    }

    /// The modulus of the field.
    pub closed spec fn modulus(&self) -> nat {
        nat_of(self.p)
    }

    /// The modulus of the field.
    pub fn p(&self) -> (p: &BigUint)
        ensures
            nat_of(*p) == self.modulus(),
            self.modulus() >= 2,
    {
        proof {
            use_type_invariant(self);
        }
        &self.p
    }

    /// The field of the integers modulo `p`, where `p` passes 50 rounds of
    /// the Miller-Rabin test.
    pub fn new(p: BigUint) -> (r: Result<Self, IntegerModPError>)
        ensures
            r matches Ok(f) ==> f.modulus() == nat_of(p),
            nat_of(p) < 2 ==> r is Err,
            nat_of(p) == 2 || nat_of(p) == 3 ==> r is Ok,
            nat_of(p) > 3 && nat_of(p) % 2 == 0 ==> r is Err,
            nat_of(p) > 3 && nat_of(p) % 2 == 1 ==> exists|bases: Seq<nat>|
                #[trigger] bases_in_range(nat_of(p), bases, 50) && (r is Ok) == passes_all_bases(
                    nat_of(p),
                    bases,
                ),
            r is Err && nat_of(p) > 3 && nat_of(p) % 2 == 1 ==> exists|a: nat|
                2 <= a <= nat_of(p) - 2 && !#[trigger] strong_probable_prime(nat_of(p), a),
            r is Ok && nat_of(p) > 3 && nat_of(p) % 2 == 1 ==> exists|a: nat|
                2 <= a <= nat_of(p) - 2 && #[trigger] strong_probable_prime(nat_of(p), a),
            is_prime(nat_of(p)) ==> r is Ok,
    {
        if !Self::is_prime_miller_rabin(&p, 50) {
            return Err(IntegerModPError::NotPrime);
        }
        Ok(IntegerModP { p })
    }

    /// The field of the integers modulo `p`, for a `p` that the caller
    /// knows to be prime: no test is made.
    pub fn new_valid_prime(p: BigUint) -> (f: Self)
        requires
            nat_of(p) >= 2,
        ensures
            f.modulus() == nat_of(p),
    {
        IntegerModP { p }
    }

    /// The field of the integers modulo `p`, for a `p` that the caller
    /// knows to be prime, and nothing where `p` is below 2: no other test is
    /// made.
    pub fn checked_new_valid_prime(p: BigUint) -> (r: Option<Self>)
        ensures
            r is Some <==> nat_of(p) >= 2,
            r matches Some(f) ==> f.modulus() == nat_of(p),
    {
        if big_lt(&p, &big_from_u32(2)) {
            None
        } else {
            Some(IntegerModP::new_valid_prime(p))
        }
    }

    /// The element that the bytes stand for, read as a number in base 256
    /// and reduced by `p`.
    pub fn element_from_bytes(&self, bytes: &[u8]) -> (r: BigUint)
        ensures
            nat_of(r) == be_value(bytes@) % self.modulus(),
            nat_of(r) < self.modulus(),
    {
        proof {
            use_type_invariant(self);
            lemma_mod_bound(be_value(bytes@) as int, nat_of(self.p) as int);
        }
        let random_num = big_from_bytes_be(bytes);
        big_rem(&random_num, &self.p)
    }

    /// An element drawn at random: as many random bytes as `p` has, read as
    /// a number and reduced by `p`.
    pub fn random_element(&self) -> (r: BigUint)
        ensures
            nat_of(r) < self.modulus(),
    {
        let bytes = big_to_bytes_be(&self.p);
        let random = random_bytes(bytes.len());
        self.element_from_bytes(random.as_slice())
    }

    /// The Miller-Rabin test with `k` bases drawn at random from 2 up to
    /// `n - 2`: whether `n` is 2 or 3, or odd, above 3 and a strong probable
    /// prime to each of the bases. A prime always passes; a composite number
    /// passes only where every base drawn fails to show it.
    pub fn is_prime_miller_rabin(n: &BigUint, k: u32) -> (r: bool)
        ensures
            nat_of(*n) < 2 ==> !r,
            nat_of(*n) == 2 || nat_of(*n) == 3 ==> r,
            nat_of(*n) > 3 && nat_of(*n) % 2 == 0 ==> !r,
            nat_of(*n) > 3 && nat_of(*n) % 2 == 1 ==> exists|bases: Seq<nat>|
                #[trigger] bases_in_range(nat_of(*n), bases, k as nat) && r == passes_all_bases(
                    nat_of(*n),
                    bases,
                ),
            nat_of(*n) > 3 && nat_of(*n) % 2 == 1 && k == 0 ==> r,
            !r && nat_of(*n) > 3 && nat_of(*n) % 2 == 1 ==> exists|a: nat|
                2 <= a <= nat_of(*n) - 2 && !#[trigger] strong_probable_prime(nat_of(*n), a),
            r && nat_of(*n) > 3 && nat_of(*n) % 2 == 1 && k > 0 ==> exists|a: nat|
                2 <= a <= nat_of(*n) - 2 && #[trigger] strong_probable_prime(nat_of(*n), a),
            is_prime(nat_of(*n)) ==> r,
    {
        let two = big_from_u32(2);
        let three = big_from_u32(3);
        if big_lt(n, &two) {
            return false;
        }
        if big_eq(n, &two) || big_eq(n, &three) {
            return true;
        }
        if big_is_zero(&big_rem(n, &two)) {
            return false;
        }
        let n_minus_1 = big_sub(n, &big_one());
        let mut bases: Vec<BigUint> = Vec::new();
        let mut round: u32 = 0;
        while round < k
            invariant
                round <= k,
                nat_of(*n) > 3,
                nat_of(two) == 2,
                nat_of(n_minus_1) == nat_of(*n) - 1,
                bases_in_range(nat_of(*n), nats_of(bases@), round as nat),
            decreases k - round,
        {
            let a = big_random_range(&two, &n_minus_1);
            let ghost before = nats_of(bases@);
            bases.push(a);
            proof {
                assert forall|i: int| 0 <= i < bases@.len() implies 2 <= #[trigger] nats_of(
                    bases@,
                )[i] <= nat_of(*n) - 2 by {
                    if i < before.len() {
                        assert(nats_of(bases@)[i] == before[i]);
                    }
                }
            }
            round += 1;
        }
        let r = passes_all(n, bases.as_slice());
        proof {
            let drawn = nats_of(bases@);
            assert(bases_in_range(nat_of(*n), drawn, k as nat));
            if r && k > 0 {
                assert(strong_probable_prime(nat_of(*n), drawn[0]));
            }
            if !r {
                let i = choose|i: int|
                    0 <= i < drawn.len() && !strong_probable_prime(nat_of(*n), #[trigger] drawn[i]);
                assert(2 <= drawn[i] <= nat_of(*n) - 2);
            }
            if is_prime(nat_of(*n)) {
                assert forall|i: int| 0 <= i < drawn.len() implies strong_probable_prime(
                    nat_of(*n),
                    #[trigger] drawn[i],
                ) by {
                    lemma_small_mod(drawn[i], nat_of(*n));
                    lemma_prime_is_strong_probable_prime(nat_of(*n), drawn[i]);
                }
            }
        }
        r
    }

    /// The inverse of `a` modulo `p`, by the extended Euclidean algorithm,
    /// where `a` and `p` have no common divisor but 1.
    pub fn inverse(a: &BigUint, p: &BigUint) -> (inv: Option<BigUint>)
        requires
            nat_of(*p) >= 1,
        ensures
            inv is Some <==> gcd(nat_of(*a), nat_of(*p)) == 1,
            inv matches Some(b) ==> nat_of(b) < nat_of(*p) && (nat_of(*a) * nat_of(b)) % nat_of(*p)
                == 1nat % nat_of(*p),
            is_prime(nat_of(*p)) && nat_of(*a) % nat_of(*p) != 0 ==> inv is Some,
    {
        proof {
            if is_prime(nat_of(*p)) && nat_of(*a) % nat_of(*p) != 0 {
                lemma_prime_coprime(nat_of(*a), nat_of(*p));
            }
        }
        mod_inverse(a, p)
    }

    /// The difference of `a` and `b` modulo `p`; `p` is added first where
    /// `a` is the smaller one.
    pub fn sub(&self, a: &BigUint, b: &BigUint) -> (r: BigUint)
        requires
            nat_of(*b) <= nat_of(*a) + self.modulus(),
        ensures
            nat_of(r) == (nat_of(*a) - nat_of(*b)) % (self.modulus() as int),
    {
        proof {
            use_type_invariant(self);
        }
        if !big_lt(a, b) {
            big_rem(&big_sub(a, b), &self.p)
        } else {
            proof {
                vstd::arithmetic::div_mod::lemma_mod_add_multiples_vanish(
                    nat_of(*a) - nat_of(*b),
                    nat_of(self.p) as int,
                );
            }
            big_rem(&big_sub(&big_add(&self.p, a), b), &self.p)
        }
    }

    /// `base` to the power `exp`, modulo `p`.
    pub fn pow(base: &BigUint, exp: &BigUint, p: &BigUint) -> (r: BigUint)
        requires
            nat_of(*p) != 0,
        ensures
            nat_of(r) == pow(nat_of(*base) as int, nat_of(*exp)) % (nat_of(*p) as int),
    {
        big_modpow(base, exp, p)
    }

    /// The description of the field.
    pub fn to_string(&self) -> (text: String)
        ensures
            text@ == "Prime field of Integers Modulo "@ + decimal_digits(self.modulus()) + " (Z_"@
                + decimal_digits(self.modulus()) + ")"@,
    {
        let digits = big_to_decimal(&self.p);
        let mut text = String::from_str("Prime field of Integers Modulo ");
        text.append(digits.as_str());
        text.append(" (Z_");
        text.append(digits.as_str());
        text.append(")");
        text
    }

    /// Whether the number is an element of the field: below `p`.
    pub fn contains(&self, num: &BigUint) -> (r: bool)
        ensures
            r == (nat_of(*num) < self.modulus()),
    {
        big_lt(num, &self.p)
    }
}

impl Algebra for IntegerModP {
    type Element = BigUint;

    open spec fn is_element(&self, e: &BigUint) -> bool {
        nat_of(*e) < self.modulus()
    }
}

impl Ring for IntegerModP {
    fn add(&self, a: &BigUint, b: &BigUint) -> (r: BigUint)
        ensures
            nat_of(r) == (nat_of(*a) + nat_of(*b)) % self.modulus(),
    {
        proof {
            use_type_invariant(self);
            lemma_mod_bound((nat_of(*a) + nat_of(*b)) as int, nat_of(self.p) as int);
        }
        big_rem(&big_add(a, b), &self.p)
    }

    fn mul(&self, a: &BigUint, b: &BigUint) -> (r: BigUint)
        ensures
            nat_of(r) == (nat_of(*a) * nat_of(*b)) % self.modulus(),
    {
        proof {
            use_type_invariant(self);
            lemma_mod_bound((nat_of(*a) * nat_of(*b)) as int, nat_of(self.p) as int);
        }
        big_rem(&big_mul(a, b), &self.p)
    }

    fn zero(&self) -> (r: BigUint)
        ensures
            nat_of(r) == 0,
    {
        proof {
            use_type_invariant(self);
        }
        big_zero()
    }

    fn one(&self) -> (r: BigUint)
        ensures
            nat_of(r) == 1,
            self.is_element(&r),
    {
        proof {
            use_type_invariant(self);
        }
        big_one()
    }
}

impl Group for IntegerModP {
    fn combine(&self, a: &BigUint, b: &BigUint) -> (r: BigUint)
        ensures
            nat_of(r) == (nat_of(*a) * nat_of(*b)) % self.modulus(),
    {
        self.mul(a, b)
    }

    fn identity(&self) -> (r: BigUint)
        ensures
            nat_of(r) == 1,
            self.is_element(&r),
    {
        self.one()
    }

    fn inverse(&self, a: &BigUint) -> (r: Option<BigUint>)
        ensures
            r is Some <==> gcd(nat_of(*a), self.modulus()) == 1,
            r matches Some(b) ==> (nat_of(*a) * nat_of(b)) % self.modulus() == 1,
            is_prime(self.modulus()) && nat_of(*a) != 0 ==> r is Some,
    {
        proof {
            use_type_invariant(self);
            lemma_gcd_zero_left(nat_of(self.p));
            lemma_small_mod(1, nat_of(self.p));
            lemma_small_mod(nat_of(*a), nat_of(self.p));
        }
        if big_is_zero(a) {
            None
        } else {
            IntegerModP::inverse(a, &self.p)
        }
    }

    fn pow(&self, a: &BigUint, exp: &BigUint) -> (r: BigUint)
        ensures
            nat_of(r) == pow(nat_of(*a) as int, nat_of(*exp)) % (self.modulus() as int),
    {
        proof {
            use_type_invariant(self);
            lemma_mod_bound(pow(nat_of(*a) as int, nat_of(*exp)), nat_of(self.p) as int);
        }
        big_modpow(a, exp, &self.p)
    }
}

impl Field for IntegerModP {

}

} // verus!
