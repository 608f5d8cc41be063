//! Modular arithmetic on big integers that the prime field and the ring of
//! integers modulo `n` share: Euclid's algorithm, plain and extended, and
//! the inverse that it gives.
use crate::bignum::{
    big_clone, big_eq, big_is_zero, big_one, big_rem, bigint_clone, bigint_div, bigint_from_big,
    bigint_is_zero, bigint_mod_floor, bigint_mul, bigint_one, bigint_sub, bigint_to_big,
    bigint_zero, int_of, nat_of,
};
use crate::numbers::{gcd, lemma_bezout_inverse};
use num_bigint::{BigInt, BigUint};
use vstd::arithmetic::div_mod::{lemma_fundamental_div_mod, lemma_mod_bound};
use vstd::prelude::*;

verus! {

/// The greatest common divisor of two big integers, by Euclid's algorithm.
pub fn big_gcd(a: &BigUint, b: &BigUint) -> (g: BigUint)
    ensures
        nat_of(g) == gcd(nat_of(*a), nat_of(*b)),
{
    let ghost target = gcd(nat_of(*a), nat_of(*b));
    let mut x = big_clone(a);
    let mut y = big_clone(b);
    while !big_is_zero(&y)
        invariant
            gcd(nat_of(x), nat_of(y)) == target,
        decreases nat_of(y),
    {
        let temp = big_clone(&y);
        proof {
            lemma_mod_bound(nat_of(x) as int, nat_of(y) as int);
        }
        y = big_rem(&x, &y);
        x = temp;
    }
    x
}

/// The extended Euclidean algorithm: the greatest common divisor `g` of
/// `a` and `b`, and cofactors `x` and `y` with `a * x + b * y = g`.
pub fn extended_gcd(a: &BigUint, b: &BigUint) -> (gxy: (BigUint, BigInt, BigInt))
    ensures
        nat_of(gxy.0) == gcd(nat_of(*a), nat_of(*b)),
        nat_of(*a) * int_of(gxy.1) + nat_of(*b) * int_of(gxy.2) == nat_of(gxy.0),
{
    let a_bigint = bigint_from_big(a);
    let b_bigint = bigint_from_big(b);
    let mut old_r = bigint_clone(&a_bigint);
    let mut r = bigint_clone(&b_bigint);
    let mut old_s = bigint_one();
    let mut s = bigint_zero();
    let mut old_t = bigint_zero();
    let mut t = bigint_one();
    let ghost av = nat_of(*a) as int;
    let ghost bv = nat_of(*b) as int;
    assert(av * 1 + bv * 0 == av && av * 0 + bv * 1 == bv) by (nonlinear_arith);
    while !bigint_is_zero(&r)
        invariant
            av == nat_of(*a),
            bv == nat_of(*b),
            int_of(old_r) >= 0,
            int_of(r) >= 0,
            int_of(old_r) == av * int_of(old_s) + bv * int_of(old_t),
            int_of(r) == av * int_of(s) + bv * int_of(t),
            gcd(int_of(old_r) as nat, int_of(r) as nat) == gcd(av as nat, bv as nat),
        decreases int_of(r),
    {
        let quotient = bigint_div(&old_r, &r);
        let temp_r = bigint_clone(&r);
        let ghost r0 = int_of(old_r);
        let ghost r1 = int_of(r);
        let ghost s0 = int_of(old_s);
        let ghost s1 = int_of(s);
        let ghost t0 = int_of(old_t);
        let ghost t1 = int_of(t);
        let ghost q = int_of(quotient);
        r = bigint_sub(&old_r, &bigint_mul(&quotient, &r));
        old_r = temp_r;
        let temp_s = bigint_clone(&s);
        s = bigint_sub(&old_s, &bigint_mul(&quotient, &s));
        old_s = temp_s;
        let temp_t = bigint_clone(&t);
        t = bigint_sub(&old_t, &bigint_mul(&quotient, &t));
        old_t = temp_t;
        proof {
            lemma_fundamental_div_mod(r0, r1);
            lemma_mod_bound(r0, r1);
            assert(r0 - q * r1 == r0 % r1) by (nonlinear_arith)
                requires
                    r0 == r1 * q + r0 % r1,
            ;
            assert(r0 - q * r1 == av * (s0 - q * s1) + bv * (t0 - q * t1)) by (nonlinear_arith)
                requires
                    r0 == av * s0 + bv * t0,
                    r1 == av * s1 + bv * t1,
            ;
        }
    }
    let gcd = match bigint_to_big(&old_r) {
        Some(g) => g,
        None => big_one(),
    };
    (gcd, old_s, old_t)
}

/// The inverse of `a` modulo `n`, by the extended Euclidean algorithm:
/// the number `b` below `n` with `a * b = 1` modulo `n`, where `a` and `n`
/// have no common divisor but 1, and nothing where they have one.
pub fn mod_inverse(a: &BigUint, n: &BigUint) -> (inv: Option<BigUint>)
    requires
        nat_of(*n) >= 1,
    ensures
        inv is Some <==> gcd(nat_of(*a), nat_of(*n)) == 1,
        inv matches Some(b) ==> nat_of(b) < nat_of(*n) && (nat_of(*a) * nat_of(b)) % nat_of(*n)
            == 1nat % nat_of(*n),
{
    let (gcd, x, y) = extended_gcd(a, n);
    if !big_eq(&gcd, &big_one()) {
        return None;
    }
    let n_bigint = bigint_from_big(n);
    let reduced = bigint_mod_floor(&x, &n_bigint);
    proof {
        lemma_mod_bound(int_of(x), nat_of(*n) as int);
    }
    match bigint_to_big(&reduced) {
        Some(b) => {
            proof {
                lemma_bezout_inverse(nat_of(*a) as int, nat_of(*n) as int, int_of(x), int_of(y));
            }
            Some(b)
        },
        None => None,
    }
}

} // verus!
