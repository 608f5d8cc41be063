//! Laws of the division with remainder of polynomials over GF(2): the
//! quotient and the remainder are unique, and the remainder goes along
//! with sums and products.
use crate::polynomial::laws::{
    lemma_add_associative, lemma_add_self, lemma_add_zero, lemma_add_zero_equal, lemma_conv_leading,
    lemma_conv_linear_left, lemma_div_rem, lemma_gcd_nonzero, lemma_mul_associative,
    lemma_mul_commutative, lemma_mul_distributes, lemma_mul_distributes_right, lemma_mul_one,
    lemma_mul_zero,
};
use crate::polynomial::model::{
    coeff, conv, ext_euclid, is_canonical, is_irreducible_poly, is_reduced, lemma_add_coeff,
    lemma_canonical_unique, lemma_leading, lemma_mod_reduced, lemma_mul_coeff, one, poly_add,
    poly_div, poly_divides, poly_gcd, poly_inverse, poly_mod, poly_mul, poly_mul_mod, poly_pow2_mod,
    poly_pow_mod, reducible_by, square_multiply, weight, x, zero,
};
use vstd::arithmetic::power2::{lemma_pow2_unfold, pow2};
use vstd::prelude::*;

verus! {

/// The quotient and the remainder are unique: where `a = q * b + r` with a
/// remainder `r` modulo `b`, `q` and `r` are those of the long division.
pub proof fn lemma_div_rem_unique(a: Seq<bool>, b: Seq<bool>, q: Seq<bool>, r: Seq<bool>)
    requires
        is_canonical(b),
        b != zero(),
        is_canonical(q),
        is_reduced(r, b),
        a == poly_add(poly_mul(q, b), r),
    ensures
        poly_div(a, b) == q,
        poly_mod(a, b) == r,
{
    lemma_mul_coeff(q, b);
    lemma_add_coeff(poly_mul(q, b), r);
    lemma_div_rem(a, b);
    let q2 = poly_div(a, b);
    let r2 = poly_mod(a, b);
    lemma_mul_coeff(q2, b);
    lemma_add_coeff(poly_mul(q2, b), r2);
    let u = poly_add(q, q2);
    lemma_add_coeff(q, q2);
    assert forall|k: int| conv(u, b, k) == (coeff(r, k) != coeff(r2, k)) by {
        lemma_conv_linear_left(q, q2, u, b, k);
        assert(coeff(poly_mul(q, b), k) == conv(q, b, k));
        assert(coeff(poly_mul(q2, b), k) == conv(q2, b, k));
        assert(coeff(a, k) == (coeff(poly_mul(q, b), k) != coeff(r, k)));
        assert(coeff(poly_add(poly_mul(q2, b), r2), k) == (coeff(poly_mul(q2, b), k) != coeff(
            r2,
            k,
        )));
    }
    if u != zero() {
        lemma_leading(u);
        lemma_leading(b);
        lemma_conv_leading(u, b);
        let k = u.len() + b.len() - 2;
        assert(conv(u, b, k) == (coeff(r, k) != coeff(r2, k)));
        assert(!coeff(r, k));
        assert(!coeff(r2, k));
    }
    lemma_add_zero_equal(q, q2);
    assert forall|k: int| #![trigger coeff(r, k)] coeff(r, k) == coeff(r2, k) by {
        assert(conv(u, b, k) == (coeff(r, k) != coeff(r2, k)));
        assert forall|i: int| #![trigger coeff(u, i)] !coeff(u, i) by {}
        crate::polynomial::laws::lemma_conv_zero_left(u, b, k);
    }
    lemma_canonical_unique(r, r2);
}

/// A remainder modulo `m` is its own remainder.
pub proof fn lemma_mod_of_reduced(r: Seq<bool>, m: Seq<bool>)
    requires
        is_reduced(r, m),
    ensures
        poly_mod(r, m) == r,
        poly_div(r, m) == zero(),
{
    assert(!reducible_by(r, m));
}

/// Taking the remainder twice changes nothing.
pub proof fn lemma_mod_idempotent(a: Seq<bool>, m: Seq<bool>)
    requires
        is_canonical(a),
        is_canonical(m),
        m != zero(),
    ensures
        poly_mod(poly_mod(a, m), m) == poly_mod(a, m),
        is_reduced(poly_mod(a, m), m),
{
    lemma_mod_reduced(a, m);
    lemma_mod_of_reduced(poly_mod(a, m), m);
}

/// A multiple of the modulus does not change the remainder:
/// `(t * m + x) mod m = x mod m`.
pub proof fn lemma_mod_absorb(t: Seq<bool>, x: Seq<bool>, m: Seq<bool>)
    requires
        is_canonical(t),
        is_canonical(x),
        is_canonical(m),
        m != zero(),
    ensures
        poly_mod(poly_add(poly_mul(t, m), x), m) == poly_mod(x, m),
{
    lemma_div_rem(x, m);
    let qx = poly_div(x, m);
    let rx = poly_mod(x, m);
    lemma_mul_coeff(t, m);
    lemma_mul_coeff(qx, m);
    lemma_add_coeff(t, qx);
    // t*m + (qx*m + rx) = (t*m + qx*m) + rx = (t + qx)*m + rx
    lemma_add_associative(poly_mul(t, m), poly_mul(qx, m), rx);
    lemma_mul_distributes_right(t, qx, m);
    lemma_div_rem_unique(poly_add(poly_mul(t, m), x), m, poly_add(t, qx), rx);
}

/// The remainder of a sum is the sum of the remainders.
pub proof fn lemma_mod_add(a: Seq<bool>, b: Seq<bool>, m: Seq<bool>)
    requires
        is_canonical(a),
        is_canonical(b),
        is_canonical(m),
        m != zero(),
    ensures
        poly_mod(poly_add(a, b), m) == poly_add(poly_mod(a, m), poly_mod(b, m)),
{
    lemma_div_rem(a, m);
    lemma_div_rem(b, m);
    let qa = poly_div(a, m);
    let ra = poly_mod(a, m);
    let qb = poly_div(b, m);
    let rb = poly_mod(b, m);
    let q = poly_add(qa, qb);
    let r = poly_add(ra, rb);
    lemma_add_coeff(qa, qb);
    lemma_add_coeff(ra, rb);
    lemma_add_coeff(a, b);
    lemma_mul_coeff(qa, m);
    lemma_mul_coeff(qb, m);
    lemma_mul_coeff(q, m);
    lemma_add_coeff(poly_mul(qa, m), ra);
    lemma_add_coeff(poly_mul(qb, m), rb);
    lemma_add_coeff(poly_mul(q, m), r);
    let lhs = poly_add(a, b);
    let rhs = poly_add(poly_mul(q, m), r);
    assert forall|k: int| #![trigger coeff(lhs, k)] coeff(lhs, k) == coeff(rhs, k) by {
        lemma_conv_linear_left(qa, qb, q, m, k);
        assert(coeff(poly_mul(qa, m), k) == conv(qa, m, k));
        assert(coeff(poly_mul(qb, m), k) == conv(qb, m, k));
        assert(coeff(poly_mul(q, m), k) == conv(q, m, k));
        assert(coeff(a, k) == (coeff(poly_mul(qa, m), k) != coeff(ra, k)));
        assert(coeff(b, k) == (coeff(poly_mul(qb, m), k) != coeff(rb, k)));
        assert(coeff(r, k) == (coeff(ra, k) != coeff(rb, k)));
        assert(coeff(rhs, k) == (coeff(poly_mul(q, m), k) != coeff(r, k)));
    }
    lemma_canonical_unique(lhs, rhs);
    if m.len() == 1 {
        lemma_add_self(zero());
    }
    lemma_div_rem_unique(lhs, m, q, r);
}

/// The remainder of a product is that of the product with the remainder
/// of the first factor.
pub proof fn lemma_mod_mul_left(a: Seq<bool>, b: Seq<bool>, m: Seq<bool>)
    requires
        is_canonical(a),
        is_canonical(b),
        is_canonical(m),
        m != zero(),
    ensures
        poly_mod(poly_mul(a, b), m) == poly_mod(poly_mul(poly_mod(a, m), b), m),
{
    lemma_div_rem(a, m);
    let qa = poly_div(a, m);
    let ra = poly_mod(a, m);
    lemma_mul_coeff(qa, m);
    lemma_mul_coeff(qa, b);
    lemma_mul_coeff(ra, b);
    lemma_mul_coeff(m, b);
    // a * b = (qa * m + ra) * b = (qa * m) * b + ra * b
    lemma_mul_distributes_right(poly_mul(qa, m), ra, b);
    // (qa * m) * b = qa * (m * b) = qa * (b * m) = (qa * b) * m
    lemma_mul_associative(qa, m, b);
    lemma_mul_commutative(m, b);
    lemma_mul_associative(qa, b, m);
    lemma_mod_absorb(poly_mul(qa, b), poly_mul(ra, b), m);
}

/// The remainder of a product is that of the product with the remainder
/// of the second factor.
pub proof fn lemma_mod_mul_right(a: Seq<bool>, b: Seq<bool>, m: Seq<bool>)
    requires
        is_canonical(a),
        is_canonical(b),
        is_canonical(m),
        m != zero(),
    ensures
        poly_mod(poly_mul(a, b), m) == poly_mod(poly_mul(a, poly_mod(b, m)), m),
{
    lemma_mod_reduced(b, m);
    lemma_mul_commutative(a, b);
    lemma_mul_commutative(a, poly_mod(b, m));
    lemma_mod_mul_left(b, a, m);
}

/// The product modulo `m` is a remainder modulo `m`.
pub proof fn lemma_mul_mod_reduced(a: Seq<bool>, b: Seq<bool>, m: Seq<bool>)
    requires
        a.len() >= 1,
        b.len() >= 1,
        is_canonical(m),
        m != zero(),
    ensures
        is_reduced(poly_mul_mod(a, b, m), m),
{
    lemma_mul_coeff(a, b);
    lemma_mod_reduced(poly_mul(a, b), m);
}

/// The product modulo `m` does not depend on the order of its factors.
pub proof fn lemma_mul_mod_commutative(a: Seq<bool>, b: Seq<bool>, m: Seq<bool>)
    requires
        a.len() >= 1,
        b.len() >= 1,
    ensures
        poly_mul_mod(a, b, m) == poly_mul_mod(b, a, m),
{
    lemma_mul_commutative(a, b);
}

/// The product modulo `m` may be grouped either way.
pub proof fn lemma_mul_mod_associative(a: Seq<bool>, b: Seq<bool>, c: Seq<bool>, m: Seq<bool>)
    requires
        is_canonical(a),
        is_canonical(b),
        is_canonical(c),
        is_canonical(m),
        m != zero(),
    ensures
        poly_mul_mod(poly_mul_mod(a, b, m), c, m) == poly_mul_mod(a, poly_mul_mod(b, c, m), m),
{
    lemma_mul_coeff(a, b);
    lemma_mul_coeff(b, c);
    lemma_mod_mul_left(poly_mul(a, b), c, m);
    lemma_mod_mul_right(a, poly_mul(b, c), m);
    lemma_mul_associative(a, b, c);
}

/// A power modulo `m` is a remainder modulo `m`.
pub proof fn lemma_pow_mod_reduced(a: Seq<bool>, e: nat, m: Seq<bool>)
    requires
        is_canonical(a),
        is_canonical(m),
        m != zero(),
    ensures
        is_reduced(poly_pow_mod(a, e, m), m),
    decreases e,
{
    if e == 0 {
        lemma_mod_reduced(one(), m);
    } else {
        lemma_pow_mod_reduced(a, (e - 1) as nat, m);
        lemma_mul_mod_reduced(poly_pow_mod(a, (e - 1) as nat, m), a, m);
    }
}

/// The product of a remainder with the power `a^0` is the remainder.
pub proof fn lemma_mul_mod_one(r: Seq<bool>, m: Seq<bool>)
    requires
        is_reduced(r, m),
        is_canonical(m),
        m != zero(),
    ensures
        poly_mul_mod(r, poly_mod(one(), m), m) == r,
{
    lemma_mod_mul_right(r, one(), m);
    lemma_mul_one(r);
    lemma_mod_of_reduced(r, m);
}

/// Exponent law: `a^(e1 + e2) = a^e1 * a^e2` modulo `m`.
pub proof fn lemma_pow_mod_adds(a: Seq<bool>, e1: nat, e2: nat, m: Seq<bool>)
    requires
        is_canonical(a),
        is_canonical(m),
        m != zero(),
    ensures
        poly_pow_mod(a, e1 + e2, m) == poly_mul_mod(
            poly_pow_mod(a, e1, m),
            poly_pow_mod(a, e2, m),
            m,
        ),
    decreases e2,
{
    lemma_pow_mod_reduced(a, e1, m);
    if e2 == 0 {
        lemma_mul_mod_one(poly_pow_mod(a, e1, m), m);
    } else {
        let left = poly_pow_mod(a, e1, m);
        let right = poly_pow_mod(a, (e2 - 1) as nat, m);
        lemma_pow_mod_adds(a, e1, (e2 - 1) as nat, m);
        lemma_pow_mod_reduced(a, (e2 - 1) as nat, m);
        assert(poly_pow_mod(a, e1 + e2, m) == poly_mul_mod(
            poly_pow_mod(a, (e1 + e2 - 1) as nat, m),
            a,
            m,
        ));
        assert((e1 + e2 - 1) as nat == e1 + (e2 - 1) as nat);
        lemma_mul_mod_associative(left, right, a, m);
    }
}

/// The power of a square: `(b * b)^h = b^(2h)` modulo `m`.
pub proof fn lemma_pow_mod_of_square(b: Seq<bool>, h: nat, m: Seq<bool>)
    requires
        is_canonical(b),
        is_canonical(m),
        m != zero(),
    ensures
        poly_pow_mod(poly_mul_mod(b, b, m), h, m) == poly_pow_mod(b, 2 * h, m),
    decreases h,
{
    let bb = poly_mul_mod(b, b, m);
    lemma_mul_mod_reduced(b, b, m);
    if h > 0 {
        let g = (h - 1) as nat;
        lemma_pow_mod_of_square(b, g, m);
        lemma_pow_mod_reduced(b, 2 * g, m);
        let p = poly_pow_mod(b, 2 * g, m);
        // (b*b)^h = (b*b)^g * (b*b) = b^(2g) * (b * b) = (b^(2g) * b) * b
        lemma_mul_mod_associative(p, b, b, m);
        assert(poly_pow_mod(b, (2 * g + 1) as nat, m) == poly_mul_mod(p, b, m));
        assert(poly_pow_mod(b, (2 * g + 2) as nat, m) == poly_mul_mod(
            poly_pow_mod(b, (2 * g + 1) as nat, m),
            b,
            m,
        ));
        assert(2 * h == 2 * g + 2);
        // poly_mul_mod(p, bb) = mod(p * mod(b*b)) = mod(p * (b*b))
        lemma_mul_coeff(b, b);
        lemma_mod_mul_right(p, poly_mul(b, b), m);
        lemma_mul_coeff(p, b);
        lemma_mod_mul_left(poly_mul(p, b), b, m);
        lemma_mul_associative(p, b, b);
    }
}

/// Square-and-multiply computes the power: with an accumulator that is a
/// remainder modulo `m`, it gives `acc * base^e` modulo `m`.
pub proof fn lemma_square_multiply(acc: Seq<bool>, base: Seq<bool>, e: nat, m: Seq<bool>)
    requires
        is_reduced(acc, m),
        is_canonical(base),
        is_canonical(m),
        m != zero(),
    ensures
        square_multiply(acc, base, e, m) == poly_mul_mod(acc, poly_pow_mod(base, e, m), m),
    decreases e,
{
    if e == 0 {
        lemma_mul_mod_one(acc, m);
    } else {
        let h = e / 2;
        let bb = poly_mul_mod(base, base, m);
        lemma_mul_mod_reduced(base, base, m);
        lemma_mul_mod_reduced(acc, base, m);
        let acc2 = if e % 2 == 1 {
            poly_mul_mod(acc, base, m)
        } else {
            acc
        };
        lemma_square_multiply(acc2, bb, h, m);
        lemma_pow_mod_of_square(base, h, m);
        lemma_pow_mod_reduced(base, 2 * h, m);
        let p = poly_pow_mod(base, 2 * h, m);
        if e % 2 == 1 {
            assert(e == 2 * h + 1);
            assert(poly_pow_mod(base, e, m) == poly_mul_mod(p, base, m));
            lemma_mul_mod_associative(acc, base, p, m);
            lemma_mul_mod_commutative(base, p, m);
        } else {
            assert(e == 2 * h);
        }
    }
}

/// Square-and-multiply from 1 computes the power `a^e` modulo `m`, for a
/// modulus of degree 1 or more.
pub proof fn lemma_square_multiply_is_power(a: Seq<bool>, e: nat, m: Seq<bool>)
    requires
        is_canonical(a),
        is_canonical(m),
        m.len() >= 2,
    ensures
        square_multiply(one(), a, e, m) == poly_pow_mod(a, e, m),
{
    lemma_square_multiply(one(), a, e, m);
    lemma_pow_mod_reduced(a, e, m);
    let p = poly_pow_mod(a, e, m);
    lemma_mul_one(p);
    lemma_mod_of_reduced(p, m);
}

/// The remainder of the modulus itself is zero.
pub proof fn lemma_mod_self(m: Seq<bool>)
    requires
        is_canonical(m),
        m != zero(),
    ensures
        poly_mod(m, m) == zero(),
{
    lemma_mul_one(m);
    lemma_add_zero(m);
    lemma_div_rem_unique(m, m, one(), zero());
}

/// The extended Euclidean algorithm keeps its cofactors: where each of
/// the two remainders is its cofactor times `a` modulo `m`, so is the
/// result.
pub proof fn lemma_ext_euclid_cofactor(
    r0: Seq<bool>,
    r1: Seq<bool>,
    s0: Seq<bool>,
    s1: Seq<bool>,
    a: Seq<bool>,
    m: Seq<bool>,
)
    requires
        is_canonical(r0),
        is_canonical(r1),
        is_canonical(s0),
        is_canonical(s1),
        is_canonical(a),
        is_canonical(m),
        m != zero(),
        poly_mod(r0, m) == poly_mul_mod(s0, a, m),
        poly_mod(r1, m) == poly_mul_mod(s1, a, m),
    ensures
        poly_mod(ext_euclid(r0, r1, s0, s1, m).0, m) == poly_mul_mod(
            ext_euclid(r0, r1, s0, s1, m).1,
            a,
            m,
        ),
        is_canonical(ext_euclid(r0, r1, s0, s1, m).0),
        is_canonical(ext_euclid(r0, r1, s0, s1, m).1),
        ext_euclid(r0, r1, s0, s1, m).0 == poly_gcd(r0, r1),
    decreases weight(r1),
{
    if r1 != zero() {
        lemma_div_rem(r0, r1);
        let q = poly_div(r0, r1);
        let r = poly_mod(r0, r1);
        let qs = poly_mul(q, s1);
        lemma_mul_coeff(q, s1);
        lemma_add_coeff(s0, qs);
        let t = poly_add(s0, qs);
        lemma_mod_reduced(t, m);
        let s_new = poly_mod(t, m);
        // r0 = q * r1 + r, so r = r0 + q * r1
        let qr = poly_mul(q, r1);
        lemma_mul_coeff(q, r1);
        assert(r == poly_add(r0, qr)) by {
            crate::polynomial::laws::lemma_add_commutative(qr, r);
            crate::polynomial::laws::lemma_add_cancel(r, qr);
        }
        // mod(r) = mod(r0) + mod(q * r1)
        lemma_mod_add(r0, qr, m);
        // mod(q * r1) = mod(q * mod(r1)) = mod(q * mod(s1 * a)) = mod(q * (s1 * a)) = mod((q * s1) * a)
        lemma_mod_mul_right(q, r1, m);
        lemma_mul_coeff(s1, a);
        lemma_mod_mul_right(q, poly_mul(s1, a), m);
        lemma_mul_associative(q, s1, a);
        // s_new * a = mod(t) * a ~ t * a = (s0 + q*s1) * a = s0 * a + (q*s1) * a
        lemma_mod_mul_left(t, a, m);
        lemma_mul_distributes_right(s0, qs, a);
        lemma_mul_coeff(s0, a);
        lemma_mul_coeff(qs, a);
        lemma_mod_add(poly_mul(s0, a), poly_mul(qs, a), m);
        assert(poly_mod(r, m) == poly_mul_mod(s_new, a, m));
        lemma_ext_euclid_cofactor(r1, r, s1, s_new, a, m);
    }
}

/// The inverse is one: where the extended Euclidean algorithm gives `s`
/// for `a` modulo `m`, `a * s` is 1 modulo `m`, and `s` is a remainder
/// modulo `m`. It gives an inverse just where `m` is not zero and `a` and
/// `m` have the greatest common divisor 1.
pub proof fn lemma_inverse_correct(a: Seq<bool>, m: Seq<bool>)
    requires
        is_canonical(a),
        is_canonical(m),
    ensures
        poly_inverse(a, m) is Some <==> m != zero() && poly_gcd(a, m) == one(),
        poly_inverse(a, m) matches Some(s) ==> is_reduced(s, m) && poly_mul_mod(a, s, m)
            == poly_mod(one(), m),
{
    if m != zero() {
        lemma_mod_self(m);
        lemma_mul_zero(a);
        lemma_mod_of_reduced(zero(), m);
        lemma_mul_one(a);
        lemma_ext_euclid_cofactor(a, m, one(), zero(), a, m);
        let (g, s) = ext_euclid(a, m, one(), zero(), m);
        if g == one() {
            lemma_mod_reduced(s, m);
            let sr = poly_mod(s, m);
            lemma_mod_mul_left(s, a, m);
            lemma_mul_mod_commutative(a, sr, m);
        }
    }
}

/// Exponent law: `a^0` is 1 modulo `m`, which is 1 for a modulus of degree
/// 1 or more.
pub proof fn lemma_pow_mod_zero(a: Seq<bool>, m: Seq<bool>)
    requires
        is_canonical(m),
        m.len() >= 2,
    ensures
        poly_pow_mod(a, 0, m) == one(),
{
    lemma_mod_of_reduced(one(), m);
}

/// A divisor of a polynomial divides its multiples: `d | b` gives
/// `d | q * b`.
pub proof fn lemma_divides_multiple(d: Seq<bool>, q: Seq<bool>, b: Seq<bool>)
    requires
        is_canonical(d),
        is_canonical(q),
        is_canonical(b),
        poly_divides(d, b),
    ensures
        poly_divides(d, poly_mul(q, b)),
{
    lemma_mod_mul_right(q, b, d);
    lemma_mul_zero(q);
    lemma_mod_of_reduced(zero(), d);
}

/// A common divisor of two polynomials divides their sum.
pub proof fn lemma_divides_sum(d: Seq<bool>, a: Seq<bool>, b: Seq<bool>)
    requires
        is_canonical(d),
        is_canonical(a),
        is_canonical(b),
        poly_divides(d, a),
        poly_divides(d, b),
    ensures
        poly_divides(d, poly_add(a, b)),
{
    lemma_mod_add(a, b, d);
    lemma_add_self(zero());
}

/// The greatest common divisor divides both polynomials.
pub proof fn lemma_gcd_divides(a: Seq<bool>, b: Seq<bool>)
    requires
        is_canonical(a),
        is_canonical(b),
        a != zero() || b != zero(),
    ensures
        poly_divides(poly_gcd(a, b), a),
        poly_divides(poly_gcd(a, b), b),
    decreases weight(b),
{
    lemma_gcd_nonzero(a, b);
    let g = poly_gcd(a, b);
    if b == zero() {
        lemma_mod_self(a);
        lemma_mod_of_reduced(zero(), a);
    } else {
        lemma_div_rem(a, b);
        let q = poly_div(a, b);
        let r = poly_mod(a, b);
        lemma_gcd_divides(b, r);
        lemma_mul_coeff(q, b);
        lemma_divides_multiple(g, q, b);
        lemma_divides_sum(g, poly_mul(q, b), r);
    }
}

/// Every common divisor of two polynomials divides their greatest common
/// divisor.
pub proof fn lemma_gcd_greatest(d: Seq<bool>, a: Seq<bool>, b: Seq<bool>)
    requires
        is_canonical(d),
        is_canonical(a),
        is_canonical(b),
        poly_divides(d, a),
        poly_divides(d, b),
    ensures
        poly_divides(d, poly_gcd(a, b)),
    decreases weight(b),
{
    if b != zero() {
        lemma_div_rem(a, b);
        let q = poly_div(a, b);
        let r = poly_mod(a, b);
        let qb = poly_mul(q, b);
        lemma_mul_coeff(q, b);
        // r = a + q * b
        assert(r == poly_add(a, qb)) by {
            crate::polynomial::laws::lemma_add_commutative(qb, r);
            crate::polynomial::laws::lemma_add_cancel(r, qb);
        }
        lemma_divides_multiple(d, q, b);
        lemma_divides_sum(d, a, qb);
        lemma_gcd_greatest(d, b, r);
    }
}

/// Where `a` and `m` have a common divisor other than 1, no polynomial is
/// an inverse of `a` modulo `m`, for a modulus of degree 1 or more.
pub proof fn lemma_no_inverse(a: Seq<bool>, m: Seq<bool>, s: Seq<bool>)
    requires
        is_canonical(a),
        is_canonical(m),
        is_canonical(s),
        m.len() >= 2,
        poly_gcd(a, m) != one(),
    ensures
        poly_mul_mod(a, s, m) != one(),
{
    let g = poly_gcd(a, m);
    lemma_gcd_divides(a, m);
    lemma_gcd_nonzero(a, m);
    lemma_mul_coeff(a, s);
    let p = poly_mul(a, s);
    if poly_mod(p, m) == one() {
        // g divides a * s
        lemma_mul_commutative(a, s);
        lemma_divides_multiple(g, s, a);
        // a * s = t * m + 1, and g divides t * m
        lemma_div_rem(p, m);
        let t = poly_div(p, m);
        lemma_mul_coeff(t, m);
        lemma_divides_multiple(g, t, m);
        lemma_mod_add(poly_mul(t, m), one(), g);
        lemma_mod_reduced(one(), g);
        lemma_add_zero(poly_mod(one(), g));
        assert(poly_mod(one(), g) == zero());
        if g.len() >= 2 {
            lemma_mod_of_reduced(one(), g);
        } else {
            lemma_leading(g);
            assert(g =~= one());
        }
    }
}

/// Squaring `k` times in a row gives the power `a^(2^k)` modulo `m`, for
/// a remainder `a` modulo `m`.
pub proof fn lemma_pow2_mod_is_power(a: Seq<bool>, k: nat, m: Seq<bool>)
    requires
        is_reduced(a, m),
        is_canonical(m),
        m != zero(),
    ensures
        poly_pow2_mod(a, k, m) == poly_pow_mod(a, pow2(k), m),
    decreases k,
{
    vstd::arithmetic::power2::lemma2_to64();
    if k == 0 {
        // a^1 = (1 mod m) * a = a modulo m
        assert(poly_pow_mod(a, 1, m) == poly_mul_mod(poly_pow_mod(a, 0, m), a, m));
        lemma_mod_mul_left(one(), a, m);
        lemma_mul_one(a);
        lemma_mod_of_reduced(a, m);
    } else {
        let j = (k - 1) as nat;
        lemma_pow2_mod_is_power(a, j, m);
        lemma_pow2_unfold(k);
        lemma_pow_mod_adds(a, pow2(j), pow2(j), m);
        assert(pow2(j) + pow2(j) == pow2(k));
    }
}

/// A divisor of a polynomial other than zero has no larger degree.
pub proof fn lemma_divisor_degree(d: Seq<bool>, a: Seq<bool>)
    requires
        is_canonical(d),
        is_canonical(a),
        a != zero(),
        poly_divides(d, a),
    ensures
        d.len() <= a.len(),
{
    lemma_div_rem(a, d);
    let q = poly_div(a, d);
    lemma_mul_coeff(q, d);
    lemma_add_zero(poly_mul(q, d));
    // a = q * d, and q is not zero
    if q == zero() {
        lemma_mul_zero(d);
    }
    lemma_leading(q);
    lemma_leading(d);
    lemma_conv_leading(q, d);
    let k = q.len() + d.len() - 2;
    assert(coeff(a, k) == conv(q, d, k));
}

/// Modulo an irreducible polynomial, every element other than zero has an
/// inverse: the polynomials modulo it are a field.
pub proof fn lemma_irreducible_inverse(a: Seq<bool>, m: Seq<bool>)
    requires
        is_irreducible_poly(m),
        is_reduced(a, m),
        a != zero(),
    ensures
        poly_inverse(a, m) is Some,
        poly_mul_mod(a, poly_inverse(a, m)->Some_0, m) == one(),
{
    lemma_gcd_divides(a, m);
    lemma_gcd_nonzero(a, m);
    let g = poly_gcd(a, m);
    assert(poly_divides(g, m));
    if g == m {
        lemma_divisor_degree(g, a);
    }
    lemma_inverse_correct(a, m);
    lemma_mod_of_reduced(one(), m);
}

/// The sum of two remainders is a remainder.
pub proof fn lemma_add_reduced(a: Seq<bool>, b: Seq<bool>, m: Seq<bool>)
    requires
        is_reduced(a, m),
        is_reduced(b, m),
        is_canonical(m),
        m.len() >= 2,
    ensures
        is_reduced(poly_add(a, b), m),
{
    lemma_add_coeff(a, b);
}

/// The product modulo `m` distributes over the sum:
/// `a * (b + c) = a * b + a * c`.
pub proof fn lemma_mul_mod_distributes(a: Seq<bool>, b: Seq<bool>, c: Seq<bool>, m: Seq<bool>)
    requires
        is_canonical(a),
        is_canonical(b),
        is_canonical(c),
        is_canonical(m),
        m != zero(),
    ensures
        poly_mul_mod(a, poly_add(b, c), m) == poly_add(poly_mul_mod(a, b, m), poly_mul_mod(a, c, m)),
        poly_mul_mod(poly_add(b, c), a, m) == poly_add(poly_mul_mod(b, a, m), poly_mul_mod(c, a, m)),
{
    lemma_mul_distributes(a, b, c);
    lemma_mul_coeff(a, b);
    lemma_mul_coeff(a, c);
    lemma_mod_add(poly_mul(a, b), poly_mul(a, c), m);
    lemma_add_coeff(b, c);
    lemma_mul_mod_commutative(a, poly_add(b, c), m);
    lemma_mul_mod_commutative(a, b, m);
    lemma_mul_mod_commutative(a, c, m);
}

/// The product of a remainder with 1 is the remainder.
pub proof fn lemma_one_mul_mod(v: Seq<bool>, g: Seq<bool>)
    requires
        is_reduced(v, g),
        is_canonical(g),
        g != zero(),
    ensures
        poly_mul_mod(one(), v, g) == v,
        poly_mul_mod(v, one(), g) == v,
{
    lemma_mul_one(v);
    lemma_mod_of_reduced(v, g);
}

/// The product of a remainder with zero is zero.
pub proof fn lemma_zero_mul_mod(v: Seq<bool>, g: Seq<bool>)
    requires
        is_canonical(v),
        is_canonical(g),
        g != zero(),
    ensures
        poly_mul_mod(v, zero(), g) == zero(),
        poly_mul_mod(zero(), v, g) == zero(),
{
    crate::polynomial::laws::lemma_mul_zero(v);
    lemma_mod_of_reduced(zero(), g);
}

/// Two factors of a product of three may change places:
/// `(p * a) * b = (p * b) * a` modulo `g`.
pub proof fn lemma_mul_mod_swap(p: Seq<bool>, a: Seq<bool>, b: Seq<bool>, g: Seq<bool>)
    requires
        is_canonical(p),
        is_canonical(a),
        is_canonical(b),
        is_canonical(g),
        g != zero(),
    ensures
        poly_mul_mod(poly_mul_mod(p, a, g), b, g) == poly_mul_mod(poly_mul_mod(p, b, g), a, g),
{
    lemma_mul_mod_associative(p, a, b, g);
    lemma_mul_mod_commutative(a, b, g);
    lemma_mul_mod_associative(p, b, a, g);
}

/// The inner factors of a product of two products may change places:
/// `(w * x) * (y * z) = (w * y) * (x * z)` modulo `g`.
pub proof fn lemma_mul_mod_interchange(
    w: Seq<bool>,
    x: Seq<bool>,
    y: Seq<bool>,
    z: Seq<bool>,
    g: Seq<bool>,
)
    requires
        is_canonical(w),
        is_canonical(x),
        is_canonical(y),
        is_canonical(z),
        is_canonical(g),
        g != zero(),
    ensures
        poly_mul_mod(poly_mul_mod(w, x, g), poly_mul_mod(y, z, g), g) == poly_mul_mod(
            poly_mul_mod(w, y, g),
            poly_mul_mod(x, z, g),
            g,
        ),
{
    lemma_mul_mod_reduced(y, z, g);
    lemma_mul_mod_reduced(x, z, g);
    lemma_mul_mod_reduced(x, y, g);
    lemma_mul_mod_reduced(y, x, g);
    // (w * x) * (y * z) = w * (x * (y * z)) = w * ((x * y) * z)
    lemma_mul_mod_associative(w, x, poly_mul_mod(y, z, g), g);
    lemma_mul_mod_associative(x, y, z, g);
    // = w * ((y * x) * z) = w * (y * (x * z)) = (w * y) * (x * z)
    lemma_mul_mod_commutative(x, y, g);
    lemma_mul_mod_associative(y, x, z, g);
    lemma_mul_mod_associative(w, y, poly_mul_mod(x, z, g), g);
}


/// The inverse is unique: two remainders that are inverses of `a` modulo
/// `m` are equal.
pub proof fn lemma_inverse_unique(a: Seq<bool>, s: Seq<bool>, t: Seq<bool>, m: Seq<bool>)
    requires
        is_canonical(a),
        is_canonical(m),
        m != zero(),
        is_reduced(s, m),
        is_reduced(t, m),
        poly_mul_mod(a, s, m) == poly_mod(one(), m),
        poly_mul_mod(a, t, m) == poly_mod(one(), m),
    ensures
        s == t,
{
    // s = s * (a * t) = (s * a) * t = (a * s) * t = t
    lemma_mul_mod_one(s, m);
    lemma_mul_mod_one(t, m);
    lemma_mul_mod_associative(s, a, t, m);
    lemma_mul_mod_commutative(s, a, m);
    lemma_mod_reduced(one(), m);
    lemma_mul_mod_commutative(poly_mod(one(), m), t, m);
}

} // verus!
