//! The mathematical model of polynomials over GF(2).
//!
//! A polynomial is a sequence of coefficient bits, highest degree first. The
//! canonical sequence of a polynomial has no leading zero bit; the zero
//! polynomial is the single bit `false`.
use crate::numbers::is_prime_divisor;
use vstd::prelude::*;

verus! {

/// The coefficient of `x^k` in the polynomial that `s` stands for.
pub open spec fn coeff(s: Seq<bool>, k: int) -> bool {
    0 <= k < s.len() && s[s.len() - 1 - k]
}

/// No leading zero bit, except for the single bit of the zero polynomial.
pub open spec fn is_canonical(s: Seq<bool>) -> bool {
    s.len() >= 1 && (s.len() == 1 || s[0])
}

/// The zero polynomial.
pub open spec fn zero() -> Seq<bool> {
    seq![false]
}

/// The polynomial `1`.
pub open spec fn one() -> Seq<bool> {
    seq![true]
}

/// The polynomial `x`.
pub open spec fn x() -> Seq<bool> {
    seq![true, false]
}

/// The degree of a canonical sequence; the zero polynomial has degree 0
/// here.
pub open spec fn degree(s: Seq<bool>) -> int {
    s.len() - 1
}

/// The canonical sequence with the coefficients of `s`: leading zero bits
/// are dropped, and the empty sequence becomes the zero polynomial.
pub open spec fn trim(s: Seq<bool>) -> Seq<bool>
    decreases s.len(),
{
    if s.len() == 0 {
        zero()
    } else if s.len() == 1 || s[0] {
        s
    } else {
        trim(s.subrange(1, s.len() as int))
    }
}

/// `n` zero bits.
pub open spec fn zeros(n: nat) -> Seq<bool> {
    Seq::new(n, |i: int| false)
}

/// The polynomial read from coefficients that are given as numbers, highest
/// degree first: a coefficient is set where the number is 1.
pub open spec fn from_coeffs(c: Seq<u8>) -> Seq<bool> {
    trim(Seq::new(c.len(), |i: int| c[i] == 1u8))
}

/// The sum of two polynomials: coefficients are added modulo 2.
pub open spec fn poly_add(a: Seq<bool>, b: Seq<bool>) -> Seq<bool> {
    let n = if a.len() >= b.len() {
        a.len()
    } else {
        b.len()
    };
    trim(Seq::new(n, |i: int| coeff(a, n - 1 - i) != coeff(b, n - 1 - i)))
}

/// The coefficient of `x^k` in the product of `a` and `b`: the sum modulo 2
/// of `a_i * b_(k-i)` over the coefficients of `a`.
pub open spec fn conv(a: Seq<bool>, b: Seq<bool>, k: int) -> bool
    decreases a.len(),
{
    if k < 0 || a.len() == 0 {
        false
    } else {
        (a.last() && coeff(b, k)) != conv(a.drop_last(), b, k - 1)
    }
}

/// The product of two polynomials.
pub open spec fn poly_mul(a: Seq<bool>, b: Seq<bool>) -> Seq<bool> {
    let n = a.len() + b.len() - 1;
    trim(Seq::new(n as nat, |i: int| conv(a, b, n - 1 - i)))
}

/// The product of `a` and `x^n`.
pub open spec fn poly_shift(a: Seq<bool>, n: nat) -> Seq<bool> {
    trim(a + zeros(n))
}

/// The monomial `x^n`.
pub open spec fn monomial(n: nat) -> Seq<bool> {
    seq![true] + zeros(n)
}

/// What `trim` keeps and what it gives: the coefficients stay, the result is
/// canonical and no longer than its argument.
pub proof fn lemma_trim(s: Seq<bool>)
    ensures
        is_canonical(trim(s)),
        trim(s).len() <= s.len() || trim(s).len() == 1,
        forall|k: int| #![trigger coeff(trim(s), k)] coeff(trim(s), k) == coeff(s, k),
        is_canonical(s) ==> trim(s) == s,
    decreases s.len(),
{
    if s.len() == 0 {
    } else if s.len() == 1 || s[0] {
    } else {
        let t = s.subrange(1, s.len() as int);
        lemma_trim(t);
        assert forall|k: int| #![trigger coeff(trim(s), k)] coeff(trim(s), k) == coeff(s, k) by {
            assert(coeff(trim(t), k) == coeff(t, k));
        }
    }
}

/// A canonical sequence is determined by its coefficients.
pub proof fn lemma_canonical_unique(a: Seq<bool>, b: Seq<bool>)
    requires
        is_canonical(a),
        is_canonical(b),
        forall|k: int| #![trigger coeff(a, k)] coeff(a, k) == coeff(b, k),
    ensures
        a == b,
{
    if a.len() > b.len() {
        assert(coeff(a, a.len() - 1) == coeff(b, a.len() - 1));
    } else if b.len() > a.len() {
        assert(coeff(a, b.len() - 1) == coeff(b, b.len() - 1));
    } else {
        assert forall|i: int| 0 <= i < a.len() implies a[i] == b[i] by {
            assert(coeff(a, a.len() - 1 - i) == coeff(b, a.len() - 1 - i));
        }
        assert(a =~= b);
    }
}

/// A canonical sequence whose coefficients all vanish is the zero
/// polynomial.
pub proof fn lemma_canonical_zero(a: Seq<bool>)
    requires
        is_canonical(a),
        forall|k: int| #![trigger coeff(a, k)] !coeff(a, k),
    ensures
        a == zero(),
{
    assert forall|k: int| #![trigger coeff(a, k)] coeff(a, k) == coeff(zero(), k) by {}
    lemma_canonical_unique(a, zero());
}

/// The leading coefficient of a canonical sequence other than zero is set.
pub proof fn lemma_leading(a: Seq<bool>)
    requires
        is_canonical(a),
        a != zero(),
    ensures
        coeff(a, degree(a)),
        a[0],
{
    if a.len() == 1 {
        assert(a =~= seq![a[0]]);
    }
}

/// The coefficients of a sum.
pub proof fn lemma_add_coeff(a: Seq<bool>, b: Seq<bool>)
    ensures
        is_canonical(poly_add(a, b)),
        poly_add(a, b).len() <= a.len() || poly_add(a, b).len() <= b.len() || poly_add(a, b).len()
            == 1,
        forall|k: int|
            #![trigger coeff(poly_add(a, b), k)]
            coeff(poly_add(a, b), k) == (coeff(a, k) != coeff(b, k)),
{
    let n = if a.len() >= b.len() {
        a.len()
    } else {
        b.len()
    };
    let s = Seq::new(n, |i: int| coeff(a, n - 1 - i) != coeff(b, n - 1 - i));
    lemma_trim(s);
    assert forall|k: int| #![trigger coeff(poly_add(a, b), k)] coeff(poly_add(a, b), k) == (coeff(
        a,
        k,
    ) != coeff(b, k)) by {
        assert(coeff(trim(s), k) == coeff(s, k));
    }
}

/// The product has no coefficient above the sum of the degrees.
pub proof fn lemma_conv_bound(a: Seq<bool>, b: Seq<bool>, k: int)
    requires
        k >= a.len() + b.len() - 1,
    ensures
        !conv(a, b, k),
    decreases a.len(),
{
    if k < 0 || a.len() == 0 {
    } else {
        lemma_conv_bound(a.drop_last(), b, k - 1);
    }
}

/// The coefficients of a product.
pub proof fn lemma_mul_coeff(a: Seq<bool>, b: Seq<bool>)
    requires
        a.len() >= 1,
        b.len() >= 1,
    ensures
        is_canonical(poly_mul(a, b)),
        poly_mul(a, b).len() <= a.len() + b.len() - 1,
        forall|k: int| #![trigger coeff(poly_mul(a, b), k)] coeff(poly_mul(a, b), k) == conv(a, b, k),
{
    let n = a.len() + b.len() - 1;
    let s = Seq::new(n as nat, |i: int| conv(a, b, n - 1 - i));
    lemma_trim(s);
    assert forall|k: int| #![trigger coeff(poly_mul(a, b), k)] coeff(poly_mul(a, b), k) == conv(
        a,
        b,
        k,
    ) by {
        assert(coeff(trim(s), k) == coeff(s, k));
        if k >= n {
            lemma_conv_bound(a, b, k);
        }
    }
}

/// The coefficients of a shifted polynomial.
pub proof fn lemma_shift_coeff(a: Seq<bool>, n: nat)
    ensures
        is_canonical(poly_shift(a, n)),
        forall|k: int|
            #![trigger coeff(poly_shift(a, n), k)]
            coeff(poly_shift(a, n), k) == coeff(a, k - n),
        is_canonical(a) && a != zero() ==> poly_shift(a, n) == a + zeros(n),
{
    let s = a + zeros(n);
    lemma_trim(s);
    assert forall|k: int| #![trigger coeff(poly_shift(a, n), k)] coeff(poly_shift(a, n), k)
        == coeff(a, k - n) by {
        assert(coeff(trim(s), k) == coeff(s, k));
    }
    if is_canonical(a) && a != zero() {
        lemma_leading(a);
    }
}

/// The coefficients of a monomial.
pub proof fn lemma_monomial_coeff(n: nat)
    ensures
        is_canonical(monomial(n)),
        monomial(n).len() == n + 1,
        forall|k: int| #![trigger coeff(monomial(n), k)] coeff(monomial(n), k) == (k == n),
{
}


/// The measure by which long division ends: the number of coefficient bits,
/// with 0 for the zero polynomial.
pub open spec fn weight(a: Seq<bool>) -> nat {
    if a == zero() {
        0
    } else {
        a.len()
    }
}

/// Whether a step of long division applies: the dividend is not zero and
/// its degree is not below that of the divisor, which is not zero.
pub open spec fn reducible_by(a: Seq<bool>, m: Seq<bool>) -> bool {
    is_canonical(a) && is_canonical(m) && m != zero() && a != zero() && a.len() >= m.len()
}

/// One step of long division: the divisor, shifted to the degree of the
/// dividend, is added to it, which cancels the leading coefficient.
pub open spec fn reduce_step(a: Seq<bool>, m: Seq<bool>) -> Seq<bool> {
    poly_add(a, poly_shift(m, (a.len() - m.len()) as nat))
}

/// A step of long division gives a canonical polynomial of smaller weight.
pub proof fn lemma_reduce_step(a: Seq<bool>, m: Seq<bool>)
    requires
        reducible_by(a, m),
    ensures
        is_canonical(reduce_step(a, m)),
        weight(reduce_step(a, m)) < weight(a),
        forall|k: int|
            #![trigger coeff(reduce_step(a, m), k)]
            coeff(reduce_step(a, m), k) == (coeff(a, k) != coeff(m, k - (a.len() - m.len()))),
{
    let d = (a.len() - m.len()) as nat;
    let s = poly_shift(m, d);
    lemma_shift_coeff(m, d);
    lemma_add_coeff(a, s);
    lemma_leading(a);
    lemma_leading(m);
    let r = reduce_step(a, m);
    assert forall|k: int| #![trigger coeff(r, k)] coeff(r, k) == (coeff(a, k) != coeff(
        m,
        k - (a.len() - m.len()),
    )) by {
        assert(coeff(r, k) == (coeff(a, k) != coeff(s, k)));
        assert(coeff(s, k) == coeff(m, k - d));
    }
    if r != zero() {
        lemma_leading(r);
        assert(coeff(r, r.len() - 1));
        if r.len() >= a.len() {
            assert(r.len() == a.len());
            assert(coeff(a, a.len() - 1));
            assert(coeff(m, m.len() - 1));
            assert(coeff(r, a.len() - 1) == (coeff(a, a.len() - 1) != coeff(m, m.len() - 1)));
        }
    }
}

/// The remainder of the division of `a` by `m`, by long division.
pub open spec fn poly_mod(a: Seq<bool>, m: Seq<bool>) -> Seq<bool>
    decreases weight(a),
{
    if reducible_by(a, m) {
        proof {
            lemma_reduce_step(a, m);
        }
        poly_mod(reduce_step(a, m), m)
    } else {
        a
    }
}

/// The quotient of the division of `a` by `m`, by long division.
pub open spec fn poly_div(a: Seq<bool>, m: Seq<bool>) -> Seq<bool>
    decreases weight(a),
{
    if reducible_by(a, m) {
        proof {
            lemma_reduce_step(a, m);
        }
        poly_add(monomial((a.len() - m.len()) as nat), poly_div(reduce_step(a, m), m))
    } else {
        zero()
    }
}

/// The remainder is canonical, and zero or of smaller degree than the
/// divisor.
pub proof fn lemma_mod_reduced(a: Seq<bool>, m: Seq<bool>)
    requires
        is_canonical(a),
        is_canonical(m),
        m != zero(),
    ensures
        is_canonical(poly_mod(a, m)),
        poly_mod(a, m) == zero() || poly_mod(a, m).len() < m.len(),
        poly_mod(a, m).len() <= a.len(),
        is_canonical(poly_div(a, m)),
    decreases weight(a),
{
    if reducible_by(a, m) {
        lemma_reduce_step(a, m);
        lemma_mod_reduced(reduce_step(a, m), m);
        lemma_add_coeff(monomial((a.len() - m.len()) as nat), poly_div(reduce_step(a, m), m));
    }
}

/// The greatest common divisor by Euclid's algorithm: `gcd(a, 0) = a` and
/// `gcd(a, b) = gcd(b, a mod b)`.
pub open spec fn poly_gcd(a: Seq<bool>, b: Seq<bool>) -> Seq<bool>
    decreases weight(b),
{
    if is_canonical(a) && is_canonical(b) && b != zero() {
        proof {
            lemma_mod_reduced(a, b);
        }
        poly_gcd(b, poly_mod(a, b))
    } else {
        a
    }
}

/// `a` squared `k` times in a row, reduced by `m` after each squaring.
pub open spec fn poly_pow2_mod(a: Seq<bool>, k: nat, m: Seq<bool>) -> Seq<bool>
    decreases k,
{
    if k == 0 {
        a
    } else {
        poly_mod(poly_mul(poly_pow2_mod(a, (k - 1) as nat, m), poly_pow2_mod(a, (k - 1) as nat, m)), m)
    }
}


/// The extended Euclidean algorithm on the remainders `r0`, `r1` with the
/// cofactors `s0`, `s1`, which are kept reduced by `m`: the last remainder
/// that is not zero, and its cofactor.
pub open spec fn ext_euclid(
    r0: Seq<bool>,
    r1: Seq<bool>,
    s0: Seq<bool>,
    s1: Seq<bool>,
    m: Seq<bool>,
) -> (Seq<bool>, Seq<bool>)
    decreases weight(r1),
{
    if is_canonical(r0) && is_canonical(r1) && r1 != zero() {
        proof {
            lemma_mod_reduced(r0, r1);
        }
        ext_euclid(
            r1,
            poly_mod(r0, r1),
            s1,
            poly_mod(poly_add(s0, poly_mul(poly_div(r0, r1), s1)), m),
            m,
        )
    } else {
        (r0, s0)
    }
}

/// The inverse of `a` modulo `m`: the cofactor of `a` in the extended
/// Euclidean algorithm on `a` and `m`, where the last remainder is 1, and
/// nothing otherwise or where `m` is zero.
pub open spec fn poly_inverse(a: Seq<bool>, m: Seq<bool>) -> Option<Seq<bool>> {
    if m == zero() {
        None
    } else {
        let (g, s) = ext_euclid(a, m, one(), zero(), m);
        if g == one() {
            Some(poly_mod(s, m))
        } else {
            None
        }
    }
}


/// One condition of Rabin's test on `f`, for a prime `p` that divides the
/// degree `n` of `f`: `f` and `x^(2^(n/p)) + x` have no common divisor
/// but 1.
pub open spec fn rabin_coprime_at(f: Seq<bool>, p: nat) -> bool {
    poly_gcd(f, poly_add(poly_pow2_mod(x(), (degree(f) as nat) / p, f), x())) == one()
}

/// Rabin's test of irreducibility on a polynomial `f` of degree `n`:
/// where `n` is 1 it passes, where `n` is 0 it fails, and else it asks
/// that `x^(2^n)` is `x` modulo `f` and that `f` has no common divisor
/// with `x^(2^(n/p)) + x` for each prime `p` that divides `n`.
pub open spec fn rabin_irreducible(f: Seq<bool>) -> bool {
    &&& is_canonical(f)
    &&& degree(f) >= 1
    &&& degree(f) == 1 || {
        &&& forall|p: nat| #[trigger] is_prime_divisor(p, degree(f) as nat) ==> rabin_coprime_at(f, p)
        &&& poly_pow2_mod(x(), degree(f) as nat, f) == x()
    }
}


/// The product of two polynomials, reduced by the modulus `m`.
pub open spec fn poly_mul_mod(a: Seq<bool>, b: Seq<bool>, m: Seq<bool>) -> Seq<bool> {
    poly_mod(poly_mul(a, b), m)
}

/// The power `a^e`, reduced by the modulus `m`: `a^0 = 1` and
/// `a^(e+1) = a^e * a`.
pub open spec fn poly_pow_mod(a: Seq<bool>, e: nat, m: Seq<bool>) -> Seq<bool>
    decreases e,
{
    if e == 0 {
        poly_mod(one(), m)
    } else {
        poly_mul_mod(poly_pow_mod(a, (e - 1) as nat, m), a, m)
    }
}

/// Square-and-multiply on the bits of the exponent `e`, from the lowest
/// up: where a bit is set, `acc` is multiplied by `base`; after each bit,
/// `base` is squared. It gives `acc * base^e` modulo `m`.
pub open spec fn square_multiply(acc: Seq<bool>, base: Seq<bool>, e: nat, m: Seq<bool>) -> Seq<
    bool,
>
    decreases e,
{
    if e == 0 {
        acc
    } else {
        square_multiply(
            if e % 2 == 1 {
                poly_mul_mod(acc, base, m)
            } else {
                acc
            },
            poly_mul_mod(base, base, m),
            e / 2,
            m,
        )
    }
}

/// `r` is a remainder modulo `m`: canonical, and zero or of smaller degree
/// than `m`.
pub open spec fn is_reduced(r: Seq<bool>, m: Seq<bool>) -> bool {
    is_canonical(r) && (r == zero() || r.len() < m.len())
}

/// `d` divides `a`: `d` is not zero, and the division of `a` by `d` leaves
/// no remainder.
pub open spec fn poly_divides(d: Seq<bool>, a: Seq<bool>) -> bool {
    d != zero() && poly_mod(a, d) == zero()
}

/// A polynomial is irreducible: its degree is 1 or more, and its only
/// divisors are 1 and itself.
pub open spec fn is_irreducible_poly(f: Seq<bool>) -> bool {
    &&& is_canonical(f)
    &&& f.len() >= 2
    &&& forall|d: Seq<bool>|
        is_canonical(d) && #[trigger] poly_divides(d, f) ==> d == one() || d == f
}

} // verus!
