//! Rabin's test decides irreducibility: a polynomial over GF(2) passes it
//! just where it is irreducible.
use crate::numbers::{
    gcd, is_prime_divisor, lemma_divisor_bound, lemma_exact_division, lemma_prime_divisor_exists,
};
use crate::polynomial::congruence::{
    lemma_add_reduced, lemma_divides_multiple, lemma_divisor_degree, lemma_gcd_divides,
    lemma_mod_add, lemma_mod_mul_left, lemma_mod_mul_right, lemma_mod_of_reduced, lemma_mod_self,
    lemma_mul_mod_interchange, lemma_one_mul_mod, lemma_pow2_mod_is_power,
};
use crate::polynomial::field::{lemma_frobenius_fixed, lemma_poly_of, lemma_zero_pow2_mod, poly_of};
use crate::polynomial::laws::{
    lemma_add_self, lemma_add_zero, lemma_add_zero_equal, lemma_conv_commutative,
    lemma_conv_leading, lemma_conv_monomial, lemma_div_rem, lemma_gcd_nonzero, lemma_mul_one,
    lemma_square_coeff,
};
use crate::polynomial::model::{
    coeff, conv, is_canonical, is_irreducible_poly, is_reduced, lemma_add_coeff,
    lemma_canonical_unique, lemma_leading, lemma_mod_reduced, lemma_mul_coeff, monomial, one,
    poly_add, poly_div, poly_divides, poly_gcd, poly_mod, poly_mul, poly_mul_mod, poly_pow2_mod,
    rabin_coprime_at, rabin_irreducible, x, zero,
};
use crate::polynomial::roots::{lemma_power_minus_identity, lemma_root_bound, power_minus_identity};
use vstd::arithmetic::div_mod::{lemma_fundamental_div_mod, lemma_mod_bound};
use vstd::arithmetic::power2::{
    lemma_pow2_pos, lemma_pow2_strictly_increases, lemma_pow2_unfold, pow2,
};
use vstd::prelude::*;

verus! {

/// A polynomial is the quotient times the divisor, where the divisor
/// divides it.
pub proof fn lemma_divides_exact(d: Seq<bool>, f: Seq<bool>)
    requires
        is_canonical(d),
        is_canonical(f),
        poly_divides(d, f),
    ensures
        f == poly_mul(poly_div(f, d), d),
        is_canonical(poly_div(f, d)),
        f != zero() ==> poly_div(f, d) != zero(),
{
    lemma_div_rem(f, d);
    let q = poly_div(f, d);
    lemma_mul_coeff(q, d);
    lemma_add_zero(poly_mul(q, d));
    if q == zero() {
        crate::polynomial::laws::lemma_mul_zero(d);
    }
}

/// The degree of a product of polynomials other than zero is the sum of
/// the degrees.
pub proof fn lemma_product_length(q: Seq<bool>, d: Seq<bool>)
    requires
        is_canonical(q),
        is_canonical(d),
        q != zero(),
        d != zero(),
    ensures
        poly_mul(q, d).len() == q.len() + d.len() - 1,
        poly_mul(q, d) != zero(),
{
    lemma_mul_coeff(q, d);
    lemma_leading(q);
    lemma_leading(d);
    lemma_conv_leading(q, d);
    let k = q.len() + d.len() - 2;
    assert(coeff(poly_mul(q, d), k) == conv(q, d, k));
    assert(!coeff(zero(), k));
}

/// The divisibility of polynomials is transitive.
pub proof fn lemma_divides_transitive(g: Seq<bool>, d: Seq<bool>, f: Seq<bool>)
    requires
        is_canonical(g),
        is_canonical(d),
        is_canonical(f),
        poly_divides(g, d),
        poly_divides(d, f),
    ensures
        poly_divides(g, f),
{
    lemma_divides_exact(d, f);
    lemma_divides_multiple(g, poly_div(f, d), d);
}

/// A divisor of the same degree is the polynomial itself.
pub proof fn lemma_divisor_same_length(d: Seq<bool>, f: Seq<bool>)
    requires
        is_canonical(d),
        is_canonical(f),
        f != zero(),
        poly_divides(d, f),
        d.len() == f.len(),
    ensures
        d == f,
{
    lemma_divides_exact(d, f);
    let q = poly_div(f, d);
    lemma_product_length(q, d);
    lemma_leading(q);
    assert(q =~= one());
    lemma_mul_one(d);
}

/// Every polynomial of degree 1 is irreducible.
pub proof fn lemma_degree_one_irreducible(f: Seq<bool>)
    requires
        is_canonical(f),
        f.len() == 2,
    ensures
        is_irreducible_poly(f),
{
    assert forall|d: Seq<bool>| is_canonical(d) && #[trigger] poly_divides(d, f) implies d == one()
        || d == f by {
        lemma_divisor_degree(d, f);
        if d.len() == 2 {
            lemma_divisor_same_length(d, f);
        } else {
            lemma_leading(d);
            assert(d =~= one());
        }
    }
}

/// Every polynomial of degree 1 or more has an irreducible divisor, of
/// smaller degree where it is not irreducible itself.
pub proof fn lemma_irreducible_divisor(f: Seq<bool>) -> (g: Seq<bool>)
    requires
        is_canonical(f),
        f.len() >= 2,
    ensures
        is_irreducible_poly(g),
        poly_divides(g, f),
        g.len() <= f.len(),
        !is_irreducible_poly(f) ==> g.len() < f.len(),
    decreases f.len(),
{
    if is_irreducible_poly(f) {
        lemma_mod_self(f);
        f
    } else {
        let d = choose|d: Seq<bool>|
            is_canonical(d) && #[trigger] poly_divides(d, f) && d != one() && d != f;
        lemma_divisor_degree(d, f);
        if d.len() == f.len() {
            lemma_divisor_same_length(d, f);
        }
        if d.len() == 1 {
            lemma_leading(d);
            assert(d =~= one());
        }
        let g = lemma_irreducible_divisor(d);
        lemma_divides_transitive(g, d, f);
        g
    }
}

/// The result of repeated squaring modulo `m` is canonical, and a
/// remainder modulo `m` after one squaring or more.
pub proof fn lemma_pow2_mod_canonical(a: Seq<bool>, k: nat, m: Seq<bool>)
    requires
        is_canonical(a),
        is_canonical(m),
        m != zero(),
    ensures
        is_canonical(poly_pow2_mod(a, k, m)),
        k >= 1 ==> is_reduced(poly_pow2_mod(a, k, m), m),
    decreases k,
{
    if k > 0 {
        lemma_pow2_mod_canonical(a, (k - 1) as nat, m);
        let p = poly_pow2_mod(a, (k - 1) as nat, m);
        lemma_mul_coeff(p, p);
        lemma_mod_reduced(poly_mul(p, p), m);
    }
}

/// Squaring `j` times and then `k` times is squaring `j + k` times.
pub proof fn lemma_pow2_mod_compose(a: Seq<bool>, j: nat, k: nat, m: Seq<bool>)
    ensures
        poly_pow2_mod(poly_pow2_mod(a, j, m), k, m) == poly_pow2_mod(a, j + k, m),
    decreases k,
{
    if k > 0 {
        lemma_pow2_mod_compose(a, j, (k - 1) as nat, m);
        assert((j + k - 1) as nat == j + (k - 1) as nat);
    }
}

/// What `d` squarings leave fixed, any multiple of `d` squarings leaves
/// fixed.
pub proof fn lemma_pow2_mod_fixed_multiple(a: Seq<bool>, d: nat, i: nat, m: Seq<bool>)
    requires
        poly_pow2_mod(a, d, m) == a,
    ensures
        poly_pow2_mod(a, d * i, m) == a,
    decreases i,
{
    if i == 0 {
        assert(d * i == 0) by (nonlinear_arith)
            requires
                i == 0,
        ;
    } else {
        lemma_pow2_mod_fixed_multiple(a, d, (i - 1) as nat, m);
        lemma_pow2_mod_compose(a, d * ((i - 1) as nat), d, m);
        assert(d * ((i - 1) as nat) + d == d * i) by (nonlinear_arith)
            requires
                i >= 1,
        ;
    }
}

/// What `u` squarings and `v` squarings leave fixed, so do as many
/// squarings as their greatest common divisor.
pub proof fn lemma_pow2_mod_fixed_gcd(a: Seq<bool>, u: nat, v: nat, m: Seq<bool>)
    requires
        poly_pow2_mod(a, u, m) == a,
        poly_pow2_mod(a, v, m) == a,
    ensures
        poly_pow2_mod(a, gcd(u, v), m) == a,
    decreases v,
{
    if v > 0 {
        let q = u / v;
        let r = u % v;
        lemma_fundamental_div_mod(u as int, v as int);
        lemma_mod_bound(u as int, v as int);
        lemma_pow2_mod_fixed_multiple(a, v, q, m);
        lemma_pow2_mod_compose(a, v * q, r, m);
        assert(v * q + r == u);
        lemma_pow2_mod_fixed_gcd(a, v, r, m);
    }
}

/// Reducing by a polynomial and then by a divisor of it is reducing by
/// the divisor.
pub proof fn lemma_mod_mod_divisor(a: Seq<bool>, f: Seq<bool>, g: Seq<bool>)
    requires
        is_canonical(a),
        is_canonical(f),
        is_canonical(g),
        f != zero(),
        poly_divides(g, f),
    ensures
        poly_mod(poly_mod(a, f), g) == poly_mod(a, g),
{
    lemma_div_rem(a, f);
    let q = poly_div(a, f);
    let r = poly_mod(a, f);
    lemma_mul_coeff(q, f);
    lemma_divides_multiple(g, q, f);
    lemma_mod_add(poly_mul(q, f), r, g);
    lemma_mod_reduced(r, g);
    lemma_add_zero(poly_mod(r, g));
}

/// Repeated squaring modulo a polynomial, reduced by a divisor of it, is
/// repeated squaring modulo the divisor.
pub proof fn lemma_pow2_mod_reduce(a: Seq<bool>, k: nat, f: Seq<bool>, g: Seq<bool>)
    requires
        is_canonical(a),
        is_canonical(f),
        is_canonical(g),
        f != zero(),
        poly_divides(g, f),
    ensures
        poly_mod(poly_pow2_mod(a, k, f), g) == poly_pow2_mod(poly_mod(a, g), k, g),
    decreases k,
{
    if k > 0 {
        let j = (k - 1) as nat;
        lemma_pow2_mod_reduce(a, j, f, g);
        lemma_pow2_mod_canonical(a, j, f);
        let p = poly_pow2_mod(a, j, f);
        lemma_mul_coeff(p, p);
        lemma_mod_mod_divisor(poly_mul(p, p), f, g);
        lemma_mod_reduced(p, g);
        lemma_mod_mul_left(p, p, g);
        lemma_mod_mul_right(poly_mod(p, g), p, g);
    }
}

/// Rabin's test is sound: a polynomial that passes it is irreducible.
pub proof fn lemma_rabin_sound(f: Seq<bool>)
    requires
        rabin_irreducible(f),
    ensures
        is_irreducible_poly(f),
{
    let n = (f.len() - 1) as nat;
    if n == 1 {
        lemma_degree_one_irreducible(f);
    } else if !is_irreducible_poly(f) {
        // an irreducible divisor g of smaller degree e
        let g = lemma_irreducible_divisor(f);
        let e = (g.len() - 1) as nat;
        let xb = poly_mod(x(), g);
        lemma_mod_reduced(x(), g);
        // n squarings and e squarings leave x fixed modulo g
        lemma_pow2_mod_reduce(x(), n, f, g);
        lemma_frobenius_fixed(xb, g);
        lemma_pow2_mod_fixed_gcd(xb, n, e, g);
        // so do d squarings, for the greatest common divisor d of n and e
        let d = gcd(n, e);
        crate::numbers::lemma_gcd_divides(n, e);
        lemma_divisor_bound(e as int, d as int);
        lemma_divisor_bound(n as int, d as int);
        let c = n / d;
        crate::numbers::lemma_multiple(n as int, d as int);
        assert(c >= 2) by (nonlinear_arith)
            requires
                n == d * c,
                d < n,
                c >= 1,
        ;
        // a prime p that divides n / d divides n, and d divides n / p
        let p = lemma_prime_divisor_exists(c);
        crate::numbers::lemma_multiple(c as int, p as int);
        let i = c / p;
        assert(n == p * (d * i)) by (nonlinear_arith)
            requires
                n == d * c,
                c == p * i,
        ;
        crate::numbers::lemma_multiple_mod(p as int, (d * i) as int);
        vstd::arithmetic::div_mod::lemma_fundamental_div_mod_converse(
            n as int,
            p as int,
            (d * i) as int,
            0,
        );
        assert((p as int) * ((d * i) as int) == ((d * i) as int) * (p as int) + 0)
            by (nonlinear_arith);
        assert(n / p == d * i);
        assert(is_prime_divisor(p, n));
        assert(rabin_coprime_at(f, p));
        lemma_pow2_mod_fixed_multiple(xb, d, i, g);
        // so g divides x^(2^(n/p)) + x, and with it the greatest common divisor
        let y = poly_pow2_mod(x(), n / p, f);
        lemma_pow2_mod_canonical(x(), n / p, f);
        lemma_pow2_mod_reduce(x(), n / p, f, g);
        let w = poly_add(y, x());
        lemma_add_coeff(y, x());
        lemma_mod_add(y, x(), g);
        crate::polynomial::laws::lemma_add_self(xb);
        assert(poly_divides(g, w));
        crate::polynomial::congruence::lemma_gcd_greatest(g, f, w);
        assert(one() != zero()) by {
            assert(one()[0] != zero()[0]);
        }
        lemma_divisor_degree(g, one());
    }
}

/// The square of a sum is the sum of the squares, modulo `m`.
pub proof fn lemma_square_of_sum(a: Seq<bool>, b: Seq<bool>, m: Seq<bool>)
    requires
        is_canonical(a),
        is_canonical(b),
        is_canonical(m),
        m != zero(),
    ensures
        poly_mul_mod(poly_add(a, b), poly_add(a, b), m) == poly_add(
            poly_mul_mod(a, a, m),
            poly_mul_mod(b, b, m),
        ),
{
    let s = poly_add(a, b);
    lemma_add_coeff(a, b);
    lemma_mul_coeff(s, s);
    lemma_mul_coeff(a, a);
    lemma_mul_coeff(b, b);
    let lhs = poly_mul(s, s);
    let rhs = poly_add(poly_mul(a, a), poly_mul(b, b));
    lemma_add_coeff(poly_mul(a, a), poly_mul(b, b));
    assert forall|k: int| #![trigger coeff(lhs, k)] coeff(lhs, k) == coeff(rhs, k) by {
        lemma_square_coeff(s, k);
        lemma_square_coeff(a, k);
        lemma_square_coeff(b, k);
        assert(coeff(lhs, k) == conv(s, s, k));
        assert(coeff(poly_mul(a, a), k) == conv(a, a, k));
        assert(coeff(poly_mul(b, b), k) == conv(b, b, k));
        if k >= 0 && k % 2 == 0 {
            assert(coeff(s, k / 2) == (coeff(a, k / 2) != coeff(b, k / 2)));
        }
    }
    lemma_canonical_unique(lhs, rhs);
    lemma_mod_add(poly_mul(a, a), poly_mul(b, b), m);
}

/// Repeated squaring goes along with sums.
pub proof fn lemma_pow2_mod_of_sum(a: Seq<bool>, b: Seq<bool>, k: nat, m: Seq<bool>)
    requires
        is_canonical(a),
        is_canonical(b),
        is_canonical(m),
        m != zero(),
    ensures
        poly_pow2_mod(poly_add(a, b), k, m) == poly_add(
            poly_pow2_mod(a, k, m),
            poly_pow2_mod(b, k, m),
        ),
    decreases k,
{
    if k > 0 {
        let j = (k - 1) as nat;
        lemma_pow2_mod_of_sum(a, b, j, m);
        lemma_pow2_mod_canonical(a, j, m);
        lemma_pow2_mod_canonical(b, j, m);
        lemma_square_of_sum(poly_pow2_mod(a, j, m), poly_pow2_mod(b, j, m), m);
    }
}

/// Repeated squaring goes along with products modulo `m`.
pub proof fn lemma_pow2_mod_of_product(a: Seq<bool>, b: Seq<bool>, k: nat, m: Seq<bool>)
    requires
        is_canonical(a),
        is_canonical(b),
        is_canonical(m),
        m != zero(),
    ensures
        poly_pow2_mod(poly_mul_mod(a, b, m), k, m) == poly_mul_mod(
            poly_pow2_mod(a, k, m),
            poly_pow2_mod(b, k, m),
            m,
        ),
    decreases k,
{
    if k > 0 {
        let j = (k - 1) as nat;
        lemma_pow2_mod_of_product(a, b, j, m);
        lemma_pow2_mod_canonical(a, j, m);
        lemma_pow2_mod_canonical(b, j, m);
        let pa = poly_pow2_mod(a, j, m);
        let pb = poly_pow2_mod(b, j, m);
        lemma_mul_mod_interchange(pa, pb, pa, pb, m);
    }
}

/// Squaring 1 gives 1.
pub proof fn lemma_one_pow2_mod(k: nat, m: Seq<bool>)
    requires
        is_canonical(m),
        m.len() >= 2,
    ensures
        poly_pow2_mod(one(), k, m) == one(),
    decreases k,
{
    if k > 0 {
        lemma_one_pow2_mod((k - 1) as nat, m);
        lemma_one_mul_mod(one(), m);
    }
}

/// A polynomial of degree 1 or more is `x` times the polynomial of its
/// higher coefficients, plus its constant coefficient.
pub proof fn lemma_split_constant(a: Seq<bool>)
    requires
        is_canonical(a),
        a.len() >= 2,
    ensures
        is_canonical(a.drop_last()),
        a.drop_last() != zero(),
        a == poly_add(
            poly_mul(a.drop_last(), x()),
            if a.last() {
                one()
            } else {
                zero()
            },
        ),
{
    let b = a.drop_last();
    let c = if a.last() {
        one()
    } else {
        zero()
    };
    assert(b[0] == a[0]);
    assert(b != zero()) by {
        assert(b[0] != zero()[0]);
    }
    lemma_mul_coeff(b, x());
    let bx = poly_mul(b, x());
    lemma_add_coeff(bx, c);
    let rhs = poly_add(bx, c);
    assert(monomial(1) =~= x());
    assert forall|k: int| #![trigger coeff(rhs, k)] coeff(rhs, k) == coeff(a, k) by {
        lemma_conv_commutative(b, x(), k);
        lemma_conv_monomial(1, b, k);
        assert(coeff(bx, k) == conv(b, x(), k));
        assert(coeff(rhs, k) == (coeff(bx, k) != coeff(c, k)));
        if k >= 1 {
            assert(coeff(b, k - 1) == coeff(a, k));
        }
    }
    lemma_canonical_unique(rhs, a);
}

/// Where `k` squarings leave `x` fixed modulo `f`, of degree 2 or more,
/// they leave every remainder fixed.
pub proof fn lemma_pow2_mod_fixes_all(a: Seq<bool>, k: nat, f: Seq<bool>)
    requires
        is_canonical(f),
        f.len() >= 3,
        poly_pow2_mod(x(), k, f) == x(),
        is_reduced(a, f),
    ensures
        poly_pow2_mod(a, k, f) == a,
    decreases a.len(),
{
    assert(one() != zero()) by {
        assert(one()[0] != zero()[0]);
    }
    if a.len() == 1 {
        if a[0] {
            assert(a =~= one());
            lemma_one_pow2_mod(k, f);
        } else {
            assert(a =~= zero());
            lemma_zero_pow2_mod(k, f);
        }
    } else {
        let b = a.drop_last();
        let c = if a.last() {
            one()
        } else {
            zero()
        };
        lemma_split_constant(a);
        assert(x() != zero()) by {
            assert(x().len() != zero().len());
        }
        lemma_product_length(b, x());
        let bx = poly_mul(b, x());
        lemma_mul_coeff(b, x());
        lemma_mod_of_reduced(bx, f);
        lemma_pow2_mod_fixes_all(b, k, f);
        lemma_pow2_mod_of_product(b, x(), k, f);
        lemma_pow2_mod_of_sum(bx, c, k, f);
        if a.last() {
            lemma_one_pow2_mod(k, f);
        } else {
            lemma_zero_pow2_mod(k, f);
        }
    }
}

/// Rabin's test is complete: every irreducible polynomial passes it.
pub proof fn lemma_rabin_complete(f: Seq<bool>)
    requires
        is_irreducible_poly(f),
    ensures
        rabin_irreducible(f),
{
    let n = (f.len() - 1) as nat;
    if n >= 2 {
        assert(x() != zero()) by {
            assert(x().len() != zero().len());
        }
        lemma_frobenius_fixed(x(), f);
        assert forall|p: nat| #[trigger] is_prime_divisor(p, n) implies rabin_coprime_at(f, p) by {
            lemma_exact_division(n, p);
            let m = n / p;
            let y = poly_pow2_mod(x(), m, f);
            lemma_pow2_mod_canonical(x(), m, f);
            let w = poly_add(y, x());
            lemma_add_reduced(y, x(), f);
            let g = poly_gcd(f, w);
            lemma_gcd_nonzero(f, w);
            lemma_gcd_divides(f, w);
            assert(poly_divides(g, f));
            if g == f {
                // f divides x^(2^m) + x, which is a remainder, and so zero
                if w != zero() {
                    lemma_divisor_degree(f, w);
                }
                lemma_add_zero_equal(y, x());
                // m squarings leave every remainder fixed: too many roots
                lemma_pow2_pos(m);
                lemma_pow2_unfold(m);
                let d = pow2(m);
                let k = d + 1;
                lemma_pow2_unfold(n);
                if m < n - 1 {
                    lemma_pow2_strictly_increases(m, (n - 1) as nat);
                }
                vstd::arithmetic::power2::lemma2_to64();
                if n - 1 > 1 {
                    lemma_pow2_strictly_increases(1, (n - 1) as nat);
                }
                assert(k < pow2(n));
                let t = power_minus_identity(d);
                lemma_power_minus_identity(d, x(), f);
                assert forall|i: nat| 1 <= i <= k implies crate::polynomial::roots::eval_at(
                    t,
                    #[trigger] poly_of(i),
                    f,
                ) == zero() by {
                    let v = poly_of(i);
                    lemma_poly_of(i, n);
                    lemma_power_minus_identity(d, v, f);
                    lemma_pow2_mod_is_power(v, m, f);
                    lemma_pow2_mod_fixes_all(v, m, f);
                    lemma_add_self(v);
                }
                lemma_root_bound(t, k, f);
            }
        }
    }
}

/// Rabin's test decides irreducibility: a canonical polynomial passes it
/// just where it is irreducible.
pub proof fn lemma_rabin_exact(f: Seq<bool>)
    ensures
        rabin_irreducible(f) <==> is_irreducible_poly(f),
{
    if rabin_irreducible(f) {
        lemma_rabin_sound(f);
    }
    if is_irreducible_poly(f) {
        lemma_rabin_complete(f);
    }
}

} // verus!
