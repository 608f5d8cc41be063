//! Laws of the arithmetic of polynomials over GF(2), proved over the model.
use crate::polynomial::model::{
    coeff, conv, is_canonical, lemma_add_coeff, lemma_canonical_unique, lemma_canonical_zero,
    lemma_conv_bound, lemma_mod_reduced, lemma_monomial_coeff, lemma_mul_coeff, lemma_reduce_step,
    monomial, one, poly_add, poly_div, poly_gcd, poly_mod, poly_mul, reduce_step, reducible_by,
    weight, zero,
};
use vstd::prelude::*;

verus! {

/// The polynomial divided by `x`, the constant coefficient dropped.
pub open spec fn lower(a: Seq<bool>) -> Seq<bool> {
    if a.len() == 0 {
        a
    } else {
        a.drop_last()
    }
}

/// The coefficients of `lower(a)` are those of `a`, one place down.
pub proof fn lemma_lower_coeff(a: Seq<bool>)
    ensures
        forall|i: int| #![trigger coeff(lower(a), i)] i >= 0 ==> coeff(lower(a), i) == coeff(a, i + 1),
{
}

/// The product written out by the constant coefficient of the first factor:
/// `a * b = a_0 * b + x * (lower(a) * b)`.
pub proof fn lemma_conv_unfold_left(a: Seq<bool>, b: Seq<bool>, k: int)
    ensures
        conv(a, b, k) == (k >= 0 && ((coeff(a, 0) && coeff(b, k)) != conv(lower(a), b, k - 1))),
{
    if a.len() == 0 {
        assert(!conv(lower(a), b, k - 1));
    }
}

/// The product written out by the constant coefficient of the second factor:
/// `a * b = b_0 * a + x * (a * lower(b))`.
pub proof fn lemma_conv_unfold_right(a: Seq<bool>, b: Seq<bool>, k: int)
    ensures
        conv(a, b, k) == (k >= 0 && ((coeff(b, 0) && coeff(a, k)) != conv(a, lower(b), k - 1))),
    decreases a.len(),
{
    if a.len() == 0 || k < 0 {
    } else {
        let a1 = a.drop_last();
        lemma_conv_unfold_right(a1, b, k - 1);
        lemma_lower_coeff(a);
        lemma_lower_coeff(b);
        assert(lower(a) == a1);
        if k >= 1 {
            assert(coeff(lower(a), k - 1) == coeff(a, k));
            assert(coeff(lower(b), k - 1) == coeff(b, k));
        }
    }
}

/// The product is additive in its first factor.
pub proof fn lemma_conv_linear_left(
    a1: Seq<bool>,
    a2: Seq<bool>,
    a3: Seq<bool>,
    b: Seq<bool>,
    k: int,
)
    requires
        forall|i: int| #![trigger coeff(a3, i)] coeff(a3, i) == (coeff(a1, i) != coeff(a2, i)),
    ensures
        conv(a3, b, k) == (conv(a1, b, k) != conv(a2, b, k)),
    decreases k + 1,
{
    lemma_conv_unfold_left(a1, b, k);
    lemma_conv_unfold_left(a2, b, k);
    lemma_conv_unfold_left(a3, b, k);
    if k >= 0 {
        lemma_lower_coeff(a1);
        lemma_lower_coeff(a2);
        lemma_lower_coeff(a3);
        assert forall|i: int| #![trigger coeff(lower(a3), i)] coeff(lower(a3), i) == (coeff(
            lower(a1),
            i,
        ) != coeff(lower(a2), i)) by {
            if i >= 0 {
                assert(coeff(a3, i + 1) == (coeff(a1, i + 1) != coeff(a2, i + 1)));
            }
        }
        lemma_conv_linear_left(lower(a1), lower(a2), lower(a3), b, k - 1);
        assert(coeff(a3, 0) == (coeff(a1, 0) != coeff(a2, 0)));
    }
}

/// The product is additive in its second factor.
pub proof fn lemma_conv_linear_right(
    a: Seq<bool>,
    b1: Seq<bool>,
    b2: Seq<bool>,
    b3: Seq<bool>,
    k: int,
)
    requires
        forall|i: int| #![trigger coeff(b3, i)] coeff(b3, i) == (coeff(b1, i) != coeff(b2, i)),
    ensures
        conv(a, b3, k) == (conv(a, b1, k) != conv(a, b2, k)),
    decreases a.len(),
{
    if k < 0 || a.len() == 0 {
    } else {
        lemma_conv_linear_right(a.drop_last(), b1, b2, b3, k - 1);
        assert(coeff(b3, k) == (coeff(b1, k) != coeff(b2, k)));
    }
}

/// The product depends on the coefficients of its factors only.
pub proof fn lemma_conv_congruent(a1: Seq<bool>, b1: Seq<bool>, a2: Seq<bool>, b2: Seq<bool>, k: int)
    requires
        forall|i: int| #![trigger coeff(a1, i)] coeff(a1, i) == coeff(a2, i),
        forall|i: int| #![trigger coeff(b1, i)] coeff(b1, i) == coeff(b2, i),
    ensures
        conv(a1, b1, k) == conv(a2, b2, k),
{
    let e = Seq::<bool>::empty();
    assert forall|i: int| #![trigger coeff(a1, i)] coeff(a1, i) == (coeff(a2, i) != coeff(e, i)) by {}
    lemma_conv_linear_left(a2, e, a1, b1, k);
    assert forall|i: int| #![trigger coeff(b1, i)] coeff(b1, i) == (coeff(b2, i) != coeff(e, i)) by {}
    lemma_conv_linear_right(a2, b2, e, b1, k);
    lemma_conv_zero_right(a2, e, k);
}

/// A product with a factor whose coefficients all vanish has none.
pub proof fn lemma_conv_zero_right(a: Seq<bool>, z: Seq<bool>, k: int)
    requires
        forall|i: int| #![trigger coeff(z, i)] !coeff(z, i),
    ensures
        !conv(a, z, k),
        !conv(z, a, k),
    decreases a.len(),
{
    if k < 0 || a.len() == 0 {
    } else {
        lemma_conv_zero_right(a.drop_last(), z, k - 1);
        assert(!coeff(z, k));
    }
    lemma_conv_zero_left(z, a, k);
}

/// A product whose first factor has no coefficient has none.
pub proof fn lemma_conv_zero_left(z: Seq<bool>, b: Seq<bool>, k: int)
    requires
        forall|i: int| #![trigger coeff(z, i)] !coeff(z, i),
    ensures
        !conv(z, b, k),
    decreases z.len(),
{
    if k < 0 || z.len() == 0 {
    } else {
        assert(z.last() == coeff(z, 0));
        assert forall|i: int| #![trigger coeff(z.drop_last(), i)] !coeff(z.drop_last(), i) by {
            if i >= 0 {
                assert(coeff(z.drop_last(), i) == coeff(z, i + 1));
            }
        }
        lemma_conv_zero_left(z.drop_last(), b, k - 1);
    }
}

/// The product does not depend on the order of its factors.
pub proof fn lemma_conv_commutative(a: Seq<bool>, b: Seq<bool>, k: int)
    ensures
        conv(a, b, k) == conv(b, a, k),
    decreases a.len(),
{
    if a.len() == 0 {
        assert forall|i: int| #![trigger coeff(a, i)] !coeff(a, i) by {}
        lemma_conv_zero_right(b, a, k);
    } else if k < 0 {
        lemma_conv_unfold_left(b, a, k);
    } else {
        lemma_conv_commutative(a.drop_last(), b, k - 1);
        lemma_conv_unfold_right(b, a, k);
        assert(lower(a) == a.drop_last());
    }
}

/// Squaring spreads the coefficients: the square of `a` has the coefficient
/// `a_i` at `x^(2i)` and nothing in between.
pub proof fn lemma_square_coeff(a: Seq<bool>, k: int)
    ensures
        conv(a, a, k) == (k >= 0 && k % 2 == 0 && coeff(a, k / 2)),
    decreases a.len(),
{
    if a.len() == 0 || k < 0 {
    } else {
        let a1 = a.drop_last();
        assert(lower(a) == a1);
        lemma_conv_unfold_right(a1, a, k - 1);
        lemma_square_coeff(a1, k - 2);
        lemma_lower_coeff(a);
        if k >= 1 {
            assert(coeff(a1, k - 1) == coeff(a, k));
        }
        if k >= 2 && k % 2 == 0 {
            assert(coeff(a1, (k - 2) / 2) == coeff(a, (k - 2) / 2 + 1));
        }
    }
}

/// Every polynomial is its own negative: `a + a = 0`.
pub proof fn lemma_add_self(a: Seq<bool>)
    ensures
        poly_add(a, a) == zero(),
{
    lemma_add_coeff(a, a);
    lemma_canonical_zero(poly_add(a, a));
}

/// Adding the same polynomial twice gives back the first: `(a + b) + b = a`.
pub proof fn lemma_add_cancel(a: Seq<bool>, b: Seq<bool>)
    requires
        is_canonical(a),
    ensures
        poly_add(poly_add(a, b), b) == a,
{
    let s = poly_add(a, b);
    lemma_add_coeff(a, b);
    lemma_add_coeff(s, b);
    assert forall|k: int| #![trigger coeff(poly_add(s, b), k)] coeff(poly_add(s, b), k) == coeff(
        a,
        k,
    ) by {
        assert(coeff(s, k) == (coeff(a, k) != coeff(b, k)));
    }
    lemma_canonical_unique(poly_add(s, b), a);
}

/// Addition does not depend on the order of its operands.
pub proof fn lemma_add_commutative(a: Seq<bool>, b: Seq<bool>)
    ensures
        poly_add(a, b) == poly_add(b, a),
{
    lemma_add_coeff(a, b);
    lemma_add_coeff(b, a);
    assert forall|k: int| #![trigger coeff(poly_add(a, b), k)] coeff(poly_add(a, b), k) == coeff(
        poly_add(b, a),
        k,
    ) by {}
    lemma_canonical_unique(poly_add(a, b), poly_add(b, a));
}

/// Multiplication distributes over addition:
/// `a * (b + c) = a * b + a * c`.
pub proof fn lemma_mul_distributes(a: Seq<bool>, b: Seq<bool>, c: Seq<bool>)
    requires
        a.len() >= 1,
        b.len() >= 1,
        c.len() >= 1,
    ensures
        poly_mul(a, poly_add(b, c)) == poly_add(poly_mul(a, b), poly_mul(a, c)),
{
    let s = poly_add(b, c);
    lemma_add_coeff(b, c);
    lemma_mul_coeff(a, s);
    lemma_mul_coeff(a, b);
    lemma_mul_coeff(a, c);
    let lhs = poly_mul(a, s);
    let rhs = poly_add(poly_mul(a, b), poly_mul(a, c));
    lemma_add_coeff(poly_mul(a, b), poly_mul(a, c));
    assert forall|k: int| #![trigger coeff(lhs, k)] coeff(lhs, k) == coeff(rhs, k) by {
        lemma_conv_linear_right(a, b, c, s, k);
        assert(coeff(poly_mul(a, b), k) == conv(a, b, k));
        assert(coeff(poly_mul(a, c), k) == conv(a, c, k));
    }
    lemma_canonical_unique(lhs, rhs);
}

/// Multiplication does not depend on the order of its factors.
pub proof fn lemma_mul_commutative(a: Seq<bool>, b: Seq<bool>)
    requires
        a.len() >= 1,
        b.len() >= 1,
    ensures
        poly_mul(a, b) == poly_mul(b, a),
{
    lemma_mul_coeff(a, b);
    lemma_mul_coeff(b, a);
    assert forall|k: int| #![trigger coeff(poly_mul(a, b), k)] coeff(poly_mul(a, b), k) == coeff(
        poly_mul(b, a),
        k,
    ) by {
        lemma_conv_commutative(a, b, k);
    }
    lemma_canonical_unique(poly_mul(a, b), poly_mul(b, a));
}


/// The product of `x^n` and `b` is `b`, shifted by `n` places.
pub proof fn lemma_conv_monomial(n: nat, b: Seq<bool>, k: int)
    ensures
        conv(monomial(n), b, k) == coeff(b, k - n),
    decreases n,
{
    lemma_conv_unfold_left(monomial(n), b, k);
    lemma_monomial_coeff(n);
    assert(coeff(monomial(n), 0) == (n == 0));
    if n == 0 {
        assert(lower(monomial(n)) =~= Seq::<bool>::empty());
    } else {
        assert(lower(monomial(n)) =~= monomial((n - 1) as nat));
        lemma_conv_monomial((n - 1) as nat, b, k - 1);
    }
}

/// The coefficients of the quotient, step by step: a step of long division
/// on the dividend sets the quotient's coefficient at the difference of the
/// degrees.
pub proof fn lemma_div_step(a: Seq<bool>, b: Seq<bool>)
    requires
        reducible_by(a, b),
    ensures
        forall|k: int|
            #![trigger coeff(poly_div(a, b), k)]
            coeff(poly_div(a, b), k) == ((k == a.len() - b.len()) != coeff(
                poly_div(reduce_step(a, b), b),
                k,
            )),
        poly_mod(a, b) == poly_mod(reduce_step(a, b), b),
{
    let d = (a.len() - b.len()) as nat;
    lemma_monomial_coeff(d);
    lemma_add_coeff(monomial(d), poly_div(reduce_step(a, b), b));
    assert forall|k: int| #![trigger coeff(poly_div(a, b), k)] coeff(poly_div(a, b), k) == ((k
        == a.len() - b.len()) != coeff(poly_div(reduce_step(a, b), b), k)) by {
        assert(coeff(monomial(d), k) == (k == d));
    }
}

/// Division round trip: with the quotient `q` and the remainder `r` of the
/// division of `a` by `b`, which is not zero, `q * b + r = a`, and `r` is
/// zero or of smaller degree than `b`.
pub proof fn lemma_div_rem(a: Seq<bool>, b: Seq<bool>)
    requires
        is_canonical(a),
        is_canonical(b),
        b != zero(),
    ensures
        poly_add(poly_mul(poly_div(a, b), b), poly_mod(a, b)) == a,
        poly_mod(a, b) == zero() || poly_mod(a, b).len() < b.len(),
        is_canonical(poly_div(a, b)),
        is_canonical(poly_mod(a, b)),
    decreases weight(a),
{
    lemma_mod_reduced(a, b);
    let q = poly_div(a, b);
    let r = poly_mod(a, b);
    lemma_mul_coeff(q, b);
    lemma_add_coeff(poly_mul(q, b), r);
    let lhs = poly_add(poly_mul(q, b), r);
    if reducible_by(a, b) {
        let a1 = reduce_step(a, b);
        let q1 = poly_div(a1, b);
        let d = (a.len() - b.len()) as nat;
        lemma_reduce_step(a, b);
        lemma_div_rem(a1, b);
        lemma_div_step(a, b);
        lemma_mul_coeff(q1, b);
        lemma_add_coeff(poly_mul(q1, b), r);
        lemma_monomial_coeff(d);
        assert forall|k: int| #![trigger coeff(lhs, k)] coeff(lhs, k) == coeff(a, k) by {
            assert forall|i: int| #![trigger coeff(q, i)] coeff(q, i) == (coeff(monomial(d), i)
                != coeff(q1, i)) by {
                assert(coeff(monomial(d), i) == (i == d));
            }
            lemma_conv_linear_left(monomial(d), q1, q, b, k);
            lemma_conv_monomial(d, b, k);
            assert(coeff(poly_mul(q, b), k) == conv(q, b, k));
            assert(coeff(poly_mul(q1, b), k) == conv(q1, b, k));
            assert(coeff(poly_add(poly_mul(q1, b), r), k) == (conv(q1, b, k) != coeff(r, k)));
            assert(coeff(a1, k) == (coeff(a, k) != coeff(b, k - d)));
        }
    } else {
        assert forall|k: int| #![trigger coeff(lhs, k)] coeff(lhs, k) == coeff(a, k) by {
            assert forall|i: int| #![trigger coeff(q, i)] !coeff(q, i) by {}
            lemma_conv_zero_left(q, b, k);
            assert(coeff(poly_mul(q, b), k) == conv(q, b, k));
        }
    }
    lemma_canonical_unique(lhs, a);
}


/// The greatest common divisor with a polynomial other than zero is not
/// zero.
pub proof fn lemma_gcd_nonzero(a: Seq<bool>, b: Seq<bool>)
    requires
        is_canonical(a),
        is_canonical(b),
        a != zero() || b != zero(),
    ensures
        poly_gcd(a, b) != zero(),
        is_canonical(poly_gcd(a, b)),
    decreases weight(b),
{
    if b != zero() {
        lemma_mod_reduced(a, b);
        lemma_gcd_nonzero(b, poly_mod(a, b));
    }
}

/// Two polynomials whose sum is zero are equal.
pub proof fn lemma_add_zero_equal(a: Seq<bool>, b: Seq<bool>)
    requires
        is_canonical(a),
        is_canonical(b),
    ensures
        poly_add(a, b) == zero() <==> a == b,
{
    lemma_add_coeff(a, b);
    if poly_add(a, b) == zero() {
        assert forall|k: int| #![trigger coeff(a, k)] coeff(a, k) == coeff(b, k) by {
            assert(coeff(poly_add(a, b), k) == (coeff(a, k) != coeff(b, k)));
            assert(!coeff(zero(), k));
        }
        lemma_canonical_unique(a, b);
    }
    if a == b {
        lemma_add_self(a);
    }
}


/// The product of two sequences, written out: a sequence with the
/// coefficients of the product, not trimmed.
pub open spec fn conv_seq(a: Seq<bool>, b: Seq<bool>) -> Seq<bool> {
    Seq::new(a.len() + b.len(), |i: int| conv(a, b, a.len() + b.len() - 1 - i))
}

/// The coefficients of the written-out product.
pub proof fn lemma_conv_seq_coeff(a: Seq<bool>, b: Seq<bool>)
    ensures
        forall|k: int| #![trigger coeff(conv_seq(a, b), k)] coeff(conv_seq(a, b), k) == conv(a, b, k),
{
    assert forall|k: int| #![trigger coeff(conv_seq(a, b), k)] coeff(conv_seq(a, b), k) == conv(
        a,
        b,
        k,
    ) by {
        if k >= a.len() + b.len() {
            lemma_conv_bound(a, b, k);
        }
    }
}

/// The coefficients of a product of three, whichever two are multiplied
/// first.
pub proof fn lemma_conv_associative(a: Seq<bool>, b: Seq<bool>, c: Seq<bool>, k: int)
    ensures
        conv(conv_seq(a, b), c, k) == conv(a, conv_seq(b, c), k),
    decreases a.len(),
{
    let p = conv_seq(a, b);
    let q = conv_seq(b, c);
    lemma_conv_seq_coeff(a, b);
    lemma_conv_seq_coeff(b, c);
    if a.len() == 0 {
        assert forall|i: int| #![trigger coeff(p, i)] !coeff(p, i) by {
            assert(coeff(p, i) == conv(a, b, i));
        }
        lemma_conv_zero_left(p, c, k);
    } else if k < 0 {
        lemma_conv_unfold_left(p, c, k);
    } else {
        let a0 = a.last();
        let a1 = a.drop_last();
        let rest = conv_seq(a1, b);
        lemma_conv_seq_coeff(a1, b);
        // p = a0 * b + x * rest
        let s1 = if a0 {
            b
        } else {
            Seq::<bool>::empty()
        };
        let s2 = rest.push(false);
        assert(s2.drop_last() =~= rest);
        assert forall|i: int| #![trigger coeff(p, i)] coeff(p, i) == (coeff(s1, i) != coeff(
            s2,
            i,
        )) by {
            assert(coeff(p, i) == conv(a, b, i));
            lemma_conv_unfold_left(a, b, i);
            assert(lower(a) == a1);
            assert(coeff(a, 0) == a0);
            assert(coeff(s1, i) == (a0 && coeff(b, i)));
            assert(coeff(rest, i - 1) == conv(a1, b, i - 1));
            if i >= 1 {
                assert(coeff(s2, i) == coeff(rest, i - 1));
            } else {
                assert(!coeff(s2, i));
            }
        }
        lemma_conv_linear_left(s1, s2, p, c, k);
        lemma_conv_associative(a1, b, c, k - 1);
        assert(conv(s2, c, k) == conv(rest, c, k - 1));
        assert(coeff(q, k) == conv(b, c, k));
        if !a0 {
            assert(!conv(s1, c, k));
        }
    }
}

/// Multiplication may be grouped either way: `(a * b) * c = a * (b * c)`.
pub proof fn lemma_mul_associative(a: Seq<bool>, b: Seq<bool>, c: Seq<bool>)
    requires
        a.len() >= 1,
        b.len() >= 1,
        c.len() >= 1,
    ensures
        poly_mul(poly_mul(a, b), c) == poly_mul(a, poly_mul(b, c)),
{
    let ab = poly_mul(a, b);
    let bc = poly_mul(b, c);
    lemma_mul_coeff(a, b);
    lemma_mul_coeff(b, c);
    lemma_mul_coeff(ab, c);
    lemma_mul_coeff(a, bc);
    lemma_conv_seq_coeff(a, b);
    lemma_conv_seq_coeff(b, c);
    let lhs = poly_mul(ab, c);
    let rhs = poly_mul(a, bc);
    assert forall|k: int| #![trigger coeff(lhs, k)] coeff(lhs, k) == coeff(rhs, k) by {
        assert forall|i: int| #![trigger coeff(ab, i)] coeff(ab, i) == coeff(conv_seq(a, b), i) by {
            assert(coeff(ab, i) == conv(a, b, i));
            assert(coeff(conv_seq(a, b), i) == conv(a, b, i));
        }
        assert forall|i: int| #![trigger coeff(bc, i)] coeff(bc, i) == coeff(conv_seq(b, c), i) by {
            assert(coeff(bc, i) == conv(b, c, i));
            assert(coeff(conv_seq(b, c), i) == conv(b, c, i));
        }
        lemma_conv_congruent(ab, c, conv_seq(a, b), c, k);
        lemma_conv_congruent(a, bc, a, conv_seq(b, c), k);
        lemma_conv_associative(a, b, c, k);
    }
    lemma_canonical_unique(lhs, rhs);
}

/// Addition may be grouped either way: `(a + b) + c = a + (b + c)`.
pub proof fn lemma_add_associative(a: Seq<bool>, b: Seq<bool>, c: Seq<bool>)
    ensures
        poly_add(poly_add(a, b), c) == poly_add(a, poly_add(b, c)),
{
    lemma_add_coeff(a, b);
    lemma_add_coeff(b, c);
    lemma_add_coeff(poly_add(a, b), c);
    lemma_add_coeff(a, poly_add(b, c));
    let lhs = poly_add(poly_add(a, b), c);
    let rhs = poly_add(a, poly_add(b, c));
    assert forall|k: int| #![trigger coeff(lhs, k)] coeff(lhs, k) == coeff(rhs, k) by {
        assert(coeff(poly_add(a, b), k) == (coeff(a, k) != coeff(b, k)));
        assert(coeff(poly_add(b, c), k) == (coeff(b, k) != coeff(c, k)));
    }
    lemma_canonical_unique(lhs, rhs);
}

/// Zero is neutral for addition: `a + 0 = a`.
pub proof fn lemma_add_zero(a: Seq<bool>)
    requires
        is_canonical(a),
    ensures
        poly_add(a, zero()) == a,
        poly_add(zero(), a) == a,
{
    lemma_add_coeff(a, zero());
    assert forall|k: int| #![trigger coeff(poly_add(a, zero()), k)] coeff(poly_add(a, zero()), k)
        == coeff(a, k) by {
        assert(!coeff(zero(), k));
    }
    lemma_canonical_unique(poly_add(a, zero()), a);
    lemma_add_commutative(a, zero());
}

/// One is neutral for multiplication: `a * 1 = a`.
pub proof fn lemma_mul_one(a: Seq<bool>)
    requires
        is_canonical(a),
    ensures
        poly_mul(a, one()) == a,
        poly_mul(one(), a) == a,
{
    lemma_mul_coeff(one(), a);
    assert(monomial(0) =~= one());
    assert forall|k: int| #![trigger coeff(poly_mul(one(), a), k)] coeff(poly_mul(one(), a), k)
        == coeff(a, k) by {
        lemma_conv_monomial(0, a, k);
    }
    lemma_canonical_unique(poly_mul(one(), a), a);
    lemma_mul_commutative(a, one());
}

/// A product with zero is zero: `a * 0 = 0`.
pub proof fn lemma_mul_zero(a: Seq<bool>)
    requires
        a.len() >= 1,
    ensures
        poly_mul(a, zero()) == zero(),
        poly_mul(zero(), a) == zero(),
{
    lemma_mul_coeff(zero(), a);
    assert forall|k: int| #![trigger coeff(poly_mul(zero(), a), k)] !coeff(
        poly_mul(zero(), a),
        k,
    ) by {
        assert forall|i: int| #![trigger coeff(zero(), i)] !coeff(zero(), i) by {}
        lemma_conv_zero_left(zero(), a, k);
    }
    lemma_canonical_zero(poly_mul(zero(), a));
    lemma_mul_commutative(a, zero());
}

/// Multiplication distributes over addition from the right:
/// `(a + b) * c = a * c + b * c`.
pub proof fn lemma_mul_distributes_right(a: Seq<bool>, b: Seq<bool>, c: Seq<bool>)
    requires
        a.len() >= 1,
        b.len() >= 1,
        c.len() >= 1,
    ensures
        poly_mul(poly_add(a, b), c) == poly_add(poly_mul(a, c), poly_mul(b, c)),
{
    lemma_add_coeff(a, b);
    lemma_mul_commutative(poly_add(a, b), c);
    lemma_mul_commutative(a, c);
    lemma_mul_commutative(b, c);
    lemma_mul_distributes(c, a, b);
}

/// The leading coefficient of a product: the coefficient at the sum of the
/// degrees of two polynomials other than zero is set.
pub proof fn lemma_conv_leading(u: Seq<bool>, b: Seq<bool>)
    requires
        u.len() >= 1,
        b.len() >= 1,
        u[0],
        b[0],
    ensures
        conv(u, b, u.len() + b.len() - 2),
    decreases u.len(),
{
    let k = u.len() + b.len() - 2;
    if u.len() == 1 {
        assert(!conv(u.drop_last(), b, k - 1));
    } else {
        lemma_conv_leading(u.drop_last(), b);
    }
}


/// The greatest common divisor of zero and `m` is `m`.
pub proof fn lemma_gcd_of_zero(m: Seq<bool>)
    requires
        is_canonical(m),
    ensures
        poly_gcd(zero(), m) == m,
{
    if m != zero() {
        assert(!reducible_by(zero(), m));
        assert(poly_mod(zero(), m) == zero());
        assert(poly_gcd(m, zero()) == m);
    }
}


/// A summand that stands twice falls out: `(a + b) + (b + c) = a + c`.
pub proof fn lemma_add_cancel_middle(a: Seq<bool>, b: Seq<bool>, c: Seq<bool>)
    ensures
        poly_add(poly_add(a, b), poly_add(b, c)) == poly_add(a, c),
{
    let lhs = poly_add(poly_add(a, b), poly_add(b, c));
    let rhs = poly_add(a, c);
    lemma_add_coeff(a, b);
    lemma_add_coeff(b, c);
    lemma_add_coeff(poly_add(a, b), poly_add(b, c));
    lemma_add_coeff(a, c);
    assert forall|k: int| #![trigger coeff(lhs, k)] coeff(lhs, k) == coeff(rhs, k) by {
        assert(coeff(poly_add(a, b), k) == (coeff(a, k) != coeff(b, k)));
        assert(coeff(poly_add(b, c), k) == (coeff(b, k) != coeff(c, k)));
    }
    lemma_canonical_unique(lhs, rhs);
}

} // verus!
