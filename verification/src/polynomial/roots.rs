//! Polynomials over the field of the remainders modulo an irreducible
//! polynomial: a polynomial of degree `d` has at most `d` roots there.
use crate::polynomial::congruence::{
    lemma_add_reduced, lemma_mod_of_reduced, lemma_mul_mod_associative, lemma_mul_mod_commutative,
    lemma_mul_mod_distributes, lemma_mul_mod_reduced, lemma_one_mul_mod, lemma_pow_mod_reduced,
    lemma_zero_mul_mod,
};
use crate::polynomial::field::{lemma_poly_of, lemma_unit_cancel, poly_of};
use crate::polynomial::laws::{
    lemma_add_cancel_middle, lemma_add_commutative, lemma_add_self, lemma_add_zero,
    lemma_add_zero_equal,
};
use crate::polynomial::model::{
    is_canonical, is_irreducible_poly, is_reduced, lemma_add_coeff, one, poly_add, poly_mul_mod,
    poly_pow_mod, zero,
};
use vstd::arithmetic::power2::pow2;
use vstd::prelude::*;

verus! {

/// The value at `y` of the polynomial with the coefficients `c`, highest
/// degree first, over the remainders modulo `m`.
pub open spec fn eval_at(c: Seq<Seq<bool>>, y: Seq<bool>, m: Seq<bool>) -> Seq<bool>
    decreases c.len(),
{
    if c.len() == 0 {
        zero()
    } else {
        poly_add(poly_mul_mod(eval_at(c.drop_last(), y, m), y, m), c.last())
    }
}

/// The quotient of the division of the polynomial with the coefficients
/// `c` by `Y - r`.
pub open spec fn quotient_by_root(c: Seq<Seq<bool>>, r: Seq<bool>, m: Seq<bool>) -> Seq<Seq<bool>>
    decreases c.len(),
{
    if c.len() <= 1 {
        Seq::empty()
    } else {
        quotient_by_root(c.drop_last(), r, m).push(eval_at(c.drop_last(), r, m))
    }
}

/// The coefficients are remainders modulo `m`.
pub open spec fn coefficients_reduced(c: Seq<Seq<bool>>, m: Seq<bool>) -> bool {
    forall|i: int| 0 <= i < c.len() ==> is_reduced(#[trigger] c[i], m)
}

/// The value of a polynomial is a remainder.
pub proof fn lemma_eval_reduced(c: Seq<Seq<bool>>, y: Seq<bool>, m: Seq<bool>)
    requires
        coefficients_reduced(c, m),
        is_canonical(y),
        is_canonical(m),
        m.len() >= 2,
    ensures
        is_reduced(eval_at(c, y, m), m),
    decreases c.len(),
{
    if c.len() > 0 {
        let d = c.drop_last();
        assert forall|i: int| 0 <= i < d.len() implies is_reduced(#[trigger] d[i], m) by {
            assert(d[i] == c[i]);
        }
        lemma_eval_reduced(d, y, m);
        lemma_mul_mod_reduced(eval_at(d, y, m), y, m);
        assert(is_reduced(c[c.len() - 1], m));
        lemma_add_reduced(poly_mul_mod(eval_at(d, y, m), y, m), c.last(), m);
    }
}

/// The quotient by a root has one coefficient less, the same leading
/// coefficient, and remainders as coefficients.
pub proof fn lemma_quotient_shape(c: Seq<Seq<bool>>, r: Seq<bool>, m: Seq<bool>)
    requires
        coefficients_reduced(c, m),
        is_reduced(r, m),
        is_canonical(m),
        m.len() >= 2,
        c.len() >= 1,
    ensures
        quotient_by_root(c, r, m).len() == c.len() - 1,
        coefficients_reduced(quotient_by_root(c, r, m), m),
        c.len() >= 2 ==> quotient_by_root(c, r, m)[0] == c[0],
    decreases c.len(),
{
    if c.len() >= 2 {
        let d = c.drop_last();
        assert forall|i: int| 0 <= i < d.len() implies is_reduced(#[trigger] d[i], m) by {
            assert(d[i] == c[i]);
        }
        lemma_quotient_shape(d, r, m);
        lemma_eval_reduced(d, r, m);
        let q = quotient_by_root(c, r, m);
        assert forall|i: int| 0 <= i < q.len() implies is_reduced(#[trigger] q[i], m) by {
            if i < q.len() - 1 {
                assert(q[i] == quotient_by_root(d, r, m)[i]);
            }
        }
        if c.len() == 2 {
            // the value of the leading coefficient alone is the coefficient
            let e = d.drop_last();
            assert(e.len() == 0);
            assert(eval_at(e, r, m) == zero());
            lemma_zero_mul_mod(r, m);
            assert(is_reduced(d[0], m));
            lemma_add_zero(d.last());
        } else {
            assert(d[0] == c[0]);
        }
    }
}

/// The factor theorem: the difference of the values at `y` and at `r` is
/// `y - r` times the value of the quotient by `Y - r` at `y`.
pub proof fn lemma_factor(c: Seq<Seq<bool>>, y: Seq<bool>, r: Seq<bool>, m: Seq<bool>)
    requires
        coefficients_reduced(c, m),
        is_reduced(y, m),
        is_reduced(r, m),
        is_canonical(m),
        m.len() >= 2,
    ensures
        poly_add(eval_at(c, y, m), eval_at(c, r, m)) == poly_mul_mod(
            poly_add(y, r),
            eval_at(quotient_by_root(c, r, m), y, m),
            m,
        ),
    decreases c.len(),
{
    if c.len() == 0 {
        lemma_add_self(zero());
        lemma_add_coeff(y, r);
        lemma_zero_mul_mod(poly_add(y, r), m);
    } else {
        let d = c.drop_last();
        assert forall|i: int| 0 <= i < d.len() implies is_reduced(#[trigger] d[i], m) by {
            assert(d[i] == c[i]);
        }
        let l = c.last();
        assert(is_reduced(c[c.len() - 1], m));
        let ev = eval_at(d, y, m);
        let rv = eval_at(d, r, m);
        lemma_eval_reduced(d, y, m);
        lemma_eval_reduced(d, r, m);
        let s = poly_add(y, r);
        lemma_add_reduced(y, r, m);
        let evy = poly_mul_mod(ev, y, m);
        let rvr = poly_mul_mod(rv, r, m);
        lemma_mul_mod_reduced(ev, y, m);
        lemma_mul_mod_reduced(rv, r, m);
        // the left side is ev * y + rv * r
        lemma_add_commutative(rvr, l);
        lemma_add_cancel_middle(evy, l, rvr);
        if c.len() == 1 {
            // no coefficient before the last: both values are the coefficient
            assert(d.len() == 0);
            lemma_zero_mul_mod(y, m);
            lemma_zero_mul_mod(r, m);
            lemma_add_self(zero());
            lemma_zero_mul_mod(s, m);
        } else {
            let q1 = quotient_by_root(d, r, m);
            let q = quotient_by_root(c, r, m);
            assert(q.drop_last() =~= q1);
            assert(q.last() == rv);
            lemma_quotient_shape(d, r, m);
            let qv = eval_at(q1, y, m);
            lemma_eval_reduced(q1, y, m);
            lemma_factor(d, y, r, m);
            // ev + rv = s * qv
            let qvy = poly_mul_mod(qv, y, m);
            lemma_mul_mod_reduced(qv, y, m);
            // the right side: s * (qv * y + rv) = (s * qv) * y + s * rv
            lemma_mul_mod_distributes(s, qvy, rv, m);
            lemma_mul_mod_associative(s, qv, y, m);
            // (ev + rv) * y = ev * y + rv * y
            lemma_mul_mod_distributes(y, ev, rv, m);
            // s * rv = y * rv + r * rv
            lemma_mul_mod_distributes(rv, y, r, m);
            lemma_mul_mod_commutative(rv, y, m);
            lemma_mul_mod_commutative(rv, r, m);
            let rvy = poly_mul_mod(rv, y, m);
            lemma_mul_mod_reduced(rv, y, m);
            // (ev*y + rv*y) + (rv*y + rv*r) = ev*y + rv*r
            lemma_add_cancel_middle(evy, rvy, rvr);
        }
    }
}

/// A polynomial of degree `d` with the leading coefficient 1 has at most
/// `d` roots: where the polynomials of the numbers from 1 up to `k` are
/// roots, `k` is at most `d`.
pub proof fn lemma_root_bound(c: Seq<Seq<bool>>, k: nat, m: Seq<bool>)
    requires
        is_irreducible_poly(m),
        coefficients_reduced(c, m),
        c.len() >= 1,
        c[0] == one(),
        k < pow2((m.len() - 1) as nat),
        forall|i: nat| 1 <= i <= k ==> eval_at(c, #[trigger] poly_of(i), m) == zero(),
    ensures
        k <= c.len() - 1,
    decreases c.len(),
{
    let e = (m.len() - 1) as nat;
    if k >= 1 {
        assert(one() != zero()) by {
            assert(one()[0] != zero()[0]);
        }
        let r = poly_of(k);
        lemma_poly_of(k, e);
        if c.len() == 1 {
            // the value of the constant 1 is 1
            let d = c.drop_last();
            assert(d.len() == 0);
            assert(eval_at(d, r, m) == zero());
            lemma_zero_mul_mod(r, m);
            lemma_add_zero(one());
            assert(c.last() == c[0]);
            assert(eval_at(c, r, m) == poly_add(poly_mul_mod(eval_at(d, r, m), r, m), c.last()));
            assert(eval_at(c, r, m) == one());
        } else {
            let q = quotient_by_root(c, r, m);
            lemma_quotient_shape(c, r, m);
            assert forall|i: nat| 1 <= i <= k - 1 implies eval_at(q, #[trigger] poly_of(i), m)
                == zero() by {
                let y = poly_of(i);
                lemma_poly_of(i, e);
                lemma_factor(c, y, r, m);
                assert(eval_at(c, y, m) == zero());
                assert(eval_at(c, r, m) == zero());
                lemma_add_self(zero());
                // (y + r) * q(y) = 0, and y + r is a unit
                let s = poly_add(y, r);
                lemma_add_reduced(y, r, m);
                lemma_add_zero_equal(y, r);
                assert(y != r) by {
                    // the values of the two are the numbers i and k
                    assert(crate::polynomial::field::bits_value(y) == i);
                    assert(crate::polynomial::field::bits_value(r) == k);
                }
                lemma_eval_reduced(q, y, m);
                lemma_zero_mul_mod(s, m);
                lemma_unit_cancel(s, eval_at(q, y, m), zero(), m);
            }
            lemma_root_bound(q, (k - 1) as nat, m);
        }
    }
}

/// The coefficients of `Y^d + Y`, for `d` from 2 on.
pub open spec fn power_minus_identity(d: nat) -> Seq<Seq<bool>> {
    Seq::new(
        d + 1,
        |i: int|
            if i == 0 || i == d - 1 {
                one()
            } else {
                zero()
            },
    )
}

/// The value of the first `j` coefficients of `Y^d + Y` at `y` is
/// `y^(j-1)`, for `j` below `d`.
pub proof fn lemma_power_prefix(d: nat, j: nat, y: Seq<bool>, m: Seq<bool>)
    requires
        is_reduced(y, m),
        is_canonical(m),
        m.len() >= 2,
        1 <= j < d,
    ensures
        eval_at(power_minus_identity(d).take(j as int), y, m) == poly_pow_mod(
            y,
            (j - 1) as nat,
            m,
        ),
    decreases j,
{
    let t = power_minus_identity(d);
    let c = t.take(j as int);
    let b = c.drop_last();
    lemma_mod_of_reduced(one(), m);
    assert(eval_at(c, y, m) == poly_add(poly_mul_mod(eval_at(b, y, m), y, m), c.last()));
    if j == 1 {
        assert(b.len() == 0);
        assert(eval_at(b, y, m) == zero());
        lemma_zero_mul_mod(y, m);
        lemma_add_zero(one());
        assert(c.last() == t[0]);
        assert(poly_pow_mod(y, 0, m) == one());
    } else {
        assert(b =~= t.take(j - 1));
        lemma_power_prefix(d, (j - 1) as nat, y, m);
        assert(c.last() == t[j - 1]);
        assert(c.last() == zero());
        let p = poly_pow_mod(y, (j - 2) as nat, m);
        lemma_pow_mod_reduced(y, (j - 2) as nat, m);
        lemma_mul_mod_reduced(p, y, m);
        lemma_add_zero(poly_mul_mod(p, y, m));
        assert(poly_pow_mod(y, (j - 1) as nat, m) == poly_mul_mod(p, y, m));
    }
}

/// The value of `Y^d + Y` at `y` is `y^d + y`.
pub proof fn lemma_power_minus_identity(d: nat, y: Seq<bool>, m: Seq<bool>)
    requires
        is_reduced(y, m),
        is_canonical(m),
        m.len() >= 2,
        d >= 2,
    ensures
        eval_at(power_minus_identity(d), y, m) == poly_add(poly_pow_mod(y, d, m), y),
        coefficients_reduced(power_minus_identity(d), m),
        power_minus_identity(d)[0] == one(),
{
    let t = power_minus_identity(d);
    assert(one() != zero()) by {
        assert(one()[0] != zero()[0]);
    }
    assert forall|i: int| 0 <= i < t.len() implies is_reduced(#[trigger] t[i], m) by {}
    let c = t.drop_last();
    let b = c.drop_last();
    assert(c =~= t.take(d as int));
    assert(b =~= t.take(d - 1));
    lemma_power_prefix(d, (d - 1) as nat, y, m);
    let p = poly_pow_mod(y, (d - 2) as nat, m);
    lemma_pow_mod_reduced(y, (d - 2) as nat, m);
    let py = poly_mul_mod(p, y, m);
    lemma_mul_mod_reduced(p, y, m);
    assert(py == poly_pow_mod(y, (d - 1) as nat, m));
    assert(c.last() == t[d - 1]);
    assert(c.last() == one());
    assert(t.last() == t[d as int]);
    assert(t.last() == zero());
    assert(eval_at(c, y, m) == poly_add(poly_mul_mod(eval_at(b, y, m), y, m), c.last()));
    assert(eval_at(t, y, m) == poly_add(poly_mul_mod(eval_at(c, y, m), y, m), t.last()));
    assert(poly_pow_mod(y, d, m) == poly_mul_mod(py, y, m));
    // (y^(d-1) + 1) * y + 0 = y^d + y
    let u = poly_add(py, one());
    lemma_add_reduced(py, one(), m);
    lemma_mul_mod_distributes(y, py, one(), m);
    lemma_one_mul_mod(y, m);
    lemma_mul_mod_reduced(u, y, m);
    lemma_add_zero(poly_mul_mod(u, y, m));
}

} // verus!
