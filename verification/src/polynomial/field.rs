//! The field of the remainders modulo an irreducible polynomial over
//! GF(2): its units, their products, and Fermat's little theorem in it.
use crate::fermat::{injective_on, lemma_pigeonhole, maps_into};
use crate::polynomial::congruence::{
    lemma_irreducible_inverse, lemma_mod_of_reduced, lemma_mul_mod_associative,
    lemma_mul_mod_commutative, lemma_mul_mod_interchange, lemma_mul_mod_reduced, lemma_mul_mod_swap,
    lemma_one_mul_mod, lemma_pow2_mod_is_power, lemma_pow_mod_reduced, lemma_zero_mul_mod,
};
use crate::polynomial::model::{
    is_canonical, is_irreducible_poly, is_reduced, lemma_leading, one, poly_inverse, poly_mul_mod,
    poly_pow2_mod, poly_pow_mod, zero,
};
use vstd::arithmetic::power2::{
    lemma_pow2_pos, lemma_pow2_strictly_increases, lemma_pow2_unfold, pow2,
};
use vstd::prelude::*;

verus! {

/// A unit modulo `g`: a remainder other than zero.
pub open spec fn is_unit(s: Seq<bool>, g: Seq<bool>) -> bool {
    is_reduced(s, g) && s != zero()
}

/// A unit modulo an irreducible polynomial may be cancelled.
pub proof fn lemma_unit_cancel(u: Seq<bool>, v: Seq<bool>, w: Seq<bool>, g: Seq<bool>)
    requires
        is_irreducible_poly(g),
        is_unit(u, g),
        is_reduced(v, g),
        is_reduced(w, g),
        poly_mul_mod(u, v, g) == poly_mul_mod(u, w, g),
    ensures
        v == w,
{
    lemma_irreducible_inverse(u, g);
    crate::polynomial::congruence::lemma_inverse_correct(u, g);
    let ui = poly_inverse(u, g)->Some_0;
    lemma_mul_mod_commutative(u, ui, g);
    lemma_mul_mod_associative(ui, u, v, g);
    lemma_mul_mod_associative(ui, u, w, g);
    lemma_one_mul_mod(v, g);
    lemma_one_mul_mod(w, g);
}

/// The product of two units modulo an irreducible polynomial is a unit.
pub proof fn lemma_unit_product(u: Seq<bool>, v: Seq<bool>, g: Seq<bool>)
    requires
        is_irreducible_poly(g),
        is_unit(u, g),
        is_unit(v, g),
    ensures
        is_unit(poly_mul_mod(u, v, g), g),
{
    lemma_mul_mod_reduced(u, v, g);
    if poly_mul_mod(u, v, g) == zero() {
        lemma_zero_mul_mod(u, g);
        lemma_unit_cancel(u, v, zero(), g);
    }
}

/// The number that the coefficient bits are in binary digits.
pub open spec fn bits_value(s: Seq<bool>) -> nat
    decreases s.len(),
{
    if s.len() == 0 {
        0
    } else {
        2 * bits_value(s.drop_last()) + (if s.last() {
            1nat
        } else {
            0nat
        })
    }
}

/// The polynomial whose coefficient bits are the binary digits of `k`.
pub open spec fn poly_of(k: nat) -> Seq<bool>
    decreases k,
{
    if k == 0 {
        zero()
    } else if k == 1 {
        one()
    } else {
        poly_of(k / 2).push(k % 2 == 1)
    }
}

/// The polynomial of a number is canonical and has the number as its
/// value; below `2^e` it has at most `e` coefficient bits.
pub proof fn lemma_poly_of(k: nat, e: nat)
    requires
        e >= 1,
        k < pow2(e),
    ensures
        is_canonical(poly_of(k)),
        bits_value(poly_of(k)) == k,
        poly_of(k).len() <= e,
        k >= 1 ==> poly_of(k) != zero() && poly_of(k)[0],
    decreases k,
{
    vstd::arithmetic::power2::lemma2_to64();
    if k == 0 {
        assert(zero().drop_last() =~= Seq::<bool>::empty());
        assert(bits_value(Seq::<bool>::empty()) == 0);
    } else if k == 1 {
        assert(one().drop_last() =~= Seq::<bool>::empty());
        assert(bits_value(Seq::<bool>::empty()) == 0);
        assert(one() != zero()) by {
            assert(one()[0] != zero()[0]);
        }
    } else {
        let h = k / 2;
        if e == 1 {
            assert(pow2(1) == 2);
        }
        lemma_pow2_unfold(e);
        lemma_poly_of(h, (e - 1) as nat);
        let p = poly_of(h);
        let s = p.push(k % 2 == 1);
        assert(s.drop_last() =~= p);
        assert(s[0] == p[0]);
        assert(s != zero()) by {
            assert(s.len() != zero().len());
        }
    }
}

/// A canonical sequence is the polynomial of its value, which is below 2
/// to the number of its coefficient bits, and 0 only for zero.
pub proof fn lemma_bits_value(s: Seq<bool>)
    requires
        is_canonical(s),
    ensures
        poly_of(bits_value(s)) == s,
        bits_value(s) < pow2(s.len()),
        s != zero() ==> bits_value(s) >= 1,
    decreases s.len(),
{
    vstd::arithmetic::power2::lemma2_to64();
    let t = s.drop_last();
    if s.len() == 1 {
        assert(t =~= Seq::<bool>::empty());
        assert(bits_value(t) == 0);
        if s[0] {
            assert(s =~= one());
        } else {
            assert(s =~= zero());
        }
    } else {
        assert(t[0] == s[0]);
        lemma_bits_value(t);
        lemma_leading(s);
        assert(t != zero()) by {
            assert(t[0] != zero()[0]);
        }
        let v = bits_value(t);
        let k = bits_value(s);
        lemma_pow2_unfold(s.len());
        assert(k / 2 == v && (k % 2 == 1) == s.last());
        assert(poly_of(k) == poly_of(v).push(k % 2 == 1));
        assert(t.push(s.last()) =~= s);
    }
}

/// The product of the polynomials of `f(1)`, ..., `f(n)` modulo `g`.
pub open spec fn prod_of(f: spec_fn(int) -> int, n: nat, g: Seq<bool>) -> Seq<bool>
    decreases n,
{
    if n == 0 {
        one()
    } else {
        poly_mul_mod(prod_of(f, (n - 1) as nat, g), poly_of(f(n as int) as nat), g)
    }
}

/// The product of the polynomials of 1, ..., `n` modulo `g`.
pub open spec fn prod_all(n: nat, g: Seq<bool>) -> Seq<bool>
    decreases n,
{
    if n == 0 {
        one()
    } else {
        poly_mul_mod(prod_all((n - 1) as nat, g), poly_of(n), g)
    }
}

/// The polynomial of a number from 1 up to `2^e - 1` is a unit modulo a
/// polynomial of degree `e`.
pub proof fn lemma_poly_of_unit(k: nat, g: Seq<bool>)
    requires
        is_canonical(g),
        g.len() >= 2,
        1 <= k < pow2((g.len() - 1) as nat),
    ensures
        is_unit(poly_of(k), g),
{
    lemma_poly_of(k, (g.len() - 1) as nat);
}

/// A product of units is a unit.
pub proof fn lemma_prod_unit(f: spec_fn(int) -> int, n: nat, g: Seq<bool>)
    requires
        is_irreducible_poly(g),
        maps_into(f, n, (pow2((g.len() - 1) as nat) - 1) as nat),
    ensures
        is_unit(prod_of(f, n, g), g),
    decreases n,
{
    lemma_pow2_pos((g.len() - 1) as nat);
    if n == 0 {
        assert(one() != zero()) by {
            assert(one()[0] != zero()[0]);
        }
    } else {
        lemma_prod_unit(f, (n - 1) as nat, g);
        assert(1 <= f(n as int) <= pow2((g.len() - 1) as nat) - 1);
        lemma_poly_of_unit(f(n as int) as nat, g);
        lemma_unit_product(prod_of(f, (n - 1) as nat, g), poly_of(f(n as int) as nat), g);
    }
}

/// Products over functions that agree are equal.
pub proof fn lemma_prod_agree(
    f1: spec_fn(int) -> int,
    f2: spec_fn(int) -> int,
    n: nat,
    g: Seq<bool>,
)
    requires
        forall|k: int| 1 <= k <= n ==> #[trigger] f1(k) == f2(k),
    ensures
        prod_of(f1, n, g) == prod_of(f2, n, g),
    decreases n,
{
    if n > 0 {
        lemma_prod_agree(f1, f2, (n - 1) as nat, g);
        assert(f1(n as int) == f2(n as int));
    }
}

/// The product over a function that gives each number itself is the
/// product of all.
pub proof fn lemma_prod_identity(f: spec_fn(int) -> int, n: nat, g: Seq<bool>)
    requires
        forall|k: int| 1 <= k <= n ==> #[trigger] f(k) == k,
    ensures
        prod_of(f, n, g) == prod_all(n, g),
    decreases n,
{
    if n > 0 {
        lemma_prod_identity(f, (n - 1) as nat, g);
        assert(f(n as int) == n);
    }
}

/// Products over functions that agree but at `j`: each, times the
/// polynomial of the other's value at `j`, gives the same.
pub proof fn lemma_prod_replace(
    f1: spec_fn(int) -> int,
    f2: spec_fn(int) -> int,
    j: int,
    m: nat,
    g: Seq<bool>,
)
    requires
        is_irreducible_poly(g),
        1 <= j <= m,
        maps_into(f1, m, (pow2((g.len() - 1) as nat) - 1) as nat),
        maps_into(f2, m, (pow2((g.len() - 1) as nat) - 1) as nat),
        forall|k: int| 1 <= k <= m && k != j ==> #[trigger] f1(k) == f2(k),
    ensures
        poly_mul_mod(prod_of(f1, m, g), poly_of(f2(j) as nat), g) == poly_mul_mod(
            prod_of(f2, m, g),
            poly_of(f1(j) as nat),
            g,
        ),
    decreases m,
{
    lemma_pow2_pos((g.len() - 1) as nat);
    let n = (m - 1) as nat;
    let limit = (pow2((g.len() - 1) as nat) - 1) as nat;
    let first = prod_of(f1, n, g);
    let second = prod_of(f2, n, g);
    assert(1 <= f1(j) <= limit && 1 <= f2(j) <= limit);
    lemma_poly_of_unit(f1(j) as nat, g);
    lemma_poly_of_unit(f2(j) as nat, g);
    let a = poly_of(f1(j) as nat);
    let b = poly_of(f2(j) as nat);
    assert forall|k: int| 1 <= k <= n implies 1 <= #[trigger] f1(k) <= limit by {}
    assert forall|k: int| 1 <= k <= n implies 1 <= #[trigger] f2(k) <= limit by {}
    lemma_prod_unit(f1, n, g);
    lemma_prod_unit(f2, n, g);
    if m == j {
        assert forall|k: int| 1 <= k <= n implies #[trigger] f1(k) == f2(k) by {}
        lemma_prod_agree(f1, f2, n, g);
        lemma_mul_mod_swap(first, a, b, g);
    } else {
        lemma_prod_replace(f1, f2, j, n, g);
        assert(f1(m as int) == f2(m as int));
        assert(1 <= f1(m as int) <= limit);
        lemma_poly_of_unit(f1(m as int) as nat, g);
        let c = poly_of(f1(m as int) as nat);
        lemma_mul_mod_swap(first, c, b, g);
        lemma_mul_mod_swap(second, c, a, g);
    }
}

/// The product over a permutation of the numbers from 1 up to `n` is the
/// product of all.
pub proof fn lemma_prod_permutation(f: spec_fn(int) -> int, n: nat, g: Seq<bool>)
    requires
        is_irreducible_poly(g),
        n < pow2((g.len() - 1) as nat),
        maps_into(f, n, n),
        injective_on(f, n),
    ensures
        prod_of(f, n, g) == prod_all(n, g),
    decreases n,
{
    if n > 0 {
        lemma_pow2_pos((g.len() - 1) as nat);
        let m = (n - 1) as nat;
        let limit = (pow2((g.len() - 1) as nat) - 1) as nat;
        if forall|k: int| 1 <= k <= n ==> #[trigger] f(k) != n {
            assert forall|k: int| 1 <= k <= m + 1 implies 1 <= #[trigger] f(k) <= m by {
                assert(1 <= f(k) <= n);
            }
            lemma_pigeonhole(f, m);
        }
        let j = choose|j: int| 1 <= j <= n && #[trigger] f(j) == n;
        let top = f(n as int);
        let h = |k: int|
            if k == j {
                top
            } else {
                f(k)
            };
        assert forall|k: int| 1 <= k <= m implies 1 <= #[trigger] h(k) <= m by {
            assert(1 <= f(k) <= n);
            assert(1 <= top <= n);
            if k == j {
                assert(f(n as int) != f(j));
            } else if f(k) == n {
                assert(f(k) == f(j));
            }
        }
        assert forall|a: int, b: int|
            1 <= a <= m && 1 <= b <= m && #[trigger] h(a) == #[trigger] h(b) implies a == b by {
            if a == j && b != j {
                assert(f(n as int) == f(b));
            }
            if a != j && b == j {
                assert(f(a) == f(n as int));
            }
        }
        lemma_prod_permutation(h, m, g);
        if j == n {
            lemma_prod_agree(f, h, m, g);
        } else {
            assert forall|k: int| 1 <= k <= m implies 1 <= #[trigger] f(k) <= limit by {
                assert(1 <= f(k) <= n);
            }
            assert forall|k: int| 1 <= k <= m implies 1 <= #[trigger] h(k) <= limit by {
                assert(1 <= h(k) <= m);
            }
            lemma_prod_replace(f, h, j, m, g);
            assert(h(j) == top);
        }
    }
}

/// The product of the multiples `a * 1`, ..., `a * n` of a unit `a` is
/// `a^n` times the product of all, modulo `g`.
pub proof fn lemma_prod_multiples(a: Seq<bool>, n: nat, g: Seq<bool>)
    requires
        is_irreducible_poly(g),
        is_unit(a, g),
        n < pow2((g.len() - 1) as nat),
    ensures
        prod_of(|k: int| bits_value(poly_mul_mod(a, poly_of(k as nat), g)) as int, n, g)
            == poly_mul_mod(poly_pow_mod(a, n, g), prod_all(n, g), g),
        is_unit(prod_all(n, g), g),
    decreases n,
{
    let f = |k: int| bits_value(poly_mul_mod(a, poly_of(k as nat), g)) as int;
    assert(one() != zero()) by {
        assert(one()[0] != zero()[0]);
    }
    lemma_mod_of_reduced(one(), g);
    if n == 0 {
        lemma_one_mul_mod(one(), g);
    } else {
        let m = (n - 1) as nat;
        lemma_prod_multiples(a, m, g);
        lemma_poly_of_unit(n, g);
        let r = poly_of(n);
        let ar = poly_mul_mod(a, r, g);
        lemma_unit_product(a, r, g);
        lemma_bits_value(ar);
        assert(poly_of(f(n as int) as nat) == ar);
        lemma_pow_mod_reduced(a, m, g);
        lemma_unit_product(prod_all(m, g), r, g);
        lemma_mul_mod_interchange(poly_pow_mod(a, m, g), prod_all(m, g), a, r, g);
    }
}

/// Fermat's little theorem for polynomials: modulo an irreducible
/// polynomial of degree `e`, a unit to the power `2^e - 1` is 1.
pub proof fn lemma_unit_power(a: Seq<bool>, g: Seq<bool>)
    requires
        is_irreducible_poly(g),
        is_unit(a, g),
    ensures
        poly_pow_mod(a, (pow2((g.len() - 1) as nat) - 1) as nat, g) == one(),
{
    let e = (g.len() - 1) as nat;
    lemma_pow2_pos(e);
    let n = (pow2(e) - 1) as nat;
    let f = |k: int| bits_value(poly_mul_mod(a, poly_of(k as nat), g)) as int;
    assert forall|k: int| 1 <= k <= n implies 1 <= #[trigger] f(k) <= n by {
        lemma_poly_of_unit(k as nat, g);
        lemma_unit_product(a, poly_of(k as nat), g);
        let ar = poly_mul_mod(a, poly_of(k as nat), g);
        lemma_bits_value(ar);
        if ar.len() < e {
            vstd::arithmetic::power2::lemma_pow2_strictly_increases(ar.len(), e);
        }
    }
    assert forall|j: int, k: int|
        1 <= j <= n && 1 <= k <= n && #[trigger] f(j) == #[trigger] f(k) implies j == k by {
        lemma_poly_of_unit(j as nat, g);
        lemma_poly_of_unit(k as nat, g);
        lemma_unit_product(a, poly_of(j as nat), g);
        lemma_unit_product(a, poly_of(k as nat), g);
        lemma_bits_value(poly_mul_mod(a, poly_of(j as nat), g));
        lemma_bits_value(poly_mul_mod(a, poly_of(k as nat), g));
        lemma_unit_cancel(a, poly_of(j as nat), poly_of(k as nat), g);
        lemma_poly_of(j as nat, e);
        lemma_poly_of(k as nat, e);
    }
    lemma_prod_permutation(f, n, g);
    lemma_prod_multiples(a, n, g);
    // a^n * P = P, and P is a unit
    let p = prod_all(n, g);
    let an = poly_pow_mod(a, n, g);
    lemma_pow_mod_reduced(a, n, g);
    lemma_one_mul_mod(p, g);
    lemma_mul_mod_commutative(an, p, g);
    lemma_mul_mod_commutative(one(), p, g);
    assert(one() != zero()) by {
        assert(one()[0] != zero()[0]);
    }
    lemma_unit_cancel(p, an, one(), g);
}

/// Squaring zero gives zero.
pub proof fn lemma_zero_pow2_mod(k: nat, g: Seq<bool>)
    requires
        is_canonical(g),
        g != zero(),
    ensures
        poly_pow2_mod(zero(), k, g) == zero(),
    decreases k,
{
    if k > 0 {
        lemma_zero_pow2_mod((k - 1) as nat, g);
        lemma_zero_mul_mod(zero(), g);
    }
}

/// Modulo an irreducible polynomial of degree `e`, squaring `e` times
/// gives back every remainder.
pub proof fn lemma_frobenius_fixed(a: Seq<bool>, g: Seq<bool>)
    requires
        is_irreducible_poly(g),
        is_reduced(a, g),
    ensures
        poly_pow2_mod(a, (g.len() - 1) as nat, g) == a,
{
    let e = (g.len() - 1) as nat;
    if a == zero() {
        lemma_zero_pow2_mod(e, g);
    } else {
        lemma_pow2_pos(e);
        let n = (pow2(e) - 1) as nat;
        lemma_pow2_mod_is_power(a, e, g);
        lemma_unit_power(a, g);
        assert(poly_pow_mod(a, pow2(e), g) == poly_mul_mod(poly_pow_mod(a, n, g), a, g));
        lemma_one_mul_mod(a, g);
    }
}

} // verus!
