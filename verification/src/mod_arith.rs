//! Modular arithmetic on machine integers.
use crate::numbers::{
    gcd, lemma_bezout_inverse, lemma_cofactors_in_range, lemma_divisor_bound, lemma_gcd_divides,
    lemma_gcd_double, lemma_gcd_halve, lemma_gcd_subtract, lemma_gcd_symmetric,
    lemma_halve_combination, lemma_mod_of_negative, lemma_square_multiply_step,
};
use vstd::arithmetic::div_mod::{lemma_mod_bound, lemma_small_mod};
use vstd::arithmetic::power::{lemma_pow0, lemma_pow_mod_noop, pow};
use vstd::prelude::*;

verus! {

/// `base` to the power `exponent`, modulo `modulus`, by square-and-multiply;
/// an exponent that is not positive gives 1, reduced by the modulus. The
/// modulus must be positive, and small enough for the product of two
/// remainders to fit the machine integer.
pub fn modular_exponentiation(base: &i128, exponent: &i128, modulus: &i128) -> (r: i128)
    requires
        *modulus > 0,
        (*modulus - 1) * (*modulus - 1) <= i128::MAX,
    ensures
        r == (if *exponent <= 0 {
            1
        } else {
            pow(*base as int, *exponent as nat)
        }) % (*modulus as int),
{
    if *modulus == 1 {
        return 0;
    }
    let m: i128 = *modulus;
    let mut result: i128 = 1;
    let mut base_mod: i128 = *base % m;
    proof {
        if *base < 0 {
            lemma_mod_of_negative(*base as int, m as int);
        }
    }
    if base_mod < 0 {
        base_mod += m;
    }
    let mut exp: i128 = *exponent;
    proof {
        lemma_small_mod(1, m as nat);
        lemma_mod_bound(*base as int, m as int);
        assert(base_mod == (*base as int) % (m as int));
        if exp > 0 {
            lemma_pow_mod_noop(*base as int, exp as nat, m as int);
            assert(1 * pow(base_mod as int, exp as nat) == pow(base_mod as int, exp as nat));
        }
    }
    let ghost target: int = (if *exponent <= 0 {
        1
    } else {
        pow(*base as int, *exponent as nat)
    }) % (m as int);
    while exp > 0
        invariant
            m == *modulus,
            m > 1,
            (m - 1) * (m - 1) <= i128::MAX,
            0 <= result < m,
            0 <= base_mod < m,
            exp > 0 ==> (result * pow(base_mod as int, exp as nat)) % (m as int) == target,
            exp <= 0 ==> result == target,
        decreases exp,
    {
        proof {
            lemma_square_multiply_step(result as int, base_mod as int, exp as nat, m as int);
            assert(0 <= result * base_mod <= (m - 1) * (m - 1)) by (nonlinear_arith)
                requires
                    0 <= result < m,
                    0 <= base_mod < m,
            ;
            assert(0 <= base_mod * base_mod <= (m - 1) * (m - 1)) by (nonlinear_arith)
                requires
                    0 <= base_mod < m,
            ;
            lemma_mod_bound(result * base_mod, m as int);
            lemma_mod_bound(base_mod * base_mod, m as int);
        }
        let ghost old_result = result;
        let ghost old_base = base_mod;
        let ghost old_exp = exp;
        if exp % 2 == 1 {
            result = (result * base_mod) % m;
            if result < 0 {
                result += m;
            }
        }
        base_mod = (base_mod * base_mod) % m;
        if base_mod < 0 {
            base_mod += m;
        }
        exp = exp / 2;
        proof {
            if exp == 0 {
                lemma_pow0(base_mod as int);
                lemma_small_mod(result as nat, m as nat);
                assert(old_exp == 1);
            }
        }
    }
    result
}


/// The greatest common divisor of two numbers that are not negative, by
/// the binary algorithm: common factors 2 are set aside, and the odd parts
/// are reduced by subtraction.
pub fn binary_gcd(a: i128, b: i128) -> (g: i128)
    requires
        a >= 0,
        b >= 0,
    ensures
        g == gcd(a as nat, b as nat),
{
    proof {
        crate::numbers::lemma_gcd_zero_left(b as nat);
    }
    if a == 0 {
        return b;
    }
    if b == 0 {
        return a;
    }
    let ghost target = gcd(a as nat, b as nat);
    proof {
        lemma_gcd_divides(a as nat, b as nat);
        lemma_divisor_bound(a as int, target as int);
    }
    let mut x: i128 = a;
    let mut y: i128 = b;
    let mut scale: i128 = 1;
    assert(scale * gcd(x as nat, y as nat) == target) by (nonlinear_arith)
        requires
            scale == 1,
            gcd(x as nat, y as nat) == target,
    ;
    while x % 2 == 0 && y % 2 == 0
        invariant
            x > 0,
            y > 0,
            scale >= 1,
            scale * x <= a,
            a <= i128::MAX,
            scale * gcd(x as nat, y as nat) == target,
        decreases x,
    {
        proof {
            let hx = (x / 2) as nat;
            let hy = (y / 2) as nat;
            lemma_gcd_double(hx, hy);
            assert(2 * hx == x && 2 * hy == y);
            assert((scale * 2) * (x / 2) == scale * x && (scale * 2) * gcd(hx, hy) == scale * gcd(
                x as nat,
                y as nat,
            )) by (nonlinear_arith)
                requires
                    2 * (x / 2) == x,
                    gcd(x as nat, y as nat) == 2 * gcd(hx, hy),
            ;
            assert(scale * 2 <= a) by (nonlinear_arith)
                requires
                    (scale * 2) * (x / 2) <= a,
                    x / 2 >= 1,
                    scale >= 1,
            ;
        }
        x = x / 2;
        y = y / 2;
        scale = scale * 2;
    }
    while x % 2 == 0
        invariant
            x > 0,
            y > 0,
            x % 2 == 0 ==> y % 2 == 1,
            scale >= 1,
            scale * gcd(x as nat, y as nat) == target,
        decreases x,
    {
        proof {
            lemma_gcd_halve(y as nat, x as nat);
        }
        x = x / 2;
    }
    while y != 0
        invariant
            x > 0,
            x % 2 == 1,
            y >= 0,
            scale >= 1,
            target <= i128::MAX,
            scale * gcd(x as nat, y as nat) == target,
        decreases x + y,
    {
        let ghost y_before = y;
        while y % 2 == 0
            invariant
                x > 0,
                x % 2 == 1,
                0 < y <= y_before,
                scale >= 1,
                scale * gcd(x as nat, y as nat) == target,
            decreases y,
        {
            proof {
                lemma_gcd_halve(x as nat, y as nat);
            }
            y = y / 2;
        }
        if x > y {
            proof {
                lemma_gcd_symmetric(x as nat, y as nat);
            }
            let t = x;
            x = y;
            y = t;
        }
        proof {
            lemma_gcd_subtract(x as nat, y as nat);
        }
        y = y - x;
    }
    proof {
        assert(gcd(x as nat, 0) == x);
        assert(x * scale == target) by (nonlinear_arith)
            requires
                scale * x == target,
        ;
    }
    x * scale
}


/// Halves the even number `r = x * p - y * q`, and its cofactors with it:
/// both are halved where both are even, and else `x + q` and `y + p` are.
fn halve_with_cofactors(r: i128, x: i128, y: i128, p: i128, q: i128) -> (h: (i128, i128, i128))
    requires
        r >= 0,
        r % 2 == 0,
        r == x * p - y * q,
        p >= 1,
        q >= 1,
        p % 2 == 1 || q % 2 == 1,
        0 <= x <= q,
        0 <= y <= p,
    ensures
        h.0 == r / 2,
        h.0 == h.1 * p - h.2 * q,
        0 <= h.1 <= q,
        0 <= h.2 <= p,
{
    proof {
        lemma_halve_combination(r as int, x as int, y as int, p as int, q as int);
    }
    if x % 2 == 0 && y % 2 == 0 {
        (r / 2, x / 2, y / 2)
    } else {
        // the halves of `x + q` and of `y + p`, which are even, without the sums
        (r / 2, x / 2 + q / 2 + x % 2, y / 2 + p / 2 + y % 2)
    }
}

/// The extended binary algorithm on two numbers that are not negative:
/// their greatest common divisor `g`, and cofactors `x` and `y` with
/// `a * x + b * y = g`. Common factors 2 are set aside; then the two
/// numbers are halved and taken from each other, and their cofactors with
/// them. The cofactor of `a` is kept from 0 up to `b`, that of `b` from
/// `-a` up to 0.
pub fn extended_binary_gcd(a: i128, b: i128) -> (gxy: (i128, i128, i128))
    requires
        a >= 0,
        b >= 0,
    ensures
        gxy.0 == gcd(a as nat, b as nat),
        a * gxy.1 + b * gxy.2 == gxy.0,
        a == 0 ==> gxy.1 == 0 && gxy.2 == 1,
        a > 0 && b == 0 ==> gxy.1 == 1 && gxy.2 == 0,
        a > 0 && b > 0 ==> 0 <= gxy.1 <= b && -a <= gxy.2 <= 0,
{
    proof {
        crate::numbers::lemma_gcd_zero_left(b as nat);
    }
    if a == 0 {
        assert(a * 0 + b * 1 == b) by (nonlinear_arith);
        return (b, 0, 1);
    }
    if b == 0 {
        assert(a * 1 + b * 0 == a) by (nonlinear_arith);
        return (a, 1, 0);
    }
    let ghost target = gcd(a as nat, b as nat);
    proof {
        lemma_gcd_divides(a as nat, b as nat);
        lemma_divisor_bound(a as int, target as int);
    }
    let mut p: i128 = a;
    let mut q: i128 = b;
    let mut scale: i128 = 1;
    assert(scale * gcd(p as nat, q as nat) == target && scale * p == a && scale * q == b)
        by (nonlinear_arith)
        requires
            scale == 1,
            gcd(p as nat, q as nat) == target,
            p == a,
            q == b,
    ;
    while p % 2 == 0 && q % 2 == 0
        invariant
            p > 0,
            q > 0,
            scale >= 1,
            scale * p == a,
            scale * q == b,
            scale * gcd(p as nat, q as nat) == target,
        decreases p,
    {
        proof {
            let hp = (p / 2) as nat;
            let hq = (q / 2) as nat;
            lemma_gcd_double(hp, hq);
            assert(2 * hp == p && 2 * hq == q);
            assert((scale * 2) * (p / 2) == scale * p && (scale * 2) * (q / 2) == scale * q && (
            scale * 2) * gcd(hp, hq) == scale * gcd(p as nat, q as nat)) by (nonlinear_arith)
                requires
                    2 * (p / 2) == p,
                    2 * (q / 2) == q,
                    gcd(p as nat, q as nat) == 2 * gcd(hp, hq),
            ;
            assert(scale * 2 <= a) by (nonlinear_arith)
                requires
                    (scale * 2) * (p / 2) == a,
                    p / 2 >= 1,
                    scale >= 1,
            ;
        }
        p = p / 2;
        q = q / 2;
        scale = scale * 2;
    }
    // from here on `r = x * p - y * q` and `s = u * p - v * q`
    let mut r: i128 = p;
    let mut x: i128 = 1;
    let mut y: i128 = 0;
    let mut s: i128 = q;
    let mut u: i128 = q;
    let mut v: i128 = p - 1;
    assert(r == x * p - y * q && s == u * p - v * q) by (nonlinear_arith)
        requires
            r == p,
            x == 1,
            y == 0,
            s == q,
            u == q,
            v == p - 1,
    ;
    while r % 2 == 0
        invariant
            p >= 1,
            q >= 1,
            p % 2 == 1 || q % 2 == 1,
            p % 2 == 1 ==> r == p,
            s == q,
            0 < r <= p,
            r == x * p - y * q,
            0 <= x <= q,
            0 <= y <= p,
            scale * gcd(r as nat, s as nat) == target,
        decreases r,
    {
        proof {
            lemma_gcd_halve(s as nat, r as nat);
        }
        let h = halve_with_cofactors(r, x, y, p, q);
        r = h.0;
        x = h.1;
        y = h.2;
    }
    while s != 0
        invariant
            p >= 1,
            q >= 1,
            p % 2 == 1 || q % 2 == 1,
            scale >= 1,
            target <= i128::MAX,
            r > 0,
            r % 2 == 1,
            s >= 0,
            r < p + q,
            s < p + q,
            r == x * p - y * q,
            s == u * p - v * q,
            0 <= x <= q,
            0 <= y <= p,
            0 <= u <= q,
            0 <= v <= p,
            scale * gcd(r as nat, s as nat) == target,
        decreases r + s,
    {
        let ghost s_before = s;
        while s % 2 == 0
            invariant
                p >= 1,
                q >= 1,
                p % 2 == 1 || q % 2 == 1,
                r > 0,
                r % 2 == 1,
                0 < s <= s_before,
                s == u * p - v * q,
                0 <= u <= q,
                0 <= v <= p,
                scale * gcd(r as nat, s as nat) == target,
            decreases s,
        {
            proof {
                lemma_gcd_halve(r as nat, s as nat);
            }
            let h = halve_with_cofactors(s, u, v, p, q);
            s = h.0;
            u = h.1;
            v = h.2;
        }
        if r > s {
            proof {
                lemma_gcd_symmetric(r as nat, s as nat);
            }
            let t = r;
            r = s;
            s = t;
            let t = x;
            x = u;
            u = t;
            let t = y;
            y = v;
            v = t;
        }
        proof {
            lemma_gcd_subtract(r as nat, s as nat);
            assert(s - r == (u - x) * p - (v - y) * q) by (nonlinear_arith)
                requires
                    r == x * p - y * q,
                    s == u * p - v * q,
            ;
            lemma_cofactors_in_range((s - r) as int, (u - x) as int, (v - y) as int, p as int, q as int);
        }
        s = s - r;
        u = u - x;
        v = v - y;
        if u < 0 || v < 0 {
            u = u + q;
            v = v + p;
        }
    }
    proof {
        assert(gcd(r as nat, 0) == r);
        assert(r * scale == target && a * x + b * (-y) == target && x <= b && y <= a)
            by (nonlinear_arith)
            requires
                scale * r == target,
                r == x * p - y * q,
                scale * p == a,
                scale * q == b,
                scale >= 1,
                0 <= x <= q,
                0 <= y <= p,
        ;
    }
    (r * scale, x, -y)
}

/// The inverse of `a` modulo `m`, from the cofactor of `a` in the extended
/// binary algorithm: the number `x` below `m` with `a * x = 1` modulo `m`,
/// where `a` and `m` have no common divisor but 1, and nothing where they
/// have one.
pub fn modular_inverse(a: i128, m: i128) -> (inv: Option<i128>)
    requires
        a >= 0,
        m > 0,
    ensures
        inv is Some <==> gcd(a as nat, m as nat) == 1,
        inv matches Some(x) ==> 0 <= x < m && (a * x) % (m as int) == 1int % (m as int),
{
    let (g, x, y) = extended_binary_gcd(a, m);
    if g != 1 {
        return None;
    }
    proof {
        lemma_mod_bound(x as int, m as int);
        lemma_bezout_inverse(a as int, m as int, x as int, y as int);
    }
    Some(x % m)
}

} // verus!
