//! Divisibility, primes and the greatest common divisor of natural numbers:
//! the number theory that the integer structures and the irreducibility
//! test are stated over.
use vstd::arithmetic::div_mod::{
    lemma_fundamental_div_mod, lemma_mod_multiples_basic, lemma_mod_multiples_vanish,
    lemma_small_mod,
};
use vstd::arithmetic::power2::pow2;
use vstd::arithmetic::power::{lemma_pow0, lemma_pow_adds, pow};
use vstd::prelude::*;

verus! {

/// `p` is a prime number.
pub open spec fn is_prime(p: nat) -> bool {
    p >= 2 && forall|d: nat| 2 <= d < p ==> #[trigger] (p % d) != 0
}

/// The greatest common divisor, by Euclid's algorithm: `gcd(a, 0) = a` and
/// `gcd(a, b) = gcd(b, a mod b)`.
pub open spec fn gcd(a: nat, b: nat) -> nat
    decreases b,
{
    if b == 0 {
        a
    } else {
        gcd(b, a % b)
    }
}

/// A number with remainder 0 is a multiple of the divisor.
pub proof fn lemma_multiple(n: int, d: int)
    requires
        d > 0,
        n % d == 0,
    ensures
        n == d * (n / d),
{
    lemma_fundamental_div_mod(n, d);
}

/// A multiple has remainder 0.
pub proof fn lemma_multiple_mod(d: int, k: int)
    requires
        d > 0,
    ensures
        (d * k) % d == 0,
{
    lemma_mod_multiples_basic(k, d);
    assert(d * k == k * d) by (nonlinear_arith);
}

/// A divisor of a positive number is not larger than it.
pub proof fn lemma_divisor_bound(n: int, d: int)
    requires
        d > 0,
        n > 0,
        n % d == 0,
    ensures
        d <= n,
        n / d >= 1,
{
    lemma_multiple(n, d);
    let k = n / d;
    assert(k >= 1 && d <= n) by (nonlinear_arith)
        requires
            n == d * k,
            n > 0,
            d > 0,
    ;
}

/// A divisor of a divisor is a divisor.
pub proof fn lemma_divides_transitive(a: int, b: int, c: int)
    requires
        a > 0,
        b > 0,
        b % a == 0,
        c % b == 0,
    ensures
        c % a == 0,
{
    lemma_multiple(b, a);
    lemma_multiple(c, b);
    let k1 = b / a;
    let k2 = c / b;
    assert(c == a * (k1 * k2)) by (nonlinear_arith)
        requires
            b == a * k1,
            c == b * k2,
    ;
    lemma_multiple_mod(a, k1 * k2);
}

/// A common divisor of two numbers divides every combination of them.
pub proof fn lemma_divides_combination(d: int, a: int, b: int, x: int, y: int)
    requires
        d > 0,
        a % d == 0,
        b % d == 0,
    ensures
        (a * x + b * y) % d == 0,
{
    lemma_multiple(a, d);
    lemma_multiple(b, d);
    let ka = a / d;
    let kb = b / d;
    assert(a * x + b * y == d * (ka * x + kb * y)) by (nonlinear_arith)
        requires
            a == d * ka,
            b == d * kb,
    ;
    lemma_multiple_mod(d, ka * x + kb * y);
}

/// The greatest common divisor divides both numbers, and is 0 only where
/// both are.
pub proof fn lemma_gcd_divides(a: nat, b: nat)
    ensures
        gcd(a, b) == 0 <==> (a == 0 && b == 0),
        gcd(a, b) > 0 ==> a % gcd(a, b) == 0 && b % gcd(a, b) == 0,
    decreases b,
{
    if b == 0 {
        if a > 0 {
            lemma_multiple_mod(a as int, 1);
            assert((a as int) * 1 == a);
            lemma_multiple_mod(a as int, 0);
            assert((a as int) * 0 == 0);
        }
    } else {
        lemma_gcd_divides(b, a % b);
        let g = gcd(a, b) as int;
        assert(g > 0);
        lemma_fundamental_div_mod(a as int, b as int);
        let q = (a as int) / (b as int);
        let r = (a as int) % (b as int);
        lemma_divides_combination(g, b as int, r, q, 1);
        assert(b * q + r * 1 == a) by (nonlinear_arith)
            requires
                a == b * q + r,
        ;
    }
}

/// Bezout's identity: the greatest common divisor is a combination of the
/// two numbers.
pub proof fn lemma_gcd_bezout(a: nat, b: nat) -> (xy: (int, int))
    ensures
        a * xy.0 + b * xy.1 == gcd(a, b),
    decreases b,
{
    if b == 0 {
        assert(a * 1 + b * 0 == a) by (nonlinear_arith)
            requires
                b == 0,
        ;
        (1, 0)
    } else {
        let (x1, y1) = lemma_gcd_bezout(b, a % b);
        lemma_fundamental_div_mod(a as int, b as int);
        let q = (a as int) / (b as int);
        let r = (a as int) % (b as int);
        let g = gcd(a, b) as int;
        assert(a * y1 + b * (x1 - q * y1) == g) by (nonlinear_arith)
            requires
                a == b * q + r,
                b * x1 + r * y1 == g,
        ;
        (y1, x1 - q * y1)
    }
}

/// Every common divisor divides the greatest common divisor.
pub proof fn lemma_gcd_greatest(d: nat, a: nat, b: nat)
    requires
        d > 0,
        a % d == 0,
        b % d == 0,
    ensures
        gcd(a, b) % d == 0,
{
    let (x, y) = lemma_gcd_bezout(a, b);
    lemma_divides_combination(d as int, a as int, b as int, x, y);
}

/// A divisor of a prime is 1 or the prime.
pub proof fn lemma_prime_divisor(p: nat, d: nat)
    requires
        is_prime(p),
        d > 0,
        p % d == 0,
    ensures
        d == 1 || d == p,
{
    lemma_divisor_bound(p as int, d as int);
    if 2 <= d < p {
        assert(p % d != 0);
    }
}

/// A prime and a number that it does not divide have no common divisor
/// but 1.
pub proof fn lemma_prime_coprime(a: nat, p: nat)
    requires
        is_prime(p),
        a % p != 0,
    ensures
        gcd(a, p) == 1,
        gcd(p, a) == 1,
{
    lemma_gcd_divides(a, p);
    lemma_prime_divisor(p, gcd(a, p));
    lemma_gcd_divides(p, a);
    lemma_prime_divisor(p, gcd(p, a));
}

/// Euclid's lemma: a prime that divides a product divides a factor.
pub proof fn lemma_euclid(p: nat, a: nat, b: nat)
    requires
        is_prime(p),
        (a * b) % p == 0,
    ensures
        a % p == 0 || b % p == 0,
{
    if a % p != 0 {
        lemma_prime_coprime(a, p);
        let (x, y) = lemma_gcd_bezout(a, p);
        lemma_multiple((a * b) as int, p as int);
        let k = ((a * b) as int) / (p as int);
        assert(b == p * (k * x + b * y)) by (nonlinear_arith)
            requires
                a * x + p * y == 1,
                a * b == p * k,
        ;
        lemma_multiple_mod(p as int, k * x + b * y);
    }
}

/// Where the greatest common divisor of `a` and `n` is 1, `a` times the
/// Bezout cofactor of `a`, reduced modulo `n`, is congruent to 1.
pub proof fn lemma_bezout_inverse(a: int, n: int, x: int, y: int)
    requires
        n > 0,
        a * x + n * y == 1,
    ensures
        (a * (x % n)) % n == 1int % n,
{
    vstd::arithmetic::div_mod::lemma_mul_mod_noop_general(a, x, n);
    assert(a * x == n * (-y) + 1) by (nonlinear_arith)
        requires
            a * x + n * y == 1,
    ;
    lemma_mod_multiples_vanish(-y, 1, n);
}

/// A number that has an inverse modulo `n` has no common divisor with `n`
/// but 1.
pub proof fn lemma_inverse_coprime(a: nat, n: nat, b: nat)
    requires
        n >= 2,
        (a * b) % n == 1,
    ensures
        gcd(a, n) == 1,
{
    lemma_gcd_divides(a, n);
    let g = gcd(a, n) as int;
    lemma_fundamental_div_mod((a * b) as int, n as int);
    let q = ((a * b) as int) / (n as int);
    // 1 = a * b - n * q, and g divides both a and n
    lemma_divides_combination(g, a as int, n as int, b as int, -q);
    assert(a * b + n * (-q) == 1) by (nonlinear_arith)
        requires
            a * b == n * q + 1,
    ;
    lemma_divisor_bound(1, g);
}

/// `p` is a prime that divides `n`.
pub open spec fn is_prime_divisor(p: nat, n: nat) -> bool {
    is_prime(p) && n % p == 0
}

/// `num` has no divisor from 2 up to, but not including, `bound`.
pub open spec fn no_divisor_below(num: nat, bound: nat) -> bool {
    forall|d: nat| 2 <= d < bound ==> #[trigger] (num % d) != 0
}

/// `p` stands in the list.
pub open spec fn listed(f: Seq<usize>, p: nat) -> bool {
    exists|i: int| 0 <= i < f.len() && #[trigger] f[i] as nat == p
}

/// The list holds the primes that divide `n`, each once, in rising order.
pub open spec fn is_prime_factor_list(f: Seq<usize>, n: nat) -> bool {
    &&& forall|i: int| 0 <= i < f.len() ==> #[trigger] is_prime_divisor(f[i] as nat, n)
    &&& forall|i: int, j: int| 0 <= i < j < f.len() ==> f[i] < f[j]
    &&& forall|p: nat| #[trigger] is_prime_divisor(p, n) ==> listed(f, p)
}

/// Dividing out a divisor: the quotient is a smaller divisor.
pub proof fn lemma_exact_division(num: nat, i: nat)
    requires
        i >= 2,
        num >= 1,
        num % i == 0,
    ensures
        1 <= num / i < num,
        num == i * (num / i),
        num % (num / i) == 0,
{
    lemma_divisor_bound(num as int, i as int);
    lemma_multiple(num as int, i as int);
    let k = (num as int) / (i as int);
    assert(k < num) by (nonlinear_arith)
        requires
            num == i * k,
            i >= 2,
            k >= 1,
    ;
    assert(num == k * i) by (nonlinear_arith)
        requires
            num == i * k,
    ;
    lemma_multiple_mod(k, i as int);
}

/// A prime that divides `num`, and is not the prime `i`, still divides
/// `num` after `i` was divided out.
pub proof fn lemma_prime_survives_division(p: nat, i: nat, num: nat)
    requires
        is_prime(p),
        is_prime(i),
        p != i,
        num >= 1,
        num % i == 0,
        num % p == 0,
    ensures
        (num / i) % p == 0,
{
    lemma_exact_division(num, i);
    lemma_euclid(p, i, num / i);
    if i % p == 0 {
        lemma_prime_divisor(i, p);
    }
}

/// A number without a divisor below `i`, where `i * i` exceeds it, is
/// prime.
pub proof fn lemma_no_small_divisor_prime(num: nat, i: nat)
    requires
        num >= 2,
        i >= 2,
        no_divisor_below(num, i),
        num / i < i,
    ensures
        is_prime(num),
        num >= i,
{
    if num < i {
        lemma_multiple_mod(num as int, 1);
        assert((num as int) * 1 == num);
        assert(num % num != 0);
    }
    assert forall|d: nat| 2 <= d < num implies #[trigger] (num % d) != 0 by {
        if num % d == 0 {
            if d < i {
                assert(num % d != 0);
            }
            lemma_exact_division(num, d);
            let k = num / d;
            if k < 2 {
                assert(num == d * k && k == 1 ==> num == d) by (nonlinear_arith);
            }
            if k < i {
                assert(num % k != 0);
            }
            lemma_fundamental_div_mod(num as int, i as int);
            let q = (num as int) / (i as int);
            let r = (num as int) % (i as int);
            assert(false) by (nonlinear_arith)
                requires
                    num == d * k,
                    d >= i,
                    k >= i,
                    num == i * q + r,
                    0 <= r < i,
                    q < i,
                    i >= 2,
            ;
        }
    }
}

/// The odd part of a number: what is left when every factor 2 is divided
/// out.
pub open spec fn odd_part(m: nat) -> nat
    decreases m,
{
    if m > 0 && m % 2 == 0 {
        odd_part(m / 2)
    } else {
        m
    }
}

/// The base `a`, raised to `d * 2^j`, is `n - 1` modulo `n`, where `j` is 0
/// or `d * 2^j` is below `n - 1`.
pub open spec fn witness_at(n: nat, d: nat, a: nat, j: nat) -> bool {
    (j == 0 || d * pow2(j) < n - 1) && pow(a as int, d * pow2(j)) % (n as int) == n - 1
}

/// The base `a` does not show `n` to be composite, for the exponent `d`:
/// `a^d` is 1 modulo `n`, or one of `a^d`, `a^(2d)`, `a^(4d)`, ..., with
/// exponents below `n - 1`, is `n - 1` modulo `n`.
pub open spec fn passes_witness(n: nat, d: nat, a: nat) -> bool {
    pow(a as int, d) % (n as int) == 1 || exists|j: nat| witness_at(n, d, a, j)
}

/// `n` is a strong probable prime to the base `a`: with `n - 1 = 2^s * d`
/// and `d` odd, `a^d` is 1 modulo `n`, or `a^(2^r * d)` is `n - 1` modulo
/// `n` for some `r` below `s`.
pub open spec fn strong_probable_prime(n: nat, a: nat) -> bool {
    passes_witness(n, odd_part((n - 1) as nat), a)
}

/// `n` is a strong probable prime to each of the bases.
pub open spec fn passes_all_bases(n: nat, bases: Seq<nat>) -> bool {
    forall|i: int| 0 <= i < bases.len() ==> strong_probable_prime(n, #[trigger] bases[i])
}

/// There are `k` bases, each from 2 up to `n - 2`.
pub open spec fn bases_in_range(n: nat, bases: Seq<nat>, k: nat) -> bool {
    bases.len() == k && forall|i: int| 0 <= i < bases.len() ==> 2 <= #[trigger] bases[i] <= n - 2
}

/// Exponent law modulo `n`: `a^(e1 + e2) = a^e1 * a^e2`, each power and the
/// product reduced by `n`.
pub proof fn lemma_mod_pow_adds(a: int, e1: nat, e2: nat, n: int)
    requires
        n > 0,
    ensures
        pow(a, e1 + e2) % n == ((pow(a, e1) % n) * (pow(a, e2) % n)) % n,
{
    lemma_pow_adds(a, e1, e2);
    vstd::arithmetic::div_mod::lemma_mul_mod_noop(pow(a, e1), pow(a, e2), n);
}

/// Exponent law modulo `n`: `a^0` is 1, reduced by `n`.
pub proof fn lemma_mod_pow_zero(a: int, n: int)
    requires
        n > 0,
    ensures
        pow(a, 0) % n == 1int % n,
{
    lemma_pow0(a);
}

/// Squaring a power that is reduced by `n` doubles the exponent.
pub proof fn lemma_mod_pow_square(a: int, e: nat, n: int)
    requires
        n > 0,
    ensures
        pow(pow(a, e) % n, 2) % n == pow(a, 2 * e) % n,
{
    let x = pow(a, e);
    vstd::arithmetic::power::lemma_square_is_pow2(x % n);
    vstd::arithmetic::div_mod::lemma_mul_mod_noop(x, x, n);
    lemma_pow_adds(a, e, e);
    assert(e + e == 2 * e);
}

/// `gcd(0, n) = n`.
pub proof fn lemma_gcd_zero_left(n: nat)
    ensures
        gcd(0, n) == n,
{
    if n > 0 {
        lemma_small_mod(0, n);
        assert(gcd(n, 0) == n);
    }
}

/// One step of square-and-multiply keeps the product `acc * base^e`
/// modulo `m`: the base is squared, the exponent halved, and for an odd
/// exponent the accumulator takes up one factor.
pub proof fn lemma_square_multiply_step(acc: int, base: int, e: nat, m: int)
    requires
        m > 0,
        e > 0,
    ensures
        ((if e % 2 == 1 {
            (acc * base) % m
        } else {
            acc
        }) * pow((base * base) % m, e / 2)) % m == (acc * pow(base, e)) % m,
{
    let h = e / 2;
    let sq = (base * base) % m;
    vstd::arithmetic::power::lemma_pow_mod_noop(base * base, h, m);
    vstd::arithmetic::power::lemma_square_is_pow2(base);
    vstd::arithmetic::power::lemma_pow_multiplies(base, 2, h);
    assert(pow(sq, h) % m == pow(base, 2 * h) % m);
    let doubled = pow(base, 2 * h);
    if e % 2 == 1 {
        assert(e == 2 * h + 1);
        vstd::arithmetic::power::lemma_pow_adds(base, 1, 2 * h);
        vstd::arithmetic::power::lemma_pow1(base);
        assert(pow(base, e) == base * doubled);
        vstd::arithmetic::div_mod::lemma_mul_mod_noop_general(acc * base, pow(sq, h), m);
        vstd::arithmetic::div_mod::lemma_mul_mod_noop_general(acc * base, doubled, m);
        assert((acc * base) * doubled == acc * (base * doubled)) by (nonlinear_arith);
    } else {
        assert(e == 2 * h);
        vstd::arithmetic::div_mod::lemma_mul_mod_noop_general(acc, pow(sq, h), m);
        vstd::arithmetic::div_mod::lemma_mul_mod_noop_general(acc, doubled, m);
    }
}

/// The remainder of a negative number, from that of its positive
/// counterpart.
pub proof fn lemma_mod_of_negative(x: int, m: int)
    requires
        x < 0,
        m > 0,
    ensures
        x % m == if (-x) % m == 0 {
            0
        } else {
            m - (-x) % m
        },
{
    lemma_fundamental_div_mod(-x, m);
    vstd::arithmetic::div_mod::lemma_mod_bound(-x, m);
    let q = (-x) / m;
    let s = (-x) % m;
    if s == 0 {
        assert(x == (-q) * m + 0) by (nonlinear_arith)
            requires
                -x == m * q + s,
                s == 0,
        ;
        vstd::arithmetic::div_mod::lemma_fundamental_div_mod_converse(x, m, -q, 0);
    } else {
        assert(x == (-q - 1) * m + (m - s)) by (nonlinear_arith)
            requires
                -x == m * q + s,
        ;
        vstd::arithmetic::div_mod::lemma_fundamental_div_mod_converse(x, m, -q - 1, m - s);
    }
}

/// Two positive numbers that divide each other are equal.
pub proof fn lemma_mutual_divisors(x: nat, y: nat)
    requires
        x > 0,
        y > 0,
        x % y == 0,
        y % x == 0,
    ensures
        x == y,
{
    lemma_divisor_bound(x as int, y as int);
    lemma_divisor_bound(y as int, x as int);
}

/// The greatest common divisor does not depend on the order of the two.
pub proof fn lemma_gcd_symmetric(a: nat, b: nat)
    ensures
        gcd(a, b) == gcd(b, a),
{
    lemma_gcd_divides(a, b);
    lemma_gcd_divides(b, a);
    if a != 0 || b != 0 {
        lemma_gcd_greatest(gcd(a, b), b, a);
        lemma_gcd_greatest(gcd(b, a), a, b);
        lemma_mutual_divisors(gcd(a, b), gcd(b, a));
    }
}

/// Taking the smaller from the larger keeps the greatest common divisor.
pub proof fn lemma_gcd_subtract(a: nat, b: nat)
    requires
        a <= b,
    ensures
        gcd(a, (b - a) as nat) == gcd(a, b),
{
    let c = (b - a) as nat;
    lemma_gcd_divides(a, b);
    lemma_gcd_divides(a, c);
    if a != 0 || b != 0 {
        let g1 = gcd(a, b);
        let g2 = gcd(a, c);
        lemma_divides_combination(g1 as int, a as int, b as int, -1, 1);
        assert(a * (-1) + b * 1 == c) by (nonlinear_arith)
            requires
                c == b - a,
        ;
        lemma_gcd_greatest(g1, a, c);
        lemma_divides_combination(g2 as int, a as int, c as int, 1, 1);
        assert(a * 1 + c * 1 == b) by (nonlinear_arith)
            requires
                c == b - a,
        ;
        lemma_gcd_greatest(g2, a, b);
        lemma_mutual_divisors(g1, g2);
    }
}

/// A number that divides a product and has no common divisor with one
/// factor divides the other.
pub proof fn lemma_gauss(g: nat, c: nat, b: nat)
    requires
        g > 0,
        gcd(g, c) == 1,
        (c * b) % g == 0,
    ensures
        b % g == 0,
{
    let (x, y) = lemma_gcd_bezout(g, c);
    lemma_multiple((c * b) as int, g as int);
    let k = ((c * b) as int) / (g as int);
    assert(b == g * (b * x + k * y)) by (nonlinear_arith)
        requires
            g * x + c * y == 1,
            c * b == g * k,
    ;
    lemma_multiple_mod(g as int, b * x + k * y);
}

/// Halving an even number beside an odd one keeps the greatest common
/// divisor.
pub proof fn lemma_gcd_halve(a: nat, b: nat)
    requires
        a % 2 == 1,
        b % 2 == 0,
    ensures
        gcd(a, b / 2) == gcd(a, b),
        gcd(b / 2, a) == gcd(b, a),
{
    let h = b / 2;
    lemma_gcd_symmetric(a, h);
    lemma_gcd_symmetric(a, b);
    if b == 0 {
        return ;
    }
    lemma_gcd_divides(a, b);
    lemma_gcd_divides(a, h);
    let g1 = gcd(a, h);
    let g2 = gcd(a, b);
    assert(b == h * 2);
    // g1 divides h, and so b
    lemma_multiple_mod(h as int, 2);
    lemma_divides_transitive(g1 as int, h as int, b as int);
    lemma_gcd_greatest(g1, a, b);
    // g2 is odd, so it divides h
    assert(is_prime(2)) by {
        assert forall|d: nat| 2 <= d < 2 implies #[trigger] (2nat % d) != 0 by {}
    }
    if g2 % 2 == 0 {
        lemma_divides_transitive(2, g2 as int, a as int);
    }
    lemma_prime_coprime(g2, 2);
    assert(2 * h == b);
    lemma_gauss(g2, 2, h);
    lemma_gcd_greatest(g2, a, h);
    lemma_mutual_divisors(g1, g2);
}

/// Doubling both numbers doubles the greatest common divisor.
pub proof fn lemma_gcd_double(a: nat, b: nat)
    ensures
        gcd(2 * a, 2 * b) == 2 * gcd(a, b),
{
    lemma_gcd_divides(a, b);
    lemma_gcd_divides(2 * a, 2 * b);
    if a != 0 || b != 0 {
        let g = gcd(a, b);
        let gg = gcd(2 * a, 2 * b);
        // 2g divides 2a and 2b
        lemma_multiple(a as int, g as int);
        lemma_multiple(b as int, g as int);
        let ka = (a as int) / (g as int);
        let kb = (b as int) / (g as int);
        assert(2 * a == (2 * g) * ka && 2 * b == (2 * g) * kb) by (nonlinear_arith)
            requires
                a == g * ka,
                b == g * kb,
        ;
        lemma_multiple_mod((2 * g) as int, ka);
        lemma_multiple_mod((2 * g) as int, kb);
        lemma_gcd_greatest(2 * g, 2 * a, 2 * b);
        // 2g = 2a x + 2b y is a multiple of gg
        let (x, y) = lemma_gcd_bezout(a, b);
        lemma_divides_combination(gg as int, (2 * a) as int, (2 * b) as int, x, y);
        assert((2 * a) * x + (2 * b) * y == 2 * g) by (nonlinear_arith)
            requires
                a * x + b * y == g,
        ;
        lemma_mutual_divisors(2 * g, gg);
    }
}

/// The odd part of a positive number is positive, odd and not larger; that
/// of an even number is at most its half.
pub proof fn lemma_odd_part(m: nat)
    ensures
        odd_part(m) <= m,
        m > 0 ==> odd_part(m) >= 1 && odd_part(m) % 2 == 1,
        m % 2 == 0 ==> odd_part(m) <= m / 2,
        m % 2 == 1 ==> odd_part(m) == m,
    decreases m,
{
    if m > 0 && m % 2 == 0 {
        lemma_odd_part(m / 2);
    }
}

/// Every number from 2 on has a prime divisor.
pub proof fn lemma_prime_divisor_exists(c: nat) -> (p: nat)
    requires
        c >= 2,
    ensures
        is_prime(p),
        c % p == 0,
    decreases c,
{
    if is_prime(c) {
        lemma_multiple_mod(c as int, 1);
        assert((c as int) * 1 == c);
        c
    } else {
        let d = choose|d: nat| 2 <= d < c && #[trigger] (c % d) == 0;
        let p = lemma_prime_divisor_exists(d);
        lemma_divides_transitive(p as int, d as int, c as int);
        p
    }
}

/// Halving a combination: where `r = x * p - y * q` is even and one of `p`
/// and `q` is odd, either both cofactors are even and may be halved, or
/// `x + q` and `y + p` are even and their halves are cofactors of `r / 2`.
pub proof fn lemma_halve_combination(r: int, x: int, y: int, p: int, q: int)
    requires
        r == x * p - y * q,
        r % 2 == 0,
        p % 2 == 1 || q % 2 == 1,
    ensures
        x % 2 == 0 && y % 2 == 0 ==> r / 2 == (x / 2) * p - (y / 2) * q,
        !(x % 2 == 0 && y % 2 == 0) ==> (x + q) % 2 == 0 && (y + p) % 2 == 0 && r / 2 == ((x + q)
            / 2) * p - ((y + p) / 2) * q,
{
    let ex = x % 2;
    let ey = y % 2;
    let ep = p % 2;
    let eq = q % 2;
    let x2 = x / 2;
    let y2 = y / 2;
    // the products have the parity of the products of the parities
    vstd::arithmetic::div_mod::lemma_mul_mod_noop(x, p, 2);
    vstd::arithmetic::div_mod::lemma_mul_mod_noop(y, q, 2);
    vstd::arithmetic::div_mod::lemma_mod_equivalence(x * p, y * q, 2);
    assert((ex == 0 ==> ex * ep == 0) && (ex == 1 ==> ex * ep == ep) && (ey == 0 ==> ey * eq == 0)
        && (ey == 1 ==> ey * eq == eq)) by (nonlinear_arith);
    if ex == 0 && ey == 0 {
        assert(r / 2 == x2 * p - y2 * q) by (nonlinear_arith)
            requires
                r == x * p - y * q,
                x == 2 * x2,
                y == 2 * y2,
        ;
    } else {
        assert(ex == eq && ey == ep);
        let h1 = (x + q) / 2;
        let h2 = (y + p) / 2;
        assert(r == 2 * (h1 * p - h2 * q)) by (nonlinear_arith)
            requires
                r == x * p - y * q,
                2 * h1 == x + q,
                2 * h2 == y + p,
        ;
    }
}

/// Bringing cofactors back into range: where `s = u * p - v * q` is not
/// negative and below `p + q`, with `u` between `-q` and `q` and `v`
/// between `-p` and `p`, either both cofactors are not negative, or
/// `u + q` and `v + p` are cofactors of `s` between 0 and `q`, and 0 and
/// `p`.
pub proof fn lemma_cofactors_in_range(s: int, u: int, v: int, p: int, q: int)
    requires
        s == u * p - v * q,
        0 <= s < p + q,
        p >= 1,
        q >= 1,
        -q <= u <= q,
        -p <= v <= p,
    ensures
        u < 0 || v < 0 ==> 0 <= u + q <= q && 0 <= v + p <= p && s == (u + q) * p - (v + p) * q,
{
    if u < 0 || v < 0 {
        assert(s == (u + q) * p - (v + p) * q) by (nonlinear_arith)
            requires
                s == u * p - v * q,
        ;
        if u < 0 && v > 0 {
            assert(u * p - v * q < 0) by (nonlinear_arith)
                requires
                    u <= -1,
                    v >= 1,
                    p >= 1,
                    q >= 1,
            ;
        }
        if u >= 1 && v < 0 {
            assert(u * p - v * q >= p + q) by (nonlinear_arith)
                requires
                    u >= 1,
                    v <= -1,
                    p >= 1,
                    q >= 1,
            ;
        }
    }
}

} // verus!
