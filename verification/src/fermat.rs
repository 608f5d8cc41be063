//! Fermat's little theorem, and what it gives for the Miller-Rabin test:
//! a prime is a strong probable prime to every base that it does not
//! divide.
use crate::numbers::{
    is_prime, lemma_euclid, lemma_odd_part, odd_part, passes_witness, strong_probable_prime,
    witness_at,
};
use vstd::arithmetic::div_mod::{
    lemma_mod_bound, lemma_mod_equivalence, lemma_mul_mod_noop_general, lemma_small_mod,
};
use vstd::arithmetic::power2::{lemma_pow2_pos, lemma_pow2_unfold, pow2};
use vstd::arithmetic::power::{lemma_pow0, lemma_pow_adds, pow};
use vstd::prelude::*;

verus! {

/// The product of the numbers from 1 up to `n`.
pub open spec fn factorial(n: nat) -> nat
    decreases n,
{
    if n == 0 {
        1
    } else {
        n * factorial((n - 1) as nat)
    }
}

/// The product of `f(1)`, ..., `f(n)`.
pub open spec fn product(f: spec_fn(int) -> int, n: nat) -> int
    decreases n,
{
    if n == 0 {
        1
    } else {
        product(f, (n - 1) as nat) * f(n as int)
    }
}

/// `f` maps the numbers from 1 up to `n` to numbers from 1 up to `m`.
pub open spec fn maps_into(f: spec_fn(int) -> int, n: nat, m: nat) -> bool {
    forall|k: int| 1 <= k <= n ==> 1 <= #[trigger] f(k) <= m
}

/// `f` takes no value twice on the numbers from 1 up to `n`.
pub open spec fn injective_on(f: spec_fn(int) -> int, n: nat) -> bool {
    forall|j: int, k: int|
        1 <= j <= n && 1 <= k <= n && #[trigger] f(j) == #[trigger] f(k) ==> j == k
}

/// The pigeonhole principle: `n + 1` numbers do not go into `n` places one
/// by one.
pub proof fn lemma_pigeonhole(f: spec_fn(int) -> int, n: nat)
    requires
        maps_into(f, n + 1, n),
    ensures
        !injective_on(f, n + 1),
    decreases n,
{
    if n == 0 {
        assert(1 <= f(1) <= 0);
    } else if injective_on(f, n + 1) {
        let v = f((n + 1) as int);
        let g = |k: int|
            if f(k) == n {
                v
            } else {
                f(k)
            };
        assert(1 <= v <= n);
        assert forall|k: int| 1 <= k <= n implies 1 <= #[trigger] g(k) <= n - 1 by {
            assert(1 <= f(k) <= n);
            if f(k) == n {
                assert(f(k) != f((n + 1) as int));
            }
        }
        assert forall|j: int, k: int|
            1 <= j <= n && 1 <= k <= n && #[trigger] g(j) == #[trigger] g(k) implies j == k by {
            assert(1 <= f(j) <= n && 1 <= f(k) <= n);
            if f(j) == n && f(k) != n {
                assert(f(k) == f((n + 1) as int));
            }
            if f(j) != n && f(k) == n {
                assert(f(j) == f((n + 1) as int));
            }
        }
        lemma_pigeonhole(g, (n - 1) as nat);
    }
}

/// Products of functions that agree are equal.
pub proof fn lemma_product_agree(f: spec_fn(int) -> int, g: spec_fn(int) -> int, n: nat)
    requires
        forall|k: int| 1 <= k <= n ==> #[trigger] f(k) == g(k),
    ensures
        product(f, n) == product(g, n),
    decreases n,
{
    if n > 0 {
        lemma_product_agree(f, g, (n - 1) as nat);
        assert(f(n as int) == g(n as int));
    }
}

/// Products of functions that agree but at `j`: each, times the value of
/// the other at `j`, gives the same.
pub proof fn lemma_product_replace(f: spec_fn(int) -> int, g: spec_fn(int) -> int, j: int, m: nat)
    requires
        1 <= j <= m,
        forall|k: int| 1 <= k <= m && k != j ==> #[trigger] f(k) == g(k),
    ensures
        product(f, m) * g(j) == product(g, m) * f(j),
    decreases m,
{
    let pf = product(f, (m - 1) as nat);
    let pg = product(g, (m - 1) as nat);
    if m == j {
        assert forall|k: int| 1 <= k <= m - 1 implies #[trigger] f(k) == g(k) by {}
        lemma_product_agree(f, g, (m - 1) as nat);
        assert((pf * f(j)) * g(j) == (pf * g(j)) * f(j)) by (nonlinear_arith);
    } else {
        lemma_product_replace(f, g, j, (m - 1) as nat);
        let fm = f(m as int);
        assert(fm == g(m as int));
        assert((pf * fm) * g(j) == (pg * fm) * f(j)) by (nonlinear_arith)
            requires
                pf * g(j) == pg * f(j),
        ;
    }
}

/// The product over a permutation of the numbers from 1 up to `n` is the
/// factorial of `n`.
pub proof fn lemma_permutation_product(f: spec_fn(int) -> int, n: nat)
    requires
        maps_into(f, n, n),
        injective_on(f, n),
    ensures
        product(f, n) == factorial(n),
    decreases n,
{
    if n > 0 {
        let m = (n - 1) as nat;
        if forall|k: int| 1 <= k <= n ==> #[trigger] f(k) != n {
            assert forall|k: int| 1 <= k <= m + 1 implies 1 <= #[trigger] f(k) <= m by {
                assert(1 <= f(k) <= n);
            }
            lemma_pigeonhole(f, m);
        }
        let j = choose|j: int| 1 <= j <= n && #[trigger] f(j) == n;
        let top = f(n as int);
        let g = |k: int|
            if k == j {
                top
            } else {
                f(k)
            };
        assert forall|k: int| 1 <= k <= m implies 1 <= #[trigger] g(k) <= m by {
            assert(1 <= f(k) <= n);
            assert(1 <= top <= n);
            if k == j {
                assert(f(n as int) != f(j));
            } else if f(k) == n {
                assert(f(k) == f(j));
            }
        }
        assert forall|a: int, b: int|
            1 <= a <= m && 1 <= b <= m && #[trigger] g(a) == #[trigger] g(b) implies a == b by {
            if a == j && b != j {
                assert(f(n as int) == f(b));
            }
            if a != j && b == j {
                assert(f(a) == f(n as int));
            }
        }
        lemma_permutation_product(g, m);
        if j == n {
            lemma_product_agree(f, g, m);
            assert(product(f, n) == product(f, m) * f(n as int));
            assert(product(g, m) * n == n * factorial(m)) by (nonlinear_arith)
                requires
                    product(g, m) == factorial(m),
            ;
        } else {
            lemma_product_replace(f, g, j, m);
            assert(g(j) == top);
            assert(product(f, n) == product(f, m) * top);
            assert(product(g, m) * n == n * factorial(m)) by (nonlinear_arith)
                requires
                    product(g, m) == factorial(m),
            ;
        }
    }
}

/// The product of the multiples `a * 1`, ..., `a * m`, each reduced by
/// `p`, is `a^m * m!` modulo `p`.
pub proof fn lemma_product_of_multiples(a: int, p: int, m: nat)
    requires
        p > 0,
    ensures
        product(|k: int| (a * k) % p, m) % p == (pow(a, m) * factorial(m)) % p,
    decreases m,
{
    let f = |k: int| (a * k) % p;
    if m == 0 {
        lemma_pow0(a);
        assert(pow(a, 0) * factorial(0) == 1) by (nonlinear_arith)
            requires
                pow(a, 0) == 1,
                factorial(0) == 1,
        ;
    } else {
        let n = (m - 1) as nat;
        lemma_product_of_multiples(a, p, n);
        let pf = product(f, n);
        let q = pow(a, n) * factorial(n);
        assert(product(f, m) == pf * ((a * m) % p));
        lemma_mul_mod_noop_general(pf, a * m, p);
        lemma_mul_mod_noop_general(q, a * m, p);
        assert(pow(a, m) == a * pow(a, n)) by {
            reveal(pow);
        }
        assert(q * (a * m) == pow(a, m) * factorial(m)) by (nonlinear_arith)
            requires
                q == pow(a, n) * factorial(n),
                pow(a, m) == a * pow(a, n),
                factorial(m) == m * factorial(n),
        ;
    }
}

/// A prime does not divide the factorial of a smaller number.
pub proof fn lemma_factorial_coprime(p: nat, m: nat)
    requires
        is_prime(p),
        m < p,
    ensures
        factorial(m) % p != 0,
    decreases m,
{
    if m == 0 {
        lemma_small_mod(1, p);
    } else {
        lemma_factorial_coprime(p, (m - 1) as nat);
        lemma_small_mod(m, p);
        if factorial(m) % p == 0 {
            lemma_euclid(p, m, factorial((m - 1) as nat));
        }
    }
}

/// Fermat's little theorem: for a prime `p` and a number `a` that it does
/// not divide, `a^(p-1)` is 1 modulo `p`.
pub proof fn lemma_fermat(a: nat, p: nat)
    requires
        is_prime(p),
        a % p != 0,
    ensures
        pow(a as int, (p - 1) as nat) % (p as int) == 1,
{
    let n = (p - 1) as nat;
    let pi = p as int;
    let f = |k: int| ((a as int) * k) % pi;
    assert forall|k: int| 1 <= k <= n implies 1 <= #[trigger] f(k) <= n by {
        lemma_mod_bound((a as int) * k, pi);
        if f(k) == 0 {
            lemma_small_mod(k as nat, p);
            assert(a * (k as nat) == (a as int) * k) by (nonlinear_arith)
                requires
                    k >= 0,
            ;
            lemma_euclid(p, a, k as nat);
        }
    }
    assert forall|j: int, k: int|
        1 <= j <= n && 1 <= k <= n && #[trigger] f(j) == #[trigger] f(k) implies j == k by {
        if j != k {
            let (lo, hi) = if j < k {
                (j, k)
            } else {
                (k, j)
            };
            lemma_mod_equivalence((a as int) * hi, (a as int) * lo, pi);
            assert((a as int) * hi - (a as int) * lo == a * ((hi - lo) as nat)) by (nonlinear_arith)
                requires
                    hi - lo >= 0,
            ;
            lemma_euclid(p, a, (hi - lo) as nat);
            lemma_small_mod((hi - lo) as nat, p);
        }
    }
    lemma_permutation_product(f, n);
    lemma_product_of_multiples(a as int, pi, n);
    lemma_factorial_coprime(p, n);
    let fact = factorial(n) as int;
    let e = pow(a as int, n) % pi;
    lemma_mod_bound(pow(a as int, n), pi);
    // fact = a^n * fact = e * fact modulo p
    lemma_mul_mod_noop_general(pow(a as int, n), fact, pi);
    assert((e * fact) % pi == fact % pi);
    if e == 0 {
        assert(e * fact == 0) by (nonlinear_arith)
            requires
                e == 0,
        ;
        lemma_small_mod(0, p);
    } else {
        lemma_mod_equivalence(e * fact, fact, pi);
        assert(e * fact - fact == ((e - 1) as nat) * (fact as nat)) by (nonlinear_arith)
            requires
                e >= 1,
                fact >= 0,
        ;
        lemma_euclid(p, (e - 1) as nat, fact as nat);
        lemma_small_mod((e - 1) as nat, p);
    }
}

/// A square root of 1 modulo a prime `p` is 1 or `p - 1`.
pub proof fn lemma_root_of_one(x: nat, p: nat)
    requires
        is_prime(p),
        x < p,
        (x * x) % p == 1,
    ensures
        x == 1 || x == p - 1,
{
    if x == 0 {
        assert(x * x == 0) by (nonlinear_arith)
            requires
                x == 0,
        ;
        lemma_small_mod(0, p);
    } else {
        lemma_small_mod(1, p);
        lemma_mod_equivalence((x * x) as int, 1, p as int);
        assert(x * x - 1 == ((x - 1) as nat) * (x + 1)) by (nonlinear_arith)
            requires
                x >= 1,
        ;
        lemma_euclid(p, (x - 1) as nat, x + 1);
        if ((x - 1) as nat) % p == 0 {
            lemma_small_mod((x - 1) as nat, p);
        } else {
            if x + 1 < p {
                lemma_small_mod(x + 1, p);
            }
        }
    }
}

/// Every positive number is its odd part times a power of 2.
pub proof fn lemma_odd_part_power(m: nat) -> (s: nat)
    requires
        m > 0,
    ensures
        m == odd_part(m) * pow2(s),
    decreases m,
{
    vstd::arithmetic::power2::lemma2_to64();
    if m % 2 == 0 {
        let t = lemma_odd_part_power(m / 2);
        lemma_pow2_unfold(t + 1);
        assert(m == odd_part(m) * pow2(t + 1)) by (nonlinear_arith)
            requires
                m == 2 * (m / 2),
                m / 2 == odd_part(m) * pow2(t),
                pow2(t + 1) == 2 * pow2(t),
        ;
        t + 1
    } else {
        assert(m == odd_part(m) * pow2(0)) by (nonlinear_arith)
            requires
                odd_part(m) == m,
                pow2(0) == 1,
        ;
        0
    }
}

/// Where `a^(d * 2^j)` is 1 modulo a prime `n`, with `d * 2^j` not above
/// `n - 1`, the base `a` passes the round of the Miller-Rabin test on `n`
/// for the exponent `d`.
pub proof fn lemma_power_chain(n: nat, d: nat, a: nat, j: nat)
    requires
        is_prime(n),
        d * pow2(j) <= n - 1,
        d >= 1,
        pow(a as int, d * pow2(j)) % (n as int) == 1,
    ensures
        passes_witness(n, d, a),
    decreases j,
{
    vstd::arithmetic::power2::lemma2_to64();
    if j == 0 {
        assert(d * pow2(0) == d) by (nonlinear_arith)
            requires
                pow2(0) == 1,
        ;
    } else {
        let i = (j - 1) as nat;
        lemma_pow2_unfold(j);
        lemma_pow2_pos(i);
        let e = d * pow2(i);
        assert(d * pow2(j) == e + e && e < d * pow2(j)) by (nonlinear_arith)
            requires
                pow2(j) == 2 * pow2(i),
                e == d * pow2(i),
                d >= 1,
                pow2(i) > 0,
        ;
        let big = pow(a as int, e);
        let x = big % (n as int);
        lemma_mod_bound(big, n as int);
        lemma_pow_adds(a as int, e, e);
        lemma_mul_mod_noop_general(big, big, n as int);
        assert((x as nat) * (x as nat) == x * x) by (nonlinear_arith)
            requires
                x >= 0,
        ;
        lemma_root_of_one(x as nat, n);
        if x == 1 {
            lemma_power_chain(n, d, a, i);
        } else {
            assert(witness_at(n, d, a, i));
        }
    }
}

/// A prime above 2 is a strong probable prime to every base that it does
/// not divide: the Miller-Rabin test never takes a prime for composite.
pub proof fn lemma_prime_is_strong_probable_prime(n: nat, a: nat)
    requires
        is_prime(n),
        n > 2,
        a % n != 0,
    ensures
        strong_probable_prime(n, a),
{
    let m = (n - 1) as nat;
    lemma_odd_part(m);
    let s = lemma_odd_part_power(m);
    lemma_fermat(a, n);
    lemma_power_chain(n, odd_part(m), a, s);
}

} // verus!
