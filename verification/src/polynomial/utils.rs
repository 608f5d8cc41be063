use crate::bits::{bits_of, BitSeq, max_bits};
use crate::numbers::{
    is_prime, is_prime_divisor, is_prime_factor_list, lemma_divides_transitive,
    lemma_exact_division, lemma_no_small_divisor_prime, lemma_prime_divisor,
    lemma_prime_survives_division, listed, no_divisor_below,
};
use crate::polynomial::{Polynomial, trim_bits};
use crate::polynomial::model::{is_canonical, one, poly_pow2_mod, poly_shift, x, zero, zeros};
use vstd::prelude::*;

verus! {

impl Polynomial {
    /// The degree: one less than the number of coefficient bits.
    pub fn degree(&self) -> (d: usize)
        ensures
            d == self@.len() - 1,
            d < max_bits(),
            is_canonical(self@),
    {
        proof {
            use_type_invariant(self);
        }
        self.bits.len() - 1
    }

    /// Whether this is the zero polynomial.
    pub fn is_zero(&self) -> (r: bool)
        ensures
            r == (self@ == zero()),
    {
        proof {
            use_type_invariant(self);
        }
        let n = self.bits.len();
        let mut i: usize = 0;
        while i < n
            invariant
                n == bits_of(self.bits).len(),
                i <= n,
                forall|j: int| 0 <= j < i ==> !bits_of(self.bits)[j],
            decreases n - i,
        {
            if self.bits.get(i) {
                assert(self@ != zero()) by {
                    if i == 0 {
                        assert(self@[0] != zero()[0]);
                    }
                }
                return false;
            }
            i += 1;
        }
        assert(bits_of(self.bits) =~= zero());
        true
    }

    /// Whether this is the polynomial `1`.
    pub fn is_one(&self) -> (r: bool)
        ensures
            r == (self@ == one()),
    {
        let r = self.bits.len() == 1 && self.bits.get(0);
        proof {
            if r {
                assert(bits_of(self.bits) =~= one());
            }
        }
        r
    }

    /// The zero polynomial.
    pub fn zero() -> (p: Polynomial)
        ensures
            p@ == zero(),
    {
        let mut bits = BitSeq::new();
        bits.push(false);
        assert(bits_of(bits) =~= zero());
        Polynomial { bits }
    }

    /// The polynomial `1`.
    pub fn one() -> (p: Polynomial)
        ensures
            p@ == one(),
    {
        let mut bits = BitSeq::new();
        bits.push(true);
        assert(bits_of(bits) =~= one());
        Polynomial { bits }
    }

    /// The polynomial `x`.
    pub fn x() -> (p: Polynomial)
        ensures
            p@ == x(),
    {
        let mut bits = BitSeq::new();
        bits.push(true);
        bits.push(false);
        assert(bits_of(bits) =~= x());
        Polynomial { bits }
    }

    /// Multiplies by `x^n`: `n` zero bits are appended at the low end.
    pub fn shift_left(&self, n: usize) -> (p: Polynomial)
        requires
            self@.len() + n <= max_bits(),
        ensures
            p@ == poly_shift(self@, n as nat),
            is_canonical(p@),
    {
        let mut shifted_bits = self.bits.duplicate();
        let mut i: usize = 0;
        while i < n
            invariant
                i <= n,
                bits_of(self.bits).len() + n <= max_bits(),
                bits_of(shifted_bits) == bits_of(self.bits) + zeros(i as nat),
            decreases n - i,
        {
            shifted_bits.push(false);
            assert(bits_of(shifted_bits) =~= bits_of(self.bits) + zeros((i + 1) as nat));
            i += 1;
        }
        trim_bits(&mut shifted_bits);
        Polynomial { bits: shifted_bits }
    }
    /// The primes that divide `n`, each once, in rising order, by trial
    /// division.
    pub fn distinct_prime_factors(n: usize) -> (factors: Vec<usize>)
        requires
            n >= 1,
        ensures
            is_prime_factor_list(factors@, n as nat),
    {
        let mut factors: Vec<usize> = Vec::new();
        let mut num: usize = n;
        assert(is_prime(2)) by {
            assert forall|d: nat| 2 <= d < 2 implies #[trigger] (2nat % d) != 0 by {}
        }
        assert(n as nat % n as nat == 0) by {
            crate::numbers::lemma_multiple_mod(n as int, 1);
            assert((n as int) * 1 == n);
        }
        if num % 2 == 0 {
            factors.push(2);
            assert(factors@[0] == 2);
            while num % 2 == 0
                invariant
                    1 <= num <= n,
                    n as nat % num as nat == 0,
                    is_prime(2),
                    factors@ =~= seq![2usize],
                    forall|p: nat| #[trigger]
                        is_prime_divisor(p, n as nat) ==> p == 2 || num as nat % p == 0,
                decreases num,
            {
                proof {
                    lemma_exact_division(num as nat, 2);
                    lemma_divides_transitive((num / 2) as int, num as int, n as int);
                    assert forall|p: nat| #[trigger] is_prime_divisor(p, n as nat) implies p == 2 || (
                    num / 2) as nat % p == 0 by {
                        if p != 2 {
                            lemma_prime_survives_division(p, 2, num as nat);
                        }
                    }
                }
                num /= 2;
            }
            assert(listed(factors@, 2));
        }
        let mut i: usize = 3;
        while i <= num / i
            invariant
                1 <= num <= n,
                n as nat % num as nat == 0,
                i >= 3,
                i % 2 == 1,
                no_divisor_below(num as nat, i as nat),
                i <= n + 2,
                forall|j: int|
                    0 <= j < factors@.len() ==> #[trigger] is_prime_divisor(
                        factors@[j] as nat,
                        n as nat,
                    ),
                forall|j: int| 0 <= j < factors@.len() ==> #[trigger] factors@[j] < i,
                forall|j: int, k: int| 0 <= j < k < factors@.len() ==> factors@[j] < factors@[k],
                forall|p: nat| #[trigger]
                    is_prime_divisor(p, n as nat) ==> listed(factors@, p) || num as nat % p == 0,
            decreases n + 2 - i,
        {
            proof {
                vstd::arithmetic::div_mod::lemma_fundamental_div_mod(num as int, i as int);
                let q = (num as int) / (i as int);
                let r = (num as int) % (i as int);
                assert(num >= 3 * i) by (nonlinear_arith)
                    requires
                        num == i * q + r,
                        r >= 0,
                        q >= i,
                        i >= 3,
                ;
            }
            if num % i == 0 {
                proof {
                    assert forall|d: nat| 2 <= d < i implies #[trigger] (i as nat % d) != 0 by {
                        if i as nat % d == 0 {
                            lemma_divides_transitive(d as int, i as int, num as int);
                            assert(num as nat % d != 0);
                        }
                    }
                    assert(is_prime(i as nat));
                    lemma_divides_transitive(i as int, num as int, n as int);
                }
                let ghost before = factors@;
                factors.push(i);
                proof {
                    assert(factors@[before.len() as int] as nat == i as nat);
                    assert(listed(factors@, i as nat));
                    assert forall|p: nat| listed(before, p) implies listed(factors@, p) by {
                        let j = choose|j: int| 0 <= j < before.len() && #[trigger] before[j] as nat
                            == p;
                        assert(factors@[j] as nat == p);
                    }
                }
                let ghost pushed = factors@;
                while num % i == 0
                    invariant
                        factors@ == pushed,
                        1 <= num <= n,
                        n as nat % num as nat == 0,
                        i >= 3,
                        is_prime(i as nat),
                        listed(factors@, i as nat),
                        no_divisor_below(num as nat, i as nat),
                        forall|p: nat| #[trigger]
                            is_prime_divisor(p, n as nat) ==> listed(factors@, p) || num as nat % p
                                == 0,
                    decreases num,
                {
                    proof {
                        lemma_exact_division(num as nat, i as nat);
                        lemma_divides_transitive((num / i) as int, num as int, n as int);
                        assert forall|p: nat| #[trigger] is_prime_divisor(p, n as nat) implies listed(
                            factors@,
                            p,
                        ) || (num / i) as nat % p == 0 by {
                            if !listed(factors@, p) {
                                assert(p != i);
                                lemma_prime_survives_division(p, i as nat, num as nat);
                            }
                        }
                        assert forall|d: nat| 2 <= d < i implies #[trigger] ((num / i) as nat % d)
                            != 0 by {
                            if (num / i) as nat % d == 0 {
                                lemma_divides_transitive(d as int, (num / i) as int, num as int);
                                assert(num as nat % d != 0);
                            }
                        }
                    }
                    num /= i;
                }
            }
            proof {
                assert(num as nat % 2 != 0);
                assert forall|d: nat| 2 <= d < i + 2 implies #[trigger] (num as nat % d) != 0 by {
                    if d == i + 1 && num as nat % d == 0 {
                        assert((d as int) % 2 == 0);
                        lemma_divides_transitive(2, d as int, num as int);
                    }
                }
            }
            i += 2;
        }
        if num > 2 {
            proof {
                lemma_no_small_divisor_prime(num as nat, i as nat);
            }
            let ghost before = factors@;
            factors.push(num);
            proof {
                assert(factors@[before.len() as int] as nat == num as nat);
                assert(listed(factors@, num as nat));
                assert forall|p: nat| listed(before, p) implies listed(factors@, p) by {
                    let j = choose|j: int| 0 <= j < before.len() && #[trigger] before[j] as nat == p;
                    assert(factors@[j] as nat == p);
                }
                assert forall|p: nat| #[trigger] is_prime_divisor(p, n as nat) implies listed(
                    factors@,
                    p,
                ) by {
                    if !listed(before, p) {
                        lemma_prime_divisor(num as nat, p);
                    }
                }
            }
        } else {
            proof {
                assert(num as nat % 2 != 0);
                assert(num == 1);
                assert forall|p: nat| #[trigger] is_prime_divisor(p, n as nat) implies listed(
                    factors@,
                    p,
                ) by {
                    if !listed(factors@, p) {
                        vstd::arithmetic::div_mod::lemma_small_mod(1, p);
                    }
                }
            }
        }
        factors
    }
    /// `self` squared `k` times in a row, reduced by `modulus` after each
    /// squaring: `self^(2^k)` modulo `modulus`.
    pub fn pow2_mod(&self, k: usize, modulus: &Polynomial) -> (r: Polynomial)
        requires
            modulus@ != zero(),
            2 * self@.len() <= max_bits(),
            2 * modulus@.len() <= max_bits(),
        ensures
            r@ == poly_pow2_mod(self@, k as nat, modulus@),
            is_canonical(r@),
            r@.len() <= self@.len() || r@.len() <= modulus@.len(),
    {
        proof {
            use_type_invariant(self);
            use_type_invariant(modulus);
        }
        let mut result = self.clone();
        let mut i: usize = 0;
        while i < k
            invariant
                i <= k,
                modulus@ != zero(),
                is_canonical(modulus@),
                is_canonical(result@),
                2 * self@.len() <= max_bits(),
                2 * modulus@.len() <= max_bits(),
                result@.len() <= self@.len() || result@.len() <= modulus@.len(),
                result@ == poly_pow2_mod(self@, i as nat, modulus@),
            decreases k - i,
        {
            result = result.square().modulo(modulus);
            i += 1;
        }
        result
    }
    /// The coefficients as numbers 0 and 1, highest degree first.
    pub fn coefficients(&self) -> (coeffs: Vec<u8>)
        ensures
            coeffs@.len() == self@.len(),
            forall|i: int| 0 <= i < coeffs@.len() ==> coeffs@[i] == (if self@[i] {
                1u8
            } else {
                0u8
            }),
    {
        let n = self.bits.len();
        let mut coeffs: Vec<u8> = Vec::new();
        let mut i: usize = 0;
        while i < n
            invariant
                n == bits_of(self.bits).len(),
                i <= n,
                coeffs@.len() == i,
                forall|j: int| 0 <= j < i ==> coeffs@[j] == (if bits_of(self.bits)[j] {
                    1u8
                } else {
                    0u8
                }),
            decreases n - i,
        {
            coeffs.push(if self.bits.get(i) {
                1
            } else {
                0
            });
            i += 1;
        }
        coeffs
    }
}

} // verus!
