//! Lists of polynomials to search for a modulus in: trinomials, and the
//! polynomials with a constant term.
use crate::bits::max_bits;
use crate::polynomial::Polynomial;
use crate::polynomial::model::{from_coeffs, is_irreducible_poly, lemma_trim};
use vstd::prelude::*;

verus! {

/// The trinomial `x^degree + x^mid + 1`.
pub open spec fn trinomial(degree: nat, mid: nat) -> Seq<bool> {
    Seq::new(degree + 1, |i: int| i == 0 || i == degree - mid || i == degree)
}

/// Coefficients, highest degree first: the one at `x^(degree - j)` is the
/// bit `j` of `pattern`, for `j` below `degree`, and the constant one is 1.
pub open spec fn constant_term_coeffs(pattern: u32, degree: nat) -> Seq<u8> {
    Seq::new(
        degree + 1,
        |j: int|
            if j == degree || (pattern >> (j as u32)) & 1 == 1 {
                1u8
            } else {
                0u8
            },
    )
}

/// The polynomial with the constant coefficient 1 whose coefficient at
/// `x^(degree - j)` is the bit `j` of `pattern`, for `j` below `degree`.
pub open spec fn constant_term_pattern(pattern: u32, degree: nat) -> Seq<bool> {
    from_coeffs(constant_term_coeffs(pattern, degree))
}

/// The coefficients of `x^degree + x^(degree - k) + 1`, highest degree
/// first.
fn trinomial_coeffs(degree: usize, k: usize) -> (coeffs: Vec<u8>)
    requires
        0 < k < degree < max_bits(),
    ensures
        coeffs@.len() == degree + 1,
        from_coeffs(coeffs@) == trinomial(degree as nat, (degree - k) as nat),
{
    let mut coeffs: Vec<u8> = Vec::new();
    let mut i: usize = 0;
    while i <= degree
        invariant
            0 < k < degree < max_bits(),
            i <= degree + 1,
            coeffs@.len() == i,
            forall|t: int| 0 <= t < i ==> (coeffs@[t] == 1u8) == (t == 0 || t == k || t == degree),
        decreases degree + 1 - i,
    {
        coeffs.push(if i == 0 || i == k || i == degree {
            1
        } else {
            0
        });
        i += 1;
    }
    proof {
        let raw = Seq::new(coeffs@.len(), |i: int| coeffs@[i] == 1u8);
        assert(raw =~= trinomial(degree as nat, (degree - k) as nat));
        lemma_trim(raw);
    }
    coeffs
}

impl Polynomial {
    /// The trinomials `x^degree + x^mid + 1`, for `mid` from 1 up to
    /// `degree - 1`.
    pub fn generate_trinomials(degree: usize) -> (list: Vec<Polynomial>)
        requires
            degree < max_bits(),
        ensures
            list@.len() == if degree >= 1 {
                degree - 1
            } else {
                0
            },
            forall|j: int|
                0 <= j < list@.len() ==> (#[trigger] list@[j])@ == trinomial(
                    degree as nat,
                    (j + 1) as nat,
                ),
    {
        let mut trinomials: Vec<Polynomial> = Vec::new();
        if degree < 2 {
            return trinomials;
        }
        let mut k: usize = degree - 1;
        while k >= 1
            invariant
                2 <= degree < max_bits(),
                0 <= k <= degree - 1,
                trinomials@.len() == degree - 1 - k,
                forall|j: int|
                    0 <= j < trinomials@.len() ==> (#[trigger] trinomials@[j])@ == trinomial(
                        degree as nat,
                        (j + 1) as nat,
                    ),
            decreases k,
        {
            let coeffs = trinomial_coeffs(degree, k);
            trinomials.push(Polynomial::new(coeffs.as_slice()));
            k -= 1;
        }
        trinomials
    }

    /// The first trinomial `x^degree + x^mid + 1`, by rising `mid`, that is
    /// irreducible, if there is one.
    pub fn irreducible_trinomial(degree: usize) -> (found: Option<Polynomial>)
        requires
            2 * (degree + 1) <= max_bits(),
        ensures
            match found {
                Some(p) => exists|mid: nat|
                    {
                        &&& 1 <= mid < degree
                        &&& p@ == #[trigger] trinomial(degree as nat, mid)
                        &&& is_irreducible_poly(p@)
                        &&& forall|other: nat|
                            1 <= other < mid ==> !is_irreducible_poly(
                                #[trigger] trinomial(degree as nat, other),
                            )
                    },
                None => forall|mid: nat|
                    1 <= mid < degree ==> !is_irreducible_poly(
                        #[trigger] trinomial(degree as nat, mid),
                    ),
            },
    {
        let tris = Polynomial::generate_trinomials(degree);
        let mut j: usize = 0;
        while j < tris.len()
            invariant
                j <= tris@.len(),
                2 * (degree + 1) <= max_bits(),
                tris@.len() == if degree >= 1 {
                    degree - 1
                } else {
                    0
                },
                forall|t: int|
                    0 <= t < tris@.len() ==> (#[trigger] tris@[t])@ == trinomial(
                        degree as nat,
                        (t + 1) as nat,
                    ),
                forall|other: nat|
                    1 <= other < j + 1 ==> !is_irreducible_poly(
                        #[trigger] trinomial(degree as nat, other),
                    ),
            decreases tris@.len() - j,
        {
            assert(tris@[j as int]@ == trinomial(degree as nat, (j + 1) as nat));
            if tris[j].is_irreducible() {
                return Some(tris[j].clone());
            }
            j += 1;
        }
        None
    }

    /// The polynomials with the constant coefficient 1 whose other
    /// coefficients, from the highest on, are the bits of the numbers from
    /// 0 up to `2^degree - 1`, the lowest bit first. The numbers are counted
    /// in 32 bits, so the degree must be 30 at most.
    pub fn generate_all_monics(degree: usize) -> (list: Vec<Polynomial>)
        requires
            degree <= 30,
        ensures
            list@.len() == 1u32 << (degree as u32),
            forall|i: int|
                0 <= i < list@.len() ==> (#[trigger] list@[i])@ == constant_term_pattern(
                    i as u32,
                    degree as nat,
                ),
    {
        let mut polynomials: Vec<Polynomial> = Vec::new();
        let total: u32 = 1u32 << (degree as u32);
        let mut i: u32 = 0;
        while i < total
            invariant
                degree <= 30,
                i <= total,
                polynomials@.len() == i,
                forall|t: int|
                    0 <= t < polynomials@.len() ==> (#[trigger] polynomials@[t])@
                        == constant_term_pattern(t as u32, degree as nat),
            decreases total - i,
        {
            let mut coeffs: Vec<u8> = Vec::new();
            let mut j: usize = 0;
            while j <= degree
                invariant
                    degree <= 30,
                    j <= degree + 1,
                    coeffs@.len() == j,
                    forall|t: int|
                        0 <= t < j ==> coeffs@[t] == (if t == degree || (i >> (t as u32)) & 1 == 1 {
                            1u8
                        } else {
                            0u8
                        }),
                decreases degree + 1 - j,
            {
                coeffs.push(if j == degree || (i >> (j as u32)) & 1 == 1 {
                    1
                } else {
                    0
                });
                j += 1;
            }
            assert(coeffs@ =~= constant_term_coeffs(i, degree as nat));
            polynomials.push(Polynomial::new(coeffs.as_slice()));
            i += 1;
        }
        polynomials
    }
}

} // verus!
