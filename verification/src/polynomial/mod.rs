//! Polynomials over GF(2), stored as bits with the highest degree first.
use crate::bits::{bits_of, BitSeq, max_bits};
use crate::polynomial::model::{from_coeffs, is_canonical, trim, zero};
use crate::text::{decimal_digits, decimal_string};
use vstd::prelude::*;
use vstd::std_specs::cmp::PartialEqSpecImpl;
use vstd::string::StringExecFns;

pub mod arithmetic;
pub mod congruence;
pub mod euclidean;
pub mod field;
pub mod irreducibility;
pub mod laws;
pub mod model;
pub mod rabin;
pub mod roots;
pub mod search;
pub mod utils;

verus! {

/// A polynomial over GF(2) in canonical form.
#[derive(Debug)]
pub struct Polynomial {
    bits: BitSeq,
}

impl View for Polynomial {
    type V = Seq<bool>;

    /// The coefficient bits, highest degree first.
    closed spec fn view(&self) -> Seq<bool> {
        bits_of(self.bits)
    }
}

/// The text of the term `x^k`: `1`, `x`, or `x^` and the exponent.
pub open spec fn term_text(k: nat) -> Seq<char> {
    if k == 0 {
        "1"@
    } else if k == 1 {
        "x"@
    } else {
        "x^"@ + decimal_digits(k)
    }
}

/// The text of the terms from the bit at `i` on, highest degree first,
/// with ` + ` before each term but the first.
pub open spec fn terms_text(s: Seq<bool>, i: int, first: bool) -> Seq<char>
    decreases s.len() - i,
{
    if i < 0 || i >= s.len() {
        Seq::empty()
    } else if s[i] {
        (if first {
            Seq::<char>::empty()
        } else {
            " + "@
        }) + term_text((s.len() - 1 - i) as nat) + terms_text(s, i + 1, false)
    } else {
        terms_text(s, i + 1, first)
    }
}

/// The text of a polynomial: its terms, highest degree first, joined by
/// ` + `, and `0` for the zero polynomial.
pub open spec fn poly_text(s: Seq<bool>) -> Seq<char> {
    if s == zero() {
        "0"@
    } else {
        terms_text(s, 0, true)
    }
}

/// Drops leading zero bits until the sequence is canonical.
pub(crate) fn trim_bits(bits: &mut BitSeq)
    ensures
        bits_of(*final(bits)) == trim(bits_of(*old(bits))),
        is_canonical(bits_of(*final(bits))),
{
    proof {
        crate::polynomial::model::lemma_trim(bits_of(*bits));
    }
    if bits.len() == 0 {
        bits.push(false);
        assert(bits_of(*bits) =~= seq![false]);
        return ;
    }
    while bits.len() > 1 && !bits.get(0)
        invariant
            bits_of(*bits).len() >= 1,
            trim(bits_of(*bits)) == trim(bits_of(*old(bits))),
        decreases bits_of(*bits).len(),
    {
        let ghost before = bits_of(*bits);
        bits.remove(0);
        assert(bits_of(*bits) =~= before.subrange(1, before.len() as int));
    }
}

impl Polynomial {
    #[verifier::type_invariant]
    spec fn well_formed(self) -> bool {
        is_canonical(bits_of(self.bits))
    }

    /// Builds a polynomial from coefficients given highest degree first; a
    /// coefficient is set where the number is 1. Leading zeros are dropped.
    pub fn new(coeffs: &[u8]) -> (p: Polynomial)
        requires
            coeffs@.len() <= max_bits(),
        ensures
            p@ == from_coeffs(coeffs@),
            is_canonical(p@),
            p@.len() <= coeffs@.len() || p@.len() == 1,
    {
        proof {
            crate::polynomial::model::lemma_trim(
                Seq::new(coeffs@.len(), |i: int| coeffs@[i] == 1u8),
            );
        }
        let mut bits = BitSeq::new();
        let n = coeffs.len();
        let mut i: usize = 0;
        while i < n
            invariant
                n == coeffs@.len(),
                n <= max_bits(),
                i <= n,
                bits_of(bits).len() == i,
                forall|j: int| 0 <= j < i ==> bits_of(bits)[j] == (coeffs@[j] == 1u8),
            decreases n - i,
        {
            bits.push(coeffs[i] == 1);
            i += 1;
        }
        assert(bits_of(bits) =~= Seq::new(coeffs@.len(), |i: int| coeffs@[i] == 1u8));
        trim_bits(&mut bits);
        Polynomial { bits }
    }

    /// The polynomial in words: its terms, highest degree first, joined by
    /// ` + `; the zero polynomial is `0`.
    pub fn to_string(&self) -> (text: String)
        ensures
            text@ == poly_text(self@),
    {
        proof {
            use_type_invariant(self);
        }
        let n = self.bits.len();
        let ghost s = self@;
        let mut out = String::new();
        let mut first = true;
        let mut i: usize = 0;
        assert(out@ + terms_text(s, 0, true) =~= terms_text(s, 0, true));
        while i < n
            invariant
                s == bits_of(self.bits),
                n == s.len(),
                i <= n,
                first <==> forall|j: int| 0 <= j < i ==> !s[j],
                out@ + terms_text(s, i as int, first) == terms_text(s, 0, true),
            decreases n - i,
        {
            let ghost before = out@;
            if self.bits.get(i) {
                if !first {
                    out.append(" + ");
                }
                let d = n - 1 - i;
                if d == 0 {
                    out.append("1");
                } else if d == 1 {
                    out.append("x");
                } else {
                    out.append("x^");
                    let digits = decimal_string(d);
                    out.append(digits.as_str());
                }
                proof {
                    let lead = if first {
                        Seq::<char>::empty()
                    } else {
                        " + "@
                    };
                    assert(out@ =~= before + lead + term_text(d as nat));
                    assert(out@ + terms_text(s, i + 1, false) =~= before + (lead + term_text(
                        d as nat,
                    ) + terms_text(s, i + 1, false)));
                }
                first = false;
            }
            i += 1;
        }
        if first {
            assert(s =~= zero());
            String::from_str("0")
        } else {
            assert(out@ + terms_text(s, n as int, first) =~= out@);
            out
        }
    }
}

impl Clone for Polynomial {
    fn clone(&self) -> (p: Polynomial)
        ensures
            p@ == self@,
            is_canonical(p@),
    {
        proof {
            use_type_invariant(self);
        }
        Polynomial { bits: self.bits.duplicate() }
    }
}

impl PartialEq for Polynomial {
    fn eq(&self, other: &Polynomial) -> (r: bool) {
        let n = self.bits.len();
        if n != other.bits.len() {
            return false;
        }
        let mut i: usize = 0;
        while i < n
            invariant
                n == bits_of(self.bits).len(),
                n == bits_of(other.bits).len(),
                i <= n,
                forall|j: int| 0 <= j < i ==> bits_of(self.bits)[j] == bits_of(other.bits)[j],
            decreases n - i,
        {
            if self.bits.get(i) != other.bits.get(i) {
                return false;
            }
            i += 1;
        }
        assert(bits_of(self.bits) =~= bits_of(other.bits));
        true
    }
}

impl PartialEqSpecImpl for Polynomial {
    open spec fn obeys_eq_spec() -> bool {
        true
    }

    open spec fn eq_spec(&self, other: &Polynomial) -> bool {
        self@ == other@
    }
}

impl Eq for Polynomial {

}

} // verus!
