//! Algebraic structures for cryptography: polynomials over GF(2) and the
//! binary extension fields GF(2^n) built on them, the prime fields of the
//! integers modulo `p`, and the rings of the integers modulo `n` with
//! their groups of units, under the shared capabilities of ring, group and
//! field.
//!
//! The arithmetic is verified against mathematical models: a polynomial
//! is the sequence of its coefficient bits, a big integer the number that
//! it holds. The laws of the arithmetic are proved over the same models.
//!
//! Among the laws: polynomials over GF(2) form a commutative ring in which
//! every polynomial is its own negative (`polynomial::laws`); the quotient
//! and the remainder of a division are unique, and remainders go along
//! with sums and products (`polynomial::congruence`); Rabin's test accepts
//! just the irreducible polynomials, modulo which every remainder other
//! than zero has an inverse (`polynomial::rabin`, `polynomial::field`);
//! the extended Euclidean algorithm gives the inverse of a number just
//! where one exists (`numbers`, `modular`); and the Miller-Rabin test
//! never refuses a prime (`fermat`).
//!
//! No function of the library panics. Where an operation has a limit, it
//! is a precondition: a divisor must not be zero, and a polynomial must
//! fit the bit storage, which holds `bits::max_bits()` bits at most.
pub mod algebra;
pub mod bignum;
pub mod binary_extension_field;
pub mod bits;
pub mod diffie_hellman;
pub mod fermat;
pub mod finite_field;
pub mod generic_vector;
pub mod integer_mod_n;
pub mod integer_mod_p;
pub mod mod_arith;
pub mod modular;
pub mod numbers;
pub mod polynomial;
pub mod random;
pub mod text;
