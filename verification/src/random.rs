//! The sources of randomness that the library draws from.
use rand::Rng;
use rand::rngs::OsRng;
use vstd::prelude::*;

verus! {

/// `Rng::gen_range(0..=1)` on `rand::thread_rng()`: a coefficient drawn at
/// random, 0 or 1.
#[verifier::external_body]
pub(crate) fn random_bit() -> (bit: u8)
    ensures
        bit <= 1,
{
    rand::thread_rng().gen_range(0..=1)
}

/// `Rng::fill` on `OsRng`: `len` bytes drawn at random.
#[verifier::external_body]
pub(crate) fn random_bytes(len: usize) -> (bytes: Vec<u8>)
    ensures
        bytes@.len() == len,
{
    let mut bytes = vec![0u8; len];
    OsRng.fill(&mut bytes[..]);
    bytes
}

} // verus!
