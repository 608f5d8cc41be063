//! The Diffie-Hellman key exchange in the group of a prime field.
use crate::bignum::{
    be_value, big_bits, big_from_bytes_be, big_lt, big_one, big_rem, big_sub, nat_of,
};
use crate::integer_mod_p::IntegerModP;
use crate::random::random_bytes;
use num_bigint::BigUint;
use vstd::arithmetic::div_mod::lemma_mod_bound;
use vstd::arithmetic::power::{lemma_pow_mod_noop, lemma_pow_multiplies, pow};
use vstd::prelude::*;

verus! {

/// The two sides reach the same secret: `(g^a)^b = (g^b)^a` modulo `p`.
pub proof fn lemma_shared_secret_agrees(g: int, a: nat, b: nat, p: int)
    requires
        p > 0,
    ensures
        pow(pow(g, a) % p, b) % p == pow(pow(g, b) % p, a) % p,
{
    lemma_pow_mod_noop(pow(g, a), b, p);
    lemma_pow_mod_noop(pow(g, b), a, p);
    lemma_pow_multiplies(g, a, b);
    lemma_pow_multiplies(g, b, a);
    assert(a * b == b * a) by (nonlinear_arith);
}

/// The parameters of a key exchange: a prime field and a generator.
pub struct DiffieHellman {
    pub field: IntegerModP,
    pub g: BigUint,
}

impl DiffieHellman {
    /// The key exchange over the field of the prime `p`, which the caller
    /// knows to be prime, with the generator `g`.
    pub fn new(p: BigUint, g: BigUint) -> (dh: Self)
        requires
            nat_of(p) >= 2,
        ensures
            dh.field.modulus() == nat_of(p),
            dh.g == g,
    {
        let field = IntegerModP::new_valid_prime(p);
        DiffieHellman { field, g }
    }

    /// The key exchange over the field of the prime `p`, which the caller
    /// knows to be prime, with the generator `g`, and nothing where `p` is
    /// below 2.
    pub fn checked_new(p: BigUint, g: BigUint) -> (r: Option<Self>)
        ensures
            r is Some <==> nat_of(p) >= 2,
            r matches Some(dh) ==> dh.field.modulus() == nat_of(p) && dh.g == g,
    {
        match IntegerModP::checked_new_valid_prime(p) {
            Some(field) => Some(DiffieHellman { field, g }),
            None => None,
        }
    }

    /// The private key that the bytes stand for: the number that they hold
    /// in base 256, reduced by `p`, where it is above 1 and below `p - 1`.
    pub fn private_key_from_bytes(&self, bytes: &[u8]) -> (key: Option<BigUint>)
        ensures
            key is Some <==> 1 < be_value(bytes@) % self.field.modulus() < self.field.modulus()
                - 1,
            key matches Some(k) ==> nat_of(k) == be_value(bytes@) % self.field.modulus(),
    {
        let p = self.field.p();
        let one = big_one();
        let private_key = big_rem(&big_from_bytes_be(bytes), p);
        if big_lt(&one, &private_key) && big_lt(&private_key, &big_sub(p, &one)) {
            Some(private_key)
        } else {
            None
        }
    }

    /// A private key drawn at random, above 1 and below `p - 1`: keys are
    /// drawn until one fits, `max_attempts` times at most.
    pub fn generate_private_key(&self, max_attempts: usize) -> (key: Option<BigUint>)
        ensures
            key matches Some(k) ==> 1 < nat_of(k) < self.field.modulus() - 1,
            max_attempts == 0 ==> key is None,
    {
        let bits = big_bits(self.field.p());
        let len: u64 = bits / 8 + 1;
        if len > usize::MAX as u64 {
            return None;
        }
        let mut attempt: usize = 0;
        while attempt < max_attempts
            invariant
                len <= usize::MAX,
            decreases max_attempts - attempt,
        {
            let bytes = random_bytes(len as usize);
            match self.private_key_from_bytes(bytes.as_slice()) {
                Some(key) => {
                    return Some(key);
                },
                None => {},
            }
            attempt += 1;
        }
        None
    }

    /// The public key of a private key: `g` to the power of the key,
    /// modulo `p`.
    pub fn compute_public_key(&self, private_key: &BigUint) -> (key: BigUint)
        ensures
            nat_of(key) == pow(nat_of(self.g) as int, nat_of(*private_key)) % (
            self.field.modulus() as int),
            nat_of(key) < self.field.modulus(),
    {
        let p = self.field.p();
        proof {
            lemma_mod_bound(pow(nat_of(self.g) as int, nat_of(*private_key)), nat_of(*p) as int);
        }
        IntegerModP::pow(&self.g, private_key, p)
    }

    /// The shared secret: the public key of the other side to the power of
    /// the own private key, modulo `p`.
    pub fn compute_shared_secret(&self, peer_public: &BigUint, private_key: &BigUint) -> (secret:
        BigUint)
        ensures
            nat_of(secret) == pow(nat_of(*peer_public) as int, nat_of(*private_key)) % (
            self.field.modulus() as int),
            nat_of(secret) < self.field.modulus(),
    {
        let p = self.field.p();
        proof {
            lemma_mod_bound(
                pow(nat_of(*peer_public) as int, nat_of(*private_key)),
                nat_of(*p) as int,
            );
        }
        IntegerModP::pow(peer_public, private_key, p)
    }
}

} // verus!
