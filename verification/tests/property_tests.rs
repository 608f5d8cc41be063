use algebraic_structures::algebra::traits::Group;
use algebraic_structures::binary_extension_field::BinaryExtensionField;
use algebraic_structures::integer_mod_n::IntegerModN;
use algebraic_structures::integer_mod_p::IntegerModP;
use algebraic_structures::mod_arith::{binary_gcd, modular_exponentiation};
use algebraic_structures::modular::{big_gcd, extended_gcd, mod_inverse};
use algebraic_structures::polynomial::Polynomial;
use num_bigint::{BigInt, BigUint, RandBigInt};
use rand::rngs::StdRng;
use rand::{Rng, SeedableRng};

fn random_polynomial(rng: &mut StdRng, max_len: usize) -> Polynomial {
    let len = rng.gen_range(0..=max_len);
    let coeffs: Vec<u8> = (0..len).map(|_| rng.gen_range(0..=1)).collect();
    Polynomial::new(&coeffs)
}

#[test]
fn sums_cancel_on_random_polynomials() {
    let mut rng = StdRng::seed_from_u64(1);
    let zero = Polynomial::new(&[0]);
    for _ in 0..300 {
        let a = random_polynomial(&mut rng, 60);
        let b = random_polynomial(&mut rng, 60);
        assert_eq!(a.add(&a), zero);
        assert_eq!(a.add(&b).add(&b), a);
        assert_eq!(a.add(&b), b.add(&a));
    }
}

#[test]
fn products_distribute_on_random_polynomials() {
    let mut rng = StdRng::seed_from_u64(2);
    for _ in 0..200 {
        let a = random_polynomial(&mut rng, 40);
        let b = random_polynomial(&mut rng, 40);
        let c = random_polynomial(&mut rng, 40);
        assert_eq!(a.multiply(&b.add(&c)), a.multiply(&b).add(&a.multiply(&c)));
        assert_eq!(a.multiply(&b), b.multiply(&a));
        assert_eq!(a.multiply(&b).multiply(&c), a.multiply(&b.multiply(&c)));
        assert_eq!(a.square(), a.multiply(&a));
    }
}

#[test]
fn division_round_trip_on_random_polynomials() {
    let mut rng = StdRng::seed_from_u64(3);
    for _ in 0..300 {
        let a = random_polynomial(&mut rng, 60);
        let b = random_polynomial(&mut rng, 30);
        if b.is_zero() {
            continue;
        }
        let (q, r) = a.div_rem(&b);
        assert_eq!(q.multiply(&b).add(&r), a);
        assert!(r.is_zero() || r.degree() < b.degree());
        assert_eq!(a.modulo(&b), r);
    }
}

#[test]
fn gcd_divides_both_on_random_polynomials() {
    let mut rng = StdRng::seed_from_u64(4);
    for _ in 0..200 {
        let a = random_polynomial(&mut rng, 40);
        let b = random_polynomial(&mut rng, 40);
        let g = a.gcd(&b);
        if g.is_zero() {
            assert!(a.is_zero() && b.is_zero());
        } else {
            assert!(a.modulo(&g).is_zero());
            assert!(b.modulo(&g).is_zero());
        }
    }
}

#[test]
fn inverse_is_one_just_for_coprime_polynomials() {
    let mut rng = StdRng::seed_from_u64(5);
    for _ in 0..200 {
        let a = random_polynomial(&mut rng, 20);
        let m = random_polynomial(&mut rng, 20);
        match a.inverse(&m) {
            Some(s) => {
                assert!(a.gcd(&m).is_one());
                assert_eq!(a.multiply(&s).modulo(&m), Polynomial::one().modulo(&m));
            }
            None => assert!(m.is_zero() || !a.gcd(&m).is_one()),
        }
    }
}

#[test]
fn a_product_of_two_is_not_irreducible() {
    let mut rng = StdRng::seed_from_u64(6);
    for _ in 0..100 {
        let a = random_polynomial(&mut rng, 12);
        let b = random_polynomial(&mut rng, 12);
        if a.degree() >= 1 && b.degree() >= 1 {
            assert!(!a.multiply(&b).is_irreducible());
        }
    }
}

#[test]
fn every_element_of_a_field_but_zero_has_an_inverse() {
    let f = BinaryExtensionField::new_auto(10).unwrap();
    for _ in 0..100 {
        let a = f.random_element();
        match Group::inverse(&f, &a) {
            Some(inv) => assert!(f.multiply(&a, &inv).is_one()),
            None => assert!(a.is_zero()),
        }
    }
}

#[test]
fn bezout_on_random_numbers() {
    let mut rng = StdRng::seed_from_u64(7);
    for _ in 0..200 {
        let a = rng.gen_biguint(200);
        let b = rng.gen_biguint(150);
        let (g, x, y) = extended_gcd(&a, &b);
        assert_eq!(g, big_gcd(&a, &b));
        assert_eq!(BigInt::from(a.clone()) * x + BigInt::from(b.clone()) * y, BigInt::from(g.clone()));
        if b > BigUint::from(1u32) {
            match mod_inverse(&a, &b) {
                Some(inv) => assert_eq!((&a * inv) % &b, BigUint::from(1u32)),
                None => assert!(g != BigUint::from(1u32)),
            }
        }
    }
}

#[test]
fn units_of_a_random_ring_have_inverses() {
    let mut rng = StdRng::seed_from_u64(8);
    for _ in 0..50 {
        let n = rng.gen_biguint(64) + BigUint::from(2u32);
        let ring = IntegerModN::new(n.clone());
        let a = ring.random_element();
        let inv = Group::inverse(&ring, &a);
        if IntegerModN::gcd(&a, &n) == BigUint::from(1u32) && a != BigUint::from(0u32) {
            assert_eq!(ring.combine(&a, &inv.unwrap()), BigUint::from(1u32));
        } else {
            assert!(inv.is_none());
        }
    }
}

#[test]
fn a_large_prime_passes_the_primality_test() {
    // 2^127 - 1 is prime, 2^128 + 1 is not
    let p = (BigUint::from(1u32) << 127u32) - BigUint::from(1u32);
    assert!(IntegerModP::new(p).is_ok());
    let c = (BigUint::from(1u32) << 128u32) + BigUint::from(1u32);
    assert!(IntegerModP::new(c).is_err());
}

#[test]
fn machine_integers_agree_with_big_integers() {
    let mut rng = StdRng::seed_from_u64(9);
    for _ in 0..200 {
        let a: i128 = rng.gen_range(0..1i128 << 62);
        let b: i128 = rng.gen_range(0..1i128 << 62);
        let g = big_gcd(&BigUint::from(a as u128), &BigUint::from(b as u128));
        assert_eq!(BigUint::from(binary_gcd(a, b) as u128), g);
        let m: i128 = rng.gen_range(1..1i128 << 62);
        let e: i128 = rng.gen_range(0..1000);
        let expected = BigUint::from(a as u128).modpow(&BigUint::from(e as u128), &BigUint::from(m as u128));
        assert_eq!(BigUint::from(modular_exponentiation(&a, &e, &m) as u128), expected);
    }
}
