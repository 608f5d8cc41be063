use algebraic_structures::algebra::traits::{Group, Ring};
use algebraic_structures::integer_mod_n::{IntegerModN, IntegerModNError};
use algebraic_structures::integer_mod_p::{
    passes_all, witness_passes, IntegerModP, IntegerModPError,
};
use algebraic_structures::modular::{big_gcd, extended_gcd, mod_inverse};
use num_bigint::{BigInt, BigUint};

fn big(x: u64) -> BigUint {
    BigUint::from(x)
}

#[test]
fn prime_field_of_97_is_made() {
    let f = IntegerModP::new(big(97)).unwrap();
    assert_eq!(f.p(), &big(97));
}

#[test]
fn prime_field_of_100_is_refused() {
    assert_eq!(IntegerModP::new(big(100)).unwrap_err(), IntegerModPError::NotPrime);
}

#[test]
fn prime_field_of_small_numbers() {
    assert!(IntegerModP::new(big(0)).is_err());
    assert!(IntegerModP::new(big(1)).is_err());
    assert!(IntegerModP::new(big(2)).is_ok());
    assert!(IntegerModP::new(big(3)).is_ok());
    assert!(IntegerModP::new(big(4)).is_err());
    assert!(IntegerModP::new(big(5)).is_ok());
    assert!(IntegerModP::new(big(9)).is_err());
    assert!(IntegerModP::new(big(561)).is_err());
    assert!(IntegerModP::new(big(7919)).is_ok());
}

#[test]
fn miller_rabin_agrees_with_trial_division_below_2000() {
    for n in 0u64..2000 {
        let mut prime = n >= 2;
        let mut d = 2;
        while d * d <= n {
            if n % d == 0 {
                prime = false;
            }
            d += 1;
        }
        assert_eq!(IntegerModP::is_prime_miller_rabin(&big(n), 50), prime, "n = {}", n);
    }
}

#[test]
fn miller_rabin_without_rounds_passes_odd_numbers() {
    assert!(IntegerModP::is_prime_miller_rabin(&big(9), 0));
    assert!(!IntegerModP::is_prime_miller_rabin(&big(10), 0));
}

#[test]
fn witness_rounds() {
    // 221 = 13 * 17, 220 = 4 * 55: the base 174 passes, the base 137 does not
    assert!(witness_passes(&big(221), &big(55), &big(174)));
    assert!(!witness_passes(&big(221), &big(55), &big(137)));
    // every base passes for a prime
    for a in 2u64..95 {
        assert!(witness_passes(&big(97), &big(3), &big(a)));
    }
}

#[test]
fn all_bases_must_pass() {
    // 221 = 13 * 17: the base 174 passes, the base 137 does not
    assert!(passes_all(&big(221), &[]));
    assert!(passes_all(&big(221), &[big(174)]));
    assert!(!passes_all(&big(221), &[big(174), big(137)]));
    assert!(!passes_all(&big(221), &[big(137), big(174)]));
    // for 9 no base from 2 up to 7 passes
    for a in 2u64..=7 {
        assert!(!passes_all(&big(9), &[big(a)]));
    }
    // for a prime every base passes
    let bases: Vec<BigUint> = (2u64..=95).map(big).collect();
    assert!(passes_all(&big(97), &bases));
}

#[test]
fn odd_composites_without_a_passing_base_are_refused() {
    for _ in 0..50 {
        assert!(!IntegerModP::is_prime_miller_rabin(&big(9), 1));
        assert!(IntegerModP::new(big(9)).is_err());
        assert!(IntegerModP::new(big(15)).is_err());
        assert!(IntegerModP::new(big(21)).is_err());
    }
}

#[test]
fn checked_constructors_test_the_modulus() {
    assert!(IntegerModP::checked_new_valid_prime(big(0)).is_none());
    assert!(IntegerModP::checked_new_valid_prime(big(1)).is_none());
    assert_eq!(IntegerModP::checked_new_valid_prime(big(2)).unwrap().p(), &big(2));
    assert_eq!(IntegerModP::checked_new_valid_prime(big(91)).unwrap().p(), &big(91));
    assert!(IntegerModN::checked_new(big(0)).is_none());
    assert_eq!(IntegerModN::checked_new(big(1)).unwrap().n(), &big(1));
    assert_eq!(IntegerModN::checked_new(big(100)).unwrap().n(), &big(100));
}

#[test]
fn new_valid_prime_makes_no_test() {
    let f = IntegerModP::new_valid_prime(big(91));
    assert_eq!(f.p(), &big(91));
}

#[test]
fn every_element_but_zero_has_an_inverse_modulo_a_prime() {
    let f = IntegerModP::new(big(97)).unwrap();
    for a in 1u64..97 {
        let b = Group::inverse(&f, &big(a)).unwrap();
        assert_eq!((big(a) * b) % big(97), big(1));
    }
    assert!(Group::inverse(&f, &big(0)).is_none());
}

#[test]
fn inverse_modulo_p_known_value() {
    assert_eq!(IntegerModP::inverse(&big(3), &big(7)), Some(big(5)));
    assert_eq!(IntegerModP::inverse(&big(10), &big(7)), Some(big(5)));
    assert_eq!(IntegerModP::inverse(&big(7), &big(7)), None);
}

#[test]
fn literal_prime_field_scenario() {
    let p = BigUint::from(112399138331u64);
    let f = IntegerModP::new(p.clone()).unwrap();
    let mut el = f.random_element();
    while el == big(0) {
        el = f.random_element();
    }
    assert!(f.contains(&el));
    let inv = Group::inverse(&f, &el).unwrap();
    assert_eq!((&el * &inv) % &p, big(1));
    assert_eq!(f.combine(&el, &inv), big(1));
}

#[test]
fn prime_field_ring_operations() {
    let f = IntegerModP::new(big(97)).unwrap();
    assert_eq!(f.add(&big(90), &big(10)), big(3));
    assert_eq!(f.mul(&big(90), &big(10)), big(27));
    assert_eq!(f.zero(), big(0));
    assert_eq!(f.one(), big(1));
    assert_eq!(f.identity(), big(1));
    assert_eq!(f.combine(&big(96), &big(96)), big(1));
    assert_eq!(f.sub(&big(10), &big(3)), big(7));
    assert_eq!(f.sub(&big(3), &big(10)), big(90));
    assert_eq!(f.sub(&big(3), &big(3)), big(0));
    assert!(f.contains(&big(96)));
    assert!(!f.contains(&big(97)));
}

#[test]
fn prime_field_powers() {
    let f = IntegerModP::new(big(97)).unwrap();
    assert_eq!(Group::pow(&f, &big(5), &big(0)), big(1));
    assert_eq!(Group::pow(&f, &big(5), &big(3)), big(28));
    assert_eq!(IntegerModP::pow(&big(4), &big(13), &big(497)), big(445));
    for a in [2u64, 5, 50, 96] {
        for e1 in 0u64..6 {
            for e2 in 0u64..6 {
                let lhs = Group::pow(&f, &big(a), &big(e1 + e2));
                let rhs = f.mul(&Group::pow(&f, &big(a), &big(e1)), &Group::pow(&f, &big(a), &big(e2)));
                assert_eq!(lhs, rhs);
            }
        }
    }
}

#[test]
fn prime_field_element_from_bytes() {
    let f = IntegerModP::new(big(97)).unwrap();
    // 0x0102 = 258 = 2 * 97 + 64
    assert_eq!(f.element_from_bytes(&[1, 2]), big(64));
    assert_eq!(f.element_from_bytes(&[]), big(0));
    for _ in 0..50 {
        assert!(f.random_element() < big(97));
    }
}

#[test]
fn prime_field_clone_and_equality() {
    let f = IntegerModP::new(big(97)).unwrap();
    assert_eq!(f.clone(), f);
    assert_ne!(f, IntegerModP::new(big(89)).unwrap());
}

#[test]
fn error_messages() {
    assert_eq!(IntegerModPError::NotPrime.to_string(), "The modulus `p` must be a prime number.");
    assert_eq!(
        IntegerModNError::InversionFailed.to_string(),
        "Multiplicative inverse does not exist."
    );
}

#[test]
fn inverse_modulo_n_of_coprime_numbers() {
    let n = big(100);
    for a in 1u64..100 {
        let inv = IntegerModN::inverse(&big(a), &n);
        if IntegerModN::gcd(&big(a), &n) == big(1) {
            assert_eq!((big(a) * inv.unwrap()) % &n, big(1));
        } else {
            assert!(inv.is_none());
        }
    }
}

#[test]
fn inverse_modulo_n_known_values() {
    assert_eq!(IntegerModN::inverse(&big(3), &big(10)), Some(big(7)));
    assert_eq!(IntegerModN::inverse(&big(4), &big(10)), None);
    assert_eq!(IntegerModN::inverse(&big(0), &big(10)), None);
    assert_eq!(IntegerModN::inverse(&big(5), &big(1)), Some(big(0)));
}

#[test]
fn ring_modulo_n_operations() {
    let r = IntegerModN::new(big(100));
    assert_eq!(r.n(), &big(100));
    assert_eq!(r.add(&big(60), &big(70)), big(30));
    assert_eq!(r.mul(&big(60), &big(70)), big(0));
    assert_eq!(r.zero(), big(0));
    assert_eq!(r.one(), big(1));
    assert_eq!(r.identity(), big(1));
    assert_eq!(r.combine(&big(7), &big(43)), big(1));
    assert_eq!(Group::inverse(&r, &big(7)), Some(big(43)));
    assert_eq!(Group::inverse(&r, &big(0)), None);
    assert_eq!(Group::inverse(&r, &big(50)), None);
    assert!(r.contains(&big(99)));
    assert!(!r.contains(&big(100)));
    assert!(r.is_unit(&big(7)));
    assert!(!r.is_unit(&big(50)));
    assert_eq!(r.clone(), r);
}

#[test]
fn ring_modulo_n_powers() {
    let r = IntegerModN::new(big(100));
    assert_eq!(Group::pow(&r, &big(7), &big(0)), big(1));
    assert_eq!(Group::pow(&r, &big(7), &big(4)), big(1));
    assert_eq!(IntegerModN::pow(&big(2), &big(10), &big(1000)), big(24));
    for a in [3u64, 7, 10, 99] {
        for e1 in 0u64..6 {
            for e2 in 0u64..6 {
                let lhs = Group::pow(&r, &big(a), &big(e1 + e2));
                let rhs = r.mul(&Group::pow(&r, &big(a), &big(e1)), &Group::pow(&r, &big(a), &big(e2)));
                assert_eq!(lhs, rhs);
            }
        }
    }
}

#[test]
fn random_group_element_is_a_unit() {
    let r = IntegerModN::new(big(112399138330));
    for _ in 0..20 {
        let u = r.random_group_element(10000).unwrap();
        assert!(r.contains(&u));
        assert_eq!(IntegerModN::gcd(&u, r.n()), big(1));
        let inv = Group::inverse(&r, &u).unwrap();
        assert_eq!(r.combine(&u, &inv), big(1));
    }
    assert!(r.random_group_element(0).is_none());
}

#[test]
fn random_group_element_modulo_one_is_zero() {
    let r = IntegerModN::new(big(1));
    for _ in 0..20 {
        assert_eq!(r.random_group_element(1), Some(big(0)));
    }
    assert!(r.random_group_element(0).is_none());
}

#[test]
fn ring_element_from_bytes() {
    let r = IntegerModN::new(big(100));
    assert_eq!(r.element_from_bytes(&[1, 2]), big(58));
    for _ in 0..50 {
        assert!(r.random_element() < big(100));
    }
}

#[test]
fn integer_gcd_known_values() {
    assert_eq!(IntegerModN::gcd(&big(48), &big(18)), big(6));
    assert_eq!(IntegerModN::gcd(&big(18), &big(48)), big(6));
    assert_eq!(IntegerModN::gcd(&big(0), &big(5)), big(5));
    assert_eq!(IntegerModN::gcd(&big(5), &big(0)), big(5));
    assert_eq!(IntegerModN::gcd(&big(0), &big(0)), big(0));
    assert_eq!(big_gcd(&big(17), &big(5)), big(1));
}

#[test]
fn extended_gcd_gives_bezout_cofactors() {
    for (a, b) in [(240u64, 46u64), (46, 240), (17, 5), (0, 7), (7, 0), (12, 12)] {
        let (g, x, y) = extended_gcd(&big(a), &big(b));
        assert_eq!(g, big_gcd(&big(a), &big(b)));
        assert_eq!(BigInt::from(a) * x + BigInt::from(b) * y, BigInt::from(g));
    }
    let (g, x, y) = extended_gcd(&big(240), &big(46));
    assert_eq!(g, big(2));
    assert_eq!(x, BigInt::from(-9));
    assert_eq!(y, BigInt::from(47));
}

#[test]
fn mod_inverse_reduces_a_negative_cofactor() {
    // 240 * (-9) + 47 * ... : the cofactor of 3 modulo 7 is negative before it is reduced
    assert_eq!(mod_inverse(&big(3), &big(7)), Some(big(5)));
    assert_eq!(mod_inverse(&big(2), &big(9)), Some(big(5)));
    assert_eq!(mod_inverse(&big(6), &big(9)), None);
}
