use algebraic_structures::diffie_hellman::DiffieHellman;
use algebraic_structures::finite_field::{FiniteField, FiniteFieldError};
use algebraic_structures::integer_mod_n::IntegerModN;
use algebraic_structures::integer_mod_p::IntegerModP;
use algebraic_structures::binary_extension_field::BinaryExtensionField;
use algebraic_structures::mod_arith::{binary_gcd, extended_binary_gcd, modular_inverse};
use algebraic_structures::polynomial::Polynomial;
use algebraic_structures::text::{decimal_string, digit_str};
use num_bigint::BigUint;

fn big(x: u64) -> BigUint {
    BigUint::from(x)
}

#[test]
fn polynomial_in_words() {
    assert_eq!(Polynomial::new(&[0]).to_string(), "0");
    assert_eq!(Polynomial::new(&[1]).to_string(), "1");
    assert_eq!(Polynomial::new(&[1, 0]).to_string(), "x");
    assert_eq!(Polynomial::new(&[1, 1]).to_string(), "x + 1");
    assert_eq!(Polynomial::new(&[1, 0, 1, 1]).to_string(), "x^3 + x + 1");
    assert_eq!(Polynomial::new(&[1, 0, 0]).to_string(), "x^2");
    let mut coeffs = vec![0u8; 124];
    coeffs[0] = 1;
    coeffs[23] = 1;
    coeffs[123] = 1;
    assert_eq!(Polynomial::new(&coeffs).to_string(), "x^123 + x^100 + 1");
}

#[test]
fn numbers_in_decimal_digits() {
    assert_eq!(decimal_string(0), "0");
    assert_eq!(decimal_string(7), "7");
    assert_eq!(decimal_string(10), "10");
    assert_eq!(decimal_string(1234567890), "1234567890");
    assert_eq!(decimal_string(usize::MAX), usize::MAX.to_string());
    for d in 0..10 {
        assert_eq!(digit_str(d), d.to_string());
    }
}

#[test]
fn structures_in_words() {
    let f = BinaryExtensionField::new(3, &[1, 0, 1, 1]).unwrap();
    assert_eq!(f.to_string(), "Galois field of size 2^3 with modulus x^3 + x + 1");
    let p = IntegerModP::new(big(97)).unwrap();
    assert_eq!(p.to_string(), "Prime field of Integers Modulo 97 (Z_97)");
    let n = IntegerModN::new(big(112399138330));
    assert_eq!(
        n.to_string(),
        "Multiplicative Group of Integers Modulo 112399138330 (Z/112399138330 Z)"
    );
}

#[test]
fn finite_field_is_the_binary_extension_field() {
    let f = FiniteField::new(3, &[1, 0, 1, 1]).unwrap();
    assert_eq!(f.modulus().degree(), 3);
    let e: FiniteFieldError = FiniteField::new(2, &[1, 0, 1, 1]).unwrap_err();
    assert_eq!(e, FiniteFieldError::InvalidModulusDegree);
}

#[test]
fn trinomials_by_rising_middle_term() {
    let list = Polynomial::generate_trinomials(4);
    let coeffs: Vec<Vec<u8>> = list.iter().map(|p| p.coefficients()).collect();
    assert_eq!(
        coeffs,
        vec![vec![1, 0, 0, 1, 1], vec![1, 0, 1, 0, 1], vec![1, 1, 0, 0, 1]]
    );
    assert!(Polynomial::generate_trinomials(0).is_empty());
    assert!(Polynomial::generate_trinomials(1).is_empty());
    assert_eq!(Polynomial::generate_trinomials(2).len(), 1);
}

#[test]
fn first_irreducible_trinomial() {
    assert_eq!(Polynomial::irreducible_trinomial(4).unwrap().coefficients(), vec![1, 0, 0, 1, 1]);
    assert_eq!(Polynomial::irreducible_trinomial(2).unwrap().coefficients(), vec![1, 1, 1]);
    // no trinomial of degree 8 is irreducible
    assert!(Polynomial::irreducible_trinomial(8).is_none());
    assert!(Polynomial::irreducible_trinomial(1).is_none());
}

#[test]
fn polynomials_with_a_constant_term() {
    let list = Polynomial::generate_all_monics(2);
    let coeffs: Vec<Vec<u8>> = list.iter().map(|p| p.coefficients()).collect();
    assert_eq!(coeffs, vec![vec![1], vec![1, 0, 1], vec![1, 1], vec![1, 1, 1]]);
    assert_eq!(Polynomial::generate_all_monics(0).len(), 1);
    assert_eq!(Polynomial::generate_all_monics(5).len(), 32);
}

#[test]
fn binary_gcd_known_values() {
    assert_eq!(binary_gcd(48, 18), 6);
    assert_eq!(binary_gcd(18, 48), 6);
    assert_eq!(binary_gcd(0, 5), 5);
    assert_eq!(binary_gcd(5, 0), 5);
    assert_eq!(binary_gcd(0, 0), 0);
    assert_eq!(binary_gcd(17, 5), 1);
    assert_eq!(binary_gcd(1 << 100, 1 << 90), 1 << 90);
    assert_eq!(binary_gcd(3 * (1 << 40), 9 * (1 << 20)), 3 * (1 << 20));
}

#[test]
fn extended_binary_gcd_known_values() {
    assert_eq!(extended_binary_gcd(0, 5), (5, 0, 1));
    assert_eq!(extended_binary_gcd(5, 0), (5, 1, 0));
    assert_eq!(extended_binary_gcd(0, 0), (0, 0, 1));
    // 3 * 5 + 7 * (-2) = 1
    assert_eq!(extended_binary_gcd(3, 7), (1, 5, -2));
    // 48 * 8 + 18 * (-21) = 6
    assert_eq!(extended_binary_gcd(48, 18), (6, 8, -21));
    assert_eq!(extended_binary_gcd(1, 1), (1, 1, 0));
}

#[test]
fn extended_binary_gcd_gives_bezout_cofactors() {
    for a in 0i128..60 {
        for b in 0i128..60 {
            let (g, x, y) = extended_binary_gcd(a, b);
            assert_eq!(g, binary_gcd(a, b));
            assert_eq!(a * x + b * y, g);
        }
    }
    // no sum or product of the algorithm leaves the machine integer
    let (g, x, y) = extended_binary_gcd(i128::MAX, i128::MAX - 1);
    assert_eq!(g, 1);
    assert_eq!((x, y), (1, -1));
    let (g, _, _) = extended_binary_gcd(i128::MAX - 1, i128::MAX - 3);
    assert_eq!(g, 2);
}

#[test]
fn modular_inverse_known_values() {
    assert_eq!(modular_inverse(3, 7), Some(5));
    assert_eq!(modular_inverse(1, 7), Some(1));
    assert_eq!(modular_inverse(4, 8), None);
    assert_eq!(modular_inverse(4, 10), None);
    assert_eq!(modular_inverse(0, 7), None);
    assert_eq!(modular_inverse(0, 1), Some(0));
    assert_eq!(modular_inverse(10, 7), Some(5));
}

#[test]
fn modular_inverse_is_an_inverse_just_for_coprime_numbers() {
    for m in 1i128..80 {
        for a in 0i128..80 {
            match modular_inverse(a, m) {
                Some(x) => {
                    assert!(0 <= x && x < m);
                    assert_eq!((a * x) % m, 1 % m);
                    assert_eq!(binary_gcd(a, m), 1);
                }
                None => assert_ne!(binary_gcd(a, m), 1),
            }
        }
    }
    assert_eq!(modular_inverse(2, i128::MAX), Some(i128::MAX / 2 + 1));
}

#[test]
fn both_sides_reach_the_same_secret() {
    let dh = DiffieHellman::new(big(112399138331), big(2));
    let a = dh.generate_private_key(10000).unwrap();
    let b = dh.generate_private_key(10000).unwrap();
    assert!(a > big(1) && a < big(112399138330));
    let pa = dh.compute_public_key(&a);
    let pb = dh.compute_public_key(&b);
    assert_eq!(dh.compute_shared_secret(&pb, &a), dh.compute_shared_secret(&pa, &b));
    assert!(dh.generate_private_key(0).is_none());
}

#[test]
fn checked_key_exchange_tests_the_modulus() {
    assert!(DiffieHellman::checked_new(big(1), big(5)).is_none());
    assert!(DiffieHellman::checked_new(big(0), big(5)).is_none());
    let dh = DiffieHellman::checked_new(big(23), big(5)).unwrap();
    assert_eq!(dh.field.p(), &big(23));
    assert_eq!(dh.g, big(5));
    assert_eq!(dh.compute_public_key(&big(6)), big(8));
}

#[test]
fn public_key_known_value() {
    let dh = DiffieHellman::new(big(23), big(5));
    assert_eq!(dh.compute_public_key(&big(6)), big(8));
    assert_eq!(dh.compute_public_key(&big(15)), big(19));
    assert_eq!(dh.compute_shared_secret(&big(19), &big(6)), big(2));
    assert_eq!(dh.compute_shared_secret(&big(8), &big(15)), big(2));
}

#[test]
fn private_key_from_bytes_keeps_the_range() {
    let dh = DiffieHellman::new(big(23), big(5));
    assert_eq!(dh.private_key_from_bytes(&[6]), Some(big(6)));
    assert_eq!(dh.private_key_from_bytes(&[1, 0]), Some(big(3)));
    assert_eq!(dh.private_key_from_bytes(&[0]), None);
    assert_eq!(dh.private_key_from_bytes(&[1]), None);
    assert_eq!(dh.private_key_from_bytes(&[22]), None);
    assert_eq!(dh.private_key_from_bytes(&[21]), Some(big(21)));
}
