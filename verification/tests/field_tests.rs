use algebraic_structures::algebra::traits::{Group, Ring};
use algebraic_structures::binary_extension_field::errors::BinaryExtensionFieldError;
use algebraic_structures::binary_extension_field::iterators::{
    pattern_coeffs, BinaryExtensionFieldElementDegreeBoundedIterator,
};
use algebraic_structures::binary_extension_field::BinaryExtensionField;
use algebraic_structures::generic_vector::GenericVector;
use algebraic_structures::integer_mod_p::IntegerModP;
use algebraic_structures::mod_arith::modular_exponentiation;
use algebraic_structures::polynomial::Polynomial;
use num_bigint::BigUint;

fn poly(coeffs: &[u8]) -> Polynomial {
    Polynomial::new(coeffs)
}

fn big(x: u64) -> BigUint {
    BigUint::from(x)
}

#[test]
fn field_with_an_irreducible_modulus_is_made() {
    let f = BinaryExtensionField::new(3, &[1, 0, 1, 1]).unwrap();
    assert_eq!(f.modulus(), &poly(&[1, 0, 1, 1]));
}

#[test]
fn field_with_a_reducible_modulus_is_refused() {
    assert_eq!(
        BinaryExtensionField::new(3, &[1, 1, 0, 0]).unwrap_err(),
        BinaryExtensionFieldError::NonIrreducibleModulus
    );
}

#[test]
fn field_with_a_modulus_of_another_degree_is_refused() {
    assert_eq!(
        BinaryExtensionField::new(4, &[1, 0, 1, 1]).unwrap_err(),
        BinaryExtensionFieldError::InvalidModulusDegree
    );
    assert_eq!(
        BinaryExtensionField::new(3, &[0, 0, 1, 1]).unwrap_err(),
        BinaryExtensionFieldError::InvalidModulusDegree
    );
    assert_eq!(
        BinaryExtensionField::new(0, &[1]).unwrap_err(),
        BinaryExtensionFieldError::NonIrreducibleModulus
    );
}

#[test]
fn field_error_messages() {
    assert_eq!(
        BinaryExtensionFieldError::NonIrreducibleModulus.to_string(),
        "The provided modulus is not irreducible."
    );
    assert_eq!(
        BinaryExtensionFieldError::InvalidModulusDegree.to_string(),
        "The degree of the modulus does not match the field degree."
    );
    assert_eq!(
        BinaryExtensionFieldError::UnableToGenerateModulus.to_string(),
        "Unable to generate an irreducible modulus polynomial."
    );
}

#[test]
fn new_auto_scenario() {
    let f = BinaryExtensionField::new_auto(8).unwrap();
    assert_eq!(f.modulus().degree(), 8);
    assert!(f.modulus().is_irreducible());
    let a = f.random_element();
    let b = f.random_element();
    assert_eq!(f.add(&f.add(&a, &b), &b), a);
}

#[test]
fn new_auto_of_degree_one_takes_the_first_draw() {
    for _ in 0..20 {
        let f = BinaryExtensionField::new_auto(1).unwrap();
        assert_eq!(f.modulus().degree(), 1);
    }
}

#[test]
fn new_auto_of_degree_zero_fails() {
    assert_eq!(
        BinaryExtensionField::new_auto(0).unwrap_err(),
        BinaryExtensionFieldError::UnableToGenerateModulus
    );
}

#[test]
fn field_multiply_reduces() {
    let f = BinaryExtensionField::new(3, &[1, 0, 1, 1]).unwrap();
    // x^2 * x = x^3 = x + 1
    assert_eq!(f.multiply(&poly(&[1, 0, 0]), &poly(&[1, 0])).coefficients(), vec![1, 1]);
    // (x^2 + 1) * x = 1
    assert_eq!(f.multiply(&poly(&[1, 0, 1]), &poly(&[1, 0])).coefficients(), vec![1]);
    assert_eq!(Ring::mul(&f, &poly(&[1, 0, 1]), &poly(&[1, 0])).coefficients(), vec![1]);
    assert_eq!(f.combine(&poly(&[1, 0, 1]), &poly(&[1, 0])).coefficients(), vec![1]);
}

#[test]
fn field_inverse() {
    let f = BinaryExtensionField::new(3, &[1, 0, 1, 1]).unwrap();
    assert_eq!(f.inverse(&poly(&[1, 0])).unwrap().coefficients(), vec![1, 0, 1]);
    assert!(f.inverse(&poly(&[0])).is_none());
    let mut it = f.elements_up_to_degree(2);
    let mut count = 0;
    while let Some(a) = it.next() {
        if !a.is_zero() {
            let inv = Group::inverse(&f, &a).unwrap();
            assert!(f.multiply(&a, &inv).is_one());
        }
        count += 1;
    }
    assert_eq!(count, 8);
}

#[test]
fn field_neutral_elements() {
    let f = BinaryExtensionField::new(3, &[1, 0, 1, 1]).unwrap();
    assert!(f.zero().is_zero());
    assert!(f.one().is_one());
    assert!(f.identity().is_one());
    let a = poly(&[1, 1, 0]);
    assert_eq!(Ring::add(&f, &a, &f.zero()), a);
    assert_eq!(Ring::mul(&f, &a, &f.one()), a);
}

#[test]
fn field_powers() {
    let f = BinaryExtensionField::new(3, &[1, 0, 1, 1]).unwrap();
    let x = poly(&[1, 0]);
    assert!(f.mod_exp(&x, &big(0)).is_one());
    assert_eq!(f.mod_exp(&x, &big(1)), x);
    assert_eq!(f.mod_exp(&x, &big(3)).coefficients(), vec![1, 1]);
    assert!(f.mod_exp(&x, &big(7)).is_one());
    assert_eq!(Group::pow(&f, &x, &big(8)), x);
}

#[test]
fn field_exponent_laws() {
    let f = BinaryExtensionField::new(8, &[1, 0, 0, 0, 1, 1, 0, 1, 1]).unwrap();
    for a in [poly(&[1, 0]), poly(&[1, 1, 0, 1]), poly(&[1, 0, 0, 1, 1, 0, 1, 1])] {
        assert!(f.mod_exp(&a, &big(0)).is_one());
        for e1 in 0u64..7 {
            for e2 in 0u64..7 {
                let lhs = f.mod_exp(&a, &big(e1 + e2));
                let rhs = f.multiply(&f.mod_exp(&a, &big(e1)), &f.mod_exp(&a, &big(e2)));
                assert_eq!(lhs, rhs);
            }
        }
        assert!(f.mod_exp(&a, &big(255)).is_one());
    }
}

#[test]
fn field_random_element_is_an_element() {
    let f = BinaryExtensionField::new(8, &[1, 0, 0, 0, 1, 1, 0, 1, 1]).unwrap();
    for _ in 0..50 {
        let a = f.random_element();
        assert!(a.degree() < 8);
    }
}

#[test]
fn field_clone_keeps_the_modulus() {
    let f = BinaryExtensionField::new(3, &[1, 0, 1, 1]).unwrap();
    assert_eq!(f.clone().modulus(), f.modulus());
}

#[test]
fn elements_up_to_degree_in_rising_order() {
    let f = BinaryExtensionField::new(3, &[1, 0, 1, 1]).unwrap();
    let mut it = f.elements_up_to_degree(1);
    let mut seen: Vec<Vec<u8>> = Vec::new();
    while let Some(p) = it.next() {
        seen.push(p.coefficients());
    }
    assert_eq!(seen, vec![vec![0], vec![1], vec![1, 0], vec![1, 1]]);
    assert!(it.next().is_none());
    assert_eq!(it.current, 8);
}

#[test]
fn elements_of_degree_in_rising_order() {
    let f = BinaryExtensionField::new(3, &[1, 0, 1, 1]).unwrap();
    let mut it = f.elements_of_degree(2);
    let mut seen: Vec<Vec<u8>> = Vec::new();
    while let Some(p) = it.next() {
        seen.push(p.coefficients());
    }
    assert_eq!(seen, vec![vec![1, 0, 0], vec![1, 0, 1], vec![1, 1, 0], vec![1, 1, 1]]);
    // degree 0 is that of the zero polynomial and of 1
    let mut it = f.elements_of_degree(0);
    assert_eq!(it.next().unwrap().coefficients(), vec![0]);
    assert_eq!(it.next().unwrap().coefficients(), vec![1]);
    assert!(it.next().is_none());
}

#[test]
fn enumeration_can_be_restarted() {
    let mut it = BinaryExtensionFieldElementDegreeBoundedIterator {
        current: 5,
        max: 8,
        degree: 3,
        max_degree: 3,
    };
    assert_eq!(it.next().unwrap().coefficients(), vec![1, 0, 1]);
    it.current = 0;
    assert_eq!(it.next().unwrap().coefficients(), vec![0]);
}

#[test]
fn pattern_coeffs_reads_the_highest_bit_first() {
    assert_eq!(pattern_coeffs(6, 4), vec![0, 1, 1, 0]);
    assert_eq!(pattern_coeffs(6, 2), vec![1, 0]);
    assert_eq!(pattern_coeffs(6, 0), Vec::<u8>::new());
    assert_eq!(pattern_coeffs(u128::MAX, 128), vec![1u8; 128]);
}

#[test]
fn generic_vector_takes_elements() {
    let f = IntegerModP::new(big(97)).unwrap();
    let mut v = GenericVector::new(f);
    v.push(big(5));
    v.push(big(7));
}

#[test]
fn modular_exponentiation_known_values() {
    assert_eq!(modular_exponentiation(&4, &13, &497), 445);
    assert_eq!(modular_exponentiation(&2, &10, &1000), 24);
    assert_eq!(modular_exponentiation(&7, &0, &13), 1);
    assert_eq!(modular_exponentiation(&7, &-3, &13), 1);
    assert_eq!(modular_exponentiation(&7, &5, &1), 0);
    assert_eq!(modular_exponentiation(&-2, &3, &7), 6);
    assert_eq!(modular_exponentiation(&0, &5, &7), 0);
    assert_eq!(
        modular_exponentiation(&3, &1000, &9_223_372_036_854_775_783),
        {
            let e = BigUint::from(3u32).modpow(&big(1000), &big(9_223_372_036_854_775_783));
            e.to_string().parse::<i128>().unwrap()
        }
    );
}
