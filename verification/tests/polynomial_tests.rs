use algebraic_structures::polynomial::Polynomial;

fn poly(coeffs: &[u8]) -> Polynomial {
    Polynomial::new(coeffs)
}

#[test]
fn new_trims_leading_zeros() {
    let p = poly(&[0, 0, 1, 0, 1]);
    assert_eq!(p.coefficients(), vec![1, 0, 1]);
    assert_eq!(p.degree(), 2);
}

#[test]
fn new_of_zeros_is_the_zero_polynomial() {
    let p = poly(&[0, 0, 0]);
    assert_eq!(p.coefficients(), vec![0]);
    assert!(p.is_zero());
    assert_eq!(p.degree(), 0);
}

#[test]
fn new_of_nothing_is_the_zero_polynomial() {
    let p = poly(&[]);
    assert_eq!(p.coefficients(), vec![0]);
    assert!(p.is_zero());
}

#[test]
fn new_reads_only_one_as_a_set_coefficient() {
    let p = poly(&[1, 2, 0, 1]);
    assert_eq!(p.coefficients(), vec![1, 0, 0, 1]);
}

#[test]
fn zero_is_the_single_zero_bit() {
    assert_eq!(Polynomial::zero().coefficients(), vec![0]);
    assert!(Polynomial::zero().is_zero());
    assert_eq!(Polynomial::zero(), poly(&[0]));
}

#[test]
fn one_and_x() {
    assert_eq!(Polynomial::one().coefficients(), vec![1]);
    assert_eq!(Polynomial::x().coefficients(), vec![1, 0]);
    assert!(Polynomial::one().is_one());
    assert!(!Polynomial::x().is_one());
    assert!(!Polynomial::one().is_zero());
}

#[test]
fn add_self_is_zero() {
    let a = poly(&[1, 0, 1, 1]);
    assert_eq!(a.add(&a), poly(&[0]));
    let b = poly(&[1, 1, 1, 0, 0, 1, 0, 1, 1]);
    assert_eq!(b.add(&b), poly(&[0]));
}

#[test]
fn add_twice_gives_back_the_first() {
    let a = poly(&[1, 0, 1, 1]);
    let b = poly(&[1, 1, 0, 0, 1]);
    assert_eq!(a.add(&b).add(&b), a);
    assert_eq!(b.add(&a).add(&a), b);
}

#[test]
fn add_aligns_at_the_low_end() {
    // (x^3 + x + 1) + (x + 1) = x^3
    let a = poly(&[1, 0, 1, 1]);
    let b = poly(&[1, 1]);
    assert_eq!(a.add(&b).coefficients(), vec![1, 0, 0, 0]);
    assert_eq!(b.add(&a).coefficients(), vec![1, 0, 0, 0]);
}

#[test]
fn add_in_place_is_add() {
    let mut a = poly(&[1, 0, 1, 1]);
    let b = poly(&[1, 1, 1]);
    let sum = a.add(&b);
    a.add_in_place(&b);
    assert_eq!(a, sum);
    assert_eq!(a.coefficients(), vec![1, 1, 0, 0]);
}

#[test]
fn multiply_known_products() {
    // (x + 1)(x + 1) = x^2 + 1
    let a = poly(&[1, 1]);
    assert_eq!(a.multiply(&a).coefficients(), vec![1, 0, 1]);
    // (x^2 + x + 1)(x + 1) = x^3 + 1
    let b = poly(&[1, 1, 1]);
    assert_eq!(b.multiply(&a).coefficients(), vec![1, 0, 0, 1]);
    // anything times zero is zero
    assert_eq!(b.multiply(&poly(&[0])).coefficients(), vec![0]);
    // anything times one is itself
    assert_eq!(b.multiply(&Polynomial::one()), b);
}

#[test]
fn multiply_in_place_is_multiply() {
    let mut a = poly(&[1, 0, 1, 1]);
    let b = poly(&[1, 1, 0]);
    let product = a.multiply(&b);
    a.multiply_in_place(&b);
    assert_eq!(a, product);
}

#[test]
fn multiply_distributes_over_add() {
    let a = poly(&[1, 0, 1, 1]);
    let b = poly(&[1, 1, 0, 1, 1]);
    let c = poly(&[1, 0, 0, 1, 0, 1]);
    assert_eq!(a.multiply(&b.add(&c)), a.multiply(&b).add(&a.multiply(&c)));
}

#[test]
fn square_is_the_product_with_itself() {
    let a = poly(&[1, 0, 1, 1]);
    assert_eq!(a.square(), a.multiply(&a));
    assert_eq!(a.square().coefficients(), vec![1, 0, 0, 0, 1, 0, 1]);
    assert_eq!(poly(&[0]).square().coefficients(), vec![0]);
    assert_eq!(poly(&[1]).square().coefficients(), vec![1]);
}

#[test]
fn shift_left_appends_zeros() {
    let a = poly(&[1, 1]);
    assert_eq!(a.shift_left(3).coefficients(), vec![1, 1, 0, 0, 0]);
    assert_eq!(a.shift_left(0), a);
    assert_eq!(poly(&[0]).shift_left(4).coefficients(), vec![0]);
}

#[test]
fn div_rem_round_trip() {
    let a = poly(&[1, 1, 0, 1, 0, 0, 1, 1]);
    let b = poly(&[1, 0, 1, 1]);
    let (q, r) = a.div_rem(&b);
    assert_eq!(q.multiply(&b).add(&r), a);
    assert!(r.is_zero() || r.degree() < b.degree());
}

#[test]
fn div_rem_known_values() {
    // x^3 + 1 = (x + 1)(x^2 + x + 1)
    let a = poly(&[1, 0, 0, 1]);
    let b = poly(&[1, 1]);
    let (q, r) = a.div_rem(&b);
    assert_eq!(q.coefficients(), vec![1, 1, 1]);
    assert_eq!(r.coefficients(), vec![0]);
    // x^3 + x + 1 divided by x^2: quotient x, remainder x + 1
    let (q, r) = poly(&[1, 0, 1, 1]).div_rem(&poly(&[1, 0, 0]));
    assert_eq!(q.coefficients(), vec![1, 0]);
    assert_eq!(r.coefficients(), vec![1, 1]);
}

#[test]
fn div_rem_of_a_smaller_dividend() {
    let a = poly(&[1, 1]);
    let b = poly(&[1, 0, 1, 1]);
    let (q, r) = a.div_rem(&b);
    assert_eq!(q.coefficients(), vec![0]);
    assert_eq!(r, a);
}

#[test]
fn div_rem_by_one() {
    let a = poly(&[1, 0, 1, 1]);
    let (q, r) = a.div_rem(&Polynomial::one());
    assert_eq!(q, a);
    assert!(r.is_zero());
    let (q, r) = poly(&[0]).div_rem(&Polynomial::one());
    assert!(q.is_zero());
    assert!(r.is_zero());
}

#[test]
fn modulo_is_the_remainder() {
    let a = poly(&[1, 1, 0, 1, 0, 0, 1, 1]);
    let b = poly(&[1, 0, 1, 1]);
    let (_, r) = a.div_rem(&b);
    assert_eq!(a.modulo(&b), r);
    assert_eq!(poly(&[1, 0, 0, 0]).modulo(&b).coefficients(), vec![1, 1]);
}

#[test]
fn gcd_known_values() {
    // gcd(x^2 + 1, x + 1) = x + 1
    let a = poly(&[1, 0, 1]);
    let b = poly(&[1, 1]);
    assert_eq!(a.gcd(&b).coefficients(), vec![1, 1]);
    // gcd with zero is the other
    assert_eq!(a.gcd(&poly(&[0])), a);
    assert_eq!(poly(&[0]).gcd(&a), a);
    // coprime
    assert_eq!(poly(&[1, 0, 1, 1]).gcd(&poly(&[1, 0])).coefficients(), vec![1]);
}

#[test]
fn inverse_known_value() {
    // in GF(8) with x^3 + x + 1: x * (x^2 + 1) = x^3 + x = 1
    let m = poly(&[1, 0, 1, 1]);
    let inv = Polynomial::x().inverse(&m).unwrap();
    assert_eq!(inv.coefficients(), vec![1, 0, 1]);
}

#[test]
fn inverse_times_element_is_one() {
    let m = poly(&[1, 0, 0, 0, 1, 1, 0, 1, 1]);
    for bits in 1u32..256 {
        let coeffs: Vec<u8> = (0..8).rev().map(|i| ((bits >> i) & 1) as u8).collect();
        let a = poly(&coeffs);
        let inv = a.inverse(&m).unwrap();
        assert!(a.multiply(&inv).modulo(&m).is_one());
    }
}

#[test]
fn inverse_of_zero_is_none() {
    let m = poly(&[1, 0, 1, 1]);
    assert!(poly(&[0]).inverse(&m).is_none());
}

#[test]
fn inverse_with_a_common_divisor_is_none() {
    // x^2 + 1 = (x + 1)^2 and x + 1 share a divisor
    assert!(poly(&[1, 1]).inverse(&poly(&[1, 0, 1])).is_none());
}

#[test]
fn inverse_modulo_zero_is_none() {
    assert!(Polynomial::one().inverse(&poly(&[0])).is_none());
}

#[test]
fn pow2_mod_squares_and_reduces() {
    let m = poly(&[1, 0, 1, 1]);
    let x = Polynomial::x();
    assert_eq!(x.pow2_mod(0, &m), x);
    assert_eq!(x.pow2_mod(1, &m).coefficients(), vec![1, 0, 0]);
    // x^4 = x^2 + x modulo x^3 + x + 1
    assert_eq!(x.pow2_mod(2, &m).coefficients(), vec![1, 1, 0]);
    // x^8 = x in GF(8)
    assert_eq!(x.pow2_mod(3, &m), x);
}

#[test]
fn distinct_prime_factors_known_values() {
    assert_eq!(Polynomial::distinct_prime_factors(1), Vec::<usize>::new());
    assert_eq!(Polynomial::distinct_prime_factors(2), vec![2]);
    assert_eq!(Polynomial::distinct_prime_factors(8), vec![2]);
    assert_eq!(Polynomial::distinct_prime_factors(9), vec![3]);
    assert_eq!(Polynomial::distinct_prime_factors(97), vec![97]);
    assert_eq!(Polynomial::distinct_prime_factors(360), vec![2, 3, 5]);
    assert_eq!(Polynomial::distinct_prime_factors(2 * 3 * 7 * 11 * 13), vec![2, 3, 7, 11, 13]);
}

#[test]
fn irreducibility_vectors() {
    assert!(poly(&[1, 0, 1, 1]).is_irreducible());
    assert!(!poly(&[1, 0, 0]).is_irreducible());
    assert!(poly(&[1, 0]).is_irreducible());
}

#[test]
fn irreducibility_of_small_polynomials() {
    assert!(!poly(&[0]).is_irreducible());
    assert!(!poly(&[1]).is_irreducible());
    assert!(poly(&[1, 1]).is_irreducible());
    assert!(poly(&[1, 1, 1]).is_irreducible());
    assert!(!poly(&[1, 0, 1]).is_irreducible());
    assert!(!poly(&[1, 1, 0]).is_irreducible());
    assert!(poly(&[1, 1, 0, 1]).is_irreducible());
    assert!(!poly(&[1, 1, 1, 1]).is_irreducible());
    // x^4 + x^2 + 1 = (x^2 + x + 1)^2
    assert!(!poly(&[1, 0, 1, 0, 1]).is_irreducible());
    // the modulus of AES: x^8 + x^4 + x^3 + x + 1
    assert!(poly(&[1, 0, 0, 0, 1, 1, 0, 1, 1]).is_irreducible());
}

#[test]
fn irreducibility_agrees_with_trial_division_up_to_degree_six() {
    let mut all: Vec<Polynomial> = Vec::new();
    for bits in 2u32..128 {
        let coeffs: Vec<u8> = (0..7).rev().map(|i| ((bits >> i) & 1) as u8).collect();
        all.push(poly(&coeffs));
    }
    for f in all.iter() {
        let mut has_divisor = false;
        for g in all.iter() {
            if g.degree() >= 1 && g.degree() < f.degree() && f.modulo(g).is_zero() {
                has_divisor = true;
            }
        }
        assert_eq!(f.is_irreducible(), !has_divisor);
    }
}

#[test]
fn random_monic_polynomial_has_the_degree() {
    for degree in 0..20 {
        let p = Polynomial::random_monic_polynomial(degree);
        assert_eq!(p.degree(), degree);
        assert_eq!(p.coefficients()[0], 1);
    }
}

#[test]
fn irreducible_element_is_irreducible() {
    let p = Polynomial::irreducible_element(8, 3000).unwrap();
    assert_eq!(p.degree(), 8);
    assert!(p.is_irreducible());
}

#[test]
fn irreducible_element_of_degree_one_takes_the_first_draw() {
    for _ in 0..20 {
        let p = Polynomial::irreducible_element(1, 1).unwrap();
        assert_eq!(p.degree(), 1);
        assert!(p.is_irreducible());
    }
}

#[test]
fn irreducible_element_without_attempts_is_none() {
    assert!(Polynomial::irreducible_element(8, 0).is_none());
    assert!(Polynomial::irreducible_element(0, 100).is_none());
}

#[test]
fn clone_is_equal() {
    let a = poly(&[1, 0, 1, 1]);
    assert_eq!(a.clone(), a);
    assert_ne!(a, poly(&[1, 0, 1, 0]));
    assert_ne!(a, poly(&[1, 0, 1]));
}
