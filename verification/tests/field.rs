use rs_ecc::galois::GaloisField;
use rs_ecc::poly::{divide_polynomial, multiply_polynomials};

#[test]
fn exponent_table_walks_powers_of_two_then_reduces() {
    let gf = GaloisField::new();
    for (i, v) in [1u8, 2, 4, 8, 16, 32, 64, 128, 29, 58].iter().enumerate() {
        assert_eq!(gf.exponentiate(i), *v);
    }
    assert_eq!(gf.exponentiate(254), 142);
    // The exponent index wraps with period 255.
    assert_eq!(gf.exponentiate(255), 1);
    assert_eq!(gf.exponentiate(256), 2);
}

#[test]
fn multiply_samples() {
    let gf = GaloisField::new();
    assert_eq!(gf.multiply(2, 4), 8);
    assert_eq!(gf.multiply(16, 16), 29);
    assert_eq!(gf.multiply(29, 29), 76);
    assert_eq!(gf.multiply(1, 137), 137);
}

#[test]
fn multiply_by_zero_is_zero() {
    let gf = GaloisField::new();
    for a in 0..=255u8 {
        assert_eq!(gf.multiply(a, 0), 0);
        assert_eq!(gf.multiply(0, a), 0);
    }
}

#[test]
fn multiply_is_commutative() {
    let gf = GaloisField::new();
    for a in 0..=255u8 {
        for b in 0..=255u8 {
            assert_eq!(gf.multiply(a, b), gf.multiply(b, a));
        }
    }
}

#[test]
fn log_and_exponentiate_are_inverse() {
    let gf = GaloisField::new();
    for a in 1..=255u8 {
        assert_eq!(gf.exponentiate(gf.log(a) as usize), a);
    }
    for i in 0..255usize {
        assert_eq!(gf.log(gf.exponentiate(i)) as usize, i);
    }
}

#[test]
fn every_nonzero_element_has_a_unique_inverse() {
    let gf = GaloisField::new();
    for a in 1..=255u8 {
        let inverses: Vec<u8> = (0..=255u8).filter(|b| gf.multiply(a, *b) == 1).collect();
        assert_eq!(inverses.len(), 1);
    }
    assert_eq!(gf.multiply(7, 186), 1);
}

#[test]
fn polynomial_product_sample() {
    let gf = GaloisField::new();
    let a: Vec<u8> = vec![1, 2, 3];
    let b: Vec<u8> = vec![4, 5];
    assert_eq!(multiply_polynomials(&gf, &a, &b), vec![4u8, 13, 6, 15]);
}

#[test]
fn division_sweep_sample() {
    let gf = GaloisField::new();
    let dividend: Vec<u8> = vec![1, 2, 3, 4];
    let generator: Vec<u8> = vec![1, 1];
    assert_eq!(divide_polynomial(&gf, &dividend, &generator), vec![0u8, 0, 0, 4]);
}
