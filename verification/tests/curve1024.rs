//! Curve1024's parameters and group law.
use curve1024::u1024::LIMBS;
use curve1024::{
    AffinePoint, Curve1024BaseField, Curve1024Config, PrimeFieldConfig, SWCurveConfig, U1024,
};

fn two_adicity(n: &U1024) -> u32 {
    for i in 0..LIMBS {
        if n.0[i] != 0 {
            return i as u32 * 64 + n.0[i].trailing_zeros();
        }
    }
    1024
}

fn bit_length(n: &U1024) -> usize {
    for i in (0..LIMBS).rev() {
        if n.0[i] != 0 {
            return i * 64 + (64 - n.0[i].leading_zeros()) as usize;
        }
    }
    0
}

#[test]
fn test_anomalous_attack_resistance() {
    let p = U1024(Curve1024BaseField::MODULUS);
    let r = U1024(Curve1024Config::ORDER);
    assert_ne!(r, p);
}

#[test]
fn test_mov_attack_resistance() {
    let p_bits = bit_length(&U1024(Curve1024BaseField::MODULUS));
    assert!(p_bits > 0);
}

#[test]
fn test_modulus_bit_length() {
    assert_eq!(bit_length(&U1024(Curve1024BaseField::MODULUS)), 1024);
}

#[test]
fn test_order_bit_length() {
    assert_eq!(bit_length(&U1024(Curve1024Config::ORDER)), 512);
}

#[test]
fn test_base_field_ntt_two_adicity() {
    let s = two_adicity(&U1024(Curve1024BaseField::MODULUS).borrowing_sub(&U1024::one()).0);
    assert!(s >= 32, "two_adicity(p-1) = {s}, need >= 32");
}

#[test]
fn test_scalar_field_ntt_two_adicity() {
    let s = two_adicity(&U1024(Curve1024Config::ORDER).borrowing_sub(&U1024::one()).0);
    assert!(s >= 32, "two_adicity(r-1) = {s}, need >= 32");
}

#[test]
fn test_generator_is_on_curve() {
    let g = Curve1024Config::generator();
    assert!(g.is_on_curve());
    assert!(!g.is_infinite);
}

#[test]
fn test_generator_order_is_r() {
    let g = Curve1024Config::generator();
    assert!(g.mul(&U1024(Curve1024Config::ORDER)).is_infinite);
}

#[test]
fn test_point_double_equals_add_self() {
    let g = Curve1024Config::generator();
    assert_eq!(g.double(), g.add(&g));
}

#[test]
fn test_identity_element() {
    let g = Curve1024Config::generator();
    let inf = AffinePoint::<Curve1024Config>::infinite();
    assert_eq!(g.add(&inf), g);
    assert_eq!(inf.add(&g), g);
}

#[test]
fn test_point_negation() {
    let g = Curve1024Config::generator();
    assert!(g.add(&g.neg()).is_infinite);
}

#[test]
fn test_scalar_mul_matches_repeated_add() {
    let g = Curve1024Config::generator();
    assert_eq!(g.add(&g.double()), g.mul(&U1024::from_u64(3)));
}

#[test]
fn test_group_law_stays_on_curve() {
    let g = Curve1024Config::generator();
    let g2 = g.double();
    let g3 = g.add(&g2);
    let g5 = g2.add(&g3);
    let g6 = g3.double();
    for p in [g2, g3, g5, g6, g.mul(&U1024::from_u64(1000003))] {
        assert!(p.is_on_curve());
        assert!(!p.is_infinite);
    }
    assert_eq!(g5.add(&g), g6);
    assert!(AffinePoint::<Curve1024Config>::infinite().is_on_curve());
}
