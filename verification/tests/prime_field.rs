//! Arithmetic in the field of 17 elements.
use curve1024::{PrimeFieldConfig, PrimeFieldElement, U1024};

#[derive(Clone, Copy, Debug, PartialEq, Eq)]
struct TestConfig;

impl PrimeFieldConfig for TestConfig {
    const MODULUS: [u64; 16] = [17, 0, 0, 0, 0, 0, 0, 0, 0, 0, 0, 0, 0, 0, 0, 0];
    const R2: [u64; 16] = [1, 0, 0, 0, 0, 0, 0, 0, 0, 0, 0, 0, 0, 0, 0, 0];
    const N_PRIME: [u64; 16] = [0x0f0f0f0f0f0f0f0f; 16];
}

type F = PrimeFieldElement<TestConfig>;

#[test]
fn test_basics() {
    let a = F::new(U1024::from_u64(5));
    assert_eq!(a.to_u1024(), U1024::from_u64(5));

    let b = F::new(U1024::from_u64(12));
    assert_eq!(b.to_u1024(), U1024::from_u64(12));

    assert!(a != b);
}

#[test]
fn test_arithmetic() {
    let a = F::new(U1024::from_u64(10));
    let b = F::new(U1024::from_u64(12));

    // 10 + 12 = 22 = 5 mod 17
    let add = a + b;
    assert_eq!(add.to_u1024(), U1024::from_u64(5));

    // 10 - 12 = -2 = 15 mod 17
    let sub = a - b;
    assert_eq!(sub.to_u1024(), U1024::from_u64(15));

    // 10 * 12 = 120 = 1 mod 17
    let mul = a * b;
    assert_eq!(mul.to_u1024(), U1024::from_u64(1));

    // 10^-1 = 12 mod 17
    assert_eq!(a.inv(), b);
    assert_eq!(b.inv(), a);

    let neg_a = -a;
    assert_eq!(neg_a.to_u1024(), U1024::from_u64(7));

    // Square: 10^2 = 100 = 15 mod 17
    let sq = a.square();
    assert_eq!(sq.to_u1024(), U1024::from_u64(15));
}

#[test]
fn test_pow() {
    let a = F::new(U1024::from_u64(2));
    // 2^4 = 16 mod 17
    assert_eq!(a.pow(U1024::from_u64(4)).to_u1024(), U1024::from_u64(16));
    // Fermat's little theorem: 2^16 = 1 mod 17
    assert_eq!(a.pow(U1024::from_u64(16)).to_u1024(), U1024::from_u64(1));
}

#[test]
fn test_zero_one() {
    let zero = F::zero();
    let one = F::one();

    let a = F::new(U1024::from_u64(7));

    assert_eq!(a * zero, zero);
    assert_eq!(a * one, a);
    assert_eq!(a + zero, a);

    assert!(zero.is_zero());
    assert!(!one.is_zero());

    assert_eq!(F::from_montgomery(U1024::zero()), F::zero());
}

#[test]
fn test_from_montgomery() {
    let a = F::new(U1024::from_u64(10));
    // Since R = 1 mod 17, the internal Montgomery form inherently equals the standard literal value.
    let raw = F::from_montgomery(U1024::from_u64(10));
    assert_eq!(a, raw);
}

#[test]
fn test_bytes() {
    let a = F::new(U1024::from_u64(14));
    let bytes = a.to_bytes();
    let b = F::from_bytes(&bytes);
    assert_eq!(a, b);
}

#[test]
fn test_conditionally_selectable() {
    let a = F::new(U1024::from_u64(5));
    let b = F::new(U1024::from_u64(10));

    assert_eq!(F::conditional_select(&a, &b, 0), a);
    assert_eq!(F::conditional_select(&a, &b, 1), b);
}

#[test]
fn test_to_bytes_is_big_endian() {
    let a = F::new(U1024::from_u64(14));
    let bytes = a.to_bytes();
    assert_eq!(bytes[127], 14);
    assert!(bytes[..127].iter().all(|&b| b == 0));
}

#[test]
fn test_inverse_of_every_nonzero_element() {
    for v in 1..17u64 {
        let a = F::new(U1024::from_u64(v));
        assert_eq!((a * a.inv()).to_u1024(), U1024::one());
    }
    assert!(F::zero().inv().is_zero());
}

#[test]
fn test_inverse_is_involutive() {
    for v in 0..17u64 {
        let a = F::new(U1024::from_u64(v));
        assert_eq!(a.inv().inv(), a);
        if v != 0 {
            assert_eq!(a * a.inv(), F::one());
        }
    }
}

#[test]
fn test_new_reduces_modulo_p() {
    assert_eq!(F::new(U1024::from_u64(17 * 3 + 4)).to_u1024(), U1024::from_u64(4));
    assert!(F::new(U1024::from_u64(34)).is_zero());
}

#[test]
fn test_neg_of_zero_and_double_neg() {
    assert_eq!(-F::zero(), F::zero());
    let a = F::new(U1024::from_u64(9));
    assert_eq!(-(-a), a);
}
