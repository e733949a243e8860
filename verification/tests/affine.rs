//! Points of a small curve: `y^2 = x^3 + 2x + 2` over the field of 17 elements.
use curve1024::{AffinePoint, PrimeFieldConfig, PrimeFieldElement, SWCurveConfig, U1024};

#[derive(Clone, Copy, Debug, PartialEq, Eq)]
struct TestBase;

// p = 17. R = 1 mod 17.
impl PrimeFieldConfig for TestBase {
    const MODULUS: [u64; 16] = [17, 0, 0, 0, 0, 0, 0, 0, 0, 0, 0, 0, 0, 0, 0, 0];
    const R2: [u64; 16] = [1, 0, 0, 0, 0, 0, 0, 0, 0, 0, 0, 0, 0, 0, 0, 0];
    const N_PRIME: [u64; 16] = [0x0f0f0f0f0f0f0f0f; 16];
}

#[derive(Clone, Copy, Debug, PartialEq, Eq)]
struct TestScalar;

// Curve order = 19
impl PrimeFieldConfig for TestScalar {
    const MODULUS: [u64; 16] = [19, 0, 0, 0, 0, 0, 0, 0, 0, 0, 0, 0, 0, 0, 0, 0];
    const R2: [u64; 16] = [1, 0, 0, 0, 0, 0, 0, 0, 0, 0, 0, 0, 0, 0, 0, 0];
    const N_PRIME: [u64; 16] = [0x0f0f0f0f0f0f0f0f; 16];
}

#[derive(Clone, Copy, Debug, PartialEq, Eq)]
struct TestCurve;

// y^2 = x^3 + 2x + 2 mod 17
impl SWCurveConfig for TestCurve {
    type BaseField = TestBase;
    type ScalarField = TestScalar;

    const COEFF_A: [u64; 16] = [2, 0, 0, 0, 0, 0, 0, 0, 0, 0, 0, 0, 0, 0, 0, 0];
    const COEFF_B: [u64; 16] = [2, 0, 0, 0, 0, 0, 0, 0, 0, 0, 0, 0, 0, 0, 0, 0];
    const ORDER: [u64; 16] = [19, 0, 0, 0, 0, 0, 0, 0, 0, 0, 0, 0, 0, 0, 0, 0];
    const GENERATOR_X: [u64; 16] = [5, 0, 0, 0, 0, 0, 0, 0, 0, 0, 0, 0, 0, 0, 0, 0];
    const GENERATOR_Y: [u64; 16] = [1, 0, 0, 0, 0, 0, 0, 0, 0, 0, 0, 0, 0, 0, 0, 0];

    fn generator() -> AffinePoint<Self> {
        AffinePoint::new(
            PrimeFieldElement::from_montgomery(U1024(Self::GENERATOR_X)),
            PrimeFieldElement::from_montgomery(U1024(Self::GENERATOR_Y)),
        )
    }
}

type P = AffinePoint<TestCurve>;
type F = PrimeFieldElement<TestBase>;

#[test]
fn test_curve_point() {
    let generator = TestCurve::generator();
    assert!(generator.is_on_curve());
    assert!(!generator.is_infinite);

    let inf = P::infinite();
    assert!(inf.is_infinite);
    assert!(inf.is_on_curve());
}

#[test]
fn test_point_addition() {
    let p = TestCurve::generator();

    let p2_add = p.add(&p);
    let p2_double = p.double();
    assert_eq!(p2_add, p2_double, "P + P should equal 2P");

    // 2P = (6, 3) analytically computed
    let expected_p2 = P::new(F::new(U1024::from_u64(6)), F::new(U1024::from_u64(3)));
    assert_eq!(p2_double, expected_p2);

    let inf = P::infinite();
    assert_eq!(p.add(&inf), p);
    assert_eq!(inf.add(&p), p);
    assert_eq!(p.add(&p.neg()), inf);
}

#[test]
fn test_point_multiplication() {
    let p = TestCurve::generator();

    // P * 2 = 2P
    let p2_mul = p.mul(&U1024::from_u64(2));
    assert_eq!(p2_mul, p.double());

    // P * order = Inf
    let p_order = p.mul(&U1024(TestCurve::ORDER));
    assert!(p_order.is_infinite);

    // P * 1 = P
    assert_eq!(p.mul(&U1024::one()), p);

    // P * 0 = Inf
    assert!(p.mul(&U1024::zero()).is_infinite);
}

#[test]
fn test_negation() {
    let p = TestCurve::generator();
    let neg_p = p.neg();
    assert_eq!(neg_p.x, p.x);
    assert_eq!(neg_p.y, -p.y);
    assert!(neg_p.is_on_curve());

    let inf = P::infinite();
    assert_eq!(inf.neg(), inf);
}

#[test]
fn test_neg_is_involutive_on_small_curve() {
    let p = TestCurve::generator();
    assert_eq!(p.neg().neg(), p);
    let q = p.double();
    assert_eq!(q.neg().neg(), q);
}

#[test]
fn test_multiples_stay_on_curve() {
    let p = TestCurve::generator();
    let mut acc = P::infinite();
    for k in 0..19u64 {
        let m = p.mul(&U1024::from_u64(k));
        assert!(m.is_on_curve());
        assert_eq!(m, acc);
        acc = acc.add(&p);
    }
    assert!(acc.is_infinite);
}

#[test]
fn test_three_p_is_p_plus_2p() {
    let p = TestCurve::generator();
    assert_eq!(p.mul(&U1024::from_u64(3)), p.add(&p.double()));
}

#[test]
fn test_conditional_swap_and_select() {
    let p = TestCurve::generator();
    let q = p.double();
    assert_eq!(P::conditional_select(&p, &q, 0), p);
    assert_eq!(P::conditional_select(&p, &q, 1), q);
    let mut a = p;
    let mut b = q;
    P::conditional_swap(&mut a, &mut b, 1);
    assert_eq!((a, b), (q, p));
    P::conditional_swap(&mut a, &mut b, 0);
    assert_eq!((a, b), (q, p));
}

#[test]
fn test_conditional_select_with_infinity() {
    let p = TestCurve::generator();
    let inf = P::infinite();
    assert!(P::conditional_select(&p, &inf, 1).is_infinite);
    assert!(!P::conditional_select(&inf, &p, 1).is_infinite);
    assert!(P::conditional_select(&inf, &p, 0).is_infinite);
}

#[test]
fn test_equals_matches_eq() {
    let p = TestCurve::generator();
    assert!(p.equals(&p));
    assert!(!p.equals(&p.double()));
}
