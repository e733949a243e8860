//! Schnorr and ECDSA on a curve of order 19 over the field of 17 elements.
use curve1024::{
    AffinePoint, EcdsaSignature, PrimeFieldConfig, PrimeFieldElement, SWCurveConfig,
    SchnorrSignature, U1024,
};

#[derive(Clone, Copy, Debug, PartialEq, Eq)]
struct TestBase;

// p = 17. R = 1 mod 17.
impl PrimeFieldConfig for TestBase {
    const MODULUS: [u64; 16] = [17, 0, 0, 0, 0, 0, 0, 0, 0, 0, 0, 0, 0, 0, 0, 0];
    const R2: [u64; 16] = [1, 0, 0, 0, 0, 0, 0, 0, 0, 0, 0, 0, 0, 0, 0, 0];
    const N_PRIME: [u64; 16] = [0x0f0f0f0f0f0f0f0f; 16];
}

#[derive(Clone, Copy, Debug, PartialEq, Eq)]
struct TestScalar;

// order = 19
// R^2 mod 19 = (2^1024)^2 mod 19 = 6
// N_PRIME = -19^-1 mod 2^1024
impl PrimeFieldConfig for TestScalar {
    const MODULUS: [u64; 16] = [19, 0, 0, 0, 0, 0, 0, 0, 0, 0, 0, 0, 0, 0, 0, 0];
    const R2: [u64; 16] = [6, 0, 0, 0, 0, 0, 0, 0, 0, 0, 0, 0, 0, 0, 0, 0];
    const N_PRIME: [u64; 16] = [
        0x79435e50d79435e5,
        0x435e50d79435e50d,
        0x5e50d79435e50d79,
        0x50d79435e50d7943,
        0xd79435e50d79435e,
        0x9435e50d79435e50,
        0x35e50d79435e50d7,
        0xe50d79435e50d794,
        0x0d79435e50d79435,
        0x79435e50d79435e5,
        0x435e50d79435e50d,
        0x5e50d79435e50d79,
        0x50d79435e50d7943,
        0xd79435e50d79435e,
        0x9435e50d79435e50,
        0x35e50d79435e50d7,
    ];
}

#[derive(Clone, Copy, Debug, PartialEq, Eq)]
struct TestCurve;

// y^2 = x^3 + 2x + 2 mod 17
// ORDER = 19
// Generator = (5, 1)
impl SWCurveConfig for TestCurve {
    type BaseField = TestBase;
    type ScalarField = TestScalar;

    const COEFF_A: [u64; 16] = [2, 0, 0, 0, 0, 0, 0, 0, 0, 0, 0, 0, 0, 0, 0, 0];
    const COEFF_B: [u64; 16] = [2, 0, 0, 0, 0, 0, 0, 0, 0, 0, 0, 0, 0, 0, 0, 0];
    const ORDER: [u64; 16] = [19, 0, 0, 0, 0, 0, 0, 0, 0, 0, 0, 0, 0, 0, 0, 0];
    const GENERATOR_X: [u64; 16] = [5, 0, 0, 0, 0, 0, 0, 0, 0, 0, 0, 0, 0, 0, 0, 0];
    const GENERATOR_Y: [u64; 16] = [1, 0, 0, 0, 0, 0, 0, 0, 0, 0, 0, 0, 0, 0, 0, 0];

    fn generator() -> AffinePoint<Self> {
        AffinePoint::new(
            PrimeFieldElement::from_montgomery(U1024(Self::GENERATOR_X)),
            PrimeFieldElement::from_montgomery(U1024(Self::GENERATOR_Y)),
        )
    }
}

#[test]
fn test_valid_ecdsa_signature() {
    let private_key = U1024::from_u64(10);
    let public_key = TestCurve::generator().mul(&private_key);

    let message = b"Hello, ECDSA!";

    let mut valid_signature_found = false;

    for _ in 0..10 {
        let sig = EcdsaSignature::sign::<TestCurve>(&private_key, message);

        if sig.r.is_zero() || sig.s.is_zero() {
            continue;
        }

        assert!(
            sig.verify::<TestCurve>(&public_key, message),
            "Signature failed verification"
        );

        // Verify tampering breaks validation
        let mut bad_sig = sig.clone();
        bad_sig.s = bad_sig.s.carrying_add(&U1024::one()).0;
        assert!(
            !bad_sig.verify::<TestCurve>(&public_key, message),
            "Tampered signature should fail"
        );

        valid_signature_found = true;
        break;
    }

    assert!(
        valid_signature_found,
        "Failed to generate a valid non-zero signature in 10 attempts"
    );
}

#[test]
fn test_valid_schnorr_signature() {
    let private_key = U1024::from_u64(10);
    let public_key = TestCurve::generator().mul(&private_key);

    let message = b"Hello, Schnorr!";

    let sig = SchnorrSignature::sign(&private_key, message);
    assert!(
        sig.verify(&public_key, message),
        "Signature failed verification"
    );

    // Verify tampering breaks validation
    let mut bad_sig = sig.clone();
    bad_sig.s = bad_sig.s.carrying_add(&U1024::one()).0;
    assert!(
        !bad_sig.verify(&public_key, message),
        "Tampered signature should fail"
    );
}

#[test]
fn test_ecdsa_with_every_nonce_verifies() {
    let private_key = U1024::from_u64(10);
    let public_key = TestCurve::generator().mul(&private_key);
    let hash = U1024::from_u64(123456789);
    for k in 1..19u64 {
        let sig = EcdsaSignature::sign_prehashed::<TestCurve>(&private_key, &hash, &U1024::from_u64(k));
        if sig.r.is_zero() || sig.s.is_zero() {
            continue;
        }
        assert!(sig.verify_prehashed::<TestCurve>(&public_key, &hash));
    }
}

#[test]
fn test_ecdsa_rejects_out_of_range() {
    let private_key = U1024::from_u64(10);
    let public_key = TestCurve::generator().mul(&private_key);
    let hash = U1024::from_u64(42);
    let zero_r = EcdsaSignature { r: U1024::zero(), s: U1024::from_u64(3) };
    assert!(!zero_r.verify_prehashed::<TestCurve>(&public_key, &hash));
    let big_s = EcdsaSignature { r: U1024::from_u64(3), s: U1024::from_u64(19) };
    assert!(!big_s.verify_prehashed::<TestCurve>(&public_key, &hash));
}

#[test]
fn test_schnorr_with_every_nonce_verifies() {
    let private_key = U1024::from_u64(7);
    let public_key = TestCurve::generator().mul(&private_key);
    for k in 1..19u64 {
        let sig = SchnorrSignature::<TestCurve>::sign_with_nonce(&private_key, b"nonce", &U1024::from_u64(k));
        assert!(sig.verify(&public_key, b"nonce"));
    }
}

#[test]
fn test_schnorr_response_value() {
    // s = k + e d mod 19 with k = 5, e = 3, d = 4: 17
    let e = PrimeFieldElement::<TestScalar>::new(U1024::from_u64(3));
    let s = SchnorrSignature::<TestCurve>::response(&U1024::from_u64(5), &e, &U1024::from_u64(4));
    assert_eq!(s, U1024::from_u64(17));
}

#[test]
fn test_random_below_is_in_range() {
    for _ in 0..50 {
        let k = U1024::random_below(&U1024::from_u64(19));
        assert!(!k.is_zero());
        assert!(k.less_than(&U1024::from_u64(19)));
    }
}

#[test]
fn test_ecdsa_verification_equation_on_small_curve() {
    // (r, s) verifies under d G for the hash h exactly when t G, for
    // t = (h + r d) / s mod 19, is finite with x mod 19 == r.
    let d = 10u64;
    let public_key = TestCurve::generator().mul(&U1024::from_u64(d));
    let h = 123456789u64;
    for r in 1..19u64 {
        for s in 1..19u64 {
            let mut s_inv = 1u64;
            for _ in 0..17 {
                s_inv = s_inv * s % 19;
            }
            let t = (h % 19 + r * d) % 19 * s_inv % 19;
            let p = TestCurve::generator().mul(&U1024::from_u64(t));
            let expected = !p.is_infinite && p.x.to_u1024().0[0] % 19 == r;
            let sig = EcdsaSignature { r: U1024::from_u64(r), s: U1024::from_u64(s) };
            assert_eq!(
                sig.verify_prehashed::<TestCurve>(&public_key, &U1024::from_u64(h)),
                expected
            );
        }
    }
}
