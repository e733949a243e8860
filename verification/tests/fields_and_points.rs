//! Run-time fields, Jacobian points, hashing, key pairs and the signed-file format.
use curve1024::runtime_field::RuntimeField;
use curve1024::signature::{hash_from_digests, hash_message, prefixed_digest};
use curve1024::signed_file::{
    ecdsa_signature_bytes, ecdsa_signature_from_bytes, parse_signed_file, point_from_bytes,
    public_key_bytes, schnorr_signature_bytes, schnorr_signature_from_bytes,
    signed_file_contents, Scheme, SignedFileError, MAGIC,
};
use curve1024::{
    AffinePoint, Curve1024Config, EcdsaSignature, KeyPair, ProjectivePoint, SWCurveConfig,
    SchnorrSignature, U1024,
};

#[test]
fn test_runtime_field_arithmetic() {
    let f = RuntimeField::new(U1024::from_u64(19));
    assert_eq!(f.modulus, U1024::from_u64(19));
    assert_eq!(f.reduce(&U1024::from_u64(100)), U1024::from_u64(5));
    assert_eq!(f.add(&U1024::from_u64(10), &U1024::from_u64(12)), U1024::from_u64(3));
    assert_eq!(f.mul(&U1024::from_u64(10), &U1024::from_u64(12)), U1024::from_u64(6));
    assert_eq!(f.pow(&U1024::from_u64(2), &U1024::from_u64(18)), U1024::one());
    assert_eq!(f.pow(&U1024::from_u64(3), &U1024::from_u64(4)), U1024::from_u64(5));
    assert_eq!(f.inv(&U1024::from_u64(10)), U1024::from_u64(2));
    let enc = f.encode_mont(&U1024::from_u64(7));
    assert_eq!(f.decode_mont(&enc), U1024::from_u64(7));
}

#[test]
fn test_runtime_field_encode_decode_round_trip() {
    let f = RuntimeField::new(U1024::from_u64(19));
    let enc = f.encode_mont(&U1024::from_u64(100));
    assert_eq!(f.decode_mont(&enc), U1024::from_u64(5));
    for b in 0..19u64 {
        let dec = f.decode_mont(&U1024::from_u64(b));
        assert_eq!(f.encode_mont(&dec), U1024::from_u64(b));
    }
}

#[test]
fn test_runtime_field_modulus_one() {
    let f = RuntimeField::new(U1024::one());
    assert!(f.pow(&U1024::from_u64(5), &U1024::from_u64(2)).is_zero());
}

#[test]
fn test_hash_message_known_value() {
    // SHA-256 of 0x00 || "abc", 0x01 || "abc", ... as one big-endian integer
    let expected = U1024([
        0x70e4acf8c900d110,
        0xd9da3ea6e7dea872,
        0xe5d12747a45f7e02,
        0x1a60c38bbdf04315,
        0x29ead5250a812e73,
        0xfede977ab212605f,
        0x3205994d09399c29,
        0x909ac45e43991119,
        0xe040a8c122c4570d,
        0x771b420c095bb0c4,
        0x7788444cb3ccd62c,
        0x1e18834c426d00e5,
        0x270469dde315fcd1,
        0x7cc46a7d3f314c88,
        0x188d5cfd761f407c,
        0x609f6e36d2405585,
    ]);
    assert_eq!(hash_message(b"abc"), expected);
    assert_ne!(hash_message(b"abd"), expected);
}

#[test]
fn test_hash_from_digests_concatenates() {
    let mut d0 = [0u8; 32];
    let mut d1 = [0u8; 32];
    let mut d2 = [0u8; 32];
    let mut d3 = [0u8; 32];
    d0[31] = 1;
    d1[0] = 0xff;
    d2[0] = 0x80;
    d3[30] = 0x01;
    d3[31] = 0x02;
    let mut limbs = [0u64; 16];
    limbs[0] = 0x0102;
    limbs[7] = 0x8000_0000_0000_0000;
    limbs[11] = 0xff00_0000_0000_0000;
    limbs[12] = 1;
    assert_eq!(hash_from_digests(&d0, &d1, &d2, &d3), U1024(limbs));
    assert!(hash_from_digests(&[0u8; 32], &[0u8; 32], &[0u8; 32], &[0u8; 32]).is_zero());
}

#[test]
fn test_prefixed_digest_and_hash_message_agree() {
    let d0 = prefixed_digest(0, b"abc");
    assert_eq!(&d0[..8], &[0x60, 0x9f, 0x6e, 0x36, 0xd2, 0x40, 0x55, 0x85]);
    assert_ne!(d0, prefixed_digest(1, b"abc"));
    let h = hash_from_digests(
        &d0,
        &prefixed_digest(1, b"abc"),
        &prefixed_digest(2, b"abc"),
        &prefixed_digest(3, b"abc"),
    );
    assert_eq!(h, hash_message(b"abc"));
}

#[test]
fn test_projective_round_trip() {
    let g = Curve1024Config::generator();
    let pg = ProjectivePoint::from_affine(&g);
    assert_eq!(pg.to_affine(), g);
    let inf = ProjectivePoint::<Curve1024Config>::infinity();
    assert!(inf.to_affine().is_infinite);
    assert!(ProjectivePoint::from_affine(&AffinePoint::<Curve1024Config>::infinite())
        .to_affine()
        .is_infinite);
}

#[test]
fn test_projective_matches_affine() {
    let g = Curve1024Config::generator();
    let pg = ProjectivePoint::from_affine(&g);
    let p2 = pg.double();
    assert_eq!(p2.to_affine(), g.double());
    let p3 = pg.add(&p2);
    assert_eq!(p3.to_affine(), g.add(&g.double()));
    assert_eq!(pg.add(&pg).to_affine(), g.double());
    let inf = ProjectivePoint::<Curve1024Config>::infinity();
    assert_eq!(inf.add(&pg).to_affine(), g);
    assert_eq!(pg.add(&inf).to_affine(), g);
    let sel = ProjectivePoint::conditional_select(&pg, &p2, 1);
    assert_eq!(sel.to_affine(), g.double());
    // both operands with Z != 1
    let p5 = p2.add(&p3);
    assert_eq!(p5.to_affine(), g.double().add(&g.add(&g.double())));
    assert_eq!(p3.double().to_affine(), g.add(&g.double()).double());
    // P + (-P) is the point at infinity
    let neg = ProjectivePoint::from_affine(&g.neg());
    assert!(pg.add(&neg).to_affine().is_infinite);
    assert!(p3.add(&ProjectivePoint::from_affine(&p3.to_affine().neg())).to_affine().is_infinite);
}

#[test]
fn test_keypair_from_private_key() {
    let kp = KeyPair::<Curve1024Config>::from_private_key(U1024::from_u64(2));
    assert_eq!(kp.public_key, Curve1024Config::generator().double());
    let bytes = kp.private_key_bytes();
    let again = KeyPair::<Curve1024Config>::from_key_bytes(&bytes);
    assert_eq!(again.private_key, kp.private_key);
    assert_eq!(again.public_key, kp.public_key);
}

#[test]
fn test_scheme_tags() {
    assert_eq!(Scheme::Schnorr.tag(), 0);
    assert_eq!(Scheme::Ecdsa.tag(), 1);
    assert_eq!(Scheme::from_tag(0), Scheme::Schnorr);
    assert_eq!(Scheme::from_tag(1), Scheme::Ecdsa);
    assert_eq!(Scheme::Schnorr.sig_size(), 384);
    assert_eq!(Scheme::Ecdsa.sig_size(), 256);
}

#[test]
fn test_signed_file_round_trip() {
    let message = b"some file".to_vec();
    let sig = vec![7u8; 256];
    let out = signed_file_contents(&message, &sig, &Scheme::Ecdsa);
    assert_eq!(out.len(), message.len() + 256 + 5);
    assert_eq!(&out[out.len() - 4..], &MAGIC);
    assert_eq!(out[out.len() - 5], 1);
    assert_eq!(parse_signed_file(&out), Ok((message.len(), Scheme::Ecdsa)));
}

#[test]
fn test_signed_file_errors() {
    assert_eq!(parse_signed_file(b"abc"), Err(SignedFileError::NotSigned));
    assert_eq!(parse_signed_file(b"hello world"), Err(SignedFileError::NotSigned));
    assert_eq!(parse_signed_file(b"x\x07C1K\n"), Err(SignedFileError::UnknownScheme(7)));
    assert_eq!(parse_signed_file(b"x\x00C1K\n"), Err(SignedFileError::TooSmall));
}

#[test]
fn test_signature_bytes_round_trip() {
    let sig = EcdsaSignature { r: U1024::from_u64(5), s: U1024::from_u64(6) };
    let bytes = ecdsa_signature_bytes(&sig);
    assert_eq!(bytes.len(), 256);
    assert_eq!(bytes[127], 5);
    assert_eq!(bytes[255], 6);
    let back = ecdsa_signature_from_bytes(&bytes, 0);
    assert_eq!((back.r, back.s), (sig.r, sig.s));

    let g = Curve1024Config::generator();
    let ssig = SchnorrSignature::<Curve1024Config> { r_point: g, s: U1024::from_u64(9) };
    let sbytes = schnorr_signature_bytes(&ssig);
    assert_eq!(sbytes.len(), 384);
    let sback = schnorr_signature_from_bytes::<Curve1024Config>(&sbytes, 0).unwrap();
    assert_eq!(sback.r_point, g);
    assert_eq!(sback.s, U1024::from_u64(9));
}

#[test]
fn test_public_key_bytes_round_trip() {
    let g = Curve1024Config::generator();
    let bytes = public_key_bytes(&g);
    assert_eq!(bytes.len(), 256);
    assert_eq!(point_from_bytes::<Curve1024Config>(&bytes, 0), Some(g));
    let mut bad = bytes.clone();
    bad[255] ^= 1;
    assert_eq!(point_from_bytes::<Curve1024Config>(&bad, 0), None);
}
