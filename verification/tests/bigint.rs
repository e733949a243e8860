//! The 1024-bit integers: carries, shifts, division and modular arithmetic.
use curve1024::u1024::LIMBS;
use curve1024::U1024;

fn limbs(v: &[u64]) -> U1024 {
    let mut a = [0u64; 16];
    a[..v.len()].copy_from_slice(v);
    U1024(a)
}

#[test]
fn test_zero_one_and_from_u64() {
    assert!(U1024::zero().is_zero());
    assert!(!U1024::one().is_zero());
    assert_eq!(U1024::from_u64(1), U1024::one());
    assert_eq!(U1024::from(7u64), U1024::from_u64(7));
    assert_eq!(U1024::NUM_LIMBS, LIMBS);
}

#[test]
fn test_carrying_add_wraps() {
    let max = U1024([u64::MAX; 16]);
    let (sum, carry) = max.carrying_add(&U1024::one());
    assert!(sum.is_zero());
    assert!(carry);
    let (sum, carry) = limbs(&[u64::MAX]).carrying_add(&U1024::one());
    assert_eq!(sum, limbs(&[0, 1]));
    assert!(!carry);
}

#[test]
fn test_borrowing_sub_wraps() {
    let (diff, borrow) = U1024::zero().borrowing_sub(&U1024::one());
    assert_eq!(diff, U1024([u64::MAX; 16]));
    assert!(borrow);
    let (diff, borrow) = limbs(&[0, 1]).borrowing_sub(&U1024::one());
    assert_eq!(diff, limbs(&[u64::MAX]));
    assert!(!borrow);
}

#[test]
fn test_widening_mul_halves() {
    let max = U1024([u64::MAX; 16]);
    // (2^1024 - 1)^2 = 2^2048 - 2^1025 + 1
    let (lo, hi) = max.widening_mul(&max);
    assert_eq!(lo, U1024::one());
    let mut expected_hi = [u64::MAX; 16];
    expected_hi[0] = u64::MAX - 1;
    assert_eq!(hi, U1024(expected_hi));
    let (lo, hi) = U1024::from_u64(1 << 40).widening_mul(&U1024::from_u64(1 << 40));
    assert_eq!(lo, limbs(&[0, 1 << 16]));
    assert!(hi.is_zero());
}

#[test]
fn test_shl() {
    assert_eq!(U1024::one().shl(64), limbs(&[0, 1]));
    assert_eq!(U1024::one().shl(65), limbs(&[0, 2]));
    assert_eq!(limbs(&[1 << 63]).shl(1), limbs(&[0, 1]));
    assert!(U1024::one().shl(1024).is_zero());
    assert_eq!(U1024::from_u64(5).shl(0), U1024::from_u64(5));
}

#[test]
fn test_shr_divides_by_a_power_of_two() {
    assert_eq!(limbs(&[8]).shr(3), limbs(&[1]));
    assert!(U1024::one().shr(1).is_zero());
    assert_eq!(limbs(&[0, 1]).shr(64), U1024::one());
    assert_eq!(limbs(&[0, 5]).shr(64), limbs(&[5]));
    // bits cross limb boundaries: (2^64 + 2^65 + 1) >> 1 = 2^63 + 2^64
    assert_eq!(limbs(&[1, 3]).shr(1), limbs(&[1 << 63, 1]));
    assert_eq!(limbs(&[0, 0, 0xff]).shr(68), limbs(&[0xf000_0000_0000_0000, 0xf]));
    let top = U1024([u64::MAX; 16]);
    assert_eq!(top.shr(1023), U1024::one());
    assert_eq!(top.shr(0), top);
    assert!(U1024::one().shr(1024).is_zero());
    assert!(top.shr(5000).is_zero());
}

#[test]
fn test_bits() {
    let v = U1024::from_u64(0b1010);
    assert!(v.bit(1));
    assert!(!v.bit(2));
    assert!(v.bit(3));
    assert!(!v.bit(5000));
    assert_eq!(U1024::zero().with_bit(64), limbs(&[0, 1]));
    assert_eq!(v.with_bit(1), v);
}

#[test]
fn test_less_than() {
    assert!(U1024::from_u64(3).less_than(&U1024::from_u64(4)));
    assert!(!U1024::from_u64(4).less_than(&U1024::from_u64(4)));
    // the high limb decides
    assert!(limbs(&[u64::MAX]).less_than(&limbs(&[0, 1])));
}

#[test]
fn test_div_rem() {
    let (q, r) = U1024::from_u64(100).div_rem(&U1024::from_u64(7));
    assert_eq!(q, U1024::from_u64(14));
    assert_eq!(r, U1024::from_u64(2));
    let (q, r) = U1024::from_u64(7).div_rem(&U1024::from_u64(7));
    assert_eq!((q, r), (U1024::one(), U1024::zero()));
    let (q, r) = U1024::from_u64(3).div_rem(&U1024::from_u64(7));
    assert_eq!((q, r), (U1024::zero(), U1024::from_u64(3)));
    // 2^64 + 5 divided by 2^32
    let (q, r) = limbs(&[5, 1]).div_rem(&U1024::from_u64(1 << 32));
    assert_eq!(q, U1024::from_u64(1 << 32));
    assert_eq!(r, U1024::from_u64(5));
}

#[test]
fn test_mod_arithmetic() {
    let n = U1024::from_u64(19);
    assert_eq!(U1024::from_u64(100).mod_reduce(&n), U1024::from_u64(5));
    assert_eq!(U1024::from_u64(10).mod_add(&U1024::from_u64(12), &n), U1024::from_u64(3));
    assert_eq!(U1024::from_u64(10).mod_mul(&U1024::from_u64(12), &n), U1024::from_u64(6));
    assert_eq!(U1024::from_u64(2).mod_pow(&U1024::from_u64(18), &n), U1024::one());
    assert_eq!(U1024::from_u64(10).mod_inverse(&n), U1024::from_u64(2));
    // a product that overflows 1024 bits
    let big = U1024([u64::MAX; 16]);
    // 2^1024 = 1 mod 17 gives (2^1024 - 1) mod 17 = 0
    assert!(big.mod_mul(&big, &U1024::from_u64(17)).is_zero());
    assert_eq!(U1024::pow2_1024_mod(&U1024::from_u64(17)), U1024::one());
}

#[test]
fn test_mod_pow_modulus_one() {
    assert!(U1024::from_u64(5).mod_pow(&U1024::from_u64(3), &U1024::one()).is_zero());
}

#[test]
fn test_bytes_round_trip() {
    let v = limbs(&[0x0102030405060708, 0, 0xff]);
    let bytes = v.to_be_bytes();
    assert_eq!(bytes[127], 0x08);
    assert_eq!(bytes[120], 0x01);
    assert_eq!(bytes[111], 0xff);
    assert_eq!(U1024::from_be_bytes(&bytes), v);
    // shorter inputs are read as the low bytes
    assert_eq!(U1024::from_be_bytes(&[1, 0]), U1024::from_u64(256));
    // only the first 128 bytes count
    let mut long = vec![0u8; 130];
    long[127] = 9;
    long[129] = 1;
    assert_eq!(U1024::from_be_bytes(&long), U1024::from_u64(9));
}

#[test]
fn test_from_hex() {
    assert_eq!(U1024::from_hex("0xff"), U1024::from_u64(255));
    assert_eq!(U1024::from_hex("10000000000000000"), limbs(&[0, 1]));
    assert_eq!(U1024::from_hex("0x0x1f"), U1024::from_u64(31));
    assert_eq!(U1024::from_hex("ABCdef"), U1024::from_u64(0xabcdef));
    assert_eq!(U1024::from_hex(""), U1024::zero());
    // a chunk may start with '+', as u64::from_str_radix allows
    assert_eq!(U1024::from_hex("+f"), U1024::from_u64(15));
}

#[test]
fn test_random_below_is_nonzero_and_small() {
    let n = U1024::from_u64(1000);
    for _ in 0..100 {
        let v = U1024::random_below(&n);
        assert!(!v.is_zero());
        assert!(v.less_than(&n));
    }
}

#[test]
fn test_reduce_candidate() {
    let n = U1024::from_u64(7);
    assert_eq!(U1024::reduce_candidate(&U1024::from_u64(15), &n), Some(U1024::one()));
    assert_eq!(U1024::reduce_candidate(&U1024::from_u64(14), &n), None);
}

#[test]
fn test_conditional_select() {
    let a = U1024::from_u64(1);
    let b = U1024::from_u64(2);
    assert_eq!(U1024::conditional_select(&a, &b, 0), a);
    assert_eq!(U1024::conditional_select(&a, &b, 1), b);
}

#[test]
fn test_significant_limbs() {
    assert_eq!(U1024::zero().significant_limbs(), 0);
    assert_eq!(limbs(&[0, 0, 3]).significant_limbs(), 3);
}

#[test]
fn test_arithmetic_with_divisor_above_half() {
    // d = 2^1023 + 1 and a = 2^1024 - 1: a = 1 * d + (2^1023 - 2)
    let mut d = [0u64; 16];
    d[0] = 1;
    d[15] = 1 << 63;
    let d = U1024(d);
    let a = U1024([u64::MAX; 16]);
    let (q, r) = a.div_rem(&d);
    assert_eq!(q, U1024::one());
    let mut expected = [u64::MAX; 16];
    expected[0] = u64::MAX - 1;
    expected[15] = (1 << 63) - 1;
    assert_eq!(r, U1024(expected));
    // 2^1024 mod d = 2^1023 - 1, and (2^1024 - 1) + (2^1024 - 1) wraps in mod_add
    let mut half_less_one = [u64::MAX; 16];
    half_less_one[15] = (1 << 63) - 1;
    assert_eq!(U1024::pow2_1024_mod(&d), U1024(half_less_one));
    let big = U1024(half_less_one).carrying_add(&U1024::one()).0; // 2^1023 < d
    let s = big.mod_add(&big, &d);
    // 2^1024 mod (2^1023 + 1) = 2^1023 - 1
    assert_eq!(s, U1024(half_less_one));
    // (2^1023)^2 mod d: 2^1023 = -1 (mod d), so the square is 1
    assert_eq!(big.mod_mul(&big, &d), U1024::one());
    assert_eq!(big.mod_pow(&U1024::from_u64(2), &d), U1024::one());
    assert_eq!(big.mod_pow(&U1024::from_u64(3), &d), big);
}

#[test]
fn test_to_hex_string() {
    let x = U1024::from_u64(0xabc);
    let s = x.to_hex_string();
    assert_eq!(s.len(), 258);
    assert!(s.starts_with("0x"));
    assert!(s.ends_with("0000000000000abc"));
    assert!(s[2..255].chars().all(|c| c == '0'));
    let mut limbs = [0u64; 16];
    limbs[15] = 0x0123456789abcdef;
    limbs[0] = 0xfedcba9876543210;
    let y = U1024(limbs);
    let t = y.to_hex_string();
    assert!(t.starts_with("0x0123456789abcdef0000000000000000"));
    assert!(t.ends_with("0000000000000000fedcba9876543210"));
    assert_eq!(U1024::from_hex(&t), y);
    assert_eq!(U1024::from_hex(&s), x);
}
