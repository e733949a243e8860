//! Prime fields in Montgomery form over a modulus below 2^1024.
use std::marker::PhantomData;
use std::ops::{Add, Mul, Neg, Sub};
use vstd::arithmetic::power2::*;
use vstd::prelude::*;
use vstd::std_specs::ops::{AddSpecImpl, MulSpecImpl, NegSpecImpl, SubSpecImpl};

use crate::arith::{lemma_add_cong, lemma_mul_cong, lemma_sub_cong};
use crate::montgomery::{
    lemma_cancel_r, lemma_redc_bound, lemma_redc_congruent, mont_ok, mont_reduce, redc,
};
use vstd::arithmetic::div_mod::*;
use vstd::arithmetic::power::pow;
use crate::u1024::{
    be_byte, be_bytes, be_val, lemma_bit_of_limb, lemma_limbs_val_bound, limbs_val, mod_add_spec, nat_bit, r_mod,
    U1024,
};

verus! {

/// The constants of a prime field, as little-endian limbs: the modulus `p`,
/// `R^2 mod p` and `-p^{-1} mod R`, where `R = 2^1024`.
pub trait PrimeFieldConfig: 'static + Copy + Clone + Eq + PartialEq + core::fmt::Debug {
    const MODULUS: [u64; 16];
    const R2: [u64; 16];
    const N_PRIME: [u64; 16];
}

/// The modulus `p` of the field `C`.
pub open spec fn modulus_of<C: PrimeFieldConfig>() -> nat {
    limbs_val(C::MODULUS@)
}

/// The constant that `C` gives for `R^2 mod p`.
pub open spec fn r2_of<C: PrimeFieldConfig>() -> nat {
    limbs_val(C::R2@)
}

/// The constant that `C` gives for `-p^{-1} mod R`.
pub open spec fn n_prime_of<C: PrimeFieldConfig>() -> nat {
    limbs_val(C::N_PRIME@)
}

/// Product of two Montgomery representations: [`redc`] of the integer product.
pub open spec fn fe_mul<C: PrimeFieldConfig>(a: nat, b: nat) -> nat {
    redc(a * b, modulus_of::<C>(), n_prime_of::<C>())
}

/// Sum of two representations: the sum, less `p` when it carries or reaches `p`.
pub open spec fn fe_add<C: PrimeFieldConfig>(a: nat, b: nat) -> nat {
    mod_add_spec(a, b, modulus_of::<C>())
}

/// Difference of two representations: the wrapped difference, plus `p` when it borrows.
pub open spec fn fe_sub<C: PrimeFieldConfig>(a: nat, b: nat) -> nat {
    if a < b {
        ((a + r_mod() - b) as nat + modulus_of::<C>()) % r_mod()
    } else {
        (a - b) as nat
    }
}

/// Negation of a representation: 0 stays 0, otherwise `p - a` (wrapping).
pub open spec fn fe_neg<C: PrimeFieldConfig>(a: nat) -> nat {
    if a == 0 {
        0
    } else {
        ((modulus_of::<C>() + r_mod() - a) as nat) % r_mod()
    }
}

/// The representation that `new` gives the integer `v`: [`redc`] of `v * R2`.
pub open spec fn fe_from_int<C: PrimeFieldConfig>(v: nat) -> nat {
    redc(v * r2_of::<C>(), modulus_of::<C>(), n_prime_of::<C>())
}

/// The representation of 1.
pub open spec fn fe_one<C: PrimeFieldConfig>() -> nat {
    fe_from_int::<C>(1)
}

/// The integer that a representation stands for, as `to_u1024` computes it.
pub open spec fn fe_canonical<C: PrimeFieldConfig>(a: nat) -> nat {
    redc(a, modulus_of::<C>(), n_prime_of::<C>())
}

/// State `(result, base)` of square-and-multiply after the `k` lowest exponent bits.
pub open spec fn fe_pow_state<C: PrimeFieldConfig>(a: nat, e: nat, k: nat) -> (nat, nat)
    decreases k,
{
    if k == 0 {
        (fe_one::<C>(), a)
    } else {
        let prev = fe_pow_state::<C>(a, e, (k - 1) as nat);
        let res = if nat_bit(e, (k - 1) as nat) {
            fe_mul::<C>(prev.0, prev.1)
        } else {
            prev.0
        };
        (res, fe_mul::<C>(prev.1, prev.1))
    }
}

/// `a` to the power `e` by square-and-multiply over the 1024 exponent bits.
pub open spec fn fe_pow<C: PrimeFieldConfig>(a: nat, e: nat) -> nat {
    fe_pow_state::<C>(a, e, 1024).0
}

/// The inverse by Fermat's little theorem: `a` to the power `p - 2` (wrapping).
pub open spec fn fe_inv<C: PrimeFieldConfig>(a: nat) -> nat {
    fe_pow::<C>(a, ((modulus_of::<C>() + r_mod() - 2) as nat) % r_mod())
}

/// An element of the field `C`, held in Montgomery form (`x * R mod p`).
#[derive(Copy, Debug, PartialEq, Eq)]
pub struct PrimeFieldElement<C: PrimeFieldConfig> {
    value: U1024,
    _config: PhantomData<C>,
}

impl<C: PrimeFieldConfig> Clone for PrimeFieldElement<C> {
    fn clone(&self) -> (r: Self)
        ensures
            r == *self,
    {
        *self
    }
}

impl<C: PrimeFieldConfig> PrimeFieldElement<C> {
    /// The Montgomery representation, as an integer.
    pub closed spec fn raw(self) -> nat {
        self.value.val()
    }

    /// A representation is below 2^1024.
    pub proof fn lemma_raw_bound(self)
        ensures
            self.raw() < r_mod(),
    {
        lemma_limbs_val_bound(self.value.0@);
    }

    /// Two elements are equal exactly when their representations are.
    pub proof fn lemma_raw_eq(self, other: Self)
        ensures
            (self.raw() == other.raw()) == (self == other),
    {
        crate::u1024::lemma_val_injective(self.value.0@, other.value.0@);
        if self.raw() == other.raw() {
            assert(self.value.0 =~= other.value.0);
        }
    }

    /// Wraps a value that is already in Montgomery form.
    pub fn from_montgomery(value: U1024) -> (r: Self)
        ensures
            r.raw() == value.val(),
    {
        Self { value, _config: PhantomData }
    }

    /// The modulus as an integer.
    fn modulus() -> (m: U1024)
        ensures
            m.val() == modulus_of::<C>(),
    {
        U1024(C::MODULUS)
    }

    /// Montgomery reduction of `hi * 2^1024 + lo` by the field's modulus.
    fn reduce(lo: &U1024, hi: &U1024) -> (r: U1024)
        ensures
            r.val() == redc(lo.val() + hi.val() * r_mod(), modulus_of::<C>(), n_prime_of::<C>()),
    {
        mont_reduce(lo, hi, &U1024(C::MODULUS), &U1024(C::N_PRIME))
    }

    /// The element standing for the integer `value` (reduced modulo `p`).
    pub fn new(value: U1024) -> (r: Self)
        ensures
            r.raw() == fe_from_int::<C>(value.val()),
    {
        let (lo, hi) = value.widening_mul(&U1024(C::R2));
        let value = Self::reduce(&lo, &hi);
        Self { value, _config: PhantomData }
    }

    /// The element 0.
    pub fn zero() -> (r: Self)
        ensures
            r.raw() == 0,
    {
        Self { value: U1024::zero(), _config: PhantomData }
    }

    /// The element 1.
    pub fn one() -> (r: Self)
        ensures
            r.raw() == fe_one::<C>(),
    {
        Self::new(U1024::one())
    }

    /// Whether the representation is 0.
    pub fn is_zero(&self) -> (r: bool)
        ensures
            r == (self.raw() == 0),
    {
        self.value.is_zero()
    }

    /// Whether two elements have the same representation.
    pub fn equals(&self, other: &Self) -> (r: bool)
        ensures
            r == (self.raw() == other.raw()),
    {
        self.value.equals(&other.value)
    }

    /// The inverse, as `self` to the power `p - 2`; 0 maps to 0.
    pub fn inv(&self) -> (r: Self)
        ensures
            r.raw() == fe_inv::<C>(self.raw()),
    {
        let two = U1024::from_u64(2);
        let (p_minus_2, _) = Self::modulus().borrowing_sub(&two);
        proof {
            lemma_limbs_val_bound(p_minus_2.0@);
            lemma_limbs_val_bound(C::MODULUS@);
            vstd::arithmetic::power2::lemma2_to64();
            lemma_pow2_strictly_increases(2, 1024);
            let c = if modulus_of::<C>() >= 2 { 0int } else { 1int };
            vstd::arithmetic::div_mod::lemma_fundamental_div_mod_converse(
                modulus_of::<C>() + r_mod() - 2, r_mod() as int, 1 - c, p_minus_2.val() as int);
        }
        self.pow(p_minus_2)
    }

    /// `self` to the power `exp`, by square-and-multiply with constant-time selection.
    pub fn pow(&self, exp: U1024) -> (r: Self)
        ensures
            r.raw() == fe_pow::<C>(self.raw(), exp.val()),
    {
        let mut res = Self::one();
        let mut base = *self;
        let top = exp.significant_limbs();
        let mut i: usize = 0;
        while i < top
            invariant
                0 <= i <= top <= 16,
                (res.raw(), base.raw()) == fe_pow_state::<C>(self.raw(), exp.val(), (64 * i) as nat),
                forall|j: int| top <= j < 16 ==> exp.0[j] == 0,
            decreases top - i,
        {
            let mut limb = exp.0[i];
            let mut t: usize = 0;
            proof {
                let l0 = exp.0[i as int];
                assert(l0 >> 0 == l0) by (bit_vector);
                vstd::bits::lemma_u64_shr_is_div(l0, 0);
            }
            while t < 64
                invariant
                    0 <= i < top <= 16,
                    0 <= t <= 64,
                    limb as nat == (exp.0[i as int] as nat) / pow2(t as nat),
                    (res.raw(), base.raw()) == fe_pow_state::<C>(self.raw(), exp.val(), (64 * i + t) as nat),
                decreases 64 - t,
            {
                proof {
                    lemma_bit_of_limb(exp.0@, i as int, t as nat);
                    assert(limb & 1 == limb % 2) by (bit_vector);
                    lemma_pow2_pos(t as nat);
                    lemma_pow2_adds(t as nat, 1);
                    vstd::arithmetic::power2::lemma2_to64();
                    vstd::arithmetic::div_mod::lemma_div_denominator(exp.0[i as int] as int, pow2(t as nat) as int, 2);
                    assert(limb >> 1 == limb / 2) by (bit_vector);
                    assert((64 * i + t + 1) as nat - 1 == (64 * i + t) as nat);
                }
                let bit: u8 = if (limb & 1) == 1 { 1 } else { 0 };
                let product = res * base;
                res = Self::conditional_select(&res, &product, bit);
                base = base.square();
                limb = limb >> 1;
                t += 1;
            }
            i += 1;
        }
        proof {
            exp.lemma_high_limbs_zero(top as nat);
            lemma_pow_state_stable::<C>(self.raw(), exp.val(), (64 * top) as nat, 1024);
        }
        res
    }

    /// `self * self`.
    pub fn square(&self) -> (r: Self)
        ensures
            r.raw() == fe_mul::<C>(self.raw(), self.raw()),
    {
        *self * *self
    }

    /// The integer that the element stands for, out of Montgomery form.
    pub fn to_u1024(&self) -> (r: U1024)
        ensures
            r.val() == fe_canonical::<C>(self.raw()),
    {
        let z = U1024::zero();
        Self::reduce(&self.value, &z)
    }

    /// Constant-time select: `b` when `choice` is 1, `a` when it is 0.
    pub fn conditional_select(a: &Self, b: &Self, choice: u8) -> (r: Self)
        requires
            choice <= 1,
        ensures
            r == (if choice == 1 { *b } else { *a }),
    {
        Self {
            value: U1024::conditional_select(&a.value, &b.value, choice),
            _config: PhantomData,
        }
    }

    /// The 128-byte big-endian encoding of the integer the element stands for.
    pub fn to_bytes(&self) -> (r: [u8; 128])
        ensures
            r@ == be_bytes(fe_canonical::<C>(self.raw())),
            be_val(r@) == fe_canonical::<C>(self.raw()),
            forall|k: int| 0 <= k < 128 ==> r[k] as nat == be_byte(fe_canonical::<C>(self.raw()), k),
    {
        let canonical = self.to_u1024();
        canonical.to_be_bytes()
    }

    /// The element standing for the big-endian integer in `bytes` (reduced modulo `p`).
    pub fn from_bytes(bytes: &[u8; 128]) -> (r: Self)
        ensures
            r.raw() == fe_from_int::<C>(be_val(bytes@)),
    {
        let value = U1024::from_be_bytes(bytes);
        proof {
            assert(bytes@.take(128) =~= bytes@);
        }
        Self::new(value)
    }
}


/// The constants of `C` are consistent: `p > 1`, `p * N_PRIME = -1 (mod R)`
/// and `R2 = R^2 mod p`.
pub open spec fn field_ok<C: PrimeFieldConfig>() -> bool {
    mont_ok(modulus_of::<C>(), n_prime_of::<C>()) && r2_of::<C>() == (r_mod() * r_mod())
        % modulus_of::<C>()
}

/// Every nonzero element has [`fe_inv`] as its inverse: Fermat's little
/// theorem, which holds when the modulus is prime (not proved here).
pub open spec fn inverse_ok<C: PrimeFieldConfig>() -> bool {
    forall|a: nat|
        #![trigger fe_inv::<C>(a)]
        a < modulus_of::<C>() && fe_canonical::<C>(a) != 0 ==> (fe_canonical::<C>(a)
            * fe_canonical::<C>(fe_inv::<C>(a))) % modulus_of::<C>() == 1
}

/// With inverses the field has no zero divisors: `a b = 0 (mod p)` makes `a`
/// or `b` zero.
pub proof fn lemma_no_zero_divisors<C: PrimeFieldConfig>(a: int, b: int)
    requires
        field_ok::<C>(),
        inverse_ok::<C>(),
        0 <= a < modulus_of::<C>(),
        0 <= b < modulus_of::<C>(),
        (a * b) % (modulus_of::<C>() as int) == 0,
    ensures
        a == 0 || b == 0,
{
    let p = modulus_of::<C>();
    let pi = p as int;
    if a != 0 {
        lemma_limbs_val_bound(C::MODULUS@);
        lemma_from_int::<C>(a as nat);
        lemma_small_mod(a as nat, p);
        let ra = fe_from_int::<C>(a as nat);
        let i = fe_canonical::<C>(fe_inv::<C>(ra)) as int;
        assert((a * i) % pi == 1);
        lemma_small_mod(1, p);
        lemma_mul_cong(b, b, a * i, 1, pi);
        assert(b * (a * i) == (a * b) * i) by (nonlinear_arith);
        lemma_mod_self_0(pi);
        lemma_small_mod(0, p);
        lemma_mul_cong(a * b, 0, i, i, pi);
        lemma_small_mod(b as nat, p);
    }
}

/// A residue has at most one inverse modulo `p`.
pub proof fn lemma_inverse_unique(d: int, i: int, j: int, p: int)
    requires
        p > 1,
        0 <= i < p,
        0 <= j < p,
        (d * i) % p == 1,
        (d * j) % p == 1,
    ensures
        i == j,
{
    // i == i (d j) == (i d) j == j (mod p)
    lemma_small_mod(1, p as nat);
    lemma_mul_cong(i, i, d * j, 1, p);
    assert(i * (d * j) == (d * i) * j) by (nonlinear_arith);
    lemma_mul_cong(d * i, 1, j, j, p);
    lemma_small_mod(i as nat, p as nat);
    lemma_small_mod(j as nat, p as nat);
}

/// A representation `x` below `p` with `x = v R (mod p)` for `v < p` stands for `v`.
pub proof fn lemma_canonical_of<C: PrimeFieldConfig>(x: nat, v: nat)
    requires
        field_ok::<C>(),
        x < modulus_of::<C>(),
        v < modulus_of::<C>(),
        (v * r_mod()) % modulus_of::<C>() == x % modulus_of::<C>(),
    ensures
        fe_canonical::<C>(x) == v,
{
    let p = modulus_of::<C>();
    let np = n_prime_of::<C>();
    lemma_pow2_pos(1024);
    assert(x < p * r_mod()) by (nonlinear_arith) requires x < p, r_mod() >= 1;
    lemma_redc_bound(x, p, np);
    lemma_redc_congruent(x, p, np);
    lemma_cancel_r(redc(x, p, np), v, p, np);
}

/// `to_u1024` of a representation below 2^1024 lies below `p` and times `R` is the representation.
pub proof fn lemma_canonical<C: PrimeFieldConfig>(a: nat)
    requires
        field_ok::<C>(),
        a < r_mod(),
    ensures
        fe_canonical::<C>(a) < modulus_of::<C>(),
        (fe_canonical::<C>(a) * r_mod()) % modulus_of::<C>() == a % modulus_of::<C>(),
{
    let p = modulus_of::<C>();
    assert(a < p * r_mod()) by (nonlinear_arith) requires a < r_mod(), p >= 1;
    lemma_redc_bound(a, p, n_prime_of::<C>());
    lemma_redc_congruent(a, p, n_prime_of::<C>());
}

/// Representations below `p` are equal exactly when the elements they stand for are.
pub proof fn lemma_canonical_injective<C: PrimeFieldConfig>(a: nat, b: nat)
    requires
        field_ok::<C>(),
        a < modulus_of::<C>(),
        b < modulus_of::<C>(),
    ensures
        (fe_canonical::<C>(a) == fe_canonical::<C>(b)) == (a == b),
{
    let p = modulus_of::<C>();
    lemma_pow2_pos(1024);
    assert(a < r_mod() && b < r_mod()) by {
        lemma_limbs_val_bound(C::MODULUS@);
    }
    lemma_canonical::<C>(a);
    lemma_canonical::<C>(b);
    lemma_small_mod(a, p);
    lemma_small_mod(b, p);
}

/// `new(v)` gives a reduced representation standing for `v mod p`.
pub proof fn lemma_from_int<C: PrimeFieldConfig>(v: nat)
    requires
        field_ok::<C>(),
        v < r_mod(),
    ensures
        fe_from_int::<C>(v) < modulus_of::<C>(),
        fe_canonical::<C>(fe_from_int::<C>(v)) == v % modulus_of::<C>(),
{
    let p = modulus_of::<C>();
    let pi = p as int;
    let np = n_prime_of::<C>();
    let big = r_mod() as int;
    let r2 = r2_of::<C>();
    lemma_pow2_pos(1024);
    lemma_mod_bound((big * big) as int, pi);
    assert(v * r2 < p * r_mod()) by (nonlinear_arith) requires v < r_mod(), r2 < p;
    let x = fe_from_int::<C>(v);
    lemma_redc_bound(v * r2, p, np);
    lemma_redc_congruent(v * r2, p, np);
    // x R == v R^2 == ((v mod p) R) R (mod p)
    let w = v % p;
    lemma_mod_bound(v as int, pi);
    let y = (w * r_mod()) % p;
    lemma_mod_bound((w * r_mod()) as int, pi);
    assert((x * r_mod()) % p == (y * r_mod()) % p) by {
        lemma_mod_twice(v as int, pi);
        lemma_mod_twice(big * big, pi);
        lemma_mul_cong(v as int, w as int, r2 as int, big * big, pi);
        assert(w * (big * big) == (w * big) * big) by (nonlinear_arith);
        lemma_mod_twice((w * big) as int, pi);
        lemma_mul_cong(w * big, y as int, big, big, pi);
    }
    lemma_cancel_r(x, y, p, np);
    lemma_small_mod(x, p);
    lemma_canonical_of::<C>(x, w);
}

/// The representation of 1 stands for 1.
pub proof fn lemma_one<C: PrimeFieldConfig>()
    requires
        field_ok::<C>(),
    ensures
        fe_one::<C>() < modulus_of::<C>(),
        fe_canonical::<C>(fe_one::<C>()) == 1,
{
    lemma_pow2_pos(1024);
    vstd::arithmetic::power2::lemma2_to64();
    lemma_pow2_strictly_increases(0, 1024);
    lemma_from_int::<C>(1);
    lemma_small_mod(1, modulus_of::<C>());
}

/// Multiplication of reduced representations is multiplication modulo `p`.
pub proof fn lemma_mul<C: PrimeFieldConfig>(a: nat, b: nat)
    requires
        field_ok::<C>(),
        a < modulus_of::<C>(),
        b < modulus_of::<C>(),
    ensures
        fe_mul::<C>(a, b) < modulus_of::<C>(),
        fe_canonical::<C>(fe_mul::<C>(a, b)) == (fe_canonical::<C>(a) * fe_canonical::<C>(b))
            % modulus_of::<C>(),
{
    let p = modulus_of::<C>();
    let pi = p as int;
    let np = n_prime_of::<C>();
    let big = r_mod() as int;
    lemma_pow2_pos(1024);
    lemma_limbs_val_bound(C::MODULUS@);
    assert(a * b < p * r_mod()) by (nonlinear_arith) requires a < p, b < p, p <= r_mod();
    let x = fe_mul::<C>(a, b);
    lemma_redc_bound(a * b, p, np);
    lemma_redc_congruent(a * b, p, np);
    lemma_canonical::<C>(a);
    lemma_canonical::<C>(b);
    let ca = fe_canonical::<C>(a);
    let cb = fe_canonical::<C>(b);
    let w = (ca * cb) % p;
    lemma_mod_bound((ca * cb) as int, pi);
    let y = (w * r_mod()) % p;
    lemma_mod_bound((w * r_mod()) as int, pi);
    assert((x * r_mod()) % p == (y * r_mod()) % p) by {
        // x R == a b == (ca R)(cb R) == (ca cb) R R == w R R == y R (mod p)
        lemma_mul_cong(a as int, ca * big, b as int, cb * big, pi);
        assert((ca * big) * (cb * big) == ((ca * cb) * big) * big) by (nonlinear_arith);
        lemma_mod_twice((ca * cb) as int, pi);
        lemma_mul_cong((ca * cb) as int, w as int, big, big, pi);
        assert(((ca * cb) * big) * big == ((ca * cb) * big) * big);
        lemma_mul_cong((ca * cb) * big, w * big, big, big, pi);
        lemma_mod_twice((w * big) as int, pi);
        lemma_mul_cong(w * big, y as int, big, big, pi);
    }
    lemma_cancel_r(x, y, p, np);
    lemma_small_mod(x, p);
    lemma_canonical_of::<C>(x, w);
}

/// Addition of reduced representations is addition modulo `p`.
pub proof fn lemma_add<C: PrimeFieldConfig>(a: nat, b: nat)
    requires
        field_ok::<C>(),
        a < modulus_of::<C>(),
        b < modulus_of::<C>(),
    ensures
        fe_add::<C>(a, b) == (a + b) % modulus_of::<C>(),
        fe_canonical::<C>(fe_add::<C>(a, b)) == (fe_canonical::<C>(a) + fe_canonical::<C>(b))
            % modulus_of::<C>(),
{
    let p = modulus_of::<C>();
    let pi = p as int;
    let big = r_mod() as int;
    lemma_pow2_pos(1024);
    lemma_limbs_val_bound(C::MODULUS@);
    let s = a + b;
    if s >= p {
        lemma_fundamental_div_mod_converse(s as int, pi, 1, s - p);
        if s >= big {
            lemma_fundamental_div_mod_converse(s as int, big, 1, s - big);
            lemma_fundamental_div_mod_converse((s - big + big - p) as int, big, 0, s - p);
        } else {
            lemma_small_mod(s, r_mod());
            lemma_fundamental_div_mod_converse((s + big - p) as int, big, 1, s - p);
        }
    } else {
        lemma_small_mod(s, p);
        lemma_small_mod(s, r_mod());
    }
    let x = fe_add::<C>(a, b);
    lemma_canonical::<C>(a);
    lemma_canonical::<C>(b);
    let ca = fe_canonical::<C>(a);
    let cb = fe_canonical::<C>(b);
    let w = (ca + cb) % p;
    lemma_mod_bound((ca + cb) as int, pi);
    assert((w * r_mod()) % p == x % p) by {
        lemma_mod_twice(s as int, pi);
        lemma_add_cong(a as int, ca * big, b as int, cb * big, pi);
        assert(ca * big + cb * big == (ca + cb) * big) by (nonlinear_arith);
        lemma_mod_twice((ca + cb) as int, pi);
        lemma_mul_cong((ca + cb) as int, w as int, big, big, pi);
    }
    lemma_mod_bound(s as int, pi);
    lemma_canonical_of::<C>(x, w);
}

/// Subtraction of reduced representations is subtraction modulo `p`.
pub proof fn lemma_sub<C: PrimeFieldConfig>(a: nat, b: nat)
    requires
        field_ok::<C>(),
        a < modulus_of::<C>(),
        b < modulus_of::<C>(),
    ensures
        fe_sub::<C>(a, b) == (a + modulus_of::<C>() - b) % (modulus_of::<C>() as int),
        fe_canonical::<C>(fe_sub::<C>(a, b)) == (fe_canonical::<C>(a) + modulus_of::<C>()
            - fe_canonical::<C>(b)) % (modulus_of::<C>() as int),
{
    let p = modulus_of::<C>();
    let pi = p as int;
    let big = r_mod() as int;
    lemma_pow2_pos(1024);
    lemma_limbs_val_bound(C::MODULUS@);
    if a < b {
        lemma_fundamental_div_mod_converse((a + big - b + p) as int, big, 1, a + p - b);
        lemma_small_mod((a + p - b) as nat, p);
    } else {
        lemma_fundamental_div_mod_converse((a + p - b) as int, pi, 1, a - b);
    }
    let x = fe_sub::<C>(a, b);
    assert(x < p);
    lemma_canonical::<C>(a);
    lemma_canonical::<C>(b);
    let ca = fe_canonical::<C>(a);
    let cb = fe_canonical::<C>(b);
    let w = (ca + pi - cb) % pi;
    lemma_mod_bound(ca + pi - cb, pi);
    assert((w * r_mod()) % pi == x % p) by {
        lemma_mod_multiples_vanish(1, a - b, pi);
        lemma_sub_cong(a as int, ca * big, b as int, cb * big, pi);
        assert(ca * big - cb * big == (ca + pi - cb) * big + (-big) * pi) by (nonlinear_arith);
        lemma_mod_multiples_vanish(-big, (ca + pi - cb) * big, pi);
        lemma_mod_twice(ca + pi - cb, pi);
        lemma_mul_cong(ca + pi - cb, w, big, big, pi);
        lemma_small_mod(x, p);
    }
    assert(((w as nat) * r_mod()) % p == x % p);
    lemma_canonical_of::<C>(x, w as nat);
}

/// Negation of a reduced representation is negation modulo `p`.
pub proof fn lemma_neg<C: PrimeFieldConfig>(a: nat)
    requires
        field_ok::<C>(),
        a < modulus_of::<C>(),
    ensures
        fe_neg::<C>(a) < modulus_of::<C>(),
        fe_canonical::<C>(fe_neg::<C>(a)) == (modulus_of::<C>() - fe_canonical::<C>(a)) % (
        modulus_of::<C>() as int),
{
    let p = modulus_of::<C>();
    let pi = p as int;
    lemma_pow2_pos(1024);
    lemma_limbs_val_bound(C::MODULUS@);
    lemma_sub::<C>(0, a);
    lemma_canonical::<C>(0);
    lemma_small_mod(0, p);
    assert(fe_canonical::<C>(0) == 0) by {
        lemma_canonical_of::<C>(0, 0);
    }
    if a == 0 {
        lemma_mod_self_0(pi);
    } else {
        lemma_small_mod((p - a) as nat, p);
        lemma_fundamental_div_mod_converse((p + r_mod() - a) as int, r_mod() as int, 1, p - a);
        lemma_fundamental_div_mod_converse((0 + r_mod() - a + p) as int, r_mod() as int, 1, p - a);
    }
}

/// The identities of the field on reduced representations: `a * 0 = 0`,
/// `a * 1 = a`, `a + 0 = a`, `a - a = 0` and `-(-a) = a`.
pub proof fn lemma_field_identities<C: PrimeFieldConfig>(a: nat)
    requires
        field_ok::<C>(),
        a < modulus_of::<C>(),
    ensures
        fe_mul::<C>(a, 0) == 0,
        fe_mul::<C>(a, fe_one::<C>()) == a,
        fe_add::<C>(a, 0) == a,
        fe_sub::<C>(a, a) == 0,
        fe_neg::<C>(fe_neg::<C>(a)) == a,
{
    let p = modulus_of::<C>();
    lemma_limbs_val_bound(C::MODULUS@);
    lemma_pow2_pos(1024);
    // a * 0
    lemma_mul::<C>(a, 0);
    lemma_canonical_of::<C>(0, 0);
    lemma_small_mod(0, p);
    assert(fe_canonical::<C>(a) * 0 == 0) by (nonlinear_arith);
    lemma_canonical_injective::<C>(fe_mul::<C>(a, 0), 0);
    // a * 1
    lemma_one::<C>();
    lemma_mul::<C>(a, fe_one::<C>());
    lemma_canonical::<C>(a);
    lemma_small_mod(fe_canonical::<C>(a), p);
    lemma_canonical_injective::<C>(fe_mul::<C>(a, fe_one::<C>()), a);
    // a + 0
    lemma_add::<C>(a, 0);
    lemma_small_mod(a, p);
    // a - a
    lemma_sub::<C>(a, a);
    lemma_mod_self_0(p as int);
    // -(-a)
    lemma_neg::<C>(a);
    if a != 0 {
        lemma_fundamental_div_mod_converse((p + r_mod() - a) as int, r_mod() as int, 1,
            (p - a) as int);
        lemma_fundamental_div_mod_converse((p + r_mod() - (p - a)) as int, r_mod() as int, 1,
            a as int);
    }
}

/// Square-and-multiply computes the power modulo `p`.
pub proof fn lemma_pow<C: PrimeFieldConfig>(a: nat, e: nat)
    requires
        field_ok::<C>(),
        a < modulus_of::<C>(),
    ensures
        fe_pow::<C>(a, e) < modulus_of::<C>(),
        fe_canonical::<C>(fe_pow::<C>(a, e)) == pow(fe_canonical::<C>(a) as int, e % pow2(1024))
            % (modulus_of::<C>() as int),
{
    lemma_pow_state::<C>(a, e, 1024);
}

/// After `k` exponent bits, the result stands for `a^(e mod 2^k)` and the base for `a^(2^k)`.
pub proof fn lemma_pow_state<C: PrimeFieldConfig>(a: nat, e: nat, k: nat)
    requires
        field_ok::<C>(),
        a < modulus_of::<C>(),
    ensures
        fe_pow_state::<C>(a, e, k).0 < modulus_of::<C>(),
        fe_pow_state::<C>(a, e, k).1 < modulus_of::<C>(),
        fe_canonical::<C>(fe_pow_state::<C>(a, e, k).0) == pow(fe_canonical::<C>(a) as int, e % pow2(k))
            % (modulus_of::<C>() as int),
        fe_canonical::<C>(fe_pow_state::<C>(a, e, k).1) == pow(fe_canonical::<C>(a) as int, pow2(k))
            % (modulus_of::<C>() as int),
    decreases k,
{
    let p = modulus_of::<C>();
    let pi = p as int;
    let ca = fe_canonical::<C>(a) as int;
    lemma_pow2_pos(k);
    if k == 0 {
        lemma_one::<C>();
        vstd::arithmetic::power2::lemma2_to64();
        lemma_small_mod(e % 1, 1);
        assert(e % pow2(0) == 0);
        vstd::arithmetic::power::lemma_pow0(ca);
        vstd::arithmetic::power::lemma_pow1(ca);
        lemma_small_mod(1, p);
        lemma_limbs_val_bound(C::MODULUS@);
        lemma_canonical::<C>(a);
        lemma_small_mod(ca as nat, p);
    } else {
        let k1 = (k - 1) as nat;
        lemma_pow_state::<C>(a, e, k1);
        let prev = fe_pow_state::<C>(a, e, k1);
        lemma_mul::<C>(prev.1, prev.1);
        lemma_mul::<C>(prev.0, prev.1);
        lemma_limbs_val_bound(C::MODULUS@);
        lemma_canonical::<C>(a);
        // base: a^(2^(k-1)) squared
        lemma_pow2_adds(k1, 1);
        vstd::arithmetic::power2::lemma2_to64();
        let b1 = pow(ca, pow2(k1));
        vstd::arithmetic::power::lemma_pow_adds(ca, pow2(k1), pow2(k1));
        assert(pow2(k) == pow2(k1) + pow2(k1)) by {
            assert(pow2(k1 + 1) == pow2(k1) * 2);
        }
        lemma_mul_mod_noop(b1, b1, pi);
        // result: e mod 2^k == e mod 2^(k-1) + bit * 2^(k-1)
        let ek1 = e % pow2(k1);
        lemma_breakdown(e as int, pow2(k1) as int, 2);
        assert(e % pow2(k) == ek1 + pow2(k1) * ((e / pow2(k1)) % 2)) by {
            assert(pow2(k) == pow2(k1) * 2);
        }
        let r1 = pow(ca, ek1);
        if nat_bit(e, k1) {
            assert(pow2(k1) * ((e / pow2(k1)) % 2) == pow2(k1));
            assert(e % pow2(k) == ek1 + pow2(k1));
            vstd::arithmetic::power::lemma_pow_adds(ca, ek1, pow2(k1));
            lemma_mul_mod_noop(r1, b1, pi);
        } else {
            lemma_mod_bound((e / pow2(k1)) as int, 2);
            assert((e / pow2(k1)) % 2 == 0);
            assert(pow2(k1) * ((e / pow2(k1)) % 2) == 0);
            assert(e % pow2(k) == ek1);
        }
    }
}


/// Encoding an element to its integer and building the element back gives it again.
pub proof fn lemma_from_canonical<C: PrimeFieldConfig>(a: nat)
    requires
        field_ok::<C>(),
        a < modulus_of::<C>(),
    ensures
        fe_from_int::<C>(fe_canonical::<C>(a)) == a,
{
    let p = modulus_of::<C>();
    lemma_limbs_val_bound(C::MODULUS@);
    lemma_canonical::<C>(a);
    let c = fe_canonical::<C>(a);
    lemma_from_int::<C>(c);
    lemma_small_mod(c, p);
    lemma_canonical_injective::<C>(fe_from_int::<C>(c), a);
}

/// Once the exponent's remaining bits are zero, the result of square-and-multiply stays put.
pub proof fn lemma_pow_state_stable<C: PrimeFieldConfig>(a: nat, e: nat, k: nat, n: nat)
    requires
        k <= n,
        e < pow2(k),
    ensures
        fe_pow_state::<C>(a, e, n).0 == fe_pow_state::<C>(a, e, k).0,
    decreases n - k,
{
    if n > k {
        lemma_pow_state_stable::<C>(a, e, k, (n - 1) as nat);
        lemma_pow2_pos((n - 1) as nat);
        if k < n - 1 {
            lemma_pow2_strictly_increases(k, (n - 1) as nat);
        }
        vstd::arithmetic::div_mod::lemma_basic_div(e as int, pow2((n - 1) as nat) as int);
        assert(!nat_bit(e, (n - 1) as nat));
    }
}

impl<C: PrimeFieldConfig> AddSpecImpl for PrimeFieldElement<C> {
    open spec fn obeys_add_spec() -> bool {
        false
    }

    open spec fn add_req(self, rhs: Self) -> bool {
        true
    }

    open spec fn add_spec(self, rhs: Self) -> Self {
        arbitrary()
    }
}

impl<C: PrimeFieldConfig> Add for PrimeFieldElement<C> {
    type Output = Self;

    fn add(self, rhs: Self) -> (r: Self)
        ensures
            r.raw() == fe_add::<C>(self.raw(), rhs.raw()),
    {
        let m = U1024(C::MODULUS);
        let (sum, carry) = self.value.carrying_add(&rhs.value);
        let (sub_res, borrow) = sum.borrowing_sub(&m);
        let use_sub: u8 = if carry || !borrow { 1 } else { 0 };
        proof {
            lemma_limbs_val_bound(sum.0@);
            lemma_limbs_val_bound(sub_res.0@);
            lemma_limbs_val_bound(m.0@);
            let c = if carry { 1int } else { 0int };
            vstd::arithmetic::div_mod::lemma_fundamental_div_mod_converse(
                (self.raw() + rhs.raw()) as int, r_mod() as int, c, sum.val() as int);
            let b = if borrow { 1int } else { 0int };
            vstd::arithmetic::div_mod::lemma_fundamental_div_mod_converse(
                sum.val() + r_mod() - m.val(), r_mod() as int, 1 - b, sub_res.val() as int);
        }
        Self { value: U1024::conditional_select(&sum, &sub_res, use_sub), _config: PhantomData }
    }
}

impl<C: PrimeFieldConfig> SubSpecImpl for PrimeFieldElement<C> {
    open spec fn obeys_sub_spec() -> bool {
        false
    }

    open spec fn sub_req(self, rhs: Self) -> bool {
        true
    }

    open spec fn sub_spec(self, rhs: Self) -> Self {
        arbitrary()
    }
}

impl<C: PrimeFieldConfig> Sub for PrimeFieldElement<C> {
    type Output = Self;

    fn sub(self, rhs: Self) -> (r: Self)
        ensures
            r.raw() == fe_sub::<C>(self.raw(), rhs.raw()),
    {
        let m = U1024(C::MODULUS);
        let (diff, borrow) = self.value.borrowing_sub(&rhs.value);
        let (corr, _) = diff.carrying_add(&m);
        let b: u8 = if borrow { 1 } else { 0 };
        proof {
            self.lemma_raw_bound();
            rhs.lemma_raw_bound();
            lemma_limbs_val_bound(diff.0@);
            lemma_limbs_val_bound(corr.0@);
            lemma_limbs_val_bound(m.0@);
            if borrow {
                vstd::arithmetic::div_mod::lemma_fundamental_div_mod_converse(
                    (diff.val() + m.val()) as int, r_mod() as int,
                    if diff.val() + m.val() >= r_mod() { 1int } else { 0int }, corr.val() as int);
            }
        }
        Self { value: U1024::conditional_select(&diff, &corr, b), _config: PhantomData }
    }
}

impl<C: PrimeFieldConfig> MulSpecImpl for PrimeFieldElement<C> {
    open spec fn obeys_mul_spec() -> bool {
        false
    }

    open spec fn mul_req(self, rhs: Self) -> bool {
        true
    }

    open spec fn mul_spec(self, rhs: Self) -> Self {
        arbitrary()
    }
}

impl<C: PrimeFieldConfig> Mul for PrimeFieldElement<C> {
    type Output = Self;

    fn mul(self, rhs: Self) -> (r: Self)
        ensures
            r.raw() == fe_mul::<C>(self.raw(), rhs.raw()),
    {
        let (lo, hi) = self.value.widening_mul(&rhs.value);
        let res = Self::reduce(&lo, &hi);
        Self { value: res, _config: PhantomData }
    }
}

impl<C: PrimeFieldConfig> NegSpecImpl for PrimeFieldElement<C> {
    open spec fn obeys_neg_spec() -> bool {
        false
    }

    open spec fn neg_req(self) -> bool {
        true
    }

    open spec fn neg_spec(self) -> Self {
        arbitrary()
    }
}

impl<C: PrimeFieldConfig> Neg for PrimeFieldElement<C> {
    type Output = Self;

    fn neg(self) -> (r: Self)
        ensures
            r.raw() == fe_neg::<C>(self.raw()),
    {
        if self.is_zero() {
            self
        } else {
            let (value, _) = Self::modulus().borrowing_sub(&self.value);
            proof {
                self.lemma_raw_bound();
                lemma_limbs_val_bound(value.0@);
                lemma_limbs_val_bound(C::MODULUS@);
                vstd::arithmetic::power2::lemma_pow2_pos(1024);
                if modulus_of::<C>() >= self.raw() {
                    vstd::arithmetic::div_mod::lemma_fundamental_div_mod_converse(
                        modulus_of::<C>() + r_mod() - self.raw(), r_mod() as int, 1, value.val() as int);
                } else {
                    vstd::arithmetic::div_mod::lemma_fundamental_div_mod_converse(
                        modulus_of::<C>() + r_mod() - self.raw(), r_mod() as int, 0, value.val() as int);
                }
            }
            Self { value, _config: PhantomData }
        }
    }
}

/// The integer that a representation stands for, as an `int`.
pub open spec fn fe_int<F: PrimeFieldConfig>(a: nat) -> int {
    fe_canonical::<F>(a) as int
}

/// A product of reduced representations is reduced and stands for the
/// product modulo `p`.
pub proof fn lemma_step_mul<F: PrimeFieldConfig>(a: nat, b: nat)
    requires
        field_ok::<F>(),
        a < modulus_of::<F>(),
        b < modulus_of::<F>(),
    ensures
        fe_mul::<F>(a, b) < modulus_of::<F>(),
        0 <= fe_int::<F>(fe_mul::<F>(a, b)) < modulus_of::<F>(),
        fe_int::<F>(fe_mul::<F>(a, b)) % (modulus_of::<F>() as int) == (fe_int::<F>(a) * fe_int::<F>(b)) % (
        modulus_of::<F>() as int),
{
    let m = modulus_of::<F>() as int;
    lemma_mul::<F>(a, b);
    lemma_mod_twice(fe_int::<F>(a) * fe_int::<F>(b), m);
}

/// A sum of reduced representations is reduced and stands for the sum modulo `p`.
pub proof fn lemma_step_add<F: PrimeFieldConfig>(a: nat, b: nat)
    requires
        field_ok::<F>(),
        a < modulus_of::<F>(),
        b < modulus_of::<F>(),
    ensures
        fe_add::<F>(a, b) < modulus_of::<F>(),
        0 <= fe_int::<F>(fe_add::<F>(a, b)) < modulus_of::<F>(),
        fe_int::<F>(fe_add::<F>(a, b)) % (modulus_of::<F>() as int) == (fe_int::<F>(a) + fe_int::<F>(b)) % (
        modulus_of::<F>() as int),
{
    let m = modulus_of::<F>() as int;
    lemma_add::<F>(a, b);
    lemma_mod_bound((a + b) as int, m);
    lemma_mod_bound(fe_int::<F>(a) + fe_int::<F>(b), m);
    lemma_mod_twice(fe_int::<F>(a) + fe_int::<F>(b), m);
}

/// A difference of reduced representations is reduced and stands for the
/// difference modulo `p`.
pub proof fn lemma_step_sub<F: PrimeFieldConfig>(a: nat, b: nat)
    requires
        field_ok::<F>(),
        a < modulus_of::<F>(),
        b < modulus_of::<F>(),
    ensures
        fe_sub::<F>(a, b) < modulus_of::<F>(),
        0 <= fe_int::<F>(fe_sub::<F>(a, b)) < modulus_of::<F>(),
        fe_int::<F>(fe_sub::<F>(a, b)) % (modulus_of::<F>() as int) == (fe_int::<F>(a) - fe_int::<F>(b)) % (
        modulus_of::<F>() as int),
{
    let m = modulus_of::<F>() as int;
    lemma_sub::<F>(a, b);
    lemma_mod_bound(a + m - b, m);
    let d = fe_int::<F>(a) + m - fe_int::<F>(b);
    lemma_mod_bound(d, m);
    lemma_mod_twice(d, m);
    assert(d == m * 1 + (fe_int::<F>(a) - fe_int::<F>(b)));
    lemma_mod_multiples_vanish(1, fe_int::<F>(a) - fe_int::<F>(b), m);
}

/// `new(k)` for `k <= 8` is reduced and stands for `k` modulo `p`.
pub proof fn lemma_step_int<F: PrimeFieldConfig>(k: nat)
    requires
        field_ok::<F>(),
        k <= 8,
    ensures
        fe_from_int::<F>(k) < modulus_of::<F>(),
        fe_int::<F>(fe_from_int::<F>(k)) % (modulus_of::<F>() as int) == (k as int) % (
        modulus_of::<F>() as int),
{
    let m = modulus_of::<F>() as int;
    lemma_pow2_pos(1024);
    vstd::arithmetic::power2::lemma2_to64();
    lemma_pow2_strictly_increases(4, 1024);
    lemma_from_int::<F>(k);
    lemma_mod_twice(k as int, m);
}

/// A reduced representation stands for 0 exactly when it is 0, and for a
/// value below `p`.
pub proof fn lemma_step_zero<F: PrimeFieldConfig>(a: nat)
    requires
        field_ok::<F>(),
        a < modulus_of::<F>(),
    ensures
        0 <= fe_int::<F>(a) < modulus_of::<F>(),
        (fe_int::<F>(a) == 0) == (a == 0),
{
    lemma_limbs_val_bound(F::MODULUS@);
    lemma_pow2_pos(1024);
    lemma_canonical::<F>(a);
    lemma_canonical_of::<F>(0, 0);
    lemma_canonical_injective::<F>(a, 0);
}

/// The inverse of a reduced nonzero representation is reduced and inverts it.
pub proof fn lemma_step_inv<F: PrimeFieldConfig>(a: nat)
    requires
        field_ok::<F>(),
        inverse_ok::<F>(),
        a < modulus_of::<F>(),
        a != 0,
    ensures
        fe_inv::<F>(a) < modulus_of::<F>(),
        0 <= fe_int::<F>(fe_inv::<F>(a)) < modulus_of::<F>(),
        (fe_int::<F>(a) * fe_int::<F>(fe_inv::<F>(a))) % (modulus_of::<F>() as int) == 1,
{
    let e = ((modulus_of::<F>() + r_mod() - 2) as nat) % r_mod();
    lemma_pow::<F>(a, e);
    lemma_step_zero::<F>(a);
    lemma_step_zero::<F>(fe_inv::<F>(a));
}

/// The inverse laws of the field, given inverses: a nonzero reduced `a`
/// times its inverse is one, and inverting twice gives `a` back; when
/// `p > 2` the inverse of zero is zero.
pub proof fn lemma_inverse_laws<C: PrimeFieldConfig>(a: nat)
    requires
        field_ok::<C>(),
        inverse_ok::<C>(),
        a < modulus_of::<C>(),
    ensures
        a != 0 ==> fe_mul::<C>(a, fe_inv::<C>(a)) == fe_one::<C>(),
        a != 0 ==> fe_inv::<C>(fe_inv::<C>(a)) == a,
        a == 0 && modulus_of::<C>() > 2 ==> fe_inv::<C>(a) == 0,
{
    let p = modulus_of::<C>();
    let pi = p as int;
    let e = ((p + r_mod() - 2) as nat) % r_mod();
    lemma_limbs_val_bound(C::MODULUS@);
    lemma_pow2_pos(1024);
    if a != 0 {
        lemma_step_inv::<C>(a);
        let b = fe_inv::<C>(a);
        lemma_step_zero::<C>(a);
        lemma_step_zero::<C>(b);
        // b is nonzero: a b = 1 (mod p)
        if b == 0 {
            assert(fe_int::<C>(a) * fe_int::<C>(b) == 0) by (nonlinear_arith)
                requires fe_int::<C>(b) == 0;
            lemma_small_mod(0, p);
        }
        lemma_step_inv::<C>(b);
        let c = fe_inv::<C>(b);
        lemma_step_zero::<C>(c);
        // a and c are both inverses of b
        assert(fe_int::<C>(b) * fe_int::<C>(a) == fe_int::<C>(a) * fe_int::<C>(b))
            by (nonlinear_arith);
        lemma_inverse_unique(fe_int::<C>(b), fe_int::<C>(a), fe_int::<C>(c), pi);
        lemma_canonical_injective::<C>(a, c);
        // a b is the representation of one
        lemma_mul::<C>(a, b);
        lemma_one::<C>();
        lemma_small_mod(1, p);
        lemma_canonical_injective::<C>(fe_mul::<C>(a, b), fe_one::<C>());
    } else if p > 2 {
        lemma_step_zero::<C>(0);
        lemma_mod_add_multiples_vanish(p - 2, r_mod() as int);
        lemma_small_mod((p - 2) as nat, r_mod());
        lemma_small_mod(e, pow2(1024));
        vstd::arithmetic::power::lemma0_pow(e);
        lemma_small_mod(0, p);
        lemma_pow::<C>(0, e);
        lemma_step_zero::<C>(fe_inv::<C>(0));
    }
}

} // verus!
