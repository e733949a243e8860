//! Points of short Weierstrass curves `y^2 = x^3 + a x + b` in affine coordinates.
use std::marker::PhantomData;
use core::ops::Neg;
use vstd::prelude::*;

use crate::ct::ct_select_u8;
use crate::arith::{lemma_add_cong, lemma_mul_cong, lemma_sub_cong};
use crate::prime_field::{
    fe_add, fe_canonical, fe_from_int, fe_inv, fe_mul, fe_neg, fe_sub, field_ok, inverse_ok,
    lemma_canonical_injective, lemma_mul, lemma_neg, lemma_no_zero_divisors, lemma_sub, modulus_of,
    PrimeFieldConfig, PrimeFieldElement,
};
use crate::u1024::{lemma_limbs_val_bound, limbs_val, nat_bit, r_mod, U1024};
use vstd::arithmetic::div_mod::{
    lemma_fundamental_div_mod, lemma_fundamental_div_mod_converse, lemma_mod_bound,
    lemma_mod_multiples_vanish, lemma_mod_self_0, lemma_mod_twice, lemma_small_mod,
};
use vstd::arithmetic::power2::{lemma_pow2_pos, lemma_pow2_strictly_increases, pow2};

verus! {

/// The parameters of a curve: its base and scalar fields, the coefficients `a`
/// and `b` and the generator's coordinates (in Montgomery form of the base
/// field), and the group order, as little-endian limbs.
pub trait SWCurveConfig: 'static + Copy + Clone + Eq + PartialEq + core::fmt::Debug {
    type BaseField: PrimeFieldConfig + core::fmt::Debug;

    type ScalarField: PrimeFieldConfig;

    const COEFF_A: [u64; 16];

    const COEFF_B: [u64; 16];

    const ORDER: [u64; 16];

    const GENERATOR_X: [u64; 16];

    const GENERATOR_Y: [u64; 16];

    /// The generator point, whose coordinates are `GENERATOR_X` and `GENERATOR_Y`.
    fn generator() -> (g: AffinePoint<Self>)
        ensures
            g.x.raw() == limbs_val(Self::GENERATOR_X@),
            g.y.raw() == limbs_val(Self::GENERATOR_Y@),
            !g.is_infinite,
    ;
}

/// `a * element`, with `a = 0` giving 0 without a multiplication.
pub fn mul_by_a<C: SWCurveConfig>(element: PrimeFieldElement<C::BaseField>) -> (r: PrimeFieldElement<C::BaseField>)
    ensures
        r.raw() == mul_by_a_spec::<C>(element.raw()),
{
    let a = PrimeFieldElement::<C::BaseField>::from_montgomery(U1024(C::COEFF_A));
    if a.is_zero() {
        PrimeFieldElement::<C::BaseField>::zero()
    } else {
        element * a
    }
}

/// `element + b`.
pub fn add_b<C: SWCurveConfig>(element: PrimeFieldElement<C::BaseField>) -> (r: PrimeFieldElement<C::BaseField>)
    ensures
        r.raw() == fe_add::<C::BaseField>(element.raw(), coeff_b::<C>()),
{
    element + PrimeFieldElement::<C::BaseField>::from_montgomery(U1024(C::COEFF_B))
}

/// The representation of `a`.
pub open spec fn coeff_a<C: SWCurveConfig>() -> nat {
    limbs_val(C::COEFF_A@)
}

/// The representation of `b`.
pub open spec fn coeff_b<C: SWCurveConfig>() -> nat {
    limbs_val(C::COEFF_B@)
}

/// The representation of the generator's `x`.
pub open spec fn coeff_gx<C: SWCurveConfig>() -> nat {
    limbs_val(C::GENERATOR_X@)
}

/// The representation of the generator's `y`.
pub open spec fn coeff_gy<C: SWCurveConfig>() -> nat {
    limbs_val(C::GENERATOR_Y@)
}

/// The group order.
pub open spec fn order_of<C: SWCurveConfig>() -> nat {
    limbs_val(C::ORDER@)
}

/// `a * e` on representations, 0 when `a` is 0.
pub open spec fn mul_by_a_spec<C: SWCurveConfig>(e: nat) -> nat {
    if coeff_a::<C>() == 0 {
        0
    } else {
        fe_mul::<C::BaseField>(e, coeff_a::<C>())
    }
}

/// A point as `(x, y, is_infinite)`, coordinates by their representations.
pub type PointView = (nat, nat, bool);

/// The point at infinity.
pub open spec fn inf_point() -> PointView {
    (0, 0, true)
}

/// Whether `y^2 = x^3 + a x + b` holds (the point at infinity is on the curve).
pub open spec fn on_curve<C: SWCurveConfig>(p: PointView) -> bool {
    p.2 || {
        let y2 = fe_mul::<C::BaseField>(p.1, p.1);
        let x3 = fe_mul::<C::BaseField>(fe_mul::<C::BaseField>(p.0, p.0), p.0);
        let ax = mul_by_a_spec::<C>(p.0);
        let rhs = fe_add::<C::BaseField>(fe_add::<C::BaseField>(x3, ax), coeff_b::<C>());
        y2 == rhs
    }
}

/// `-P`: `(x, -y)`; the point at infinity is its own negative.
pub open spec fn neg_spec<C: SWCurveConfig>(p: PointView) -> PointView {
    if p.2 {
        p
    } else {
        (p.0, fe_neg::<C::BaseField>(p.1), false)
    }
}

/// The tangent rule: `lambda = (3 x^2 + a) / (2 y)`, `x3 = lambda^2 - 2x`,
/// `y3 = lambda (x - x3) - y`.
pub open spec fn double_candidate<C: SWCurveConfig>(p: PointView) -> PointView {
    let three = fe_from_int::<C::BaseField>(3);
    let two = fe_from_int::<C::BaseField>(2);
    let num = fe_add::<C::BaseField>(
        fe_mul::<C::BaseField>(three, fe_mul::<C::BaseField>(p.0, p.0)),
        coeff_a::<C>(),
    );
    let den = fe_mul::<C::BaseField>(two, p.1);
    let lambda = fe_mul::<C::BaseField>(num, fe_inv::<C::BaseField>(den));
    let x3 = fe_sub::<C::BaseField>(
        fe_sub::<C::BaseField>(fe_mul::<C::BaseField>(lambda, lambda), p.0),
        p.0,
    );
    let y3 = fe_sub::<C::BaseField>(
        fe_mul::<C::BaseField>(lambda, fe_sub::<C::BaseField>(p.0, x3)),
        p.1,
    );
    (x3, y3, false)
}

/// `2P`: infinity for the point at infinity and for `y = 0`, else the tangent rule.
pub open spec fn double_spec<C: SWCurveConfig>(p: PointView) -> PointView {
    if p.2 || p.1 == 0 {
        inf_point()
    } else {
        double_candidate::<C>(p)
    }
}

/// Doubling lands on the curve, which [`AffinePoint::new`] demands of the result.
pub open spec fn double_defined<C: SWCurveConfig>(p: PointView) -> bool {
    p.2 || p.1 == 0 || on_curve::<C>(double_candidate::<C>(p))
}

/// The chord rule: `lambda = (y2 - y1) / (x2 - x1)`, `x3 = lambda^2 - x1 - x2`,
/// `y3 = lambda (x1 - x3) - y1`.
pub open spec fn add_candidate<C: SWCurveConfig>(p: PointView, q: PointView) -> PointView {
    let num = fe_sub::<C::BaseField>(q.1, p.1);
    let den = fe_sub::<C::BaseField>(q.0, p.0);
    let lambda = fe_mul::<C::BaseField>(num, fe_inv::<C::BaseField>(den));
    let x3 = fe_sub::<C::BaseField>(
        fe_sub::<C::BaseField>(fe_mul::<C::BaseField>(lambda, lambda), p.0),
        q.0,
    );
    let y3 = fe_sub::<C::BaseField>(
        fe_mul::<C::BaseField>(lambda, fe_sub::<C::BaseField>(p.0, x3)),
        p.1,
    );
    (x3, y3, false)
}

/// `P + Q`: the identity cases, `P + (-P) = O`, doubling for `P = Q`, else the chord rule.
pub open spec fn add_spec<C: SWCurveConfig>(p: PointView, q: PointView) -> PointView {
    if p.2 {
        q
    } else if q.2 {
        p
    } else if neg_spec::<C>(p) == q {
        inf_point()
    } else if p == q {
        double_spec::<C>(p)
    } else {
        add_candidate::<C>(p, q)
    }
}

/// The addition lands on the curve, which [`AffinePoint::new`] demands of the result.
pub open spec fn add_defined<C: SWCurveConfig>(p: PointView, q: PointView) -> bool {
    if p.2 || q.2 || neg_spec::<C>(p) == q {
        true
    } else if p == q {
        double_defined::<C>(p)
    } else {
        on_curve::<C>(add_candidate::<C>(p, q))
    }
}

/// One ladder step on bit `b`: swap when `b` is set, then `(r0, r1) := (2 r0, r0 + r1)`,
/// and swap back.
pub open spec fn ladder_step<C: SWCurveConfig>(r0: PointView, r1: PointView, b: bool) -> (
    PointView,
    PointView,
    bool,
) {
    let a = if b { r1 } else { r0 };
    let c = if b { r0 } else { r1 };
    let sum = add_spec::<C>(a, c);
    let dbl = double_spec::<C>(a);
    let ok = add_defined::<C>(a, c) && double_defined::<C>(a);
    if b {
        (sum, dbl, ok)
    } else {
        (dbl, sum, ok)
    }
}

/// The ladder `(r0, r1, every step defined)` after `s` steps over the scalar's bits
/// from bit 1023 down; step `s` treats bit `1024 - s`.
pub open spec fn ladder<C: SWCurveConfig>(p: PointView, k: nat, s: nat) -> (PointView, PointView, bool)
    decreases s,
{
    if s == 0 {
        (inf_point(), p, true)
    } else {
        let prev = ladder::<C>(p, k, (s - 1) as nat);
        let next = ladder_step::<C>(prev.0, prev.1, nat_bit(k, (1024 - s) as nat));
        (next.0, next.1, prev.2 && next.2)
    }
}

/// `k * P` by the ladder over all 1024 bits of `k`.
pub open spec fn mul_spec<C: SWCurveConfig>(p: PointView, k: nat) -> PointView {
    ladder::<C>(p, k, 1024).0
}

/// Every step of the ladder for `k * P` lands on the curve.
pub open spec fn mul_defined<C: SWCurveConfig>(p: PointView, k: nat) -> bool {
    ladder::<C>(p, k, 1024).2
}

/// A point in affine coordinates, or the point at infinity.
#[derive(Copy, Debug, PartialEq, Eq)]
pub struct AffinePoint<C: SWCurveConfig> {
    pub x: PrimeFieldElement<C::BaseField>,
    pub y: PrimeFieldElement<C::BaseField>,
    pub is_infinite: bool,
    pub _config: PhantomData<C>,
}

impl<C: SWCurveConfig> Clone for AffinePoint<C> {
    fn clone(&self) -> (r: Self)
        ensures
            r == *self,
    {
        *self
    }
}

impl<C: SWCurveConfig> View for AffinePoint<C> {
    type V = PointView;

    open spec fn view(&self) -> PointView {
        (self.x.raw(), self.y.raw(), self.is_infinite)
    }
}


impl<C: SWCurveConfig> AffinePoint<C> {
    /// The point `(x, y)`; it must lie on the curve.
    pub fn new(x: PrimeFieldElement<C::BaseField>, y: PrimeFieldElement<C::BaseField>) -> (r: Self)
        requires
            on_curve::<C>((x.raw(), y.raw(), false)),
        ensures
            r@ == (x.raw(), y.raw(), false),
    {
        Self { x, y, is_infinite: false, _config: PhantomData }
    }

    /// The point at infinity, with zero coordinates.
    pub fn infinite() -> (r: Self)
        ensures
            r@ == inf_point(),
    {
        let zero = PrimeFieldElement::<C::BaseField>::zero();
        Self { x: zero, y: zero, is_infinite: true, _config: PhantomData }
    }

    /// Whether the point satisfies the curve equation (the point at infinity does).
    pub fn is_on_curve(&self) -> (r: bool)
        ensures
            r == on_curve::<C>(self@),
    {
        if self.is_infinite {
            return true;
        }
        let y2 = self.y.square();
        let x3 = self.x.square() * self.x;
        let ax = mul_by_a::<C>(self.x);
        let rhs = add_b::<C>(x3 + ax);
        y2.equals(&rhs)
    }

    /// Whether two points are equal in every field.
    pub fn equals(&self, other: &Self) -> (r: bool)
        ensures
            r == (self@ == other@),
    {
        self.x.equals(&other.x) && self.y.equals(&other.y) && self.is_infinite == other.is_infinite
    }

    /// `-P`.
    pub fn neg(&self) -> (r: Self)
        ensures
            r@ == neg_spec::<C>(self@),
    {
        if self.is_infinite {
            return *self;
        }
        Self { x: self.x, y: self.y.neg(), is_infinite: false, _config: PhantomData }
    }

    /// `P + Q` by the chord-and-tangent rule.
    pub fn add(&self, rhs: &Self) -> (r: Self)
        requires
            add_defined::<C>(self@, rhs@),
        ensures
            r@ == add_spec::<C>(self@, rhs@),
    {
        if self.is_infinite {
            return *rhs;
        }
        if rhs.is_infinite {
            return *self;
        }
        if self.neg().equals(rhs) {
            return Self::infinite();
        }
        if self.equals(rhs) {
            return self.double();
        }
        let num = rhs.y - self.y;
        let den = rhs.x - self.x;
        let lambda = num * den.inv();
        let x3 = lambda.square() - self.x - rhs.x;
        let y3 = lambda * (self.x - x3) - self.y;
        Self::new(x3, y3)
    }

    /// `2P` by the tangent rule.
    pub fn double(&self) -> (r: Self)
        requires
            double_defined::<C>(self@),
        ensures
            r@ == double_spec::<C>(self@),
    {
        if self.is_infinite || self.y.is_zero() {
            return Self::infinite();
        }
        let three = PrimeFieldElement::<C::BaseField>::new(U1024::from_u64(3));
        let two = PrimeFieldElement::<C::BaseField>::new(U1024::from_u64(2));
        let a = PrimeFieldElement::<C::BaseField>::from_montgomery(U1024(C::COEFF_A));
        let num = three * self.x.square() + a;
        let den = two * self.y;
        let lambda = num * den.inv();
        let x3 = lambda.square() - self.x - self.x;
        let y3 = lambda * (self.x - x3) - self.y;
        Self::new(x3, y3)
    }

    /// Constant-time select: `b` when `choice` is 1, `a` when it is 0.
    pub fn conditional_select(a: &Self, b: &Self, choice: u8) -> (r: Self)
        requires
            choice <= 1,
        ensures
            r@ == (if choice == 1 { b@ } else { a@ }),
    {
        let a_inf: u8 = if a.is_infinite { 1 } else { 0 };
        let b_inf: u8 = if b.is_infinite { 1 } else { 0 };
        Self {
            x: PrimeFieldElement::conditional_select(&a.x, &b.x, choice),
            y: PrimeFieldElement::conditional_select(&a.y, &b.y, choice),
            is_infinite: ct_select_u8(a_inf, b_inf, choice) != 0,
            _config: PhantomData,
        }
    }

    /// Constant-time swap of `a` and `b` when `choice` is 1.
    pub fn conditional_swap(a: &mut Self, b: &mut Self, choice: u8)
        requires
            choice <= 1,
        ensures
            final(a)@ == (if choice == 1 { old(b)@ } else { old(a)@ }),
            final(b)@ == (if choice == 1 { old(a)@ } else { old(b)@ }),
    {
        let t = *a;
        *a = Self::conditional_select(a, b, choice);
        *b = Self::conditional_select(b, &t, choice);
    }

    /// `k * P` by the ladder over the bits of `k`, from the highest set bit down
    /// (the steps above it leave the ladder's state unchanged).
    pub fn mul(&self, scalar: &U1024) -> (r: Self)
        requires
            mul_defined::<C>(self@, scalar.val()),
        ensures
            r@ == mul_spec::<C>(self@, scalar.val()),
    {
        let mut r0 = Self::infinite();
        let mut r1 = *self;
        let mut i: usize = 1024;
        while i > 0 && !scalar.bit(i - 1)
            invariant
                i <= 1024,
                r0@ == inf_point(),
                r1@ == self@,
                forall|j: nat| i <= j < 1024 ==> !nat_bit(scalar.val(), j),
            decreases i,
        {
            i -= 1;
        }
        proof {
            lemma_ladder_leading_zeros::<C>(self@, scalar.val(), (1024 - i) as nat);
            lemma_ladder_defined_prefix::<C>(self@, scalar.val(), (1024 - i) as nat, 1024);
        }
        while i > 0
            invariant
                i <= 1024,
                ladder::<C>(self@, scalar.val(), (1024 - i) as nat).0 == r0@,
                ladder::<C>(self@, scalar.val(), (1024 - i) as nat).1 == r1@,
                forall|s: nat| (1024 - i) < s <= 1024 ==> #[trigger] ladder::<C>(self@, scalar.val(), s).2
                    ==> ladder::<C>(self@, scalar.val(), (s - 1) as nat).2,
                ladder::<C>(self@, scalar.val(), 1024).2,
            decreases i,
        {
            i -= 1;
            let bit: u8 = if scalar.bit(i) { 1 } else { 0 };
            proof {
                lemma_ladder_defined_prefix::<C>(self@, scalar.val(), (1024 - i) as nat, 1024);
                assert((1024 - (1024 - i)) as nat == i);
            }
            Self::conditional_swap(&mut r0, &mut r1, bit);
            r1 = r0.add(&r1);
            r0 = r0.double();
            Self::conditional_swap(&mut r0, &mut r1, bit);
        }
        r0
    }
}

/// Definedness of the ladder after `t` steps implies it after fewer steps.
pub proof fn lemma_ladder_defined_prefix<C: SWCurveConfig>(p: PointView, k: nat, s: nat, t: nat)
    requires
        s <= t,
        ladder::<C>(p, k, t).2,
    ensures
        ladder::<C>(p, k, s).2,
        ladder::<C>(p, k, s).2 && ladder_step::<C>(ladder::<C>(p, k, s).0, ladder::<C>(p, k, s).1, nat_bit(k, (1023 - s) as nat)).2 || s == t,
    decreases t - s,
{
    if s < t {
        lemma_ladder_defined_prefix::<C>(p, k, s + 1, t);
        assert((1024 - (s + 1)) as nat == (1023 - s) as nat);
    }
}

/// While the scalar's top bits are zero the ladder stays at `(O, P)`.
pub proof fn lemma_ladder_leading_zeros<C: SWCurveConfig>(p: PointView, k: nat, s: nat)
    requires
        s <= 1024,
        forall|j: nat| (1024 - s) <= j < 1024 ==> !nat_bit(k, j),
    ensures
        ladder::<C>(p, k, s).0 == inf_point(),
        ladder::<C>(p, k, s).1 == p,
        ladder::<C>(p, k, s).2,
    decreases s,
{
    if s > 0 {
        lemma_ladder_leading_zeros::<C>(p, k, (s - 1) as nat);
        assert(!nat_bit(k, (1024 - s) as nat));
    }
}


/// A point whose coordinates are reduced below the base field's modulus; the
/// point at infinity is written `(0, 0, true)`, as `infinite` makes it.
pub open spec fn reduced_point<C: SWCurveConfig>(p: PointView) -> bool {
    if p.2 {
        p.0 == 0 && p.1 == 0
    } else {
        p.0 < modulus_of::<C::BaseField>() && p.1 < modulus_of::<C::BaseField>()
    }
}

/// The base field is consistent and of odd characteristic.
pub open spec fn odd_field<C: SWCurveConfig>() -> bool {
    field_ok::<C::BaseField>() && modulus_of::<C::BaseField>() % 2 == 1
}

/// The point at infinity is the identity: `P + O = P` and `O + P = P`.
pub proof fn lemma_add_identity<C: SWCurveConfig>(p: PointView)
    requires
        reduced_point::<C>(p),
    ensures
        add_spec::<C>(p, inf_point()) == p,
        add_spec::<C>(inf_point(), p) == p,
        add_defined::<C>(p, inf_point()),
        add_defined::<C>(inf_point(), p),
{
}

/// A point plus its negative is the point at infinity: `P + (-P) = O`.
pub proof fn lemma_add_neg<C: SWCurveConfig>(p: PointView)
    requires
        reduced_point::<C>(p),
    ensures
        add_spec::<C>(p, neg_spec::<C>(p)) == inf_point(),
        add_defined::<C>(p, neg_spec::<C>(p)),
{
}

/// Negation is an involution: `-(-P) = P`.
pub proof fn lemma_neg_involutive<C: SWCurveConfig>(p: PointView)
    requires
        field_ok::<C::BaseField>(),
        reduced_point::<C>(p),
    ensures
        neg_spec::<C>(neg_spec::<C>(p)) == p,
        reduced_point::<C>(neg_spec::<C>(p)),
{
    if !p.2 {
        lemma_neg_value::<C>(p.1);
        if p.1 != 0 {
            lemma_neg_value::<C>(fe_neg::<C::BaseField>(p.1));
        }
    }
}

/// `fe_neg` of a reduced nonzero `y` is `p - y`, and 0 stays 0.
proof fn lemma_neg_value<C: SWCurveConfig>(y: nat)
    requires
        field_ok::<C::BaseField>(),
        y < modulus_of::<C::BaseField>(),
    ensures
        fe_neg::<C::BaseField>(y) == (if y == 0 { 0 } else { (modulus_of::<C::BaseField>() - y) as nat }),
{
    let p = modulus_of::<C::BaseField>();
    lemma_limbs_val_bound(<C::BaseField as PrimeFieldConfig>::MODULUS@);
    lemma_pow2_pos(1024);
    if y != 0 {
        lemma_fundamental_div_mod_converse((p + r_mod() - y) as int, r_mod() as int, 1, (p - y) as int);
    }
}

/// Adding a point to itself is doubling it: `P + P = 2P`, and the one is
/// defined exactly when the other is.
pub proof fn lemma_add_self<C: SWCurveConfig>(p: PointView)
    requires
        odd_field::<C>(),
        reduced_point::<C>(p),
    ensures
        add_spec::<C>(p, p) == double_spec::<C>(p),
        add_defined::<C>(p, p) == double_defined::<C>(p),
{
    if !p.2 {
        lemma_neg_value::<C>(p.1);
    }
}

/// The negative of a point on the curve lies on the curve.
pub proof fn lemma_neg_on_curve<C: SWCurveConfig>(p: PointView)
    requires
        field_ok::<C::BaseField>(),
        reduced_point::<C>(p),
        on_curve::<C>(p),
    ensures
        on_curve::<C>(neg_spec::<C>(p)),
{
    if !p.2 {
        let m = modulus_of::<C::BaseField>();
        let y = p.1;
        let n = fe_neg::<C::BaseField>(y);
        lemma_neg::<C::BaseField>(y);
        lemma_mul::<C::BaseField>(y, y);
        lemma_mul::<C::BaseField>(n, n);
        let cy = fe_canonical::<C::BaseField>(y);
        let cn = fe_canonical::<C::BaseField>(n);
        let mi = m as int;
        let ci = cy as int;
        assert(((cn * cn) as int) % mi == (ci * ci) % mi) by {
            lemma_small_mod(cn, m);
            assert(cn as int % mi == (mi - ci) % mi);
            lemma_mul_cong(cn as int, mi - ci, cn as int, mi - ci, mi);
            assert((mi - ci) * (mi - ci) == mi * (mi - 2 * ci) + ci * ci) by (nonlinear_arith);
            lemma_mod_multiples_vanish(mi - 2 * ci, ci * ci, mi);
        }
        lemma_mul::<C::BaseField>(y, y);
        lemma_canonical_injective::<C::BaseField>(
            fe_mul::<C::BaseField>(n, n),
            fe_mul::<C::BaseField>(y, y),
        );
    }
}

/// Bits of the small scalars 0, 1 and 2.
proof fn lemma_small_bits(j: nat)
    ensures
        !nat_bit(0, j),
        nat_bit(1, j) == (j == 0),
        nat_bit(2, j) == (j == 1),
{
    vstd::arithmetic::power2::lemma2_to64();
    lemma_pow2_pos(j);
    if j >= 2 {
        if j > 2 { lemma_pow2_strictly_increases(2, j); }
        vstd::arithmetic::div_mod::lemma_basic_div(1, pow2(j) as int);
        vstd::arithmetic::div_mod::lemma_basic_div(2, pow2(j) as int);
    } else if j == 1 {
        vstd::arithmetic::div_mod::lemma_basic_div(1, 2);
        assert(2int / 2 == 1);
    } else {
        assert(1int / 1 == 1);
        assert(2int / 1 == 2);
    }
    vstd::arithmetic::div_mod::lemma_basic_div(0, pow2(j) as int);
}

/// The ladder on the scalars 0, 1 and 2: `0 P = O`, `1 P = P`, `2 P = 2P`.
pub proof fn lemma_mul_small<C: SWCurveConfig>(p: PointView)
    requires
        reduced_point::<C>(p),
    ensures
        mul_spec::<C>(p, 0) == inf_point(),
        mul_spec::<C>(p, 1) == p,
        mul_spec::<C>(p, 2) == double_spec::<C>(p),
{
    assert forall|j: nat| 0 <= j < 1024 implies !nat_bit(0, j) by {
        lemma_small_bits(j);
    }
    lemma_ladder_leading_zeros::<C>(p, 0, 1024);
    assert forall|j: nat| 1 <= j < 1024 implies !nat_bit(1, j) by {
        lemma_small_bits(j);
    }
    lemma_ladder_leading_zeros::<C>(p, 1, 1023);
    lemma_small_bits(0);
    assert(ladder::<C>(p, 1, 1024).0 == add_spec::<C>(p, inf_point()));
    lemma_add_identity::<C>(p);
    assert forall|j: nat| 2 <= j < 1024 implies !nat_bit(2, j) by {
        lemma_small_bits(j);
    }
    lemma_ladder_leading_zeros::<C>(p, 2, 1022);
    lemma_small_bits(1);
    assert(ladder::<C>(p, 2, 1023).0 == p);
    assert(ladder::<C>(p, 2, 1024).0 == double_spec::<C>(p));
}


/// A reduced point on the curve.
pub open spec fn curve_point<C: SWCurveConfig>(p: PointView) -> bool {
    reduced_point::<C>(p) && on_curve::<C>(p)
}

/// The chord rule never leaves the curve: adding reduced points on it gives
/// a reduced point on it, as [`AffinePoint::new`] demands of every sum. This
/// holds over a base field of odd characteristic with inverses
/// (`curve_closure::lemma_group_closed`).
pub open spec fn group_closed<C: SWCurveConfig>() -> bool {
    forall|p: PointView, q: PointView|
        #![trigger add_spec::<C>(p, q)]
        curve_point::<C>(p) && curve_point::<C>(q) ==> add_defined::<C>(p, q)
            && curve_point::<C>(add_spec::<C>(p, q))
}

/// The tangent rule never leaves the curve: doubling a reduced point on it
/// gives a reduced point on it (`curve_closure::lemma_group_closed` again).
pub open spec fn double_closed<C: SWCurveConfig>() -> bool {
    forall|p: PointView|
        #![trigger double_spec::<C>(p)]
        curve_point::<C>(p) ==> double_defined::<C>(p) && curve_point::<C>(double_spec::<C>(p))
}

/// The generator `G` as a point.
pub open spec fn generator_point<C: SWCurveConfig>() -> PointView {
    (coeff_gx::<C>(), coeff_gy::<C>(), false)
}

/// The generator is a reduced point on the curve.
pub open spec fn generator_ok<C: SWCurveConfig>() -> bool {
    curve_point::<C>(generator_point::<C>())
}

/// What the signature schemes need of a curve: the group law stays on the
/// curve, the generator lies on it, and the group order is not 0.
pub open spec fn curve_ok<C: SWCurveConfig>() -> bool {
    group_closed::<C>() && double_closed::<C>() && generator_ok::<C>() && order_of::<C>() != 0
}

/// When the group law never leaves the curve, adding two of its points is defined
/// and gives a point on it.
pub proof fn lemma_add_closed<C: SWCurveConfig>(p: PointView, q: PointView)
    requires
        group_closed::<C>(),
        curve_point::<C>(p),
        curve_point::<C>(q),
    ensures
        add_defined::<C>(p, q),
        curve_point::<C>(add_spec::<C>(p, q)),
{
    let sum = add_spec::<C>(p, q);
    assert(add_defined::<C>(p, q));
}

/// When the group law never leaves the curve, the ladder is defined for every
/// scalar and `k P` is a reduced point on the curve.
pub proof fn lemma_mul_closed<C: SWCurveConfig>(p: PointView, k: nat)
    requires
        group_closed::<C>(),
        double_closed::<C>(),
        curve_point::<C>(p),
    ensures
        mul_defined::<C>(p, k),
        curve_point::<C>(mul_spec::<C>(p, k)),
{
    lemma_ladder_closed::<C>(p, k, 1024);
}

/// Every prefix of the ladder stays on the curve.
proof fn lemma_ladder_closed<C: SWCurveConfig>(p: PointView, k: nat, s: nat)
    requires
        group_closed::<C>(),
        double_closed::<C>(),
        curve_point::<C>(p),
    ensures
        ladder::<C>(p, k, s).2,
        curve_point::<C>(ladder::<C>(p, k, s).0),
        curve_point::<C>(ladder::<C>(p, k, s).1),
    decreases s,
{
    if s > 0 {
        lemma_ladder_closed::<C>(p, k, (s - 1) as nat);
        let prev = ladder::<C>(p, k, (s - 1) as nat);
        let b = nat_bit(k, (1024 - s) as nat);
        let a = if b { prev.1 } else { prev.0 };
        let c = if b { prev.0 } else { prev.1 };
        assert(curve_point::<C>(a) && curve_point::<C>(c));
        assert(group_closed::<C>());
        assert(double_closed::<C>());
        let sum = add_spec::<C>(a, c);
        assert(add_defined::<C>(a, c));
        assert(curve_point::<C>(sum));
        let dbl = double_spec::<C>(a);
        assert(double_defined::<C>(a));
        assert(curve_point::<C>(dbl));
    }
}


/// The group facts of the multiples of `G` that the signature schemes rest on,
/// for scalars below 2^1024, with `n` the group order: `k G` depends only on
/// `k mod n` and is the point at infinity exactly when `n` divides `k`;
/// `a G + b G = (a + b) G`; `b (a G) = (a b) G`. They hold when the
/// chord-and-tangent rules form the group of a curve over a prime field and
/// `G` has order `n`; they are not proved here.
#[verifier::opaque]
pub open spec fn generator_homomorphic<C: SWCurveConfig>() -> bool {
    let g = generator_point::<C>();
    let n = order_of::<C>();
    forall|a: nat, b: nat|
        a < r_mod() && b < r_mod() ==> {
            &&& #[trigger] mul_spec::<C>(g, a) == mul_spec::<C>(g, a % n)
            &&& (mul_spec::<C>(g, a).2 <==> a % n == 0)
            &&& add_spec::<C>(mul_spec::<C>(g, a), mul_spec::<C>(g, b)) == mul_spec::<C>(
                g,
                (a + b) % n,
            )
            &&& #[trigger] mul_spec::<C>(mul_spec::<C>(g, a), b) == mul_spec::<C>(g, (a * b) % n)
        }
}

/// The facts of [`generator_homomorphic`] for two scalars.
pub proof fn lemma_generator_homomorphic<C: SWCurveConfig>(a: nat, b: nat)
    requires
        generator_homomorphic::<C>(),
        a < r_mod(),
        b < r_mod(),
    ensures
        mul_spec::<C>(generator_point::<C>(), a) == mul_spec::<C>(
            generator_point::<C>(),
            a % order_of::<C>(),
        ),
        mul_spec::<C>(generator_point::<C>(), a).2 <==> a % order_of::<C>() == 0,
        add_spec::<C>(
            mul_spec::<C>(generator_point::<C>(), a),
            mul_spec::<C>(generator_point::<C>(), b),
        ) == mul_spec::<C>(generator_point::<C>(), (a + b) % order_of::<C>()),
        mul_spec::<C>(mul_spec::<C>(generator_point::<C>(), a), b) == mul_spec::<C>(
            generator_point::<C>(),
            (a * b) % order_of::<C>(),
        ),
{
    reveal(generator_homomorphic);
    assert(mul_spec::<C>(mul_spec::<C>(generator_point::<C>(), a), b) == mul_spec::<C>(
        generator_point::<C>(),
        (a * b) % order_of::<C>(),
    ));
}

/// Multiples of `G` by scalars below the order `n` are distinct: `a G = b G`
/// exactly when `a = b`, given the group facts of [`generator_homomorphic`].
#[verifier::rlimit(60)]
pub proof fn lemma_generator_injective<C: SWCurveConfig>(a: nat, b: nat)
    requires
        generator_homomorphic::<C>(),
        a < order_of::<C>(),
        b < order_of::<C>(),
    ensures
        (mul_spec::<C>(generator_point::<C>(), a) == mul_spec::<C>(generator_point::<C>(), b)) == (
        a == b),
{
    let g = generator_point::<C>();
    let n = order_of::<C>();
    lemma_limbs_val_bound(C::ORDER@);
    lemma_pow2_pos(1024);
    if mul_spec::<C>(g, a) == mul_spec::<C>(g, b) && a != b {
        let c = (n - b) as nat;
        let x = (a + c) % n;
        assert(mul_spec::<C>(g, x).2) by {
            lemma_generator_homomorphic::<C>(a, c);
            lemma_generator_homomorphic::<C>(b, c);
            lemma_mod_self_0(n as int);
            assert((b + c) % n == 0);
            lemma_generator_homomorphic::<C>(0, 0);
            lemma_small_mod(0, n);
        }
        assert(x == 0) by {
            lemma_mod_bound((a + c) as int, n as int);
            lemma_generator_homomorphic::<C>(x, 0);
            lemma_small_mod(x, n);
        }
        // (a + n - b) mod n == 0 with -n < a - b < n forces a == b
        if a > b {
            lemma_fundamental_div_mod_converse((a + c) as int, n as int, 1, a - b);
        } else {
            lemma_small_mod((a + c) as nat, n);
        }
    }
}

/// Two points on the curve with the same `x` are equal or opposite (the
/// field's inverses rule out zero divisors).
pub proof fn lemma_same_x<C: SWCurveConfig>(p: PointView, q: PointView)
    requires
        field_ok::<C::BaseField>(),
        inverse_ok::<C::BaseField>(),
        curve_point::<C>(p),
        curve_point::<C>(q),
        !p.2,
        !q.2,
        p.0 == q.0,
    ensures
        q == p || q == neg_spec::<C>(p),
{
    let m = modulus_of::<C::BaseField>();
    let mi = m as int;
    lemma_limbs_val_bound(<C::BaseField as PrimeFieldConfig>::MODULUS@);
    lemma_mul::<C::BaseField>(p.1, p.1);
    lemma_mul::<C::BaseField>(q.1, q.1);
    crate::prime_field::lemma_canonical::<C::BaseField>(p.1);
    crate::prime_field::lemma_canonical::<C::BaseField>(q.1);
    let y1 = fe_canonical::<C::BaseField>(p.1) as int;
    let y2 = fe_canonical::<C::BaseField>(q.1) as int;
    // y1^2 == y2^2, so (y1 - y2)(y1 + y2) == 0 (mod m)
    assert((y1 * y1) % mi == (y2 * y2) % mi);
    let a = (y1 - y2) % mi;
    let b = (y1 + y2) % mi;
    lemma_mod_bound(y1 - y2, mi);
    lemma_mod_bound(y1 + y2, mi);
    lemma_mod_twice(y1 - y2, mi);
    lemma_mod_twice(y1 + y2, mi);
    lemma_mul_cong(a, y1 - y2, b, y1 + y2, mi);
    assert((y1 - y2) * (y1 + y2) == y1 * y1 - y2 * y2) by (nonlinear_arith);
    lemma_sub_cong(y1 * y1, y2 * y2, y2 * y2, y2 * y2, mi);
    lemma_mod_self_0(mi);
    assert((y2 * y2 - y2 * y2) == 0);
    lemma_small_mod(0, m);
    lemma_no_zero_divisors::<C::BaseField>(a, b);
    if a == 0 {
        // y1 == y2
        lemma_fundamental_div_mod(y1 - y2, mi);
        assert(y1 == y2) by {
            if y1 != y2 {
                assert(y1 - y2 == mi * ((y1 - y2) / mi));
                assert(-mi < y1 - y2 < mi);
                assert(false) by (nonlinear_arith)
                    requires
                        y1 - y2 == mi * ((y1 - y2) / mi),
                        -mi < y1 - y2 < mi,
                        y1 - y2 != 0,
                        mi > 0;
            }
        }
        lemma_canonical_injective::<C::BaseField>(p.1, q.1);
    } else {
        // y2 == -y1
        lemma_neg::<C::BaseField>(p.1);
        let n = fe_neg::<C::BaseField>(p.1);
        assert(fe_canonical::<C::BaseField>(n) as int == (mi - y1) % mi);
        lemma_fundamental_div_mod(y1 + y2, mi);
        assert(y2 == (mi - y1) % mi) by {
            if y1 == 0 {
                assert(y2 == 0) by {
                    lemma_small_mod(y2 as nat, m);
                }
                lemma_mod_self_0(mi);
            } else {
                assert(y1 + y2 == mi) by (nonlinear_arith)
                    requires
                        y1 + y2 == mi * ((y1 + y2) / mi),
                        0 < y1 + y2 < 2 * mi,
                        mi > 0;
                lemma_small_mod((mi - y1) as nat, m);
            }
        }
        lemma_canonical_injective::<C::BaseField>(n, q.1);
    }
}


/// `(a + m - b) mod m` is `a - b` modulo `m`.
proof fn lemma_wrapped_diff(a: int, b: int, m: int)
    requires
        m > 0,
    ensures
        ((a + m - b) % m) % m == (a - b) % m,
        (a + m - b) % m == (a - b) % m,
{
    assert(a + m - b == m * 1 + (a - b));
    lemma_mod_multiples_vanish(1, a - b, m);
    lemma_mod_twice(a + m - b, m);
}

/// Residues below `m` that agree modulo `m` are equal.
proof fn lemma_residues_equal(a: int, b: int, m: int)
    requires
        0 <= a < m,
        0 <= b < m,
        a % m == b % m,
    ensures
        a == b,
{
    lemma_small_mod(a as nat, m as nat);
    lemma_small_mod(b as nat, m as nat);
}

/// The chord rule does not depend on the order of the points: with inverses
/// in the field, `add_candidate(P, Q) = add_candidate(Q, P)` for reduced
/// points with different `x`.
pub proof fn lemma_add_candidate_commutative<C: SWCurveConfig>(p: PointView, q: PointView)
    requires
        field_ok::<C::BaseField>(),
        inverse_ok::<C::BaseField>(),
        reduced_point::<C>(p),
        reduced_point::<C>(q),
        !p.2,
        !q.2,
        p.0 != q.0,
    ensures
        add_candidate::<C>(p, q) == add_candidate::<C>(q, p),
{
    let mm = modulus_of::<C::BaseField>();
    let m = mm as int;
    lemma_limbs_val_bound(<C::BaseField as PrimeFieldConfig>::MODULUS@);
    crate::prime_field::lemma_canonical::<C::BaseField>(p.0);
    crate::prime_field::lemma_canonical::<C::BaseField>(p.1);
    crate::prime_field::lemma_canonical::<C::BaseField>(q.0);
    crate::prime_field::lemma_canonical::<C::BaseField>(q.1);
    let x1 = fe_canonical::<C::BaseField>(p.0) as int;
    let y1 = fe_canonical::<C::BaseField>(p.1) as int;
    let x2 = fe_canonical::<C::BaseField>(q.0) as int;
    let y2 = fe_canonical::<C::BaseField>(q.1) as int;
    lemma_canonical_injective::<C::BaseField>(p.0, q.0);
    assert(x1 != x2);
    // the slopes
    let num = fe_sub::<C::BaseField>(q.1, p.1);
    let den = fe_sub::<C::BaseField>(q.0, p.0);
    let num2 = fe_sub::<C::BaseField>(p.1, q.1);
    let den2 = fe_sub::<C::BaseField>(p.0, q.0);
    lemma_sub::<C::BaseField>(q.1, p.1);
    lemma_sub::<C::BaseField>(q.0, p.0);
    lemma_sub::<C::BaseField>(p.1, q.1);
    lemma_sub::<C::BaseField>(p.0, q.0);
    let n1 = fe_canonical::<C::BaseField>(num) as int;
    let d1 = fe_canonical::<C::BaseField>(den) as int;
    let n2 = fe_canonical::<C::BaseField>(num2) as int;
    let d2 = fe_canonical::<C::BaseField>(den2) as int;
    lemma_wrapped_diff(y2, y1, m);
    lemma_wrapped_diff(x2, x1, m);
    lemma_wrapped_diff(y1, y2, m);
    lemma_wrapped_diff(x1, x2, m);
    lemma_mod_bound(x2 + m - x1, m);
    lemma_mod_bound(x1 + m - x2, m);
    assert(d1 != 0) by {
        if x2 > x1 {
            lemma_small_mod((x2 - x1) as nat, mm);
        } else {
            lemma_small_mod((x2 + m - x1) as nat, mm);
        }
    }
    assert(d2 != 0) by {
        if x1 > x2 {
            lemma_small_mod((x1 - x2) as nat, mm);
        } else {
            lemma_small_mod((x1 + m - x2) as nat, mm);
        }
    }
    let e = ((mm + r_mod() - 2) as nat) % r_mod();
    let inv1 = fe_inv::<C::BaseField>(den);
    let inv2 = fe_inv::<C::BaseField>(den2);
    crate::prime_field::lemma_pow::<C::BaseField>(den, e);
    crate::prime_field::lemma_pow::<C::BaseField>(den2, e);
    let i1 = fe_canonical::<C::BaseField>(inv1) as int;
    let i2 = fe_canonical::<C::BaseField>(inv2) as int;
    crate::prime_field::lemma_canonical::<C::BaseField>(inv1);
    crate::prime_field::lemma_canonical::<C::BaseField>(inv2);
    assert((d1 * i1) % m == 1);
    assert((d2 * i2) % m == 1);
    // i2 == -i1
    let ni1 = (m - i1) % m;
    lemma_mod_bound(m - i1, m);
    assert((d2 * ni1) % m == 1) by {
        lemma_wrapped_diff(0, i1, m);
        lemma_mod_twice(d2, m);
        lemma_mul_cong(d2, x1 - x2, ni1, 0 - i1, m);
        assert((x1 - x2) * (0 - i1) == (x2 - x1) * i1) by (nonlinear_arith);
        lemma_mul_cong(x2 - x1, d1, i1, i1, m);
        lemma_mod_twice(d1, m);
    }
    crate::prime_field::lemma_inverse_unique(d2, i2, ni1, m);
    // the slopes agree
    let lam1 = fe_mul::<C::BaseField>(num, inv1);
    let lam2 = fe_mul::<C::BaseField>(num2, inv2);
    lemma_mul::<C::BaseField>(num, inv1);
    lemma_mul::<C::BaseField>(num2, inv2);
    let l1 = fe_canonical::<C::BaseField>(lam1) as int;
    let l2 = fe_canonical::<C::BaseField>(lam2) as int;
    assert(l1 % m == l2 % m) by {
        lemma_mod_twice(n1 * i1, m);
        lemma_mod_twice(n2 * i2, m);
        lemma_mod_twice(n1, m);
        lemma_mod_twice(n2, m);
        lemma_wrapped_diff(0, i1, m);
        lemma_mul_cong(n2, y1 - y2, i2, 0 - i1, m);
        assert((y1 - y2) * (0 - i1) == (y2 - y1) * i1) by (nonlinear_arith);
        lemma_mul_cong(y2 - y1, n1, i1, i1, m);
    }
    crate::prime_field::lemma_canonical::<C::BaseField>(lam1);
    crate::prime_field::lemma_canonical::<C::BaseField>(lam2);
    lemma_residues_equal(l1, l2, m);
    lemma_canonical_injective::<C::BaseField>(lam1, lam2);
    let lam = lam1;
    let l = l1;
    // x3 agrees
    let sq = fe_mul::<C::BaseField>(lam, lam);
    lemma_mul::<C::BaseField>(lam, lam);
    crate::prime_field::lemma_canonical::<C::BaseField>(sq);
    let s = fe_canonical::<C::BaseField>(sq) as int;
    let a1 = fe_sub::<C::BaseField>(sq, p.0);
    let a2 = fe_sub::<C::BaseField>(sq, q.0);
    lemma_sub::<C::BaseField>(sq, p.0);
    lemma_sub::<C::BaseField>(sq, q.0);
    let x3 = fe_sub::<C::BaseField>(a1, q.0);
    let x3b = fe_sub::<C::BaseField>(a2, p.0);
    lemma_sub::<C::BaseField>(a1, q.0);
    lemma_sub::<C::BaseField>(a2, p.0);
    let ca1 = fe_canonical::<C::BaseField>(a1) as int;
    let ca2 = fe_canonical::<C::BaseField>(a2) as int;
    let c3 = fe_canonical::<C::BaseField>(x3) as int;
    let c3b = fe_canonical::<C::BaseField>(x3b) as int;
    assert(c3 % m == c3b % m) by {
        lemma_wrapped_diff(s, x1, m);
        lemma_wrapped_diff(s, x2, m);
        lemma_wrapped_diff(ca1, x2, m);
        lemma_wrapped_diff(ca2, x1, m);
        lemma_mod_twice(c3, m);
        lemma_mod_twice(c3b, m);
        lemma_sub_cong(ca1, s - x1, x2, x2, m);
        lemma_sub_cong(ca2, s - x2, x1, x1, m);
        assert(s - x1 - x2 == s - x2 - x1);
    }
    crate::prime_field::lemma_canonical::<C::BaseField>(x3);
    crate::prime_field::lemma_canonical::<C::BaseField>(x3b);
    lemma_residues_equal(c3, c3b, m);
    lemma_canonical_injective::<C::BaseField>(x3, x3b);
    // y3 agrees
    let t1 = fe_sub::<C::BaseField>(p.0, x3);
    let t2 = fe_sub::<C::BaseField>(q.0, x3);
    lemma_sub::<C::BaseField>(p.0, x3);
    lemma_sub::<C::BaseField>(q.0, x3);
    let u1 = fe_mul::<C::BaseField>(lam, t1);
    let u2 = fe_mul::<C::BaseField>(lam, t2);
    lemma_mul::<C::BaseField>(lam, t1);
    lemma_mul::<C::BaseField>(lam, t2);
    let y3 = fe_sub::<C::BaseField>(u1, p.1);
    let y3b = fe_sub::<C::BaseField>(u2, q.1);
    lemma_sub::<C::BaseField>(u1, p.1);
    lemma_sub::<C::BaseField>(u2, q.1);
    let ct1 = fe_canonical::<C::BaseField>(t1) as int;
    let ct2 = fe_canonical::<C::BaseField>(t2) as int;
    let cu1 = fe_canonical::<C::BaseField>(u1) as int;
    let cu2 = fe_canonical::<C::BaseField>(u2) as int;
    let cy3 = fe_canonical::<C::BaseField>(y3) as int;
    let cy3b = fe_canonical::<C::BaseField>(y3b) as int;
    assert(cy3 % m == cy3b % m) by {
        lemma_wrapped_diff(x1, c3, m);
        lemma_wrapped_diff(x2, c3, m);
        lemma_wrapped_diff(cu1, y1, m);
        lemma_wrapped_diff(cu2, y2, m);
        lemma_mod_twice(l * ct1, m);
        lemma_mod_twice(l * ct2, m);
        lemma_mod_twice(ct1, m);
        lemma_mod_twice(ct2, m);
        // cu1 == l (x1 - x3), cu2 == l (x2 - x3)
        lemma_mul_cong(l, l, ct1, x1 - c3, m);
        lemma_mul_cong(l, l, ct2, x2 - c3, m);
        lemma_sub_cong(cu1, l * (x1 - c3), y1, y1, m);
        lemma_sub_cong(cu2, l * (x2 - c3), y2, y2, m);
        lemma_mod_twice(cy3, m);
        lemma_mod_twice(cy3b, m);
        // l (x1 - x2) == -(y2 - y1) (mod m)
        lemma_mod_twice(n1 * i1, m);
        lemma_mod_twice(n1, m);
        lemma_mul_cong(l, n1 * i1, x1 - x2, x1 - x2, m);
        lemma_mul_cong(n1, y2 - y1, i1, i1, m);
        lemma_mul_cong(n1 * i1, (y2 - y1) * i1, x1 - x2, x1 - x2, m);
        assert(((y2 - y1) * i1) * (x1 - x2) == 0 - (y2 - y1) * (i1 * (x2 - x1)))
            by (nonlinear_arith);
        lemma_mod_twice(d1, m);
        lemma_mul_cong(i1, i1, x2 - x1, d1, m);
        assert(i1 * d1 == d1 * i1) by (nonlinear_arith);
        lemma_small_mod(1, mm);
        lemma_mul_cong(y2 - y1, y2 - y1, i1 * (x2 - x1), 1, m);
        lemma_sub_cong(0, 0, (y2 - y1) * (i1 * (x2 - x1)), (y2 - y1) * 1, m);
        // so the two results differ by a multiple of m
        let e1 = l * (x1 - c3) - y1;
        let e2 = l * (x2 - c3) - y2;
        assert(e1 == e2 + (l * (x1 - x2) + (y2 - y1))) by (nonlinear_arith)
            requires
                e1 == l * (x1 - c3) - y1,
                e2 == l * (x2 - c3) - y2,
        ;
        lemma_add_cong(e2, e2, l * (x1 - x2), 0 - (y2 - y1) * 1, m);
        assert(e2 + (0 - (y2 - y1) * 1) == e2 - (y2 - y1));
        lemma_add_cong(e2 + l * (x1 - x2), e2 - (y2 - y1), y2 - y1, y2 - y1, m);
    }
    crate::prime_field::lemma_canonical::<C::BaseField>(y3);
    crate::prime_field::lemma_canonical::<C::BaseField>(y3b);
    lemma_residues_equal(cy3, cy3b, m);
    lemma_canonical_injective::<C::BaseField>(y3, y3b);
}


/// Point addition on the curve is commutative, `P + Q = Q + P`, given inverses
/// in the base field of odd characteristic.
pub proof fn lemma_add_commutative<C: SWCurveConfig>(p: PointView, q: PointView)
    requires
        odd_field::<C>(),
        inverse_ok::<C::BaseField>(),
        curve_point::<C>(p),
        curve_point::<C>(q),
    ensures
        add_spec::<C>(p, q) == add_spec::<C>(q, p),
        add_defined::<C>(p, q) == add_defined::<C>(q, p),
{
    if !p.2 && !q.2 {
        lemma_neg_involutive::<C>(p);
        lemma_neg_involutive::<C>(q);
        if neg_spec::<C>(p) != q && p != q {
            if p.0 == q.0 {
                lemma_same_x::<C>(p, q);
            }
            lemma_add_candidate_commutative::<C>(p, q);
        }
    }
}

/// The ladder on the scalar 3: `3 P = 2P + P`.
pub proof fn lemma_mul_three<C: SWCurveConfig>(p: PointView)
    requires
        reduced_point::<C>(p),
    ensures
        mul_spec::<C>(p, 3) == add_spec::<C>(double_spec::<C>(p), p),
{
    assert forall|j: nat| 2 <= j < 1024 implies !nat_bit(3, j) by {
        lemma_three_bits(j);
    }
    lemma_ladder_leading_zeros::<C>(p, 3, 1022);
    lemma_three_bits(1);
    lemma_three_bits(0);
    lemma_add_identity::<C>(p);
    assert(ladder::<C>(p, 3, 1023).0 == p);
    assert(ladder::<C>(p, 3, 1023).1 == double_spec::<C>(p));
}

/// Bits of 3.
proof fn lemma_three_bits(j: nat)
    ensures
        nat_bit(3, j) == (j < 2),
{
    vstd::arithmetic::power2::lemma2_to64();
    lemma_pow2_pos(j);
    if j >= 2 {
        if j > 2 {
            lemma_pow2_strictly_increases(2, j);
        }
        vstd::arithmetic::div_mod::lemma_basic_div(3, pow2(j) as int);
    } else if j == 1 {
        assert(3int / 2 == 1);
    } else {
        assert(3int / 1 == 3);
    }
}

/// Scalar multiplication by 3 is `P + 2P`, given inverses in the base field of
/// odd characteristic and a tangent rule that stays on the curve.
pub proof fn lemma_mul_three_is_p_plus_2p<C: SWCurveConfig>(p: PointView)
    requires
        odd_field::<C>(),
        inverse_ok::<C::BaseField>(),
        double_closed::<C>(),
        curve_point::<C>(p),
    ensures
        mul_spec::<C>(p, 3) == add_spec::<C>(p, double_spec::<C>(p)),
{
    lemma_mul_three::<C>(p);
    assert(curve_point::<C>(double_spec::<C>(p)));
    lemma_add_commutative::<C>(double_spec::<C>(p), p);
}

} // verus!
