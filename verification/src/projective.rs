//! Points in Jacobian coordinates `(X, Y, Z)`, standing for the affine point
//! `(X / Z^2, Y / Z^3)`; `Z = 0` is the point at infinity.
use std::marker::PhantomData;
use vstd::prelude::*;

use crate::affine::{
    inf_point, mul_by_a, mul_by_a_spec, on_curve, reduced_point, AffinePoint, PointView,
    SWCurveConfig,
};
use crate::prime_field::{
    fe_add, fe_canonical, fe_from_int, fe_inv, fe_mul, fe_one, fe_pow, fe_sub, field_ok,
    lemma_canonical_injective, lemma_mul, lemma_one, lemma_pow, modulus_of, PrimeFieldElement,
};
use crate::u1024::U1024;
use vstd::arithmetic::power::pow;

verus! {

/// A Jacobian point as the representations `(X, Y, Z)`.
pub type JacobianView = (nat, nat, nat);

/// The point at infinity `(1, 1, 0)`.
pub open spec fn jacobian_infinity<C: SWCurveConfig>() -> JacobianView {
    (fe_one::<C::BaseField>(), fe_one::<C::BaseField>(), 0)
}

/// `(x, y)` becomes `(x, y, 1)`; the point at infinity becomes `(1, 1, 0)`.
pub open spec fn from_affine_spec<C: SWCurveConfig>(p: PointView) -> JacobianView {
    if p.2 {
        jacobian_infinity::<C>()
    } else {
        (p.0, p.1, fe_one::<C::BaseField>())
    }
}

/// `(X / Z^2, Y / Z^3)` with the inverse of `Z` computed by [`fe_inv`].
pub open spec fn to_affine_candidate<C: SWCurveConfig>(q: JacobianView) -> PointView {
    let zi = fe_inv::<C::BaseField>(q.2);
    let zi2 = fe_mul::<C::BaseField>(zi, zi);
    let zi3 = fe_mul::<C::BaseField>(zi2, zi);
    (fe_mul::<C::BaseField>(q.0, zi2), fe_mul::<C::BaseField>(q.1, zi3), false)
}

/// The affine point that a Jacobian point stands for.
pub open spec fn to_affine_spec<C: SWCurveConfig>(q: JacobianView) -> PointView {
    if q.2 == 0 {
        inf_point()
    } else {
        to_affine_candidate::<C>(q)
    }
}

/// The affine point lands on the curve, which [`AffinePoint::new`] demands.
pub open spec fn to_affine_defined<C: SWCurveConfig>(q: JacobianView) -> bool {
    q.2 == 0 || on_curve::<C>(to_affine_candidate::<C>(q))
}

/// Doubling in Jacobian coordinates (`a = 0`-friendly formulas with the
/// `a Z^4` term); the point at infinity is left as it is.
pub open spec fn jacobian_double<C: SWCurveConfig>(q: JacobianView) -> JacobianView {
    if q.2 == 0 {
        q
    } else {
        let two = fe_from_int::<C::BaseField>(2);
        let three = fe_from_int::<C::BaseField>(3);
        let four = fe_from_int::<C::BaseField>(4);
        let eight = fe_from_int::<C::BaseField>(8);
        let a = fe_mul::<C::BaseField>(q.1, q.1);
        let b = fe_mul::<C::BaseField>(fe_mul::<C::BaseField>(four, q.0), a);
        let c = fe_mul::<C::BaseField>(eight, fe_mul::<C::BaseField>(a, a));
        let z2 = fe_mul::<C::BaseField>(q.2, q.2);
        let d = fe_add::<C::BaseField>(
            fe_mul::<C::BaseField>(three, fe_mul::<C::BaseField>(q.0, q.0)),
            mul_by_a_spec::<C>(fe_mul::<C::BaseField>(z2, z2)),
        );
        let x = fe_sub::<C::BaseField>(
            fe_mul::<C::BaseField>(d, d),
            fe_mul::<C::BaseField>(two, b),
        );
        let y = fe_sub::<C::BaseField>(
            fe_mul::<C::BaseField>(d, fe_sub::<C::BaseField>(b, x)),
            c,
        );
        let z = fe_mul::<C::BaseField>(fe_mul::<C::BaseField>(two, q.1), q.2);
        (x, y, z)
    }
}

/// Addition in Jacobian coordinates: the identity cases, doubling when the
/// points agree, the point at infinity when they are opposite, else the
/// general formulas.
pub open spec fn jacobian_add<C: SWCurveConfig>(p: JacobianView, q: JacobianView) -> JacobianView {
    if p.2 == 0 {
        q
    } else if q.2 == 0 {
        p
    } else {
        let pz2 = fe_mul::<C::BaseField>(p.2, p.2);
        let qz2 = fe_mul::<C::BaseField>(q.2, q.2);
        let u1 = fe_mul::<C::BaseField>(p.0, qz2);
        let u2 = fe_mul::<C::BaseField>(q.0, pz2);
        let s1 = fe_mul::<C::BaseField>(fe_mul::<C::BaseField>(p.1, qz2), q.2);
        let s2 = fe_mul::<C::BaseField>(fe_mul::<C::BaseField>(q.1, pz2), p.2);
        let h = fe_sub::<C::BaseField>(u2, u1);
        let r = fe_sub::<C::BaseField>(s2, s1);
        if h == 0 {
            if r == 0 {
                jacobian_double::<C>(p)
            } else {
                jacobian_infinity::<C>()
            }
        } else {
            let two = fe_from_int::<C::BaseField>(2);
            let h2 = fe_mul::<C::BaseField>(h, h);
            let h3 = fe_mul::<C::BaseField>(h2, h);
            let x = fe_sub::<C::BaseField>(
                fe_sub::<C::BaseField>(fe_mul::<C::BaseField>(r, r), h3),
                fe_mul::<C::BaseField>(fe_mul::<C::BaseField>(two, u1), h2),
            );
            let y = fe_sub::<C::BaseField>(
                fe_mul::<C::BaseField>(
                    r,
                    fe_sub::<C::BaseField>(fe_mul::<C::BaseField>(u1, h2), x),
                ),
                fe_mul::<C::BaseField>(s1, h3),
            );
            let z = fe_mul::<C::BaseField>(fe_mul::<C::BaseField>(h, p.2), q.2);
            (x, y, z)
        }
    }
}

/// A point in Jacobian coordinates.
#[derive(Copy)]
pub struct ProjectivePoint<C: SWCurveConfig> {
    x: PrimeFieldElement<C::BaseField>,
    y: PrimeFieldElement<C::BaseField>,
    z: PrimeFieldElement<C::BaseField>,
    _config: PhantomData<C>,
}

impl<C: SWCurveConfig> Clone for ProjectivePoint<C> {
    fn clone(&self) -> (r: Self)
        ensures
            r == *self,
    {
        *self
    }
}

impl<C: SWCurveConfig> View for ProjectivePoint<C> {
    type V = JacobianView;

    closed spec fn view(&self) -> JacobianView {
        (self.x.raw(), self.y.raw(), self.z.raw())
    }
}

impl<C: SWCurveConfig> ProjectivePoint<C> {
    /// The point `(x, y, 1)`, or the point at infinity.
    pub fn from_affine(value: &AffinePoint<C>) -> (r: Self)
        ensures
            r@ == from_affine_spec::<C>(value@),
    {
        if value.is_infinite {
            return Self::infinity();
        }
        Self {
            x: value.x,
            y: value.y,
            z: PrimeFieldElement::<C::BaseField>::one(),
            _config: PhantomData,
        }
    }

    /// The affine point `(X / Z^2, Y / Z^3)`, or the point at infinity when `Z = 0`.
    pub fn to_affine(&self) -> (r: AffinePoint<C>)
        requires
            to_affine_defined::<C>(self@),
        ensures
            r@ == to_affine_spec::<C>(self@),
    {
        if self.z.is_zero() {
            return AffinePoint::<C>::infinite();
        }
        let z_inv = self.z.inv();
        let z_inv_square = z_inv.square();
        let z_inv_cube = z_inv_square * z_inv;
        let x = self.x * z_inv_square;
        let y = self.y * z_inv_cube;
        AffinePoint::<C>::new(x, y)
    }

    /// The point at infinity `(1, 1, 0)`.
    pub fn infinity() -> (r: Self)
        ensures
            r@ == jacobian_infinity::<C>(),
    {
        Self {
            x: PrimeFieldElement::<C::BaseField>::one(),
            y: PrimeFieldElement::<C::BaseField>::one(),
            z: PrimeFieldElement::<C::BaseField>::zero(),
            _config: PhantomData,
        }
    }

    /// `2P` in Jacobian coordinates.
    pub fn double(&self) -> (r: Self)
        ensures
            r@ == jacobian_double::<C>(self@),
    {
        if self.z.is_zero() {
            return *self;
        }
        let two = PrimeFieldElement::<C::BaseField>::new(U1024::from_u64(2));
        let three = PrimeFieldElement::<C::BaseField>::new(U1024::from_u64(3));
        let four = PrimeFieldElement::<C::BaseField>::new(U1024::from_u64(4));
        let eight = PrimeFieldElement::<C::BaseField>::new(U1024::from_u64(8));

        let a = self.y.square();
        let b = four * self.x * a;
        let c = eight * a.square();
        let d = three * self.x.square() + mul_by_a::<C>(self.z.square().square());

        let x = d.square() - two * b;
        Self { x, y: d * (b - x) - c, z: two * self.y * self.z, _config: PhantomData }
    }

    /// `P + Q` in Jacobian coordinates.
    pub fn add(&self, rhs: &Self) -> (r: Self)
        ensures
            r@ == jacobian_add::<C>(self@, rhs@),
    {
        if self.z.is_zero() {
            return *rhs;
        }
        if rhs.z.is_zero() {
            return *self;
        }

        let u1 = self.x * rhs.z.square();
        let u2 = rhs.x * self.z.square();

        let s1 = self.y * rhs.z.square() * rhs.z;
        let s2 = rhs.y * self.z.square() * self.z;

        let h = u2 - u1;
        let r = s2 - s1;

        if h.is_zero() {
            if r.is_zero() {
                return self.double();
            } else {
                return Self::infinity();
            }
        }

        let h2 = h.square();
        let h3 = h2 * h;
        let two = PrimeFieldElement::<C::BaseField>::new(U1024::from_u64(2));

        let x = r.square() - h3 - two * u1 * h2;
        Self { x, y: r * (u1 * h2 - x) - s1 * h3, z: h * self.z * rhs.z, _config: PhantomData }
    }

    /// Constant-time select: `b` when `choice` is 1, `a` when it is 0.
    pub fn conditional_select(a: &Self, b: &Self, choice: u8) -> (r: Self)
        requires
            choice <= 1,
        ensures
            r@ == (if choice == 1 { b@ } else { a@ }),
    {
        Self {
            x: PrimeFieldElement::conditional_select(&a.x, &b.x, choice),
            y: PrimeFieldElement::conditional_select(&a.y, &b.y, choice),
            z: PrimeFieldElement::conditional_select(&a.z, &b.z, choice),
            _config: PhantomData,
        }
    }
}

/// The point at infinity stands for the affine point at infinity, and the
/// affine point at infinity maps to it.
pub proof fn lemma_infinity_round_trip<C: SWCurveConfig>()
    ensures
        to_affine_spec::<C>(jacobian_infinity::<C>()) == inf_point(),
        from_affine_spec::<C>(inf_point()) == jacobian_infinity::<C>(),
        to_affine_defined::<C>(jacobian_infinity::<C>()),
{
}

/// The point at infinity is the identity of Jacobian addition, and doubling
/// leaves it unchanged.
pub proof fn lemma_jacobian_identity<C: SWCurveConfig>(q: JacobianView)
    ensures
        jacobian_add::<C>(jacobian_infinity::<C>(), q) == q,
        q.2 != 0 ==> jacobian_add::<C>(q, jacobian_infinity::<C>()) == q,
        jacobian_double::<C>(jacobian_infinity::<C>()) == jacobian_infinity::<C>(),
{
}

/// `1` is its own inverse, and multiplying a reduced element by `1` leaves it.
proof fn lemma_one_facts<C: SWCurveConfig>(x: nat)
    requires
        field_ok::<C::BaseField>(),
        x < modulus_of::<C::BaseField>(),
    ensures
        fe_inv::<C::BaseField>(fe_one::<C::BaseField>()) == fe_one::<C::BaseField>(),
        fe_mul::<C::BaseField>(fe_one::<C::BaseField>(), fe_one::<C::BaseField>())
            == fe_one::<C::BaseField>(),
        fe_mul::<C::BaseField>(x, fe_one::<C::BaseField>()) == x,
{
    let one = fe_one::<C::BaseField>();
    let m = modulus_of::<C::BaseField>();
    lemma_one::<C::BaseField>();
    let e = ((m + crate::u1024::r_mod() - 2) as nat) % crate::u1024::r_mod();
    lemma_pow::<C::BaseField>(one, e);
    vstd::arithmetic::power::lemma1_pow((e % vstd::arithmetic::power2::pow2(1024)) as nat);
    vstd::arithmetic::div_mod::lemma_small_mod(1, m);
    assert(fe_canonical::<C::BaseField>(one) == 1);
    assert(pow(1, (e % vstd::arithmetic::power2::pow2(1024)) as nat) == 1);
    assert(fe_canonical::<C::BaseField>(fe_pow::<C::BaseField>(one, e)) == 1);
    lemma_canonical_injective::<C::BaseField>(fe_pow::<C::BaseField>(one, e), one);
    assert(fe_pow::<C::BaseField>(one, e) == one);
    assert(fe_inv::<C::BaseField>(one) == fe_pow::<C::BaseField>(one, e));
    lemma_mul::<C::BaseField>(one, one);
    lemma_canonical_injective::<C::BaseField>(fe_mul::<C::BaseField>(one, one), one);
    lemma_mul::<C::BaseField>(x, one);
    crate::u1024::lemma_limbs_val_bound(<C::BaseField as crate::prime_field::PrimeFieldConfig>::MODULUS@);
    crate::prime_field::lemma_canonical::<C::BaseField>(x);
    vstd::arithmetic::div_mod::lemma_small_mod(fe_canonical::<C::BaseField>(x), m);
    lemma_canonical_injective::<C::BaseField>(fe_mul::<C::BaseField>(x, one), x);
}

/// Converting a reduced affine point to Jacobian coordinates and back gives
/// the point again.
pub proof fn lemma_affine_round_trip<C: SWCurveConfig>(p: PointView)
    requires
        field_ok::<C::BaseField>(),
        reduced_point::<C>(p),
        on_curve::<C>(p),
    ensures
        to_affine_defined::<C>(from_affine_spec::<C>(p)),
        to_affine_spec::<C>(from_affine_spec::<C>(p)) == p,
{
    if !p.2 {
        lemma_one_facts::<C>(p.0);
        lemma_one_facts::<C>(p.1);
        lemma_one::<C::BaseField>();
    }
}

} // verus!
