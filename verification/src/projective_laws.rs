//! Jacobian arithmetic agrees with the affine group law: converting the result
//! of a Jacobian doubling or addition to affine coordinates gives the affine
//! double or sum of the points that the operands stand for.
use vstd::prelude::*;

use crate::affine::{
    add_spec, coeff_a, double_spec, mul_by_a_spec, odd_field, on_curve, SWCurveConfig,
};
use crate::arith::{
    lemma_add_cong, lemma_cube_prod, lemma_diff_zero, lemma_fourth_prod, lemma_mul_cong,
    lemma_sq_prod, lemma_sub_cong, lemma_swap4, lemma_unit_cancel,
};
use crate::prime_field::{
    fe_add, fe_from_int, fe_inv, fe_int, fe_mul, fe_sub, inverse_ok, lemma_canonical_injective,
    lemma_field_identities, lemma_no_zero_divisors, lemma_step_add, lemma_step_int,
    lemma_step_inv, lemma_step_mul, lemma_step_sub, lemma_step_zero, modulus_of,
};
use crate::projective::{jacobian_add, jacobian_double, to_affine_spec, JacobianView};
use vstd::arithmetic::div_mod::{lemma_mod_bound, lemma_mod_twice, lemma_small_mod};

verus! {

/// `ci = 2 cy cw (mod m)`: the inverse of `Z` is `2 Y` times the inverse of
/// `2 Y Z`.
proof fn lemma_half_inverse(ci: int, cy: int, cz: int, czj: int, cw: int, m: int)
    requires
        m > 1,
        (cz * ci) % m == 1,
        czj % m == (2 * cy * cz) % m,
        (czj * cw) % m == 1,
    ensures
        ci % m == (2 * cy * cw) % m,
{
    lemma_small_mod(1, m as nat);
    // ci == ci (czj cw) == ci ((2 cy cz) cw) == (cz ci) (2 cy cw) == 2 cy cw
    lemma_mul_cong(ci, ci, czj * cw, 1, m);
    lemma_mul_cong(czj, 2 * cy * cz, cw, cw, m);
    lemma_mul_cong(ci, ci, czj * cw, (2 * cy * cz) * cw, m);
    assert(ci * ((2 * cy * cz) * cw) == (cz * ci) * (2 * cy * cw)) by (nonlinear_arith);
    lemma_mul_cong(cz * ci, 1, 2 * cy * cw, 2 * cy * cw, m);
}

/// `(cz ci)^k = 1 (mod m)` for `k = 2, 3, 4`, when `cz ci = 1 (mod m)`.
proof fn lemma_unit_powers(cz: int, ci: int, m: int)
    requires
        m > 1,
        (cz * ci) % m == 1,
    ensures
        ((cz * ci) * (cz * ci)) % m == 1,
        (((cz * ci) * (cz * ci)) * (cz * ci)) % m == 1,
        ((((cz * ci) * (cz * ci)) * (cz * ci)) * (cz * ci)) % m == 1,
{
    let u = cz * ci;
    lemma_small_mod(1, m as nat);
    lemma_mul_cong(u, 1, u, 1, m);
    lemma_mul_cong(u * u, 1, u, 1, m);
    lemma_mul_cong((u * u) * u, 1, u, 1, m);
}

/// The inverse of `2 Y / Z^3` is `Z^4` times the inverse of `2 Y Z`.
proof fn lemma_slope_inverse(cden: int, cy: int, ci: int, ci3: int, cz: int, czj: int, cw: int, m: int)
    requires
        m > 1,
        (cz * ci) % m == 1,
        czj % m == (2 * cy * cz) % m,
        (czj * cw) % m == 1,
        ci3 % m == ((ci * ci) * ci) % m,
        cden % m == (2 * (cy * ci3)) % m,
    ensures
        (cden * ((cw * (((cz * cz) * cz) * cz)) % m)) % m == 1,
{
    let w4 = cw * (((cz * cz) * cz) * cz);
    let u = cz * ci;
    lemma_unit_powers(cz, ci, m);
    lemma_small_mod(1, m as nat);
    lemma_mod_twice(w4, m);
    // cden == 2 cy ci^3
    lemma_mul_cong(cy, cy, ci3, (ci * ci) * ci, m);
    lemma_mul_cong(2, 2, cy * ci3, cy * ((ci * ci) * ci), m);
    lemma_mul_cong(cden, 2 * (cy * ((ci * ci) * ci)), w4 % m, w4, m);
    // (2 cy ci^3)(cw cz^4) == ((2 cy cz) cw) (cz ci)^3
    assert((2 * (cy * ((ci * ci) * ci))) * w4 == ((2 * cy * cz) * cw) * ((u * u) * u)) by {
        let z3 = (cz * cz) * cz;
        let i3 = (ci * ci) * ci;
        lemma_cube_prod(cz, ci);
        assert(w4 == cw * (z3 * cz));
        assert((2 * (cy * i3)) * (cw * (z3 * cz)) == ((2 * cy * cz) * cw) * (z3 * i3))
            by (nonlinear_arith);
    }
    lemma_mul_cong(czj, 2 * cy * cz, cw, cw, m);
    lemma_mul_cong((2 * cy * cz) * cw, 1, (u * u) * u, 1, m);
}

/// The slope of the tangent at `(X / Z^2, Y / Z^3)` is `D` times the inverse
/// of `2 Y Z`, where `D = 3 X^2 + a Z^4`.
proof fn lemma_slope_value(
    cl: int,
    cnum: int,
    cvi: int,
    cpx: int,
    cx: int,
    ci: int,
    ca: int,
    cz: int,
    cw: int,
    m: int,
)
    requires
        m > 1,
        (cz * ci) % m == 1,
        cvi == (cw * (((cz * cz) * cz) * cz)) % m,
        cpx % m == (cx * (ci * ci)) % m,
        cnum % m == (3 * (cpx * cpx) + ca) % m,
        cl % m == (cnum * cvi) % m,
    ensures
        cl % m == ((3 * (cx * cx) + ca * (((cz * cz) * cz) * cz)) * cw) % m,
{
    let z4 = ((cz * cz) * cz) * cz;
    let u = cz * ci;
    let q = cx * (ci * ci);
    lemma_unit_powers(cz, ci, m);
    lemma_mod_twice(cw * z4, m);
    lemma_mul_cong(cpx, q, cpx, q, m);
    lemma_mul_cong(3, 3, cpx * cpx, q * q, m);
    lemma_add_cong(3 * (cpx * cpx), 3 * (q * q), ca, ca, m);
    lemma_mul_cong(cnum, 3 * (q * q) + ca, cvi, cw * z4, m);
    assert((3 * (q * q) + ca) * (cw * z4) == (3 * (cx * cx) * cw) * (((u * u) * u) * u) + (ca
        * z4) * cw) by {
        lemma_ring_affine_slope(q * q, ca, cw * z4);
        lemma_ring_slope_monomial(cx, ci, cz, cw);
        assert(ca * (cw * z4) == (ca * z4) * cw) by (nonlinear_arith);
    }
    lemma_small_mod(1, m as nat);
    lemma_mul_cong(3 * (cx * cx) * cw, 3 * (cx * cx) * cw, ((u * u) * u) * u, 1, m);
    lemma_add_cong(
        (3 * (cx * cx) * cw) * (((u * u) * u) * u),
        (3 * (cx * cx) * cw) * 1,
        (ca * z4) * cw,
        (ca * z4) * cw,
        m,
    );
    assert((3 * (cx * cx) * cw) * 1 + (ca * z4) * cw == (3 * (cx * cx) + ca * z4) * cw)
        by (nonlinear_arith);
}

/// The `x` of the doubled Jacobian point, divided by `Z'^2`, is the `x` of
/// the tangent rule: `(D^2 - 8 X Y^2) w^2 = (D w)^2 - 2 X / Z^2` when `2 Y w = 1 / Z`.
proof fn lemma_double_x_value(
    cxr: int,
    cxj: int,
    cw2: int,
    cdd: int,
    c2b: int,
    cb: int,
    c4x: int,
    caa: int,
    cd: int,
    cx: int,
    cy: int,
    cw: int,
    ci: int,
    cl: int,
    cx3: int,
    cs1: int,
    cll: int,
    cpx: int,
    czi2: int,
    m: int,
)
    requires
        m > 1,
        ci % m == (2 * cy * cw) % m,
        cl % m == (cd * cw) % m,
        cdd % m == (cd * cd) % m,
        c4x % m == (4 * cx) % m,
        caa % m == (cy * cy) % m,
        cb % m == (c4x * caa) % m,
        c2b % m == (2 * cb) % m,
        cxj % m == (cdd - c2b) % m,
        cw2 % m == (cw * cw) % m,
        cxr % m == (cxj * cw2) % m,
        cll % m == (cl * cl) % m,
        czi2 % m == (ci * ci) % m,
        cpx % m == (cx * czi2) % m,
        cs1 % m == (cll - cpx) % m,
        cx3 % m == (cs1 - cpx) % m,
    ensures
        cxr % m == cx3 % m,
{
    let t = 2 * cy * cw;
    // the Jacobian side: (D^2 - 2 (4 X) Y^2) w^2
    lemma_mul_cong(c4x, 4 * cx, caa, cy * cy, m);
    lemma_mul_cong(2, 2, cb, (4 * cx) * (cy * cy), m);
    lemma_sub_cong(cdd, cd * cd, c2b, 2 * ((4 * cx) * (cy * cy)), m);
    let lhs = cd * cd - 2 * ((4 * cx) * (cy * cy));
    lemma_mul_cong(cxj, lhs, cw2, cw * cw, m);
    // the affine side: (D w)^2 - 2 X (2 Y w)^2
    lemma_mul_cong(cl, cd * cw, cl, cd * cw, m);
    lemma_mul_cong(ci, t, ci, t, m);
    lemma_mul_cong(cx, cx, czi2, t * t, m);
    lemma_sub_cong(cll, (cd * cw) * (cd * cw), cpx, cx * (t * t), m);
    lemma_sub_cong(cs1, (cd * cw) * (cd * cw) - cx * (t * t), cpx, cx * (t * t), m);
    lemma_ring_double_x(cd, cx, cy, cw);
}

/// `(D^2 - 2 (4 X) Y^2) w^2 = (D w)^2 - 2 X (2 Y w)^2`.
proof fn lemma_ring_double_x(cd: int, cx: int, cy: int, cw: int)
    ensures
        (cd * cd - 2 * ((4 * cx) * (cy * cy))) * (cw * cw) == (cd * cw) * (cd * cw) - cx * ((2
            * cy * cw) * (2 * cy * cw)) - cx * ((2 * cy * cw) * (2 * cy * cw)),
{
    let w2 = cw * cw;
    let y2 = cy * cy;
    let a = cd * cd;
    let b = (4 * cx) * y2;
    assert((a - 2 * b) * w2 == a * w2 - 2 * (b * w2)) by (nonlinear_arith);
    lemma_sq_prod(cd, cw);
    lemma_ring_two_y_w(cy, cw);
    assert(b * w2 == 4 * (cx * (y2 * w2))) by (nonlinear_arith)
        requires
            b == (4 * cx) * y2,
    ;
    assert(cx * (4 * (y2 * w2)) == 4 * (cx * (y2 * w2))) by (nonlinear_arith);
}

/// `(2 Y w)^2 = 4 Y^2 w^2` and `(2 Y w)^3 = 8 Y^3 w^3`.
proof fn lemma_ring_two_y_w(cy: int, cw: int)
    ensures
        (2 * cy * cw) * (2 * cy * cw) == 4 * ((cy * cy) * (cw * cw)),
        ((2 * cy * cw) * (2 * cy * cw)) * (2 * cy * cw) == 8 * (((cy * cy) * cy) * ((cw * cw)
            * cw)),
{
    let c = 2 * cy;
    lemma_sq_prod(c, cw);
    lemma_cube_prod(c, cw);
    assert(c * c == 4 * (cy * cy)) by (nonlinear_arith)
        requires
            c == 2 * cy,
    ;
    assert((c * c) * c == 8 * ((cy * cy) * cy)) by (nonlinear_arith)
        requires
            c == 2 * cy,
    ;
    assert((4 * (cy * cy)) * (cw * cw) == 4 * ((cy * cy) * (cw * cw))) by (nonlinear_arith);
    assert((8 * ((cy * cy) * cy)) * ((cw * cw) * cw) == 8 * (((cy * cy) * cy) * ((cw * cw)
        * cw))) by (nonlinear_arith);
}

/// The `y` of the doubled Jacobian point, divided by `Z'^3`, is the `y` of
/// the tangent rule: `(D (B - X') - 8 Y^4) w^3 = (D w)(x - x') - Y / Z^3`.
proof fn lemma_double_y_value(
    cyr: int,
    cyj: int,
    cw3: int,
    cw2: int,
    cdbx: int,
    cbx: int,
    cc: int,
    caa2: int,
    caa: int,
    cb: int,
    c4x: int,
    cxj: int,
    cxr: int,
    cd: int,
    cx: int,
    cy: int,
    cw: int,
    ci: int,
    cl: int,
    cx3: int,
    cd1: int,
    clm: int,
    cy3: int,
    cpx: int,
    cpy: int,
    czi2: int,
    czi3: int,
    m: int,
)
    requires
        m > 1,
        ci % m == (2 * cy * cw) % m,
        cl % m == (cd * cw) % m,
        c4x % m == (4 * cx) % m,
        caa % m == (cy * cy) % m,
        cb % m == (c4x * caa) % m,
        cw2 % m == (cw * cw) % m,
        cxr % m == (cxj * cw2) % m,
        cxr % m == cx3 % m,
        cbx % m == (cb - cxj) % m,
        cdbx % m == (cd * cbx) % m,
        caa2 % m == (caa * caa) % m,
        cc % m == (8 * caa2) % m,
        cyj % m == (cdbx - cc) % m,
        cw3 % m == (cw2 * cw) % m,
        cyr % m == (cyj * cw3) % m,
        czi2 % m == (ci * ci) % m,
        czi3 % m == (czi2 * ci) % m,
        cpx % m == (cx * czi2) % m,
        cpy % m == (cy * czi3) % m,
        cd1 % m == (cpx - cx3) % m,
        clm % m == (cl * cd1) % m,
        cy3 % m == (clm - cpy) % m,
    ensures
        cyr % m == cy3 % m,
{
    let t = 2 * cy * cw;
    let y4 = (cy * cy) * (cy * cy);
    let bb = (4 * cx) * (cy * cy);
    // the Jacobian side: (D (B - X') - 8 Y^4) w^3
    lemma_mul_cong(c4x, 4 * cx, caa, cy * cy, m);
    lemma_sub_cong(cb, bb, cxj, cxj, m);
    lemma_mul_cong(cd, cd, cbx, bb - cxj, m);
    lemma_mul_cong(caa, cy * cy, caa, cy * cy, m);
    lemma_mul_cong(8, 8, caa2, y4, m);
    lemma_sub_cong(cdbx, cd * (bb - cxj), cc, 8 * y4, m);
    lemma_mul_cong(cw2, cw * cw, cw, cw, m);
    let pj = cd * (bb - cxj) - 8 * y4;
    lemma_mul_cong(cyj, pj, cw3, (cw * cw) * cw, m);
    assert(pj * ((cw * cw) * cw) == (cd * cw) * (cx * (t * t) - cxj * (cw * cw)) - cy * ((t
        * t) * t)) by {
        let w3 = (cw * cw) * cw;
        lemma_ring_jacobian_y(cd, bb, cxj, y4, w3);
        lemma_ring_sub_dist(cd * cw, cx * (t * t), cxj * (cw * cw));
        lemma_ring_y_monomials(cd, cw, cx, cy, cxj);
    }
    // the pieces: D w = lambda, X (2 Y w)^2 = x, X' w^2 = x', Y (2 Y w)^3 = y
    lemma_mul_cong(ci, t, ci, t, m);
    lemma_mul_cong(ci * ci, t * t, ci, t, m);
    lemma_mul_cong(czi2, ci * ci, ci, ci, m);
    lemma_mul_cong(cx, cx, czi2, t * t, m);
    lemma_mul_cong(cy, cy, czi3, (t * t) * t, m);
    lemma_mul_cong(cxj, cxj, cw2, cw * cw, m);
    lemma_sub_cong(cx * (t * t), cpx, cxj * (cw * cw), cx3, m);
    lemma_mul_cong(cd * cw, cl, cx * (t * t) - cxj * (cw * cw), cpx - cx3, m);
    lemma_mul_cong(cl, cl, cd1, cpx - cx3, m);
    lemma_sub_cong(
        (cd * cw) * (cx * (t * t) - cxj * (cw * cw)),
        cl * (cpx - cx3),
        cy * ((t * t) * t),
        cpy,
        m,
    );
    lemma_sub_cong(clm, cl * (cpx - cx3), cpy, cpy, m);
}

/// `(3 a + c) b = 3 (a b) + c b`.
proof fn lemma_ring_affine_slope(a: int, c: int, b: int)
    ensures
        (3 * a + c) * b == 3 * (a * b) + c * b,
{
    assert((3 * a + c) * b == 3 * (a * b) + c * b) by (nonlinear_arith);
}

/// `(x / Z^2)^2 Z^4 w = x^2 w (Z / Z)^4`, written with `ci` for the inverse of `Z`.
proof fn lemma_ring_slope_monomial(cx: int, ci: int, cz: int, cw: int)
    ensures
        3 * (((cx * (ci * ci)) * (cx * (ci * ci))) * (cw * (((cz * cz) * cz) * cz))) == (3 * (cx
            * cx) * cw) * ((((cz * ci) * (cz * ci)) * (cz * ci)) * (cz * ci)),
{
    let i2 = ci * ci;
    let i4 = ((ci * ci) * ci) * ci;
    let z4 = ((cz * cz) * cz) * cz;
    lemma_sq_prod(cx, i2);
    assert(i2 * i2 == i4) by (nonlinear_arith)
        requires
            i2 == ci * ci,
            i4 == ((ci * ci) * ci) * ci,
    ;
    lemma_swap4(cx * cx, i4, cw, z4);
    lemma_fourth_prod(cz, ci);
    assert(i4 * z4 == z4 * i4) by (nonlinear_arith);
    assert(3 * (((cx * cx) * cw) * (i4 * z4)) == (3 * (cx * cx) * cw) * (i4 * z4))
        by (nonlinear_arith);
}

/// `a (b - c) = a b - a c`.
proof fn lemma_ring_sub_dist(a: int, b: int, c: int)
    ensures
        a * (b - c) == a * b - a * c,
{
    assert(a * (b - c) == a * b - a * c) by (nonlinear_arith);
}

/// `(d (b - x) - 8 y) w = d (b w) - d (x w) - 8 (y w)`.
proof fn lemma_ring_jacobian_y(d: int, b: int, x: int, y: int, w: int)
    ensures
        (d * (b - x) - 8 * y) * w == d * (b * w) - d * (x * w) - 8 * (y * w),
{
    assert((d * (b - x) - 8 * y) * w == d * (b * w) - d * (x * w) - 8 * (y * w))
        by (nonlinear_arith);
}

/// The three monomials of the doubled `y`, with `t = 2 Y w`.
proof fn lemma_ring_y_monomials(cd: int, cw: int, cx: int, cy: int, cxj: int)
    ensures
        (cd * cw) * (cx * ((2 * cy * cw) * (2 * cy * cw))) == cd * (((4 * cx) * (cy * cy)) * ((cw
            * cw) * cw)),
        (cd * cw) * (cxj * (cw * cw)) == cd * (cxj * ((cw * cw) * cw)),
        cy * (((2 * cy * cw) * (2 * cy * cw)) * (2 * cy * cw)) == 8 * (((cy * cy) * (cy * cy)) * (
        (cw * cw) * cw)),
{
    let y2 = cy * cy;
    let w2 = cw * cw;
    let y3 = (cy * cy) * cy;
    let w3 = (cw * cw) * cw;
    lemma_ring_two_y_w(cy, cw);
    assert((cd * cw) * (cx * (4 * (y2 * w2))) == cd * (((4 * cx) * y2) * (w2 * cw)))
        by (nonlinear_arith);
    assert((cd * cw) * (cxj * w2) == cd * (cxj * (w2 * cw))) by (nonlinear_arith);
    assert(cy * y3 == y2 * y2) by (nonlinear_arith)
        requires
            y2 == cy * cy,
            y3 == (cy * cy) * cy,
    ;
    assert(cy * (8 * (y3 * w3)) == 8 * ((cy * y3) * w3)) by (nonlinear_arith);
}

/// Doubling in Jacobian coordinates agrees with doubling the affine point that
/// the Jacobian point stands for, `to_affine(2 Q) = 2 to_affine(Q)`, for
/// reduced coordinates and a reduced coefficient `a`, given inverses in a base
/// field of odd characteristic.
pub proof fn lemma_double_agrees<C: SWCurveConfig>(q: JacobianView)
    requires
        odd_field::<C>(),
        inverse_ok::<C::BaseField>(),
        q.0 < modulus_of::<C::BaseField>(),
        q.1 < modulus_of::<C::BaseField>(),
        q.2 < modulus_of::<C::BaseField>(),
        coeff_a::<C>() < modulus_of::<C::BaseField>(),
    ensures
        to_affine_spec::<C>(jacobian_double::<C>(q)) == double_spec::<C>(to_affine_spec::<C>(q)),
{
    if q.2 != 0 {
        lemma_double_agrees_finite::<C>(q);
    }
}

/// [`lemma_double_agrees`] for a point with `Z != 0`.
#[verifier::rlimit(60)]
proof fn lemma_double_agrees_finite<C: SWCurveConfig>(q: JacobianView)
    requires
        odd_field::<C>(),
        inverse_ok::<C::BaseField>(),
        q.0 < modulus_of::<C::BaseField>(),
        q.1 < modulus_of::<C::BaseField>(),
        q.2 < modulus_of::<C::BaseField>(),
        q.2 != 0,
        coeff_a::<C>() < modulus_of::<C::BaseField>(),
    ensures
        to_affine_spec::<C>(jacobian_double::<C>(q)) == double_spec::<C>(to_affine_spec::<C>(q)),
{
    let mm = modulus_of::<C::BaseField>();
    let m = mm as int;
    assert(m >= 3);
    let xr = q.0;
    let yr = q.1;
    let zr = q.2;
    lemma_step_zero::<C::BaseField>(xr);
    lemma_step_zero::<C::BaseField>(yr);
    lemma_step_zero::<C::BaseField>(zr);
    let cy = fe_int::<C::BaseField>(yr);
    let cz = fe_int::<C::BaseField>(zr);
    // the affine point (X / Z^2, Y / Z^3)
    lemma_step_inv::<C::BaseField>(zr);
    let zi = fe_inv::<C::BaseField>(zr);
    let ci = fe_int::<C::BaseField>(zi);
    let zi2 = fe_mul::<C::BaseField>(zi, zi);
    lemma_step_mul::<C::BaseField>(zi, zi);
    let zi3 = fe_mul::<C::BaseField>(zi2, zi);
    lemma_step_mul::<C::BaseField>(zi2, zi);
    let px = fe_mul::<C::BaseField>(xr, zi2);
    lemma_step_mul::<C::BaseField>(xr, zi2);
    let py = fe_mul::<C::BaseField>(yr, zi3);
    lemma_step_mul::<C::BaseField>(yr, zi3);
    let czi2 = fe_int::<C::BaseField>(zi2);
    let czi3 = fe_int::<C::BaseField>(zi3);
    let cpy = fe_int::<C::BaseField>(py);
    assert(to_affine_spec::<C>(q) == (px, py, false));
    let two = fe_from_int::<C::BaseField>(2);
    lemma_step_int::<C::BaseField>(2);
    let ty = fe_mul::<C::BaseField>(two, yr);
    lemma_step_mul::<C::BaseField>(two, yr);
    let zj = fe_mul::<C::BaseField>(ty, zr);
    lemma_step_mul::<C::BaseField>(ty, zr);
    assert(jacobian_double::<C>(q).2 == zj);
    lemma_step_zero::<C::BaseField>(zj);
    lemma_step_zero::<C::BaseField>(ty);
    lemma_step_zero::<C::BaseField>(py);
    // 1 / Z, 1 / Z^2 and 1 / Z^3 are nonzero
    assert(ci != 0) by {
        if ci == 0 {
            assert(cz * ci == 0);
            lemma_small_mod(0, mm);
        }
    }
    lemma_small_mod(czi2 as nat, mm);
    lemma_small_mod(czi3 as nat, mm);
    assert(czi2 != 0) by {
        if czi2 == 0 {
            lemma_no_zero_divisors::<C::BaseField>(ci, ci);
        }
    }
    assert(czi3 != 0) by {
        if czi3 == 0 {
            lemma_no_zero_divisors::<C::BaseField>(czi2, ci);
        }
    }
    lemma_small_mod(cpy as nat, mm);
    lemma_small_mod(fe_int::<C::BaseField>(ty) as nat, mm);
    lemma_small_mod(fe_int::<C::BaseField>(zj) as nat, mm);
    if py == 0 {
        // Y / Z^3 = 0 makes Y = 0, so that Z' = 2 Y Z = 0
        lemma_no_zero_divisors::<C::BaseField>(cy, czi3);
        assert(yr == 0);
        lemma_field_identities::<C::BaseField>(two);
        lemma_field_identities::<C::BaseField>(zr);
        assert(ty == 0);
        assert(ty * zr == zr * 0) by (nonlinear_arith)
            requires
                ty == 0,
        ;
        assert(zj == fe_mul::<C::BaseField>(zr, 0));
        assert(zj == 0);
    } else {
        assert(cy != 0) by {
            if cy == 0 {
                lemma_field_identities::<C::BaseField>(zi3);
                assert(py == fe_mul::<C::BaseField>(zi3, 0));
            }
        }
        lemma_double_agrees_main::<C>(q);
    }
}

/// [`lemma_double_agrees`] for a point with `Z != 0` and `Y != 0`.
#[verifier::rlimit(100)]
proof fn lemma_double_agrees_main<C: SWCurveConfig>(q: JacobianView)
    requires
        odd_field::<C>(),
        inverse_ok::<C::BaseField>(),
        q.0 < modulus_of::<C::BaseField>(),
        q.1 < modulus_of::<C::BaseField>(),
        q.2 < modulus_of::<C::BaseField>(),
        q.2 != 0,
        fe_int::<C::BaseField>(q.1) != 0,
        coeff_a::<C>() < modulus_of::<C::BaseField>(),
    ensures
        to_affine_spec::<C>(jacobian_double::<C>(q)) == double_spec::<C>(to_affine_spec::<C>(q)),
{
    let mm = modulus_of::<C::BaseField>();
    let m = mm as int;
    assert(m >= 3);
    let xr = q.0;
    let yr = q.1;
    let zr = q.2;
    lemma_step_zero::<C::BaseField>(xr);
    lemma_step_zero::<C::BaseField>(yr);
    lemma_step_zero::<C::BaseField>(zr);
    let cx = fe_int::<C::BaseField>(xr);
    let cy = fe_int::<C::BaseField>(yr);
    let cz = fe_int::<C::BaseField>(zr);
    // the affine point (X / Z^2, Y / Z^3)
    lemma_step_inv::<C::BaseField>(zr);
    let zi = fe_inv::<C::BaseField>(zr);
    let ci = fe_int::<C::BaseField>(zi);
    let zi2 = fe_mul::<C::BaseField>(zi, zi);
    lemma_step_mul::<C::BaseField>(zi, zi);
    let zi3 = fe_mul::<C::BaseField>(zi2, zi);
    lemma_step_mul::<C::BaseField>(zi2, zi);
    let px = fe_mul::<C::BaseField>(xr, zi2);
    lemma_step_mul::<C::BaseField>(xr, zi2);
    let py = fe_mul::<C::BaseField>(yr, zi3);
    lemma_step_mul::<C::BaseField>(yr, zi3);
    let czi2 = fe_int::<C::BaseField>(zi2);
    let czi3 = fe_int::<C::BaseField>(zi3);
    let cpx = fe_int::<C::BaseField>(px);
    let cpy = fe_int::<C::BaseField>(py);
    assert(to_affine_spec::<C>(q) == (px, py, false));
    // the small constants
    let two = fe_from_int::<C::BaseField>(2);
    let three = fe_from_int::<C::BaseField>(3);
    let four = fe_from_int::<C::BaseField>(4);
    let eight = fe_from_int::<C::BaseField>(8);
    lemma_step_int::<C::BaseField>(2);
    lemma_step_int::<C::BaseField>(3);
    lemma_step_int::<C::BaseField>(4);
    lemma_step_int::<C::BaseField>(8);
    lemma_step_zero::<C::BaseField>(two);
    lemma_small_mod(2, mm);
    lemma_small_mod(fe_int::<C::BaseField>(two) as nat, mm);
    assert(fe_int::<C::BaseField>(two) == 2);
    let c3 = fe_int::<C::BaseField>(three);
    let c4 = fe_int::<C::BaseField>(four);
    let c8 = fe_int::<C::BaseField>(eight);
    // 1 / Z, 1 / Z^2, 1 / Z^3 and Y / Z^3 are nonzero
    assert(ci != 0) by {
        if ci == 0 {
            assert(cz * ci == 0);
            lemma_small_mod(0, mm);
        }
    }
    lemma_small_mod(czi2 as nat, mm);
    lemma_small_mod(czi3 as nat, mm);
    lemma_small_mod(cpy as nat, mm);
    assert(czi2 != 0) by {
        if czi2 == 0 {
            lemma_no_zero_divisors::<C::BaseField>(ci, ci);
        }
    }
    assert(czi3 != 0) by {
        if czi3 == 0 {
            lemma_no_zero_divisors::<C::BaseField>(czi2, ci);
        }
    }
    assert(cpy != 0) by {
        if cpy == 0 {
            lemma_no_zero_divisors::<C::BaseField>(cy, czi3);
        }
    }
    lemma_step_zero::<C::BaseField>(py);
    assert(py != 0);
    // the tangent rule on (px, py)
    let pxx = fe_mul::<C::BaseField>(px, px);
    lemma_step_mul::<C::BaseField>(px, px);
    let t3 = fe_mul::<C::BaseField>(three, pxx);
    lemma_step_mul::<C::BaseField>(three, pxx);
    let num = fe_add::<C::BaseField>(t3, coeff_a::<C>());
    lemma_step_add::<C::BaseField>(t3, coeff_a::<C>());
    let den = fe_mul::<C::BaseField>(two, py);
    lemma_step_mul::<C::BaseField>(two, py);
    let cden = fe_int::<C::BaseField>(den);
    lemma_small_mod(cden as nat, mm);
    lemma_step_zero::<C::BaseField>(den);
    assert(cden != 0) by {
        if cden == 0 {
            lemma_no_zero_divisors::<C::BaseField>(2, cpy);
        }
    }
    lemma_step_inv::<C::BaseField>(den);
    let vi = fe_inv::<C::BaseField>(den);
    let cvi = fe_int::<C::BaseField>(vi);
    let lam = fe_mul::<C::BaseField>(num, vi);
    lemma_step_mul::<C::BaseField>(num, vi);
    let ll = fe_mul::<C::BaseField>(lam, lam);
    lemma_step_mul::<C::BaseField>(lam, lam);
    let s1 = fe_sub::<C::BaseField>(ll, px);
    lemma_step_sub::<C::BaseField>(ll, px);
    let x3 = fe_sub::<C::BaseField>(s1, px);
    lemma_step_sub::<C::BaseField>(s1, px);
    let d1 = fe_sub::<C::BaseField>(px, x3);
    lemma_step_sub::<C::BaseField>(px, x3);
    let lm = fe_mul::<C::BaseField>(lam, d1);
    lemma_step_mul::<C::BaseField>(lam, d1);
    let y3 = fe_sub::<C::BaseField>(lm, py);
    lemma_step_sub::<C::BaseField>(lm, py);
    assert(double_spec::<C>(to_affine_spec::<C>(q)) == (x3, y3, false));
    // the doubled Jacobian point
    let a = fe_mul::<C::BaseField>(yr, yr);
    lemma_step_mul::<C::BaseField>(yr, yr);
    let x4 = fe_mul::<C::BaseField>(four, xr);
    lemma_step_mul::<C::BaseField>(four, xr);
    let b = fe_mul::<C::BaseField>(x4, a);
    lemma_step_mul::<C::BaseField>(x4, a);
    let aa = fe_mul::<C::BaseField>(a, a);
    lemma_step_mul::<C::BaseField>(a, a);
    let c = fe_mul::<C::BaseField>(eight, aa);
    lemma_step_mul::<C::BaseField>(eight, aa);
    let z2 = fe_mul::<C::BaseField>(zr, zr);
    lemma_step_mul::<C::BaseField>(zr, zr);
    let z4r = fe_mul::<C::BaseField>(z2, z2);
    lemma_step_mul::<C::BaseField>(z2, z2);
    let xx = fe_mul::<C::BaseField>(xr, xr);
    lemma_step_mul::<C::BaseField>(xr, xr);
    let t3j = fe_mul::<C::BaseField>(three, xx);
    lemma_step_mul::<C::BaseField>(three, xx);
    let ma = mul_by_a_spec::<C>(z4r);
    if coeff_a::<C>() != 0 {
        lemma_step_mul::<C::BaseField>(z4r, coeff_a::<C>());
    }
    lemma_step_zero::<C::BaseField>(coeff_a::<C>());
    lemma_step_zero::<C::BaseField>(0);
    let d = fe_add::<C::BaseField>(t3j, ma);
    lemma_step_add::<C::BaseField>(t3j, ma);
    let dd = fe_mul::<C::BaseField>(d, d);
    lemma_step_mul::<C::BaseField>(d, d);
    let b2 = fe_mul::<C::BaseField>(two, b);
    lemma_step_mul::<C::BaseField>(two, b);
    let xj = fe_sub::<C::BaseField>(dd, b2);
    lemma_step_sub::<C::BaseField>(dd, b2);
    let bx = fe_sub::<C::BaseField>(b, xj);
    lemma_step_sub::<C::BaseField>(b, xj);
    let dbx = fe_mul::<C::BaseField>(d, bx);
    lemma_step_mul::<C::BaseField>(d, bx);
    let yj = fe_sub::<C::BaseField>(dbx, c);
    lemma_step_sub::<C::BaseField>(dbx, c);
    let ty = fe_mul::<C::BaseField>(two, yr);
    lemma_step_mul::<C::BaseField>(two, yr);
    let zj = fe_mul::<C::BaseField>(ty, zr);
    lemma_step_mul::<C::BaseField>(ty, zr);
    assert(jacobian_double::<C>(q) == (xj, yj, zj));
    // Z' = 2 Y Z is nonzero and has an inverse w
    let cty = fe_int::<C::BaseField>(ty);
    let czj = fe_int::<C::BaseField>(zj);
    lemma_small_mod(cty as nat, mm);
    lemma_small_mod(czj as nat, mm);
    lemma_step_zero::<C::BaseField>(zj);
    assert(cty != 0) by {
        if cty == 0 {
            lemma_no_zero_divisors::<C::BaseField>(2, cy);
        }
    }
    assert(czj != 0) by {
        if czj == 0 {
            lemma_no_zero_divisors::<C::BaseField>(cty, cz);
        }
    }
    lemma_step_inv::<C::BaseField>(zj);
    let w = fe_inv::<C::BaseField>(zj);
    let cw = fe_int::<C::BaseField>(w);
    let w2 = fe_mul::<C::BaseField>(w, w);
    lemma_step_mul::<C::BaseField>(w, w);
    let w3 = fe_mul::<C::BaseField>(w2, w);
    lemma_step_mul::<C::BaseField>(w2, w);
    let xres = fe_mul::<C::BaseField>(xj, w2);
    lemma_step_mul::<C::BaseField>(xj, w2);
    let yres = fe_mul::<C::BaseField>(yj, w3);
    lemma_step_mul::<C::BaseField>(yj, w3);
    assert(to_affine_spec::<C>(jacobian_double::<C>(q)) == (xres, yres, false));
    // 1 / Z = 2 Y w
    lemma_mul_cong(cty, 2 * cy, cz, cz, m);
    lemma_half_inverse(ci, cy, cz, czj, cw, m);
    // the inverse of 2 Y / Z^3 is w Z^4
    let z4 = ((cz * cz) * cz) * cz;
    lemma_mul_cong(czi2, ci * ci, ci, ci, m);
    lemma_mul_cong(2, 2, cpy, cy * czi3, m);
    lemma_slope_inverse(cden, cy, ci, czi3, cz, czj, cw, m);
    lemma_mod_bound(cw * z4, m);
    crate::prime_field::lemma_inverse_unique(cden, cvi, (cw * z4) % m, m);
    // the slope is D w, with D = 3 X^2 + a Z^4
    let ca = fe_int::<C::BaseField>(coeff_a::<C>());
    lemma_mul_cong(c3, 3, fe_int::<C::BaseField>(pxx), cpx * cpx, m);
    lemma_add_cong(fe_int::<C::BaseField>(t3), 3 * (cpx * cpx), ca, ca, m);
    lemma_mul_cong(cx, cx, czi2, ci * ci, m);
    lemma_slope_value(fe_int::<C::BaseField>(lam), fe_int::<C::BaseField>(num), cvi, cpx, cx, ci, ca, cz,
        cw, m);
    let dv = 3 * (cx * cx) + ca * z4;
    let cd = fe_int::<C::BaseField>(d);
    assert(cd % m == dv % m) by {
        lemma_mul_cong(c3, 3, fe_int::<C::BaseField>(xx), cx * cx, m);
        let cz4 = fe_int::<C::BaseField>(z4r);
        lemma_mul_cong(fe_int::<C::BaseField>(z2), cz * cz, fe_int::<C::BaseField>(z2), cz * cz, m);
        assert((cz * cz) * (cz * cz) == z4) by (nonlinear_arith)
            requires
                z4 == ((cz * cz) * cz) * cz,
        ;
        if coeff_a::<C>() != 0 {
            lemma_mul_cong(cz4, z4, ca, ca, m);
            assert(z4 * ca == ca * z4) by (nonlinear_arith);
        } else {
            assert(ca == 0);
            assert(ca * z4 == 0);
        }
        lemma_add_cong(fe_int::<C::BaseField>(t3j), 3 * (cx * cx), fe_int::<C::BaseField>(ma), ca * z4, m);
    }
    lemma_mul_cong(cd, dv, cw, cw, m);
    // x' agrees
    lemma_mul_cong(c4, 4, cx, cx, m);
    lemma_mul_cong(c8, 8, fe_int::<C::BaseField>(aa), fe_int::<C::BaseField>(aa), m);
    lemma_double_x_value(
        fe_int::<C::BaseField>(xres),
        fe_int::<C::BaseField>(xj),
        fe_int::<C::BaseField>(w2),
        fe_int::<C::BaseField>(dd),
        fe_int::<C::BaseField>(b2),
        fe_int::<C::BaseField>(b),
        fe_int::<C::BaseField>(x4),
        fe_int::<C::BaseField>(a),
        cd,
        cx,
        cy,
        cw,
        ci,
        fe_int::<C::BaseField>(lam),
        fe_int::<C::BaseField>(x3),
        fe_int::<C::BaseField>(s1),
        fe_int::<C::BaseField>(ll),
        cpx,
        czi2,
        m,
    );
    lemma_small_mod(fe_int::<C::BaseField>(xres) as nat, mm);
    lemma_small_mod(fe_int::<C::BaseField>(x3) as nat, mm);
    lemma_canonical_injective::<C::BaseField>(xres, x3);
    // y' agrees
    lemma_double_y_value(
        fe_int::<C::BaseField>(yres),
        fe_int::<C::BaseField>(yj),
        fe_int::<C::BaseField>(w3),
        fe_int::<C::BaseField>(w2),
        fe_int::<C::BaseField>(dbx),
        fe_int::<C::BaseField>(bx),
        fe_int::<C::BaseField>(c),
        fe_int::<C::BaseField>(aa),
        fe_int::<C::BaseField>(a),
        fe_int::<C::BaseField>(b),
        fe_int::<C::BaseField>(x4),
        fe_int::<C::BaseField>(xj),
        fe_int::<C::BaseField>(xres),
        cd,
        cx,
        cy,
        cw,
        ci,
        fe_int::<C::BaseField>(lam),
        fe_int::<C::BaseField>(x3),
        fe_int::<C::BaseField>(d1),
        fe_int::<C::BaseField>(lm),
        fe_int::<C::BaseField>(y3),
        cpx,
        cpy,
        czi2,
        czi3,
        m,
    );
    lemma_small_mod(fe_int::<C::BaseField>(yres) as nat, mm);
    lemma_small_mod(fe_int::<C::BaseField>(y3) as nat, mm);
    lemma_canonical_injective::<C::BaseField>(yres, y3);
}

/// Monomials of the chord rule in Jacobian coordinates, with `k = Z1 Z2`.
proof fn lemma_ring_chord_monomials(cx1: int, cx2: int, cz1: int, cz2: int, i1: int, i2: int)
    ensures
        ((cz1 * cz2) * (cz1 * cz2)) * (cx2 * (i2 * i2)) == (cx2 * (cz1 * cz1)) * ((cz2 * i2) * (
        cz2 * i2)),
        ((cz1 * cz2) * (cz1 * cz2)) * (cx1 * (i1 * i1)) == (cx1 * (cz2 * cz2)) * ((cz1 * i1) * (
        cz1 * i1)),
{
    lemma_sq_prod(cz1, cz2);
    lemma_sq_prod(cz2, i2);
    lemma_sq_prod(cz1, i1);
    lemma_swap4(cz1 * cz1, cz2 * cz2, cx2, i2 * i2);
    assert((cz1 * cz1) * cx2 == cx2 * (cz1 * cz1)) by (nonlinear_arith);
    lemma_swap4(cz2 * cz2, cz1 * cz1, cx1, i1 * i1);
    assert((cz1 * cz1) * (cz2 * cz2) == (cz2 * cz2) * (cz1 * cz1)) by (nonlinear_arith);
    assert((cz2 * cz2) * cx1 == cx1 * (cz2 * cz2)) by (nonlinear_arith);
}

/// Monomials of the chord rule's difference of `y`, with `k = Z1 Z2`.
proof fn lemma_ring_cube_monomials(cy1: int, cy2: int, cz1: int, cz2: int, i1: int, i2: int)
    ensures
        (((cz1 * cz2) * (cz1 * cz2)) * (cz1 * cz2)) * (cy2 * ((i2 * i2) * i2)) == (cy2 * ((cz1
            * cz1) * cz1)) * (((cz2 * i2) * (cz2 * i2)) * (cz2 * i2)),
        (((cz1 * cz2) * (cz1 * cz2)) * (cz1 * cz2)) * (cy1 * ((i1 * i1) * i1)) == (cy1 * ((cz2
            * cz2) * cz2)) * (((cz1 * i1) * (cz1 * i1)) * (cz1 * i1)),
{
    let a3 = (cz1 * cz1) * cz1;
    let b3 = (cz2 * cz2) * cz2;
    lemma_cube_prod(cz1, cz2);
    lemma_cube_prod(cz2, i2);
    lemma_cube_prod(cz1, i1);
    lemma_swap4(a3, b3, cy2, (i2 * i2) * i2);
    assert(a3 * cy2 == cy2 * a3) by (nonlinear_arith);
    assert(a3 * b3 == b3 * a3) by (nonlinear_arith);
    lemma_swap4(b3, a3, cy1, (i1 * i1) * i1);
    assert(b3 * cy1 == cy1 * b3) by (nonlinear_arith);
}

/// `H = U2 - U1` is `(Z1 Z2)^2` times the difference of the affine `x`.
proof fn lemma_chord_h(
    ch: int,
    cu1: int,
    cu2: int,
    cx1: int,
    cx2: int,
    cz1: int,
    cz2: int,
    i1: int,
    i2: int,
    cden: int,
    cpx1: int,
    cpx2: int,
    m: int,
)
    requires
        m > 1,
        (cz1 * i1) % m == 1,
        (cz2 * i2) % m == 1,
        cu1 % m == (cx1 * (cz2 * cz2)) % m,
        cu2 % m == (cx2 * (cz1 * cz1)) % m,
        ch % m == (cu2 - cu1) % m,
        cpx1 % m == (cx1 * (i1 * i1)) % m,
        cpx2 % m == (cx2 * (i2 * i2)) % m,
        cden % m == (cpx2 - cpx1) % m,
    ensures
        ch % m == (((cz1 * cz2) * (cz1 * cz2)) * cden) % m,
{
    let g2 = (cz1 * cz2) * (cz1 * cz2);
    lemma_unit_powers(cz1, i1, m);
    lemma_unit_powers(cz2, i2, m);
    lemma_small_mod(1, m as nat);
    lemma_sub_cong(cpx2, cx2 * (i2 * i2), cpx1, cx1 * (i1 * i1), m);
    lemma_mul_cong(g2, g2, cden, cx2 * (i2 * i2) - cx1 * (i1 * i1), m);
    lemma_ring_sub_dist(g2, cx2 * (i2 * i2), cx1 * (i1 * i1));
    lemma_ring_chord_monomials(cx1, cx2, cz1, cz2, i1, i2);
    lemma_mul_cong(cx2 * (cz1 * cz1), cx2 * (cz1 * cz1), (cz2 * i2) * (cz2 * i2), 1, m);
    lemma_mul_cong(cx1 * (cz2 * cz2), cx1 * (cz2 * cz2), (cz1 * i1) * (cz1 * i1), 1, m);
    lemma_sub_cong(
        (cx2 * (cz1 * cz1)) * ((cz2 * i2) * (cz2 * i2)),
        (cx2 * (cz1 * cz1)) * 1,
        (cx1 * (cz2 * cz2)) * ((cz1 * i1) * (cz1 * i1)),
        (cx1 * (cz2 * cz2)) * 1,
        m,
    );
    lemma_sub_cong(cu2, cx2 * (cz1 * cz1), cu1, cx1 * (cz2 * cz2), m);
}

/// `R = S2 - S1` is `(Z1 Z2)^3` times the difference of the affine `y`.
proof fn lemma_chord_r(
    cr: int,
    cs1: int,
    cs2: int,
    cy1: int,
    cy2: int,
    cz1: int,
    cz2: int,
    i1: int,
    i2: int,
    cnum: int,
    cpy1: int,
    cpy2: int,
    m: int,
)
    requires
        m > 1,
        (cz1 * i1) % m == 1,
        (cz2 * i2) % m == 1,
        cs1 % m == (cy1 * ((cz2 * cz2) * cz2)) % m,
        cs2 % m == (cy2 * ((cz1 * cz1) * cz1)) % m,
        cr % m == (cs2 - cs1) % m,
        cpy1 % m == (cy1 * ((i1 * i1) * i1)) % m,
        cpy2 % m == (cy2 * ((i2 * i2) * i2)) % m,
        cnum % m == (cpy2 - cpy1) % m,
    ensures
        cr % m == ((((cz1 * cz2) * (cz1 * cz2)) * (cz1 * cz2)) * cnum) % m,
{
    let g3 = ((cz1 * cz2) * (cz1 * cz2)) * (cz1 * cz2);
    let a2 = cy2 * ((i2 * i2) * i2);
    let a1 = cy1 * ((i1 * i1) * i1);
    lemma_unit_powers(cz1, i1, m);
    lemma_unit_powers(cz2, i2, m);
    lemma_small_mod(1, m as nat);
    lemma_sub_cong(cpy2, a2, cpy1, a1, m);
    lemma_mul_cong(g3, g3, cnum, a2 - a1, m);
    lemma_ring_sub_dist(g3, a2, a1);
    lemma_ring_cube_monomials(cy1, cy2, cz1, cz2, i1, i2);
    let b2 = cy2 * ((cz1 * cz1) * cz1);
    let b1 = cy1 * ((cz2 * cz2) * cz2);
    lemma_mul_cong(b2, b2, ((cz2 * i2) * (cz2 * i2)) * (cz2 * i2), 1, m);
    lemma_mul_cong(b1, b1, ((cz1 * i1) * (cz1 * i1)) * (cz1 * i1), 1, m);
    lemma_sub_cong(
        b2 * (((cz2 * i2) * (cz2 * i2)) * (cz2 * i2)),
        b2 * 1,
        b1 * (((cz1 * i1) * (cz1 * i1)) * (cz1 * i1)),
        b1 * 1,
        m,
    );
    lemma_sub_cong(cs2, b2, cs1, b1, m);
}

/// The slope of the chord is `R` times the inverse of `Z3 = H Z1 Z2`.
proof fn lemma_chord_slope(
    cl: int,
    cnum: int,
    cvi: int,
    cden: int,
    cr: int,
    ch: int,
    czj: int,
    cw: int,
    cz1: int,
    cz2: int,
    m: int,
)
    requires
        m > 1,
        czj % m == (ch * (cz1 * cz2)) % m,
        ch % m == (((cz1 * cz2) * (cz1 * cz2)) * cden) % m,
        (czj * cw) % m == 1,
        (cden * cvi) % m == 1,
        0 <= cvi < m,
        cr % m == ((((cz1 * cz2) * (cz1 * cz2)) * (cz1 * cz2)) * cnum) % m,
        cl % m == (cnum * cvi) % m,
    ensures
        cl % m == (cr * cw) % m,
{
    let k = cz1 * cz2;
    let g2 = k * k;
    let g3 = g2 * k;
    lemma_mul_cong(ch, g2 * cden, k, k, m);
    assert((g2 * cden) * k == g3 * cden) by (nonlinear_arith)
        requires
            g3 == g2 * k,
    ;
    lemma_mul_cong(g3 * cden, czj, cw, cw, m);
    assert(cden * (g3 * cw) == (g3 * cden) * cw) by (nonlinear_arith);
    lemma_mod_twice(g3 * cw, m);
    lemma_mul_cong(cden, cden, (g3 * cw) % m, g3 * cw, m);
    lemma_mod_bound(g3 * cw, m);
    crate::prime_field::lemma_inverse_unique(cden, cvi, (g3 * cw) % m, m);
    lemma_mul_cong(cnum, cnum, cvi, g3 * cw, m);
    assert(cnum * (g3 * cw) == (g3 * cnum) * cw) by (nonlinear_arith);
    lemma_mul_cong(g3 * cnum, cr, cw, cw, m);
}

/// `H` over `Z3 = H Z1 Z2` is the inverse of `Z1 Z2`.
proof fn lemma_chord_hw(ch: int, cw: int, czj: int, cz1: int, cz2: int, i1: int, i2: int, m: int)
    requires
        m > 1,
        (cz1 * i1) % m == 1,
        (cz2 * i2) % m == 1,
        czj % m == (ch * (cz1 * cz2)) % m,
        (czj * cw) % m == 1,
    ensures
        (ch * cw) % m == (i1 * i2) % m,
{
    let k = cz1 * cz2;
    let ik = i1 * i2;
    lemma_small_mod(1, m as nat);
    assert(k * ik == (cz1 * i1) * (cz2 * i2)) by (nonlinear_arith)
        requires
            k == cz1 * cz2,
            ik == i1 * i2,
    ;
    lemma_mul_cong(cz1 * i1, 1, cz2 * i2, 1, m);
    // ik == ik (czj w) == ik (H k w) == (k ik)(H w) == H w
    lemma_mul_cong(ik, ik, czj * cw, 1, m);
    lemma_mul_cong(czj, ch * k, cw, cw, m);
    lemma_mul_cong(ik, ik, czj * cw, (ch * k) * cw, m);
    assert(ik * ((ch * k) * cw) == (k * ik) * (ch * cw)) by (nonlinear_arith);
    lemma_mul_cong(k * ik, 1, ch * cw, ch * cw, m);
}

/// `(R^2 - H^3 - 2 U1 H^2) w^2 = (R w)^2 - H (H w)^2 - 2 U1 (H w)^2`.
proof fn lemma_ring_chord_x(cr: int, ch: int, cu1: int, cw: int)
    ensures
        ((cr * cr - (ch * ch) * ch) - (2 * cu1) * (ch * ch)) * (cw * cw) == (cr * cw) * (cr * cw)
            - ch * ((ch * cw) * (ch * cw)) - 2 * (cu1 * ((ch * cw) * (ch * cw))),
{
    let a = cr * cr;
    let b = (ch * ch) * ch;
    let c = (2 * cu1) * (ch * ch);
    let w2 = cw * cw;
    assert(((a - b) - c) * w2 == a * w2 - b * w2 - c * w2) by (nonlinear_arith);
    assert(a * w2 == (cr * cw) * (cr * cw)) by (nonlinear_arith)
        requires
            a == cr * cr,
            w2 == cw * cw,
    ;
    assert(b * w2 == ch * ((ch * cw) * (ch * cw))) by (nonlinear_arith)
        requires
            b == (ch * ch) * ch,
            w2 == cw * cw,
    ;
    assert(c * w2 == 2 * (cu1 * ((ch * cw) * (ch * cw)))) by (nonlinear_arith)
        requires
            c == (2 * cu1) * (ch * ch),
            w2 == cw * cw,
    ;
}

/// The two `x` pieces: `H (1 / k)^2 = x2 - x1` and `U1 (1 / k)^2 = x1`, with `k = Z1 Z2`.
proof fn lemma_chord_x_pieces(
    ch: int,
    cden: int,
    cu1: int,
    cx1: int,
    cpx1: int,
    cz1: int,
    cz2: int,
    i1: int,
    i2: int,
    m: int,
)
    requires
        m > 1,
        (cz1 * i1) % m == 1,
        (cz2 * i2) % m == 1,
        ch % m == (((cz1 * cz2) * (cz1 * cz2)) * cden) % m,
        cu1 % m == (cx1 * (cz2 * cz2)) % m,
        cpx1 % m == (cx1 * (i1 * i1)) % m,
    ensures
        (ch * ((i1 * i2) * (i1 * i2))) % m == cden % m,
        (cu1 * ((i1 * i2) * (i1 * i2))) % m == cpx1 % m,
{
    let k = cz1 * cz2;
    let ik = i1 * i2;
    lemma_small_mod(1, m as nat);
    assert(k * ik == (cz1 * i1) * (cz2 * i2)) by (nonlinear_arith)
        requires
            k == cz1 * cz2,
            ik == i1 * i2,
    ;
    lemma_mul_cong(cz1 * i1, 1, cz2 * i2, 1, m);
    lemma_mul_cong(k * ik, 1, k * ik, 1, m);
    lemma_mul_cong(ch, (k * k) * cden, ik * ik, ik * ik, m);
    assert(((k * k) * cden) * (ik * ik) == cden * ((k * ik) * (k * ik))) by {
        lemma_sq_prod(k, ik);
        assert(((k * k) * cden) * (ik * ik) == cden * ((k * k) * (ik * ik))) by (nonlinear_arith);
    }
    lemma_mul_cong(cden, cden, (k * ik) * (k * ik), 1, m);
    lemma_unit_powers(cz2, i2, m);
    lemma_mul_cong(cu1, cx1 * (cz2 * cz2), ik * ik, ik * ik, m);
    assert((cx1 * (cz2 * cz2)) * (ik * ik) == (cx1 * (i1 * i1)) * ((cz2 * i2) * (cz2 * i2))) by {
        lemma_sq_prod(i1, i2);
        lemma_sq_prod(cz2, i2);
        lemma_swap4(cx1, cz2 * cz2, i1 * i1, i2 * i2);
    }
    lemma_mul_cong(cx1 * (i1 * i1), cpx1, (cz2 * i2) * (cz2 * i2), 1, m);
}

/// The `x` of the Jacobian sum, divided by `Z3^2`, is the `x` of the chord rule.
proof fn lemma_chord_x_value(
    cxr: int,
    cxj: int,
    cw2: int,
    ct: int,
    crr: int,
    ch3: int,
    ch2: int,
    c2u1: int,
    c2u1h2: int,
    cu1: int,
    ch: int,
    cr: int,
    cw: int,
    cl: int,
    cll: int,
    ca1: int,
    cx3: int,
    cpx1: int,
    cpx2: int,
    cden: int,
    i1: int,
    i2: int,
    m: int,
)
    requires
        m > 1,
        (ch * cw) % m == (i1 * i2) % m,
        (ch * ((i1 * i2) * (i1 * i2))) % m == cden % m,
        (cu1 * ((i1 * i2) * (i1 * i2))) % m == cpx1 % m,
        cden % m == (cpx2 - cpx1) % m,
        cl % m == (cr * cw) % m,
        crr % m == (cr * cr) % m,
        ch2 % m == (ch * ch) % m,
        ch3 % m == (ch2 * ch) % m,
        c2u1 % m == (2 * cu1) % m,
        c2u1h2 % m == (c2u1 * ch2) % m,
        ct % m == (crr - ch3) % m,
        cxj % m == (ct - c2u1h2) % m,
        cw2 % m == (cw * cw) % m,
        cxr % m == (cxj * cw2) % m,
        cll % m == (cl * cl) % m,
        ca1 % m == (cll - cpx1) % m,
        cx3 % m == (ca1 - cpx2) % m,
    ensures
        cxr % m == cx3 % m,
{
    let hw = ch * cw;
    let ik = i1 * i2;
    let rw = cr * cw;
    // the Jacobian side
    lemma_mul_cong(ch2, ch * ch, ch, ch, m);
    lemma_sub_cong(crr, cr * cr, ch3, (ch * ch) * ch, m);
    lemma_mul_cong(c2u1, 2 * cu1, ch2, ch * ch, m);
    let p1 = cr * cr - (ch * ch) * ch;
    let p2 = (2 * cu1) * (ch * ch);
    lemma_sub_cong(ct, p1, c2u1h2, p2, m);
    lemma_mul_cong(cxj, p1 - p2, cw2, cw * cw, m);
    lemma_ring_chord_x(cr, ch, cu1, cw);
    // its pieces
    lemma_mul_cong(hw, ik, hw, ik, m);
    lemma_mul_cong(ch, ch, hw * hw, ik * ik, m);
    lemma_mul_cong(cu1, cu1, hw * hw, ik * ik, m);
    lemma_mul_cong(2, 2, cu1 * (hw * hw), cpx1, m);
    lemma_sub_cong(rw * rw, rw * rw, ch * (hw * hw), cden, m);
    lemma_sub_cong(rw * rw - ch * (hw * hw), rw * rw - cden, 2 * (cu1 * (hw * hw)), 2 * cpx1, m);
    // the affine side
    lemma_mul_cong(cl, rw, cl, rw, m);
    lemma_sub_cong(cll, rw * rw, cpx1, cpx1, m);
    lemma_sub_cong(ca1, rw * rw - cpx1, cpx2, cpx2, m);
    // x2 - x1 for cden
    lemma_sub_cong(rw * rw, rw * rw, cden, cpx2 - cpx1, m);
    lemma_sub_cong(rw * rw - cden, rw * rw - (cpx2 - cpx1), 2 * cpx1, 2 * cpx1, m);
}

/// `(R (U1 H^2 - X3) - S1 H^3) w^3 = (R w)(U1 (H w)^2 - X3 w^2) - S1 (H w)^3`.
proof fn lemma_ring_chord_y(cr: int, cu1: int, ch: int, cxj: int, cs1: int, cw: int)
    ensures
        (cr * (cu1 * (ch * ch) - cxj) - cs1 * ((ch * ch) * ch)) * ((cw * cw) * cw) == (cr * cw) * (
        cu1 * ((ch * cw) * (ch * cw)) - cxj * (cw * cw)) - cs1 * (((ch * cw) * (ch * cw)) * (ch
            * cw)),
{
    let a = cu1 * (ch * ch) - cxj;
    let b = cs1 * ((ch * ch) * ch);
    let w3 = (cw * cw) * cw;
    assert((cr * a - b) * w3 == (cr * cw) * (a * (cw * cw)) - b * w3) by (nonlinear_arith)
        requires
            w3 == (cw * cw) * cw,
    ;
    assert(a * (cw * cw) == cu1 * ((ch * cw) * (ch * cw)) - cxj * (cw * cw)) by (nonlinear_arith)
        requires
            a == cu1 * (ch * ch) - cxj,
    ;
    assert(b * w3 == cs1 * (((ch * cw) * (ch * cw)) * (ch * cw))) by (nonlinear_arith)
        requires
            b == cs1 * ((ch * ch) * ch),
            w3 == (cw * cw) * cw,
    ;
}

/// The `y` of the Jacobian sum, divided by `Z3^3`, is the `y` of the chord rule.
proof fn lemma_chord_y_value(
    cyr: int,
    cyj: int,
    cw3: int,
    cw2: int,
    crq: int,
    cq: int,
    cu1h2: int,
    cs1h3: int,
    cs1: int,
    ch3: int,
    ch2: int,
    cu1: int,
    cxj: int,
    cxr: int,
    ch: int,
    cr: int,
    cw: int,
    cl: int,
    cx3: int,
    cd1: int,
    clm: int,
    cy3: int,
    cpx1: int,
    cpy1: int,
    cy1: int,
    cz2: int,
    i1: int,
    i2: int,
    m: int,
)
    requires
        m > 1,
        (cz2 * i2) % m == 1,
        (ch * cw) % m == (i1 * i2) % m,
        (cu1 * ((i1 * i2) * (i1 * i2))) % m == cpx1 % m,
        cs1 % m == (cy1 * ((cz2 * cz2) * cz2)) % m,
        cpy1 % m == (cy1 * ((i1 * i1) * i1)) % m,
        cl % m == (cr * cw) % m,
        cw2 % m == (cw * cw) % m,
        cxr % m == (cxj * cw2) % m,
        cxr % m == cx3 % m,
        ch2 % m == (ch * ch) % m,
        ch3 % m == (ch2 * ch) % m,
        cu1h2 % m == (cu1 * ch2) % m,
        cq % m == (cu1h2 - cxj) % m,
        crq % m == (cr * cq) % m,
        cs1h3 % m == (cs1 * ch3) % m,
        cyj % m == (crq - cs1h3) % m,
        cw3 % m == (cw2 * cw) % m,
        cyr % m == (cyj * cw3) % m,
        cd1 % m == (cpx1 - cx3) % m,
        clm % m == (cl * cd1) % m,
        cy3 % m == (clm - cpy1) % m,
    ensures
        cyr % m == cy3 % m,
{
    let hw = ch * cw;
    let ik = i1 * i2;
    let rw = cr * cw;
    // the Jacobian side
    lemma_mul_cong(cu1, cu1, ch2, ch * ch, m);
    lemma_sub_cong(cu1h2, cu1 * (ch * ch), cxj, cxj, m);
    lemma_mul_cong(cr, cr, cq, cu1 * (ch * ch) - cxj, m);
    lemma_mul_cong(ch2, ch * ch, ch, ch, m);
    lemma_mul_cong(cs1, cs1, ch3, (ch * ch) * ch, m);
    let pa = cr * (cu1 * (ch * ch) - cxj);
    let pb = cs1 * ((ch * ch) * ch);
    lemma_sub_cong(crq, pa, cs1h3, pb, m);
    lemma_mul_cong(cw2, cw * cw, cw, cw, m);
    lemma_mul_cong(cyj, pa - pb, cw3, (cw * cw) * cw, m);
    lemma_ring_chord_y(cr, cu1, ch, cxj, cs1, cw);
    // its pieces
    lemma_mul_cong(hw, ik, hw, ik, m);
    lemma_mul_cong(hw * hw, ik * ik, hw, ik, m);
    lemma_mul_cong(cu1, cu1, hw * hw, ik * ik, m);
    lemma_mul_cong(cxj, cxj, cw2, cw * cw, m);
    lemma_sub_cong(cu1 * (hw * hw), cpx1, cxj * (cw * cw), cx3, m);
    lemma_mul_cong(rw, cl, cu1 * (hw * hw) - cxj * (cw * cw), cpx1 - cx3, m);
    lemma_mul_cong(cs1, cy1 * ((cz2 * cz2) * cz2), (hw * hw) * hw, (ik * ik) * ik, m);
    assert((cy1 * ((cz2 * cz2) * cz2)) * ((ik * ik) * ik) == (cy1 * ((i1 * i1) * i1)) * (((cz2 * i2)
        * (cz2 * i2)) * (cz2 * i2))) by {
        lemma_cube_prod(i1, i2);
        lemma_cube_prod(cz2, i2);
        lemma_swap4(cy1, (cz2 * cz2) * cz2, (i1 * i1) * i1, (i2 * i2) * i2);
    }
    lemma_unit_powers(cz2, i2, m);
    lemma_small_mod(1, m as nat);
    lemma_mul_cong(cy1 * ((i1 * i1) * i1), cpy1, ((cz2 * i2) * (cz2 * i2)) * (cz2 * i2), 1, m);
    lemma_sub_cong(
        rw * (cu1 * (hw * hw) - cxj * (cw * cw)),
        cl * (cpx1 - cx3),
        cs1 * ((hw * hw) * hw),
        cpy1,
        m,
    );
    // the affine side
    lemma_mul_cong(cl, cl, cd1, cpx1 - cx3, m);
    lemma_sub_cong(clm, cl * (cpx1 - cx3), cpy1, cpy1, m);
}

/// `(Z1 Z2)^2` and `(Z1 Z2)^3` are units when `Z1` and `Z2` are.
proof fn lemma_chord_units(cz1: int, cz2: int, i1: int, i2: int, m: int)
    requires
        m > 1,
        (cz1 * i1) % m == 1,
        (cz2 * i2) % m == 1,
    ensures
        (((cz1 * cz2) * (cz1 * cz2)) * ((i1 * i2) * (i1 * i2))) % m == 1,
        ((((cz1 * cz2) * (cz1 * cz2)) * (cz1 * cz2)) * (((i1 * i2) * (i1 * i2)) * (i1 * i2))) % m
            == 1,
{
    let k = cz1 * cz2;
    let ik = i1 * i2;
    lemma_small_mod(1, m as nat);
    assert(k * ik == (cz1 * i1) * (cz2 * i2)) by (nonlinear_arith)
        requires
            k == cz1 * cz2,
            ik == i1 * i2,
    ;
    lemma_mul_cong(cz1 * i1, 1, cz2 * i2, 1, m);
    lemma_unit_powers(k, ik, m);
    assert((k * k) * (ik * ik) == (k * ik) * (k * ik)) by (nonlinear_arith);
    assert(((k * k) * k) * ((ik * ik) * ik) == ((k * ik) * (k * ik)) * (k * ik))
        by (nonlinear_arith);
}

/// Addition in Jacobian coordinates agrees with adding the affine points that
/// the Jacobian points stand for, `to_affine(P + Q) = to_affine(P) + to_affine(Q)`,
/// for reduced coordinates of points that stand for points on the curve, given
/// inverses in a base field of odd characteristic.
pub proof fn lemma_add_agrees<C: SWCurveConfig>(p: JacobianView, q: JacobianView)
    requires
        odd_field::<C>(),
        inverse_ok::<C::BaseField>(),
        p.0 < modulus_of::<C::BaseField>(),
        p.1 < modulus_of::<C::BaseField>(),
        p.2 < modulus_of::<C::BaseField>(),
        q.0 < modulus_of::<C::BaseField>(),
        q.1 < modulus_of::<C::BaseField>(),
        q.2 < modulus_of::<C::BaseField>(),
        coeff_a::<C>() < modulus_of::<C::BaseField>(),
        on_curve::<C>(to_affine_spec::<C>(p)),
        on_curve::<C>(to_affine_spec::<C>(q)),
    ensures
        to_affine_spec::<C>(jacobian_add::<C>(p, q)) == add_spec::<C>(
            to_affine_spec::<C>(p),
            to_affine_spec::<C>(q),
        ),
{
    if p.2 != 0 && q.2 != 0 {
        lemma_add_agrees_finite::<C>(p, q);
    }
}

/// [`lemma_add_agrees`] for points with `Z1 != 0` and `Z2 != 0`.
#[verifier::rlimit(100)]
proof fn lemma_add_agrees_finite<C: SWCurveConfig>(p: JacobianView, q: JacobianView)
    requires
        odd_field::<C>(),
        inverse_ok::<C::BaseField>(),
        p.0 < modulus_of::<C::BaseField>(),
        p.1 < modulus_of::<C::BaseField>(),
        p.2 < modulus_of::<C::BaseField>(),
        q.0 < modulus_of::<C::BaseField>(),
        q.1 < modulus_of::<C::BaseField>(),
        q.2 < modulus_of::<C::BaseField>(),
        p.2 != 0,
        q.2 != 0,
        coeff_a::<C>() < modulus_of::<C::BaseField>(),
        on_curve::<C>(to_affine_spec::<C>(p)),
        on_curve::<C>(to_affine_spec::<C>(q)),
    ensures
        to_affine_spec::<C>(jacobian_add::<C>(p, q)) == add_spec::<C>(
            to_affine_spec::<C>(p),
            to_affine_spec::<C>(q),
        ),
{
    let mm = modulus_of::<C::BaseField>();
    let m = mm as int;
    assert(m >= 3);
    lemma_small_mod(0, mm);
    lemma_step_zero::<C::BaseField>(p.0);
    lemma_step_zero::<C::BaseField>(p.1);
    lemma_step_zero::<C::BaseField>(p.2);
    lemma_step_zero::<C::BaseField>(q.0);
    lemma_step_zero::<C::BaseField>(q.1);
    lemma_step_zero::<C::BaseField>(q.2);
    let cx1 = fe_int::<C::BaseField>(p.0);
    let cy1 = fe_int::<C::BaseField>(p.1);
    let cz1 = fe_int::<C::BaseField>(p.2);
    let cx2 = fe_int::<C::BaseField>(q.0);
    let cy2 = fe_int::<C::BaseField>(q.1);
    let cz2 = fe_int::<C::BaseField>(q.2);
    // the affine points
    lemma_step_inv::<C::BaseField>(p.2);
    lemma_step_inv::<C::BaseField>(q.2);
    let zi1 = fe_inv::<C::BaseField>(p.2);
    let zi2 = fe_inv::<C::BaseField>(q.2);
    let i1 = fe_int::<C::BaseField>(zi1);
    let i2 = fe_int::<C::BaseField>(zi2);
    let zi1s = fe_mul::<C::BaseField>(zi1, zi1);
    lemma_step_mul::<C::BaseField>(zi1, zi1);
    let zi1c = fe_mul::<C::BaseField>(zi1s, zi1);
    lemma_step_mul::<C::BaseField>(zi1s, zi1);
    let zi2s = fe_mul::<C::BaseField>(zi2, zi2);
    lemma_step_mul::<C::BaseField>(zi2, zi2);
    let zi2c = fe_mul::<C::BaseField>(zi2s, zi2);
    lemma_step_mul::<C::BaseField>(zi2s, zi2);
    let px1 = fe_mul::<C::BaseField>(p.0, zi1s);
    lemma_step_mul::<C::BaseField>(p.0, zi1s);
    let py1 = fe_mul::<C::BaseField>(p.1, zi1c);
    lemma_step_mul::<C::BaseField>(p.1, zi1c);
    let px2 = fe_mul::<C::BaseField>(q.0, zi2s);
    lemma_step_mul::<C::BaseField>(q.0, zi2s);
    let py2 = fe_mul::<C::BaseField>(q.1, zi2c);
    lemma_step_mul::<C::BaseField>(q.1, zi2c);
    let pa = (px1, py1, false);
    let qa = (px2, py2, false);
    assert(to_affine_spec::<C>(p) == pa);
    assert(to_affine_spec::<C>(q) == qa);
    let cpx1 = fe_int::<C::BaseField>(px1);
    let cpy1 = fe_int::<C::BaseField>(py1);
    let cpx2 = fe_int::<C::BaseField>(px2);
    let cpy2 = fe_int::<C::BaseField>(py2);
    lemma_mul_cong(fe_int::<C::BaseField>(zi1s), i1 * i1, i1, i1, m);
    lemma_mul_cong(fe_int::<C::BaseField>(zi2s), i2 * i2, i2, i2, m);
    lemma_mul_cong(cx1, cx1, fe_int::<C::BaseField>(zi1s), i1 * i1, m);
    lemma_mul_cong(cx2, cx2, fe_int::<C::BaseField>(zi2s), i2 * i2, m);
    lemma_mul_cong(cy1, cy1, fe_int::<C::BaseField>(zi1c), (i1 * i1) * i1, m);
    lemma_mul_cong(cy2, cy2, fe_int::<C::BaseField>(zi2c), (i2 * i2) * i2, m);
    // the Jacobian differences H and R
    let pz2 = fe_mul::<C::BaseField>(p.2, p.2);
    lemma_step_mul::<C::BaseField>(p.2, p.2);
    let qz2 = fe_mul::<C::BaseField>(q.2, q.2);
    lemma_step_mul::<C::BaseField>(q.2, q.2);
    let u1 = fe_mul::<C::BaseField>(p.0, qz2);
    lemma_step_mul::<C::BaseField>(p.0, qz2);
    let u2 = fe_mul::<C::BaseField>(q.0, pz2);
    lemma_step_mul::<C::BaseField>(q.0, pz2);
    let yq = fe_mul::<C::BaseField>(p.1, qz2);
    lemma_step_mul::<C::BaseField>(p.1, qz2);
    let s1 = fe_mul::<C::BaseField>(yq, q.2);
    lemma_step_mul::<C::BaseField>(yq, q.2);
    let yp = fe_mul::<C::BaseField>(q.1, pz2);
    lemma_step_mul::<C::BaseField>(q.1, pz2);
    let s2 = fe_mul::<C::BaseField>(yp, p.2);
    lemma_step_mul::<C::BaseField>(yp, p.2);
    let h = fe_sub::<C::BaseField>(u2, u1);
    lemma_step_sub::<C::BaseField>(u2, u1);
    let r = fe_sub::<C::BaseField>(s2, s1);
    lemma_step_sub::<C::BaseField>(s2, s1);
    let ch = fe_int::<C::BaseField>(h);
    let cr = fe_int::<C::BaseField>(r);
    let cu1 = fe_int::<C::BaseField>(u1);
    let cs1 = fe_int::<C::BaseField>(s1);
    lemma_mul_cong(cx1, cx1, fe_int::<C::BaseField>(qz2), cz2 * cz2, m);
    lemma_mul_cong(cx2, cx2, fe_int::<C::BaseField>(pz2), cz1 * cz1, m);
    lemma_mul_cong(cy1, cy1, fe_int::<C::BaseField>(qz2), cz2 * cz2, m);
    lemma_mul_cong(fe_int::<C::BaseField>(yq), cy1 * (cz2 * cz2), cz2, cz2, m);
    assert((cy1 * (cz2 * cz2)) * cz2 == cy1 * ((cz2 * cz2) * cz2)) by (nonlinear_arith);
    lemma_mul_cong(cy2, cy2, fe_int::<C::BaseField>(pz2), cz1 * cz1, m);
    lemma_mul_cong(fe_int::<C::BaseField>(yp), cy2 * (cz1 * cz1), cz1, cz1, m);
    assert((cy2 * (cz1 * cz1)) * cz1 == cy2 * ((cz1 * cz1) * cz1)) by (nonlinear_arith);
    let den = fe_sub::<C::BaseField>(px2, px1);
    lemma_step_sub::<C::BaseField>(px2, px1);
    let num = fe_sub::<C::BaseField>(py2, py1);
    lemma_step_sub::<C::BaseField>(py2, py1);
    let cden = fe_int::<C::BaseField>(den);
    let cnum = fe_int::<C::BaseField>(num);
    lemma_chord_h(ch, cu1, fe_int::<C::BaseField>(u2), cx1, cx2, cz1, cz2, i1, i2, cden, cpx1, cpx2, m);
    lemma_chord_r(cr, cs1, fe_int::<C::BaseField>(s2), cy1, cy2, cz1, cz2, i1, i2, cnum, cpy1, cpy2, m);
    lemma_chord_units(cz1, cz2, i1, i2, m);
    let k = cz1 * cz2;
    let ik = i1 * i2;
    lemma_small_mod(ch as nat, mm);
    lemma_small_mod(cr as nat, mm);
    lemma_small_mod(cden as nat, mm);
    lemma_small_mod(cnum as nat, mm);
    lemma_step_zero::<C::BaseField>(h);
    lemma_step_zero::<C::BaseField>(r);
    lemma_step_zero::<C::BaseField>(den);
    // H = 0 exactly when the affine x agree, R = 0 exactly when the affine y agree
    assert((h == 0) == (px1 == px2)) by {
        if px1 == px2 {
            assert(cden % m == 0);
            lemma_mul_cong(k * k, k * k, cden, 0, m);
            assert(((k * k) * 0) == 0);
            assert(ch % m == 0);
            assert(ch == 0);
        }
        if h == 0 {
            assert(ch == 0);
            assert(((k * k) * cden) % m == 0);
            lemma_unit_cancel(k * k, ik * ik, cden, m);
            lemma_diff_zero(cpx2, cpx1, m);
            lemma_canonical_injective::<C::BaseField>(px1, px2);
        }
    }
    assert((r == 0) == (py1 == py2)) by {
        if py1 == py2 {
            assert(cnum % m == 0);
            lemma_mul_cong((k * k) * k, (k * k) * k, cnum, 0, m);
            assert((((k * k) * k) * 0) == 0);
            assert(cr % m == 0);
            assert(cr == 0);
        }
        if r == 0 {
            assert(cr == 0);
            assert((((k * k) * k) * cnum) % m == 0);
            lemma_unit_cancel((k * k) * k, (ik * ik) * ik, cnum, m);
            lemma_diff_zero(cpy2, cpy1, m);
            lemma_canonical_injective::<C::BaseField>(py1, py2);
        }
    }
    if h == 0 {
        if r == 0 {
            assert(pa == qa);
            lemma_double_agrees::<C>(p);
            crate::affine::lemma_add_self::<C>(pa);
        } else {
            crate::affine::lemma_same_x::<C>(pa, qa);
        }
    } else {
        assert(cden != 0) by {
            if cden == 0 {
                lemma_diff_zero(cpx2, cpx1, m);
                lemma_canonical_injective::<C::BaseField>(px1, px2);
            }
        }
        lemma_add_agrees_chord::<C>(p, q);
    }
}

/// [`lemma_add_agrees`] for points with `Z1 != 0`, `Z2 != 0` and different affine `x`.
#[verifier::rlimit(100)]
proof fn lemma_add_agrees_chord<C: SWCurveConfig>(p: JacobianView, q: JacobianView)
    requires
        odd_field::<C>(),
        inverse_ok::<C::BaseField>(),
        p.0 < modulus_of::<C::BaseField>(),
        p.1 < modulus_of::<C::BaseField>(),
        p.2 < modulus_of::<C::BaseField>(),
        q.0 < modulus_of::<C::BaseField>(),
        q.1 < modulus_of::<C::BaseField>(),
        q.2 < modulus_of::<C::BaseField>(),
        p.2 != 0,
        q.2 != 0,
        to_affine_spec::<C>(p).0 != to_affine_spec::<C>(q).0,
    ensures
        to_affine_spec::<C>(jacobian_add::<C>(p, q)) == add_spec::<C>(
            to_affine_spec::<C>(p),
            to_affine_spec::<C>(q),
        ),
{
    let mm = modulus_of::<C::BaseField>();
    let m = mm as int;
    assert(m >= 3);
    lemma_small_mod(0, mm);
    lemma_step_zero::<C::BaseField>(p.0);
    lemma_step_zero::<C::BaseField>(p.1);
    lemma_step_zero::<C::BaseField>(p.2);
    lemma_step_zero::<C::BaseField>(q.0);
    lemma_step_zero::<C::BaseField>(q.1);
    lemma_step_zero::<C::BaseField>(q.2);
    let cx1 = fe_int::<C::BaseField>(p.0);
    let cy1 = fe_int::<C::BaseField>(p.1);
    let cz1 = fe_int::<C::BaseField>(p.2);
    let cx2 = fe_int::<C::BaseField>(q.0);
    let cy2 = fe_int::<C::BaseField>(q.1);
    let cz2 = fe_int::<C::BaseField>(q.2);
    // the affine points
    lemma_step_inv::<C::BaseField>(p.2);
    lemma_step_inv::<C::BaseField>(q.2);
    let zi1 = fe_inv::<C::BaseField>(p.2);
    let zi2 = fe_inv::<C::BaseField>(q.2);
    let i1 = fe_int::<C::BaseField>(zi1);
    let i2 = fe_int::<C::BaseField>(zi2);
    let zi1s = fe_mul::<C::BaseField>(zi1, zi1);
    lemma_step_mul::<C::BaseField>(zi1, zi1);
    let zi1c = fe_mul::<C::BaseField>(zi1s, zi1);
    lemma_step_mul::<C::BaseField>(zi1s, zi1);
    let zi2s = fe_mul::<C::BaseField>(zi2, zi2);
    lemma_step_mul::<C::BaseField>(zi2, zi2);
    let zi2c = fe_mul::<C::BaseField>(zi2s, zi2);
    lemma_step_mul::<C::BaseField>(zi2s, zi2);
    let px1 = fe_mul::<C::BaseField>(p.0, zi1s);
    lemma_step_mul::<C::BaseField>(p.0, zi1s);
    let py1 = fe_mul::<C::BaseField>(p.1, zi1c);
    lemma_step_mul::<C::BaseField>(p.1, zi1c);
    let px2 = fe_mul::<C::BaseField>(q.0, zi2s);
    lemma_step_mul::<C::BaseField>(q.0, zi2s);
    let py2 = fe_mul::<C::BaseField>(q.1, zi2c);
    lemma_step_mul::<C::BaseField>(q.1, zi2c);
    let pa = (px1, py1, false);
    let qa = (px2, py2, false);
    assert(to_affine_spec::<C>(p) == pa);
    assert(to_affine_spec::<C>(q) == qa);
    let cpx1 = fe_int::<C::BaseField>(px1);
    let cpy1 = fe_int::<C::BaseField>(py1);
    let cpx2 = fe_int::<C::BaseField>(px2);
    let cpy2 = fe_int::<C::BaseField>(py2);
    lemma_mul_cong(fe_int::<C::BaseField>(zi1s), i1 * i1, i1, i1, m);
    lemma_mul_cong(fe_int::<C::BaseField>(zi2s), i2 * i2, i2, i2, m);
    lemma_mul_cong(cx1, cx1, fe_int::<C::BaseField>(zi1s), i1 * i1, m);
    lemma_mul_cong(cx2, cx2, fe_int::<C::BaseField>(zi2s), i2 * i2, m);
    lemma_mul_cong(cy1, cy1, fe_int::<C::BaseField>(zi1c), (i1 * i1) * i1, m);
    lemma_mul_cong(cy2, cy2, fe_int::<C::BaseField>(zi2c), (i2 * i2) * i2, m);
    // the Jacobian differences H and R
    let pz2 = fe_mul::<C::BaseField>(p.2, p.2);
    lemma_step_mul::<C::BaseField>(p.2, p.2);
    let qz2 = fe_mul::<C::BaseField>(q.2, q.2);
    lemma_step_mul::<C::BaseField>(q.2, q.2);
    let u1 = fe_mul::<C::BaseField>(p.0, qz2);
    lemma_step_mul::<C::BaseField>(p.0, qz2);
    let u2 = fe_mul::<C::BaseField>(q.0, pz2);
    lemma_step_mul::<C::BaseField>(q.0, pz2);
    let yq = fe_mul::<C::BaseField>(p.1, qz2);
    lemma_step_mul::<C::BaseField>(p.1, qz2);
    let s1 = fe_mul::<C::BaseField>(yq, q.2);
    lemma_step_mul::<C::BaseField>(yq, q.2);
    let yp = fe_mul::<C::BaseField>(q.1, pz2);
    lemma_step_mul::<C::BaseField>(q.1, pz2);
    let s2 = fe_mul::<C::BaseField>(yp, p.2);
    lemma_step_mul::<C::BaseField>(yp, p.2);
    let h = fe_sub::<C::BaseField>(u2, u1);
    lemma_step_sub::<C::BaseField>(u2, u1);
    let r = fe_sub::<C::BaseField>(s2, s1);
    lemma_step_sub::<C::BaseField>(s2, s1);
    let ch = fe_int::<C::BaseField>(h);
    let cr = fe_int::<C::BaseField>(r);
    let cu1 = fe_int::<C::BaseField>(u1);
    let cs1 = fe_int::<C::BaseField>(s1);
    lemma_mul_cong(cx1, cx1, fe_int::<C::BaseField>(qz2), cz2 * cz2, m);
    lemma_mul_cong(cx2, cx2, fe_int::<C::BaseField>(pz2), cz1 * cz1, m);
    lemma_mul_cong(cy1, cy1, fe_int::<C::BaseField>(qz2), cz2 * cz2, m);
    lemma_mul_cong(fe_int::<C::BaseField>(yq), cy1 * (cz2 * cz2), cz2, cz2, m);
    assert((cy1 * (cz2 * cz2)) * cz2 == cy1 * ((cz2 * cz2) * cz2)) by (nonlinear_arith);
    lemma_mul_cong(cy2, cy2, fe_int::<C::BaseField>(pz2), cz1 * cz1, m);
    lemma_mul_cong(fe_int::<C::BaseField>(yp), cy2 * (cz1 * cz1), cz1, cz1, m);
    assert((cy2 * (cz1 * cz1)) * cz1 == cy2 * ((cz1 * cz1) * cz1)) by (nonlinear_arith);
    let den = fe_sub::<C::BaseField>(px2, px1);
    lemma_step_sub::<C::BaseField>(px2, px1);
    let num = fe_sub::<C::BaseField>(py2, py1);
    lemma_step_sub::<C::BaseField>(py2, py1);
    let cden = fe_int::<C::BaseField>(den);
    let cnum = fe_int::<C::BaseField>(num);
    lemma_chord_h(ch, cu1, fe_int::<C::BaseField>(u2), cx1, cx2, cz1, cz2, i1, i2, cden, cpx1, cpx2, m);
    lemma_chord_r(cr, cs1, fe_int::<C::BaseField>(s2), cy1, cy2, cz1, cz2, i1, i2, cnum, cpy1, cpy2, m);
    lemma_chord_units(cz1, cz2, i1, i2, m);
    let k = cz1 * cz2;
    let ik = i1 * i2;
    lemma_small_mod(ch as nat, mm);
    lemma_small_mod(cr as nat, mm);
    lemma_small_mod(cden as nat, mm);
    lemma_small_mod(cnum as nat, mm);
    lemma_step_zero::<C::BaseField>(h);
    lemma_step_zero::<C::BaseField>(r);
    lemma_step_zero::<C::BaseField>(den);
    assert(cden != 0) by {
        if cden == 0 {
            lemma_diff_zero(cpx2, cpx1, m);
            lemma_canonical_injective::<C::BaseField>(px1, px2);
        }
    }
    assert(ch != 0) by {
        if ch == 0 {
            lemma_unit_cancel(k * k, ik * ik, cden, m);
        }
    }
    assert(add_spec::<C>(pa, qa) == crate::affine::add_candidate::<C>(pa, qa));
    // the chord rule on the affine points
    lemma_step_inv::<C::BaseField>(den);
    let vi = fe_inv::<C::BaseField>(den);
    let cvi = fe_int::<C::BaseField>(vi);
    let lam = fe_mul::<C::BaseField>(num, vi);
    lemma_step_mul::<C::BaseField>(num, vi);
    let ll = fe_mul::<C::BaseField>(lam, lam);
    lemma_step_mul::<C::BaseField>(lam, lam);
    let a1 = fe_sub::<C::BaseField>(ll, px1);
    lemma_step_sub::<C::BaseField>(ll, px1);
    let x3 = fe_sub::<C::BaseField>(a1, px2);
    lemma_step_sub::<C::BaseField>(a1, px2);
    let d1 = fe_sub::<C::BaseField>(px1, x3);
    lemma_step_sub::<C::BaseField>(px1, x3);
    let lm = fe_mul::<C::BaseField>(lam, d1);
    lemma_step_mul::<C::BaseField>(lam, d1);
    let y3 = fe_sub::<C::BaseField>(lm, py1);
    lemma_step_sub::<C::BaseField>(lm, py1);
    assert(crate::affine::add_candidate::<C>(pa, qa) == (x3, y3, false));
    // the Jacobian sum
    let two = fe_from_int::<C::BaseField>(2);
    lemma_step_int::<C::BaseField>(2);
    lemma_step_zero::<C::BaseField>(two);
    lemma_small_mod(2, mm);
    lemma_small_mod(fe_int::<C::BaseField>(two) as nat, mm);
    assert(fe_int::<C::BaseField>(two) == 2);
    let h2 = fe_mul::<C::BaseField>(h, h);
    lemma_step_mul::<C::BaseField>(h, h);
    let h3 = fe_mul::<C::BaseField>(h2, h);
    lemma_step_mul::<C::BaseField>(h2, h);
    let rr = fe_mul::<C::BaseField>(r, r);
    lemma_step_mul::<C::BaseField>(r, r);
    let t = fe_sub::<C::BaseField>(rr, h3);
    lemma_step_sub::<C::BaseField>(rr, h3);
    let tu = fe_mul::<C::BaseField>(two, u1);
    lemma_step_mul::<C::BaseField>(two, u1);
    let tuh = fe_mul::<C::BaseField>(tu, h2);
    lemma_step_mul::<C::BaseField>(tu, h2);
    let xj = fe_sub::<C::BaseField>(t, tuh);
    lemma_step_sub::<C::BaseField>(t, tuh);
    let uh = fe_mul::<C::BaseField>(u1, h2);
    lemma_step_mul::<C::BaseField>(u1, h2);
    let q1 = fe_sub::<C::BaseField>(uh, xj);
    lemma_step_sub::<C::BaseField>(uh, xj);
    let rq = fe_mul::<C::BaseField>(r, q1);
    lemma_step_mul::<C::BaseField>(r, q1);
    let sh = fe_mul::<C::BaseField>(s1, h3);
    lemma_step_mul::<C::BaseField>(s1, h3);
    let yj = fe_sub::<C::BaseField>(rq, sh);
    lemma_step_sub::<C::BaseField>(rq, sh);
    let hz = fe_mul::<C::BaseField>(h, p.2);
    lemma_step_mul::<C::BaseField>(h, p.2);
    let zj = fe_mul::<C::BaseField>(hz, q.2);
    lemma_step_mul::<C::BaseField>(hz, q.2);
    assert(jacobian_add::<C>(p, q) == (xj, yj, zj));
    // Z3 = H Z1 Z2 is nonzero and has an inverse w
    let chz = fe_int::<C::BaseField>(hz);
    let czj = fe_int::<C::BaseField>(zj);
    lemma_small_mod(chz as nat, mm);
    lemma_small_mod(czj as nat, mm);
    lemma_step_zero::<C::BaseField>(zj);
    assert(chz != 0) by {
        if chz == 0 {
            lemma_no_zero_divisors::<C::BaseField>(ch, cz1);
        }
    }
    assert(czj != 0) by {
        if czj == 0 {
            lemma_no_zero_divisors::<C::BaseField>(chz, cz2);
        }
    }
    lemma_mul_cong(chz, ch * cz1, cz2, cz2, m);
    assert((ch * cz1) * cz2 == ch * (cz1 * cz2)) by (nonlinear_arith);
    lemma_step_inv::<C::BaseField>(zj);
    let w = fe_inv::<C::BaseField>(zj);
    let cw = fe_int::<C::BaseField>(w);
    let w2 = fe_mul::<C::BaseField>(w, w);
    lemma_step_mul::<C::BaseField>(w, w);
    let w3 = fe_mul::<C::BaseField>(w2, w);
    lemma_step_mul::<C::BaseField>(w2, w);
    let xres = fe_mul::<C::BaseField>(xj, w2);
    lemma_step_mul::<C::BaseField>(xj, w2);
    let yres = fe_mul::<C::BaseField>(yj, w3);
    lemma_step_mul::<C::BaseField>(yj, w3);
    assert(to_affine_spec::<C>(jacobian_add::<C>(p, q)) == (xres, yres, false));
    // the slope is R w, and H w is 1 / (Z1 Z2)
    lemma_chord_hw(ch, cw, czj, cz1, cz2, i1, i2, m);
    lemma_chord_slope(fe_int::<C::BaseField>(lam), cnum, cvi, cden, cr, ch, czj, cw, cz1, cz2, m);
    lemma_chord_x_pieces(ch, cden, cu1, cx1, cpx1, cz1, cz2, i1, i2, m);
    // x3 agrees
    lemma_chord_x_value(
        fe_int::<C::BaseField>(xres),
        fe_int::<C::BaseField>(xj),
        fe_int::<C::BaseField>(w2),
        fe_int::<C::BaseField>(t),
        fe_int::<C::BaseField>(rr),
        fe_int::<C::BaseField>(h3),
        fe_int::<C::BaseField>(h2),
        fe_int::<C::BaseField>(tu),
        fe_int::<C::BaseField>(tuh),
        cu1,
        ch,
        cr,
        cw,
        fe_int::<C::BaseField>(lam),
        fe_int::<C::BaseField>(ll),
        fe_int::<C::BaseField>(a1),
        fe_int::<C::BaseField>(x3),
        cpx1,
        cpx2,
        cden,
        i1,
        i2,
        m,
    );
    lemma_small_mod(fe_int::<C::BaseField>(xres) as nat, mm);
    lemma_small_mod(fe_int::<C::BaseField>(x3) as nat, mm);
    lemma_canonical_injective::<C::BaseField>(xres, x3);
    // y3 agrees
    lemma_chord_y_value(
        fe_int::<C::BaseField>(yres),
        fe_int::<C::BaseField>(yj),
        fe_int::<C::BaseField>(w3),
        fe_int::<C::BaseField>(w2),
        fe_int::<C::BaseField>(rq),
        fe_int::<C::BaseField>(q1),
        fe_int::<C::BaseField>(uh),
        fe_int::<C::BaseField>(sh),
        cs1,
        fe_int::<C::BaseField>(h3),
        fe_int::<C::BaseField>(h2),
        cu1,
        fe_int::<C::BaseField>(xj),
        fe_int::<C::BaseField>(xres),
        ch,
        cr,
        cw,
        fe_int::<C::BaseField>(lam),
        fe_int::<C::BaseField>(x3),
        fe_int::<C::BaseField>(d1),
        fe_int::<C::BaseField>(lm),
        fe_int::<C::BaseField>(y3),
        cpx1,
        cpy1,
        cy1,
        cz2,
        i1,
        i2,
        m,
    );
    lemma_small_mod(fe_int::<C::BaseField>(yres) as nat, mm);
    lemma_small_mod(fe_int::<C::BaseField>(y3) as nat, mm);
    lemma_canonical_injective::<C::BaseField>(yres, y3);
}

} // verus!
