//! The tangent and chord rules keep points on the curve: in a base field of odd
//! characteristic with inverses, doubling or adding points of the curve gives a
//! point of the curve, which is what [`group_closed`] and [`double_closed`] ask.
use vstd::prelude::*;

use crate::affine::{
    add_candidate, add_defined, add_spec, coeff_a, coeff_b, curve_ok, curve_point,
    double_candidate, double_closed, double_defined, double_spec, generator_ok, group_closed,
    mul_by_a_spec, neg_spec, odd_field, on_curve, order_of, PointView, SWCurveConfig,
};
use crate::affine::lemma_same_x;
use crate::arith::{
    lemma_add_cong, lemma_diff_zero, lemma_mul_cong, lemma_sub_cong, lemma_unit_cancel,
};
use crate::prime_field::{
    fe_add, fe_from_int, fe_int, fe_inv, fe_mul, fe_sub, field_ok, inverse_ok,
    lemma_canonical_injective, lemma_no_zero_divisors, lemma_step_add, lemma_step_int,
    lemma_step_inv, lemma_step_mul, lemma_step_sub, lemma_step_zero, modulus_of,
};
use vstd::arithmetic::div_mod::lemma_small_mod;

verus! {

/// `(l X + beta)^2 = l^2 X^2 + 2 (l beta) X + beta^2`.
proof fn lemma_ring_line_square(xx: int, l: int, beta: int)
    ensures
        (l * xx + beta) * (l * xx + beta) == (l * l) * (xx * xx) + 2 * ((l * beta) * xx) + beta
            * beta,
{
    assert((l * xx + beta) * (l * xx + beta) == (l * l) * (xx * xx) + 2 * ((l * beta) * xx) + beta
        * beta) by (nonlinear_arith);
}

/// `(X - x1)(X - x2)(X - x3) = X^3 - s1 X^2 + s2 X - s3`.
proof fn lemma_ring_three_roots(xx: int, x1: int, x2: int, x3: int)
    ensures
        ((xx - x1) * (xx - x2)) * (xx - x3) == (xx * xx) * xx - (x1 + x2 + x3) * (xx * xx) + ((x1
            * x2 + x1 * x3) + x2 * x3) * xx - (x1 * x2) * x3,
{
    let q = (xx - x1) * (xx - x2);
    let s = x1 + x2;
    let p = x1 * x2;
    let x2x = xx * xx;
    assert(q == x2x - s * xx + p) by (nonlinear_arith)
        requires
            q == (xx - x1) * (xx - x2),
            s == x1 + x2,
            p == x1 * x2,
            x2x == xx * xx,
    ;
    assert(q * (xx - x3) == q * xx - q * x3) by (nonlinear_arith);
    assert((x2x - s * xx + p) * xx == x2x * xx - s * (xx * xx) + p * xx) by (nonlinear_arith)
        requires
            x2x == xx * xx,
    ;
    assert((x2x - s * xx + p) * x3 == x3 * x2x - s * (xx * x3) + p * x3) by (nonlinear_arith);
    assert((s + x3) * x2x == s * x2x + x3 * x2x) by (nonlinear_arith);
    assert((p + x1 * x3 + x2 * x3) * xx == p * xx + s * (xx * x3)) by (nonlinear_arith)
        requires
            s == x1 + x2,
    ;
}

/// The cubic of the curve less the square of the line `l X + beta` less the
/// cubic with roots `x1, x2, x3` is a polynomial of degree 2 in `X`.
proof fn lemma_ring_line_cubic(
    xx: int,
    x1: int,
    x2: int,
    x3: int,
    l: int,
    a: int,
    b: int,
    beta: int,
)
    ensures
        ((xx * xx) * xx + a * xx + b) - (l * xx + beta) * (l * xx + beta) - ((xx - x1) * (xx
            - x2)) * (xx - x3) == ((x1 + x2 + x3) - l * l) * (xx * xx) + (a - 2 * (l * beta) - ((
        x1 * x2 + x1 * x3) + x2 * x3)) * xx + (b - beta * beta + (x1 * x2) * x3),
{
    let s1 = x1 + x2 + x3;
    let s2 = (x1 * x2 + x1 * x3) + x2 * x3;
    lemma_ring_line_square(xx, l, beta);
    lemma_ring_three_roots(xx, x1, x2, x3);
    assert((s1 - l * l) * (xx * xx) == s1 * (xx * xx) - (l * l) * (xx * xx)) by (nonlinear_arith);
    assert((a - 2 * (l * beta) - s2) * xx == a * xx - 2 * ((l * beta) * xx) - s2 * xx)
        by (nonlinear_arith);
}

/// The tangent identity: with `x3 = x + t`,
/// `x3^3 + a x3 - (l t + y)^2 = (x^3 + a x - y^2) + t (3 x^2 + a - 2 l y) + t^2 (3 x + t - l^2)`.
proof fn lemma_ring_tangent(x: int, t: int, l: int, y: int, a: int)
    ensures
        (((x + t) * (x + t)) * (x + t) + a * (x + t)) - (l * t + y) * (l * t + y) == ((x * x) * x
            + a * x - y * y) + t * ((3 * (x * x) + a) - l * (2 * y)) + (t * t) * ((x + t) + 2 * x
            - l * l),
{
    let xt = x + t;
    assert((xt * xt) * xt == (x * x) * x + 3 * ((x * x) * t) + 3 * (x * (t * t)) + (t * t) * t)
        by (nonlinear_arith)
        requires
            xt == x + t,
    ;
    assert(a * xt == a * x + a * t) by (nonlinear_arith)
        requires
            xt == x + t,
    ;
    assert((l * t + y) * (l * t + y) == (l * l) * (t * t) + 2 * ((l * t) * y) + y * y)
        by (nonlinear_arith);
    assert(t * ((3 * (x * x) + a) - l * (2 * y)) == 3 * ((x * x) * t) + a * t - 2 * ((l * t) * y))
        by (nonlinear_arith);
    assert((t * t) * (xt + 2 * x - l * l) == 3 * (x * (t * t)) + (t * t) * t - (l * l) * (t * t))
        by (nonlinear_arith)
        requires
            xt == x + t,
    ;
}

/// The tangent rule modulo `m`: if `(x, y)` satisfies `y^2 = x^3 + a x + b`,
/// `l (2 y) = 3 x^2 + a`, `x3 = l^2 - 2 x` and `y3 = l (x - x3) - y`, then
/// `(x3, y3)` satisfies the equation too.
proof fn lemma_tangent_int(x: int, y: int, l: int, a: int, b: int, x3: int, y3: int, m: int)
    requires
        m > 1,
        (y * y) % m == ((x * x) * x + a * x + b) % m,
        (l * (2 * y)) % m == (3 * (x * x) + a) % m,
        x3 % m == (l * l - 2 * x) % m,
        y3 % m == (l * (x - x3) - y) % m,
    ensures
        (y3 * y3) % m == ((x3 * x3) * x3 + a * x3 + b) % m,
{
    let t = x3 - x;
    let f = (x * x) * x + a * x + b;
    let f3 = (x3 * x3) * x3 + a * x3 + b;
    let line = l * t + y;
    let e1 = f - y * y;
    let e2 = (3 * (x * x) + a) - l * (2 * y);
    let e3 = x3 + 2 * x - l * l;
    assert(f3 - line * line == e1 + t * e2 + (t * t) * e3) by {
        lemma_ring_tangent(x, t, l, y, a);
        assert(x3 == x + t);
    }
    lemma_small_mod(0, m as nat);
    // each of e1, e2, e3 vanishes modulo m
    lemma_sub_cong(f, y * y, y * y, y * y, m);
    lemma_sub_cong(3 * (x * x) + a, l * (2 * y), l * (2 * y), l * (2 * y), m);
    lemma_add_cong(x3, l * l - 2 * x, 2 * x, 2 * x, m);
    lemma_sub_cong(x3 + 2 * x, l * l, l * l, l * l, m);
    lemma_mul_cong(t, t, e2, 0, m);
    lemma_mul_cong(t * t, t * t, e3, 0, m);
    lemma_add_cong(e1, 0, t * e2, 0, m);
    lemma_add_cong(e1 + t * e2, 0, (t * t) * e3, 0, m);
    // so f3 is the square of the line at x3, and y3 is minus that line
    lemma_add_cong(f3 - line * line, 0, line * line, line * line, m);
    assert(l * (x - x3) - y == -line) by (nonlinear_arith)
        requires
            line == l * t + y,
            t == x3 - x,
    ;
    lemma_mul_cong(y3, -line, y3, -line, m);
    assert((-line) * (-line) == line * line) by (nonlinear_arith);
}

/// The chord rule modulo `m`: if `(x1, y1)` and `(x2, y2)` satisfy
/// `y^2 = x^3 + a x + b`, `x2 - x1` has the inverse `di`, `l (x2 - x1) = y2 - y1`,
/// `x3 = l^2 - x1 - x2` and `y3 = l (x1 - x3) - y1`, then `(x3, y3)` satisfies
/// the equation too.
proof fn lemma_chord_int(
    x1: int,
    y1: int,
    x2: int,
    y2: int,
    l: int,
    a: int,
    b: int,
    x3: int,
    y3: int,
    di: int,
    m: int,
)
    requires
        m > 1,
        (y1 * y1) % m == ((x1 * x1) * x1 + a * x1 + b) % m,
        (y2 * y2) % m == ((x2 * x2) * x2 + a * x2 + b) % m,
        ((x2 - x1) * di) % m == 1,
        (l * (x2 - x1)) % m == (y2 - y1) % m,
        x3 % m == (l * l - x1 - x2) % m,
        y3 % m == (l * (x1 - x3) - y1) % m,
    ensures
        (y3 * y3) % m == ((x3 * x3) * x3 + a * x3 + b) % m,
{
    let beta = y1 - l * x1;
    let e0 = (x1 + x2 + x3) - l * l;
    let c1 = a - 2 * (l * beta) - ((x1 * x2 + x1 * x3) + x2 * x3);
    let c0 = b - beta * beta + (x1 * x2) * x3;
    let f1 = (x1 * x1) * x1 + a * x1 + b;
    let f2 = (x2 * x2) * x2 + a * x2 + b;
    let f3 = (x3 * x3) * x3 + a * x3 + b;
    let l1 = l * x1 + beta;
    let l2 = l * x2 + beta;
    let l3 = l * x3 + beta;
    lemma_ring_line_cubic(x1, x1, x2, x3, l, a, b, beta);
    lemma_ring_line_cubic(x2, x1, x2, x3, l, a, b, beta);
    lemma_ring_line_cubic(x3, x1, x2, x3, l, a, b, beta);
    assert(((x1 - x1) * (x1 - x2)) * (x1 - x3) == 0) by (nonlinear_arith);
    assert(((x2 - x1) * (x2 - x2)) * (x2 - x3) == 0) by (nonlinear_arith);
    assert(((x3 - x1) * (x3 - x2)) * (x3 - x3) == 0) by (nonlinear_arith);
    lemma_small_mod(0, m as nat);
    // the X^2 coefficient vanishes
    lemma_add_cong(x1 + x2, x1 + x2, x3, l * l - x1 - x2, m);
    lemma_sub_cong(x1 + x2 + x3, l * l, l * l, l * l, m);
    // the line passes through both points
    assert(l1 == y1);
    assert(l2 == l * (x2 - x1) + y1) by (nonlinear_arith)
        requires
            l2 == l * x2 + beta,
            beta == y1 - l * x1,
    ;
    lemma_add_cong(l * (x2 - x1), y2 - y1, y1, y1, m);
    lemma_mul_cong(l2, y2, l2, y2, m);
    lemma_sub_cong(f1, y1 * y1, y1 * y1, y1 * y1, m);
    lemma_sub_cong(f2, y2 * y2, l2 * l2, y2 * y2, m);
    // so c1 x1 + c0 and c1 x2 + c0 vanish
    lemma_mul_cong(e0, 0, x1 * x1, x1 * x1, m);
    lemma_mul_cong(e0, 0, x2 * x2, x2 * x2, m);
    lemma_mul_cong(e0, 0, x3 * x3, x3 * x3, m);
    lemma_sub_cong(e0 * (x1 * x1) + c1 * x1 + c0, 0, e0 * (x1 * x1), 0, m);
    lemma_sub_cong(e0 * (x2 * x2) + c1 * x2 + c0, 0, e0 * (x2 * x2), 0, m);
    // c1 (x2 - x1) vanishes, so c1 does, and then c0 does
    assert((x2 - x1) * c1 == (c1 * x2 + c0) - (c1 * x1 + c0)) by (nonlinear_arith);
    lemma_sub_cong(c1 * x2 + c0, 0, c1 * x1 + c0, 0, m);
    lemma_unit_cancel(x2 - x1, di, c1, m);
    lemma_mul_cong(c1, 0, x1, x1, m);
    lemma_sub_cong(c1 * x1 + c0, 0, c1 * x1, 0, m);
    // at x3 the cubic is the square of the line
    lemma_mul_cong(c1, 0, x3, x3, m);
    lemma_add_cong(e0 * (x3 * x3), 0, c1 * x3, 0, m);
    lemma_add_cong(e0 * (x3 * x3) + c1 * x3, 0, c0, 0, m);
    lemma_add_cong(f3 - l3 * l3, 0, l3 * l3, l3 * l3, m);
    // and y3 is minus the line at x3
    assert(l * (x1 - x3) - y1 == -l3) by (nonlinear_arith)
        requires
            l3 == l * x3 + beta,
            beta == y1 - l * x1,
    ;
    lemma_mul_cong(y3, -l3, y3, -l3, m);
    assert((-l3) * (-l3) == l3 * l3) by (nonlinear_arith);
}

/// On reduced coordinates the curve equation on representations is
/// `y^2 = x^3 + a x + b` modulo `p` on the values they stand for.
proof fn lemma_curve_eq<C: SWCurveConfig>(x: nat, y: nat)
    requires
        field_ok::<C::BaseField>(),
        x < modulus_of::<C::BaseField>(),
        y < modulus_of::<C::BaseField>(),
        coeff_a::<C>() < modulus_of::<C::BaseField>(),
        coeff_b::<C>() < modulus_of::<C::BaseField>(),
    ensures
        on_curve::<C>((x, y, false)) == ((fe_int::<C::BaseField>(y) * fe_int::<C::BaseField>(y))
            % (modulus_of::<C::BaseField>() as int) == ((fe_int::<C::BaseField>(x)
            * fe_int::<C::BaseField>(x)) * fe_int::<C::BaseField>(x) + fe_int::<C::BaseField>(
        coeff_a::<C>()) * fe_int::<C::BaseField>(x) + fe_int::<C::BaseField>(coeff_b::<C>())) % (
        modulus_of::<C::BaseField>() as int)),
{
    let mm = modulus_of::<C::BaseField>();
    let m = mm as int;
    let cx = fe_int::<C::BaseField>(x);
    let cy = fe_int::<C::BaseField>(y);
    let ca = fe_int::<C::BaseField>(coeff_a::<C>());
    let cb = fe_int::<C::BaseField>(coeff_b::<C>());
    lemma_step_zero::<C::BaseField>(x);
    lemma_step_zero::<C::BaseField>(y);
    lemma_step_zero::<C::BaseField>(coeff_a::<C>());
    lemma_step_zero::<C::BaseField>(0);
    let yy = fe_mul::<C::BaseField>(y, y);
    lemma_step_mul::<C::BaseField>(y, y);
    let xx = fe_mul::<C::BaseField>(x, x);
    lemma_step_mul::<C::BaseField>(x, x);
    let x3 = fe_mul::<C::BaseField>(xx, x);
    lemma_step_mul::<C::BaseField>(xx, x);
    let ax = mul_by_a_spec::<C>(x);
    if coeff_a::<C>() != 0 {
        lemma_step_mul::<C::BaseField>(x, coeff_a::<C>());
        assert(cx * ca == ca * cx) by (nonlinear_arith);
    } else {
        assert(ca == 0);
        assert(ca * cx == 0) by (nonlinear_arith)
            requires
                ca == 0,
        ;
    }
    let s = fe_add::<C::BaseField>(x3, ax);
    lemma_step_add::<C::BaseField>(x3, ax);
    let rhs = fe_add::<C::BaseField>(s, coeff_b::<C>());
    lemma_step_add::<C::BaseField>(s, coeff_b::<C>());
    lemma_mul_cong(fe_int::<C::BaseField>(xx), cx * cx, cx, cx, m);
    lemma_add_cong(fe_int::<C::BaseField>(x3), (cx * cx) * cx, fe_int::<C::BaseField>(ax), ca
        * cx, m);
    lemma_add_cong(fe_int::<C::BaseField>(s), (cx * cx) * cx + ca * cx, cb, cb, m);
    lemma_canonical_injective::<C::BaseField>(yy, rhs);
    lemma_small_mod(fe_int::<C::BaseField>(yy) as nat, mm);
    lemma_small_mod(fe_int::<C::BaseField>(rhs) as nat, mm);
}

/// The tangent at a point of the curve with `y != 0` meets the curve again
/// at a reduced point of the curve.
proof fn lemma_tangent_on_curve<C: SWCurveConfig>(p: PointView)
    requires
        odd_field::<C>(),
        inverse_ok::<C::BaseField>(),
        coeff_a::<C>() < modulus_of::<C::BaseField>(),
        coeff_b::<C>() < modulus_of::<C::BaseField>(),
        curve_point::<C>(p),
        !p.2,
        p.1 != 0,
    ensures
        curve_point::<C>(double_candidate::<C>(p)),
{
    let mm = modulus_of::<C::BaseField>();
    let m = mm as int;
    assert(m >= 3);
    let x = p.0;
    let y = p.1;
    lemma_curve_eq::<C>(x, y);
    lemma_step_zero::<C::BaseField>(x);
    lemma_step_zero::<C::BaseField>(y);
    let cx = fe_int::<C::BaseField>(x);
    let cy = fe_int::<C::BaseField>(y);
    let ca = fe_int::<C::BaseField>(coeff_a::<C>());
    let cb = fe_int::<C::BaseField>(coeff_b::<C>());
    let two = fe_from_int::<C::BaseField>(2);
    let three = fe_from_int::<C::BaseField>(3);
    lemma_step_int::<C::BaseField>(2);
    lemma_step_int::<C::BaseField>(3);
    lemma_step_zero::<C::BaseField>(two);
    lemma_small_mod(2, mm);
    lemma_small_mod(fe_int::<C::BaseField>(two) as nat, mm);
    assert(fe_int::<C::BaseField>(two) == 2);
    let xx = fe_mul::<C::BaseField>(x, x);
    lemma_step_mul::<C::BaseField>(x, x);
    let t3 = fe_mul::<C::BaseField>(three, xx);
    lemma_step_mul::<C::BaseField>(three, xx);
    let num = fe_add::<C::BaseField>(t3, coeff_a::<C>());
    lemma_step_add::<C::BaseField>(t3, coeff_a::<C>());
    let den = fe_mul::<C::BaseField>(two, y);
    lemma_step_mul::<C::BaseField>(two, y);
    let cden = fe_int::<C::BaseField>(den);
    lemma_small_mod(cden as nat, mm);
    lemma_step_zero::<C::BaseField>(den);
    assert(cden != 0) by {
        if cden == 0 {
            lemma_no_zero_divisors::<C::BaseField>(2, cy);
        }
    }
    lemma_step_inv::<C::BaseField>(den);
    let vi = fe_inv::<C::BaseField>(den);
    let cvi = fe_int::<C::BaseField>(vi);
    let lam = fe_mul::<C::BaseField>(num, vi);
    lemma_step_mul::<C::BaseField>(num, vi);
    let ll = fe_mul::<C::BaseField>(lam, lam);
    lemma_step_mul::<C::BaseField>(lam, lam);
    let s1 = fe_sub::<C::BaseField>(ll, x);
    lemma_step_sub::<C::BaseField>(ll, x);
    let x3 = fe_sub::<C::BaseField>(s1, x);
    lemma_step_sub::<C::BaseField>(s1, x);
    let d1 = fe_sub::<C::BaseField>(x, x3);
    lemma_step_sub::<C::BaseField>(x, x3);
    let lm = fe_mul::<C::BaseField>(lam, d1);
    lemma_step_mul::<C::BaseField>(lam, d1);
    let y3 = fe_sub::<C::BaseField>(lm, y);
    lemma_step_sub::<C::BaseField>(lm, y);
    assert(double_candidate::<C>(p) == (x3, y3, false));
    let cl = fe_int::<C::BaseField>(lam);
    let cnum = fe_int::<C::BaseField>(num);
    let cx3 = fe_int::<C::BaseField>(x3);
    // the slope: l (2 y) = 3 x^2 + a
    lemma_mul_cong(fe_int::<C::BaseField>(three), 3, fe_int::<C::BaseField>(xx), cx * cx, m);
    lemma_add_cong(fe_int::<C::BaseField>(t3), 3 * (cx * cx), ca, ca, m);
    lemma_mul_cong(cl, cnum * cvi, 2 * cy, cden, m);
    assert((cnum * cvi) * cden == cnum * (cden * cvi)) by (nonlinear_arith);
    lemma_small_mod(1, mm);
    lemma_mul_cong(cnum, cnum, cden * cvi, 1, m);
    // x3 = l^2 - 2 x and y3 = l (x - x3) - y
    lemma_sub_cong(fe_int::<C::BaseField>(ll), cl * cl, cx, cx, m);
    lemma_sub_cong(fe_int::<C::BaseField>(s1), cl * cl - cx, cx, cx, m);
    lemma_mul_cong(cl, cl, fe_int::<C::BaseField>(d1), cx - cx3, m);
    lemma_sub_cong(fe_int::<C::BaseField>(lm), cl * (cx - cx3), cy, cy, m);
    lemma_tangent_int(cx, cy, cl, ca, cb, cx3, fe_int::<C::BaseField>(y3), m);
    lemma_curve_eq::<C>(x3, y3);
}

/// The chord through two points of the curve with different `x` meets the
/// curve again at a reduced point of the curve.
proof fn lemma_chord_on_curve<C: SWCurveConfig>(p: PointView, q: PointView)
    requires
        odd_field::<C>(),
        inverse_ok::<C::BaseField>(),
        coeff_a::<C>() < modulus_of::<C::BaseField>(),
        coeff_b::<C>() < modulus_of::<C::BaseField>(),
        curve_point::<C>(p),
        curve_point::<C>(q),
        !p.2,
        !q.2,
        p.0 != q.0,
    ensures
        curve_point::<C>(add_candidate::<C>(p, q)),
{
    let mm = modulus_of::<C::BaseField>();
    let m = mm as int;
    lemma_curve_eq::<C>(p.0, p.1);
    lemma_curve_eq::<C>(q.0, q.1);
    lemma_step_zero::<C::BaseField>(p.0);
    lemma_step_zero::<C::BaseField>(q.0);
    let cx1 = fe_int::<C::BaseField>(p.0);
    let cy1 = fe_int::<C::BaseField>(p.1);
    let cx2 = fe_int::<C::BaseField>(q.0);
    let cy2 = fe_int::<C::BaseField>(q.1);
    let ca = fe_int::<C::BaseField>(coeff_a::<C>());
    let cb = fe_int::<C::BaseField>(coeff_b::<C>());
    let num = fe_sub::<C::BaseField>(q.1, p.1);
    lemma_step_sub::<C::BaseField>(q.1, p.1);
    let den = fe_sub::<C::BaseField>(q.0, p.0);
    lemma_step_sub::<C::BaseField>(q.0, p.0);
    let cden = fe_int::<C::BaseField>(den);
    let cnum = fe_int::<C::BaseField>(num);
    lemma_small_mod(cden as nat, mm);
    lemma_step_zero::<C::BaseField>(den);
    assert(cden != 0) by {
        if cden == 0 {
            lemma_diff_zero(cx2, cx1, m);
            lemma_canonical_injective::<C::BaseField>(p.0, q.0);
        }
    }
    lemma_step_inv::<C::BaseField>(den);
    let vi = fe_inv::<C::BaseField>(den);
    let cvi = fe_int::<C::BaseField>(vi);
    let lam = fe_mul::<C::BaseField>(num, vi);
    lemma_step_mul::<C::BaseField>(num, vi);
    let ll = fe_mul::<C::BaseField>(lam, lam);
    lemma_step_mul::<C::BaseField>(lam, lam);
    let a1 = fe_sub::<C::BaseField>(ll, p.0);
    lemma_step_sub::<C::BaseField>(ll, p.0);
    let x3 = fe_sub::<C::BaseField>(a1, q.0);
    lemma_step_sub::<C::BaseField>(a1, q.0);
    let d1 = fe_sub::<C::BaseField>(p.0, x3);
    lemma_step_sub::<C::BaseField>(p.0, x3);
    let lm = fe_mul::<C::BaseField>(lam, d1);
    lemma_step_mul::<C::BaseField>(lam, d1);
    let y3 = fe_sub::<C::BaseField>(lm, p.1);
    lemma_step_sub::<C::BaseField>(lm, p.1);
    assert(add_candidate::<C>(p, q) == (x3, y3, false));
    let cl = fe_int::<C::BaseField>(lam);
    let cx3 = fe_int::<C::BaseField>(x3);
    // x2 - x1 has the inverse cvi, and l (x2 - x1) = y2 - y1
    lemma_mul_cong(cden, cx2 - cx1, cvi, cvi, m);
    lemma_mul_cong(cl, cnum * cvi, cx2 - cx1, cden, m);
    assert((cnum * cvi) * cden == cnum * (cden * cvi)) by (nonlinear_arith);
    lemma_small_mod(1, mm);
    lemma_mul_cong(cnum, cnum, cden * cvi, 1, m);
    // x3 = l^2 - x1 - x2 and y3 = l (x1 - x3) - y1
    lemma_sub_cong(fe_int::<C::BaseField>(ll), cl * cl, cx1, cx1, m);
    lemma_sub_cong(fe_int::<C::BaseField>(a1), cl * cl - cx1, cx2, cx2, m);
    lemma_mul_cong(cl, cl, fe_int::<C::BaseField>(d1), cx1 - cx3, m);
    lemma_sub_cong(fe_int::<C::BaseField>(lm), cl * (cx1 - cx3), cy1, cy1, m);
    lemma_chord_int(cx1, cy1, cx2, cy2, cl, ca, cb, cx3, fe_int::<C::BaseField>(y3), cvi, m);
    lemma_curve_eq::<C>(x3, y3);
}

/// Doubling a point of the curve gives a point of the curve, and is defined,
/// in a base field of odd characteristic with inverses.
pub proof fn lemma_double_on_curve<C: SWCurveConfig>(p: PointView)
    requires
        odd_field::<C>(),
        inverse_ok::<C::BaseField>(),
        coeff_a::<C>() < modulus_of::<C::BaseField>(),
        coeff_b::<C>() < modulus_of::<C::BaseField>(),
        curve_point::<C>(p),
    ensures
        double_defined::<C>(p),
        curve_point::<C>(double_spec::<C>(p)),
{
    if !p.2 && p.1 != 0 {
        lemma_tangent_on_curve::<C>(p);
    }
}

/// Adding two points of the curve gives a point of the curve, and is defined,
/// in a base field of odd characteristic with inverses.
pub proof fn lemma_add_on_curve<C: SWCurveConfig>(p: PointView, q: PointView)
    requires
        odd_field::<C>(),
        inverse_ok::<C::BaseField>(),
        coeff_a::<C>() < modulus_of::<C::BaseField>(),
        coeff_b::<C>() < modulus_of::<C::BaseField>(),
        curve_point::<C>(p),
        curve_point::<C>(q),
    ensures
        add_defined::<C>(p, q),
        curve_point::<C>(add_spec::<C>(p, q)),
{
    if !p.2 && !q.2 && neg_spec::<C>(p) != q {
        if p == q {
            lemma_double_on_curve::<C>(p);
        } else {
            if p.0 == q.0 {
                lemma_same_x::<C>(p, q);
            }
            lemma_chord_on_curve::<C>(p, q);
        }
    }
}

/// The group law never leaves the curve: [`group_closed`] and
/// [`double_closed`] hold in a base field of odd characteristic with inverses,
/// for reduced coefficients `a` and `b`.
pub proof fn lemma_group_closed<C: SWCurveConfig>()
    requires
        odd_field::<C>(),
        inverse_ok::<C::BaseField>(),
        coeff_a::<C>() < modulus_of::<C::BaseField>(),
        coeff_b::<C>() < modulus_of::<C::BaseField>(),
    ensures
        group_closed::<C>(),
        double_closed::<C>(),
{
    assert forall|p: PointView, q: PointView|
        curve_point::<C>(p) && curve_point::<C>(q) implies #[trigger] add_defined::<C>(p, q)
        && curve_point::<C>(add_spec::<C>(p, q)) by {
        lemma_add_on_curve::<C>(p, q);
    }
    assert forall|p: PointView| curve_point::<C>(p) implies #[trigger] double_defined::<C>(p)
        && curve_point::<C>(double_spec::<C>(p)) by {
        lemma_double_on_curve::<C>(p);
    }
}

/// What the signature schemes ask of a curve ([`curve_ok`]) holds of a curve
/// over a base field of odd characteristic with inverses, with reduced
/// coefficients, a reduced generator on the curve and a nonzero order.
pub proof fn lemma_curve_ok<C: SWCurveConfig>()
    requires
        odd_field::<C>(),
        inverse_ok::<C::BaseField>(),
        coeff_a::<C>() < modulus_of::<C::BaseField>(),
        coeff_b::<C>() < modulus_of::<C::BaseField>(),
        generator_ok::<C>(),
        order_of::<C>() != 0,
    ensures
        curve_ok::<C>(),
{
    lemma_group_closed::<C>();
}

} // verus!
