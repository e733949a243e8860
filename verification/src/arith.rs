//! Facts about integer division and remainder used by the big-integer proofs.
use vstd::arithmetic::div_mod::*;
use vstd::arithmetic::mul::*;
use vstd::prelude::*;

verus! {

/// Adding a multiple of the divisor shifts the quotient and keeps the remainder.
pub proof fn lemma_div_add_mul(a: int, k: int, w: int)
    requires
        a >= 0,
        k >= 0,
        w > 0,
    ensures
        (a + k * w) / w == a / w + k,
        (a + k * w) % w == a % w,
{
    lemma_fundamental_div_mod(a, w);
    lemma_mod_bound(a, w);
    assert(a + k * w == (a / w + k) * w + a % w) by (nonlinear_arith)
        requires a == w * (a / w) + a % w;
    lemma_fundamental_div_mod_converse(a + k * w, w, a / w + k, a % w);
}

/// Dividing `t * c` by `d * c` is dividing `t` by `d`.
pub proof fn lemma_div_cancel(t: int, c: int, d: int)
    requires
        t >= 0,
        c > 0,
        d > 0,
    ensures
        (t * c) / (c * d) == t / d,
{
    lemma_div_denominator(t * c, c, d);
    lemma_div_multiples_vanish(t, c);
    assert(c * t == t * c) by (nonlinear_arith);
}

/// The remainder of `x * a` by `a * k` is `a` times the remainder of `x` by `k`.
pub proof fn lemma_mod_scaled(x: int, a: int, k: int)
    requires
        x >= 0,
        a > 0,
        k > 0,
    ensures
        (x * a) % (a * k) == a * (x % k),
        (x * a) / (a * k) == x / k,
{
    lemma_mul_nonnegative(x, a);
    lemma_breakdown(x * a, a, k);
    lemma_div_multiples_vanish(x, a);
    assert(a * x == x * a) by (nonlinear_arith);
    lemma_mod_multiples_basic(x, a);
    lemma_div_cancel(x, a, k);
}

/// Floor division splits over a sum whose low part cannot carry:
/// if `e < m`, `y` is a multiple of `m`, and `m` divides `b`, then `(e + y) / b == y / b`.
pub proof fn lemma_div_no_carry(e: int, y: int, m: int, b: int)
    requires
        0 <= e < m,
        y >= 0,
        m > 0,
        b > 0,
        y % m == 0,
        b % m == 0,
    ensures
        (e + y) / b == y / b,
{
    lemma_fundamental_div_mod(y, b);
    lemma_mod_bound(y, b);
    // y % b is a multiple of m below b, so y % b + e < b.
    let r = y % b;
    lemma_fundamental_div_mod(b, m);
    lemma_fundamental_div_mod(y, m);
    let q = y / b;
    assert(b / m > 0) by (nonlinear_arith)
        requires b == m * (b / m) + b % m, b % m == 0, b > 0, m > 0;
    assert(r % m == 0) by {
        lemma_mod_mod(y, m, b / m);
        assert(m * (b / m) == b);
    }
    lemma_fundamental_div_mod(r, m);
    assert(r + e < b) by (nonlinear_arith)
        requires
            r == m * (r / m),
            b == m * (b / m),
            0 <= r < b,
            0 <= e < m,
            m > 0,
    {
        assert(r / m < b / m) by {
            if r / m >= b / m {
                assert(m * (r / m) >= m * (b / m));
            }
        }
        assert(r / m + 1 <= b / m);
        assert(m * (r / m + 1) <= m * (b / m));
    }
    assert(e + y == q * b + (r + e)) by (nonlinear_arith)
        requires y == b * q + r;
    lemma_fundamental_div_mod_converse(e + y, b, q, r + e);
}

/// Congruences multiply.
pub proof fn lemma_mul_cong(a: int, a2: int, b: int, b2: int, m: int)
    requires
        m > 0,
        a % m == a2 % m,
        b % m == b2 % m,
    ensures
        (a * b) % m == (a2 * b2) % m,
{
    lemma_mul_mod_noop(a, b, m);
    lemma_mul_mod_noop(a2, b2, m);
}

/// Congruences add.
pub proof fn lemma_add_cong(a: int, a2: int, b: int, b2: int, m: int)
    requires
        m > 0,
        a % m == a2 % m,
        b % m == b2 % m,
    ensures
        (a + b) % m == (a2 + b2) % m,
{
    lemma_add_mod_noop(a, b, m);
    lemma_add_mod_noop(a2, b2, m);
}

/// Congruences subtract.
pub proof fn lemma_sub_cong(a: int, a2: int, b: int, b2: int, m: int)
    requires
        m > 0,
        a % m == a2 % m,
        b % m == b2 % m,
    ensures
        (a - b) % m == (a2 - b2) % m,
{
    lemma_sub_mod_noop(a, b, m);
    lemma_sub_mod_noop(a2, b2, m);
}


/// A unit times `x` vanishes modulo `m` only when `x` does.
pub proof fn lemma_unit_cancel(g: int, u: int, x: int, m: int)
    requires
        m > 1,
        (g * u) % m == 1,
        (g * x) % m == 0,
    ensures
        x % m == 0,
{
    lemma_small_mod(1, m as nat);
    lemma_small_mod(0, m as nat);
    lemma_mul_cong(x, x, g * u, 1, m);
    assert(x * (g * u) == (g * x) * u) by (nonlinear_arith);
    lemma_mul_cong(g * x, 0, u, u, m);
}

/// Residues below `m` whose difference vanishes modulo `m` are equal.
pub proof fn lemma_diff_zero(a: int, b: int, m: int)
    requires
        m > 1,
        0 <= a < m,
        0 <= b < m,
        (a - b) % m == 0,
    ensures
        a == b,
{
    if a > b {
        lemma_small_mod((a - b) as nat, m as nat);
    } else if a < b {
        lemma_fundamental_div_mod_converse(a - b, m, -1, a - b + m);
    }
}

/// `(p q)(r s) = (p r)(q s)`.
pub proof fn lemma_swap4(p: int, q: int, r: int, s: int)
    ensures
        (p * q) * (r * s) == (p * r) * (q * s),
{
    assert((p * q) * (r * s) == (p * r) * (q * s)) by (nonlinear_arith);
}

/// `(a b)^2 = a^2 b^2`.
pub proof fn lemma_sq_prod(a: int, b: int)
    ensures
        (a * b) * (a * b) == (a * a) * (b * b),
{
    lemma_swap4(a, b, a, b);
}

/// `(a b)^3 = a^3 b^3`.
pub proof fn lemma_cube_prod(a: int, b: int)
    ensures
        ((a * b) * (a * b)) * (a * b) == ((a * a) * a) * ((b * b) * b),
{
    lemma_sq_prod(a, b);
    lemma_swap4(a * a, b * b, a, b);
}

/// `(a b)^4 = a^4 b^4`.
pub proof fn lemma_fourth_prod(a: int, b: int)
    ensures
        (((a * b) * (a * b)) * (a * b)) * (a * b) == (((a * a) * a) * a) * (((b * b) * b) * b),
{
    lemma_cube_prod(a, b);
    lemma_swap4((a * a) * a, (b * b) * b, a, b);
}

} // verus!
