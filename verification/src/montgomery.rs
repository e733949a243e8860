//! Montgomery reduction modulo an odd modulus below `R = 2^1024`.
use vstd::arithmetic::div_mod::*;
use vstd::arithmetic::power2::*;
use vstd::prelude::*;

use vstd::arithmetic::mul::*;

use crate::u1024::{lemma_limbs_val_bound, r_mod, U1024};

verus! {

/// Montgomery reduction of `t`: with `m = (t mod R) * n' mod R`, the quotient
/// `u = (t + m p) / R`, less `p` once when `u >= p`.
pub open spec fn redc(t: nat, p: nat, n_prime: nat) -> nat {
    let m = ((t % r_mod()) * n_prime) % r_mod();
    let u = (t + m * p) / r_mod();
    if u >= p {
        (u - p) as nat
    } else {
        u
    }
}


/// The Montgomery constant fits the modulus: `p > 1` and `p * n' = -1 (mod R)`
/// (which makes `p` odd).
pub open spec fn mont_ok(p: nat, n_prime: nat) -> bool {
    p > 1 && (p * n_prime + 1) % r_mod() == 0
}

/// The inverse of `R` modulo `p` that `n'` yields: `(p n' + 1) / R`.
pub open spec fn r_inv(p: nat, n_prime: nat) -> nat {
    ((p * n_prime + 1) / r_mod()) % p
}

/// `R * r_inv == 1 (mod p)`.
pub proof fn lemma_r_inv(p: nat, n_prime: nat)
    requires
        mont_ok(p, n_prime),
    ensures
        (r_mod() * r_inv(p, n_prime)) % p == 1,
{
    lemma_pow2_pos(1024);
    let big = r_mod() as int;
    let pi = p as int;
    let x = pi * n_prime + 1;
    let k = x / big;
    lemma_fundamental_div_mod(x, big);
    assert(big * k == x);
    lemma_mul_mod_noop_right(big, k, pi);
    lemma_mod_multiples_vanish(n_prime as int, 1, pi);
    lemma_small_mod(1, p);
    assert(r_inv(p, n_prime) == k % pi);
}

/// `redc(t) * R == t (mod p)`.
pub proof fn lemma_redc_congruent(t: nat, p: nat, n_prime: nat)
    requires
        mont_ok(p, n_prime),
    ensures
        (redc(t, p, n_prime) * r_mod()) % p == t % p,
{
    lemma_pow2_pos(1024);
    let big = r_mod() as int;
    let pi = p as int;
    let lo = (t % r_mod()) as int;
    let m = ((t % r_mod()) * n_prime) % r_mod();
    // t + m p == 0 (mod R)
    lemma_mul_mod_noop_left((lo * n_prime) as int, pi, big);
    assert(((lo * n_prime) % big) * pi == m * pi);
    assert((m * pi) % big == ((lo * n_prime) * pi) % big);
    assert((lo * n_prime) * pi == lo * (pi * n_prime)) by (nonlinear_arith);
    lemma_mul_mod_noop_right(lo, pi * n_prime, big);
    // p n' == R - 1 (mod R)
    assert((pi * n_prime) % big == big - 1) by {
        lemma_fundamental_div_mod(pi * n_prime + 1, big);
        lemma_fundamental_div_mod(pi * n_prime, big);
        lemma_mod_bound(pi * n_prime, big);
        let q = (pi * n_prime + 1) / big;
        assert(pi * n_prime == (q - 1) * big + (big - 1)) by (nonlinear_arith)
            requires pi * n_prime + 1 == big * q;
        lemma_fundamental_div_mod_converse(pi * n_prime, big, q - 1, big - 1);
    }
    assert((lo * (big - 1)) % big == (big - lo) % big) by {
        assert(lo * (big - 1) == (lo - 1) * big + (big - lo)) by (nonlinear_arith);
        lemma_mod_bound(t as int, big);
        if lo == 0 {
            lemma_mod_self_0(big);
            assert(lo * (big - 1) == 0) by (nonlinear_arith) requires lo == 0;
            lemma_small_mod(0, big as nat);
        } else {
            lemma_fundamental_div_mod_converse(lo * (big - 1), big, lo - 1, big - lo);
            lemma_small_mod((big - lo) as nat, big as nat);
        }
    }
    let tm = (t + m * p) as int;
    lemma_add_mod_noop(t as int, m * pi, big);
    lemma_mod_twice(t as int, big);
    assert(tm % big == 0) by {
        lemma_mod_bound(t as int, big);
        if lo == 0 {
            lemma_mod_self_0(big);
            lemma_small_mod(0, big as nat);
        } else {
            lemma_small_mod((big - lo) as nat, big as nat);
            lemma_mod_self_0(big);
        }
    }
    lemma_fundamental_div_mod(tm, big);
    let u = tm / big;
    assert(u * big == tm) by (nonlinear_arith) requires tm == big * (tm / big) + tm % big, tm % big == 0, u == tm / big;
    // redc * R == u * R or (u - p) * R == t (mod p)
    lemma_mod_multiples_vanish(m as int, t as int, pi);
    assert(tm == pi * m + t) by (nonlinear_arith) requires tm == t + m * p, pi == p;
    let r = redc(t, p, n_prime) as int;
    if u >= pi {
        assert(r * big == u * big - pi * big) by (nonlinear_arith) requires r == u - pi;
        assert(r * big == pi * (-big) + tm) by (nonlinear_arith) requires r * big == u * big - pi * big, u * big == tm;
        lemma_mod_multiples_vanish(-big, tm, pi);
    } else {
        assert(r * big == tm);
    }
}

/// `redc(t) < p` when `t < p * R`.
pub proof fn lemma_redc_bound(t: nat, p: nat, n_prime: nat)
    requires
        p > 0,
        t < p * r_mod(),
    ensures
        redc(t, p, n_prime) < p,
{
    lemma_pow2_pos(1024);
    let big = r_mod() as int;
    let m = ((t % r_mod()) * n_prime) % r_mod();
    lemma_mod_bound(((t % r_mod()) * n_prime) as int, big);
    let tm = (t + m * p) as int;
    assert(tm < 2 * p * big) by (nonlinear_arith) requires tm == t + m * p, m < big, t < p * big, p > 0;
    lemma_fundamental_div_mod(tm, big);
    lemma_mod_bound(tm, big);
    let u = tm / big;
    assert(u < 2 * p) by (nonlinear_arith)
        requires tm == big * u + tm % big, tm % big >= 0, tm < 2 * p * big, big > 0,
    {
        if u >= 2 * p {
            assert(big * u >= big * (2 * p));
        }
    }
}

/// Multiplying by `R` is injective on residues below `p`.
pub proof fn lemma_cancel_r(x: nat, y: nat, p: nat, n_prime: nat)
    requires
        mont_ok(p, n_prime),
        x < p,
        y < p,
        (x * r_mod()) % p == (y * r_mod()) % p,
    ensures
        x == y,
{
    lemma_r_inv(p, n_prime);
    let ri = r_inv(p, n_prime) as int;
    let big = r_mod() as int;
    let pi = p as int;
    // x == x * (R * ri) == (x R) ri (mod p)
    lemma_mul_mod_noop_right(x as int, big * ri, pi);
    lemma_mul_mod_noop_right(y as int, big * ri, pi);
    lemma_small_mod(x, p);
    lemma_small_mod(y, p);
    assert((x * (big * ri)) % pi == x as int) by {
        assert(x * ((big * ri) % pi) == x * 1);
    }
    assert((y * (big * ri)) % pi == y as int) by {
        assert(y * ((big * ri) % pi) == y * 1);
    }
    assert(x * (big * ri) == (x * big) * ri) by (nonlinear_arith);
    assert(y * (big * ri) == (y * big) * ri) by (nonlinear_arith);
    lemma_mul_mod_noop_left(x * big, ri, pi);
    lemma_mul_mod_noop_left(y * big, ri, pi);
}

/// Reduces `hi * 2^1024 + lo` to [`redc`] of it, for the modulus `n` and the
/// constant `n_prime`.
pub fn mont_reduce(lo: &U1024, hi: &U1024, n: &U1024, n_prime: &U1024) -> (r: U1024)
    ensures
        r.val() == redc(lo.val() + hi.val() * r_mod(), n.val(), n_prime.val()),
{
    let one = U1024::one();
    let (m, m_hi) = lo.widening_mul(n_prime);
    let (mn_lo, mn_hi) = m.widening_mul(n);
    let (s, carry_lo) = lo.carrying_add(&mn_lo);
    let (res_hi, carry_hi) = hi.carrying_add(&mn_hi);
    let (t, carry_final) = if carry_lo {
        res_hi.carrying_add(&one)
    } else {
        (res_hi, false)
    };
    let ghost big = r_mod() as int;
    let ghost tt = lo.val() + hi.val() * r_mod();
    let ghost p = n.val() as int;
    let ghost u = (tt + m.val() * n.val()) / r_mod();
    proof {
        lemma_pow2_pos(1024);
        lemma_limbs_val_bound(lo.0@);
        lemma_limbs_val_bound(hi.0@);
        lemma_limbs_val_bound(m.0@);
        lemma_limbs_val_bound(n.0@);
        lemma_limbs_val_bound(n_prime.0@);
        lemma_limbs_val_bound(s.0@);
        lemma_limbs_val_bound(t.0@);
        lemma_limbs_val_bound(mn_lo.0@);
        lemma_limbs_val_bound(mn_hi.0@);
        let lo_i = lo.val() as int;
        let hi_i = hi.val() as int;
        // m == (tt mod R) * n' mod R
        lemma_fundamental_div_mod_converse(tt as int, big, hi_i, lo_i);
        lemma_fundamental_div_mod_converse((lo.val() * n_prime.val()) as int, big, m_hi.val() as int,
            m.val() as int);
        assert(tt % r_mod() == lo.val());
        let cl = if carry_lo { 1int } else { 0int };
        let ch = if carry_hi { 1int } else { 0int };
        let cf = if carry_final { 1int } else { 0int };
        let mn = (m.val() * n.val()) as int;
        // tt + m p == s + (hi + mn_hi + carry_lo) R
        assert(tt + mn == s.val() + (hi_i + mn_hi.val() + cl) * big) by (nonlinear_arith)
            requires
                tt == lo_i + hi_i * big,
                mn == mn_lo.val() + mn_hi.val() * big,
                s.val() + cl * big == lo_i + mn_lo.val(),
        ;
        lemma_fundamental_div_mod_converse(tt + mn, big, hi_i + mn_hi.val() + cl, s.val() as int);
        assert(u == hi_i + mn_hi.val() + cl);
        assert(res_hi.val() + ch * big == hi_i + mn_hi.val());
        if carry_lo {
            assert(t.val() + cf * big == res_hi.val() + 1);
        } else {
            assert(t.val() == res_hi.val() && cf == 0);
        }
        assert(u == t.val() + (ch + cf) * big) by (nonlinear_arith)
            requires
                u == hi_i + mn_hi.val() + cl,
                res_hi.val() + ch * big == hi_i + mn_hi.val(),
                t.val() + cf * big == res_hi.val() + cl,
        ;
        // u < R + p
        assert(m.val() * n.val() <= (big - 1) * p) by (nonlinear_arith)
            requires m.val() < big, m.val() >= 0, p >= 0, n.val() == p;
        assert(tt <= (big - 1) + (big - 1) * big) by (nonlinear_arith)
            requires tt == lo_i + hi_i * big, lo_i < big, hi_i < big, lo_i >= 0, hi_i >= 0;
        assert(u < big + p) by (nonlinear_arith)
            requires
                tt + mn == s.val() + u * big,
                s.val() >= 0,
                mn <= (big - 1) * p,
                tt <= (big - 1) + (big - 1) * big,
                big > 0,
                p >= 0,
        {
            if u >= big + p {
                assert(u * big >= (big + p) * big);
            }
        }
    }
    if carry_hi || carry_final {
        let (sub_res, _) = t.borrowing_sub(n);
        proof {
            lemma_limbs_val_bound(sub_res.0@);
            assert(u >= big);
            assert(t.val() == u - big);
            if t.val() >= p {
                assert(sub_res.val() == t.val() - p);
                assert(false);
            }
            assert(sub_res.val() == t.val() + big - p);
        }
        return sub_res;
    }
    let (sub_res, borrow) = t.borrowing_sub(n);
    proof {
        lemma_limbs_val_bound(sub_res.0@);
    }
    if !borrow {
        sub_res
    } else {
        t
    }
}

} // verus!
