use vstd::arithmetic::div_mod::*;
use vstd::arithmetic::power2::*;
use vstd::arithmetic::power::pow;
use vstd::bits::*;
use crate::ct::{ct_select_u64, opaque_u64};
use crate::arith::{lemma_div_add_mul, lemma_div_cancel, lemma_div_no_carry, lemma_mod_scaled};
use rand::RngCore;
use vstd::std_specs::convert::FromSpecImpl;
use vstd::string::{StringExecFns, StringSliceAdditionalSpecFns};
use vstd::prelude::*;

verus! {

/// Number of 64-bit limbs in a [`U1024`].
pub const LIMBS: usize = 16;

/// 2^64 as a mathematical integer.
pub open spec fn limb_base() -> nat {
    0x1_0000_0000_0000_0000
}

/// Weight of limb `i` in a little-endian limb sequence: 2^(64 i).
pub open spec fn limb_weight(i: nat) -> nat {
    pow2(64 * i)
}

/// Value of a little-endian sequence of 64-bit limbs.
pub open spec fn limbs_val(s: Seq<u64>) -> nat
    decreases s.len(),
{
    if s.len() == 0 {
        0
    } else {
        limbs_val(s.drop_last()) + (s.last() as nat) * limb_weight((s.len() - 1) as nat)
    }
}

/// 2^1024, the modulus of wrapping arithmetic on [`U1024`].
pub open spec fn r_mod() -> nat {
    pow2(1024)
}

/// An unsigned 1024-bit integer made of 16 little-endian 64-bit limbs.
#[derive(Clone, Copy, Debug, PartialEq, Eq, PartialOrd, Ord)]
pub struct U1024(pub [u64; 16]);

impl U1024 {
    /// The integer that the limbs stand for.
    pub open spec fn val(self) -> nat {
        limbs_val(self.0@)
    }
}

/// Each limb weighs 2^64 times the one below it.
pub proof fn lemma_limb_weight_step(i: nat)
    ensures
        limb_weight(i + 1) == limb_weight(i) * limb_base(),
        limb_weight(i) > 0,
{
    lemma_pow2_adds(64 * i, 64);
    lemma2_to64();
    assert(64 * (i + 1) == 64 * i + 64) by (nonlinear_arith);
    lemma_pow2_pos(64 * i);
}

/// One more limb adds its value at its weight.
pub proof fn lemma_limbs_val_take_step(s: Seq<u64>, i: int)
    requires
        0 <= i < s.len(),
    ensures
        limbs_val(s.take(i + 1)) == limbs_val(s.take(i)) + s[i] * limb_weight(i as nat),
{
    assert(s.take(i + 1).drop_last() =~= s.take(i));
}

/// The weights `2^(64 k)` of the limbs as numbers.
pub proof fn lemma_limb_weight_values()
    ensures
        limb_weight(0) == 0x1nat,
        limb_weight(1) == 0x10000000000000000nat,
        limb_weight(2) == 0x100000000000000000000000000000000nat,
        limb_weight(3) == 0x1000000000000000000000000000000000000000000000000nat,
        limb_weight(4) == 0x10000000000000000000000000000000000000000000000000000000000000000nat,
        limb_weight(5) == 0x100000000000000000000000000000000000000000000000000000000000000000000000000000000nat,
        limb_weight(6) == 0x1000000000000000000000000000000000000000000000000000000000000000000000000000000000000000000000000nat,
        limb_weight(7) == 0x10000000000000000000000000000000000000000000000000000000000000000000000000000000000000000000000000000000000000000nat,
        limb_weight(8) == 0x100000000000000000000000000000000000000000000000000000000000000000000000000000000000000000000000000000000000000000000000000000000nat,
        limb_weight(9) == 0x1000000000000000000000000000000000000000000000000000000000000000000000000000000000000000000000000000000000000000000000000000000000000000000000000nat,
        limb_weight(10) == 0x10000000000000000000000000000000000000000000000000000000000000000000000000000000000000000000000000000000000000000000000000000000000000000000000000000000000000000nat,
        limb_weight(11) == 0x100000000000000000000000000000000000000000000000000000000000000000000000000000000000000000000000000000000000000000000000000000000000000000000000000000000000000000000000000000000nat,
        limb_weight(12) == 0x1000000000000000000000000000000000000000000000000000000000000000000000000000000000000000000000000000000000000000000000000000000000000000000000000000000000000000000000000000000000000000000000000nat,
        limb_weight(13) == 0x10000000000000000000000000000000000000000000000000000000000000000000000000000000000000000000000000000000000000000000000000000000000000000000000000000000000000000000000000000000000000000000000000000000000000000nat,
        limb_weight(14) == 0x100000000000000000000000000000000000000000000000000000000000000000000000000000000000000000000000000000000000000000000000000000000000000000000000000000000000000000000000000000000000000000000000000000000000000000000000000000000nat,
        limb_weight(15) == 0x1000000000000000000000000000000000000000000000000000000000000000000000000000000000000000000000000000000000000000000000000000000000000000000000000000000000000000000000000000000000000000000000000000000000000000000000000000000000000000000000000nat,
        limb_weight(16) == 0x10000000000000000000000000000000000000000000000000000000000000000000000000000000000000000000000000000000000000000000000000000000000000000000000000000000000000000000000000000000000000000000000000000000000000000000000000000000000000000000000000000000000000000nat,
        r_mod() == limb_weight(16),
{
    lemma2_to64();
    lemma_limb_weight_step(0);
    lemma_limb_weight_step(1);
    lemma_limb_weight_step(2);
    lemma_limb_weight_step(3);
    lemma_limb_weight_step(4);
    lemma_limb_weight_step(5);
    lemma_limb_weight_step(6);
    lemma_limb_weight_step(7);
    lemma_limb_weight_step(8);
    lemma_limb_weight_step(9);
    lemma_limb_weight_step(10);
    lemma_limb_weight_step(11);
    lemma_limb_weight_step(12);
    lemma_limb_weight_step(13);
    lemma_limb_weight_step(14);
    lemma_limb_weight_step(15);
}

/// The value of sixteen limbs written out as a sum of the limbs times their weights.
pub proof fn lemma_limbs_val_16(s: Seq<u64>)
    requires
        s.len() == 16,
    ensures
        limbs_val(s) == s[0] * limb_weight(0) + s[1] * limb_weight(1) + s[2] * limb_weight(2) + s[3] * limb_weight(3) + s[4] * limb_weight(4) + s[5] * limb_weight(5) + s[6] * limb_weight(6) + s[7] * limb_weight(7) + s[8] * limb_weight(8) + s[9] * limb_weight(9) + s[10] * limb_weight(10) + s[11] * limb_weight(11) + s[12] * limb_weight(12) + s[13] * limb_weight(13) + s[14] * limb_weight(14) + s[15] * limb_weight(15),
{
    assert(s.take(0) =~= Seq::<u64>::empty());
    assert(limbs_val(s.take(0)) == 0);
    lemma_limbs_val_take_step(s, 0);
    lemma_limbs_val_take_step(s, 1);
    lemma_limbs_val_take_step(s, 2);
    lemma_limbs_val_take_step(s, 3);
    lemma_limbs_val_take_step(s, 4);
    lemma_limbs_val_take_step(s, 5);
    lemma_limbs_val_take_step(s, 6);
    lemma_limbs_val_take_step(s, 7);
    lemma_limbs_val_take_step(s, 8);
    lemma_limbs_val_take_step(s, 9);
    lemma_limbs_val_take_step(s, 10);
    lemma_limbs_val_take_step(s, 11);
    lemma_limbs_val_take_step(s, 12);
    lemma_limbs_val_take_step(s, 13);
    lemma_limbs_val_take_step(s, 14);
    lemma_limbs_val_take_step(s, 15);
    assert(s.take(16) =~= s);
}

/// The value of the first `k` limbs is below 2^(64 k).
pub proof fn lemma_limbs_val_bound(s: Seq<u64>)
    ensures
        limbs_val(s) < limb_weight(s.len()),
    decreases s.len(),
{
    if s.len() == 0 {
        lemma2_to64();
    } else {
        let n = (s.len() - 1) as nat;
        lemma_limbs_val_bound(s.drop_last());
        lemma_limb_weight_step(n);
        let w = limb_weight(n);
        let l = s.last() as nat;
        assert(l <= limb_base() - 1);
        assert(l * w <= (limb_base() - 1) * w) by (nonlinear_arith)
            requires l <= limb_base() - 1;
        assert((limb_base() - 1) * w == limb_base() * w - w) by (nonlinear_arith);
        assert(limb_weight(n + 1) == limb_base() * w) by (nonlinear_arith)
            requires limb_weight(n + 1) == w * limb_base();
    }
}


/// Bit `i` of `x`.
pub open spec fn nat_bit(x: nat, i: nat) -> bool {
    (x / pow2(i)) % 2 == 1
}

/// `x` with bit `i` set.
pub open spec fn set_bit(x: nat, i: nat) -> nat {
    if nat_bit(x, i) {
        x
    } else {
        x + pow2(i)
    }
}

/// Limb `k` (of weight 2^(64 k)) of the integer `x`.
pub open spec fn limb_of(x: nat, k: int) -> nat {
    (x / limb_weight(k as nat)) % limb_base()
}

/// One step of the division loop at bit `i`: the remainder register doubles
/// (modulo 2^1024) and takes in the dividend's bit `i`; when it reaches the
/// divisor, the divisor is taken off and bit `i` is set in the quotient.
pub open spec fn div_step(a: nat, d: nat, q: nat, r: nat, i: nat) -> (nat, nat) {
    let r1 = (2 * r) % r_mod();
    let r2 = if nat_bit(a, i) { (r1 + 1) % r_mod() } else { r1 };
    if r2 >= d {
        (set_bit(q, i), (r2 - d) as nat)
    } else {
        (q, r2)
    }
}

/// State of the division loop after `s` steps; step `s` treats bit `1024 - s`.
pub open spec fn div_state(a: nat, d: nat, s: nat) -> (nat, nat)
    decreases s,
{
    if s == 0 {
        (0, 0)
    } else {
        let prev = div_state(a, d, (s - 1) as nat);
        div_step(a, d, prev.0, prev.1, (1024 - s) as nat)
    }
}

/// What `div_rem` returns for a nonzero divisor.
pub open spec fn div_rem_spec(a: nat, d: nat) -> (nat, nat) {
    if a < d {
        (0, a)
    } else if a == d {
        (1, 0)
    } else {
        div_state(a, d, 1024)
    }
}


/// After `s` steps, for a nonzero divisor, the division loop holds the
/// quotient (shifted into place) and remainder of the dividend's top `s` bits.
pub proof fn lemma_div_state_correct(a: nat, d: nat, s: nat)
    requires
        a < r_mod(),
        0 < d,
        s <= 1024,
    ensures
        div_state(a, d, s) == (
            ((a / pow2((1024 - s) as nat)) / d) * pow2((1024 - s) as nat),
            (a / pow2((1024 - s) as nat)) % d,
        ),
    decreases s,
{
    lemma_pow2_pos((1024 - s) as nat);
    if s == 0 {
        lemma_basic_div(a as int, r_mod() as int);
        lemma_small_mod(0, d);
        lemma_basic_div(0, d as int);
        assert((1024 - s) as nat == 1024);
        assert(a / pow2(1024) == 0);
        assert(div_state(a, d, 0) == (0nat, 0nat));
        assert((a / pow2(1024)) / d == 0);
        assert(((a / pow2(1024)) / d) * pow2(1024) == 0) by (nonlinear_arith)
            requires (a / pow2(1024)) / d == 0;
    } else {
        lemma_div_state_correct(a, d, (s - 1) as nat);
        let i = (1024 - s) as nat;
        assert((1024 - (s - 1)) as nat == i + 1);
        let pi = pow2(i) as int;
        let pi1 = pow2(i + 1) as int;
        lemma_pow2_pos(i);
        lemma_pow2_adds(i, 1);
        lemma2_to64();
        assert(pi1 == pi * 2);
        let ai = (a / pow2(i)) as int;
        let ai1 = (a / pow2(i + 1)) as int;
        lemma_div_denominator(a as int, pi, 2);
        lemma_fundamental_div_mod(ai, 2);
        let b = ai % 2;
        assert(ai == 2 * ai1 + b);
        let big = r_mod() as int;
        let di = d as int;
        let qq = ai1 / di;
        let r = ai1 % di;
        lemma_fundamental_div_mod(ai1, di);
        lemma_mod_bound(ai1, di);
        assert(pow2(1024) == pow2(1023) * 2) by {
            lemma_pow2_adds(1023, 1);
        }
        // the remainder is at most the dividend's top bits, which lie below 2^1023
        assert(r <= ai1) by {
            lemma_div_pos_is_pos(ai1, di);
            assert(di * qq >= 0) by (nonlinear_arith)
                requires
                    di > 0,
                    qq >= 0,
            ;
        }
        assert(ai1 < pow2(1023)) by {
            lemma_div_is_ordered_by_denominator(a as int, 2, pi1);
            lemma_fundamental_div_mod(a as int, 2);
        }
        lemma_small_mod((2 * r) as nat, r_mod());
        if b == 1 {
            lemma_small_mod((2 * r + 1) as nat, r_mod());
        }
        let r2 = 2 * r + b;
        assert(nat_bit(a, i) == (b == 1));
        assert(ai == di * (2 * qq) + r2) by (nonlinear_arith)
            requires ai == 2 * ai1 + b, ai1 == di * qq + r, r2 == 2 * r + b;
        let q = qq * pi1;
        assert(qq >= 0) by {
            lemma_div_pos_is_pos(ai1, di);
        }
        // bit i of the shifted quotient is clear
        assert(q == (2 * qq) * pi) by (nonlinear_arith) requires q == qq * pi1, pi1 == pi * 2;
        lemma_div_multiples_vanish(2 * qq, pi);
        assert((2 * qq) * pi == pi * (2 * qq)) by (nonlinear_arith);
        lemma_mod_multiples_vanish(qq, 0, 2);
        assert(!nat_bit(q as nat, i));
        if r2 >= di {
            assert(ai == (2 * qq + 1) * di + (r2 - di)) by (nonlinear_arith)
                requires ai == di * (2 * qq) + r2;
            lemma_fundamental_div_mod_converse(ai, di, 2 * qq + 1, r2 - di);
            assert(set_bit(q as nat, i) == (2 * qq + 1) * pi) by (nonlinear_arith)
                requires set_bit(q as nat, i) == q + pi, q == (2 * qq) * pi;
            assert(div_state(a, d, (s - 1) as nat).0 == q);
            assert(div_state(a, d, (s - 1) as nat).1 == r);
            assert(div_state(a, d, s).1 == ai % di);
            assert(div_state(a, d, s).0 == (ai / di) * pi);
        } else {
            assert(ai == (2 * qq) * di + r2) by (nonlinear_arith)
                requires ai == di * (2 * qq) + r2;
            lemma_fundamental_div_mod_converse(ai, di, 2 * qq, r2);
            assert(div_state(a, d, s).1 == ai % di);
            assert(div_state(a, d, s).0 == (ai / di) * pi) by (nonlinear_arith)
                requires div_state(a, d, s).0 == q, q == (2 * qq) * pi, ai / di == 2 * qq;
        }
        assert(ai / di == (a / pow2(i)) / d);
        assert(ai % di == (a / pow2(i)) % d);
        assert(div_state(a, d, s).0 == ((a / pow2(i)) / d) * pow2(i));
    }
}

/// For a nonzero divisor, [`div_rem_spec`] is the quotient and remainder.
pub proof fn lemma_div_rem_correct(a: nat, d: nat)
    requires
        a < r_mod(),
        0 < d,
    ensures
        div_rem_spec(a, d) == (a / d, a % d),
{
    if a < d {
        lemma_basic_div(a as int, d as int);
        lemma_small_mod(a, d);
    } else if a == d {
        lemma_div_by_self(d as int);
        lemma_mod_self_0(d as int);
    } else {
        lemma_div_state_correct(a, d, 1024);
        lemma2_to64();
        assert((1024 - 1024) as nat == 0nat);
        lemma_div_basics(a as int);
    }
}

/// The remainder that [`U1024::mod_reduce`] computes.
pub open spec fn reduce_spec(x: nat, n: nat) -> nat {
    div_rem_spec(x, n).1
}

/// What [`U1024::mod_add`] computes: the wrapped sum, less `n` (wrapping) when the
/// sum carried out of 1024 bits or is at least `n`.
pub open spec fn mod_add_spec(a: nat, b: nat, n: nat) -> nat {
    let sum = (a + b) % r_mod();
    if a + b >= r_mod() || sum >= n {
        ((sum + r_mod() - n) as nat) % r_mod()
    } else {
        sum
    }
}

/// What [`U1024::pow2_1024_mod`] gives for 2^1024 mod `m`: the reduction of `0 - m` wrapped to 1024 bits.
pub open spec fn pow2_1024_mod_spec(m: nat) -> nat {
    reduce_spec(((r_mod() as int - m as int) % (r_mod() as int)) as nat, m)
}

/// What [`U1024::mod_mul`] computes: the low half reduced, plus (by [`mod_add_spec`])
/// the high half times the reduced 2^1024, computed the same way.
pub open spec fn mod_mul_spec(a: nat, b: nat, n: nat) -> nat
    decreases (a * b) / r_mod(),
{
    let lo = (a * b) % r_mod();
    let hi = (a * b) / r_mod();
    if hi == 0 {
        reduce_spec(lo, n)
    } else {
        let r = pow2_1024_mod_spec(n) % r_mod();
        proof {
            lemma_pow2_pos(1024);
            lemma_mod_bound(pow2_1024_mod_spec(n) as int, r_mod() as int);
            assert(hi > 0);
            lemma_high_half_decreases(r, hi);
        }
        mod_add_spec(reduce_spec(lo, n), mod_mul_spec(r, hi, n), n)
    }
}

/// For `a, b < n < 2^1024`, [`mod_add_spec`] is `(a + b) mod n`.
pub proof fn lemma_mod_add_is_sum_mod(a: nat, b: nat, n: nat)
    requires
        a < n,
        b < n,
        n < r_mod(),
    ensures
        mod_add_spec(a, b, n) == (a + b) % n,
{
    lemma_pow2_pos(1024);
    if a + b >= r_mod() {
        // the sum carried: it wraps to a + b - 2^1024, and a + b - n < n
        lemma_fundamental_div_mod_converse((a + b) as int, r_mod() as int, 1, a + b - r_mod());
        lemma_fundamental_div_mod_converse((a + b) as int, n as int, 1, a + b - n);
        lemma_fundamental_div_mod_converse((a + b - r_mod() + r_mod() - n) as int, r_mod() as int,
            0, a + b - n);
    } else if a + b >= n {
        lemma_small_mod(a + b, r_mod());
        lemma_fundamental_div_mod_converse((a + b) as int, n as int, 1, a + b - n);
        lemma_fundamental_div_mod_converse((a + b + r_mod() - n) as int, r_mod() as int, 1,
            a + b - n);
    } else {
        lemma_small_mod(a + b, r_mod());
        lemma_small_mod(a + b, n);
    }
}

/// For `0 < m < 2^1024`, [`pow2_1024_mod_spec`] is `2^1024 mod m`.
pub proof fn lemma_pow2_1024_mod_correct(m: nat)
    requires
        0 < m < r_mod(),
    ensures
        pow2_1024_mod_spec(m) == r_mod() % m,
{
    lemma_pow2_adds(1023, 1);
    lemma2_to64();
    lemma_pow2_pos(1023);
    let big = r_mod() as int;
    lemma_fundamental_div_mod_converse(big - m, big, 0, big - m);
    lemma_div_rem_correct((big - m) as nat, m);
    lemma_mod_multiples_vanish(1, big - m, m as int);
}

/// For `a, b < 2^1024` and `0 < n < 2^1024`, [`mod_mul_spec`] is `a b mod n`.
pub proof fn lemma_mod_mul_correct(a: nat, b: nat, n: nat)
    requires
        a < r_mod(),
        b < r_mod(),
        0 < n < r_mod(),
    ensures
        mod_mul_spec(a, b, n) == (a * b) % n,
    decreases (a * b) / r_mod(),
{
    lemma_pow2_adds(1023, 1);
    lemma2_to64();
    lemma_pow2_pos(1023);
    let big = r_mod() as int;
    let ni = n as int;
    let p = (a * b) as int;
    let lo = p % big;
    let hi = p / big;
    lemma_fundamental_div_mod(p, big);
    lemma_mod_bound(p, big);
    assert(a * b < big * big) by (nonlinear_arith) requires a < big, b < big;
    assert(hi < big) by {
        if hi >= big {
            assert(big * hi >= big * big) by (nonlinear_arith) requires hi >= big, big > 0;
        }
    }
    lemma_div_pos_is_pos(p, big);
    lemma_div_rem_correct(lo as nat, n);
    assert(reduce_spec(lo as nat, n) == lo % ni);
    if hi == 0 {
        assert(p == lo) by (nonlinear_arith) requires p == big * hi + lo, hi == 0;
        assert(mod_mul_spec(a, b, n) == reduce_spec(lo as nat, n));
    } else {
        lemma_pow2_1024_mod_correct(n);
        let r0 = pow2_1024_mod_spec(n);
        lemma_mod_bound(big, ni);
        lemma_small_mod(r0, r_mod());
        let r = r0 % r_mod();
        lemma_high_half_decreases(r, hi as nat);
        lemma_mod_mul_correct(r, hi as nat, n);
        lemma_mod_bound(lo, ni);
        lemma_mod_bound(r * hi, ni);
        lemma_mod_add_is_sum_mod((lo % ni) as nat, ((r * hi) % ni) as nat, n);
        // (lo mod n + (R mod n) hi mod n) mod n == (lo + R hi) mod n
        lemma_mod_twice(lo, ni);
        lemma_mod_twice(r * hi, ni);
        lemma_mod_twice(big, ni);
        crate::arith::lemma_mul_cong(r as int, big, hi, hi, ni);
        crate::arith::lemma_add_cong(lo % ni, lo, (r * hi) % ni, big * hi, ni);
        assert(lo + big * hi == p);
        assert(mod_mul_spec(r, hi as nat, n) == (r * hi) % ni);
        assert(mod_mul_spec(a, b, n) == mod_add_spec(reduce_spec(lo as nat, n), mod_mul_spec(r, hi as nat, n), n));
    }
}

/// State `(result, base)` of the square-and-multiply loop of [`U1024::mod_pow`]
/// after the `k` lowest bits of the exponent.
pub open spec fn mod_pow_state(a: nat, e: nat, n: nat, k: nat) -> (nat, nat)
    decreases k,
{
    if k == 0 {
        (1, reduce_spec(a, n))
    } else {
        let prev = mod_pow_state(a, e, n, (k - 1) as nat);
        let res = if nat_bit(e, (k - 1) as nat) {
            mod_mul_spec(prev.0, prev.1, n)
        } else {
            prev.0
        };
        (res, mod_mul_spec(prev.1, prev.1, n))
    }
}

/// What [`U1024::mod_pow`] computes.
pub open spec fn mod_pow_spec(a: nat, e: nat, n: nat) -> nat {
    if n == 1 {
        0
    } else {
        mod_pow_state(a, e, n, 1024).0
    }
}

/// For `2 <= n < 2^1024`, after `k` exponent bits the loop of
/// [`U1024::mod_pow`] holds `a^(e mod 2^k) mod n` and `a^(2^k) mod n`.
pub proof fn lemma_mod_pow_state_correct(a: nat, e: nat, n: nat, k: nat)
    requires
        a < r_mod(),
        2 <= n < r_mod(),
    ensures
        mod_pow_state(a, e, n, k).0 == pow(a as int, e % pow2(k)) % (n as int),
        mod_pow_state(a, e, n, k).1 == pow(a as int, pow2(k)) % (n as int),
    decreases k,
{
    let ni = n as int;
    let ai = a as int;
    lemma_pow2_pos(k);
    lemma_pow2_adds(1023, 1);
    lemma2_to64();
    if k == 0 {
        lemma_div_rem_correct(a, n);
        lemma_small_mod(e % 1, 1);
        assert(e % pow2(0) == 0);
        vstd::arithmetic::power::lemma_pow0(ai);
        vstd::arithmetic::power::lemma_pow1(ai);
        lemma_small_mod(1, n);
    } else {
        let k1 = (k - 1) as nat;
        lemma_mod_pow_state_correct(a, e, n, k1);
        let prev = mod_pow_state(a, e, n, k1);
        lemma_mod_bound(pow(ai, e % pow2(k1)), ni);
        lemma_mod_bound(pow(ai, pow2(k1)), ni);
        lemma_mod_mul_correct(prev.1, prev.1, n);
        lemma_mod_mul_correct(prev.0, prev.1, n);
        lemma_pow2_adds(k1, 1);
        let b1 = pow(ai, pow2(k1));
        vstd::arithmetic::power::lemma_pow_adds(ai, pow2(k1), pow2(k1));
        assert(pow2(k) == pow2(k1) + pow2(k1)) by {
            assert(pow2(k1 + 1) == pow2(k1) * 2);
        }
        lemma_mul_mod_noop(b1, b1, ni);
        let ek1 = e % pow2(k1);
        lemma_breakdown(e as int, pow2(k1) as int, 2);
        assert(e % pow2(k) == ek1 + pow2(k1) * ((e / pow2(k1)) % 2)) by {
            assert(pow2(k) == pow2(k1) * 2);
        }
        let r1 = pow(ai, ek1);
        if nat_bit(e, k1) {
            assert(pow2(k1) * ((e / pow2(k1)) % 2) == pow2(k1));
            assert(e % pow2(k) == ek1 + pow2(k1));
            vstd::arithmetic::power::lemma_pow_adds(ai, ek1, pow2(k1));
            lemma_mul_mod_noop(r1, b1, ni);
        } else {
            lemma_mod_bound((e / pow2(k1)) as int, 2);
            assert((e / pow2(k1)) % 2 == 0);
            assert(pow2(k1) * ((e / pow2(k1)) % 2) == 0);
            assert(e % pow2(k) == ek1);
        }
    }
}

/// For `1 <= n < 2^1024` and `a, e < 2^1024`, [`mod_pow_spec`] is `a^e mod n`.
pub proof fn lemma_mod_pow_correct(a: nat, e: nat, n: nat)
    requires
        a < r_mod(),
        e < r_mod(),
        1 <= n < r_mod(),
    ensures
        mod_pow_spec(a, e, n) == pow(a as int, e) % (n as int),
{
    if n == 1 {
        lemma_fundamental_div_mod_converse(pow(a as int, e), 1, pow(a as int, e), 0);
    } else {
        lemma_mod_pow_state_correct(a, e, n, 1024);
        lemma_small_mod(e, r_mod());
    }
}

/// A product's high half shrinks when one factor is below 2^1024.
pub proof fn lemma_high_half_decreases(r: nat, hi: nat)
    requires
        r < r_mod(),
        hi > 0,
    ensures
        (r * hi) / r_mod() < hi,
{
    lemma_pow2_pos(1024);
    let m = r_mod() as int;
    let p = (r * hi) as int;
    let h = hi as int;
    assert(p < m * h) by (nonlinear_arith) requires r < m, hi > 0, p == r * hi, h == hi;
    lemma_fundamental_div_mod(p, m);
    lemma_mod_bound(p, m);
    assert(p / m < h) by (nonlinear_arith)
        requires
            p == m * (p / m) + p % m,
            p % m >= 0,
            p < m * h,
            m > 0,
    {
        if p / m >= h {
            assert(m * (p / m) >= m * h);
        }
    }
}


/// Big-endian value of a byte sequence.
pub open spec fn be_val(s: Seq<u8>) -> nat
    decreases s.len(),
{
    if s.len() == 0 {
        0
    } else {
        be_val(s.drop_last()) * 256 + (s.last() as nat)
    }
}

/// Byte `k` of the 128-byte big-endian encoding of `x`.
pub open spec fn be_byte(x: nat, k: int) -> nat {
    (x / pow2((8 * (127 - k)) as nat)) % 256
}

/// The 128-byte big-endian encoding of `x`.
pub open spec fn be_bytes(x: nat) -> Seq<u8> {
    Seq::new(128, |k: int| be_byte(x, k) as u8)
}

/// A sequence of zero limbs is worth 0.
pub proof fn lemma_all_zero_val(s: Seq<u64>)
    requires
        forall|i: int| 0 <= i < s.len() ==> s[i] == 0,
    ensures
        limbs_val(s) == 0,
    decreases s.len(),
{
    if s.len() > 0 {
        lemma_all_zero_val(s.drop_last());
    }
}

/// A sequence whose limbs above the first are zero is worth its first limb.
pub proof fn lemma_single_limb_val(s: Seq<u64>)
    requires
        s.len() >= 1,
        forall|i: int| 1 <= i < s.len() ==> s[i] == 0,
    ensures
        limbs_val(s) == s[0],
    decreases s.len(),
{
    if s.len() > 1 {
        lemma_single_limb_val(s.drop_last());
        assert(s.last() == 0);
        assert(s.drop_last()[0] == s[0]);
    } else {
        assert(limbs_val(s.drop_last()) == 0);
        assert(s.drop_last().len() == 0);
        lemma2_to64();
        assert(limb_weight(0) == 1) by { assert(64 * 0nat == 0nat); }
    }
}


/// A sequence with a nonzero limb has a nonzero value.
pub proof fn lemma_limb_nonzero_val(s: Seq<u64>, k: int)
    requires
        0 <= k < s.len(),
        s[k] != 0,
    ensures
        limbs_val(s) > 0,
    decreases s.len(),
{
    if k == s.len() - 1 {
        lemma_pow2_pos(64 * k as nat);
        assert((s.last() as nat) * limb_weight(k as nat) > 0) by (nonlinear_arith)
            requires s.last() > 0, limb_weight(k as nat) > 0;
    } else {
        lemma_limb_nonzero_val(s.drop_last(), k);
    }
}

/// Two limb sequences of equal length with the same value are equal.
pub proof fn lemma_val_injective(a: Seq<u64>, b: Seq<u64>)
    requires
        a.len() == b.len(),
    ensures
        limbs_val(a) == limbs_val(b) ==> a == b,
    decreases a.len(),
{
    if a.len() > 0 && limbs_val(a) == limbs_val(b) {
        let n = (a.len() - 1) as nat;
        lemma_limbs_val_bound(a.drop_last());
        lemma_limbs_val_bound(b.drop_last());
        let w = limb_weight(n);
        lemma_pow2_pos(64 * n);
        let x = limbs_val(a.drop_last()) as int;
        let y = limbs_val(b.drop_last()) as int;
        let p = a.last() as int;
        let q = b.last() as int;
        assert(p == q && x == y) by (nonlinear_arith)
            requires
                x + p * w == y + q * w,
                0 <= x < w,
                0 <= y < w,
                p >= 0,
                q >= 0,
                w > 0,
        {
            if p < q {
                assert(p * w + w <= q * w);
            } else if p > q {
                assert(q * w + w <= p * w);
            }
        }
        lemma_val_injective(a.drop_last(), b.drop_last());
        assert(a =~= b.drop_last().push(b.last())) by {
            assert(a =~= a.drop_last().push(a.last()));
        }
        assert(b =~= b.drop_last().push(b.last()));
    }
}


/// Replacing limb `k` changes the value by the difference times its weight.
pub proof fn lemma_limbs_val_update(s: Seq<u64>, k: int, v: u64)
    requires
        0 <= k < s.len(),
    ensures
        limbs_val(s.update(k, v)) as int == limbs_val(s) as int + (v as int) * limb_weight(k as nat)
            - (s[k] as int) * limb_weight(k as nat),
    decreases s.len(),
{
    let t = s.update(k, v);
    if k == s.len() - 1 {
        assert(t.drop_last() =~= s.drop_last());
        assert((v as int) * limb_weight(k as nat) - (s[k] as int) * limb_weight(k as nat) == (v as int
            - s[k] as int) * limb_weight(k as nat)) by (nonlinear_arith);
    } else {
        assert(t.drop_last() =~= s.drop_last().update(k, v));
        lemma_limbs_val_update(s.drop_last(), k, v);
    }
}

/// The value of a concatenation: the high part is shifted by the low part's length.
pub proof fn lemma_limbs_val_concat(a: Seq<u64>, b: Seq<u64>)
    ensures
        limbs_val(a + b) == limbs_val(a) + limbs_val(b) * limb_weight(a.len()),
    decreases b.len(),
{
    if b.len() == 0 {
        assert(a + b =~= a);
        assert(limbs_val(b) == 0);
        assert(limbs_val(b) * limb_weight(a.len()) == 0);
    } else {
        assert((a + b).drop_last() =~= a + b.drop_last());
        lemma_limbs_val_concat(a, b.drop_last());
        let n = (b.len() - 1) as nat;
        lemma_pow2_adds(64 * a.len(), 64 * n);
        assert(64 * (a.len() + n) == 64 * a.len() + 64 * n) by (nonlinear_arith);
        assert(limb_weight(a.len() + n) == limb_weight(a.len()) * limb_weight(n));
        let la = limbs_val(a);
        let lb = limbs_val(b.drop_last());
        let wa = limb_weight(a.len());
        let wn = limb_weight(n);
        let l = b.last() as nat;
        assert(la + lb * wa + l * (wa * wn) == la + (lb + l * wn) * wa) by (nonlinear_arith);
        assert((a + b).last() == b.last());
        assert(((a + b).len() - 1) as nat == a.len() + n);
        assert(limbs_val(a + b) == limbs_val(a + b.drop_last()) + l * limb_weight(a.len() + n));
        assert(limbs_val(b) == lb + l * wn);
        assert(limbs_val(a + b) == la + lb * wa + l * (wa * wn));
    }
}

/// `limb_weight(i) * limb_weight(j) == limb_weight(i + j)`.
pub proof fn lemma_limb_weight_adds(i: nat, j: nat)
    ensures
        limb_weight(i) * limb_weight(j) == limb_weight(i + j),
{
    lemma_pow2_adds(64 * i, 64 * j);
    assert(64 * (i + j) == 64 * i + 64 * j) by (nonlinear_arith);
}


/// Limb `i` of a limb sequence shifted left by `64 * ls + bs` bits.
pub open spec fn shl_limb(s: Seq<u64>, ls: nat, bs: nat, i: nat) -> nat {
    if i < ls {
        0
    } else {
        let j = i - ls;
        ((s[j] as nat) * pow2(bs)) % limb_base() + (if j > 0 {
            ((s[j - 1] as nat) * pow2(bs)) / limb_base()
        } else {
            0nat
        })
    }
}

/// Limb `k` of a 16-limb value shifted right by `64 * ls + bs` bits: the
/// limbs `k + ls` and `k + ls + 1` (0 above the top) read as one 128-bit
/// number, shifted right by `bs` bits, low 64 bits.
pub open spec fn shr_limb(s: Seq<u64>, ls: nat, bs: nat, k: nat) -> nat {
    let j = (k + ls) as int;
    if j >= 16 {
        0
    } else {
        let hi: nat = if j + 1 < 16 { s[j + 1] as nat } else { 0 };
        (((s[j] as nat) + hi * limb_base()) / pow2(bs)) % limb_base()
    }
}

/// The value of a limb sequence divided by the weight of limb `j` is limb `j`
/// plus the value of the limbs above it times 2^64.
proof fn lemma_limb_quotient(s: Seq<u64>, j: int)
    requires
        0 <= j < s.len(),
    ensures
        limbs_val(s) / limb_weight(j as nat) == s[j] + limbs_val(s.skip(j + 1)) * limb_base(),
{
    lemma_bit_of_limb(s, j, 0);
    lemma2_to64();
    assert(64 * j + 0 == 64 * j);
    assert(pow2((64 * j) as nat) == limb_weight(j as nat));
}

/// Limb `k` of `v / 2^(64 ls + bs)` for the value `v` of 16 limbs is [`shr_limb`].
proof fn lemma_shr_limb(s: Seq<u64>, ls: nat, bs: nat, k: nat)
    requires
        s.len() == 16,
        bs < 64,
    ensures
        ((limbs_val(s) / pow2(64 * ls + bs)) / limb_weight(k)) % limb_base() == shr_limb(s, ls, bs, k),
{
    let v = limbs_val(s) as int;
    let base = limb_base() as int;
    let pb = pow2(bs) as int;
    let j = (k + ls) as int;
    lemma2_to64();
    lemma_pow2_pos(bs);
    lemma_pow2_pos(64 * ls);
    lemma_pow2_adds(64 * ls, bs);
    lemma_limb_weight_adds(ls, k);
    assert(pow2(64 * ls) == limb_weight(ls));
    let wls = limb_weight(ls) as int;
    let wk = limb_weight(k) as int;
    let wj = limb_weight(j as nat) as int;
    assert(wls * wk == wj);
    lemma_pow2_pos(64 * k);
    lemma_pow2_pos(64 * (j as nat));
    assert(wk > 0 && wj > 0 && wls > 0);
    // v / 2^(64 ls + bs) / W(k) == (v / W(j)) / 2^bs
    assert(wls * pb > 0) by (nonlinear_arith)
        requires
            wls > 0,
            pb > 0,
    ;
    lemma_div_denominator(v, wls * pb, wk);
    assert((wls * pb) * wk == wj * pb) by (nonlinear_arith)
        requires
            wls * wk == wj,
    ;
    lemma_div_denominator(v, wj, pb);
    let y = v / wj;
    lemma_limbs_val_bound(s);
    lemma_div_pos_is_pos(v, wj);
    if j >= 16 {
        lemma_limb_weight_adds(16, (j - 16) as nat);
        lemma_pow2_pos(64 * ((j - 16) as nat));
        assert(wj >= limb_weight(16)) by (nonlinear_arith)
            requires
                wj == limb_weight(16) * limb_weight((j - 16) as nat),
                limb_weight((j - 16) as nat) >= 1,
                limb_weight(16) > 0,
        ;
        lemma_basic_div(v, wj);
        lemma_basic_div(0, pb);
        lemma_small_mod(0, limb_base());
    } else {
        lemma_limb_quotient(s, j);
        let rest = limbs_val(s.skip(j + 1)) as int;
        let lo = s[j as int] as int;
        let hi: int = if j + 1 < 16 { s[j + 1] as int } else { 0 };
        // rest == hi + base * q
        lemma_fundamental_div_mod(rest, base);
        if j + 1 < 16 {
            lemma_limb_value(s.skip(j + 1), 0);
            assert(limb_weight(0) == 1) by {
                assert(64 * 0nat == 0nat);
            }
            assert(rest / 1 == rest);
            assert(s.skip(j + 1)[0] == s[j + 1]);
        } else {
            assert(s.skip(j + 1).len() == 0);
            assert(rest == 0);
            lemma_small_mod(0, limb_base());
        }
        assert(rest % base == hi);
        let q = rest / base;
        lemma_div_pos_is_pos(rest, base);
        // y == (lo + hi base) + q (base * base), and base * base = 2^bs * 2^(128 - bs)
        let t = pow2((128 - bs) as nat) as int;
        lemma_pow2_adds(bs, (128 - bs) as nat);
        lemma_pow2_adds(64, 64);
        assert(pb * t == base * base);
        assert(y == (lo + hi * base) + (q * t) * pb) by (nonlinear_arith)
            requires
                y == lo + rest * base,
                rest == base * q + hi,
                pb * t == base * base,
        ;
        assert(q * t >= 0) by (nonlinear_arith)
            requires
                q >= 0,
                t >= 0,
        ;
        assert(lo + hi * base >= 0) by (nonlinear_arith)
            requires
                lo >= 0,
                hi >= 0,
                base > 0,
        ;
        lemma_div_add_mul(lo + hi * base, q * t, pb);
        // (a + q t) mod base with t = base 2^(64 - bs)
        let u = pow2((64 - bs) as nat) as int;
        lemma_pow2_adds(64, (64 - bs) as nat);
        assert(t == base * u);
        lemma_div_pos_is_pos(lo + hi * base, pb);
        assert((q * t) == (q * u) * base) by (nonlinear_arith)
            requires
                t == base * u,
        ;
        assert(q * u >= 0) by (nonlinear_arith)
            requires
                q >= 0,
                u >= 0,
        ;
        lemma_div_add_mul((lo + hi * base) / pb, q * u, base);
    }
}

/// Two limb sequences that agree above limb `i` and differ at it compare as that limb does.
pub proof fn lemma_limbs_compare(a: Seq<u64>, b: Seq<u64>, i: int)
    requires
        a.len() == 16,
        b.len() == 16,
        0 <= i < 16,
        a[i] != b[i],
        forall|j: int| i < j < 16 ==> a[j] == b[j],
    ensures
        (limbs_val(a) < limbs_val(b)) == (a[i] < b[i]),
{
    lemma_limb_split(a, i);
    lemma_limb_split(b, i);
    assert(a.skip(i + 1) =~= b.skip(i + 1));
    lemma_limbs_val_bound(a.take(i));
    lemma_limbs_val_bound(b.take(i));
    let w = limb_weight(i as nat);
    let la = limbs_val(a.take(i)) as int;
    let lb = limbs_val(b.take(i)) as int;
    let ai = a[i] as int;
    let bi = b[i] as int;
    if ai < bi {
        assert(la + ai * w < lb + bi * w) by (nonlinear_arith)
            requires ai + 1 <= bi, 0 <= la < w, 0 <= lb, w > 0;
    } else {
        assert(lb + bi * w < la + ai * w) by (nonlinear_arith)
            requires bi + 1 <= ai, 0 <= lb < w, 0 <= la, w > 0;
    }
}

/// A limb sequence splits around limb `j`.
pub proof fn lemma_limb_split(s: Seq<u64>, j: int)
    requires
        0 <= j < s.len(),
    ensures
        limbs_val(s) == limbs_val(s.take(j)) + s[j] * limb_weight(j as nat) + limbs_val(
            s.skip(j + 1),
        ) * limb_weight((j + 1) as nat),
{
    let a = s.take(j);
    let b = s.skip(j);
    assert(s =~= a + b);
    lemma_limbs_val_concat(a, b);
    let c = seq![s[j]];
    let d = s.skip(j + 1);
    assert(b =~= c + d);
    lemma_limbs_val_concat(c, d);
    lemma_single_limb_val(c);
    lemma_limb_weight_adds(j as nat, 1);
    lemma_limb_weight_step(0);
    assert(limb_weight(0) == 1) by {
        lemma2_to64();
        assert(64 * 0nat == 0nat);
    }
    let la = limbs_val(a);
    let ld = limbs_val(d);
    let wj = limb_weight(j as nat);
    assert(limbs_val(b) == s[j] + ld * limb_weight(1));
    assert((s[j] + ld * limb_weight(1)) * wj == s[j] * wj + ld * (wj * limb_weight(1)))
        by (nonlinear_arith);
}

/// A limb sequence whose every limb is the matching limb of `x` is `x` modulo its weight.
pub proof fn lemma_limbs_of(x: nat, t: Seq<u64>)
    requires
        forall|k: int| 0 <= k < t.len() ==> t[k] as nat == (x / limb_weight(k as nat)) % limb_base(),
    ensures
        limbs_val(t) == x % limb_weight(t.len()),
    decreases t.len(),
{
    if t.len() == 0 {
        lemma2_to64();
        assert(limb_weight(0) == 1) by { assert(64 * 0nat == 0nat); }
    } else {
        let n = (t.len() - 1) as nat;
        assert forall|k: int| 0 <= k < t.drop_last().len() implies t.drop_last()[k] as nat == (x
            / limb_weight(k as nat)) % limb_base() by {
            assert(t.drop_last()[k] == t[k]);
        }
        lemma_limbs_of(x, t.drop_last());
        assert(t.last() as nat == (x / limb_weight(n)) % limb_base());
        lemma_limb_weight_step(n);
        let w = limb_weight(n);
        lemma_breakdown(x as int, w as int, limb_base() as int);
        assert(limb_weight(n + 1) == w * limb_base());
    }
}

/// Limb `i` of `S * 2^(64 ls + bs)` is [`shl_limb`].
pub proof fn lemma_shl_limb(s: Seq<u64>, ls: nat, bs: nat, i: nat)
    requires
        bs < 64,
        i < s.len(),
    ensures
        ((limbs_val(s) * pow2(64 * ls + bs)) / limb_weight(i)) % limb_base() == shl_limb(
            s,
            ls,
            bs,
            i,
        ),
{
    let sv = limbs_val(s) as int;
    let pb = pow2(bs) as int;
    let base = limb_base() as int;
    lemma_pow2_pos(bs);
    lemma_pow2_adds(64 * ls, bs);
    lemma2_to64();
    let x = sv * pow2(64 * ls + bs);
    if i < ls {
        let d = (ls - i - 1) as nat;
        lemma_limb_weight_adds(i, d + 1);
        lemma_limb_weight_step(d);
        lemma_limb_weight_step(i);
        let wi = limb_weight(i) as int;
        let m = sv * pb * limb_weight(d);
        assert(m >= 0) by (nonlinear_arith) requires sv >= 0, pb >= 0, m == sv * pb * limb_weight(d);
        assert(x == (m * base) * wi) by (nonlinear_arith)
            requires
                x == sv * (limb_weight(ls) * pb),
                limb_weight(ls) == wi * limb_weight(d + 1),
                limb_weight(d + 1) == limb_weight(d) * base,
                m == sv * pb * limb_weight(d),
        ;
        assert(m * base >= 0) by (nonlinear_arith) requires m >= 0, base > 0;
        lemma_div_add_mul(0, m * base, wi);
        lemma_div_add_mul(0, m, base);
        assert(m * base == base * m) by (nonlinear_arith);
    } else {
        let j = (i - ls) as nat;
        let wj = limb_weight(j as nat) as int;
        let wls = limb_weight(ls) as int;
        lemma_limb_weight_adds(j, ls);
        lemma_pow2_pos(64 * ls);
        lemma_pow2_pos(64 * j);
        let t = sv * pb;
        assert(t >= 0) by (nonlinear_arith) requires sv >= 0, pb >= 0, t == sv * pb;
        assert(x == t * wls) by (nonlinear_arith)
            requires x == sv * (wls * pb), t == sv * pb;
        lemma_div_cancel(t, wls, wj);
        assert(limb_weight(i) == wls * wj) by (nonlinear_arith)
            requires limb_weight(i) == wj * wls;
        lemma_limb_split(s, j as int);
        let lo = limbs_val(s.take(j as int)) as int;
        let hi = limbs_val(s.skip(j as int + 1)) as int;
        lemma_limb_weight_step(j);
        lemma_limbs_val_bound(s.take(j as int));
        let sj = s[j as int] as int;
        let k = sj * pb + hi * pb * base;
        assert(k >= 0) by (nonlinear_arith) requires sj >= 0, hi >= 0, pb >= 0, base >= 0, k == sj * pb + hi * pb * base;
        assert(lo * pb >= 0) by (nonlinear_arith) requires lo >= 0, pb >= 0;
        assert(sv == lo + (sj + hi * base) * wj) by (nonlinear_arith)
            requires
                sv == lo + sj * wj + hi * limb_weight(j + 1),
                limb_weight(j + 1) == wj * base,
        ;
        assert(t == lo * pb + ((sj + hi * base) * pb) * wj) by (nonlinear_arith)
            requires
                sv == lo + (sj + hi * base) * wj,
                t == sv * pb,
        ;
        assert((sj + hi * base) * pb == k) by (nonlinear_arith)
            requires k == sj * pb + hi * pb * base;
        lemma_div_add_mul(lo * pb, k, wj);
        let c = (lo * pb) / wj;
        lemma_div_pos_is_pos(lo * pb, wj);
        assert(sj * pb >= 0 && hi * pb >= 0) by (nonlinear_arith)
            requires sj >= 0, hi >= 0, pb >= 0;
        lemma_div_add_mul(c + sj * pb, hi * pb, base);
        assert(c + k == (c + sj * pb) + (hi * pb) * base) by (nonlinear_arith)
            requires k == sj * pb + hi * pb * base;
        let kk = pow2((64 - bs) as nat) as int;
        lemma_pow2_adds(bs, (64 - bs) as nat);
        assert(pb * kk == base);
        lemma_pow2_pos((64 - bs) as nat);
        if j == 0 {
            assert(s.take(0) =~= Seq::<u64>::empty());
            assert(lo == 0);
            assert(lo * pb == 0) by (nonlinear_arith) requires lo == 0;
            lemma_basic_div(0, wj);
            assert(c == 0);
        } else {
            let j1 = (j - 1) as nat;
            lemma_limbs_val_take_step(s, j1 as int);
            let lo2 = limbs_val(s.take(j1 as int)) as int;
            let w1 = limb_weight(j1) as int;
            lemma_limb_weight_step(j1);
            lemma_limbs_val_bound(s.take(j1 as int));
            lemma_pow2_pos(64 * j1);
            let sp = s[j1 as int] as int;
            assert(j1 + 1 == j);
            assert(wj == w1 * base);
            lemma_div_denominator(lo * pb, w1, base);
            assert(lo * pb == lo2 * pb + (sp * pb) * w1) by (nonlinear_arith)
                requires lo == lo2 + sp * w1;
            assert(lo2 * pb >= 0 && sp * pb >= 0) by (nonlinear_arith)
                requires lo2 >= 0, sp >= 0, pb >= 0;
            lemma_div_add_mul(lo2 * pb, sp * pb, w1);
            let e = (lo2 * pb) / w1;
            lemma_div_pos_is_pos(lo2 * pb, w1);
            assert(e < pb) by {
                lemma_fundamental_div_mod(lo2 * pb, w1);
                lemma_mod_bound(lo2 * pb, w1);
                assert(e < pb) by (nonlinear_arith)
                    requires
                        lo2 * pb == w1 * e + (lo2 * pb) % w1,
                        (lo2 * pb) % w1 >= 0,
                        lo2 < w1,
                        pb > 0,
                        w1 > 0,
                {
                    if e >= pb {
                        assert(w1 * e >= w1 * pb);
                        assert(lo2 * pb < w1 * pb);
                    }
                }
            }
            lemma_mod_multiples_basic(sp, pb);
            assert((sp * pb) % pb == 0) by {
                assert(sp * pb == pb * sp) by (nonlinear_arith);
            }
            assert(base % pb == 0) by {
                lemma_mod_multiples_basic(kk, pb);
                assert(kk * pb == base) by (nonlinear_arith) requires pb * kk == base;
            }
            lemma_div_no_carry(e, sp * pb, pb, base);
            assert(c == (sp * pb) / base);
        }
        lemma_mod_scaled(sj, pb, kk);
        let lo_part = (sj * pb) % base;
        lemma_mod_bound(sj, kk);
        assert(lo_part + pb <= base) by (nonlinear_arith)
            requires lo_part == pb * (sj % kk), sj % kk < kk, pb * kk == base, pb > 0;
        assert(c < pb) by {
            if j > 0 {
                let sp = s[j as int - 1] as int;
                lemma_mod_scaled(sp, pb, kk);
                assert(c == sp / kk);
                lemma_fundamental_div_mod(sp, kk);
                lemma_mod_bound(sp, kk);
                assert(sp / kk < pb) by (nonlinear_arith)
                    requires
                        sp == kk * (sp / kk) + sp % kk,
                        sp % kk >= 0,
                        sp < base,
                        pb * kk == base,
                        kk > 0,
                {
                    if sp / kk >= pb {
                        assert(kk * (sp / kk) >= kk * pb);
                    }
                }
            }
        }
        lemma_fundamental_div_mod(sj * pb, base);
        lemma_div_pos_is_pos(sj * pb, base);
        assert(c + sj * pb == (c + lo_part) + ((sj * pb) / base) * base) by (nonlinear_arith)
            requires sj * pb == base * ((sj * pb) / base) + lo_part;
        lemma_div_add_mul(c + lo_part, (sj * pb) / base, base);
        lemma_small_mod((c + lo_part) as nat, base as nat);
    }
}


/// The two parts that make up a limb of a left shift never overflow a limb.
pub proof fn lemma_shl_parts(x: u64, y: u64, bs: nat)
    requires
        bs < 64,
    ensures
        ((x as nat) * pow2(bs)) % limb_base() + ((y as nat) * pow2(bs)) / limb_base()
            < limb_base(),
        (y as nat) * pow2(bs) <= u128::MAX,
        (x as nat) * pow2(bs) <= u128::MAX,
{
    let pb = pow2(bs) as int;
    let base = limb_base() as int;
    let kk = pow2((64 - bs) as nat) as int;
    lemma2_to64();
    lemma_pow2_pos(bs);
    lemma_pow2_pos((64 - bs) as nat);
    lemma_pow2_adds(bs, (64 - bs) as nat);
    assert(pb * kk == base);
    lemma_mod_scaled(x as int, pb, kk);
    lemma_mod_scaled(y as int, pb, kk);
    lemma_mod_bound(x as int, kk);
    lemma_fundamental_div_mod(y as int, kk);
    lemma_mod_bound(y as int, kk);
    let xi = x as int;
    let yi = y as int;
    assert((xi * pb) % base + pb <= base) by (nonlinear_arith)
        requires (xi * pb) % base == pb * (xi % kk), xi % kk < kk, pb * kk == base, pb > 0;
    assert(yi / kk < pb) by (nonlinear_arith)
        requires yi == kk * (yi / kk) + yi % kk, yi % kk >= 0, yi < base, pb * kk == base, kk > 0,
    {
        if yi / kk >= pb {
            assert(kk * (yi / kk) >= kk * pb);
        }
    }
    assert(pb <= base) by (nonlinear_arith) requires pb * kk == base, kk >= 1, pb > 0;
    assert(xi * pb <= u128::MAX && yi * pb <= u128::MAX) by (nonlinear_arith)
        requires xi < base, yi < base, pb <= base, base == 0x1_0000_0000_0000_0000, xi >= 0, yi >= 0;
}


/// Bit `64 k + b` of a limb sequence is bit `b` of limb `k`.
pub proof fn lemma_bit_of_limb(s: Seq<u64>, k: int, b: nat)
    requires
        0 <= k < s.len(),
        b < 64,
    ensures
        nat_bit(limbs_val(s), (64 * k + b) as nat) == nat_bit(s[k] as nat, b),
        limbs_val(s) / pow2((64 * k + b) as nat) == (s[k] as nat) / pow2(b) + limbs_val(
            s.skip(k + 1),
        ) * pow2((64 - b) as nat),
{
    lemma_limb_split(s, k);
    let lo = limbs_val(s.take(k)) as int;
    let hi = limbs_val(s.skip(k + 1)) as int;
    let sk = s[k] as int;
    let wk = limb_weight(k as nat) as int;
    let base = limb_base() as int;
    let pb = pow2(b) as int;
    let kk = pow2((64 - b) as nat) as int;
    lemma_limbs_val_bound(s.take(k));
    lemma_limb_weight_step(k as nat);
    lemma2_to64();
    lemma_pow2_pos(b);
    lemma_pow2_pos((64 - b) as nat);
    lemma_pow2_adds(b, (64 - b) as nat);
    lemma_pow2_adds(64 * k as nat, b);
    assert(pb * kk == base);
    let m = sk + hi * base;
    assert(m >= 0) by (nonlinear_arith) requires sk >= 0, hi >= 0, base > 0, m == sk + hi * base;
    assert(limbs_val(s) == lo + m * wk) by (nonlinear_arith)
        requires
            limbs_val(s) == lo + sk * wk + hi * limb_weight((k + 1) as nat),
            limb_weight((k + 1) as nat) == wk * base,
            m == sk + hi * base,
    ;
    lemma_div_add_mul(lo, m, wk);
    lemma_small_mod(lo as nat, wk as nat);
    lemma_fundamental_div_mod(lo, wk);
    assert(lo / wk == 0) by (nonlinear_arith)
        requires lo == wk * (lo / wk) + lo % wk, lo % wk == lo, wk > 0;
    lemma_div_denominator(limbs_val(s) as int, wk, pb);
    assert(pow2((64 * k + b) as nat) == wk * pb);
    // m / pb == sk / pb + hi * kk
    assert(m == sk + (hi * kk) * pb) by (nonlinear_arith)
        requires m == sk + hi * base, pb * kk == base;
    assert(hi * kk >= 0) by (nonlinear_arith) requires hi >= 0, kk > 0;
    lemma_div_add_mul(sk, hi * kk, pb);
    // parity: kk is even since 64 - b >= 1
    lemma_pow2_adds(1, (63 - b) as nat);
    assert(kk == 2 * pow2((63 - b) as nat)) by {
        assert(1 + (63 - b) == 64 - b);
    }
    let h2 = hi * pow2((63 - b) as nat);
    assert(h2 >= 0) by (nonlinear_arith) requires hi >= 0, h2 == hi * pow2((63 - b) as nat);
    assert(hi * kk == h2 * 2) by (nonlinear_arith)
        requires kk == 2 * pow2((63 - b) as nat), h2 == hi * pow2((63 - b) as nat);
    lemma_div_pos_is_pos(sk, pb);
    lemma_div_add_mul(sk / pb, h2, 2);
}


/// Limb `k` of the value of a limb sequence is the limb itself.
pub proof fn lemma_limb_value(s: Seq<u64>, k: int)
    requires
        0 <= k < s.len(),
    ensures
        limb_of(limbs_val(s), k) == s[k],
{
    lemma_bit_of_limb(s, k, 0);
    lemma2_to64();
    assert(64 * k + 0 == 64 * k);
    assert(pow2((64 * k) as nat) == limb_weight(k as nat));
    let hi = limbs_val(s.skip(k + 1)) as int;
    let sk = s[k] as int;
    assert(limbs_val(s) / limb_weight(k as nat) == sk + hi * limb_base());
    assert(hi * limb_base() >= 0) by (nonlinear_arith) requires hi >= 0;
    lemma_div_add_mul(sk, hi, limb_base() as int);
    lemma_small_mod(sk as nat, limb_base());
}


/// The big-endian value of `n` bytes is below 2^(8 n).
pub proof fn lemma_be_val_bound(s: Seq<u8>)
    ensures
        be_val(s) < pow2(8 * s.len()),
    decreases s.len(),
{
    lemma2_to64();
    if s.len() > 0 {
        let n = (s.len() - 1) as nat;
        lemma_be_val_bound(s.drop_last());
        lemma_pow2_adds(8 * n, 8);
        assert(8 * s.len() == 8 * n + 8);
        let v = be_val(s.drop_last());
        let p = pow2(8 * n);
        assert(v * 256 + (s.last() as nat) < p * 256) by (nonlinear_arith)
            requires v < p, s.last() < 256;
    }
}

/// The 128-byte big-endian encoding of `x < 2^1024` reads back as `x`.
pub proof fn lemma_be_bytes_value(x: nat)
    requires
        x < r_mod(),
    ensures
        be_val(be_bytes(x)) == x,
{
    let b = be_bytes(x);
    assert forall|k: int| 0 <= k < b.len() implies b[k] as nat == (x / pow2(
        (8 * (b.len() - 1 - k)) as nat,
    )) % 256 by {
        lemma_pow2_pos((8 * (127 - k)) as nat);
        lemma_mod_bound((x / pow2((8 * (127 - k)) as nat)) as int, 256);
    }
    lemma_be_digits(x, b, 128);
    assert(b.take(128) =~= b);
    lemma2_to64();
}

/// Bytes that are the big-endian digits of `x` have `x` as their big-endian value.
pub proof fn lemma_be_digits(x: nat, b: Seq<u8>, i: nat)
    requires
        i <= b.len(),
        x < pow2(8 * b.len()),
        forall|k: int| 0 <= k < b.len() ==> b[k] as nat == (x / pow2((8 * (b.len() - 1 - k)) as nat)) % 256,
    ensures
        be_val(b.take(i as int)) == x / pow2((8 * (b.len() - i)) as nat),
    decreases i,
{
    let n = b.len();
    lemma2_to64();
    if i == 0 {
        assert(b.take(0) =~= Seq::<u8>::empty());
        lemma_basic_div(x as int, pow2(8 * n) as int);
        assert(8 * (n - 0) == 8 * n);
    } else {
        let i1 = (i - 1) as nat;
        lemma_be_digits(x, b, i1);
        assert(b.take(i as int).drop_last() =~= b.take(i1 as int));
        let e = (8 * (n - i)) as nat;
        lemma_pow2_pos(e);
        lemma_pow2_adds(e, 8);
        assert(8 * (n - i1) == e + 8);
        let y = x / pow2(e);
        lemma_div_denominator(x as int, pow2(e) as int, 256);
        lemma_fundamental_div_mod(y as int, 256);
        assert(8 * (n - 1 - i1) == e);
        assert(b[i1 as int] as nat == y % 256);
        assert(be_val(b.take(i as int)) == (y / 256) * 256 + y % 256);
    }
}

/// The value of a limb sequence below `2^(64 n)` as bytes: byte `k` of the
/// 128-byte encoding is a byte of limb `15 - k / 8`.
pub proof fn lemma_be_byte_of_limb(s: Seq<u64>, k: int)
    requires
        s.len() == 16,
        0 <= k < 128,
    ensures
        be_byte(limbs_val(s), k) == ((s[15 - k / 8] as nat) / pow2((8 * (7 - k % 8)) as nat)) % 256,
{
    let l = 15 - k / 8;
    let b = (8 * (7 - k % 8)) as nat;
    lemma_bit_of_limb(s, l, b);
    assert(64 * l + b == 8 * (127 - k));
    let hi = limbs_val(s.skip(l + 1)) as int;
    let q = (s[l] as nat) / pow2(b);
    lemma_pow2_pos(b);
    assert(q >= 0);
    assert((64 * l + b) as nat == (8 * (127 - k)) as nat);
    lemma_pow2_adds(8, (56 - b) as nat);
    assert(64 - b == 8 + (56 - b));
    lemma2_to64();
    let m = hi * pow2((56 - b) as nat);
    assert(m >= 0) by (nonlinear_arith) requires hi >= 0, m == hi * pow2((56 - b) as nat);
    assert(hi * pow2((64 - b) as nat) == m * 256) by (nonlinear_arith)
        requires pow2((64 - b) as nat) == 256 * pow2((56 - b) as nat), m == hi * pow2((56 - b) as nat);
    lemma_div_add_mul(q as int, m, 256);
}

/// A `u128` is its low 64 bits plus its high 64 bits times 2^64.
pub proof fn lemma_split_u128(v: u128)
    ensures
        (v as u64) as nat + ((v >> 64u128) as nat) * limb_base() == v as nat,
        (v >> 64u128) as nat <= u64::MAX,
{
    assert((v as u64) as u128 == v % 0x1_0000_0000_0000_0000u128) by (bit_vector);
    assert(v >> 64u128 == v / 0x1_0000_0000_0000_0000u128) by (bit_vector);
}

impl U1024 {
    pub const NUM_LIMBS: usize = 16;

    /// The integer 0.
    pub fn zero() -> (r: U1024)
        ensures
            r.val() == 0,
            forall|i: int| 0 <= i < 16 ==> r.0[i] == 0,
    {
        let r = U1024([0u64; 16]);
        proof { lemma_all_zero_val(r.0@); }
        r
    }

    /// The integer 1.
    pub fn one() -> (r: U1024)
        ensures
            r.val() == 1,
            r.0[0] == 1,
            forall|i: int| 1 <= i < 16 ==> r.0[i] == 0,
    {
        let mut r = U1024([0u64; 16]);
        r.0[0] = 1;
        proof { lemma_single_limb_val(r.0@); }
        r
    }

    /// Adds with carry out: the sum's low 1024 bits and whether it reached 2^1024.
    pub fn carrying_add(&self, rhs: &Self) -> (res: (Self, bool))
        ensures
            res.0.val() + (if res.1 { r_mod() } else { 0 }) == self.val() + rhs.val(),
    {
        let mut ret = U1024([0u64; 16]);
        let mut carry: u64 = 0;
        let mut i: usize = 0;
        while i < 16
            invariant
                0 <= i <= 16,
                carry <= 1,
                limbs_val(ret.0@.take(i as int)) + carry * limb_weight(i as nat) == limbs_val(
                    self.0@.take(i as int),
                ) + limbs_val(rhs.0@.take(i as int)),
            decreases 16 - i,
        {
            let v: u128 = self.0[i] as u128 + rhs.0[i] as u128 + carry as u128;
            let ghost old_ret = ret;
            let ghost old_carry = carry;
            ret.0[i] = v as u64;
            carry = (v >> 64u128) as u64;
            proof {
                lemma_split_u128(v);
                assert(ret.0@.take(i as int) =~= old_ret.0@.take(i as int));
                lemma_limbs_val_take_step(ret.0@, i as int);
                lemma_limbs_val_take_step(self.0@, i as int);
                lemma_limbs_val_take_step(rhs.0@, i as int);
                lemma_limb_weight_step(i as nat);
                let w = limb_weight(i as nat);
                assert((v as nat) * w == ((v as u64) as nat) * w + ((v >> 64u128) as nat) * (
                limb_base() * w)) by (nonlinear_arith)
                    requires
                        (v as u64) as nat + ((v >> 64u128) as nat) * limb_base() == v as nat,
                ;
                assert((v as nat) * w == (self.0[i as int] as nat) * w + (rhs.0[i as int] as nat)
                    * w + (old_carry as nat) * w) by (nonlinear_arith)
                    requires
                        v as nat == self.0[i as int] as nat + rhs.0[i as int] as nat + old_carry as nat,
                ;
            }
            i += 1;
        }
        proof {
            assert(ret.0@.take(16) =~= ret.0@);
            assert(self.0@.take(16) =~= self.0@);
            assert(rhs.0@.take(16) =~= rhs.0@);
        }
        (ret, carry != 0)
    }

    /// Subtracts with borrow out: the difference modulo 2^1024 and whether `rhs > self`.
    pub fn borrowing_sub(&self, rhs: &Self) -> (res: (Self, bool))
        ensures
            res.0.val() as int - (if res.1 { r_mod() as int } else { 0 }) == self.val() as int
                - rhs.val() as int,
            res.1 == (self.val() < rhs.val()),
    {
        let mut ret = U1024([0u64; 16]);
        let mut borrow: u64 = 0;
        let mut i: usize = 0;
        while i < 16
            invariant
                0 <= i <= 16,
                borrow <= 1,
                limbs_val(ret.0@.take(i as int)) as int - borrow * limb_weight(i as nat) == limbs_val(
                    self.0@.take(i as int),
                ) as int - limbs_val(rhs.0@.take(i as int)) as int,
            decreases 16 - i,
        {
            let a: u128 = self.0[i] as u128;
            let b: u128 = rhs.0[i] as u128 + borrow as u128;
            let ghost old_ret = ret;
            let ghost old_borrow = borrow;
            if a >= b {
                ret.0[i] = (a - b) as u64;
                borrow = 0;
            } else {
                ret.0[i] = (a + 0x1_0000_0000_0000_0000u128 - b) as u64;
                borrow = 1;
            }
            proof {
                assert(ret.0@.take(i as int) =~= old_ret.0@.take(i as int));
                lemma_limbs_val_take_step(ret.0@, i as int);
                lemma_limbs_val_take_step(self.0@, i as int);
                lemma_limbs_val_take_step(rhs.0@, i as int);
                lemma_limb_weight_step(i as nat);
                let w = limb_weight(i as nat);
                assert((ret.0[i as int] as int) - borrow * limb_base() == a as int - b as int);
                assert((ret.0[i as int] as int) * w - borrow * (limb_base() * w) == (a as int) * w
                    - (rhs.0[i as int] as int) * w - old_borrow * w) by (nonlinear_arith)
                    requires
                        (ret.0[i as int] as int) - borrow * limb_base() == a as int - b as int,
                        b as int == rhs.0[i as int] as int + old_borrow,
                ;
            }
            i += 1;
        }
        proof {
            assert(ret.0@.take(16) =~= ret.0@);
            assert(self.0@.take(16) =~= self.0@);
            assert(rhs.0@.take(16) =~= rhs.0@);
            lemma_limbs_val_bound(ret.0@);
            lemma_limbs_val_bound(self.0@);
            lemma_limbs_val_bound(rhs.0@);
        }
        (ret, borrow != 0)
    }

    /// Whether every limb is zero.
    pub fn is_zero(&self) -> (r: bool)
        ensures
            r == (self.val() == 0),
    {
        let mut i: usize = 0;
        while i < 16
            invariant
                0 <= i <= 16,
                forall|j: int| 0 <= j < i ==> self.0[j] == 0,
            decreases 16 - i,
        {
            if self.0[i] != 0 {
                proof { lemma_limb_nonzero_val(self.0@, i as int); }
                return false;
            }
            i += 1;
        }
        proof { lemma_all_zero_val(self.0@); }
        true
    }

    /// Limb-wise equality, which is equality of the integers.
    pub fn equals(&self, rhs: &Self) -> (r: bool)
        ensures
            r == (self.0@ == rhs.0@),
            r == (self.val() == rhs.val()),
    {
        proof { lemma_val_injective(self.0@, rhs.0@); }
        let mut i: usize = 0;
        while i < 16
            invariant
                0 <= i <= 16,
                forall|j: int| 0 <= j < i ==> self.0[j] == rhs.0[j],
            decreases 16 - i,
        {
            if self.0[i] != rhs.0[i] {
                assert(self.0@[i as int] != rhs.0@[i as int]);
                proof { lemma_val_injective(self.0@, rhs.0@); }
                return false;
            }
            i += 1;
        }
        assert(self.0@ =~= rhs.0@);
        true
    }

    /// The integer `v`.
    pub fn from_u64(v: u64) -> (r: U1024)
        ensures
            r.val() == v,
            r.0[0] == v,
            forall|i: int| 1 <= i < 16 ==> r.0[i] == 0,
    {
        let mut arr = [0u64; 16];
        arr[0] = v;
        let r = U1024(arr);
        proof { lemma_single_limb_val(r.0@); }
        r
    }

    /// The full 2048-bit product, as its low and high 1024-bit halves.
    pub fn widening_mul(&self, rhs: &Self) -> (res: (Self, Self))
        ensures
            res.0.val() + res.1.val() * r_mod() == self.val() * rhs.val(),
    {
        let mut res = [0u64; 32];
        let mut i: usize = 0;
        proof {
            lemma_all_zero_val(res@);
            assert(limbs_val(self.0@.take(0)) == 0);
        }
        while i < 16
            invariant
                0 <= i <= 16,
                limbs_val(res@) == limbs_val(self.0@.take(i as int)) * rhs.val(),
                forall|k: int| i + 16 <= k < 32 ==> res[k] == 0,
            decreases 16 - i,
        {
            let ghost p = limbs_val(res@);
            let ai = self.0[i];
            let mut carry: u64 = 0;
            let mut j: usize = 0;
            proof {
                assert(limbs_val(rhs.0@.take(0)) == 0);
                assert((ai as nat) * limb_weight(i as nat) * 0 == 0) by (nonlinear_arith);
            }
            while j < 16
                invariant
                    0 <= i < 16,
                    0 <= j <= 16,
                    ai == self.0[i as int],
                    limbs_val(res@) + carry * limb_weight((i + j) as nat) == p + (ai as nat)
                        * limb_weight(i as nat) * limbs_val(rhs.0@.take(j as int)),
                    forall|k: int| i + 16 <= k < 32 ==> res[k] == 0,
                decreases 16 - j,
            {
                let k = i + j;
                let bj = rhs.0[j];
                proof {
                    assert((ai as nat) * (bj as nat) <= (u64::MAX as nat) * (u64::MAX as nat))
                        by (nonlinear_arith)
                        requires ai <= u64::MAX, bj <= u64::MAX;
                }
                let v: u128 = res[k] as u128 + (ai as u128 * bj as u128) + carry as u128;
                let ghost old_res = res@;
                let ghost old_carry = carry;
                res[k] = v as u64;
                carry = (v >> 64u128) as u64;
                proof {
                    lemma_split_u128(v);
                    lemma_limbs_val_update(old_res, k as int, v as u64);
                    assert(res@ == old_res.update(k as int, v as u64));
                    lemma_limbs_val_take_step(rhs.0@, j as int);
                    lemma_limb_weight_step(k as nat);
                    lemma_limb_weight_adds(i as nat, j as nat);
                    let wk = limb_weight(k as nat);
                    let wi = limb_weight(i as nat);
                    let wj = limb_weight(j as nat);
                    let lo = (v as u64) as int;
                    let hi = (v >> 64u128) as int;
                    let tj = limbs_val(rhs.0@.take(j as int)) as int;
                    assert(lo * wk + hi * (wk * limb_base()) == (v as int) * wk) by (nonlinear_arith)
                        requires lo + hi * limb_base() == v as int;
                    assert((v as int) * wk == (old_res[k as int] as int) * wk + (ai as int) * (
                    bj as int) * wk + (old_carry as int) * wk) by (nonlinear_arith)
                        requires
                            v as int == old_res[k as int] as int + (ai as int) * (bj as int)
                                + old_carry as int,
                    ;
                    assert((ai as int) * wi * (tj + (bj as int) * wj) == (ai as int) * wi * tj
                        + (ai as int) * (bj as int) * (wi * wj)) by (nonlinear_arith);
                    assert(limb_weight((i + j + 1) as nat) == wk * limb_base());
                }
                j += 1;
            }
            proof {
                assert(rhs.0@.take(16) =~= rhs.0@);
                assert(res[i + 16] == 0);
            }
            let mut k: usize = i + 16;
            while carry > 0 && k < 32
                invariant
                    0 <= i < 16,
                    i + 16 <= k <= 32,
                    k == i + 16 || carry == 0,
                    limbs_val(res@) + carry * limb_weight(k as nat) == p + (ai as nat) * limb_weight(
                        i as nat,
                    ) * rhs.val(),
                    forall|kk: int| i + 16 < kk < 32 ==> res[kk] == 0,
                    k == i + 16 ==> res[k as int] == 0,
                decreases 32 - k,
            {
                let v: u128 = res[k] as u128 + carry as u128;
                let ghost old_res = res@;
                let ghost old_carry = carry;
                res[k] = v as u64;
                carry = (v >> 64u128) as u64;
                proof {
                    lemma_split_u128(v);
                    lemma_limbs_val_update(old_res, k as int, v as u64);
                    assert(res@ == old_res.update(k as int, v as u64));
                    lemma_limb_weight_step(k as nat);
                    let wk = limb_weight(k as nat);
                    let lo = (v as u64) as int;
                    let hi = (v >> 64u128) as int;
                    assert(lo * wk + hi * (wk * limb_base()) == (v as int) * wk) by (nonlinear_arith)
                        requires lo + hi * limb_base() == v as int;
                    assert((v as int) * wk == (old_res[k as int] as int) * wk + (old_carry as int)
                        * wk) by (nonlinear_arith)
                        requires v as int == old_res[k as int] as int + old_carry as int;
                    assert(old_res[k as int] == 0);
                    assert(hi == 0) by (nonlinear_arith)
                        requires lo + hi * limb_base() == v as int, v as int == old_carry as int,
                            old_carry <= u64::MAX, lo >= 0, hi >= 0;
                }
                k += 1;
            }
            proof {
                lemma_limbs_val_take_step(self.0@, i as int);
                let ta = limbs_val(self.0@.take(i as int));
                let wi = limb_weight(i as nat);
                assert(ta * rhs.val() + (ai as nat) * wi * rhs.val() == (ta + (ai as nat) * wi)
                    * rhs.val()) by (nonlinear_arith);
                if carry > 0 {
                    // k == 32: the product would exceed 2^2048, which it cannot.
                    lemma_limbs_val_bound(self.0@.take(i + 1));
                    lemma_limbs_val_bound(rhs.0@);
                    lemma_limb_weight_adds((i + 1) as nat, 16);
                    lemma_limb_weight_step((i + 16) as nat);
                    lemma_limb_weight_step((i + 17) as nat);
                    let t = limbs_val(self.0@.take(i + 1));
                    let wa = limb_weight((i + 1) as nat);
                    let w16 = limb_weight(16);
                    assert(t * rhs.val() <= wa * w16) by (nonlinear_arith)
                        requires t < wa, rhs.val() < w16;
                    assert(limb_weight((i + 17) as nat) <= limb_weight(32)) by {
                        if i + 17 < 32 {
                            lemma_pow2_strictly_increases(64 * (i + 17) as nat, 64 * 32);
                        }
                    }
                    assert(carry * limb_weight(k as nat) >= limb_weight(32)) by (nonlinear_arith)
                        requires carry >= 1, k == 32, limb_weight(k as nat) == limb_weight(32);
                }
            }
            i += 1;
        }
        let mut low = [0u64; 16];
        let mut high = [0u64; 16];
        let mut k: usize = 0;
        while k < 16
            invariant
                0 <= k <= 16,
                forall|m: int| 0 <= m < k ==> low[m] == res[m] && high[m] == res[m + 16],
            decreases 16 - k,
        {
            low[k] = res[k];
            high[k] = res[k + 16];
            k += 1;
        }
        proof {
            assert(self.0@.take(16) =~= self.0@);
            assert(res@ =~= low@ + high@);
            lemma_limbs_val_concat(low@, high@);
        }
        (U1024(low), U1024(high))
    }

    /// Shift left by `n` bits, dropping what leaves the top limb.
    pub fn shl(&self, n: usize) -> (r: Self)
        ensures
            r.val() == (self.val() * pow2(n as nat)) % r_mod(),
    {
        proof {
            lemma_limbs_val_bound(self.0@);
            lemma2_to64();
            lemma_pow2_pos(1024);
        }
        if n >= 1024 {
            proof {
                lemma_pow2_adds((n - 1024) as nat, 1024);
                let q = self.val() * pow2((n - 1024) as nat);
                assert(self.val() * pow2(n as nat) == q * r_mod()) by (nonlinear_arith)
                    requires pow2(n as nat) == pow2((n - 1024) as nat) * r_mod(),
                        q == self.val() * pow2((n - 1024) as nat);
                lemma_div_add_mul(0, q as int, r_mod() as int);
            }
            return U1024::zero();
        }
        if n == 0 {
            proof {
                lemma_small_mod(self.val(), r_mod());
            }
            return *self;
        }
        let limb_shift: usize = n / 64;
        let bit_shift: usize = n % 64;
        let p: u64 = 1u64 << (bit_shift as u64);
        proof {
            lemma_u64_pow2_no_overflow(bit_shift as nat);
            lemma_u64_shl_is_mul(1, bit_shift as u64);
        }
        let mut result = [0u64; 16];
        let mut i: usize = limb_shift;
        while i < 16
            invariant
                limb_shift <= i <= 16,
                limb_shift < 16,
                bit_shift < 64,
                p as nat == pow2(bit_shift as nat),
                forall|k: int| 0 <= k < 16 ==> (k < i ==> result[k] as nat == shl_limb(
                    self.0@,
                    limb_shift as nat,
                    bit_shift as nat,
                    k as nat,
                )),
                forall|k: int| 0 <= k < limb_shift ==> result[k] == 0,
            decreases 16 - i,
        {
            let src = i - limb_shift;
            proof {
                lemma_shl_parts(self.0[src as int], if src > 0 { self.0[src - 1] } else { 0 }, bit_shift as nat);
            }
            let wide: u128 = self.0[src] as u128 * p as u128;
            let mut limb: u64 = wide as u64;
            proof {
                lemma_split_u128(wide);
                lemma_fundamental_div_mod(wide as int, limb_base() as int);
                lemma_mod_bound(wide as int, limb_base() as int);
                lemma_fundamental_div_mod_converse(wide as int, limb_base() as int,
                    (wide >> 64u128) as int, (wide as u64) as int);
            }
            if src > 0 {
                let prev: u128 = self.0[src - 1] as u128 * p as u128;
                proof {
                    lemma_split_u128(prev);
                    lemma_fundamental_div_mod(prev as int, limb_base() as int);
                    lemma_mod_bound(prev as int, limb_base() as int);
                    lemma_fundamental_div_mod_converse(prev as int, limb_base() as int,
                        (prev >> 64u128) as int, (prev as u64) as int);
                }
                limb = limb + (prev >> 64u128) as u64;
            }
            result[i] = limb;
            i += 1;
        }
        proof {
            let x = self.val() * pow2(64 * (limb_shift as nat) + bit_shift as nat);
            assert forall|k: int| 0 <= k < result@.len() implies result@[k] as nat == (x / limb_weight(
                k as nat,
            )) % limb_base() by {
                lemma_shl_limb(self.0@, limb_shift as nat, bit_shift as nat, k as nat);
            }
            lemma_limbs_of(x, result@);
            assert(64 * (limb_shift as nat) + bit_shift as nat == n as nat);
            assert(limb_weight(16) == r_mod());
        }
        U1024(result)
    }

    /// Shift right by `n` bits: the integer divided by 2^n, rounded down.
    pub fn shr(&self, n: usize) -> (r: Self)
        ensures
            n < 1024 ==> r.val() == self.val() / pow2(n as nat),
            n >= 1024 ==> r.val() == 0,
    {
        proof {
            lemma_limbs_val_bound(self.0@);
            lemma2_to64();
            lemma_pow2_pos(n as nat);
        }
        if n >= 1024 {
            return U1024::zero();
        }
        let limb_shift: usize = n / 64;
        let bit_shift: u64 = (n % 64) as u64;
        let mut result = [0u64; 16];
        let mut k: usize = 0;
        while k < 16
            invariant
                k <= 16,
                limb_shift < 16,
                bit_shift < 64,
                bit_shift == (n % 64) as u64,
                limb_shift == n / 64,
                forall|i: int| 0 <= i < k ==> result[i] as nat == shr_limb(
                    self.0@,
                    limb_shift as nat,
                    bit_shift as nat,
                    i as nat,
                ),
            decreases 16 - k,
        {
            if k + limb_shift < 16 {
                let j = k + limb_shift;
                let lo = self.0[j];
                let hi: u64 = if j + 1 < 16 { self.0[j + 1] } else { 0 };
                let wide: u128 = ((hi as u128) << 64u128) | (lo as u128);
                let limb = (wide >> (bit_shift as u128)) as u64;
                proof {
                    assert(wide == (hi as u128) * 0x1_0000_0000_0000_0000u128 + lo as u128)
                        by (bit_vector)
                        requires
                            wide == ((hi as u128) << 64u128) | (lo as u128),
                    ;
                    lemma_u128_shr_is_div(wide, bit_shift as u128);
                    let sh = wide >> (bit_shift as u128);
                    assert((sh as u64) as u128 == sh % 0x1_0000_0000_0000_0000u128) by (bit_vector);
                }
                result[k] = limb;
            } else {
                result[k] = 0;
            }
            k += 1;
        }
        proof {
            let x = self.val() / pow2(n as nat);
            assert(64 * (limb_shift as nat) + bit_shift as nat == n as nat);
            assert forall|i: int| 0 <= i < result@.len() implies result@[i] as nat == (x
                / limb_weight(i as nat)) % limb_base() by {
                lemma_shr_limb(self.0@, limb_shift as nat, bit_shift as nat, i as nat);
            }
            lemma_limbs_of(x, result@);
            assert(x <= self.val()) by {
                lemma_div_is_ordered_by_denominator(self.val() as int, 1, pow2(n as nat) as int);
                lemma_div_basics(self.val() as int);
            }
            lemma_small_mod(x, r_mod());
            assert(limb_weight(16) == r_mod());
        }
        U1024(result)
    }

    /// Bit `index` of the integer (false beyond bit 1023).
    pub fn bit(&self, index: usize) -> (r: bool)
        ensures
            r == nat_bit(self.val(), index as nat),
    {
        if index >= 1024 {
            proof {
                lemma_limbs_val_bound(self.0@);
                lemma2_to64();
                if index > 1024 {
                    lemma_pow2_strictly_increases(1024, index as nat);
                }
                lemma_basic_div(self.val() as int, pow2(index as nat) as int);
            }
            return false;
        }
        let limb_idx = index / 64;
        let bit_idx = index % 64;
        let limb = self.0[limb_idx];
        proof {
            lemma_bit_of_limb(self.0@, limb_idx as int, bit_idx as nat);
            lemma_u64_shr_is_div(limb, bit_idx as u64);
            assert(64 * limb_idx + bit_idx == index);
        }
        let shifted = limb >> (bit_idx as u64);
        proof {
            assert(shifted & 1 == shifted % 2) by (bit_vector);
        }
        (shifted & 1) == 1
    }

    /// The integer with bit `index` set (unchanged beyond bit 1023).
    pub fn with_bit(&self, index: usize) -> (r: Self)
        ensures
            index >= 1024 ==> r == *self,
            index < 1024 ==> r.val() == set_bit(self.val(), index as nat),
    {
        if index >= 1024 {
            return *self;
        }
        let limb_idx = index / 64;
        let bit_idx = index % 64;
        let mut result = self.0;
        let old_limb = result[limb_idx];
        let mask: u64 = 1u64 << (bit_idx as u64);
        proof {
            lemma_u64_pow2_no_overflow(bit_idx as nat);
            lemma_u64_shl_is_mul(1, bit_idx as u64);
            lemma_bit_of_limb(self.0@, limb_idx as int, bit_idx as nat);
            lemma_u64_shr_is_div(old_limb, bit_idx as u64);
            let bi = bit_idx as u64;
            assert(((old_limb >> bi) & 1 == 1) ==> (old_limb | (1u64 << bi)) == old_limb)
                by (bit_vector) requires bi < 64;
            assert(((old_limb >> bi) & 1 == 0) ==> (old_limb | (1u64 << bi)) == old_limb + (1u64
                << bi)) by (bit_vector) requires bi < 64;
            assert((old_limb >> bi) & 1 == (old_limb >> bi) % 2) by (bit_vector);
            assert(64 * limb_idx + bit_idx == index);
            assert(nat_bit(self.val(), index as nat) == ((old_limb >> bi) & 1 == 1));
            assert(mask == 1u64 << bi);
        }
        result[limb_idx] = old_limb | mask;
        proof {
            lemma_limbs_val_update(self.0@, limb_idx as int, result[limb_idx as int]);
            assert(result@ == self.0@.update(limb_idx as int, result[limb_idx as int]));
            lemma_pow2_adds(64 * limb_idx as nat, bit_idx as nat);
            assert(pow2(index as nat) == limb_weight(limb_idx as nat) * pow2(bit_idx as nat));
            assert((mask as int) * limb_weight(limb_idx as nat) == pow2(index as nat)) by (nonlinear_arith)
                requires
                    pow2(index as nat) == limb_weight(limb_idx as nat) * pow2(bit_idx as nat),
                    mask == pow2(bit_idx as nat),
            ;
            if nat_bit(self.val(), index as nat) {
                assert(result[limb_idx as int] == old_limb);
            } else {
                assert(result[limb_idx as int] == old_limb + mask);
                let w = limb_weight(limb_idx as nat) as int;
                assert(((old_limb + mask) as int) * w - (old_limb as int) * w == (mask as int) * w)
                    by (nonlinear_arith);
            }
        }
        U1024(result)
    }

    /// Whether `self < other` as integers, comparing from the most significant limb.
    pub fn less_than(&self, other: &Self) -> (r: bool)
        ensures
            r == (self.val() < other.val()),
    {
        let mut i: usize = 16;
        while i > 0
            invariant
                0 <= i <= 16,
                forall|j: int| i <= j < 16 ==> self.0[j] == other.0[j],
            decreases i,
        {
            i -= 1;
            if self.0[i] != other.0[i] {
                proof {
                    lemma_limbs_compare(self.0@, other.0@, i as int);
                }
                return self.0[i] < other.0[i];
            }
        }
        proof {
            assert(self.0@ =~= other.0@);
        }
        false
    }

    /// Constant-time select: `b` when `choice` is 1, `a` when it is 0.
    pub fn conditional_select(a: &Self, b: &Self, choice: u8) -> (r: Self)
        requires
            choice <= 1,
        ensures
            r == (if choice == 1 { *b } else { *a }),
    {
        let mut res = [0u64; 16];
        let mut i: usize = 0;
        while i < 16
            invariant
                0 <= i <= 16,
                choice <= 1,
                forall|j: int| 0 <= j < i ==> res[j] == (if choice == 1 { b.0[j] } else { a.0[j] }),
            decreases 16 - i,
        {
            let a_val = opaque_u64(a.0[i]);
            let b_val = opaque_u64(b.0[i]);
            res[i] = ct_select_u64(a_val, b_val, choice);
            i += 1;
        }
        let r = U1024(res);
        assert(r.0 =~= (if choice == 1 { *b } else { *a }).0);
        r
    }

    /// Quotient and remainder by bit-serial restoring division (see
    /// [`div_rem_spec`]); for a nonzero divisor they are `self / divisor`
    /// and `self % divisor` ([`lemma_div_rem_correct`]). A zero divisor is refused.
    pub fn div_rem(&self, divisor: &Self) -> (res: (Self, Self))
        requires
            divisor.val() != 0,
        ensures
            (res.0.val(), res.1.val()) == div_rem_spec(self.val(), divisor.val()),
            res.0.val() == self.val() / divisor.val(),
            res.1.val() == self.val() % divisor.val(),
    {
        proof {
            lemma_limbs_val_bound(self.0@);
            lemma_div_rem_correct(self.val(), divisor.val());
        }
        if self.less_than(divisor) {
            return (U1024::zero(), *self);
        }
        if self.equals(divisor) {
            return (U1024::one(), U1024::zero());
        }
        let one = U1024::one();
        let mut quotient = U1024::zero();
        let mut remainder = U1024::zero();
        let mut i: usize = 1024;
        proof {
            lemma2_to64();
            lemma_limbs_val_bound(divisor.0@);
        }
        while i > 0
            invariant
                i <= 1024,
                one.val() == 1,
                divisor.val() < r_mod(),
                pow2(1) == 2,
                (quotient.val(), remainder.val()) == div_state(self.val(), divisor.val(), (1024 - i) as nat),
            decreases i,
        {
            i -= 1;
            let ghost q0 = quotient.val();
            let ghost r0 = remainder.val();
            remainder = remainder.shl(1);
            let bit: u8 = if self.bit(i) { 1 } else { 0 };
            let (rem_plus_one, c) = remainder.carrying_add(&one);
            proof {
                lemma_limbs_val_bound(rem_plus_one.0@);
                let c_int = if c { 1int } else { 0int };
                lemma_fundamental_div_mod_converse(remainder.val() as int + 1, r_mod() as int, c_int,
                    rem_plus_one.val() as int);
            }
            remainder = U1024::conditional_select(&remainder, &rem_plus_one, bit);
            let (sub_result, borrow) = remainder.borrowing_sub(divisor);
            let should_subtract: u8 = if !borrow { 1 } else { 0 };
            remainder = U1024::conditional_select(&remainder, &sub_result, should_subtract);
            let quotient_with_bit = quotient.with_bit(i);
            quotient = U1024::conditional_select(&quotient, &quotient_with_bit, should_subtract);
            proof {
                assert(1024 - (1024 - i) == i);
            }
        }
        proof {
            lemma_limbs_val_bound(self.0@);
            lemma_div_rem_correct(self.val(), divisor.val());
        }
        (quotient, remainder)
    }

    /// The remainder of [`U1024::div_rem`].
    pub fn mod_reduce(&self, n: &Self) -> (r: Self)
        requires
            n.val() != 0,
        ensures
            r.val() == div_rem_spec(self.val(), n.val()).1,
            r.val() == self.val() % n.val(),
    {
        self.div_rem(n).1
    }

    /// Modular addition (see [`mod_add_spec`]); for `self, rhs < n`
    /// this is `(self + rhs) mod n` ([`lemma_mod_add_is_sum_mod`]).
    pub fn mod_add(&self, rhs: &Self, n: &Self) -> (r: Self)
        ensures
            r.val() == mod_add_spec(self.val(), rhs.val(), n.val()),
            self.val() < n.val() && rhs.val() < n.val() ==> r.val() == (self.val() + rhs.val())
                % n.val(),
    {
        proof {
            lemma_limbs_val_bound(n.0@);
            if self.val() < n.val() && rhs.val() < n.val() {
                lemma_mod_add_is_sum_mod(self.val(), rhs.val(), n.val());
            }
        }
        let (sum, carry) = self.carrying_add(rhs);
        let (sub_res, borrow) = sum.borrowing_sub(n);
        proof {
            lemma_limbs_val_bound(sum.0@);
            lemma_limbs_val_bound(sub_res.0@);
            lemma_limbs_val_bound(n.0@);
            let c = if carry { 1int } else { 0int };
            lemma_fundamental_div_mod_converse((self.val() + rhs.val()) as int, r_mod() as int, c, sum.val() as int);
            let b = if borrow { 1int } else { 0int };
            lemma_fundamental_div_mod_converse(sum.val() + r_mod() - n.val(), r_mod() as int, 1 - b,
                sub_res.val() as int);
        }
        let use_sub = carry || !borrow;
        if use_sub {
            sub_res
        } else {
            sum
        }
    }

    /// 2^1024 reduced by [`U1024::mod_reduce`] (see [`pow2_1024_mod_spec`]).
    pub fn pow2_1024_mod(m: &Self) -> (r: Self)
        requires
            m.val() != 0,
        ensures
            r.val() == pow2_1024_mod_spec(m.val()),
            r.val() == r_mod() % m.val(),
    {
        let (neg_m, _) = U1024::zero().borrowing_sub(m);
        proof {
            lemma_limbs_val_bound(m.0@);
            lemma_pow2_1024_mod_correct(m.val());
            lemma_limbs_val_bound(neg_m.0@);
            lemma_limbs_val_bound(m.0@);
            lemma_fundamental_div_mod_converse(r_mod() as int - m.val(), r_mod() as int, 0, neg_m.val() as int);
        }
        neg_m.mod_reduce(m)
    }

    /// Modular multiplication (see [`mod_mul_spec`]); for `n != 0` this is
    /// `self * rhs mod n` ([`lemma_mod_mul_correct`]).
    pub fn mod_mul(&self, rhs: &Self, n: &Self) -> (r: Self)
        requires
            n.val() != 0,
        ensures
            r.val() == mod_mul_spec(self.val(), rhs.val(), n.val()),
            r.val() == (self.val() * rhs.val()) % n.val(),
        decreases (self.val() * rhs.val()) / r_mod(),
    {
        let (lo, hi) = self.widening_mul(rhs);
        proof {
            lemma_limbs_val_bound(self.0@);
            lemma_limbs_val_bound(rhs.0@);
            lemma_limbs_val_bound(n.0@);
            lemma_mod_mul_correct(self.val(), rhs.val(), n.val());
            lemma_limbs_val_bound(lo.0@);
            lemma_pow2_pos(1024);
            lemma_fundamental_div_mod_converse((self.val() * rhs.val()) as int, r_mod() as int,
                hi.val() as int, lo.val() as int);
        }
        if hi.is_zero() {
            return lo.mod_reduce(n);
        }
        let r = Self::pow2_1024_mod(n);
        proof {
            lemma_limbs_val_bound(r.0@);
            lemma_small_mod(r.val(), r_mod());
            lemma_high_half_decreases(r.val(), hi.val());
        }
        let hi_reduced = r.mod_mul(&hi, n);
        lo.mod_reduce(n).mod_add(&hi_reduced, n)
    }

    /// Modular power by square-and-multiply over all 1024 exponent bits (see
    /// [`mod_pow_spec`]); for `n != 0` this is `self^exp mod n` ([`lemma_mod_pow_correct`]).
    pub fn mod_pow(&self, exp: &Self, n: &Self) -> (r: Self)
        requires
            n.val() != 0,
        ensures
            r.val() == mod_pow_spec(self.val(), exp.val(), n.val()),
            r.val() == pow(self.val() as int, exp.val()) % (n.val() as int),
    {
        proof {
            lemma_limbs_val_bound(self.0@);
            lemma_limbs_val_bound(exp.0@);
            lemma_limbs_val_bound(n.0@);
            lemma_mod_pow_correct(self.val(), exp.val(), n.val());
        }
        if n.equals(&U1024::one()) {
            return U1024::zero();
        }
        let mut result = U1024::one();
        let mut base = self.mod_reduce(n);
        let mut i: usize = 0;
        while i < 16
            invariant
                0 <= i <= 16,
                n.val() != 0,
                (result.val(), base.val()) == mod_pow_state(self.val(), exp.val(), n.val(), (64 * i) as nat),
            decreases 16 - i,
        {
            let mut limb = exp.0[i];
            let mut t: usize = 0;
            proof {
                lemma_u64_shr_is_div(exp.0[i as int], 0);
                lemma2_to64();
                let l0 = exp.0[i as int];
                assert(l0 >> 0 == l0) by (bit_vector);
            }
            while t < 64
                invariant
                    0 <= i < 16,
                    0 <= t <= 64,
                    n.val() != 0,
                    limb as nat == (exp.0[i as int] as nat) / pow2(t as nat),
                    (result.val(), base.val()) == mod_pow_state(self.val(), exp.val(), n.val(), (64 * i + t) as nat),
                decreases 64 - t,
            {
                proof {
                    lemma_bit_of_limb(exp.0@, i as int, t as nat);
                    assert(limb & 1 == limb % 2) by (bit_vector);
                    lemma_pow2_pos(t as nat);
                    lemma_pow2_adds(t as nat, 1);
                    lemma2_to64();
                    lemma_div_denominator(exp.0[i as int] as int, pow2(t as nat) as int, 2);
                    assert(limb >> 1 == limb / 2) by (bit_vector);
                    assert((64 * i + t + 1) as nat - 1 == (64 * i + t) as nat);
                }
                if limb & 1 == 1 {
                    result = result.mod_mul(&base, n);
                }
                base = base.mod_mul(&base, n);
                limb = limb >> 1;
                t += 1;
            }
            i += 1;
        }
        proof {
            lemma_limbs_val_bound(self.0@);
            lemma_limbs_val_bound(exp.0@);
            lemma_limbs_val_bound(n.0@);
            lemma_mod_pow_correct(self.val(), exp.val(), n.val());
        }
        result
    }

    /// The inverse by Fermat's little theorem: `self` to the power `n - 2`
    /// (wrapping) by [`U1024::mod_pow`].
    pub fn mod_inverse(&self, n: &Self) -> (r: Self)
        requires
            n.val() != 0,
        ensures
            r.val() == mod_pow_spec(self.val(), ((n.val() + r_mod() - 2) as nat) % r_mod(), n.val()),
            r.val() == pow(self.val() as int, ((n.val() + r_mod() - 2) as nat) % r_mod()) % (
            n.val() as int),
    {
        let two = U1024::from_u64(2);
        let (exp, _) = n.borrowing_sub(&two);
        proof {
            lemma_limbs_val_bound(exp.0@);
            lemma_limbs_val_bound(n.0@);
            lemma2_to64();
            lemma_pow2_strictly_increases(2, 1024);
            if n.val() >= 2 {
                lemma_fundamental_div_mod_converse(n.val() + r_mod() - 2, r_mod() as int, 1, exp.val() as int);
            } else {
                lemma_fundamental_div_mod_converse(n.val() + r_mod() - 2, r_mod() as int, 0, exp.val() as int);
            }
        }
        self.mod_pow(&exp, n)
    }

    /// The number of limbs up to and including the highest nonzero one.
    pub fn significant_limbs(&self) -> (r: usize)
        ensures
            r <= 16,
            forall|j: int| r <= j < 16 ==> self.0[j] == 0,
            r > 0 ==> self.0[r - 1] != 0,
    {
        let mut top: usize = 16;
        while top > 0 && self.0[top - 1] == 0
            invariant
                top <= 16,
                forall|j: int| top <= j < 16 ==> self.0[j] == 0,
            decreases top,
        {
            top -= 1;
        }
        top
    }

    /// With the limbs from `k` on zero, the integer is below 2^(64 k).
    pub proof fn lemma_high_limbs_zero(self, k: nat)
        requires
            k <= 16,
            forall|j: int| k <= j < 16 ==> self.0[j] == 0,
        ensures
            self.val() < pow2(64 * k),
    {
        let s = self.0@;
        assert(s =~= s.take(k as int) + s.skip(k as int));
        lemma_limbs_val_concat(s.take(k as int), s.skip(k as int));
        lemma_all_zero_val(s.skip(k as int));
        lemma_limbs_val_bound(s.take(k as int));
    }

    /// The 128-byte big-endian encoding.
    pub fn to_be_bytes(&self) -> (r: [u8; 128])
        ensures
            forall|k: int| 0 <= k < 128 ==> r[k] as nat == be_byte(self.val(), k),
            r@ == be_bytes(self.val()),
            be_val(r@) == self.val(),
    {
        let mut res = [0u8; 128];
        let mut i: usize = 0;
        while i < 16
            invariant
                0 <= i <= 16,
                forall|k: int| 0 <= k < 128 ==> (k >= (16 - i) * 8 ==> res[k] as nat == be_byte(self.val(), k)),
            decreases 16 - i,
        {
            let limb = self.0[i];
            let offset = (16 - i - 1) * 8;
            let mut j: usize = 0;
            while j < 8
                invariant
                    0 <= i < 16,
                    0 <= j <= 8,
                    offset == (16 - i - 1) * 8,
                    limb == self.0[i as int],
                    forall|k: int| 0 <= k < 128 ==> ((k >= (16 - i) * 8 || (offset <= k < offset + j))
                        ==> res[k] as nat == be_byte(self.val(), k)),
                decreases 8 - j,
            {
                let shift: u64 = (56 - 8 * j) as u64;
                let byte = ((limb >> shift) & 0xff) as u8;
                proof {
                    lemma_be_byte_of_limb(self.0@, (offset + j) as int);
                    assert(15 - (offset + j) / 8 == i);
                    assert(8 * (7 - (offset + j) % 8) == shift);
                    vstd::bits::lemma_u64_shr_is_div(limb, shift);
                    let sh = limb >> shift;
                    assert(sh & 0xff == sh % 256) by (bit_vector);
                }
                res[offset + j] = byte;
                j += 1;
            }
            i += 1;
        }
        proof {
            lemma_limbs_val_bound(self.0@);
            assert(limb_weight(16) == pow2(8 * 128));
            assert forall|k: int| 0 <= k < res@.len() implies res@[k] as nat == (self.val() / pow2(
                (8 * (res@.len() - 1 - k)) as nat)) % 256 by {
                assert((8 * (res@.len() - 1 - k)) as nat == (8 * (127 - k)) as nat);
            }
            lemma_be_digits(self.val(), res@, 128);
            assert(res@.take(128) =~= res@);
            assert(pow2(0) == 1) by { lemma2_to64(); }
            assert((8 * (res@.len() - 128)) as nat == 0);
            lemma_fundamental_div_mod_converse(self.val() as int, 1, self.val() as int, 0);
            assert(be_val(res@) == self.val() / pow2(0));
            assert(res@ =~= be_bytes(self.val()));
        }
        res
    }

    /// The integer whose big-endian bytes are the first `min(len, 128)` bytes of `bytes`.
    pub fn from_be_bytes(bytes: &[u8]) -> (r: Self)
        ensures
            r.val() == be_val(bytes@.take(if bytes@.len() < 128 { bytes@.len() as int } else { 128 })),
    {
        let mut res = [0u64; 16];
        let n: usize = if bytes.len() < 128 { bytes.len() } else { 128 };
        let mut i: usize = 0;
        proof {
            lemma_all_zero_val(res@);
            assert(bytes@.take(0) =~= Seq::<u8>::empty());
            assert(be_val(bytes@.take(0)) == 0);
            assert(0 * pow2((8 * (n - 0)) as nat) == 0) by (nonlinear_arith);
        }
        while i < n
            invariant
                0 <= i <= n <= 128,
                n <= bytes@.len(),
                limbs_val(res@) == be_val(bytes@.take(i as int)) * pow2((8 * (n - i)) as nat),
            decreases n - i,
        {
            let bit_pos = (n - i - 1) * 8;
            let limb_idx = bit_pos / 64;
            let byte_idx = (bit_pos % 64) / 8;
            let byte = bytes[i];
            let ghost old_res = res@;
            let ghost bv = be_val(bytes@.take(i as int));
            let part: u64 = (byte as u64) << ((byte_idx * 8) as u64);
            proof {
                let sh = (byte_idx * 8) as nat;
                lemma2_to64();
                vstd::bits::lemma_u64_pow2_no_overflow(sh);
                lemma_pow2_adds(sh, 8);
                assert((byte as nat) * pow2(sh) < pow2(sh + 8)) by (nonlinear_arith)
                    requires byte < 256, pow2(sh + 8) == pow2(sh) * 256, pow2(sh) > 0;
                if sh + 8 < 64 {
                    lemma_pow2_strictly_increases(sh + 8, 64);
                }
                vstd::bits::lemma_u64_shl_is_mul(byte as u64, sh as u64);
                // the slot for this byte is empty: the limb is a multiple of 2^(sh + 8)
                lemma_limb_value(old_res, limb_idx as int);
                lemma_pow2_adds(64 * limb_idx as nat, sh + 8);
                assert(64 * limb_idx + sh + 8 == 8 * (n - i));
                let w = limb_weight(limb_idx as nat);
                let m = bv;
                assert(limbs_val(old_res) == (m * pow2(sh + 8)) * w) by (nonlinear_arith)
                    requires
                        limbs_val(old_res) == m * pow2((8 * (n - i)) as nat),
                        pow2((8 * (n - i)) as nat) == w * pow2(sh + 8),
                ;
                lemma_pow2_pos(64 * limb_idx as nat);
                assert((m * pow2(sh + 8)) >= 0) by (nonlinear_arith) requires m >= 0, pow2(sh + 8) > 0;
                lemma_div_add_mul(0, (m * pow2(sh + 8)) as int, w as int);
                let kk = pow2((56 - sh) as nat);
                lemma_pow2_adds(sh + 8, (56 - sh) as nat);
                assert(pow2(sh + 8) * kk == limb_base());
                lemma_pow2_pos((56 - sh) as nat);
                lemma_pow2_pos(sh + 8);
                lemma_mod_scaled(m as int, pow2(sh + 8) as int, kk as int);
                lemma_mod_bound(m as int, kk as int);
                let l = old_res[limb_idx as int] as int;
                assert(l == pow2(sh + 8) * (m % kk));
                assert(l + pow2(sh + 8) <= limb_base()) by (nonlinear_arith)
                    requires l == pow2(sh + 8) * (m % kk), m % kk < kk, pow2(sh + 8) * kk == limb_base(),
                        pow2(sh + 8) > 0;
            }
            res[limb_idx] = res[limb_idx] + part;
            proof {
                let sh = (byte_idx * 8) as nat;
                lemma_limbs_val_update(old_res, limb_idx as int, res[limb_idx as int]);
                assert(res@ == old_res.update(limb_idx as int, res[limb_idx as int]));
                lemma_pow2_adds(64 * limb_idx as nat, sh);
                assert(64 * limb_idx + sh == 8 * (n - i - 1));
                assert(bytes@.take(i + 1).drop_last() =~= bytes@.take(i as int));
                assert(be_val(bytes@.take(i + 1)) == bv * 256 + byte);
                let e = (8 * (n - i - 1)) as nat;
                lemma_pow2_adds(e, 8);
                assert(8 * (n - i) == e + 8);
                lemma2_to64();
                let w = limb_weight(limb_idx as nat);
                let ol = old_res[limb_idx as int] as int;
                assert((ol + part) * w - ol * w == (part as int) * w) by (nonlinear_arith);
                assert((part as int) * w == (byte as int) * pow2(e)) by (nonlinear_arith)
                    requires part == byte * pow2(sh), pow2(e) == w * pow2(sh);
                assert(limbs_val(res@) == (bv * 256 + byte) * pow2(e)) by (nonlinear_arith)
                    requires
                        limbs_val(res@) == limbs_val(old_res) + (part as int) * w,
                        limbs_val(old_res) == bv * pow2(e + 8),
                        pow2(e + 8) == pow2(e) * 256,
                        (part as int) * w == (byte as int) * pow2(e),
                ;
            }
            i += 1;
        }
        proof {
            assert(pow2(0) == 1) by { lemma2_to64(); }
            assert((8 * (n - i)) as nat == 0);
            let bvn = be_val(bytes@.take(i as int));
            assert(bvn * pow2(0) == bvn) by (nonlinear_arith) requires pow2(0) == 1;
            assert(n as int == (if bytes@.len() < 128 { bytes@.len() as int } else { 128 }));
        }
        U1024(res)
    }
}


/// The thread-local random generator of `rand`.
#[verifier::external_type_specification]
#[verifier::external_body]
pub struct ExThreadRng(rand::rngs::ThreadRng);

/// `rand::rng()`: a handle to the thread-local generator, seeded from the
/// operating system. Nothing is stated of it.
#[verifier::external_body]
fn thread_rng() -> rand::rngs::ThreadRng {
    rand::rng()
}

/// `RngCore::next_u64` on the thread-local generator: a random `u64`; any
/// value may come back.
#[verifier::external_body]
fn next_random_u64(rng: &mut rand::rngs::ThreadRng) -> u64 {
    rng.next_u64()
}

impl U1024 {
    /// The reduction of a candidate modulo `n`, when it is not 0: one draw of
    /// [`U1024::random_below`].
    pub fn reduce_candidate(candidate: &U1024, n: &U1024) -> (r: Option<U1024>)
        requires
            n.val() != 0,
        ensures
            r matches Some(v) ==> v.val() == reduce_spec(candidate.val(), n.val()) && v.val() != 0,
            r is None <==> reduce_spec(candidate.val(), n.val()) == 0,
    {
        let val = candidate.mod_reduce(n);
        if val.is_zero() {
            None
        } else {
            Some(val)
        }
    }

    /// A random nonzero value below `n`: random 1024-bit candidates reduced
    /// modulo `n` until one is not 0. After `u64::MAX` zero draws in a row it
    /// gives up with 1.
    pub fn random_below(n: &Self) -> (r: Self)
        requires
            n.val() != 0,
        ensures
            r.val() != 0,
            (exists|c: nat| c < r_mod() && r.val() == reduce_spec(c, n.val())) || r.val() == 1,
            n.val() > 1 ==> r.val() < n.val(),
    {
        let mut rng = thread_rng();
        let mut attempts: u64 = 0;
        proof {
            lemma_pow2_adds(1023, 1);
            lemma2_to64();
        }
        while attempts < u64::MAX
            invariant
                n.val() != 0,
            decreases u64::MAX - attempts,
        {
            let mut limbs = [0u64; 16];
            let mut i: usize = 0;
            while i < 16
                decreases 16 - i,
            {
                limbs[i] = next_random_u64(&mut rng);
                i += 1;
            }
            let candidate = U1024(limbs);
            if let Some(v) = Self::reduce_candidate(&candidate, n) {
                proof {
                    lemma_limbs_val_bound(candidate.0@);
                    lemma_div_rem_correct(candidate.val(), n.val());
                    lemma_mod_bound(candidate.val() as int, n.val() as int);
                }
                return v;
            }
            attempts += 1;
        }
        U1024::one()
    }
}


/// Whether `c` is an ASCII hexadecimal digit.
pub open spec fn is_hex_digit(c: u8) -> bool {
    (0x30 <= c <= 0x39) || (0x41 <= c <= 0x46) || (0x61 <= c <= 0x66)
}

/// The value of an ASCII hexadecimal digit.
pub open spec fn hex_digit_val(c: u8) -> nat {
    if c <= 0x39 {
        (c - 0x30) as nat
    } else if c <= 0x46 {
        (c - 0x41 + 10) as nat
    } else {
        (c - 0x61 + 10) as nat
    }
}

/// The value of a string of hexadecimal digits, most significant first.
pub open spec fn hex_digits_val(s: Seq<u8>) -> nat
    decreases s.len(),
{
    if s.len() == 0 {
        0
    } else {
        hex_digits_val(s.drop_last()) * 16 + hex_digit_val(s.last())
    }
}

/// The digits of a chunk, after an optional leading `+`.
pub open spec fn radix16_digits(s: Seq<u8>) -> Seq<u8> {
    if s.len() > 0 && s[0] == 0x2b {
        s.skip(1)
    } else {
        s
    }
}

/// What `u64::from_str_radix(s, 16)` accepts of a chunk of at most 16 bytes:
/// an optional `+`, then at least one hexadecimal digit.
pub open spec fn radix16_ok(s: Seq<u8>) -> bool {
    let d = radix16_digits(s);
    d.len() > 0 && forall|i: int| 0 <= i < d.len() ==> is_hex_digit(d[i])
}

/// `s` without its leading `"0x"` prefixes (as `trim_start_matches("0x")`).
pub open spec fn trim_0x(s: Seq<u8>) -> Seq<u8>
    decreases s.len(),
{
    if s.len() >= 2 && s[0] == 0x30 && s[1] == 0x78 {
        trim_0x(s.skip(2))
    } else {
        s
    }
}

/// The number of 16-character chunks of a string of length `n`.
pub open spec fn hex_chunk_count(n: nat) -> nat {
    (n + 15) / 16
}

/// Chunk `k` of `t`, counted from the right: 16 characters, or fewer for the
/// leftmost one.
pub open spec fn hex_chunk(t: Seq<u8>, k: nat) -> Seq<u8> {
    let hi = t.len() - 16 * k;
    let lo = if hi >= 16 { hi - 16 } else { 0 };
    t.subrange(lo, hi)
}

/// The inputs `from_hex` accepts: after the `0x` prefixes at most 256
/// characters, each chunk accepted by `from_str_radix`.
pub open spec fn hex_ok(s: Seq<u8>) -> bool {
    let t = trim_0x(s);
    t.len() <= 256 && forall|k: nat| k < hex_chunk_count(t.len()) ==> #[trigger] radix16_ok(hex_chunk(t, k))
}

/// Limb `k` that `from_hex` gives for the string `s`.
pub open spec fn hex_limb(s: Seq<u8>, k: nat) -> nat {
    let t = trim_0x(s);
    if k < hex_chunk_count(t.len()) {
        hex_digits_val(radix16_digits(hex_chunk(t, k)))
    } else {
        0
    }
}

/// The value of at most 16 hexadecimal digits fits in a `u64`.
proof fn lemma_hex_digits_bound(s: Seq<u8>)
    requires
        forall|i: int| 0 <= i < s.len() ==> is_hex_digit(s[i]),
    ensures
        hex_digits_val(s) < pow2(4 * s.len()),
    decreases s.len(),
{
    lemma2_to64();
    if s.len() > 0 {
        let n = (s.len() - 1) as nat;
        lemma_hex_digits_bound(s.drop_last());
        lemma_pow2_adds(4 * n, 4);
        assert(4 * s.len() == 4 * n + 4);
        let v = hex_digits_val(s.drop_last());
        let p = pow2(4 * n);
        assert(hex_digit_val(s.last()) < 16);
        assert(v * 16 + hex_digit_val(s.last()) < p * 16) by (nonlinear_arith)
            requires v < p, hex_digit_val(s.last()) < 16;
    }
}

/// Parses `bytes[lo..hi]` as `u64::from_str_radix(_, 16)` does.
fn parse_radix16(bytes: &[u8], lo: usize, hi: usize) -> (v: u64)
    requires
        lo < hi <= bytes.len(),
        hi - lo <= 16,
        radix16_ok(bytes@.subrange(lo as int, hi as int)),
    ensures
        v == hex_digits_val(radix16_digits(bytes@.subrange(lo as int, hi as int))),
{
    let ghost s = bytes@.subrange(lo as int, hi as int);
    let mut i = lo;
    if bytes[lo] == 0x2b {
        i = lo + 1;
    }
    let ghost d = radix16_digits(s);
    assert(d =~= bytes@.subrange(i as int, hi as int));
    let mut v: u64 = 0;
    let start = i;
    proof {
        lemma2_to64();
        assert(d.take(0) =~= Seq::<u8>::empty());
    }
    while i < hi
        invariant
            start <= i <= hi <= bytes.len(),
            hi - start <= 16,
            d =~= bytes@.subrange(start as int, hi as int),
            forall|j: int| 0 <= j < d.len() ==> is_hex_digit(d[j]),
            v == hex_digits_val(d.take(i - start)),
        decreases hi - i,
    {
        let c = bytes[i];
        proof {
            lemma2_to64();
            let k = (i - start) as int;
            assert(d.take(k + 1).drop_last() =~= d.take(k));
            assert(d[k] == c);
            assert(is_hex_digit(c));
            lemma_hex_digits_bound(d.take(k));
            assert(4 * d.take(k).len() <= 60);
            if k < 15 {
                lemma_pow2_strictly_increases((4 * d.take(k).len()) as nat, 60);
            }
            lemma_pow2_adds(60, 4);
        }
        let digit: u64 = if c <= 0x39 {
            (c - 0x30) as u64
        } else if c <= 0x46 {
            (c - 0x41 + 10) as u64
        } else {
            (c - 0x61 + 10) as u64
        };
        v = v * 16 + digit;
        i += 1;
    }
    proof {
        assert(d.take(d.len() as int) =~= d);
    }
    v
}

impl U1024 {
    /// The integer written in hexadecimal in `hex`: leading `"0x"` prefixes
    /// dropped, then chunks of 16 characters from the right, each parsed by
    /// `u64::from_str_radix`, into the limbs from limb 0 up. Inputs over 256
    /// characters or with an invalid chunk are refused.
    pub fn from_hex(hex: &str) -> (r: Self)
        requires
            hex_ok(hex.spec_bytes()),
        ensures
            forall|k: int| 0 <= k < 16 ==> r.0[k] == hex_limb(hex.spec_bytes(), k as nat),
    {
        let bytes = hex.as_bytes();
        let mut start: usize = 0;
        proof {
            assert(bytes@.skip(0) =~= bytes@);
        }
        while start < bytes.len() && bytes.len() - start >= 2 && bytes[start] == 0x30
            && bytes[start + 1] == 0x78
            invariant
                start <= bytes.len(),
                trim_0x(bytes@) == trim_0x(bytes@.skip(start as int)),
            decreases bytes.len() - start,
        {
            proof {
                assert(bytes@.skip(start as int).skip(2) =~= bytes@.skip(start + 2));
            }
            start += 2;
        }
        let ghost t = bytes@.skip(start as int);
        proof {
            assert(trim_0x(bytes@) == t);
        }
        let len = bytes.len() - start;
        let mut res = [0u64; 16];
        let mut limb_idx: usize = 0;
        let mut char_idx: usize = len;
        while char_idx > 0
            invariant
                t == bytes@.skip(start as int),
                trim_0x(bytes@) == t,
                hex_ok(bytes@),
                len == t.len(),
                len <= 256,
                start + len == bytes.len(),
                16 * limb_idx <= len + 15,
                char_idx == (if 16 * limb_idx <= len { len - 16 * limb_idx } else { 0 }),
                forall|k: int| 0 <= k < limb_idx && k < 16 ==> res[k] == hex_limb(bytes@, k as nat),
                forall|k: int| limb_idx <= k < 16 ==> res[k] == 0,
            decreases char_idx,
        {
            let lo = if char_idx >= 16 { char_idx - 16 } else { 0 };
            proof {
                assert(limb_idx < hex_chunk_count(len as nat)) by {
                    assert(char_idx > 0);
                }
                assert(radix16_ok(hex_chunk(t, limb_idx as nat)));
                assert(hex_chunk(t, limb_idx as nat) =~= bytes@.subrange(start + lo, start + char_idx));
            }
            let val = parse_radix16(bytes, start + lo, start + char_idx);
            if limb_idx < 16 {
                res[limb_idx] = val;
            }
            limb_idx += 1;
            char_idx = lo;
        }
        proof {
            assert forall|k: int| limb_idx <= k < 16 implies #[trigger] hex_limb(bytes@, k as nat) == 0 by {
                assert(k >= hex_chunk_count(len as nat));
            }
        }
        U1024(res)
    }
}


impl From<u64> for U1024 {
    /// The integer `value`.
    fn from(value: u64) -> (r: Self)
        ensures
            r.val() == value,
    {
        let r = U1024::from_u64(value);
        assert(r.0 =~= [value, 0, 0, 0, 0, 0, 0, 0, 0, 0, 0, 0, 0, 0, 0, 0]);
        r
    }
}

impl FromSpecImpl<u64> for U1024 {
    open spec fn obeys_from_spec() -> bool {
        true
    }

    open spec fn from_spec(v: u64) -> U1024 {
        U1024([v, 0, 0, 0, 0, 0, 0, 0, 0, 0, 0, 0, 0, 0, 0, 0])
    }
}

/// The lower-case hexadecimal digits.
pub open spec fn hex_digits() -> Seq<char> {
    seq!['0', '1', '2', '3', '4', '5', '6', '7', '8', '9', 'a', 'b', 'c', 'd', 'e', 'f']
}

/// Character `k` of the 256 hexadecimal digits of the limbs, most significant
/// limb first, each limb as 16 digits.
pub open spec fn hex_digit_at(limbs: Seq<u64>, k: int) -> char {
    hex_digits()[((limbs[15 - k / 16] as nat / pow2((4 * (15 - k % 16)) as nat)) % 16) as int]
}

/// What [`U1024::to_hex_string`] writes: `0x` and then the 256 digits.
pub open spec fn hex_string_spec(limbs: Seq<u64>) -> Seq<char> {
    seq!['0', 'x'] + Seq::new(256, |k: int| hex_digit_at(limbs, k))
}

/// The one-character string of the hexadecimal digit `d < 16`.
fn hex_digit_str(d: u64) -> (r: &'static str)
    requires
        d < 16,
    ensures
        r@ == seq![hex_digits()[d as int]],
{
    proof {
        reveal_strlit("0");
        reveal_strlit("1");
        reveal_strlit("2");
        reveal_strlit("3");
        reveal_strlit("4");
        reveal_strlit("5");
        reveal_strlit("6");
        reveal_strlit("7");
        reveal_strlit("8");
        reveal_strlit("9");
        reveal_strlit("a");
        reveal_strlit("b");
        reveal_strlit("c");
        reveal_strlit("d");
        reveal_strlit("e");
        reveal_strlit("f");
    }
    match d {
        0 => "0",
        1 => "1",
        2 => "2",
        3 => "3",
        4 => "4",
        5 => "5",
        6 => "6",
        7 => "7",
        8 => "8",
        9 => "9",
        10 => "a",
        11 => "b",
        12 => "c",
        13 => "d",
        14 => "e",
        _ => "f",
    }
}

impl U1024 {
    /// The value in hexadecimal: `0x` and 16 lower-case digits per limb, from
    /// the most significant limb down.
    pub fn to_hex_string(&self) -> (s: String)
        ensures
            s@ == hex_string_spec(self.0@),
    {
        proof {
            reveal_strlit("0x");
        }
        let mut s = String::from_str("0x");
        let mut i: usize = 16;
        while i > 0
            invariant
                i <= 16,
                s@ =~= seq!['0', 'x'] + Seq::new(((16 - i) * 16) as nat, |k: int| hex_digit_at(self.0@, k)),
            decreases i,
        {
            i -= 1;
            let limb = self.0[i];
            let mut j: usize = 0;
            while j < 16
                invariant
                    i < 16,
                    j <= 16,
                    limb == self.0@[i as int],
                    s@ =~= seq!['0', 'x'] + Seq::new(((15 - i) * 16 + j) as nat, |k: int| hex_digit_at(self.0@, k)),
                decreases 16 - j,
            {
                let shift: u64 = 4 * (15 - j as u64);
                let d = (limb >> shift) & 0xf;
                proof {
                    lemma_u64_shr_is_div(limb, shift);
                    assert((limb >> shift) & 0xf == (limb >> shift) % 16) by (bit_vector);
                    let c = (15 - i) * 16 + j;
                    lemma_fundamental_div_mod_converse(c as int, 16, (15 - i) as int, j as int);
                    assert(hex_digit_at(self.0@, c as int) == hex_digits()[d as int]);
                }
                s.append(hex_digit_str(d));
                j += 1;
            }
        }
        s
    }
}

/// The ASCII bytes of [`hex_string_spec`].
pub open spec fn hex_bytes_spec(limbs: Seq<u64>) -> Seq<u8> {
    Seq::new(258, |k: int| hex_string_spec(limbs)[k] as u8)
}

/// The byte of the digit `d < 16` is a hexadecimal digit worth `d`, and not `x`.
proof fn lemma_hex_digit_byte(d: nat)
    requires
        d < 16,
    ensures
        is_hex_digit(hex_digits()[d as int] as u8),
        hex_digit_val(hex_digits()[d as int] as u8) == d,
        hex_digits()[d as int] as u8 != 0x78,
        hex_digits()[d as int] as u8 != 0x2b,
{
    assert(hex_digits()[0] as u8 == 0x30);
    assert(hex_digits()[9] as u8 == 0x39);
    assert(hex_digits()[10] as u8 == 0x61);
    assert(hex_digits()[15] as u8 == 0x66);
}

/// Sixteen digits that are the base-16 digits of `l`, most significant first,
/// are worth `l`; the first `m` of them are worth `l / 16^(16 - m)`.
proof fn lemma_hex_digits_of(l: u64, s: Seq<u8>, m: nat)
    requires
        s.len() == 16,
        m <= 16,
        forall|j: int| 0 <= j < 16 ==> hex_digit_val(#[trigger] s[j]) == (l as nat / pow2(
            (4 * (15 - j)) as nat)) % 16,
    ensures
        hex_digits_val(s.take(m as int)) == l as nat / pow2((4 * (16 - m)) as nat),
    decreases m,
{
    lemma2_to64();
    if m == 0 {
        assert(s.take(0) =~= Seq::<u8>::empty());
        lemma_basic_div(l as int, pow2(64) as int);
    } else {
        let m1 = (m - 1) as nat;
        lemma_hex_digits_of(l, s, m1);
        assert(s.take(m as int).drop_last() =~= s.take(m1 as int));
        assert(s.take(m as int).last() == s[m1 as int]);
        let e = (4 * (16 - m)) as nat;
        lemma_pow2_adds(e, 4);
        assert((4 * (16 - m1)) as nat == e + 4);
        lemma_pow2_pos(e);
        let x = l as nat / pow2(e);
        lemma_div_denominator(l as int, pow2(e) as int, 16);
        lemma_fundamental_div_mod(x as int, 16);
        assert((4 * (15 - m1)) as nat == e);
    }
}

/// The hexadecimal string of a value reads back as the value:
/// [`U1024::from_hex`] accepts the bytes of [`U1024::to_hex_string`] and
/// gives back every limb.
pub proof fn lemma_hex_round_trip(limbs: Seq<u64>)
    requires
        limbs.len() == 16,
    ensures
        hex_ok(hex_bytes_spec(limbs)),
        forall|k: nat| k < 16 ==> hex_limb(hex_bytes_spec(limbs), k) == limbs[k as int],
{
    let b = hex_bytes_spec(limbs);
    let t = b.skip(2);
    lemma2_to64();
    // every digit byte is a hexadecimal digit of the right value
    assert forall|c: int| 0 <= c < 256 implies is_hex_digit(#[trigger] t[c]) && t[c] != 0x78
        && t[c] != 0x2b && hex_digit_val(t[c]) == (limbs[15 - c / 16] as nat / pow2(
        (4 * (15 - c % 16)) as nat)) % 16 by {
        let d = (limbs[15 - c / 16] as nat / pow2((4 * (15 - c % 16)) as nat)) % 16;
        assert(t[c] == hex_digits()[d as int] as u8);
        lemma_hex_digit_byte(d);
    }
    // the prefix "0x" goes, and the digits stay
    assert(b[0] == 0x30 && b[1] == 0x78);
    assert(trim_0x(t) == t);
    assert(trim_0x(b) == t);
    assert(hex_chunk_count(256) == 16);
    assert forall|k: nat| k < 16 implies #[trigger] radix16_ok(hex_chunk(t, k))
        && hex_digits_val(radix16_digits(hex_chunk(t, k))) == limbs[k as int] by {
        let ch = hex_chunk(t, k);
        assert(ch =~= t.subrange(240 - 16 * k, 256 - 16 * k));
        assert forall|j: int| 0 <= j < 16 implies hex_digit_val(#[trigger] ch[j]) == (
        limbs[k as int] as nat / pow2((4 * (15 - j)) as nat)) % 16 && is_hex_digit(ch[j]) by {
            let c = 240 - 16 * k + j;
            assert(ch[j] == t[c]);
            lemma_fundamental_div_mod_converse(c, 16, 15 - k, j);
        }
        assert(ch[0] != 0x2b) by {
            assert(ch[0] == t[240 - 16 * k]);
        }
        assert(radix16_digits(ch) == ch);
        assert(ch.len() == 16);
        lemma_hex_digits_of(limbs[k as int], ch, 16);
        assert(ch.take(16) =~= ch);
        assert(pow2(0) == 1);
        assert(hex_digits_val(ch) == limbs[k as int] as nat / 1);
        assert(radix16_ok(ch));
    }
    assert forall|k: nat| k < 16 implies hex_limb(b, k) == limbs[k as int] by {
        assert(radix16_ok(hex_chunk(t, k)));
    }
}

} // verus!
