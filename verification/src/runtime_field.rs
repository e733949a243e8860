//! Montgomery arithmetic modulo a value chosen at run time.
use vstd::arithmetic::div_mod::*;
use vstd::arithmetic::power2::*;
use vstd::prelude::*;

use vstd::arithmetic::power::pow;

use crate::arith::lemma_mul_cong;
use crate::montgomery::{lemma_cancel_r, lemma_redc_bound, lemma_redc_congruent, mont_ok, mont_reduce, redc};
use crate::u1024::{
    lemma_bit_of_limb, lemma_div_rem_correct, lemma_limbs_val_bound, lemma_mod_mul_correct,
    lemma_pow2_1024_mod_correct, mod_add_spec, mod_mul_spec, nat_bit, pow2_1024_mod_spec, r_mod,
    reduce_spec, U1024,
};

verus! {

/// One Newton step towards the inverse of `n` modulo `R`: `x (2 - n x) mod R`,
/// every product and difference wrapped to 1024 bits.
pub open spec fn newton_step(n: nat, x: nat) -> nat {
    let nx = (n * x) % r_mod();
    let diff = ((2 + r_mod() - nx) as nat) % r_mod();
    (x * diff) % r_mod()
}

/// The Newton iterate after `k` steps from 1.
pub open spec fn newton_iter(n: nat, k: nat) -> nat
    decreases k,
{
    if k == 0 {
        1
    } else {
        newton_step(n, newton_iter(n, (k - 1) as nat))
    }
}

/// `-n^{-1} mod R` as `new` computes it: ten Newton steps from 1, negated.
pub open spec fn n_prime_spec(n: nat) -> nat {
    ((r_mod() - newton_iter(n, 10)) as nat) % r_mod()
}

/// The `R^2 mod n` that `new` computes: `R mod n` computed by [`div_rem_spec`] of `0 - n`,
/// then squared by [`mod_mul_spec`].
pub open spec fn r2_spec(n: nat) -> nat {
    mod_mul_spec(pow2_1024_mod_spec(n), pow2_1024_mod_spec(n), n)
}

/// Square-and-multiply state `(result, base)` on Montgomery forms after the `k`
/// lowest exponent bits.
pub open spec fn rt_pow_state(res0: nat, b0: nat, e: nat, m: nat, np: nat, k: nat) -> (nat, nat)
    decreases k,
{
    if k == 0 {
        (res0, b0)
    } else {
        let prev = rt_pow_state(res0, b0, e, m, np, (k - 1) as nat);
        let res = if nat_bit(e, (k - 1) as nat) {
            redc(prev.0 * prev.1, m, np)
        } else {
            prev.0
        };
        (res, redc(prev.1 * prev.1, m, np))
    }
}

/// Arithmetic modulo `modulus`, with the Montgomery constants computed from it.
pub struct RuntimeField {
    pub modulus: U1024,
    n_prime: U1024,
    r2: U1024,
}

impl RuntimeField {
    /// The modulus: the value of the public field `modulus`.
    pub closed spec fn m(&self) -> nat {
        self.modulus.val()
    }

    /// The modulus is good and the constants are those [`RuntimeField::new`]
    /// computes for it, so that the arithmetic is the modular one.
    pub open spec fn constants_ok(&self) -> bool {
        good_modulus(self.m()) && self.n_prime_val() == n_prime_spec(self.m()) && self.r2_val()
            == r2_spec(self.m())
    }

    /// The Montgomery constant `-m^{-1} mod R` held by the field.
    pub closed spec fn n_prime_val(&self) -> nat {
        self.n_prime.val()
    }

    /// The constant held for `R^2 mod m`.
    pub closed spec fn r2_val(&self) -> nat {
        self.r2.val()
    }

    /// Montgomery product of two representations.
    pub open spec fn mont_mul_spec(&self, a: nat, b: nat) -> nat {
        redc(a * b, self.m(), self.n_prime_val())
    }

    /// The Montgomery form of `a`.
    pub open spec fn encode_spec(&self, a: nat) -> nat {
        self.mont_mul_spec(a, self.r2_val())
    }

    /// The value a Montgomery form stands for.
    pub open spec fn decode_spec(&self, a: nat) -> nat {
        redc(a, self.m(), self.n_prime_val())
    }

    /// What [`RuntimeField::pow`] computes.
    pub open spec fn pow_spec(&self, base: nat, e: nat) -> nat {
        if self.m() == 1 {
            0
        } else {
            let res0 = self.encode_spec(1);
            let b0 = self.encode_spec(reduce_spec(base, self.m()));
            self.decode_spec(rt_pow_state(res0, b0, e, self.m(), self.n_prime_val(), 1024).0)
        }
    }

    /// The field modulo `modulus`, with its Montgomery constants.
    pub fn new(modulus: U1024) -> (r: Self)
        requires
            modulus.val() != 0,
        ensures
            r.m() == modulus.val(),
            r.n_prime_val() == n_prime_spec(modulus.val()),
            r.r2_val() == r2_spec(modulus.val()),
    {
        let n_prime = Self::compute_n_prime(&modulus);
        let r2 = Self::compute_r2(&modulus);
        Self { modulus, n_prime, r2 }
    }

    /// The remainder of `a` by the modulus, as [`U1024::div_rem`] computes it.
    pub fn reduce(&self, a: &U1024) -> (r: U1024)
        requires
            self.m() != 0,
        ensures
            r.val() == reduce_spec(a.val(), self.m()),
            r.val() == a.val() % self.m(),
    {
        a.div_rem(&self.modulus).1
    }

    /// Modular addition, as [`mod_add_spec`].
    pub fn add(&self, a: &U1024, b: &U1024) -> (r: U1024)
        ensures
            r.val() == mod_add_spec(a.val(), b.val(), self.m()),
            a.val() < self.m() && b.val() < self.m() ==> r.val() == (a.val() + b.val()) % self.m(),
    {
        proof {
            lemma_limbs_val_bound(self.modulus.0@);
            if a.val() < self.m() && b.val() < self.m() {
                crate::u1024::lemma_mod_add_is_sum_mod(a.val(), b.val(), self.m());
            }
        }
        let (sum, carry) = a.carrying_add(b);
        let (sub_res, borrow) = sum.borrowing_sub(&self.modulus);
        proof {
            lemma_limbs_val_bound(sum.0@);
            lemma_limbs_val_bound(sub_res.0@);
            lemma_limbs_val_bound(self.modulus.0@);
            let c = if carry { 1int } else { 0int };
            lemma_fundamental_div_mod_converse((a.val() + b.val()) as int, r_mod() as int, c, sum.val() as int);
            let bw = if borrow { 1int } else { 0int };
            lemma_fundamental_div_mod_converse(sum.val() + r_mod() - self.m(), r_mod() as int, 1 - bw,
                sub_res.val() as int);
        }
        let use_sub = carry || !borrow;
        if use_sub {
            sub_res
        } else {
            sum
        }
    }

    /// Multiplication through Montgomery form: encode both, multiply, decode.
    pub fn mul(&self, a: &U1024, b: &U1024) -> (r: U1024)
        ensures
            r.val() == self.decode_spec(
                self.mont_mul_spec(self.encode_spec(a.val()), self.encode_spec(b.val())),
            ),
            self.constants_ok() ==> r.val() == (a.val() * b.val()) % self.m(),
    {
        proof {
            if self.constants_ok() {
                lemma_limbs_val_bound(a.0@);
                lemma_limbs_val_bound(b.0@);
                lemma_rt_mul_correct(*self, a.val(), b.val());
            }
        }
        let a_mont = self.encode_mont(a);
        let b_mont = self.encode_mont(b);
        let r_mont = self.mont_mul(&a_mont, &b_mont);
        self.decode_mont(&r_mont)
    }

    /// `base` to the power `exp` by square-and-multiply on Montgomery forms,
    /// over the exponent's limbs up to its highest nonzero one.
    pub fn pow(&self, base: &U1024, exp: &U1024) -> (r: U1024)
        requires
            self.m() != 0,
        ensures
            r.val() == self.pow_spec(base.val(), exp.val()),
            self.constants_ok() ==> r.val() == pow(base.val() as int, exp.val()) % (self.m() as int),
    {
        proof {
            if self.constants_ok() {
                lemma_limbs_val_bound(base.0@);
                lemma_limbs_val_bound(exp.0@);
                lemma_rt_pow_correct(*self, base.val(), exp.val());
            }
        }
        if self.modulus.equals(&U1024::one()) {
            return U1024::zero();
        }
        let mut result = self.encode_mont(&U1024::one());
        let mut b = self.encode_mont(&self.reduce(base));
        let ghost res0 = result.val();
        let ghost b0 = b.val();
        let ghost m = self.m();
        let ghost np = self.n_prime_val();

        let top_limb = exp.significant_limbs();
        let mut i: usize = 0;
        while i < top_limb
            invariant
                0 <= i <= top_limb <= 16,
                (result.val(), b.val()) == rt_pow_state(res0, b0, exp.val(), m, np, (64 * i) as nat),
                forall|j: int| top_limb <= j < 16 ==> exp.0[j] == 0,
                m == self.m(),
                np == self.n_prime_val(),
            decreases top_limb - i,
        {
            let mut limb = exp.0[i];
            let mut t: usize = 0;
            proof {
                let l0 = exp.0[i as int];
                assert(l0 >> 0 == l0) by (bit_vector);
                vstd::bits::lemma_u64_shr_is_div(l0, 0);
            }
            while t < 64
                invariant
                    0 <= i < top_limb <= 16,
                    0 <= t <= 64,
                    limb as nat == (exp.0[i as int] as nat) / pow2(t as nat),
                    (result.val(), b.val()) == rt_pow_state(res0, b0, exp.val(), m, np, (64 * i + t) as nat),
                    m == self.m(),
                    np == self.n_prime_val(),
                decreases 64 - t,
            {
                proof {
                    lemma_bit_of_limb(exp.0@, i as int, t as nat);
                    assert(limb & 1 == limb % 2) by (bit_vector);
                    lemma_pow2_pos(t as nat);
                    lemma_pow2_adds(t as nat, 1);
                    lemma2_to64();
                    lemma_div_denominator(exp.0[i as int] as int, pow2(t as nat) as int, 2);
                    assert(limb >> 1 == limb / 2) by (bit_vector);
                    assert((64 * i + t + 1) as nat - 1 == (64 * i + t) as nat);
                }
                if limb & 1 == 1 {
                    result = self.mont_mul(&result, &b);
                }
                b = self.mont_mul(&b, &b);
                limb = limb >> 1;
                t += 1;
            }
            i += 1;
        }
        proof {
            exp.lemma_high_limbs_zero(top_limb as nat);
            lemma_rt_pow_state_stable(res0, b0, exp.val(), m, np, (64 * top_limb) as nat, 1024);
        }
        self.decode_mont(&result)
    }

    /// The inverse by Fermat's little theorem: `a` to the power `m - 2` (wrapping).
    /// `a = 0` is refused.
    pub fn inv(&self, a: &U1024) -> (r: U1024)
        requires
            self.m() != 0,
            a.val() != 0,
        ensures
            r.val() == self.pow_spec(a.val(), ((self.m() + r_mod() - 2) as nat) % r_mod()),
            self.constants_ok() ==> r.val() == pow(a.val() as int, ((self.m() + r_mod() - 2) as nat)
                % r_mod()) % (self.m() as int),
    {
        let two = U1024::from_u64(2);
        let (exp, _) = self.modulus.borrowing_sub(&two);
        proof {
            lemma_limbs_val_bound(exp.0@);
            lemma_limbs_val_bound(self.modulus.0@);
            lemma2_to64();
            lemma_pow2_strictly_increases(2, 1024);
            let c = if self.m() >= 2 { 0int } else { 1int };
            lemma_fundamental_div_mod_converse(self.m() + r_mod() - 2, r_mod() as int, 1 - c,
                exp.val() as int);
        }
        self.pow(a, &exp)
    }

    /// The Montgomery form of `a`: `a * R2` reduced.
    pub fn encode_mont(&self, a: &U1024) -> (r: U1024)
        ensures
            r.val() == self.encode_spec(a.val()),
    {
        self.mont_mul(a, &self.r2)
    }

    /// The value a Montgomery form stands for.
    pub fn decode_mont(&self, a: &U1024) -> (r: U1024)
        ensures
            r.val() == self.decode_spec(a.val()),
    {
        Self::mont_reduce(a, &U1024::zero(), &self.modulus, &self.n_prime)
    }

    /// Montgomery product of two forms.
    fn mont_mul(&self, a: &U1024, b: &U1024) -> (r: U1024)
        ensures
            r.val() == self.mont_mul_spec(a.val(), b.val()),
    {
        let (lo, hi) = a.widening_mul(b);
        Self::mont_reduce(&lo, &hi, &self.modulus, &self.n_prime)
    }

    /// Montgomery reduction of `hi * 2^1024 + lo` by `n`.
    fn mont_reduce(lo: &U1024, hi: &U1024, n: &U1024, n_prime: &U1024) -> (r: U1024)
        ensures
            r.val() == redc(lo.val() + hi.val() * r_mod(), n.val(), n_prime.val()),
    {
        mont_reduce(lo, hi, n, n_prime)
    }

    /// `-n^{-1} mod 2^1024` by Newton's iteration (see [`lemma_n_prime_correct`]).
    fn compute_n_prime(n: &U1024) -> (r: U1024)
        ensures
            r.val() == n_prime_spec(n.val()),
    {
        let mut inv = U1024::one();
        let two = U1024::from_u64(2);
        let mut k: usize = 0;
        while k < 10
            invariant
                k <= 10,
                inv.val() == newton_iter(n.val(), k as nat),
                two.val() == 2,
            decreases 10 - k,
        {
            let (ni, ni_hi) = n.widening_mul(&inv);
            let (diff, _) = two.borrowing_sub(&ni);
            let (next, next_hi) = inv.widening_mul(&diff);
            proof {
                lemma_limbs_val_bound(ni.0@);
                lemma_limbs_val_bound(diff.0@);
                lemma_limbs_val_bound(next.0@);
                lemma2_to64();
                lemma_pow2_strictly_increases(2, 1024);
                lemma_low_half(n.val(), inv.val(), ni.val(), ni_hi.val());
                lemma_wrapped_sub(2, ni.val(), diff.val());
                lemma_low_half(inv.val(), diff.val(), next.val(), next_hi.val());
            }
            inv = next;
            k += 1;
        }
        let neg = U1024::zero().borrowing_sub(&inv).0;
        proof {
            lemma_limbs_val_bound(inv.0@);
            lemma_limbs_val_bound(neg.0@);
            lemma_pow2_pos(1024);
            lemma_wrapped_sub(0, inv.val(), neg.val());
        }
        neg
    }

    /// `R^2 mod n`: `R mod n` from `0 - n`, then squared modulo `n`.
    fn compute_r2(n: &U1024) -> (r: U1024)
        requires
            n.val() != 0,
        ensures
            r.val() == r2_spec(n.val()),
    {
        let (neg_n, _) = U1024::zero().borrowing_sub(n);
        proof {
            lemma_limbs_val_bound(neg_n.0@);
            lemma_limbs_val_bound(n.0@);
            lemma_fundamental_div_mod_converse(r_mod() as int - n.val(), r_mod() as int, 0,
                neg_n.val() as int);
        }
        let r_mod_n = neg_n.div_rem(n).1;
        r_mod_n.mod_mul(&r_mod_n, n)
    }
}

/// The low half of a widening product is the product modulo `R`.
proof fn lemma_low_half(a: nat, b: nat, lo: nat, hi: nat)
    requires
        lo + hi * r_mod() == a * b,
        lo < r_mod(),
    ensures
        lo == (a * b) % r_mod(),
{
    lemma_pow2_pos(1024);
    lemma_fundamental_div_mod_converse((a * b) as int, r_mod() as int, hi as int, lo as int);
}

/// A wrapped difference `a - b` of values below `R` is `(a + R - b) mod R`.
proof fn lemma_wrapped_sub(a: nat, b: nat, d: nat)
    requires
        a < r_mod(),
        b < r_mod(),
        d < r_mod(),
        d as int - (if a < b { r_mod() as int } else { 0 }) == a as int - b as int,
    ensures
        d == ((a + r_mod() - b) as nat) % r_mod(),
{
    lemma_pow2_pos(1024);
    let k = if a < b { 0int } else { 1int };
    lemma_fundamental_div_mod_converse(a + r_mod() - b, r_mod() as int, k, d as int);
}

/// Once the exponent's remaining bits are zero, the result stays put.
pub proof fn lemma_rt_pow_state_stable(res0: nat, b0: nat, e: nat, m: nat, np: nat, k: nat, n: nat)
    requires
        k <= n,
        e < pow2(k),
    ensures
        rt_pow_state(res0, b0, e, m, np, n).0 == rt_pow_state(res0, b0, e, m, np, k).0,
    decreases n - k,
{
    if n > k {
        lemma_rt_pow_state_stable(res0, b0, e, m, np, k, (n - 1) as nat);
        lemma_pow2_pos((n - 1) as nat);
        if k < n - 1 {
            lemma_pow2_strictly_increases(k, (n - 1) as nat);
        }
        lemma_basic_div(e as int, pow2((n - 1) as nat) as int);
        assert(!nat_bit(e, (n - 1) as nat));
    }
}


/// Reducing modulo a multiple of `m2` keeps the residue modulo `m2`.
proof fn lemma_mod_of_multiple(x: int, m2: int, q: int)
    requires
        m2 > 0,
        q > 0,
    ensures
        (x % (m2 * q)) % m2 == x % m2,
{
    lemma_mod_mod(x, m2, q);
}

/// One Newton step doubles the number of correct low bits of the inverse:
/// `n x = 1 (mod 2^j)` gives `n x' = 1 (mod 2^(2j))`.
pub proof fn lemma_newton_step(n: nat, x: nat, j: nat)
    requires
        1 <= j,
        2 * j <= 1024,
        (n * x) % pow2(j) == 1,
    ensures
        (n * newton_step(n, x)) % pow2(2 * j) == 1,
{
    lemma2_to64();
    lemma_pow2_strictly_increases(0, 2 * j);
    let big = r_mod() as int;
    let m = pow2(j) as int;
    let m2 = pow2(2 * j) as int;
    let q = pow2((1024 - 2 * j) as nat) as int;
    lemma_pow2_pos(j);
    lemma_pow2_pos(2 * j);
    lemma_pow2_pos((1024 - 2 * j) as nat);
    lemma_pow2_adds(j, j);
    lemma_pow2_adds(2 * j, (1024 - 2 * j) as nat);
    assert(big == m2 * q);
    assert(m2 == m * m);
    let t = (n * x) as int;
    let nx = t % big;
    lemma_pow2_pos(1024);
    lemma_mod_bound(t, big);
    assert(nx == (n * x) % r_mod());
    let diff = (2 + big - nx) % big;
    assert(diff == ((2 + r_mod() - (n * x) % r_mod()) as nat) % r_mod());
    let x1 = (x * diff) % big;
    assert(x1 == newton_step(n, x));
    // n x1 == n x diff (mod m2)
    lemma_mod_of_multiple(x * diff, m2, q);
    vstd::arithmetic::div_mod::lemma_mod_twice(x1, m2);
    crate::arith::lemma_mul_cong(n as int, n as int, x1, x * diff, m2);
    assert(n * (x * diff) == t * diff) by (nonlinear_arith) requires t == n * x;
    // diff == 2 - t (mod m2)
    lemma_mod_of_multiple(2 + big - nx, m2, q);
    lemma_mod_multiples_vanish(q, 2 - nx, m2);
    assert(2 + big - nx == m2 * q + (2 - nx));
    lemma_mod_of_multiple(t, m2, q);
    crate::arith::lemma_sub_cong(2, 2, nx, t, m2);
    crate::arith::lemma_mul_cong(t, t, diff, 2 - t, m2);
    // t = 1 + a m gives t (2 - t) = 1 - a^2 m^2
    lemma_fundamental_div_mod(t, m);
    let a = t / m;
    assert(t == m * a + 1);
    assert(t * (2 - t) == m2 * (-(a * a)) + 1) by (nonlinear_arith)
        requires
            t == m * a + 1,
            m2 == m * m,
    ;
    lemma_mod_multiples_vanish(-(a * a), 1, m2);
    lemma_small_mod(1, m2 as nat);
}

/// After `k` Newton steps from 1, an odd `n` times the iterate is 1 modulo `2^(2^k)`.
pub proof fn lemma_newton_iter(n: nat, k: nat)
    requires
        n % 2 == 1,
        k <= 10,
    ensures
        (n * newton_iter(n, k)) % pow2(pow2(k)) == 1,
    decreases k,
{
    lemma2_to64();
    if k == 0 {
        assert(n * 1 == n);
        assert(pow2(pow2(0)) == 2);
    } else {
        let j = pow2((k - 1) as nat);
        lemma_newton_iter(n, (k - 1) as nat);
        lemma_pow2_adds((k - 1) as nat, 1);
        assert(pow2(k) == 2 * j);
        if k - 1 < 9 {
            lemma_pow2_strictly_increases((k - 1) as nat, 9);
        }
        lemma_pow2_pos((k - 1) as nat);
        lemma_newton_step(n, newton_iter(n, (k - 1) as nat), j);
    }
}

/// For an odd modulus, the computed constant is `-n^{-1} mod R`: `n n' + 1 = 0 (mod R)`.
pub proof fn lemma_n_prime_correct(n: nat)
    requires
        n % 2 == 1,
    ensures
        (n * n_prime_spec(n) + 1) % r_mod() == 0,
        n > 1 ==> mont_ok(n, n_prime_spec(n)),
{
    let big = r_mod() as int;
    lemma_pow2_pos(1024);
    lemma2_to64();
    lemma_newton_iter(n, 10);
    let inv = newton_iter(n, 10);
    assert(newton_iter(n, 10) == newton_step(n, newton_iter(n, 9)));
    lemma_mod_bound((newton_iter(n, 9) * (((2 + r_mod() - (n * newton_iter(n, 9)) % r_mod()) as nat) % r_mod())) as int, big);
    assert(inv < big);
    assert((n * inv) % r_mod() == 1);
    if inv == 0 {
        assert(n * inv == 0) by (nonlinear_arith) requires inv == 0;
        lemma_small_mod(0, r_mod());
        assert(false);
    }
    lemma_fundamental_div_mod_converse(big - inv, big, 0, big - inv);
    assert(n_prime_spec(n) == big - inv);
    lemma_fundamental_div_mod((n * inv) as int, big);
    let qq = (n * inv) as int / big;
    assert(n * n_prime_spec(n) + 1 == big * (n - qq)) by (nonlinear_arith)
        requires
            n * inv == big * qq + 1,
            n_prime_spec(n) == big - inv,
    ;
    lemma_mod_multiples_vanish(n - qq, 0, big);
    lemma_small_mod(0, big as nat);
}


/// A modulus the constants of [`RuntimeField::new`] are exact for: odd,
/// above 1 and below 2^1024.
pub open spec fn good_modulus(n: nat) -> bool {
    n % 2 == 1 && 1 < n < r_mod()
}

/// For a good modulus, `new` computes a valid Montgomery constant and
/// `R2 = R^2 mod n`.
pub proof fn lemma_new_constants(n: nat)
    requires
        good_modulus(n),
    ensures
        mont_ok(n, n_prime_spec(n)),
        r2_spec(n) == (r_mod() * r_mod()) % n,
{
    lemma_n_prime_correct(n);
    lemma_pow2_1024_mod_correct(n);
    lemma_pow2_pos(1023);
    lemma_pow2_adds(1023, 1);
    lemma2_to64();
    let p2 = pow2_1024_mod_spec(n);
    lemma_mod_bound(r_mod() as int, n as int);
    lemma_mod_mul_correct(p2, p2, n);
    lemma_mod_twice(r_mod() as int, n as int);
    lemma_mul_cong(p2 as int, r_mod() as int, p2 as int, r_mod() as int, n as int);
}

/// A Montgomery reduction below `n R` lands on the reduced residue of `t R^{-1}`:
/// when `y < n` and `y R = t (mod n)`, `redc(t) = y`.
proof fn lemma_redc_is(t: nat, y: nat, n: nat, np: nat)
    requires
        mont_ok(n, np),
        t < n * r_mod(),
        y < n,
        (y * r_mod()) % n == t % n,
    ensures
        redc(t, n, np) == y,
{
    lemma_redc_bound(t, n, np);
    lemma_redc_congruent(t, n, np);
    lemma_cancel_r(redc(t, n, np), y, n, np);
}

/// The Montgomery form of `a` is `a R mod n`.
pub proof fn lemma_encode_correct(f: RuntimeField, a: nat)
    requires
        good_modulus(f.m()),
        f.n_prime_val() == n_prime_spec(f.m()),
        f.r2_val() == r2_spec(f.m()),
        a < r_mod(),
    ensures
        f.encode_spec(a) == (a * r_mod()) % f.m(),
{
    let n = f.m();
    let ni = n as int;
    let big = r_mod() as int;
    lemma_new_constants(n);
    lemma_pow2_pos(1024);
    lemma_mod_bound(big * big, ni);
    let r2 = f.r2_val();
    assert(a * r2 < n * r_mod()) by (nonlinear_arith) requires a < r_mod(), r2 < n;
    let y = (a * r_mod()) % n;
    lemma_mod_bound(a * big, ni);
    // y R == a R R == a r2 (mod n)
    lemma_mod_twice(a * big, ni);
    lemma_mul_cong(y as int, a * big, big, big, ni);
    lemma_mod_twice(big * big, ni);
    lemma_mul_cong(a as int, a as int, r2 as int, big * big, ni);
    assert((a * big) * big == a * (big * big)) by (nonlinear_arith);
    lemma_redc_is(a * r2, y, n, f.n_prime_val());
}

/// Montgomery multiplication of the forms of `x` and `y` is the form of `x y`.
proof fn lemma_mont_mul_forms(f: RuntimeField, x: nat, y: nat)
    requires
        good_modulus(f.m()),
        f.n_prime_val() == n_prime_spec(f.m()),
        x < f.m(),
        y < f.m(),
    ensures
        f.mont_mul_spec((x * r_mod()) % f.m(), (y * r_mod()) % f.m()) == (((x * y) % f.m())
            * r_mod()) % f.m(),
{
    let n = f.m();
    let ni = n as int;
    let big = r_mod() as int;
    lemma_n_prime_correct(n);
    lemma_pow2_pos(1024);
    let ex = (x * r_mod()) % n;
    let ey = (y * r_mod()) % n;
    lemma_mod_bound(x * big, ni);
    lemma_mod_bound(y * big, ni);
    lemma_pow2_adds(1023, 1);
    lemma2_to64();
    lemma_pow2_pos(1023);
    assert(ex * ey < n * r_mod()) by (nonlinear_arith) requires ex < n, ey < n, n <= r_mod();
    let xy = (x * y) % n;
    let z = (xy * r_mod()) % n;
    lemma_mod_bound((x * y) as int, ni);
    lemma_mod_bound(xy * big, ni);
    // z R == x y R R == ex ey (mod n)
    lemma_mod_twice(x * big, ni);
    lemma_mod_twice(y * big, ni);
    lemma_mul_cong(ex as int, x * big, ey as int, y * big, ni);
    lemma_mod_twice(xy * big, ni);
    lemma_mul_cong(z as int, xy * big, big, big, ni);
    lemma_mod_twice((x * y) as int, ni);
    lemma_mul_cong(xy as int, (x * y) as int, big * big, big * big, ni);
    assert((xy * big) * big == xy * (big * big)) by (nonlinear_arith);
    assert((x * big) * (y * big) == (x * y) * (big * big)) by (nonlinear_arith);
    lemma_redc_is(ex * ey, z, n, f.n_prime_val());
}

/// Decoding the form of `x` gives `x`.
proof fn lemma_decode_form(f: RuntimeField, x: nat)
    requires
        good_modulus(f.m()),
        f.n_prime_val() == n_prime_spec(f.m()),
        x < f.m(),
    ensures
        f.decode_spec((x * r_mod()) % f.m()) == x,
{
    let n = f.m();
    let ni = n as int;
    lemma_n_prime_correct(n);
    lemma_pow2_pos(1024);
    let ex = (x * r_mod()) % n;
    lemma_mod_bound(x * r_mod() as int, ni);
    assert(ex < n * r_mod()) by (nonlinear_arith) requires ex < n, r_mod() >= 1;
    lemma_mod_twice(x * r_mod() as int, ni);
    lemma_redc_is(ex, x, n, f.n_prime_val());
}

/// For a good modulus, [`RuntimeField::mul`] computes `a b mod n`.
pub proof fn lemma_rt_mul_correct(f: RuntimeField, a: nat, b: nat)
    requires
        good_modulus(f.m()),
        f.n_prime_val() == n_prime_spec(f.m()),
        f.r2_val() == r2_spec(f.m()),
        a < r_mod(),
        b < r_mod(),
    ensures
        f.decode_spec(f.mont_mul_spec(f.encode_spec(a), f.encode_spec(b))) == (a * b) % f.m(),
{
    let n = f.m();
    let ni = n as int;
    lemma_encode_correct(f, a);
    lemma_encode_correct(f, b);
    // a R == (a mod n) R (mod n)
    let am = a % n;
    let bm = b % n;
    lemma_mod_bound(a as int, ni);
    lemma_mod_bound(b as int, ni);
    lemma_mod_twice(a as int, ni);
    lemma_mod_twice(b as int, ni);
    lemma_mul_cong(a as int, am as int, r_mod() as int, r_mod() as int, ni);
    lemma_mul_cong(b as int, bm as int, r_mod() as int, r_mod() as int, ni);
    lemma_mont_mul_forms(f, am, bm);
    lemma_mod_bound((am * bm) as int, ni);
    lemma_decode_form(f, (am * bm) % n);
    lemma_mul_cong(am as int, a as int, bm as int, b as int, ni);
}


/// Decoding undoes encoding: the form of `a` decodes to `a mod n`, and the
/// value of a reduced form `b < n` encodes back to `b`.
pub proof fn lemma_encode_decode_round_trip(f: RuntimeField, a: nat, b: nat)
    requires
        f.constants_ok(),
        a < r_mod(),
        b < f.m(),
    ensures
        f.decode_spec(f.encode_spec(a)) == a % f.m(),
        f.encode_spec(f.decode_spec(b)) == b,
{
    let n = f.m();
    let ni = n as int;
    let np = f.n_prime_val();
    lemma_encode_correct(f, a);
    lemma_n_prime_correct(n);
    lemma_pow2_pos(1024);
    // a R == (a mod n) R (mod n)
    let am = a % n;
    lemma_mod_bound(a as int, ni);
    lemma_mod_twice(a as int, ni);
    lemma_mul_cong(a as int, am as int, r_mod() as int, r_mod() as int, ni);
    lemma_decode_form(f, am);
    // the decoded value y of b is below n with y R == b (mod n)
    assert(b < n * r_mod()) by (nonlinear_arith) requires b < n, r_mod() >= 1;
    let y = f.decode_spec(b);
    lemma_redc_bound(b, n, np);
    lemma_redc_congruent(b, n, np);
    lemma_encode_correct(f, y);
    lemma_small_mod(b, n);
}

/// The Montgomery form `x R mod n`.
pub open spec fn mont_form(x: nat, n: nat) -> nat {
    (x * r_mod()) % n
}

/// For a good modulus, after `k` exponent bits the loop of
/// [`RuntimeField::pow`] holds the forms of `b^(e mod 2^k) mod n` and `b^(2^k) mod n`.
pub proof fn lemma_rt_pow_state_correct(f: RuntimeField, base: nat, e: nat, k: nat)
    requires
        good_modulus(f.m()),
        f.n_prime_val() == n_prime_spec(f.m()),
        f.r2_val() == r2_spec(f.m()),
        base < r_mod(),
    ensures
        rt_pow_state(
            f.encode_spec(1),
            f.encode_spec(reduce_spec(base, f.m())),
            e,
            f.m(),
            f.n_prime_val(),
            k,
        ) == (
            mont_form((pow(base as int, e % pow2(k)) % (f.m() as int)) as nat, f.m()),
            mont_form((pow(base as int, pow2(k)) % (f.m() as int)) as nat, f.m()),
        ),
    decreases k,
{
    let n = f.m();
    let ni = n as int;
    let bi = base as int;
    lemma_pow2_pos(k);
    lemma_pow2_adds(1023, 1);
    lemma2_to64();
    lemma_pow2_pos(1023);
    if k == 0 {
        lemma_div_rem_correct(base, n);
        lemma_mod_bound(bi, ni);
        lemma_encode_correct(f, 1);
        lemma_encode_correct(f, base % n);
        lemma_small_mod(e % 1, 1);
        assert(e % pow2(0) == 0);
        vstd::arithmetic::power::lemma_pow0(bi);
        vstd::arithmetic::power::lemma_pow1(bi);
        lemma_small_mod(1, n);
    } else {
        let k1 = (k - 1) as nat;
        lemma_rt_pow_state_correct(f, base, e, k1);
        let x = (pow(bi, e % pow2(k1)) % ni) as nat;
        let y = (pow(bi, pow2(k1)) % ni) as nat;
        lemma_mod_bound(pow(bi, e % pow2(k1)), ni);
        lemma_mod_bound(pow(bi, pow2(k1)), ni);
        lemma_mont_mul_forms(f, y, y);
        lemma_mont_mul_forms(f, x, y);
        lemma_pow2_adds(k1, 1);
        let b1 = pow(bi, pow2(k1));
        vstd::arithmetic::power::lemma_pow_adds(bi, pow2(k1), pow2(k1));
        assert(pow2(k) == pow2(k1) + pow2(k1)) by {
            assert(pow2(k1 + 1) == pow2(k1) * 2);
        }
        lemma_mul_mod_noop(b1, b1, ni);
        let ek1 = e % pow2(k1);
        lemma_breakdown(e as int, pow2(k1) as int, 2);
        assert(e % pow2(k) == ek1 + pow2(k1) * ((e / pow2(k1)) % 2)) by {
            assert(pow2(k) == pow2(k1) * 2);
        }
        let r1 = pow(bi, ek1);
        if nat_bit(e, k1) {
            assert(pow2(k1) * ((e / pow2(k1)) % 2) == pow2(k1));
            assert(e % pow2(k) == ek1 + pow2(k1));
            vstd::arithmetic::power::lemma_pow_adds(bi, ek1, pow2(k1));
            lemma_mul_mod_noop(r1, b1, ni);
        } else {
            lemma_mod_bound((e / pow2(k1)) as int, 2);
            assert((e / pow2(k1)) % 2 == 0);
            assert(pow2(k1) * ((e / pow2(k1)) % 2) == 0);
            assert(e % pow2(k) == ek1);
        }
    }
}

/// For a good modulus, [`RuntimeField::pow`] computes `base^e mod n`.
pub proof fn lemma_rt_pow_correct(f: RuntimeField, base: nat, e: nat)
    requires
        good_modulus(f.m()),
        f.n_prime_val() == n_prime_spec(f.m()),
        f.r2_val() == r2_spec(f.m()),
        base < r_mod(),
        e < r_mod(),
    ensures
        f.pow_spec(base, e) == pow(base as int, e) % (f.m() as int),
{
    let n = f.m();
    lemma_rt_pow_state_correct(f, base, e, 1024);
    lemma_small_mod(e, r_mod());
    lemma_mod_bound(pow(base as int, e), n as int);
    lemma_decode_form(f, (pow(base as int, e) % (n as int)) as nat);
}

} // verus!
