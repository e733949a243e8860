//! ECDSA signatures.
use vstd::prelude::*;

use crate::affine::{
    add_spec, curve_ok, curve_point, generator_homomorphic, generator_point,
    lemma_add_closed, lemma_generator_homomorphic, lemma_mul_closed, mul_spec, order_of, AffinePoint, PointView,
    SWCurveConfig,
};
use crate::arith::{lemma_add_cong, lemma_mul_cong};
use crate::config::{
    lemma_curve1024_ok, lemma_curve1024_scalar_field, Curve1024BaseField, Curve1024Config,
    Curve1024ScalarField,
};
use crate::prime_field::{
    fe_add, fe_canonical, fe_from_int, fe_inv, fe_mul, field_ok, inverse_ok, lemma_add,
    lemma_canonical, lemma_from_canonical, lemma_from_int, lemma_mul, lemma_pow, modulus_of,
    PrimeFieldConfig, PrimeFieldElement,
};
use crate::u1024::{lemma_limbs_val_bound, r_mod};
use vstd::arithmetic::div_mod::{lemma_mod_bound, lemma_mod_twice, lemma_small_mod};
use vstd::arithmetic::power2::{lemma_pow2_pos, pow2};
use crate::signature::{hash_message, hash_message_spec};
use crate::u1024::U1024;

verus! {

/// The signature `(r, s)` that [`EcdsaSignature::sign_prehashed`] computes for the
/// private key `d`, the message hash `h` and the nonce `k`:
/// `R = k G`, `r = R.x mod n`, `s = k^{-1} (h + r d) mod n`.
pub open spec fn ecdsa_sign_spec<C: SWCurveConfig>(d: nat, h: nat, k: nat) -> (nat, nat) {
    let rp = mul_spec::<C>(generator_point::<C>(), k);
    let e = fe_from_int::<C::ScalarField>(h);
    let r = fe_from_int::<C::ScalarField>(fe_canonical::<C::BaseField>(rp.0));
    let k_inv = fe_inv::<C::ScalarField>(fe_from_int::<C::ScalarField>(k));
    let dd = fe_from_int::<C::ScalarField>(d);
    let s = fe_mul::<C::ScalarField>(
        k_inv,
        fe_add::<C::ScalarField>(e, fe_mul::<C::ScalarField>(r, dd)),
    );
    (fe_canonical::<C::ScalarField>(r), fe_canonical::<C::ScalarField>(s))
}

/// Whether `(r, s)` verifies for the public key `q` and the message hash `h`:
/// `r, s` in `[1, n - 1]`, and with `w = s^{-1}`, the point
/// `P = (h w) G + (r w) Q` is not the point at infinity and `P.x mod n = r`.
pub open spec fn ecdsa_verify_spec<C: SWCurveConfig>(r: nat, s: nat, q: PointView, h: nat) -> bool {
    if r == 0 || s == 0 {
        false
    } else if r >= order_of::<C>() || s >= order_of::<C>() {
        false
    } else {
        let e = fe_from_int::<C::ScalarField>(h);
        let w = fe_inv::<C::ScalarField>(fe_from_int::<C::ScalarField>(s));
        let rr = fe_from_int::<C::ScalarField>(r);
        let u1 = fe_mul::<C::ScalarField>(e, w);
        let u2 = fe_mul::<C::ScalarField>(rr, w);
        let p = add_spec::<C>(
            mul_spec::<C>(generator_point::<C>(), fe_canonical::<C::ScalarField>(u1)),
            mul_spec::<C>(q, fe_canonical::<C::ScalarField>(u2)),
        );
        !p.2 && fe_canonical::<C::ScalarField>(
            fe_from_int::<C::ScalarField>(fe_canonical::<C::BaseField>(p.0)),
        ) == r
    }
}

/// An ECDSA signature `(r, s)`.
#[derive(Debug)]
pub struct EcdsaSignature {
    pub r: U1024,
    pub s: U1024,
}

impl Clone for EcdsaSignature {
    fn clone(&self) -> (c: Self)
        ensures
            c == *self,
    {
        EcdsaSignature { r: self.r, s: self.s }
    }
}

impl EcdsaSignature {
    /// Signs the message hash `hash` with the private key and the nonce `k`.
    pub fn sign_prehashed<C: SWCurveConfig>(private_key: &U1024, hash: &U1024, k: &U1024) -> (sig: Self)
        requires
            curve_ok::<C>(),
        ensures
            (sig.r.val(), sig.s.val()) == ecdsa_sign_spec::<C>(private_key.val(), hash.val(), k.val()),
    {
        let g = C::generator();
        proof {
            lemma_mul_closed::<C>(g@, k.val());
        }
        let r_point = g.mul(k);

        let e = PrimeFieldElement::<C::ScalarField>::new(*hash);
        let r = PrimeFieldElement::<C::ScalarField>::new(r_point.x.to_u1024());
        let k_inv = PrimeFieldElement::<C::ScalarField>::new(*k).inv();
        let private_key = PrimeFieldElement::<C::ScalarField>::new(*private_key);

        let s = k_inv * (e + r * private_key);
        Self { r: r.to_u1024(), s: s.to_u1024() }
    }

    /// Signs `message`: a random nonce `k` in `[1, n - 1]`, `R = k G`,
    /// `r = R.x mod n`, `e` the message hash, `s = k^{-1} (e + r d) mod n`,
    /// with a fresh nonce while `r = 0` or `s = 0`. The number of fresh
    /// nonces is bounded by `u64::MAX`; should every one of them fail, the
    /// result is `(0, 0)`, which no verification accepts.
    pub fn sign<C: SWCurveConfig>(private_key: &U1024, message: &[u8]) -> (sig: Self)
        requires
            curve_ok::<C>(),
        ensures
            (sig.r.val() == 0 && sig.s.val() == 0) || (sig.r.val() != 0 && sig.s.val() != 0
                && exists|k: nat|
                k != 0 && (1 < order_of::<C>() ==> k < order_of::<C>()) && (
                sig.r.val(),
                sig.s.val(),
            ) == ecdsa_sign_spec::<C>(private_key.val(), hash_message_spec(message@), k)),
    {
        let h = hash_message(message);
        let mut retries: u64 = 0;
        while retries < u64::MAX
            invariant
                curve_ok::<C>(),
                h.val() == hash_message_spec(message@),
            decreases u64::MAX - retries,
        {
            let k = U1024::random_below(&U1024(C::ORDER));
            let sig = Self::sign_prehashed::<C>(private_key, &h, &k);
            if !sig.r.is_zero() && !sig.s.is_zero() {
                return sig;
            }
            retries += 1;
        }
        EcdsaSignature { r: U1024::zero(), s: U1024::zero() }
    }

    /// Verifies the signature for the public key and the message hash `hash`.
    pub fn verify_prehashed<C: SWCurveConfig>(&self, public_key: &AffinePoint<C>, hash: &U1024) -> (ok: bool)
        requires
            curve_ok::<C>(),
            curve_point::<C>(public_key@),
        ensures
            ok == ecdsa_verify_spec::<C>(self.r.val(), self.s.val(), public_key@, hash.val()),
    {
        if self.r.is_zero() || self.s.is_zero() {
            return false;
        }
        let order = U1024(C::ORDER);
        if !self.r.less_than(&order) || !self.s.less_than(&order) {
            return false;
        }

        let e = PrimeFieldElement::<C::ScalarField>::new(*hash);
        let w = PrimeFieldElement::<C::ScalarField>::new(self.s).inv();
        let r = PrimeFieldElement::<C::ScalarField>::new(self.r);

        let u1 = e * w;
        let u2 = r * w;

        let g = C::generator();
        let s1 = u1.to_u1024();
        let s2 = u2.to_u1024();
        proof {
            lemma_mul_closed::<C>(g@, s1.val());
            lemma_mul_closed::<C>(public_key@, s2.val());
        }
        let u1_g = g.mul(&s1);
        let u2_pub = public_key.mul(&s2);
        proof {
            lemma_add_closed::<C>(u1_g@, u2_pub@);
        }
        let p = u1_g.add(&u2_pub);

        if p.is_infinite {
            return false;
        }

        let px_mod_n = PrimeFieldElement::<C::ScalarField>::new(p.x.to_u1024());
        px_mod_n.to_u1024().equals(&self.r)
    }

    /// Verifies the signature for the public key and `message`:
    /// `r, s` in `[1, n - 1]`, `w = s^{-1}`, `u1 = e w`, `u2 = r w`,
    /// `P = u1 G + u2 Q`, valid when `P` is not infinity and `P.x mod n = r`.
    pub fn verify<C: SWCurveConfig>(&self, public_key: &AffinePoint<C>, message: &[u8]) -> (ok: bool)
        requires
            curve_ok::<C>(),
            curve_point::<C>(public_key@),
        ensures
            ok == ecdsa_verify_spec::<C>(
                self.r.val(),
                self.s.val(),
                public_key@,
                hash_message_spec(message@),
            ),
    {
        let h = hash_message(message);
        self.verify_prehashed::<C>(public_key, &h)
    }
}


/// The scalar identity behind ECDSA: with `s = k^{-1} (h + r d)` and
/// `w = s^{-1}` (mod `n`), `h w + d (r w) = k (mod n)`.
proof fn lemma_ecdsa_scalars(n: int, h: int, r: int, d: int, rd: int, kk: int, ki: int, s: int, wi: int)
    requires
        n > 1,
        0 <= h < n,
        0 <= r < n,
        0 <= d,
        rd == (r * d) % n,
        0 <= kk < n,
        0 <= ki < n,
        0 <= wi < n,
        (kk * ki) % n == 1,
        s == (ki * ((h + rd) % n)) % n,
        (s * wi) % n == 1,
    ensures
        ((h * wi) % n + (d * ((r * wi) % n)) % n) % n == kk,
{
    let a = (h + rd) % n;
    lemma_small_mod(1, n as nat);
    // a == h + r d (mod n)
    lemma_mod_twice(r * d, n);
    lemma_add_cong(h, h, rd, r * d, n);
    lemma_mod_twice(h + r * d, n);
    // kk s == a (mod n)
    lemma_mod_twice(ki * a, n);
    lemma_mul_cong(kk, kk, s, ki * a, n);
    assert(kk * (ki * a) == (kk * ki) * a) by (nonlinear_arith);
    lemma_mod_twice(kk * ki, n);
    lemma_mul_cong(kk * ki, 1, a, a, n);
    lemma_mod_twice(h + rd, n);
    // T == wi (h + r d) == wi a == wi kk s == kk (mod n)
    lemma_mod_twice(h * wi, n);
    lemma_mod_twice(r * wi, n);
    lemma_mul_cong(d, d, (r * wi) % n, r * wi, n);
    lemma_mod_twice(d * ((r * wi) % n), n);
    lemma_add_cong((h * wi) % n, h * wi, (d * ((r * wi) % n)) % n, d * (r * wi), n);
    assert(h * wi + d * (r * wi) == wi * (h + r * d)) by (nonlinear_arith);
    lemma_mul_cong(wi, wi, h + r * d, a, n);
    lemma_mul_cong(wi, wi, a, kk * s, n);
    assert(wi * (kk * s) == kk * (s * wi)) by (nonlinear_arith);
    lemma_mod_twice(s * wi, n);
    lemma_mul_cong(kk, kk, s * wi, 1, n);
    lemma_small_mod(kk as nat, n as nat);
    lemma_mod_twice((h * wi) % n + (d * ((r * wi) % n)) % n, n);
}

/// An ECDSA signature made with the private key `d`, the message hash `h` and
/// a nonce `k`, whose `r` and `s` are not 0, verifies under the public key
/// `d G` — given a curve the group law stays on, the group facts of
/// [`generator_homomorphic`], inverses in the scalar field ([`inverse_ok`]),
/// and consistent fields with the scalar field modulo the group order.
#[verifier::rlimit(40)]
pub proof fn lemma_ecdsa_sign_verifies<C: SWCurveConfig>(d: nat, h: nat, k: nat)
    requires
        curve_ok::<C>(),
        field_ok::<C::BaseField>(),
        field_ok::<C::ScalarField>(),
        inverse_ok::<C::ScalarField>(),
        modulus_of::<C::ScalarField>() == order_of::<C>(),
        generator_homomorphic::<C>(),
        d < r_mod(),
        h < r_mod(),
        k < r_mod(),
        ecdsa_sign_spec::<C>(d, h, k).0 != 0,
        ecdsa_sign_spec::<C>(d, h, k).1 != 0,
    ensures
        ecdsa_verify_spec::<C>(
            ecdsa_sign_spec::<C>(d, h, k).0,
            ecdsa_sign_spec::<C>(d, h, k).1,
            mul_spec::<C>(generator_point::<C>(), d),
            h,
        ),
{
    let g = generator_point::<C>();
    let n = order_of::<C>();
    let ni = n as int;
    assert(n >= 2);
    lemma_limbs_val_bound(<C::ScalarField as PrimeFieldConfig>::MODULUS@);
    lemma_limbs_val_bound(<C::BaseField as PrimeFieldConfig>::MODULUS@);
    lemma_pow2_pos(1024);
    // the signer's values
    let rp = mul_spec::<C>(g, k);
    lemma_mul_closed::<C>(g, k);
    lemma_canonical::<C::BaseField>(rp.0);
    let x = fe_canonical::<C::BaseField>(rp.0);
    let e = fe_from_int::<C::ScalarField>(h);
    let rr = fe_from_int::<C::ScalarField>(x);
    let kf = fe_from_int::<C::ScalarField>(k);
    let k_inv = fe_inv::<C::ScalarField>(kf);
    let df = fe_from_int::<C::ScalarField>(d);
    let m1 = fe_mul::<C::ScalarField>(rr, df);
    let a = fe_add::<C::ScalarField>(e, m1);
    let sf = fe_mul::<C::ScalarField>(k_inv, a);
    lemma_from_int::<C::ScalarField>(h);
    lemma_from_int::<C::ScalarField>(x);
    lemma_from_int::<C::ScalarField>(k);
    lemma_from_int::<C::ScalarField>(d);
    lemma_mul::<C::ScalarField>(rr, df);
    lemma_add::<C::ScalarField>(e, m1);
    let expo = ((n + r_mod() - 2) as nat) % r_mod();
    lemma_pow::<C::ScalarField>(kf, expo);
    lemma_mul::<C::ScalarField>(k_inv, a);
    let ce = fe_canonical::<C::ScalarField>(e);
    let r = fe_canonical::<C::ScalarField>(rr);
    let kk = fe_canonical::<C::ScalarField>(kf);
    let ki = fe_canonical::<C::ScalarField>(k_inv);
    let s = fe_canonical::<C::ScalarField>(sf);
    assert(ecdsa_sign_spec::<C>(d, h, k) == (r, s));
    // the nonce is invertible, since s is not 0
    vstd::arithmetic::div_mod::lemma_fundamental_div_mod_converse(
        (n + r_mod() - 2) as int,
        r_mod() as int,
        1,
        (n - 2) as int,
    );
    assert(expo == n - 2);
    lemma_small_mod(expo, pow2(1024));
    if kk == 0 {
        // then k G is the point at infinity, whose x is 0, so r would be 0
        lemma_generator_homomorphic::<C>(k, 0);
        assert(rp.2);
        crate::prime_field::lemma_canonical_of::<C::BaseField>(0, 0);
        lemma_small_mod(0, n);
        assert(r == 0);
    }
    assert((kk * ki) % n == 1);
    // the verifier's values
    lemma_from_canonical::<C::ScalarField>(sf);
    lemma_from_canonical::<C::ScalarField>(rr);
    let w = fe_inv::<C::ScalarField>(sf);
    lemma_pow::<C::ScalarField>(sf, expo);
    let wi = fe_canonical::<C::ScalarField>(w);
    assert((s * wi) % n == 1);
    let u1 = fe_mul::<C::ScalarField>(e, w);
    let u2 = fe_mul::<C::ScalarField>(rr, w);
    lemma_mul::<C::ScalarField>(e, w);
    lemma_mul::<C::ScalarField>(rr, w);
    let c1 = fe_canonical::<C::ScalarField>(u1);
    let c2 = fe_canonical::<C::ScalarField>(u2);
    lemma_mod_twice(d as int, ni);
    lemma_mul_cong(r as int, r as int, (d % n) as int, d as int, ni);
    lemma_ecdsa_scalars(ni, ce as int, r as int, d as int, ((r * d) % n) as int, kk as int,
        ki as int, s as int, wi as int);
    // P = u1 G + u2 (d G) = (u1 + d u2) G = k G = R
    lemma_generator_homomorphic::<C>(d, c2);
    let y = (d * c2) % n;
    lemma_mod_bound((d * c2) as int, ni);
    lemma_generator_homomorphic::<C>(c1, y);
    lemma_generator_homomorphic::<C>(k, 0);
    let p = add_spec::<C>(mul_spec::<C>(g, c1), mul_spec::<C>(mul_spec::<C>(g, d), c2));
    assert(p == rp);
}

/// For Curve1024, an ECDSA signature whose `r` and `s` are not 0 verifies under
/// the public key `d G`, given inverses in both fields (Fermat's little theorem
/// for their prime moduli) and the group facts of [`generator_homomorphic`].
pub proof fn lemma_curve1024_ecdsa_sign_verifies(d: nat, h: nat, k: nat)
    requires
        inverse_ok::<Curve1024BaseField>(),
        inverse_ok::<Curve1024ScalarField>(),
        generator_homomorphic::<Curve1024Config>(),
        d < r_mod(),
        h < r_mod(),
        k < r_mod(),
        ecdsa_sign_spec::<Curve1024Config>(d, h, k).0 != 0,
        ecdsa_sign_spec::<Curve1024Config>(d, h, k).1 != 0,
    ensures
        ecdsa_verify_spec::<Curve1024Config>(
            ecdsa_sign_spec::<Curve1024Config>(d, h, k).0,
            ecdsa_sign_spec::<Curve1024Config>(d, h, k).1,
            mul_spec::<Curve1024Config>(generator_point::<Curve1024Config>(), d),
            h,
        ),
{
    lemma_curve1024_ok();
    lemma_curve1024_scalar_field();
    lemma_ecdsa_sign_verifies::<Curve1024Config>(d, h, k);
}

/// The signing equation: for a nonce `k` not divisible by the scalar field's
/// modulus `n`, the signature `(r, s)` has `r, s < n`, `r = R.x mod n` for
/// `R = k G`, and `s k = h + r d (mod n)` — given inverses in the scalar field.
pub proof fn lemma_ecdsa_sign_equation<C: SWCurveConfig>(d: nat, h: nat, k: nat)
    requires
        curve_ok::<C>(),
        field_ok::<C::BaseField>(),
        field_ok::<C::ScalarField>(),
        inverse_ok::<C::ScalarField>(),
        d < r_mod(),
        h < r_mod(),
        k < r_mod(),
        k % modulus_of::<C::ScalarField>() != 0,
    ensures
        ({
            let n = modulus_of::<C::ScalarField>();
            let (r, s) = ecdsa_sign_spec::<C>(d, h, k);
            &&& r < n
            &&& s < n
            &&& r == fe_canonical::<C::BaseField>(
                mul_spec::<C>(generator_point::<C>(), k).0,
            ) % n
            &&& (s * k) % n == (h + r * d) % n
        }),
{
    let g = generator_point::<C>();
    let n = modulus_of::<C::ScalarField>();
    let ni = n as int;
    lemma_limbs_val_bound(<C::ScalarField as PrimeFieldConfig>::MODULUS@);
    lemma_limbs_val_bound(<C::BaseField as PrimeFieldConfig>::MODULUS@);
    lemma_pow2_pos(1024);
    let rp = mul_spec::<C>(g, k);
    lemma_mul_closed::<C>(g, k);
    lemma_canonical::<C::BaseField>(rp.0);
    let x = fe_canonical::<C::BaseField>(rp.0);
    let e = fe_from_int::<C::ScalarField>(h);
    let rr = fe_from_int::<C::ScalarField>(x);
    let kf = fe_from_int::<C::ScalarField>(k);
    let k_inv = fe_inv::<C::ScalarField>(kf);
    let df = fe_from_int::<C::ScalarField>(d);
    let m1 = fe_mul::<C::ScalarField>(rr, df);
    let a = fe_add::<C::ScalarField>(e, m1);
    let sf = fe_mul::<C::ScalarField>(k_inv, a);
    lemma_from_int::<C::ScalarField>(h);
    lemma_from_int::<C::ScalarField>(x);
    lemma_from_int::<C::ScalarField>(k);
    lemma_from_int::<C::ScalarField>(d);
    lemma_mul::<C::ScalarField>(rr, df);
    lemma_add::<C::ScalarField>(e, m1);
    let expo = ((n + r_mod() - 2) as nat) % r_mod();
    lemma_pow::<C::ScalarField>(kf, expo);
    lemma_mul::<C::ScalarField>(k_inv, a);
    lemma_canonical::<C::ScalarField>(sf);
    let r = fe_canonical::<C::ScalarField>(rr) as int;
    let kk = fe_canonical::<C::ScalarField>(kf) as int;
    let ki = fe_canonical::<C::ScalarField>(k_inv) as int;
    let ca = fe_canonical::<C::ScalarField>(a) as int;
    let cm = fe_canonical::<C::ScalarField>(m1) as int;
    let s = fe_canonical::<C::ScalarField>(sf) as int;
    assert(ecdsa_sign_spec::<C>(d, h, k) == (r as nat, s as nat));
    // k has the inverse ki
    assert((kk * ki) % ni == 1);
    // s k == ki (h + r d) k == h + r d (mod n)
    lemma_mod_twice(k as int, ni);
    lemma_mod_twice(ki * ca, ni);
    lemma_mul_cong(s, ki * ca, k as int, kk, ni);
    assert((ki * ca) * kk == (kk * ki) * ca) by (nonlinear_arith);
    lemma_mod_twice(kk * ki, ni);
    lemma_small_mod(1, n);
    lemma_mul_cong(kk * ki, 1, ca, ca, ni);
    // ca == h + r d (mod n)
    lemma_mod_twice((fe_canonical::<C::ScalarField>(e) + cm) as int, ni);
    lemma_mod_twice(h as int, ni);
    lemma_mod_twice(d as int, ni);
    lemma_mod_twice(r * (d % n) as int, ni);
    lemma_mul_cong(r, r, (d % n) as int, d as int, ni);
    lemma_add_cong(fe_canonical::<C::ScalarField>(e) as int, h as int, cm, r * d, ni);
}

/// The scalar identity behind verification: with `w = s^{-1}` and
/// `t s = h + r d` (mod `n`), `h w + d (r w) = t (mod n)`.
proof fn lemma_verify_scalars(n: int, h: int, ce: int, r: int, d: int, wi: int, s: int, t: int)
    requires
        n > 1,
        0 <= h,
        ce == h % n,
        0 <= r,
        0 <= d,
        0 <= t < n,
        (s * wi) % n == 1,
        (t * s) % n == (h + r * d) % n,
    ensures
        ((ce * wi) % n + (d * ((r * wi) % n)) % n) % n == t,
{
    lemma_small_mod(1, n as nat);
    lemma_mod_twice(h, n);
    lemma_mul_cong(ce, h, wi, wi, n);
    lemma_mod_twice(ce * wi, n);
    lemma_mod_twice(r * wi, n);
    lemma_mul_cong(d, d, (r * wi) % n, r * wi, n);
    lemma_mod_twice(d * ((r * wi) % n), n);
    lemma_add_cong((ce * wi) % n, h * wi, (d * ((r * wi) % n)) % n, d * (r * wi), n);
    assert(h * wi + d * (r * wi) == wi * (h + r * d)) by (nonlinear_arith);
    lemma_mul_cong(wi, wi, h + r * d, t * s, n);
    assert(wi * (t * s) == t * (s * wi)) by (nonlinear_arith);
    lemma_mul_cong(t, t, s * wi, 1, n);
    lemma_small_mod(t as nat, n as nat);
}

/// The verification equation: for `r` and `s` in `[1, n - 1]`, the key `d G`
/// and the hash `h`, let `t < n` be the scalar with `t s = h + r d (mod n)`.
/// The signature verifies exactly when `t G` is not the point at infinity and
/// its `x mod n` is `r`. For a signature made with the nonce `k`, `t = k`; a
/// changed `s`, hash or key changes `t`, and then verifies only where the new
/// `t G` shares `x mod n` with `k G` — given a curve the group law stays on,
/// the group facts of [`generator_homomorphic`], inverses in the scalar field
/// and a scalar field modulo the group order.
#[verifier::rlimit(40)]
pub proof fn lemma_ecdsa_verify_equation<C: SWCurveConfig>(r: nat, s: nat, d: nat, h: nat, t: nat)
    requires
        curve_ok::<C>(),
        field_ok::<C::BaseField>(),
        field_ok::<C::ScalarField>(),
        inverse_ok::<C::ScalarField>(),
        modulus_of::<C::ScalarField>() == order_of::<C>(),
        generator_homomorphic::<C>(),
        0 < r < order_of::<C>(),
        0 < s < order_of::<C>(),
        d < r_mod(),
        h < r_mod(),
        t < order_of::<C>(),
        (t * s) % order_of::<C>() == (h + r * d) % order_of::<C>(),
    ensures
        ecdsa_verify_spec::<C>(r, s, mul_spec::<C>(generator_point::<C>(), d), h) == ({
            let p = mul_spec::<C>(generator_point::<C>(), t);
            !p.2 && fe_canonical::<C::BaseField>(p.0) % order_of::<C>() == r
        }),
{
    let g = generator_point::<C>();
    let n = order_of::<C>();
    let ni = n as int;
    lemma_limbs_val_bound(<C::ScalarField as PrimeFieldConfig>::MODULUS@);
    lemma_limbs_val_bound(<C::BaseField as PrimeFieldConfig>::MODULUS@);
    lemma_pow2_pos(1024);
    let e = fe_from_int::<C::ScalarField>(h);
    let sf = fe_from_int::<C::ScalarField>(s);
    let rr = fe_from_int::<C::ScalarField>(r);
    lemma_from_int::<C::ScalarField>(h);
    lemma_from_int::<C::ScalarField>(s);
    lemma_from_int::<C::ScalarField>(r);
    lemma_small_mod(s, n);
    lemma_small_mod(r, n);
    crate::prime_field::lemma_step_zero::<C::ScalarField>(sf);
    crate::prime_field::lemma_step_inv::<C::ScalarField>(sf);
    let w = fe_inv::<C::ScalarField>(sf);
    let wi = fe_canonical::<C::ScalarField>(w);
    let u1 = fe_mul::<C::ScalarField>(e, w);
    let u2 = fe_mul::<C::ScalarField>(rr, w);
    lemma_mul::<C::ScalarField>(e, w);
    lemma_mul::<C::ScalarField>(rr, w);
    let ce = fe_canonical::<C::ScalarField>(e);
    let c1 = fe_canonical::<C::ScalarField>(u1);
    let c2 = fe_canonical::<C::ScalarField>(u2);
    lemma_verify_scalars(ni, h as int, ce as int, r as int, d as int, wi as int, s as int,
        t as int);
    // P = u1 G + u2 (d G) = (u1 + d u2) G = t G
    lemma_generator_homomorphic::<C>(d, c2);
    let y = (d * c2) % n;
    lemma_mod_bound((d * c2) as int, ni);
    lemma_generator_homomorphic::<C>(c1, y);
    let p = add_spec::<C>(mul_spec::<C>(g, c1), mul_spec::<C>(mul_spec::<C>(g, d), c2));
    assert(p == mul_spec::<C>(g, t));
    // the x of P, read in the scalar field
    lemma_mul_closed::<C>(g, t);
    lemma_canonical::<C::BaseField>(p.0);
    lemma_from_int::<C::ScalarField>(fe_canonical::<C::BaseField>(p.0));
}

/// Only `r` and `s` in `[1, n - 1]` can verify: a signature with `r` or `s`
/// equal to 0 or at least the group order `n` is refused, whatever the key
/// and the hash (so `(r, s + n)` is refused though `s + n = s (mod n)`).
pub proof fn lemma_ecdsa_verify_range<C: SWCurveConfig>(r: nat, s: nat, q: PointView, h: nat)
    requires
        r == 0 || s == 0 || r >= order_of::<C>() || s >= order_of::<C>(),
    ensures
        !ecdsa_verify_spec::<C>(r, s, q, h),
{
}

} // verus!
