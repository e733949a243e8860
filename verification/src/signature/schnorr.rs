//! Schnorr signatures.
use vstd::prelude::*;

use crate::affine::{
    add_spec, curve_ok, curve_point, generator_homomorphic, generator_point, group_closed,
    lemma_add_closed, lemma_generator_homomorphic, lemma_generator_injective,
    lemma_mul_closed, mul_spec, order_of, AffinePoint, PointView, SWCurveConfig,
};
use crate::arith::{lemma_add_cong, lemma_mul_cong, lemma_sub_cong};
use crate::config::{lemma_curve1024_scalar_field, Curve1024Config};
use crate::prime_field::{
    fe_add, fe_canonical, fe_from_int, fe_mul, field_ok, inverse_ok, lemma_add, lemma_canonical,
    lemma_from_int, lemma_mul, modulus_of, PrimeFieldConfig, PrimeFieldElement,
};
use crate::u1024::{lemma_limbs_val_bound, r_mod};
use vstd::arithmetic::div_mod::{lemma_mod_bound, lemma_mod_twice};
use vstd::arithmetic::power2::lemma_pow2_pos;
use crate::signature::{hash_message, hash_message_spec};
use crate::u1024::{be_bytes, U1024};

verus! {

/// The challenge for the commitment `R` and a message: the hash of the
/// 128-byte encodings of `R.x` and `R.y` followed by the message, reduced
/// into the scalar field (as a representation).
pub open spec fn challenge_spec<C: SWCurveConfig>(rp: PointView, message: Seq<u8>) -> nat {
    fe_from_int::<C::ScalarField>(
        hash_message_spec(
            be_bytes(fe_canonical::<C::BaseField>(rp.0)) + be_bytes(
                fe_canonical::<C::BaseField>(rp.1),
            ) + message,
        ),
    )
}

/// The response `s = k + e d mod n` for the nonce `k`, the challenge `e` (a
/// representation) and the private key `d`.
pub open spec fn response_spec<C: SWCurveConfig>(k: nat, e: nat, d: nat) -> nat {
    fe_canonical::<C::ScalarField>(
        fe_add::<C::ScalarField>(
            fe_from_int::<C::ScalarField>(k),
            fe_mul::<C::ScalarField>(e, fe_from_int::<C::ScalarField>(d)),
        ),
    )
}

/// Whether `(R, s)` verifies for the public key `q` and the challenge `e`:
/// `s < n` and `s G = R + e Q`.
pub open spec fn schnorr_verify_spec<C: SWCurveConfig>(rp: PointView, s: nat, q: PointView, e: nat) -> bool {
    s < order_of::<C>() && mul_spec::<C>(generator_point::<C>(), s) == add_spec::<C>(
        rp,
        mul_spec::<C>(q, fe_canonical::<C::ScalarField>(e)),
    )
}

/// A Schnorr signature: the commitment `R` and the response `s`.
#[derive(Debug)]
pub struct SchnorrSignature<C: SWCurveConfig> {
    pub r_point: AffinePoint<C>,
    pub s: U1024,
}

impl<C: SWCurveConfig> Clone for SchnorrSignature<C> {
    fn clone(&self) -> (r: Self)
        ensures
            r == *self,
    {
        Self { r_point: self.r_point, s: self.s }
    }
}

impl<C: SWCurveConfig> SchnorrSignature<C> {
    /// The challenge `e = H(R.x || R.y || message) mod n`.
    pub fn challenge_hash(r: &AffinePoint<C>, message: &[u8]) -> (e: PrimeFieldElement<C::ScalarField>)
        ensures
            e.raw() == challenge_spec::<C>(r@, message@),
    {
        let r_x = r.x.to_bytes();
        let r_y = r.y.to_bytes();

        let mut combined: Vec<u8> = Vec::new();
        let mut i: usize = 0;
        while i < 128
            invariant
                i <= 128,
                combined@ == r_x@.take(i as int),
            decreases 128 - i,
        {
            combined.push(r_x[i]);
            i += 1;
            proof {
                assert(combined@ =~= r_x@.take(i as int));
            }
        }
        let mut i: usize = 0;
        while i < 128
            invariant
                i <= 128,
                combined@ == r_x@ + r_y@.take(i as int),
            decreases 128 - i,
        {
            combined.push(r_y[i]);
            i += 1;
            proof {
                assert(combined@ =~= r_x@ + r_y@.take(i as int));
            }
        }
        let mut i: usize = 0;
        while i < message.len()
            invariant
                i <= message.len(),
                combined@ == r_x@ + r_y@ + message@.take(i as int),
            decreases message.len() - i,
        {
            combined.push(message[i]);
            i += 1;
            proof {
                assert(combined@ =~= r_x@ + r_y@ + message@.take(i as int));
            }
        }
        proof {
            assert(r_x@.take(128) =~= r_x@);
            assert(r_y@.take(128) =~= r_y@);
            assert(message@.take(message.len() as int) =~= message@);
            assert(r_x@ =~= be_bytes(fe_canonical::<C::BaseField>(r@.0)));
            assert(r_y@ =~= be_bytes(fe_canonical::<C::BaseField>(r@.1)));
        }
        PrimeFieldElement::new(hash_message(combined.as_slice()))
    }

    /// The response `s = k + e d mod n` for the nonce, the challenge and the private key.
    pub fn response(k: &U1024, e: &PrimeFieldElement<C::ScalarField>, private_key: &U1024) -> (s: U1024)
        ensures
            s.val() == response_spec::<C>(k.val(), e.raw(), private_key.val()),
    {
        let k = PrimeFieldElement::<C::ScalarField>::new(*k);
        let private_key = PrimeFieldElement::<C::ScalarField>::new(*private_key);
        let s = k + *e * private_key;
        s.to_u1024()
    }

    /// Signs `message` with the private key and the nonce `k`: `R = k G`,
    /// `e = H(R, message)`, `s = k + e d mod n`.
    pub fn sign_with_nonce(private_key: &U1024, message: &[u8], k: &U1024) -> (sig: Self)
        requires
            curve_ok::<C>(),
        ensures
            sig.r_point@ == mul_spec::<C>(generator_point::<C>(), k.val()),
            sig.s.val() == response_spec::<C>(
                k.val(),
                challenge_spec::<C>(sig.r_point@, message@),
                private_key.val(),
            ),
    {
        let g = C::generator();
        proof {
            lemma_mul_closed::<C>(g@, k.val());
        }
        let r_point = g.mul(k);
        let e = Self::challenge_hash(&r_point, message);
        let s = Self::response(k, &e, private_key);
        Self { r_point, s }
    }

    /// Signs `message`: a random nonce `k` in `[1, n - 1]`, `R = k G`,
    /// `e = H(R, message)`, `s = k + e d mod n`.
    pub fn sign(private_key: &U1024, message: &[u8]) -> (sig: Self)
        requires
            curve_ok::<C>(),
        ensures
            exists|k: nat|
                k != 0 && (1 < order_of::<C>() ==> k < order_of::<C>())
                    && sig.r_point@ == mul_spec::<C>(generator_point::<C>(), k) && sig.s.val()
                    == response_spec::<C>(
                    k,
                    challenge_spec::<C>(sig.r_point@, message@),
                    private_key.val(),
                ),
    {
        let k = U1024::random_below(&U1024(C::ORDER));
        Self::sign_with_nonce(private_key, message, &k)
    }

    /// Verifies the signature for the public key and the challenge `e`:
    /// valid when `s < n` and `s G = R + e Q`.
    pub fn verify_with_challenge(&self, public_key: &AffinePoint<C>, e: &PrimeFieldElement<C::ScalarField>) -> (ok: bool)
        requires
            curve_ok::<C>(),
            curve_point::<C>(public_key@),
            curve_point::<C>(self.r_point@),
        ensures
            ok == schnorr_verify_spec::<C>(self.r_point@, self.s.val(), public_key@, e.raw()),
    {
        if !self.s.less_than(&U1024(C::ORDER)) {
            return false;
        }
        let g = C::generator();
        let e_int = e.to_u1024();
        proof {
            lemma_mul_closed::<C>(g@, self.s.val());
            lemma_mul_closed::<C>(public_key@, e_int.val());
        }
        let v1 = g.mul(&self.s);
        let e_pub = public_key.mul(&e_int);
        proof {
            lemma_add_closed::<C>(self.r_point@, e_pub@);
        }
        let v2 = self.r_point.add(&e_pub);
        v1.equals(&v2)
    }

    /// Verifies the signature for the public key and `message`:
    /// `e = H(R, message)`, valid when `s < n` and `s G = R + e Q`.
    pub fn verify(&self, public_key: &AffinePoint<C>, message: &[u8]) -> (ok: bool)
        requires
            curve_ok::<C>(),
            curve_point::<C>(public_key@),
            curve_point::<C>(self.r_point@),
        ensures
            ok == schnorr_verify_spec::<C>(
                self.r_point@,
                self.s.val(),
                public_key@,
                challenge_spec::<C>(self.r_point@, message@),
            ),
    {
        let e = Self::challenge_hash(&self.r_point, message);
        self.verify_with_challenge(public_key, &e)
    }
}


/// The response is `k + c(e) d mod n`, where `c(e)` is the integer the
/// challenge stands for.
pub proof fn lemma_response_value<C: SWCurveConfig>(k: nat, e: nat, d: nat)
    requires
        field_ok::<C::ScalarField>(),
        k < r_mod(),
        d < r_mod(),
        e < modulus_of::<C::ScalarField>(),
    ensures
        response_spec::<C>(k, e, d) == (k + fe_canonical::<C::ScalarField>(e) * d)
            % modulus_of::<C::ScalarField>(),
{
    let n = modulus_of::<C::ScalarField>();
    let ni = n as int;
    let ka = fe_from_int::<C::ScalarField>(k);
    let da = fe_from_int::<C::ScalarField>(d);
    lemma_from_int::<C::ScalarField>(k);
    lemma_from_int::<C::ScalarField>(d);
    let b = fe_mul::<C::ScalarField>(e, da);
    lemma_mul::<C::ScalarField>(e, da);
    lemma_add::<C::ScalarField>(ka, b);
    let ce = fe_canonical::<C::ScalarField>(e) as int;
    // (k mod n + (c(e) (d mod n)) mod n) mod n == (k + c(e) d) mod n
    lemma_mod_twice(k as int, ni);
    lemma_mod_twice(d as int, ni);
    lemma_mul_cong(ce, ce, (d % n) as int, d as int, ni);
    lemma_mod_twice(ce * d, ni);
    lemma_add_cong((k % n) as int, k as int, ((ce * (d % n) as int) % ni), ce * d, ni);
}

/// A Schnorr signature made with the private key `d` and any nonce `k`
/// verifies under the public key `d G`, given the group facts of
/// [`generator_homomorphic`] and a consistent scalar field modulo the group order.
pub proof fn lemma_schnorr_sign_verifies<C: SWCurveConfig>(d: nat, k: nat, message: Seq<u8>)
    requires
        field_ok::<C::ScalarField>(),
        modulus_of::<C::ScalarField>() == order_of::<C>(),
        generator_homomorphic::<C>(),
        d < r_mod(),
        k < r_mod(),
    ensures
        ({
            let rp = mul_spec::<C>(generator_point::<C>(), k);
            let e = challenge_spec::<C>(rp, message);
            schnorr_verify_spec::<C>(
                rp,
                response_spec::<C>(k, e, d),
                mul_spec::<C>(generator_point::<C>(), d),
                e,
            )
        }),
{
    let g = generator_point::<C>();
    let n = order_of::<C>();
    let ni = n as int;
    let rp = mul_spec::<C>(g, k);
    let e = challenge_spec::<C>(rp, message);
    let q = mul_spec::<C>(g, d);
    lemma_limbs_val_bound(<C::ScalarField as PrimeFieldConfig>::MODULUS@);
    lemma_pow2_pos(1024);
    crate::signature::lemma_hash_message_bound(
        be_bytes(fe_canonical::<C::BaseField>(rp.0)) + be_bytes(fe_canonical::<C::BaseField>(rp.1))
            + message,
    );
    lemma_from_int::<C::ScalarField>(
        hash_message_spec(
            be_bytes(fe_canonical::<C::BaseField>(rp.0)) + be_bytes(
                fe_canonical::<C::BaseField>(rp.1),
            ) + message,
        ),
    );
    assert(e < n);
    lemma_response_value::<C>(k, e, d);
    let ce = fe_canonical::<C::ScalarField>(e);
    lemma_canonical::<C::ScalarField>(e);
    let s = response_spec::<C>(k, e, d);
    lemma_mod_bound((k + ce * d) as int, ni);
    // e Q = (d c(e) mod n) G
    lemma_generator_homomorphic::<C>(d, ce);
    let x = (d * ce) % n;
    lemma_mod_bound((d * ce) as int, ni);
    // R + e Q = (k + x mod n) G = s G
    lemma_generator_homomorphic::<C>(k, x);
    lemma_mod_twice((d * ce) as int, ni);
    lemma_add_cong(k as int, k as int, x as int, (ce * d) as int, ni);
    assert(d * ce == ce * d) by (nonlinear_arith);
}

/// For Curve1024, a Schnorr signature made with the private key `d` and any
/// nonce `k` verifies under the public key `d G`, given the group facts of
/// [`generator_homomorphic`].
pub proof fn lemma_curve1024_schnorr_sign_verifies(d: nat, k: nat, message: Seq<u8>)
    requires
        generator_homomorphic::<Curve1024Config>(),
        d < r_mod(),
        k < r_mod(),
    ensures
        ({
            let rp = mul_spec::<Curve1024Config>(generator_point::<Curve1024Config>(), k);
            let e = challenge_spec::<Curve1024Config>(rp, message);
            schnorr_verify_spec::<Curve1024Config>(
                rp,
                response_spec::<Curve1024Config>(k, e, d),
                mul_spec::<Curve1024Config>(generator_point::<Curve1024Config>(), d),
                e,
            )
        }),
{
    lemma_curve1024_scalar_field();
    lemma_schnorr_sign_verifies::<Curve1024Config>(d, k, message);
}

/// The challenge is a reduced representation: it lies below `n`, and so does
/// the integer it stands for.
proof fn lemma_challenge_reduced<C: SWCurveConfig>(rp: PointView, message: Seq<u8>)
    requires
        field_ok::<C::ScalarField>(),
    ensures
        challenge_spec::<C>(rp, message) < modulus_of::<C::ScalarField>(),
        fe_canonical::<C::ScalarField>(challenge_spec::<C>(rp, message))
            < modulus_of::<C::ScalarField>(),
{
    let bytes = be_bytes(fe_canonical::<C::BaseField>(rp.0)) + be_bytes(
        fe_canonical::<C::BaseField>(rp.1),
    ) + message;
    lemma_limbs_val_bound(<C::ScalarField as PrimeFieldConfig>::MODULUS@);
    lemma_pow2_pos(1024);
    crate::signature::lemma_hash_message_bound(bytes);
    lemma_from_int::<C::ScalarField>(hash_message_spec(bytes));
    lemma_canonical::<C::ScalarField>(challenge_spec::<C>(rp, message));
}

/// When a Schnorr signature verifies under another key or message: the
/// signature `(R, s)` made with the private key `d` and the nonce `k` for a
/// message with challenge `e` verifies under the key `d2 G` and a message with
/// challenge `e2` (for the same `R`) exactly when `e d = e2 d2 (mod n)`. So a
/// wrong key (`d2 != d mod n`, `e != 0`) or a wrong message (`e2 != e`,
/// `d != 0 mod n`) is refused, given the group facts of
/// [`generator_homomorphic`] and a consistent scalar field modulo the group order.
pub proof fn lemma_schnorr_verify_other<C: SWCurveConfig>(
    d: nat,
    k: nat,
    message: Seq<u8>,
    d2: nat,
    message2: Seq<u8>,
)
    requires
        field_ok::<C::ScalarField>(),
        modulus_of::<C::ScalarField>() == order_of::<C>(),
        generator_homomorphic::<C>(),
        d < r_mod(),
        k < r_mod(),
        d2 < r_mod(),
    ensures
        ({
            let n = order_of::<C>();
            let rp = mul_spec::<C>(generator_point::<C>(), k);
            let e = challenge_spec::<C>(rp, message);
            let e2 = challenge_spec::<C>(rp, message2);
            schnorr_verify_spec::<C>(
                rp,
                response_spec::<C>(k, e, d),
                mul_spec::<C>(generator_point::<C>(), d2),
                e2,
            ) == ((fe_canonical::<C::ScalarField>(e) * d) % n == (fe_canonical::<C::ScalarField>(
                e2,
            ) * d2) % n)
        }),
{
    let g = generator_point::<C>();
    let n = order_of::<C>();
    let ni = n as int;
    let rp = mul_spec::<C>(g, k);
    let e = challenge_spec::<C>(rp, message);
    let e2 = challenge_spec::<C>(rp, message2);
    lemma_limbs_val_bound(<C::ScalarField as PrimeFieldConfig>::MODULUS@);
    lemma_pow2_pos(1024);
    lemma_challenge_reduced::<C>(rp, message);
    lemma_challenge_reduced::<C>(rp, message2);
    let ce = fe_canonical::<C::ScalarField>(e);
    let ce2 = fe_canonical::<C::ScalarField>(e2);
    lemma_response_value::<C>(k, e, d);
    let s = response_spec::<C>(k, e, d);
    lemma_mod_bound((k + ce * d) as int, ni);
    // e2 (d2 G) = x2 G and R + x2 G = (k + x2 mod n) G
    lemma_generator_homomorphic::<C>(d2, ce2);
    let x2 = (d2 * ce2) % n;
    lemma_mod_bound((d2 * ce2) as int, ni);
    lemma_generator_homomorphic::<C>(k, x2);
    let t = (k + x2) % n;
    lemma_mod_bound((k + x2) as int, ni);
    lemma_generator_injective::<C>(s, t);
    // (k + e d) = (k + x2) (mod n) exactly when e d = e2 d2 (mod n)
    assert(d2 * ce2 == ce2 * d2) by (nonlinear_arith);
    lemma_mod_twice((d2 * ce2) as int, ni);
    lemma_mod_twice((k + ce * d) as int, ni);
    lemma_mod_twice((k + x2) as int, ni);
    if s == t {
        lemma_sub_cong((k + ce * d) as int, (k + x2) as int, k as int, k as int, ni);
    }
    if (ce * d) % n == (ce2 * d2) % n {
        lemma_add_cong(k as int, k as int, (ce * d) as int, x2 as int, ni);
    }
}

/// A Schnorr signature with any other response is refused: for the signature
/// `(R, s)` made with the private key `d` and the nonce `k`, no `s2 != s`
/// verifies under `d G` for the same message (in particular `s + 1`, and every
/// `s2 >= n`), given the group facts of [`generator_homomorphic`] and a
/// consistent scalar field modulo the group order.
pub proof fn lemma_schnorr_other_response_refused<C: SWCurveConfig>(
    d: nat,
    k: nat,
    message: Seq<u8>,
    s2: nat,
)
    requires
        field_ok::<C::ScalarField>(),
        modulus_of::<C::ScalarField>() == order_of::<C>(),
        generator_homomorphic::<C>(),
        d < r_mod(),
        k < r_mod(),
        s2 != response_spec::<C>(
            k,
            challenge_spec::<C>(mul_spec::<C>(generator_point::<C>(), k), message),
            d,
        ),
    ensures
        !schnorr_verify_spec::<C>(
            mul_spec::<C>(generator_point::<C>(), k),
            s2,
            mul_spec::<C>(generator_point::<C>(), d),
            challenge_spec::<C>(mul_spec::<C>(generator_point::<C>(), k), message),
        ),
{
    let g = generator_point::<C>();
    let n = order_of::<C>();
    let rp = mul_spec::<C>(g, k);
    let e = challenge_spec::<C>(rp, message);
    let s = response_spec::<C>(k, e, d);
    lemma_limbs_val_bound(<C::ScalarField as PrimeFieldConfig>::MODULUS@);
    lemma_pow2_pos(1024);
    lemma_challenge_reduced::<C>(rp, message);
    lemma_response_value::<C>(k, e, d);
    lemma_mod_bound((k + fe_canonical::<C::ScalarField>(e) * d) as int, n as int);
    lemma_schnorr_sign_verifies::<C>(d, k, message);
    if s2 < n {
        lemma_generator_injective::<C>(s2, s);
    }
}

/// The challenge covers the whole message: the integer it stands for is
/// [`hash_message`] of `R.x || R.y || message`, reduced modulo `n`.
pub proof fn lemma_challenge_is_message_hash<C: SWCurveConfig>(rp: PointView, message: Seq<u8>)
    requires
        field_ok::<C::ScalarField>(),
    ensures
        fe_canonical::<C::ScalarField>(challenge_spec::<C>(rp, message)) == hash_message_spec(
            be_bytes(fe_canonical::<C::BaseField>(rp.0)) + be_bytes(
                fe_canonical::<C::BaseField>(rp.1),
            ) + message,
        ) % modulus_of::<C::ScalarField>(),
{
    let bytes = be_bytes(fe_canonical::<C::BaseField>(rp.0)) + be_bytes(
        fe_canonical::<C::BaseField>(rp.1),
    ) + message;
    crate::signature::lemma_hash_message_bound(bytes);
    lemma_from_int::<C::ScalarField>(hash_message_spec(bytes));
}

/// A Schnorr signature is bound to its whole message: the signature made
/// with the private key `d` (not 0 modulo `n`) and the nonce `k` for
/// `message` verifies under `d G` for `message2` exactly when
/// [`hash_message`] of `R.x || R.y || message2` agrees with that of
/// `R.x || R.y || message` modulo `n`. A message that differs in any byte
/// whose hash differs modulo `n` is refused — given the group facts of
/// [`generator_homomorphic`], inverses in the scalar field and a scalar
/// field modulo the group order.
pub proof fn lemma_schnorr_bound_to_message<C: SWCurveConfig>(
    d: nat,
    k: nat,
    message: Seq<u8>,
    message2: Seq<u8>,
)
    requires
        field_ok::<C::ScalarField>(),
        inverse_ok::<C::ScalarField>(),
        modulus_of::<C::ScalarField>() == order_of::<C>(),
        generator_homomorphic::<C>(),
        d < r_mod(),
        k < r_mod(),
        d % order_of::<C>() != 0,
    ensures
        ({
            let n = order_of::<C>();
            let rp = mul_spec::<C>(generator_point::<C>(), k);
            schnorr_verify_spec::<C>(
                rp,
                response_spec::<C>(k, challenge_spec::<C>(rp, message), d),
                mul_spec::<C>(generator_point::<C>(), d),
                challenge_spec::<C>(rp, message2),
            ) == (hash_message_spec(
                be_bytes(fe_canonical::<C::BaseField>(rp.0)) + be_bytes(
                    fe_canonical::<C::BaseField>(rp.1),
                ) + message,
            ) % n == hash_message_spec(
                be_bytes(fe_canonical::<C::BaseField>(rp.0)) + be_bytes(
                    fe_canonical::<C::BaseField>(rp.1),
                ) + message2,
            ) % n)
        }),
{
    let g = generator_point::<C>();
    let n = order_of::<C>();
    let ni = n as int;
    let rp = mul_spec::<C>(g, k);
    let e = challenge_spec::<C>(rp, message);
    let e2 = challenge_spec::<C>(rp, message2);
    lemma_schnorr_verify_other::<C>(d, k, message, d, message2);
    lemma_challenge_is_message_hash::<C>(rp, message);
    lemma_challenge_is_message_hash::<C>(rp, message2);
    lemma_challenge_reduced::<C>(rp, message);
    lemma_challenge_reduced::<C>(rp, message2);
    let ce = fe_canonical::<C::ScalarField>(e);
    let ce2 = fe_canonical::<C::ScalarField>(e2);
    if (ce * d) % n == (ce2 * d) % n && ce != ce2 {
        // (ce - ce2) d == 0 (mod n), with both factors reduced and nonzero
        let a = (ce - ce2) % ni;
        let b = d % n;
        lemma_mod_bound(ce - ce2, ni);
        lemma_mod_bound(d as int, ni);
        lemma_sub_cong((ce * d) as int, (ce2 * d) as int, (ce * d) as int, (ce * d) as int, ni);
        assert(ce * d - ce2 * d == (ce - ce2) * d) by (nonlinear_arith);
        lemma_mod_twice(ce - ce2, ni);
        lemma_mod_twice(d as int, ni);
        lemma_mul_cong(a, ce - ce2, b as int, d as int, ni);
        lemma_sub_cong((ce * d) as int, (ce * d) as int, (ce2 * d) as int, (ce * d) as int, ni);
        assert(((ce * d) as int - (ce * d) as int) == 0);
        vstd::arithmetic::div_mod::lemma_small_mod(0, n);
        crate::prime_field::lemma_no_zero_divisors::<C::ScalarField>(a, b as int);
        if a == 0 {
            vstd::arithmetic::div_mod::lemma_fundamental_div_mod(ce - ce2, ni);
            assert(false) by (nonlinear_arith)
                requires
                    ce - ce2 == ni * ((ce - ce2) / ni),
                    ce != ce2,
                    0 <= ce < ni,
                    0 <= ce2 < ni,
            ;
        }
    }
}

/// A Schnorr response outside `[0, n - 1]` is refused, whatever the
/// commitment, key and challenge.
pub proof fn lemma_schnorr_verify_range<C: SWCurveConfig>(rp: PointView, s: nat, q: PointView, e: nat)
    requires
        s >= order_of::<C>(),
    ensures
        !schnorr_verify_spec::<C>(rp, s, q, e),
{
}

} // verus!
