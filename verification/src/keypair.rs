//! Key pairs: a private scalar and its public point.
use vstd::prelude::*;

use crate::affine::{curve_ok, generator_point, lemma_mul_closed, mul_spec, order_of, AffinePoint, SWCurveConfig};
use crate::u1024::{be_byte, be_bytes, be_val, lemma_be_bytes_value, r_mod, U1024};

verus! {

/// A private key `d` and the public key `d G`.
pub struct KeyPair<C: SWCurveConfig> {
    pub private_key: U1024,
    pub public_key: AffinePoint<C>,
}

impl<C: SWCurveConfig> KeyPair<C> {
    /// A fresh key pair: a random private key in `[1, n - 1]` and its public key.
    pub fn generate() -> (kp: Self)
        requires
            curve_ok::<C>(),
        ensures
            kp.private_key.val() != 0,
            1 < order_of::<C>() ==> kp.private_key.val() < order_of::<C>(),
            kp.public_key@ == mul_spec::<C>(generator_point::<C>(), kp.private_key.val()),
    {
        let private_key = U1024::random_below(&U1024(C::ORDER));
        Self::from_private_key(private_key)
    }

    /// The key pair of a private key: the public key is `d G`.
    pub fn from_private_key(private_key: U1024) -> (kp: Self)
        requires
            curve_ok::<C>(),
        ensures
            kp.private_key == private_key,
            kp.public_key@ == mul_spec::<C>(generator_point::<C>(), private_key.val()),
    {
        let g = C::generator();
        proof {
            lemma_mul_closed::<C>(g@, private_key.val());
        }
        let public_key = g.mul(&private_key);
        Self { private_key, public_key }
    }

    /// The bytes a key file holds: the private key, 128 bytes big-endian.
    pub fn private_key_bytes(&self) -> (bytes: [u8; 128])
        ensures
            forall|k: int| 0 <= k < 128 ==> bytes[k] as nat == be_byte(self.private_key.val(), k),
    {
        self.private_key.to_be_bytes()
    }

    /// The key pair whose private key is the big-endian integer of (the first
    /// 128 bytes of) a key file's contents.
    pub fn from_key_bytes(bytes: &[u8]) -> (kp: Self)
        requires
            curve_ok::<C>(),
        ensures
            kp.private_key.val() == be_val(
                bytes@.take(if bytes@.len() < 128 { bytes@.len() as int } else { 128 }),
            ),
            kp.public_key@ == mul_spec::<C>(generator_point::<C>(), kp.private_key.val()),
    {
        let private_key = U1024::from_be_bytes(bytes);
        Self::from_private_key(private_key)
    }
}

/// A key file read back gives the key it was written from: the 128 bytes that
/// [`KeyPair::private_key_bytes`] writes for the private key `d` are exactly
/// what [`KeyPair::from_key_bytes`] reads, and they read as `d`.
pub proof fn lemma_key_file_round_trip(d: nat)
    requires
        d < r_mod(),
    ensures
        be_bytes(d).len() == 128,
        be_val(be_bytes(d).take(128)) == d,
{
    assert(be_bytes(d).take(128) =~= be_bytes(d));
    lemma_be_bytes_value(d);
}

} // verus!
