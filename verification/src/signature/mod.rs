//! Message hashing shared by the signature schemes.
pub mod ecdsa;
pub mod schnorr;

use sha2::{Digest, Sha256};
use vstd::prelude::*;

use crate::u1024::{be_val, lemma_be_val_bound, r_mod, U1024};
use vstd::arithmetic::power2::lemma_pow2_strictly_increases;

verus! {

/// The SHA-256 digest of a byte string, as `sha2` computes it.
pub uninterp spec fn sha256(data: Seq<u8>) -> Seq<u8>;

/// `sha2::Sha256::digest`: the 32-byte SHA-256 digest of `data`, named [`sha256`].
#[verifier::external_body]
fn sha256_digest(data: &[u8]) -> (r: [u8; 32])
    ensures
        r@ == sha256(data@),
{
    Sha256::digest(data).into()
}

/// The 128 bytes that [`hash_message`] reads as an integer: the digests of
/// the message prefixed by the bytes 0, 1, 2 and 3, one after the other.
pub open spec fn hash_blocks(message: Seq<u8>) -> Seq<u8> {
    digest_block(0, message) + digest_block(1, message) + digest_block(2, message)
        + digest_block(3, message)
}

/// The digest of `i || message`, its 32 bytes.
pub open spec fn digest_block(i: u8, message: Seq<u8>) -> Seq<u8> {
    Seq::new(32, |j: int| sha256(seq![i] + message)[j])
}

/// The hash of a message is a 1024-bit integer.
pub proof fn lemma_hash_message_bound(message: Seq<u8>)
    ensures
        hash_message_spec(message) < r_mod(),
{
    let b = hash_blocks(message);
    lemma_be_val_bound(b);
    assert(b.len() <= 128);
    if b.len() < 128 {
        lemma_pow2_strictly_increases(8 * b.len(), 1024);
    }
}

/// The integer that [`hash_message`] gives.
pub open spec fn hash_message_spec(message: Seq<u8>) -> nat {
    be_val(hash_blocks(message))
}

/// The digest of `i || message`: the message with one prefix byte in front.
pub fn prefixed_digest(i: u8, message: &[u8]) -> (r: [u8; 32])
    ensures
        r@ == sha256(seq![i] + message@),
{
    let mut data: Vec<u8> = Vec::new();
    data.push(i);
    let mut j: usize = 0;
    while j < message.len()
        invariant
            j <= message.len(),
            data@ == seq![i] + message@.take(j as int),
        decreases message.len() - j,
    {
        data.push(message[j]);
        j += 1;
        proof {
            assert(data@ =~= seq![i] + message@.take(j as int));
        }
    }
    proof {
        assert(message@.take(message.len() as int) =~= message@);
        assert(data@ =~= seq![i] + message@);
    }
    sha256_digest(data.as_slice())
}

/// The 1024-bit integer whose 128 big-endian bytes are the four digests
/// `d0`, `d1`, `d2`, `d3`, one after the other.
pub fn hash_from_digests(d0: &[u8; 32], d1: &[u8; 32], d2: &[u8; 32], d3: &[u8; 32]) -> (r:
    U1024)
    ensures
        r.val() == be_val(d0@ + d1@ + d2@ + d3@),
{
    let mut buf = [0u8; 128];
    let mut t: usize = 0;
    while t < 32
        invariant
            t <= 32,
            forall|k: int| 0 <= k < t ==> buf[k] == d0[k],
            forall|k: int| 0 <= k < t ==> buf[32 + k] == d1[k],
            forall|k: int| 0 <= k < t ==> buf[64 + k] == d2[k],
            forall|k: int| 0 <= k < t ==> buf[96 + k] == d3[k],
        decreases 32 - t,
    {
        buf[t] = d0[t];
        buf[32 + t] = d1[t];
        buf[64 + t] = d2[t];
        buf[96 + t] = d3[t];
        t += 1;
    }
    proof {
        let all = d0@ + d1@ + d2@ + d3@;
        assert forall|k: int| 0 <= k < 128 implies buf@[k] == all[k] by {
            if k < 32 {
            } else if k < 64 {
                assert(buf[32 + (k - 32)] == d1[k - 32]);
            } else if k < 96 {
                assert(buf[64 + (k - 64)] == d2[k - 64]);
            } else {
                assert(buf[96 + (k - 96)] == d3[k - 96]);
            }
        }
        assert(buf@.take(128) =~= all);
    }
    U1024::from_be_bytes(&buf)
}

/// A 1024-bit hash of `message`: the big-endian integer of the four SHA-256
/// digests of `i || message` for `i` in 0..4.
pub fn hash_message(message: &[u8]) -> (r: U1024)
    ensures
        r.val() == hash_message_spec(message@),
{
    let d0 = prefixed_digest(0, message);
    let d1 = prefixed_digest(1, message);
    let d2 = prefixed_digest(2, message);
    let d3 = prefixed_digest(3, message);
    proof {
        assert(digest_block(0, message@) =~= d0@);
        assert(digest_block(1, message@) =~= d1@);
        assert(digest_block(2, message@) =~= d2@);
        assert(digest_block(3, message@) =~= d3@);
    }
    hash_from_digests(&d0, &d1, &d2, &d3)
}

} // verus!
