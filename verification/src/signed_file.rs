//! The signed-file format: `[message] [signature] [scheme tag: 1 byte] [magic "C1K\n"]`,
//! and the byte layouts of signatures and public keys.
use vstd::prelude::*;

use crate::affine::{curve_point, on_curve, AffinePoint, PointView, SWCurveConfig};
use crate::prime_field::{
    fe_canonical, fe_from_int, field_ok, lemma_canonical, lemma_from_canonical, PrimeFieldConfig,
    PrimeFieldElement,
};
use crate::signature::ecdsa::EcdsaSignature;
use crate::signature::schnorr::SchnorrSignature;
use crate::u1024::{be_bytes, be_val, lemma_be_bytes_value, lemma_limbs_val_bound, r_mod, U1024};

verus! {

/// The magic footer `"C1K\n"`.
pub const MAGIC: [u8; 4] = [0x43, 0x31, 0x4b, 0x0a];

/// The signature schemes a signed file can carry.
#[derive(Clone, Copy, Debug, PartialEq, Eq, Structural)]
pub enum Scheme {
    Schnorr,
    Ecdsa,
}

/// The tag byte of a scheme.
pub open spec fn scheme_tag(s: Scheme) -> u8 {
    match s {
        Scheme::Schnorr => 0,
        Scheme::Ecdsa => 1,
    }
}

/// The size in bytes of a scheme's signature: `R.x || R.y || s` for Schnorr,
/// `r || s` for ECDSA, 128 bytes each.
pub open spec fn scheme_sig_size(s: Scheme) -> nat {
    match s {
        Scheme::Schnorr => 384,
        Scheme::Ecdsa => 256,
    }
}

impl Scheme {
    /// The tag byte: 0 for Schnorr, 1 for ECDSA.
    pub fn tag(&self) -> (t: u8)
        ensures
            t == scheme_tag(*self),
    {
        match self {
            Scheme::Schnorr => 0x00,
            Scheme::Ecdsa => 0x01,
        }
    }

    /// The scheme of a tag byte 0 or 1; any other byte is refused.
    pub fn from_tag(tag: u8) -> (s: Self)
        requires
            tag <= 1,
        ensures
            scheme_tag(s) == tag,
    {
        if tag == 0x00 {
            Scheme::Schnorr
        } else {
            Scheme::Ecdsa
        }
    }

    /// The size of the scheme's signature in bytes.
    pub fn sig_size(&self) -> (n: usize)
        ensures
            n == scheme_sig_size(*self),
    {
        match self {
            Scheme::Schnorr => 384,
            Scheme::Ecdsa => 256,
        }
    }
}

/// Why a file does not hold a signature.
#[derive(Clone, Copy, Debug, PartialEq, Eq, Structural)]
pub enum SignedFileError {
    /// The file does not end with the magic footer.
    NotSigned,
    /// The scheme tag is neither 0 nor 1.
    UnknownScheme(u8),
    /// The file is shorter than the footer and signature of its scheme.
    TooSmall,
}

/// The signed file: the message, then the signature, the scheme tag and the magic.
pub open spec fn signed_file_spec(message: Seq<u8>, sig_bytes: Seq<u8>, scheme: Scheme) -> Seq<u8> {
    message + sig_bytes + seq![scheme_tag(scheme)] + MAGIC@
}

/// Whether the file ends with the magic footer.
pub open spec fn has_magic(data: Seq<u8>) -> bool {
    data.len() >= 5 && data.subrange(data.len() - 4, data.len() as int) == MAGIC@
}

/// Appends the signature, the scheme tag and the magic footer to the message.
pub fn signed_file_contents(message: &[u8], sig_bytes: &[u8], scheme: &Scheme) -> (out: Vec<u8>)
    ensures
        out@ == signed_file_spec(message@, sig_bytes@, *scheme),
{
    let mut out: Vec<u8> = Vec::new();
    let mut i: usize = 0;
    while i < message.len()
        invariant
            i <= message.len(),
            out@ == message@.take(i as int),
        decreases message.len() - i,
    {
        out.push(message[i]);
        i += 1;
        proof {
            assert(out@ =~= message@.take(i as int));
        }
    }
    let mut j: usize = 0;
    while j < sig_bytes.len()
        invariant
            j <= sig_bytes.len(),
            out@ == message@ + sig_bytes@.take(j as int),
        decreases sig_bytes.len() - j,
    {
        out.push(sig_bytes[j]);
        j += 1;
        proof {
            assert(out@ =~= message@ + sig_bytes@.take(j as int));
        }
    }
    proof {
        assert(message@.take(message.len() as int) =~= message@);
        assert(sig_bytes@.take(sig_bytes.len() as int) =~= sig_bytes@);
    }
    out.push(scheme.tag());
    let mut k: usize = 0;
    while k < 4
        invariant
            k <= 4,
            out@ == message@ + sig_bytes@ + seq![scheme_tag(*scheme)] + MAGIC@.take(k as int),
        decreases 4 - k,
    {
        out.push(MAGIC[k]);
        k += 1;
        proof {
            assert(out@ =~= message@ + sig_bytes@ + seq![scheme_tag(*scheme)] + MAGIC@.take(
                k as int,
            ));
        }
    }
    proof {
        assert(MAGIC@.take(4) =~= MAGIC@);
    }
    out
}

/// What [`parse_signed_file`] gives for a file: the length of the message and
/// the scheme, or why the file holds no signature.
pub open spec fn parse_signed_spec(data: Seq<u8>) -> Result<(usize, Scheme), SignedFileError> {
    if !has_magic(data) {
        Err(SignedFileError::NotSigned)
    } else if data[data.len() - 5] > 1 {
        Err(SignedFileError::UnknownScheme(data[data.len() - 5]))
    } else {
        let scheme = Scheme::from_tag_spec(data[data.len() - 5]);
        if data.len() < scheme_sig_size(scheme) + 5 {
            Err(SignedFileError::TooSmall)
        } else {
            Ok(((data.len() - scheme_sig_size(scheme) - 5) as usize, scheme))
        }
    }
}

/// Reads the footer of a signed file: the length of the message and the
/// scheme; the signature lies between the message and the tag.
pub fn parse_signed_file(data: &[u8]) -> (r: Result<(usize, Scheme), SignedFileError>)
    ensures
        r == parse_signed_spec(data@),
{
    let len = data.len();
    if len < 5 {
        return Err(SignedFileError::NotSigned);
    }
    let mut k: usize = 0;
    while k < 4
        invariant
            len == data.len(),
            len >= 5,
            k <= 4,
            forall|j: int| 0 <= j < k ==> data@[len - 4 + j] == MAGIC@[j],
        decreases 4 - k,
    {
        if data[len - 4 + k] != MAGIC[k] {
            proof {
                assert(data@.subrange(len - 4, len as int)[k as int] != MAGIC@[k as int]);
            }
            return Err(SignedFileError::NotSigned);
        }
        k += 1;
    }
    proof {
        assert(data@.subrange(len - 4, len as int) =~= MAGIC@);
    }
    let tag = data[len - 5];
    if tag > 1 {
        return Err(SignedFileError::UnknownScheme(tag));
    }
    let scheme = Scheme::from_tag(tag);
    let sig_size = scheme.sig_size();
    let footer_size = 5 + sig_size;
    if len < footer_size {
        return Err(SignedFileError::TooSmall);
    }
    Ok((len - footer_size, scheme))
}

impl Scheme {
    /// The scheme of a tag byte 0 or 1.
    pub open spec fn from_tag_spec(tag: u8) -> Scheme {
        if tag == 0 {
            Scheme::Schnorr
        } else {
            Scheme::Ecdsa
        }
    }
}

/// 128 bytes of `data` from `start` on.
fn block(data: &[u8], start: usize) -> (b: [u8; 128])
    requires
        start + 128 <= data.len(),
    ensures
        b@ == data@.subrange(start as int, start + 128),
{
    let mut b = [0u8; 128];
    let mut i: usize = 0;
    while i < 128
        invariant
            i <= 128,
            start + 128 <= data.len(),
            forall|j: int| 0 <= j < i ==> b[j] == data@[start + j],
        decreases 128 - i,
    {
        b[i] = data[start + i];
        i += 1;
    }
    proof {
        assert(b@ =~= data@.subrange(start as int, start + 128));
    }
    b
}

/// The bytes of a Schnorr signature: `R.x || R.y || s`, 128 bytes big-endian each.
pub fn schnorr_signature_bytes<C: SWCurveConfig>(sig: &SchnorrSignature<C>) -> (out: Vec<u8>)
    ensures
        out@ == be_bytes(fe_canonical::<C::BaseField>(sig.r_point@.0)) + be_bytes(
            fe_canonical::<C::BaseField>(sig.r_point@.1),
        ) + be_bytes(sig.s.val()),
{
    let x = sig.r_point.x.to_bytes();
    let y = sig.r_point.y.to_bytes();
    let s = sig.s.to_be_bytes();
    let out = concat3(&x, &y, &s);
    proof {
        assert(x@ =~= be_bytes(fe_canonical::<C::BaseField>(sig.r_point@.0)));
        assert(y@ =~= be_bytes(fe_canonical::<C::BaseField>(sig.r_point@.1)));
        assert(s@ =~= be_bytes(sig.s.val()));
    }
    out
}

/// The bytes of an ECDSA signature: `r || s`, 128 bytes big-endian each.
pub fn ecdsa_signature_bytes(sig: &EcdsaSignature) -> (out: Vec<u8>)
    ensures
        out@ == be_bytes(sig.r.val()) + be_bytes(sig.s.val()),
{
    let r = sig.r.to_be_bytes();
    let s = sig.s.to_be_bytes();
    let empty: [u8; 0] = [];
    let out = concat3(&r, &s, &empty);
    proof {
        assert(r@ =~= be_bytes(sig.r.val()));
        assert(s@ =~= be_bytes(sig.s.val()));
        assert(out@ =~= r@ + s@);
    }
    out
}

/// The bytes of a public key: `x || y`, 128 bytes big-endian each.
pub fn public_key_bytes<C: SWCurveConfig>(key: &AffinePoint<C>) -> (out: Vec<u8>)
    ensures
        out@ == be_bytes(fe_canonical::<C::BaseField>(key@.0)) + be_bytes(
            fe_canonical::<C::BaseField>(key@.1),
        ),
{
    let x = key.x.to_bytes();
    let y = key.y.to_bytes();
    let empty: [u8; 0] = [];
    let out = concat3(&x, &y, &empty);
    proof {
        assert(x@ =~= be_bytes(fe_canonical::<C::BaseField>(key@.0)));
        assert(y@ =~= be_bytes(fe_canonical::<C::BaseField>(key@.1)));
        assert(out@ =~= x@ + y@);
    }
    out
}

/// `a || b || c`.
fn concat3(a: &[u8], b: &[u8], c: &[u8]) -> (out: Vec<u8>)
    ensures
        out@ == a@ + b@ + c@,
{
    let mut out: Vec<u8> = Vec::new();
    let mut i: usize = 0;
    while i < a.len()
        invariant
            i <= a.len(),
            out@ == a@.take(i as int),
        decreases a.len() - i,
    {
        out.push(a[i]);
        i += 1;
        proof {
            assert(out@ =~= a@.take(i as int));
        }
    }
    let mut i: usize = 0;
    while i < b.len()
        invariant
            i <= b.len(),
            out@ == a@ + b@.take(i as int),
        decreases b.len() - i,
    {
        out.push(b[i]);
        i += 1;
        proof {
            assert(out@ =~= a@ + b@.take(i as int));
        }
    }
    let mut i: usize = 0;
    while i < c.len()
        invariant
            i <= c.len(),
            out@ == a@ + b@ + c@.take(i as int),
        decreases c.len() - i,
    {
        out.push(c[i]);
        i += 1;
        proof {
            assert(out@ =~= a@ + b@ + c@.take(i as int));
        }
    }
    proof {
        assert(a@.take(a.len() as int) =~= a@);
        assert(b@.take(b.len() as int) =~= b@);
        assert(c@.take(c.len() as int) =~= c@);
    }
    out
}

/// The point `(x, y)` read from 256 bytes `x || y` (each reduced into the base
/// field), or `None` when it is not on the curve.
pub fn point_from_bytes<C: SWCurveConfig>(data: &[u8], start: usize) -> (p: Option<AffinePoint<C>>)
    requires
        start + 256 <= data.len(),
    ensures
        ({
            let x = fe_from_int::<C::BaseField>(be_val(data@.subrange(start as int, start + 128)));
            let y = fe_from_int::<C::BaseField>(
                be_val(data@.subrange(start + 128, start + 256)),
            );
            match p {
                Some(pt) => on_curve::<C>((x, y, false)) && pt@ == (x, y, false),
                None => !on_curve::<C>((x, y, false)),
            }
        }),
{
    let xb = block(data, start);
    let yb = block(data, start + 128);
    let x = PrimeFieldElement::<C::BaseField>::from_bytes(&xb);
    let y = PrimeFieldElement::<C::BaseField>::from_bytes(&yb);
    let candidate = AffinePoint::<C> {
        x,
        y,
        is_infinite: false,
        _config: std::marker::PhantomData,
    };
    if candidate.is_on_curve() {
        Some(AffinePoint::new(x, y))
    } else {
        None
    }
}

/// The ECDSA signature read from 256 bytes `r || s` at `start`.
pub fn ecdsa_signature_from_bytes(data: &[u8], start: usize) -> (sig: EcdsaSignature)
    requires
        start + 256 <= data.len(),
    ensures
        sig.r.val() == be_val(data@.subrange(start as int, start + 128)),
        sig.s.val() == be_val(data@.subrange(start + 128, start + 256)),
{
    let rb = block(data, start);
    let sb = block(data, start + 128);
    let r = U1024::from_be_bytes(&rb);
    let s = U1024::from_be_bytes(&sb);
    proof {
        assert(rb@.take(128) =~= rb@);
        assert(sb@.take(128) =~= sb@);
    }
    EcdsaSignature { r, s }
}

/// The Schnorr signature read from 384 bytes `R.x || R.y || s` at `start`, or
/// `None` when `R` is not on the curve.
pub fn schnorr_signature_from_bytes<C: SWCurveConfig>(data: &[u8], start: usize) -> (sig: Option<SchnorrSignature<C>>)
    requires
        start + 384 <= data.len(),
    ensures
        ({
            let x = fe_from_int::<C::BaseField>(be_val(data@.subrange(start as int, start + 128)));
            let y = fe_from_int::<C::BaseField>(
                be_val(data@.subrange(start + 128, start + 256)),
            );
            match sig {
                Some(sg) => on_curve::<C>((x, y, false)) && sg.r_point@ == (x, y, false)
                    && sg.s.val() == be_val(data@.subrange(start + 256, start + 384)),
                None => !on_curve::<C>((x, y, false)),
            }
        }),
{
    let r_point = point_from_bytes::<C>(data, start);
    let sb = block(data, start + 256);
    let s = U1024::from_be_bytes(&sb);
    proof {
        assert(sb@.take(128) =~= sb@);
    }
    match r_point {
        Some(r_point) => Some(SchnorrSignature { r_point, s }),
        None => None,
    }
}


/// A signed file reads back as its message and scheme when the signature has
/// the scheme's size.
pub proof fn lemma_signed_file_round_trip(message: Seq<u8>, sig_bytes: Seq<u8>, scheme: Scheme)
    requires
        sig_bytes.len() == scheme_sig_size(scheme),
        message.len() + sig_bytes.len() + 5 <= usize::MAX,
    ensures
        parse_signed_spec(signed_file_spec(message, sig_bytes, scheme)) == Ok::<
            (usize, Scheme),
            SignedFileError,
        >((message.len() as usize, scheme)),
{
    let data = signed_file_spec(message, sig_bytes, scheme);
    let n = data.len();
    assert(data.subrange(n - 4, n as int) =~= MAGIC@);
    assert(data[n - 5] == scheme_tag(scheme));
}

/// The bytes of an ECDSA signature read back as the signature.
pub proof fn lemma_ecdsa_bytes_round_trip(r: nat, s: nat)
    requires
        r < r_mod(),
        s < r_mod(),
    ensures
        be_val((be_bytes(r) + be_bytes(s)).subrange(0, 128)) == r,
        be_val((be_bytes(r) + be_bytes(s)).subrange(128, 256)) == s,
{
    assert((be_bytes(r) + be_bytes(s)).subrange(0, 128) =~= be_bytes(r));
    assert((be_bytes(r) + be_bytes(s)).subrange(128, 256) =~= be_bytes(s));
    lemma_be_bytes_value(r);
    lemma_be_bytes_value(s);
}

/// The bytes of a reduced public key read back as the key.
pub proof fn lemma_public_key_bytes_round_trip<C: SWCurveConfig>(p: PointView)
    requires
        field_ok::<C::BaseField>(),
        curve_point::<C>(p),
        !p.2,
    ensures
        ({
            let bytes = be_bytes(fe_canonical::<C::BaseField>(p.0)) + be_bytes(
                fe_canonical::<C::BaseField>(p.1),
            );
            &&& fe_from_int::<C::BaseField>(be_val(bytes.subrange(0, 128))) == p.0
            &&& fe_from_int::<C::BaseField>(be_val(bytes.subrange(128, 256))) == p.1
        }),
{
    let x = fe_canonical::<C::BaseField>(p.0);
    let y = fe_canonical::<C::BaseField>(p.1);
    lemma_limbs_val_bound(<C::BaseField as PrimeFieldConfig>::MODULUS@);
    lemma_canonical::<C::BaseField>(p.0);
    lemma_canonical::<C::BaseField>(p.1);
    lemma_ecdsa_bytes_round_trip(x, y);
    lemma_from_canonical::<C::BaseField>(p.0);
    lemma_from_canonical::<C::BaseField>(p.1);
}

} // verus!
