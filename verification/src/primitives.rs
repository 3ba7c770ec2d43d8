//! The two primitive operations a run needs, and the bindings that supply
//! them from `tiny-keccak`, `sha3` and `k256`.

use vstd::prelude::*;
use crate::types::{Byte32, SchnorrSig};

verus! {

/// The pair of pure functions a run is parameterised over.
///
/// Each executable method computes the spec function beside it, so that what
/// a run returns is a function of its input bytes and of the binding alone.
pub trait Primitives {
    /// The pairwise compression hash, as a function of its two operands.
    spec fn compress_spec(&self, a: Seq<u8>, b: Seq<u8>) -> Seq<u8>;

    /// The signature predicate, as a function of message, key and signature.
    spec fn verify_spec(&self, msg: Seq<u8>, ax: Seq<u8>, ay: Seq<u8>, sig: SchnorrSig) -> bool;

    /// Compresses two 32-byte values into one.
    fn compress(&self, a: &Byte32, b: &Byte32) -> (out: Byte32)
        ensures
            out@ == self.compress_spec(a@, b@),
    ;

    /// Whether `sig` is a valid signature of `msg` under the key `(ax, ay)`.
    /// A malformed key or signature is not an error: the answer is `false`.
    fn verify(&self, msg: &Byte32, ax: &Byte32, ay: &Byte32, sig: &SchnorrSig) -> (ok: bool)
        ensures
            ok == self.verify_spec(msg@, ax@, ay@, *sig),
    ;
}

/// The digest that `tiny-keccak`'s Keccak-256 hasher yields for `data`.
pub uninterp spec fn tiny_keccak_v256(data: Seq<u8>) -> Seq<u8>;

/// The digest that `sha3`'s `Keccak256` yields for `data`.
pub uninterp spec fn sha3_keccak256(data: Seq<u8>) -> Seq<u8>;

/// Whether `k256` parses `ax` as an x-only verifying key, parses `sig` as a
/// 64-byte Taproot Schnorr signature, and accepts it for `msg`.
pub uninterp spec fn k256_schnorr_accepts(msg: Seq<u8>, ax: Seq<u8>, sig: Seq<u8>) -> bool;

/// Runs `tiny_keccak::Keccak::v256()` over `data`: one `update`, then
/// `finalize` into 32 bytes. The hasher is a deterministic function of the
/// bytes it absorbed; the contract only gives that digest a name.
#[verifier::external_body]
pub(crate) fn tiny_keccak_digest(data: &[u8]) -> (out: Byte32)
    ensures
        out@ == tiny_keccak_v256(data@),
{
    let mut hasher = tiny_keccak::Keccak::v256();
    let mut out = [0u8; 32];
    tiny_keccak::Hasher::update(&mut hasher, data);
    tiny_keccak::Hasher::finalize(hasher, &mut out);
    out
}

/// Runs `sha3::Keccak256` over `data` through `Digest::digest`, whose output
/// for this hasher is 32 bytes. The contract only gives that digest a name.
#[verifier::external_body]
pub(crate) fn sha3_digest(data: &[u8]) -> (out: Byte32)
    ensures
        out@ == sha3_keccak256(data@),
{
    <sha3::Keccak256 as sha3::Digest>::digest(data).into()
}

/// Checks a signature with `k256::schnorr`: `VerifyingKey::from_bytes` on the
/// 32-byte x-coordinate, `Signature::try_from` on the 64 signature bytes, then
/// `Verifier::verify`. Either parse failing, or the check failing, gives
/// `false`; none of the three panics on inputs of these lengths. The outcome
/// depends on the three byte strings alone, and the contract gives it a name.
#[verifier::external_body]
pub(crate) fn k256_schnorr_check(msg: &[u8], ax: &Byte32, sig: &[u8; 64]) -> (ok: bool)
    ensures
        ok == k256_schnorr_accepts(msg@, ax@, sig@),
{
    let Ok(key) = k256::schnorr::VerifyingKey::from_bytes(ax) else {
        return false;
    };
    let Ok(parsed) = k256::schnorr::Signature::try_from(&sig[..]) else {
        return false;
    };
    k256::schnorr::signature::Verifier::verify(&key, msg, &parsed).is_ok()
}

/// Lays two 32-byte values side by side.
pub fn join(a: &Byte32, b: &Byte32) -> (out: [u8; 64])
    ensures
        out@ == a@ + b@,
{
    let mut out = [0u8; 64];
    let mut i: usize = 0;
    while i < 32
        invariant
            i <= 32,
            forall|j: int| 0 <= j < i ==> out@[j] == a@[j],
            forall|j: int| 0 <= j < i ==> out@[32 + j] == b@[j],
        decreases 32 - i,
    {
        out[i] = a[i];
        out[i + 32] = b[i];
        i += 1;
    }
    assert(out@ =~= a@ + b@);
    out
}

/// Keccak-256 of `a` followed by `b`, computed by `tiny-keccak`.
pub fn keccak2(a: &Byte32, b: &Byte32) -> (out: Byte32)
    ensures
        out@ == tiny_keccak_v256(a@ + b@),
{
    let both = join(a, b);
    tiny_keccak_digest(both.as_slice())
}

/// Keccak-256 of `a` followed by `b`, computed by `sha3`.
pub fn keccak2_sha3(a: &Byte32, b: &Byte32) -> (out: Byte32)
    ensures
        out@ == sha3_keccak256(a@ + b@),
{
    let both = join(a, b);
    sha3_digest(both.as_slice())
}

/// Keccak-256 of an arbitrary byte string, computed by `tiny-keccak`.
pub fn keccak256_bytes(data: &[u8]) -> (out: Byte32)
    ensures
        out@ == tiny_keccak_v256(data@),
{
    tiny_keccak_digest(data)
}

/// Verifies a Taproot Schnorr signature under the x-only key `ax`. The
/// y-coordinate plays no part: the scheme fixes it to the even one.
pub fn schnorr_k256(msg: &Byte32, ax: &Byte32, _ay: &Byte32, sig: &SchnorrSig) -> (ok: bool)
    ensures
        ok == k256_schnorr_accepts(msg@, ax@, sig.rx@ + sig.s@),
{
    let sig64 = join(&sig.rx, &sig.s);
    k256_schnorr_check(msg.as_slice(), ax, &sig64)
}

/// The binding of four of the sandboxes: `tiny-keccak` and `k256`.
#[derive(Clone, Copy, Debug)]
pub struct TinyKeccakK256;

impl Primitives for TinyKeccakK256 {
    open spec fn compress_spec(&self, a: Seq<u8>, b: Seq<u8>) -> Seq<u8> {
        tiny_keccak_v256(a + b)
    }

    open spec fn verify_spec(&self, msg: Seq<u8>, ax: Seq<u8>, ay: Seq<u8>, sig: SchnorrSig) -> bool {
        k256_schnorr_accepts(msg, ax, sig.rx@ + sig.s@)
    }

    fn compress(&self, a: &Byte32, b: &Byte32) -> (out: Byte32) {
        keccak2(a, b)
    }

    fn verify(&self, msg: &Byte32, ax: &Byte32, ay: &Byte32, sig: &SchnorrSig) -> (ok: bool) {
        schnorr_k256(msg, ax, ay, sig)
    }
}

/// The binding of the fifth sandbox: `sha3` and `k256`.
#[derive(Clone, Copy, Debug)]
pub struct Sha3K256;

impl Primitives for Sha3K256 {
    open spec fn compress_spec(&self, a: Seq<u8>, b: Seq<u8>) -> Seq<u8> {
        sha3_keccak256(a + b)
    }

    open spec fn verify_spec(&self, msg: Seq<u8>, ax: Seq<u8>, ay: Seq<u8>, sig: SchnorrSig) -> bool {
        k256_schnorr_accepts(msg, ax, sig.rx@ + sig.s@)
    }

    fn compress(&self, a: &Byte32, b: &Byte32) -> (out: Byte32) {
        keccak2_sha3(a, b)
    }

    fn verify(&self, msg: &Byte32, ax: &Byte32, ay: &Byte32, sig: &SchnorrSig) -> (ok: bool) {
        schnorr_k256(msg, ax, ay, sig)
    }
}

} // verus!
