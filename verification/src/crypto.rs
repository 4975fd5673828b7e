//! The hash and signature primitives the ledger relies on: BLAKE3 (block and
//! transaction ids, signature digests) and Ed25519 (spend authorisation).
use ed25519_dalek::Signer;
use ed25519_dalek::Verifier;
use vstd::prelude::*;

verus! {

/// The BLAKE3 digest of a byte string.
pub uninterp spec fn blake3_digest(data: Seq<u8>) -> Seq<u8>;

/// The Ed25519 public key of a 32-byte secret key.
pub uninterp spec fn ed25519_public_key(secret: Seq<u8>) -> Seq<u8>;

/// The Ed25519 signature of `msg` under a 32-byte secret key.
pub uninterp spec fn ed25519_signature(secret: Seq<u8>, msg: Seq<u8>) -> Seq<u8>;

/// Whether `sig` is a valid Ed25519 signature of `msg` under public key `public`.
pub uninterp spec fn ed25519_verifies(public: Seq<u8>, msg: Seq<u8>, sig: Seq<u8>) -> bool;

/// Calls `blake3::hash`. Trusted: the 32 bytes returned are
/// `blake3_digest(data)`, a function of `data` alone; nothing more is stated
/// of the digest.
#[verifier::external_body]
pub(crate) fn blake3_hash(data: &[u8]) -> (r: [u8; 32])
    ensures
        r@ == blake3_digest(data@),
{
    *blake3::hash(data).as_bytes()
}

/// Calls `ed25519_dalek::SigningKey::from_bytes(secret).verifying_key()`.
/// Trusted: the result is `ed25519_public_key(secret)`, a function of the
/// secret alone.
#[verifier::external_body]
pub(crate) fn ed25519_public(secret: &[u8; 32]) -> (r: [u8; 32])
    ensures
        r@ == ed25519_public_key(secret@),
{
    ed25519_dalek::SigningKey::from_bytes(secret).verifying_key().to_bytes()
}

/// Calls `ed25519_dalek::SigningKey::sign` (Ed25519 signing is
/// deterministic). Trusted: the result is `ed25519_signature(secret, msg)`,
/// and it verifies under the secret's public key (Ed25519 correctness).
#[verifier::external_body]
pub(crate) fn ed25519_sign(secret: &[u8; 32], msg: &[u8]) -> (r: [u8; 64])
    ensures
        r@ == ed25519_signature(secret@, msg@),
        ed25519_verifies(ed25519_public_key(secret@), msg@, r@),
{
    ed25519_dalek::SigningKey::from_bytes(secret).sign(msg).to_bytes()
}

/// Calls `ed25519_dalek::VerifyingKey::try_from` on the 32 key bytes,
/// `ed25519_dalek::Signature::from_slice` on the 64 signature bytes, and then
/// `verify`; a key that does not decode is reported as a failed
/// verification. Trusted: the result is `ed25519_verifies(public, msg, sig)`.
#[verifier::external_body]
pub(crate) fn ed25519_verify(public: &[u8], msg: &[u8], sig: &[u8]) -> (r: bool)
    requires
        public@.len() == 32,
        sig@.len() == 64,
    ensures
        r == ed25519_verifies(public@, msg@, sig@),
{
    match ed25519_dalek::VerifyingKey::try_from(public) {
        Ok(key) => match ed25519_dalek::Signature::from_slice(sig) {
            Ok(s) => key.verify(msg, &s).is_ok(),
            Err(_) => false,
        },
        Err(_) => false,
    }
}

} // verus!
