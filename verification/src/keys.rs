//! Signing keys and signature checks: Ed25519 over a transaction's
//! signature hash.
use vstd::prelude::*;

use crate::bytes::{le_bytes, lemma_le_bytes_value, lemma_le_value_bound, lemma_pow256_values, push_le};
use crate::crypto::{blake3_digest, blake3_hash, ed25519_public, ed25519_public_key, ed25519_sign, ed25519_signature, ed25519_verifies, ed25519_verify};
use crate::tx::{address_bytes, address_of_key, bytes_words, words_bytes, Address};

verus! {

/// An Ed25519 key pair.
pub struct KeyPair {
    secret: [u8; 32],
    public: [u8; 32],
}

/// The secret key derived from a seed: the BLAKE3 digest of its eight
/// little-endian bytes.
pub open spec fn seed_secret(seed: u64) -> Seq<u8> {
    blake3_digest(le_bytes(seed as nat, 8))
}

/// The public key of a 32-byte key, as an address, stands for that key.
pub proof fn lemma_address_of_key(pk: Seq<u8>)
    requires
        pk.len() == 32,
    ensures
        address_bytes(address_of_key(pk)) == pk,
{
    let a = pk.subrange(0, 16);
    let b = pk.subrange(16, 32);
    lemma_le_value_bound(a);
    lemma_le_value_bound(b);
    lemma_pow256_values();
    lemma_le_bytes_value(a);
    lemma_le_bytes_value(b);
    assert(pk =~= a + b);
    assert(bytes_words(pk).0 as nat == crate::bytes::le_value(a));
    assert(bytes_words(pk).1 as nat == crate::bytes::le_value(b));
    assert(address_bytes(address_of_key(pk)) =~= words_bytes(bytes_words(pk).0, bytes_words(pk).1));
}

impl KeyPair {
    #[verifier::type_invariant]
    spec fn well_formed(self) -> bool {
        self.public@ == ed25519_public_key(self.secret@)
    }

    /// The secret key bytes.
    pub closed spec fn secret_view(&self) -> Seq<u8> {
        self.secret@
    }

    /// The address of this key pair: its public key.
    pub open spec fn address_spec(&self) -> Address {
        address_of_key(ed25519_public_key(self.secret_view()))
    }

    /// The key pair with this 32-byte secret key.
    pub fn from_secret(secret: [u8; 32]) -> (k: KeyPair)
        ensures
            k.secret_view() == secret@,
    {
        let public = ed25519_public(&secret);
        KeyPair { secret, public }
    }

    /// A deterministic key pair for a small integer seed (its secret key is
    /// the BLAKE3 digest of the seed's eight little-endian bytes).
    pub fn from_u64(seed: u64) -> (k: KeyPair)
        ensures
            k.secret_view() == seed_secret(seed),
    {
        let mut enc: Vec<u8> = Vec::new();
        push_le(&mut enc, seed as u128, 8);
        let secret = blake3_hash(enc.as_slice());
        Self::from_secret(secret)
    }

    /// The address this key pair spends for.
    pub fn address(&self) -> (a: Address)
        ensures
            a == self.address_spec(),
            address_bytes(a) == ed25519_public_key(self.secret_view()),
    {
        proof {
            use_type_invariant(self);
            lemma_address_of_key(self.public@);
        }
        let s = self.public.as_slice();
        let x = crate::bytes::read_le(s, 0, 16);
        let y = crate::bytes::read_le(s, 16, 16);
        Address(x, y)
    }

    /// Sign `msg`. The signature verifies for this key pair's address.
    pub fn sign(&self, msg: &[u8]) -> (sig: Vec<u8>)
        ensures
            sig@ == ed25519_signature(self.secret_view(), msg@),
            sig@.len() == 64,
            ed25519_verifies(address_bytes(self.address_spec()), msg@, sig@),
    {
        proof {
            use_type_invariant(self);
            lemma_address_of_key(self.public@);
        }
        let raw = ed25519_sign(&self.secret, msg);
        let mut sig: Vec<u8> = Vec::new();
        let mut i: usize = 0;
        while i < 64
            invariant
                i <= 64,
                raw@.len() == 64,
                sig@ == raw@.subrange(0, i as int),
            decreases 64 - i,
        {
            sig.push(raw[i]);
            proof {
                assert(sig@ =~= raw@.subrange(0, i + 1));
            }
            i = i + 1;
        }
        proof {
            assert(sig@ =~= raw@);
        }
        sig
    }
}

/// Whether `sig` is a valid signature of `msg` by the key `owner` stands for.
pub fn verify(owner: &Address, msg: &[u8], sig: &[u8]) -> (r: bool)
    ensures
        r == (sig@.len() == 64 && ed25519_verifies(address_bytes(*owner), msg@, sig@)),
{
    if sig.len() != 64 {
        return false;
    }
    let pk = owner.to_bytes();
    ed25519_verify(pk.as_slice(), msg, sig)
}

} // verus!
