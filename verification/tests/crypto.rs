//! Keys and signatures: seeds derive Ed25519 keys through BLAKE3, and only
//! the owner's key authorises a spend.

use ed25519_dalek::Signer;
use kovanica::keys::{verify, KeyPair};
use kovanica::tx::Address;

fn dalek_key(seed: u64) -> ed25519_dalek::SigningKey {
    let secret = blake3::hash(&seed.to_le_bytes());
    ed25519_dalek::SigningKey::from_bytes(digest_array(&secret))
}

fn digest_array(d: &blake3::Hash) -> &[u8; 32] {
    d.as_bytes()
}

#[test]
fn seed_keys_match_ed25519_over_blake3() {
    for seed in [0u64, 1, 2, 9, u64::MAX] {
        let kp = KeyPair::from_u64(seed);
        let expected = dalek_key(seed).verifying_key().to_bytes();
        assert_eq!(kp.address().to_bytes(), expected.to_vec());
    }
    assert_ne!(KeyPair::from_u64(1).address(), KeyPair::from_u64(2).address());
}

#[test]
fn signatures_verify_only_for_their_owner_and_message() {
    let alice = KeyPair::from_u64(1);
    let bob = KeyPair::from_u64(2);
    let msg = b"pay bob 10";
    let sig = alice.sign(msg);
    assert_eq!(sig.len(), 64);
    assert_eq!(sig, dalek_key(1).sign(msg).to_bytes().to_vec());
    assert!(verify(&alice.address(), msg, &sig));
    assert!(!verify(&bob.address(), msg, &sig));
    assert!(!verify(&alice.address(), b"pay bob 11", &sig));
    assert!(!verify(&alice.address(), msg, &sig[..63]));
    let mut bent = sig.clone();
    bent[5] ^= 1;
    assert!(!verify(&alice.address(), msg, &bent));
    // An address that is not a valid curve point verifies nothing.
    assert!(!verify(&Address(u128::MAX, u128::MAX), msg, &sig));
}
