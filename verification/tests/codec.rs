//! The canonical transaction encoding and the payload decoder.

use kovanica::block::Block;
use kovanica::keys::KeyPair;
use kovanica::payload::decode_block_payload;
use kovanica::tx::{encode_block_payload, DecodeError, OutPoint, Transaction, TxId, TxOutput};

fn sample_txs() -> Vec<Transaction> {
    let alice = KeyPair::from_u64(1);
    let bob = KeyPair::from_u64(2);
    let cb = Transaction::coinbase(vec![TxOutput::new(60, alice.address())], b"h1".to_vec());
    let op = OutPoint::new(TxId::from_bytes([7; 32]), 3);
    let spend = Transaction::signed(
        &[(op, &alice)],
        vec![TxOutput::new(40, bob.address()), TxOutput::new(15, alice.address())],
        b"memo".to_vec(),
    );
    vec![cb, spend]
}

#[test]
fn payload_round_trips() {
    let txs = sample_txs();
    let bytes = encode_block_payload(&txs);
    let back = decode_block_payload(&bytes).unwrap();
    assert_eq!(back, txs);
    // The empty payload is a count of zero.
    let empty = encode_block_payload(&[]);
    assert_eq!(empty, vec![0, 0, 0, 0]);
    assert_eq!(decode_block_payload(&empty).unwrap(), vec![]);
}

#[test]
fn payload_layout_is_little_endian_and_fixed_width() {
    let txs = sample_txs();
    let bytes = encode_block_payload(&txs);
    // count, then the coinbase: 0 inputs, 1 output (8 + 32), extra of 2.
    assert_eq!(&bytes[0..4], &[2, 0, 0, 0]);
    assert_eq!(&bytes[4..8], &[0, 0, 0, 0]);
    assert_eq!(&bytes[8..12], &[1, 0, 0, 0]);
    assert_eq!(&bytes[12..20], &[60, 0, 0, 0, 0, 0, 0, 0]);
    assert_eq!(&bytes[52..56], &[2, 0, 0, 0]);
    assert_eq!(&bytes[56..58], b"h1");
    // The spend: one input of 100 bytes, two outputs of 40, extra of 4.
    let tx_len = 4 + 100 + 4 + 80 + 4 + 4;
    assert_eq!(bytes.len(), 58 + tx_len);
}

#[test]
fn malformed_payloads_are_refused() {
    let txs = sample_txs();
    let bytes = encode_block_payload(&txs);
    assert_eq!(decode_block_payload(&[]), Err(DecodeError::Malformed));
    assert_eq!(decode_block_payload(&[1, 0, 0]), Err(DecodeError::Malformed));
    for cut in [4, 10, 57, bytes.len() - 1] {
        assert_eq!(decode_block_payload(&bytes[..cut]), Err(DecodeError::Malformed));
    }
    let mut longer = bytes.clone();
    longer.push(0);
    assert_eq!(decode_block_payload(&longer), Err(DecodeError::Malformed));
    // A count that promises more transactions than the bytes hold.
    let mut lying = bytes.clone();
    lying[0] = 3;
    assert_eq!(decode_block_payload(&lying), Err(DecodeError::Malformed));
}

#[test]
fn ids_are_blake3_digests_of_the_encoding() {
    let txs = sample_txs();
    for tx in &txs {
        let digest = blake3::hash(&tx.encode());
        assert_eq!(tx.id(), TxId::from_bytes(*digest.as_bytes()));
        assert_eq!(tx.id().to_bytes(), digest.as_bytes().to_vec());
    }
    assert_ne!(txs[0].id(), txs[1].id());
    // The signature hash leaves the signatures out.
    let spend = &txs[1];
    let mut unsigned = Vec::new();
    unsigned.extend_from_slice(&1u32.to_le_bytes());
    unsigned.extend_from_slice(&[7; 32]);
    unsigned.extend_from_slice(&3u32.to_le_bytes());
    let enc = spend.encode();
    // outputs and extra follow the single 100-byte input
    unsigned.extend_from_slice(&enc[104..]);
    assert_eq!(spend.sighash(), *blake3::hash(&unsigned).as_bytes());
}

#[test]
fn block_ids_are_blake3_digest_prefixes() {
    let g = Block::genesis(1, b"kovanica-genesis".to_vec());
    let b = Block::new(vec![g.id()], 5, b"payload".to_vec());
    let enc = b.encode();
    let mut expected = Vec::new();
    expected.extend_from_slice(&1u64.to_le_bytes());
    expected.extend_from_slice(&g.id().0.to_le_bytes());
    expected.extend_from_slice(&5u128.to_le_bytes());
    expected.extend_from_slice(b"payload");
    assert_eq!(enc, expected);
    let digest = blake3::hash(&enc);
    let mut first = [0u8; 8];
    first.copy_from_slice(&digest.as_bytes()[..8]);
    assert_eq!(b.id().0, u64::from_le_bytes(first));
}
