//! The ledger's state-transition rules applied to one block.

use kovanica::keys::KeyPair;
use kovanica::ledger::{apply_block, BlockSummary, LedgerError};
use kovanica::tx::{OutPoint, Transaction, TxId, TxOutput};
use kovanica::utxo::UtxoSet;

// A funded outpoint owned by `kp`, seeded directly into a UTXO set so unit
// tests need no coinbase plumbing.
fn funded(set: &mut UtxoSet, kp: &KeyPair, value: u64, seed: u8) -> OutPoint {
    let op = OutPoint::new(TxId::from_bytes([seed; 32]), 0);
    set.insert(op, TxOutput::new(value, kp.address()));
    op
}

#[test]
fn transfer_conserves_value_and_pays_fee() {
    let alice = KeyPair::from_u64(1);
    let bob = KeyPair::from_u64(2);
    let mut utxo = UtxoSet::new();
    let op = funded(&mut utxo, &alice, 100, 1);

    let tx = Transaction::signed(
        &[(op, &alice)],
        vec![TxOutput::new(90, bob.address())],
        vec![],
    );
    let summary = apply_block(&mut utxo, &[tx], 0).unwrap();

    assert_eq!(summary.fees, 10); // 100 in - 90 out
    assert_eq!(utxo.balance(&bob.address()), 90);
    assert_eq!(utxo.balance(&alice.address()), 0);
    assert!(!utxo.contains(&op), "spent input is gone");
}

#[test]
fn bad_signature_is_rejected_and_atomic() {
    let alice = KeyPair::from_u64(1);
    let mallory = KeyPair::from_u64(9);
    let bob = KeyPair::from_u64(2);
    let mut utxo = UtxoSet::new();
    let op = funded(&mut utxo, &alice, 100, 1);
    let before = utxo.total_value();

    // Mallory signs a spend of Alice's output.
    let tx = Transaction::signed(
        &[(op, &mallory)],
        vec![TxOutput::new(50, bob.address())],
        vec![],
    );
    let err = apply_block(&mut utxo, &[tx], 0).unwrap_err();

    assert!(matches!(err, LedgerError::BadSignature { input: 0, .. }));
    assert_eq!(
        utxo.total_value(),
        before,
        "rejected block left state untouched"
    );
    assert!(utxo.contains(&op));
}

#[test]
fn overspend_is_rejected() {
    let alice = KeyPair::from_u64(1);
    let bob = KeyPair::from_u64(2);
    let mut utxo = UtxoSet::new();
    let op = funded(&mut utxo, &alice, 100, 1);

    let tx = Transaction::signed(
        &[(op, &alice)],
        vec![TxOutput::new(101, bob.address())],
        vec![],
    );
    let err = apply_block(&mut utxo, &[tx], 0).unwrap_err();
    assert!(matches!(
        err,
        LedgerError::ValueNotConserved {
            inputs: 100,
            outputs: 101,
            ..
        }
    ));
}

#[test]
fn double_spend_within_block_is_rejected() {
    let alice = KeyPair::from_u64(1);
    let bob = KeyPair::from_u64(2);
    let mut utxo = UtxoSet::new();
    let op = funded(&mut utxo, &alice, 100, 1);

    let first = Transaction::signed(
        &[(op, &alice)],
        vec![TxOutput::new(90, bob.address())],
        b"1".to_vec(),
    );
    // Second tx spends the same outpoint; by application time it's gone.
    let second = Transaction::signed(
        &[(op, &alice)],
        vec![TxOutput::new(80, bob.address())],
        b"2".to_vec(),
    );
    let err = apply_block(&mut utxo, &[first, second], 0).unwrap_err();
    assert_eq!(err, LedgerError::MissingInput(op));
    // Atomic: neither spend took effect.
    assert!(utxo.contains(&op));
}

#[test]
fn coinbase_may_claim_subsidy_plus_fees_but_no_more() {
    let alice = KeyPair::from_u64(1);
    let bob = KeyPair::from_u64(2);
    let miner = KeyPair::from_u64(3);
    let mut utxo = UtxoSet::new();
    let op = funded(&mut utxo, &alice, 100, 1);

    // Transfer leaves a fee of 10; subsidy 50 => coinbase may claim 60.
    let transfer = Transaction::signed(
        &[(op, &alice)],
        vec![TxOutput::new(90, bob.address())],
        vec![],
    );
    let good_cb =
        Transaction::coinbase(vec![TxOutput::new(60, miner.address())], b"h1".to_vec());
    let summary = apply_block(&mut utxo, &[good_cb, transfer.clone()], 50).unwrap();
    assert_eq!(
        summary,
        BlockSummary {
            fees: 10,
            minted: 60
        }
    );

    // Claiming 61 overspends.
    let mut utxo2 = UtxoSet::new();
    let op2 = funded(&mut utxo2, &alice, 100, 1);
    let transfer2 = Transaction::signed(
        &[(op2, &alice)],
        vec![TxOutput::new(90, bob.address())],
        vec![],
    );
    let greedy_cb =
        Transaction::coinbase(vec![TxOutput::new(61, miner.address())], b"h1".to_vec());
    let err = apply_block(&mut utxo2, &[greedy_cb, transfer2], 50).unwrap_err();
    assert_eq!(
        err,
        LedgerError::CoinbaseOverspend {
            claimed: 61,
            allowed: 60
        }
    );
}
