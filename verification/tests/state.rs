//! The UTXO set, the whole-DAG run and the ledger's per-block checks.

use kovanica::block::Block;
use kovanica::dag::Dag;
use kovanica::keys::KeyPair;
use kovanica::ledger::{apply_block, apply_dag, Ledger, LedgerError, LedgerInsertError};
use kovanica::tx::{encode_block_payload, OutPoint, Transaction, TxId, TxOutput};
use kovanica::utxo::UtxoSet;

#[test]
fn utxo_set_insert_get_remove() {
    let alice = KeyPair::from_u64(1).address();
    let bob = KeyPair::from_u64(2).address();
    let mut set = UtxoSet::new();
    assert!(set.is_empty());
    let a = OutPoint::new(TxId::from_bytes([1; 32]), 0);
    let b = OutPoint::new(TxId::from_bytes([1; 32]), 1);
    assert_eq!(set.insert(a, TxOutput::new(10, alice)), None);
    assert_eq!(set.insert(b, TxOutput::new(5, bob)), None);
    assert_eq!(set.insert(a, TxOutput::new(12, alice)), Some(TxOutput::new(10, alice)));
    assert_eq!(set.len(), 2);
    assert_eq!(set.total_value(), 17);
    assert_eq!(set.balance(&alice), 12);
    assert_eq!(set.get(&b), Some(&TxOutput::new(5, bob)));
    assert_eq!(set.remove(&b), Some(TxOutput::new(5, bob)));
    assert_eq!(set.remove(&b), None);
    assert!(!set.contains(&b));
    assert_eq!(set.total_value(), 12);
    let copy = set.clone();
    assert_eq!(copy.entries(), set.entries());
}

#[test]
fn regular_transaction_errors() {
    let alice = KeyPair::from_u64(1);
    let bob = KeyPair::from_u64(2);
    let mut utxo = UtxoSet::new();
    let op = OutPoint::new(TxId::from_bytes([3; 32]), 0);
    utxo.insert(op, TxOutput::new(100, alice.address()));

    // No outputs.
    let empty = Transaction::signed(&[(op, &alice)], vec![], vec![]);
    assert_eq!(
        apply_block(&mut utxo, &[empty.clone()], 0),
        Err(LedgerError::EmptyTransaction(empty.id()))
    );
    // The same outpoint twice.
    let twice = Transaction::signed(
        &[(op, &alice), (op, &alice)],
        vec![TxOutput::new(10, bob.address())],
        vec![],
    );
    assert_eq!(apply_block(&mut utxo, &[twice], 0), Err(LedgerError::DuplicateInput(op)));
    // A zero-value output.
    let zero = Transaction::signed(&[(op, &alice)], vec![TxOutput::new(0, bob.address())], vec![]);
    assert_eq!(
        apply_block(&mut utxo, &[zero.clone()], 0),
        Err(LedgerError::ZeroValueOutput(zero.id()))
    );
    // A coinbase that is not first.
    let transfer = Transaction::signed(&[(op, &alice)], vec![TxOutput::new(10, bob.address())], vec![]);
    let cb = Transaction::coinbase(vec![TxOutput::new(1, bob.address())], vec![]);
    assert_eq!(
        apply_block(&mut utxo, &[transfer, cb.clone()], 5),
        Err(LedgerError::MisplacedCoinbase(cb.id()))
    );
    // A coinbase with no outputs.
    let hollow = Transaction::coinbase(vec![], b"x".to_vec());
    assert_eq!(
        apply_block(&mut utxo, &[hollow.clone()], 5),
        Err(LedgerError::EmptyTransaction(hollow.id()))
    );
    // Outputs that overflow u64.
    let huge = Transaction::signed(
        &[(op, &alice)],
        vec![TxOutput::new(u64::MAX, bob.address()), TxOutput::new(1, bob.address())],
        vec![],
    );
    assert_eq!(apply_block(&mut utxo, &[huge], 0), Err(LedgerError::ValueOverflow));
    // Every failure left the set as it was.
    assert_eq!(utxo.total_value(), 100);
    assert!(utxo.contains(&op));
}

#[test]
fn an_output_that_already_exists_is_refused() {
    let miner = KeyPair::from_u64(3).address();
    let mut utxo = UtxoSet::new();
    let cb = Transaction::coinbase(vec![TxOutput::new(5, miner)], b"same".to_vec());
    apply_block(&mut utxo, &[cb.clone()], 5).unwrap();
    let err = apply_block(&mut utxo, &[cb.clone()], 5).unwrap_err();
    assert_eq!(err, LedgerError::OutputAlreadyExists(OutPoint::new(cb.id(), 0)));
    assert_eq!(utxo.total_value(), 5);
}

#[test]
fn conflicting_parallel_spends_resolve_by_linearization() {
    let miner = KeyPair::from_u64(1);
    let alice = KeyPair::from_u64(2);
    let bob = KeyPair::from_u64(3);
    let coinbase = Transaction::coinbase(vec![TxOutput::new(100, miner.address())], b"genesis".to_vec());
    let coin = OutPoint::new(coinbase.id(), 0);
    let genesis = Block::genesis(1, encode_block_payload(&[coinbase]));
    let g = genesis.id();
    let mut dag = Dag::new(3, genesis);

    let to_alice = Transaction::signed(&[(coin, &miner)], vec![TxOutput::new(100, alice.address())], vec![]);
    let to_bob = Transaction::signed(&[(coin, &miner)], vec![TxOutput::new(100, bob.address())], vec![]);
    let a = dag.insert(Block::new(vec![g], 1, encode_block_payload(&[to_alice]))).unwrap();
    let b = dag.insert(Block::new(vec![g], 1, encode_block_payload(&[to_bob]))).unwrap();

    let run = apply_dag(&dag, 100);
    assert_eq!(run.accepted.len(), 2);
    assert_eq!(run.rejected.len(), 1);
    assert_eq!(run.accepted[0], g);
    let (loser, reason) = run.rejected[0].clone();
    assert!(loser == a || loser == b);
    assert_eq!(reason, LedgerError::MissingInput(coin));
    let winner = if loser == a { b } else { a };
    assert_eq!(run.accepted[1], winner);
    let paid = run.utxo.balance(&alice.address()) + run.utxo.balance(&bob.address());
    assert_eq!(paid, 100);
    // The run is a function of the DAG.
    let again = apply_dag(&dag, 100);
    assert_eq!(again.accepted, run.accepted);
    assert_eq!(again.utxo.entries(), run.utxo.entries());
}

#[test]
fn undecodable_payloads_are_rejected_not_fatal() {
    let genesis = Block::genesis(1, b"not a payload".to_vec());
    let g = genesis.id();
    let dag = Dag::new(3, genesis);
    let run = apply_dag(&dag, 10);
    assert!(run.accepted.is_empty());
    assert_eq!(run.rejected, vec![(g, LedgerError::Payload(kovanica::tx::DecodeError::Malformed))]);
}

#[test]
fn ledger_refuses_a_block_invalid_in_its_own_view() {
    let miner = KeyPair::from_u64(1);
    let alice = KeyPair::from_u64(2);
    let coinbase = Transaction::coinbase(vec![TxOutput::new(100, miner.address())], b"genesis".to_vec());
    let coin = OutPoint::new(coinbase.id(), 0);
    let mut ledger = Ledger::new(3, 100, &[coinbase]).unwrap();
    let g = ledger.genesis();
    assert_eq!(ledger.subsidy(), 100);

    let pay = Transaction::signed(&[(coin, &miner)], vec![TxOutput::new(90, alice.address())], vec![]);
    let a = ledger.insert(vec![g], 1, &[pay]).unwrap();
    assert_eq!(ledger.ledger_state().balance(&alice.address()), 90);

    // Spending the same coin again on top of `a` double-spends an ancestor.
    let again = Transaction::signed(&[(coin, &miner)], vec![TxOutput::new(80, alice.address())], b"2".to_vec());
    let err = ledger.insert(vec![a], 1, &[again]).unwrap_err();
    assert_eq!(err, LedgerInsertError::Ledger(LedgerError::MissingInput(coin)));
    assert_eq!(ledger.dag().len(), 2);

    // A block whose coinbase claims no more than the subsidy is fine.
    let cb = Transaction::coinbase(vec![TxOutput::new(50, miner.address())], b"b2".to_vec());
    let c = ledger.insert(vec![a], 1, &[cb]).unwrap();
    assert_eq!(ledger.dag().tips(), vec![c]);
    assert_eq!(ledger.ledger_state().balance(&miner.address()), 50);
    // The view of a block on `g` alone does not include `a`'s spend.
    assert!(ledger.view_state(&[g]).contains(&coin));
    assert!(!ledger.view_state(&[c]).contains(&coin));
}

#[test]
fn ledger_genesis_must_apply() {
    let miner = KeyPair::from_u64(1);
    let cb = Transaction::coinbase(vec![TxOutput::new(100, miner.address())], vec![]);
    assert!(matches!(
        Ledger::new(3, 99, &[cb]),
        Err(LedgerError::CoinbaseOverspend { claimed: 100, allowed: 99 })
    ));
}

#[test]
fn ledger_state_does_not_depend_on_insertion_order() {
    let miner = KeyPair::from_u64(1);
    let alice = KeyPair::from_u64(2);
    let coinbase = Transaction::coinbase(vec![TxOutput::new(100, miner.address())], b"genesis".to_vec());
    let coin = OutPoint::new(coinbase.id(), 0);
    let mut first = Ledger::new(3, 100, &[coinbase.clone()]).unwrap();
    let mut second = Ledger::new(3, 100, &[coinbase]).unwrap();
    let g = first.genesis();
    let pay = Transaction::signed(&[(coin, &miner)], vec![TxOutput::new(90, alice.address())], vec![]);
    let a = first.insert(vec![g], 1, &[pay]).unwrap();
    let cb = Transaction::coinbase(vec![TxOutput::new(60, alice.address())], b"b".to_vec());
    let b = first.insert(vec![g], 1, &[cb]).unwrap();
    let cb2 = Transaction::coinbase(vec![TxOutput::new(100, miner.address())], b"m".to_vec());
    let m = first.insert(vec![a, b], 1, &[cb2]).unwrap();
    // The second ledger receives the same blocks, the two parallel ones swapped.
    for id in [b, a, m] {
        let blk = first.dag().block(&id).unwrap().clone();
        assert_eq!(second.insert_block(blk), Ok(id));
    }
    assert_eq!(first.dag().linearize(), second.dag().linearize());
    let s1 = first.ledger_state();
    let s2 = second.ledger_state();
    assert_eq!(s1.total_value(), s2.total_value());
    assert_eq!(s1.balance(&alice.address()), s2.balance(&alice.address()));
    assert_eq!(s1.balance(&miner.address()), s2.balance(&miner.address()));
    assert_eq!(s1.balance(&alice.address()), 150);
    assert_eq!(s1.balance(&miner.address()), 100);
}
