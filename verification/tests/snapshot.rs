//! Ledger snapshots: writing, reading back, and the ways a load fails.

use kovanica::dag::DagError;
use kovanica::keys::KeyPair;
use kovanica::ledger::{Ledger, LedgerError, LedgerInsertError};
use kovanica::node::{Node, NodeError};
use kovanica::snapshot::{parse_snapshot, SnapshotError};
use kovanica::tx::{DecodeError, OutPoint, Transaction, TxOutput};

/// A ledger with a genesis, a spend and a coinbase-only block on top.
fn sample_ledger() -> Ledger {
    let miner = KeyPair::from_u64(1);
    let alice = KeyPair::from_u64(2);
    let coinbase = Transaction::coinbase(vec![TxOutput::new(100, miner.address())], b"genesis".to_vec());
    let coin = OutPoint::new(coinbase.id(), 0);
    let mut ledger = Ledger::new(3, 100, &[coinbase]).unwrap();
    let g = ledger.genesis();
    let pay = Transaction::signed(&[(coin, &miner)], vec![TxOutput::new(90, alice.address())], vec![]);
    let a = ledger.insert(vec![g], 1, &[pay]).unwrap();
    let cb = Transaction::coinbase(vec![TxOutput::new(50, miner.address())], b"b2".to_vec());
    ledger.insert(vec![g], 2, &[cb]).unwrap();
    let cb2 = Transaction::coinbase(vec![TxOutput::new(7, alice.address())], b"b3".to_vec());
    let tips = ledger.dag().tips();
    assert!(tips.contains(&a));
    ledger.insert(tips, 1, &[cb2]).unwrap();
    ledger
}

#[test]
fn snapshot_round_trips() {
    let ledger = sample_ledger();
    let bytes = ledger.write_snapshot();
    let loaded = Ledger::read_snapshot(&bytes).unwrap();
    assert_eq!(loaded.genesis(), ledger.genesis());
    assert_eq!(loaded.subsidy(), 100);
    assert_eq!(loaded.dag().k(), 3);
    assert_eq!(loaded.dag().len(), 4);
    assert_eq!(loaded.dag().tips(), ledger.dag().tips());
    assert_eq!(loaded.dag().linearize(), ledger.dag().linearize());
    assert_eq!(loaded.ledger_state().entries(), ledger.ledger_state().entries());
    // Writing the loaded ledger gives the same bytes.
    assert_eq!(loaded.write_snapshot(), bytes);
}

#[test]
fn snapshot_layout() {
    let miner = KeyPair::from_u64(1);
    let coinbase = Transaction::coinbase(vec![TxOutput::new(5, miner.address())], vec![]);
    let ledger = Ledger::new(2, 9, &[coinbase]).unwrap();
    let bytes = ledger.write_snapshot();
    assert_eq!(&bytes[0..2], &2u16.to_le_bytes());
    assert_eq!(&bytes[2..10], &9u64.to_le_bytes());
    assert_eq!(&bytes[10..18], &1u64.to_le_bytes());
    // genesis: no parents, work 1, then its payload with its length
    assert_eq!(&bytes[18..26], &0u64.to_le_bytes());
    assert_eq!(&bytes[26..42], &1u128.to_le_bytes());
    let genesis = ledger.dag().block(&ledger.genesis()).unwrap();
    let payload = genesis.payload();
    assert_eq!(&bytes[42..50], &(payload.len() as u64).to_le_bytes());
    assert_eq!(&bytes[50..], payload);
    let (k, subsidy, blocks) = parse_snapshot(&bytes).unwrap();
    assert_eq!((k, subsidy, blocks.len()), (2, 9, 1));
    assert_eq!(blocks[0].id(), ledger.genesis());
}

#[test]
fn snapshot_malformed_bytes() {
    let bytes = sample_ledger().write_snapshot();
    assert_eq!(Ledger::read_snapshot(&[]).err(), Some(SnapshotError::Malformed));
    assert_eq!(Ledger::read_snapshot(&bytes[..bytes.len() - 1]).err(), Some(SnapshotError::Malformed));
    let mut longer = bytes.clone();
    longer.push(0);
    assert_eq!(Ledger::read_snapshot(&longer).err(), Some(SnapshotError::Malformed));
    assert!(parse_snapshot(&longer).is_none());
    // A block count larger than what follows.
    let mut more = bytes.clone();
    more[10] = more[10] + 1;
    assert_eq!(Ledger::read_snapshot(&more).err(), Some(SnapshotError::Malformed));
}

#[test]
fn snapshot_without_genesis() {
    let mut bytes = Vec::new();
    bytes.extend_from_slice(&3u16.to_le_bytes());
    bytes.extend_from_slice(&10u64.to_le_bytes());
    bytes.extend_from_slice(&0u64.to_le_bytes());
    assert_eq!(Ledger::read_snapshot(&bytes).err(), Some(SnapshotError::NoGenesis));
    // A first block that names a parent is no genesis either.
    let mut one = Vec::new();
    one.extend_from_slice(&3u16.to_le_bytes());
    one.extend_from_slice(&10u64.to_le_bytes());
    one.extend_from_slice(&1u64.to_le_bytes());
    one.extend_from_slice(&1u64.to_le_bytes());
    one.extend_from_slice(&77u64.to_le_bytes());
    one.extend_from_slice(&1u128.to_le_bytes());
    one.extend_from_slice(&0u64.to_le_bytes());
    assert_eq!(Ledger::read_snapshot(&one).err(), Some(SnapshotError::NoGenesis));
}

#[test]
fn snapshot_genesis_refused() {
    let mut bytes = Vec::new();
    bytes.extend_from_slice(&3u16.to_le_bytes());
    bytes.extend_from_slice(&10u64.to_le_bytes());
    bytes.extend_from_slice(&1u64.to_le_bytes());
    bytes.extend_from_slice(&0u64.to_le_bytes());
    bytes.extend_from_slice(&1u128.to_le_bytes());
    bytes.extend_from_slice(&1u64.to_le_bytes());
    bytes.push(0xff);
    assert_eq!(
        Ledger::read_snapshot(&bytes).err(),
        Some(SnapshotError::Genesis(LedgerError::Payload(DecodeError::Malformed)))
    );
}

#[test]
fn snapshot_block_refused() {
    let ledger = sample_ledger();
    let bytes = ledger.write_snapshot();
    // Repeat the last record: adding it again is a duplicate.
    let (_, _, blocks) = parse_snapshot(&bytes).unwrap();
    let last = blocks.last().unwrap();
    let mut record = Vec::new();
    record.extend_from_slice(&(last.parents().len() as u64).to_le_bytes());
    for p in last.parents() {
        record.extend_from_slice(&p.0.to_le_bytes());
    }
    record.extend_from_slice(&last.work().to_le_bytes());
    record.extend_from_slice(&(last.payload().len() as u64).to_le_bytes());
    record.extend_from_slice(last.payload());
    let mut twice = bytes.clone();
    twice[10..18].copy_from_slice(&5u64.to_le_bytes());
    twice.extend_from_slice(&record);
    assert_eq!(
        Ledger::read_snapshot(&twice).err(),
        Some(SnapshotError::Block(4, LedgerInsertError::Dag(DagError::DuplicateBlock(last.id()))))
    );
}

#[test]
fn node_snapshot_and_restore() {
    let empty = Node::new();
    assert!(matches!(empty.snapshot(), Err(NodeError::NotInitialized)));

    let mut a = Node::new();
    a.genesis(3, 1000, 500, 1).unwrap();
    a.send(1, 200, 2).unwrap();
    let bytes = a.snapshot().unwrap();

    let mut b = Node::new();
    b.restore(&bytes).unwrap();
    assert_eq!(b.balance(&Node::address(1)).unwrap(), 300);
    assert_eq!(b.balance(&Node::address(2)).unwrap(), 200);
    assert_eq!(b.block_count().unwrap(), 2);
    assert_eq!(b.tips().unwrap(), a.tips().unwrap());

    // A failed load leaves the node as it was.
    assert!(matches!(b.restore(&bytes[..5]), Err(NodeError::Snapshot(SnapshotError::Malformed))));
    assert_eq!(b.block_count().unwrap(), 2);
}
