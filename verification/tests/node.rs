//! The node: genesis, transfers, the mempool flow, block exchange between
//! nodes, and the errors each operation reports.

use kovanica::dag::DagError;
use kovanica::ledger::{LedgerError, LedgerInsertError};
use kovanica::node::{Node, NodeError};
use kovanica::tx::{Transaction, TxOutput};

fn genesis_node(amount: u64) -> Node {
    let mut node = Node::new();
    node.genesis(3, 1000, amount, 1).unwrap();
    node
}

#[test]
fn genesis_send_and_balances() {
    let mut node = Node::new();
    assert!(!node.is_initialized());
    let (genesis, founder) = node.genesis(3, 1000, 500, 1).unwrap();
    assert!(node.is_initialized());
    assert_eq!(founder, Node::address(1));
    assert_eq!(node.tips().unwrap(), vec![genesis]);
    assert_eq!(node.balance(&Node::address(1)).unwrap(), 500);

    let sent = node.send(1, 200, 2).unwrap();
    assert_eq!(node.balance(&Node::address(1)).unwrap(), 300);
    assert_eq!(node.balance(&Node::address(2)).unwrap(), 200);
    assert_eq!(node.block_count().unwrap(), 2);
    assert_eq!(node.selected_tip().unwrap(), sent.block);
    assert_eq!(node.tips().unwrap(), vec![sent.block]);
}

#[test]
fn mempool_flow_packs_pending_transfers() {
    let mut node = genesis_node(500);
    node.send(1, 200, 2).unwrap();
    let id = node.pool(2, 50, 3).unwrap();
    assert_eq!(node.pending_count(), 1);
    // Pooling the same transfer again is a no-op: same id, one entry.
    assert_eq!(node.pool(2, 50, 3).unwrap(), id);
    assert_eq!(node.pending_count(), 1);

    let block = node.produce_block().unwrap();
    assert!(block.is_some());
    assert_eq!(node.pending_count(), 0);
    assert_eq!(node.balance(&Node::address(2)).unwrap(), 150);
    assert_eq!(node.balance(&Node::address(3)).unwrap(), 50);
    // Nothing left to pack.
    assert_eq!(node.produce_block().unwrap(), None);
}

#[test]
fn conflicting_pool_entries_leave_the_loser_pending() {
    let mut node = genesis_node(100);
    // Both spend actor 1's only coin; only one fits in a block.
    node.pool(1, 60, 2).unwrap();
    node.pool(1, 70, 3).unwrap();
    assert_eq!(node.pending_count(), 2);
    assert!(node.produce_block().unwrap().is_some());
    assert_eq!(node.pending_count(), 1);
    let paid2 = node.balance(&Node::address(2)).unwrap();
    let paid3 = node.balance(&Node::address(3)).unwrap();
    assert!((paid2, paid3) == (60, 0) || (paid2, paid3) == (0, 70));
    // The loser no longer applies: nothing more is packed.
    assert_eq!(node.produce_block().unwrap(), None);
    assert_eq!(node.pending_count(), 1);
}

#[test]
fn two_nodes_converge_by_exchanging_blocks() {
    let mut a = genesis_node(1000);
    let mut b = genesis_node(1000);
    a.send(1, 400, 2).unwrap();
    a.send(2, 100, 3).unwrap();

    let records = a.export();
    assert_eq!(records.len(), 2);
    for rec in records.clone() {
        b.receive_block(rec).unwrap();
    }
    assert_eq!(b.balance(&Node::address(2)).unwrap(), 300);
    assert_eq!(b.balance(&Node::address(3)).unwrap(), 100);
    assert_eq!(b.selected_tip().unwrap(), a.selected_tip().unwrap());
    assert_eq!(b.block_count().unwrap(), 3);

    // Receiving again is idempotent.
    for rec in records {
        b.receive_block(rec).unwrap();
    }
    assert_eq!(b.block_count().unwrap(), 3);
}

#[test]
fn block_record_round_trips_through_a_peer() {
    let mut a = genesis_node(1000);
    let sent = a.send(1, 10, 2).unwrap();
    let rec = a.block_record(&sent.block).unwrap();
    assert_eq!(rec.work, 1);
    assert_eq!(rec.txs.len(), 1);
    assert_eq!(rec.txs[0].id(), sent.tx);
    let mut b = genesis_node(1000);
    assert_eq!(b.receive_block(rec).unwrap(), sent.block);
}

#[test]
fn receive_with_a_missing_parent_is_refused() {
    let mut a = genesis_node(1000);
    a.send(1, 10, 2).unwrap();
    a.send(1, 10, 3).unwrap();
    let records = a.export();
    let mut b = genesis_node(1000);
    // The second block's parent is the first, which b has not seen.
    let err = b.receive_block(records[1].clone()).unwrap_err();
    assert!(matches!(
        err,
        NodeError::Insert(LedgerInsertError::Dag(DagError::MissingParent(_)))
    ));
}

#[test]
fn operations_report_their_errors() {
    let mut fresh = Node::new();
    assert!(matches!(
        fresh.balance(&Node::address(1)),
        Err(NodeError::NotInitialized)
    ));
    assert!(matches!(fresh.tips(), Err(NodeError::NotInitialized)));
    assert!(matches!(fresh.send(1, 5, 2), Err(NodeError::NotInitialized)));
    assert!(matches!(fresh.produce_block(), Err(NodeError::NotInitialized)));
    assert!(fresh.export().is_empty());

    let mut node = genesis_node(500);
    assert!(matches!(
        node.genesis(3, 1000, 500, 1),
        Err(NodeError::AlreadyInitialized)
    ));
    assert!(matches!(node.send(1, 0, 2), Err(NodeError::ZeroAmount)));
    assert!(matches!(node.send(1, 501, 2), Err(NodeError::InsufficientFunds)));
    assert!(matches!(node.send(7, 1, 2), Err(NodeError::InsufficientFunds)));
    let cb = Transaction::coinbase(vec![TxOutput::new(5, Node::address(1))], vec![]);
    assert!(matches!(node.submit_tx(cb), Err(NodeError::UnexpectedCoinbase)));

    // A genesis minting more than the subsidy allows is refused.
    let mut greedy = Node::new();
    assert!(matches!(
        greedy.genesis(3, 10, 11, 1),
        Err(NodeError::Ledger(LedgerError::CoinbaseOverspend {
            claimed: 11,
            allowed: 10
        }))
    ));
    assert!(!greedy.is_initialized());
}

#[test]
fn exact_spend_has_no_change_output() {
    let mut node = genesis_node(500);
    let sent = node.send(1, 500, 2).unwrap();
    let rec = node.block_record(&sent.block).unwrap();
    assert_eq!(rec.txs[0].outputs().len(), 1);
    assert_eq!(node.balance(&Node::address(1)).unwrap(), 0);
    assert_eq!(node.balance(&Node::address(2)).unwrap(), 500);
}

#[test]
fn receiving_a_held_block_changes_nothing() {
    let mut a = genesis_node(1000);
    let sent = a.send(1, 300, 2).unwrap();
    let tips = a.tips().unwrap();
    let count = a.block_count().unwrap();
    let rec = a.block_record(&sent.block).unwrap();
    assert_eq!(a.receive_block(rec).unwrap(), sent.block);
    assert_eq!(a.tips().unwrap(), tips);
    assert_eq!(a.block_count().unwrap(), count);
    assert_eq!(a.balance(&Node::address(2)).unwrap(), 300);
    assert_eq!(a.pending_count(), 0);
    let mut fresh = Node::new();
    let rec = a.block_record(&sent.block).unwrap();
    assert!(matches!(fresh.receive_block(rec), Err(NodeError::NotInitialized)));
}
