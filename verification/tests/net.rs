//! Block exchange between nodes in one process.

use kovanica::net::{gossip, NetError};
use kovanica::node::{Node, NodeError};
use kovanica::origin::Origin;

fn genesis_node() -> Node {
    let mut node = Node::new();
    node.genesis(3, 1000, 1000, 1).unwrap();
    node
}

#[test]
fn gossip_counts_only_new_blocks() {
    let mut a = genesis_node();
    a.send(1, 400, 2).unwrap();
    a.send(2, 100, 3).unwrap();
    let mut b = genesis_node();
    assert_eq!(gossip(&a, &mut b).unwrap(), 2);
    assert_eq!(b.block_count().unwrap(), 3);
    assert_eq!(b.balance(&Node::address(3)).unwrap(), 100);
    assert_eq!(gossip(&a, &mut b).unwrap(), 0);
    assert_eq!(b.block_count().unwrap(), 3);
    // The other way round there is nothing new.
    assert_eq!(gossip(&b, &mut a).unwrap(), 0);
}

#[test]
fn gossip_into_a_node_without_a_ledger_fails_without_a_pulse() {
    let mut a = genesis_node();
    a.set_origin(Origin::parse("DEU").unwrap());
    a.send(1, 400, 2).unwrap();
    let mut empty = Node::new();
    assert!(matches!(gossip(&a, &mut empty), Err(NetError::Node(NodeError::NotInitialized))));
    assert!(empty.origin_pulses().is_empty());
    // A node with nothing to offer still announces its origin.
    let quiet = {
        let mut n = genesis_node();
        n.set_origin(Origin::parse("DEU").unwrap());
        n
    };
    let mut fresh = Node::new();
    assert_eq!(gossip(&quiet, &mut fresh).unwrap(), 0);
    assert_eq!(fresh.origin_pulses(), vec![(Origin::parse("DEU").unwrap(), 1)]);
}

#[test]
fn gossip_stops_at_a_refused_block() {
    // Two ledgers with different genesis blocks share no parents.
    let mut a = genesis_node();
    a.send(1, 400, 2).unwrap();
    let mut other = Node::new();
    other.genesis(3, 1000, 999, 1).unwrap();
    assert!(matches!(gossip(&a, &mut other), Err(NetError::Node(NodeError::Insert(_)))));
    assert_eq!(other.block_count().unwrap(), 1);
}
