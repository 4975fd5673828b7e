//! A DAG-based ledger: a block DAG ordered by GHOSTDAG, a reachability
//! oracle, a deterministic linearization, and a UTXO ledger applied in that
//! order.
use vstd::prelude::*;

pub mod block;
pub mod bytes;
pub mod command;
pub mod crypto;
pub mod dag;
pub mod ghostdag;
pub mod graph;
pub mod keys;
pub mod laws;
pub mod ledger;
pub mod mempool;
pub mod net;
pub mod node;
pub mod ordering;
pub mod origin;
pub mod payload;
pub mod reachability;
pub mod reorder;
pub mod replay;
pub mod rpc;
pub mod snapshot;
pub mod text;
pub mod tx;
pub mod utxo;


verus! {
} // verus!
