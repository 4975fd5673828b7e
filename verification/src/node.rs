//! The node: an in-memory [`Ledger`] and [`Mempool`], plus the operations a
//! node offers: bring up a genesis, build, pool and submit spends, produce
//! blocks, exchange blocks with peers, and query balances and tips.
//!
//! For demonstration and testing, actors are identified by a small integer
//! seed: the node derives `KeyPair::from_u64(seed)` for them and signs on
//! their behalf, spending one existing output that covers the amount and
//! returning the change. A real node never holds spending keys; this keeps
//! the node a runnable, self-contained demonstration of the whole stack.
use vstd::prelude::*;

use crate::block::{block_id_of, Block, BlockId};
use crate::crypto::{ed25519_public_key, ed25519_signature};
use crate::dag::DagError;
use crate::keys::{seed_secret, KeyPair};
use crate::dag::Dag;
use crate::ledger::{apply_block, block_spec, full_state, insert_outcome, payload_of, Ledger, LedgerError, LedgerInsertError, UtxoMap};
use crate::mempool::{add_outcome, keep_unlisted, Mempool};
use crate::origin::Origin;
use crate::payload::{decode_block_payload, decoded};
use crate::snapshot::{ledger_snap, read_outcome, snap_fits, snapshot_bytes, SnapshotError};
use crate::tx::{address_of_key, lemma_outpoints_bytes_same, payload_bytes, tx_id, tx_sighash, unsigned_bytes, views, Address, DecodeError, InputView, OutPoint, Transaction, TxId, TxOutput, TxView};
use crate::utxo::map_balance;

verus! {

/// Why a node operation failed.
#[derive(Debug)]
pub enum NodeError {
    /// An operation needed a ledger, but no genesis has been created yet.
    NotInitialized,
    /// `genesis` was called on an already-initialised node.
    AlreadyInitialized,
    /// A spend of zero value was requested.
    ZeroAmount,
    /// No single unspent output owned by the sender covers the amount (the
    /// node does not combine outputs).
    InsufficientFunds,
    /// A coinbase transaction was submitted where a spend was expected.
    UnexpectedCoinbase,
    /// Building the genesis ledger failed.
    Ledger(LedgerError),
    /// Adding the block failed (structure or stateful validation).
    Insert(LedgerInsertError),
    /// Reading or writing the snapshot file failed.
    Io(String),
    /// Loading a snapshot failed.
    Snapshot(SnapshotError),
}

/// The result of a successful [`Node::send`]: the block that carried the
/// spend and the transaction's id.
#[derive(Clone, Copy, Debug)]
pub struct Sent {
    /// Id of the block that was added.
    pub block: BlockId,
    /// Id of the transfer transaction.
    pub tx: TxId,
}

/// The wire form of a block for gossip: everything a peer needs to add it.
#[derive(Clone, Debug)]
pub struct BlockRecord {
    /// The block's parents.
    pub parents: Vec<BlockId>,
    /// The block's work weight.
    pub work: u128,
    /// The block's transactions.
    pub txs: Vec<Transaction>,
}

/// A running node holding the ledger and mempool in memory, with the
/// origin it declares and the origins it has seen announced by peers
/// (node policy, never consensus).
pub struct Node {
    ledger: Option<Ledger>,
    mempool: Mempool,
    origin: Option<Origin>,
    pulses: Vec<(Origin, u64)>,
}

// ---------------------------------------------------------------------------
// The model.

/// The address of actor `seed`: the public key of its key pair.
pub open spec fn seed_address(seed: u64) -> Address {
    address_of_key(ed25519_public_key(seed_secret(seed)))
}

/// The extra data of the genesis coinbase: the ASCII bytes of `genesis`.
pub open spec fn genesis_extra() -> Seq<u8> {
    seq![103u8, 101u8, 110u8, 101u8, 115u8, 105u8, 115u8]
}

/// The genesis coinbase minting `amount` to `founder`.
pub open spec fn genesis_coinbase(amount: u64, founder: Address) -> TxView {
    TxView { inputs: Seq::empty(), outputs: seq![TxOutput { value: amount, owner: founder }], extra: genesis_extra() }
}

/// Coin `a` (worth `va`) is preferred to coin `b` (worth `vb`): smaller
/// value, then smaller outpoint.
pub open spec fn coin_lt(va: u64, a: OutPoint, vb: u64, b: OutPoint) -> bool {
    ||| va < vb
    ||| va == vb && a.txid.0 < b.txid.0
    ||| va == vb && a.txid.0 == b.txid.0 && a.txid.1 < b.txid.1
    ||| va == vb && a.txid == b.txid && a.index < b.index
}

/// `op` is an unspent output of `owner` worth at least `amount`.
pub open spec fn covers(m: UtxoMap, owner: Address, amount: u64, op: OutPoint) -> bool {
    m.contains_key(op) && m[op].owner == owner && m[op].value >= amount
}

/// `op` is the best fit: of the outputs that cover the amount, the least by
/// value, then by outpoint.
pub open spec fn best_fit(m: UtxoMap, owner: Address, amount: u64, op: OutPoint) -> bool {
    &&& covers(m, owner, amount, op)
    &&& forall|o: OutPoint| #[trigger] covers(m, owner, amount, o) ==> !coin_lt(m[o].value, o, m[op].value, op)
}

/// There is at most one best fit.
pub proof fn lemma_best_fit_unique(m: UtxoMap, owner: Address, amount: u64, a: OutPoint, b: OutPoint)
    requires
        best_fit(m, owner, amount, a),
        best_fit(m, owner, amount, b),
    ensures
        a == b,
{
    assert(!coin_lt(m[b].value, b, m[a].value, a));
    assert(!coin_lt(m[a].value, a, m[b].value, b));
    assert(a.txid == b.txid);
}

/// The outputs of a transfer of `amount` to `to` out of a coin worth
/// `value` owned by `from`: the payment, and the change if any.
pub open spec fn transfer_outputs(value: u64, amount: u64, from: Address, to: Address) -> Seq<TxOutput> {
    if value > amount {
        seq![TxOutput { value: amount, owner: to }, TxOutput { value: (value - amount) as u64, owner: from }]
    } else {
        seq![TxOutput { value: amount, owner: to }]
    }
}

/// The transfer spending `op` (worth `value`), signed by actor `from_seed`.
pub open spec fn transfer_tx(op: OutPoint, value: u64, from_seed: u64, amount: u64, to_seed: u64) -> TxView {
    let outs = transfer_outputs(value, amount, seed_address(from_seed), seed_address(to_seed));
    let unsigned = TxView {
        inputs: seq![InputView { outpoint: op, signature: Seq::empty() }],
        outputs: outs,
        extra: Seq::empty(),
    };
    TxView {
        inputs: seq![InputView { outpoint: op, signature: ed25519_signature(seed_secret(from_seed), tx_sighash(unsigned)) }],
        outputs: outs,
        extra: Seq::empty(),
    }
}

/// The transfer of `amount` from actor `from_seed` to actor `to_seed` the
/// node builds against the state `m`: it spends the best-fit coin and
/// returns the change; `None` when no single coin covers the amount.
pub open spec fn transfer_for(m: UtxoMap, from_seed: u64, amount: u64, to_seed: u64) -> Option<TxView> {
    if exists|op: OutPoint| #[trigger] best_fit(m, seed_address(from_seed), amount, op) {
        let op = choose|op: OutPoint| #[trigger] best_fit(m, seed_address(from_seed), amount, op);
        Some(transfer_tx(op, m[op].value, from_seed, amount, to_seed))
    } else {
        None
    }
}

/// The full ledger state of `l`.
pub open spec fn state_of(l: Ledger) -> UtxoMap {
    full_state(l.dag_view(), l.subsidy_view())
}

/// Packing candidates `cands[..k]` in order on top of the state `m`: each
/// one is kept when it applies, as a block of its own, on top of those kept
/// before it. The state after the kept ones, and the kept ones.
pub open spec fn select_txs(m: UtxoMap, cands: Seq<TxView>, subsidy: u64, k: int) -> (UtxoMap, Seq<TxView>)
    decreases k,
{
    if k <= 0 {
        (m, Seq::empty())
    } else {
        let prev = select_txs(m, cands, subsidy, k - 1);
        match block_spec(prev.0, seq![cands[k - 1]], subsidy) {
            Ok((m2, _)) => (m2, prev.1.push(cands[k - 1])),
            Err(_) => prev,
        }
    }
}

/// The ids of transactions.
pub open spec fn ids_of(s: Seq<TxView>) -> Seq<TxId> {
    s.map_values(|t: TxView| tx_id(t))
}

/// `rec` is the gossip record of block `x` of `d`: its parents, its work,
/// and the transactions its payload decodes to.
pub open spec fn record_of(d: Dag, x: BlockId, rec: BlockRecord) -> bool {
    let b = d.block_at(d.pos(x));
    &&& rec.parents@ == b.parents_view()
    &&& rec.work == b.work_view()
    &&& decoded(b.payload_view()) == Some(views(rec.txs@))
}

/// The blocks of `order[..k]` a peer needs: every block but genesis whose
/// payload decodes, in order.
pub open spec fn export_ids(d: Dag, order: Seq<BlockId>, k: int) -> Seq<BlockId>
    decreases k,
{
    if k <= 0 {
        Seq::empty()
    } else {
        let r = export_ids(d, order, k - 1);
        let x = order[k - 1];
        if x != d.ids()[0] && d.has(x) && decoded(payload_of(d, x)) is Some {
            r.push(x)
        } else {
            r
        }
    }
}

/// Origin `a`'s letters come before origin `b`'s, byte by byte.
pub open spec fn letters_lt(a: Seq<u8>, b: Seq<u8>) -> bool {
    ||| a[0] < b[0]
    ||| a[0] == b[0] && a[1] < b[1]
    ||| a[0] == b[0] && a[1] == b[1] && a[2] < b[2]
}

/// Pulse count `a` is listed before `b`: more pulses first, then by code.
pub open spec fn pulse_lt(a: (Origin, u64), b: (Origin, u64)) -> bool {
    ||| a.1 > b.1
    ||| a.1 == b.1 && letters_lt(a.0.letters(), b.0.letters())
}

/// No two entries of `p` count the same origin.
pub open spec fn distinct_letters(p: Seq<(Origin, u64)>) -> bool {
    forall|i: int, j: int| 0 <= i < j < p.len() ==> (#[trigger] p[i]).0.letters() != (#[trigger] p[j]).0.letters()
}

/// `p` with one more pulse from `o`: its count goes up by one (saturating),
/// or it joins the end with a count of one.
pub open spec fn observed(p: Seq<(Origin, u64)>, o: Origin) -> Seq<(Origin, u64)> {
    if exists|j: int| 0 <= j < p.len() && (#[trigger] p[j]).0.letters() == o.letters() {
        let j = choose|j: int| 0 <= j < p.len() && (#[trigger] p[j]).0.letters() == o.letters();
        p.update(j, (p[j].0, if p[j].1 < u64::MAX { (p[j].1 + 1) as u64 } else { p[j].1 }))
    } else {
        p.push((o, 1u64))
    }
}

/// The blocks a peer is offered are blocks of `d`, other than genesis.
pub proof fn lemma_export_ids_present(d: Dag, order: Seq<BlockId>, k: int)
    ensures
        forall|t: int|
            0 <= t < export_ids(d, order, k).len() ==> d.has(#[trigger] export_ids(d, order, k)[t])
                && export_ids(d, order, k)[t] != d.ids()[0],
    decreases k,
{
    if k > 0 {
        lemma_export_ids_present(d, order, k - 1);
        let r = export_ids(d, order, k - 1);
        assert forall|t: int| 0 <= t < export_ids(d, order, k).len() implies d.has(#[trigger] export_ids(d, order, k)[t])
            && export_ids(d, order, k)[t] != d.ids()[0] by {
            if t < r.len() {
                assert(export_ids(d, order, k)[t] == r[t]);
            }
        }
    }
}

/// A block's gossip record names the block: adding a block with the
/// record's parents, work and transactions gives the block's id.
pub proof fn lemma_record_id(d: Dag, x: BlockId, rec: BlockRecord)
    requires
        d.inv(),
        d.has(x),
        record_of(d, x, rec),
    ensures
        block_id_of(rec.parents@, rec.work, payload_bytes(views(rec.txs@))) == x,
{
    d.lemma_block_ids();
    let i = d.pos(x);
    let b = d.block_at(i);
    let v = views(rec.txs@);
    assert(decoded(b.payload_view()) == Some(v));
    assert(exists|s: Seq<TxView>| #[trigger] crate::tx::encodes(b.payload_view(), s));
    let c = choose|s: Seq<TxView>| #[trigger] crate::tx::encodes(b.payload_view(), s);
    assert(c == v);
    assert(payload_bytes(v) == b.payload_view());
    assert(b.spec_id() == d.ids()[i]);
}

/// `new`'s ledger and `r` are what receiving `record` on `old` gives: without
/// a ledger the node is not initialized; otherwise the block is added as
/// the ledger adds it, and a block already present counts as received.
pub open spec fn received(old: Node, new: Node, record: BlockRecord, r: Result<BlockId, NodeError>) -> bool {
    match old.ledger_view() {
        None => r matches Err(NodeError::NotInitialized) && new.ledger_view() == old.ledger_view(),
        Some(l) => new.ledger_view() matches Some(l2) && exists|ir: Result<BlockId, LedgerInsertError>|
            #[trigger] insert_outcome(l, l2, record.parents@, record.work, views(record.txs@), ir) && match ir {
                Ok(id) => r == Ok::<BlockId, NodeError>(id),
                Err(LedgerInsertError::Dag(DagError::DuplicateBlock(id))) => r == Ok::<BlockId, NodeError>(id),
                Err(e) => r == Err::<BlockId, NodeError>(NodeError::Insert(e)),
            },
    }
}

/// `l2` and `r` are what sending the transfer `t` in a block of its own on
/// the tips of `l` gives.
pub open spec fn sent_outcome(l: Ledger, l2: Ledger, t: TxView, r: Result<Sent, NodeError>) -> bool {
    exists|ir: Result<BlockId, LedgerInsertError>|
        #[trigger] insert_outcome(l, l2, l.dag_view().tips_view(), 1, seq![t], ir) && match ir {
            Ok(b) => r matches Ok(sent) && sent.block == b && sent.tx == tx_id(t),
            Err(e) => r == Err::<Sent, NodeError>(NodeError::Insert(e)),
        }
}

/// Two counts of different origins are listed one before the other.
proof fn lemma_pulse_total(a: (Origin, u64), b: (Origin, u64))
    requires
        a.0.letters() != b.0.letters(),
    ensures
        pulse_lt(a, b) || pulse_lt(b, a),
        !(pulse_lt(a, b) && pulse_lt(b, a)),
{
    a.0.lemma_letters_len();
    b.0.lemma_letters_len();
    if a.1 == b.1 && !letters_lt(a.0.letters(), b.0.letters()) && !letters_lt(b.0.letters(), a.0.letters()) {
        assert(a.0.letters() =~= b.0.letters());
    }
}

/// The listing order is transitive.
proof fn lemma_pulse_trans(a: (Origin, u64), b: (Origin, u64), c: (Origin, u64))
    requires
        pulse_lt(a, b),
        pulse_lt(b, c),
    ensures
        pulse_lt(a, c),
{
}

/// Whether pulse count `a` is listed before `b`.
fn pulse_before(a: (Origin, u64), b: (Origin, u64)) -> (r: bool)
    ensures
        r == pulse_lt(a, b),
{
    if a.1 != b.1 {
        return a.1 > b.1;
    }
    let x = a.0.as_bytes();
    let y = b.0.as_bytes();
    x[0] < y[0] || (x[0] == y[0] && (x[1] < y[1] || (x[1] == y[1] && x[2] < y[2])))
}

/// `new` and `r` are what bringing up a genesis on `old` gives.
pub open spec fn genesis_outcome(old: Node, new: Node, k: u16, subsidy: u64, amount: u64, founder_seed: u64, r: Result<(BlockId, Address), NodeError>) -> bool {
    &&& (new.origin_view() == old.origin_view())
    &&& (new.pulses_view() == old.pulses_view())
    &&& (new.pending() == old.pending())
    &&& (old.ledger_view() is Some ==> (r matches Err(NodeError::AlreadyInitialized) && new.ledger_view()
        == old.ledger_view()))
    &&& (old.ledger_view() is None ==> ({
        let txs = seq![genesis_coinbase(amount, seed_address(founder_seed))];
        match decoded(payload_bytes(txs)) {
            None => r matches Err(NodeError::Ledger(LedgerError::Payload(DecodeError::Malformed)))
                && new.ledger_view() is None,
            Some(v) => match block_spec(Map::empty(), v, subsidy) {
                Err(e) => r == Err::<(BlockId, Address), NodeError>(NodeError::Ledger(e)) && new.ledger_view() is None,
                Ok(_) => r matches Ok((g, a)) && {
                    &&& a == seed_address(founder_seed)
                    &&& new.ledger_view() matches Some(l) && {
                        &&& l.subsidy_view() == subsidy
                        &&& l.dag_view().k_view() == k
                        &&& l.dag_view().ids() == seq![g]
                        &&& l.dag_view().block_at(0).payload_view() == payload_bytes(txs)
                    }
                },
            },
        }
    }))
}

/// `new` and `r` are what an immediate transfer on `old` gives.
pub open spec fn send_outcome(old: Node, new: Node, from_seed: u64, amount: u64, to_seed: u64, r: Result<Sent, NodeError>) -> bool {
    &&& (new.origin_view() == old.origin_view())
    &&& (new.pulses_view() == old.pulses_view())
    &&& (new.pending() == old.pending())
    &&& (amount == 0 ==> (r matches Err(NodeError::ZeroAmount) && new.ledger_view() == old.ledger_view()))
    &&& (amount != 0 && old.ledger_view() is None ==> (r matches Err(NodeError::NotInitialized)
        && new.ledger_view() == old.ledger_view()))
    &&& (amount != 0 && old.ledger_view() is Some ==> ({
        let l = old.ledger_view()->0;
        match transfer_for(state_of(l), from_seed, amount, to_seed) {
            None => r matches Err(NodeError::InsufficientFunds) && new.ledger_view() == old.ledger_view(),
            Some(t) => new.ledger_view() matches Some(l2) && sent_outcome(l, l2, t, r),
        }
    }))
}

/// `new` and `r` are what queueing a transfer on `old` gives.
pub open spec fn pool_outcome(old: Node, new: Node, from_seed: u64, amount: u64, to_seed: u64, r: Result<TxId, NodeError>) -> bool {
    &&& (new.origin_view() == old.origin_view())
    &&& (new.pulses_view() == old.pulses_view())
    &&& (new.ledger_view() == old.ledger_view())
    &&& (amount == 0 ==> (r matches Err(NodeError::ZeroAmount) && new.pending() == old.pending()))
    &&& (amount != 0 && old.ledger_view() is None ==> (r matches Err(NodeError::NotInitialized)
        && new.pending() == old.pending()))
    &&& (amount != 0 && old.ledger_view() is Some ==> match transfer_for(
        state_of(old.ledger_view()->0),
        from_seed,
        amount,
        to_seed,
    ) {
        None => r matches Err(NodeError::InsufficientFunds) && new.pending() == old.pending(),
        Some(t) => r == Ok::<TxId, NodeError>(tx_id(t)) && add_outcome(old.pending(), new.pending(), t),
    })
}

/// `new` and `r` are what packing the mempool of `old` into a block gives.
pub open spec fn produce_outcome(old: Node, new: Node, r: Result<Option<BlockId>, NodeError>) -> bool {
    &&& (new.origin_view() == old.origin_view())
    &&& (new.pulses_view() == old.pulses_view())
    &&& (old.ledger_view() is None ==> (r matches Err(NodeError::NotInitialized) && new.ledger_view()
        == old.ledger_view() && new.pending() == old.pending()))
    &&& (old.ledger_view() is Some ==> ({
        let l = old.ledger_view()->0;
        let sel = select_txs(state_of(l), old.pending(), l.subsidy_view(), old.pending().len() as int).1;
        if sel.len() == 0 {
            &&& r == Ok::<Option<BlockId>, NodeError>(None)
            &&& new.ledger_view() == old.ledger_view()
            &&& new.pending() == old.pending()
        } else {
            new.ledger_view() matches Some(l2) && exists|ir: Result<BlockId, LedgerInsertError>|
                #[trigger] insert_outcome(l, l2, l.dag_view().tips_view(), 1, sel, ir) && match ir {
                    Ok(b) => r == Ok::<Option<BlockId>, NodeError>(Some(b)) && new.pending() == keep_unlisted(
                        old.pending(),
                        ids_of(sel),
                        old.pending().len() as int,
                    ),
                    Err(e) => r == Err::<Option<BlockId>, NodeError>(NodeError::Insert(e)) && new.pending()
                        == old.pending(),
                }
        }
    }))
}

/// `new` and `r` are what loading the snapshot `bytes` into `old` gives.
pub open spec fn restore_outcome(old: Node, new: Node, bytes: Seq<u8>, r: Result<(), NodeError>) -> bool {
    &&& (new.origin_view() == old.origin_view())
    &&& (new.pulses_view() == old.pulses_view())
    &&& (new.pending() == old.pending())
    &&& match r {
        Ok(()) => new.ledger_view() matches Some(l) && read_outcome(bytes, Ok(l)),
        Err(e) => e matches NodeError::Snapshot(se) && read_outcome(bytes, Err(se)) && new.ledger_view()
            == old.ledger_view(),
    }
}

impl Node {
    /// The node's ledger, if a genesis has been created.
    pub closed spec fn ledger_view(&self) -> Option<Ledger> {
        self.ledger
    }

    /// The pending transactions, in id order.
    pub closed spec fn pending(&self) -> Seq<TxView> {
        self.mempool.view()
    }

    /// The origin the node declares.
    pub closed spec fn origin_view(&self) -> Option<Origin> {
        self.origin
    }

    /// The origins seen announced by peers, each with how often, in the
    /// order they were first seen.
    pub closed spec fn pulses_view(&self) -> Seq<(Origin, u64)> {
        self.pulses@
    }

    /// The node is consistent: its ledger, if any, is, and no origin is
    /// counted twice.
    pub closed spec fn wf(&self) -> bool {
        &&& match self.ledger {
            Some(l) => l.wf(),
            None => true,
        }
        &&& distinct_letters(self.pulses@)
    }

    /// A consistent node's ledger is consistent.
    pub proof fn lemma_ledger_wf(&self)
        requires
            self.wf(),
        ensures
            self.ledger_view() matches Some(l) ==> l.wf(),
    {
    }

    /// A fresh node with no ledger yet.
    pub fn new() -> (r: Node)
        ensures
            r.wf(),
            r.ledger_view() is None,
            r.pending() == Seq::<TxView>::empty(),
            r.origin_view() is None,
            r.pulses_view() == Seq::<(Origin, u64)>::empty(),
    {
        Node { ledger: None, mempool: Mempool::new(), origin: None, pulses: Vec::new() }
    }

    /// Whether a genesis has been created.
    pub fn is_initialized(&self) -> (r: bool)
        ensures
            r == self.ledger_view() is Some,
    {
        self.ledger.is_some()
    }

    /// The address the node uses for actor `seed`.
    pub fn address(seed: u64) -> (r: Address)
        ensures
            r == seed_address(seed),
    {
        KeyPair::from_u64(seed).address()
    }

    /// Bring up the ledger: a genesis block whose coinbase mints `amount` to
    /// actor `founder_seed`, with GHOSTDAG parameter `k` and per-block
    /// `subsidy`. Returns the genesis block id and the founder's address.
    pub fn genesis(&mut self, k: u16, subsidy: u64, amount: u64, founder_seed: u64) -> (r: Result<(BlockId, Address), NodeError>)
        requires
            old(self).wf(),
        ensures
            final(self).wf(),
            genesis_outcome(*old(self), *final(self), k, subsidy, amount, founder_seed, r),
    {
        if self.ledger.is_some() {
            return Err(NodeError::AlreadyInitialized);
        }
        let founder = Self::address(founder_seed);
        let mut outputs: Vec<TxOutput> = Vec::new();
        outputs.push(TxOutput::new(amount, founder));
        let extra: Vec<u8> = vec![103u8, 101u8, 110u8, 101u8, 115u8, 105u8, 115u8];
        let coinbase = Transaction::coinbase(outputs, extra);
        let mut txs: Vec<Transaction> = Vec::new();
        txs.push(coinbase);
        proof {
            assert(coinbase@.inputs =~= Seq::<InputView>::empty());
            assert(coinbase@.outputs =~= seq![TxOutput { value: amount, owner: founder }]);
            assert(coinbase@.extra =~= genesis_extra());
            assert(views(txs@) =~= seq![genesis_coinbase(amount, founder)]);
        }
        match Ledger::new(k, subsidy, txs.as_slice()) {
            Ok(ledger) => {
                let g = ledger.genesis();
                proof {
                    assert(ledger.dag_view().ids() =~= seq![g]);
                }
                self.ledger = Some(ledger);
                Ok((g, founder))
            },
            Err(e) => Err(NodeError::Ledger(e)),
        }
    }

    /// The spendable balance of `owner` in the current full ledger state.
    pub fn balance(&self, owner: &Address) -> (r: Result<u128, NodeError>)
        requires
            self.wf(),
        ensures
            match self.ledger_view() {
                None => r matches Err(NodeError::NotInitialized),
                Some(l) => r matches Ok(b) && b == map_balance(state_of(l), *owner),
            },
    {
        match &self.ledger {
            Some(l) => {
                let state = l.ledger_state();
                Ok(state.balance(owner))
            },
            None => Err(NodeError::NotInitialized),
        }
    }

    /// The current tips, sorted by id.
    pub fn tips(&self) -> (r: Result<Vec<BlockId>, NodeError>)
        requires
            self.wf(),
        ensures
            match self.ledger_view() {
                None => r matches Err(NodeError::NotInitialized),
                Some(l) => r matches Ok(v) && v@ == l.dag_view().tips_view(),
            },
    {
        match &self.ledger {
            Some(l) => Ok(l.dag().tips()),
            None => Err(NodeError::NotInitialized),
        }
    }

    /// The selected (heaviest) tip.
    pub fn selected_tip(&self) -> (r: Result<BlockId, NodeError>)
        requires
            self.wf(),
        ensures
            match self.ledger_view() {
                None => r matches Err(NodeError::NotInitialized),
                Some(l) => r matches Ok(t) && {
                    &&& l.dag_view().is_tip_spec(t)
                    &&& forall|u: BlockId| #[trigger] l.dag_view().is_tip_spec(u) ==> !l.dag_view().chain_key_lt(t, u)
                },
            },
    {
        match &self.ledger {
            Some(l) => Ok(l.dag().selected_tip()),
            None => Err(NodeError::NotInitialized),
        }
    }

    /// Number of blocks in the DAG (including genesis).
    pub fn block_count(&self) -> (r: Result<usize, NodeError>)
        requires
            self.wf(),
        ensures
            match self.ledger_view() {
                None => r matches Err(NodeError::NotInitialized),
                Some(l) => r matches Ok(n) && n == l.dag_view().ids().len(),
            },
    {
        match &self.ledger {
            Some(l) => Ok(l.dag().len()),
            None => Err(NodeError::NotInitialized),
        }
    }

    /// Number of pending transactions in the mempool.
    pub fn pending_count(&self) -> (r: usize)
        ensures
            r == self.pending().len(),
    {
        self.mempool.len()
    }

    /// Build a signed transfer of `amount` from actor `from_seed` to actor
    /// `to_seed`, spending the sender's best-fit output and returning the
    /// change. Does not touch the ledger or mempool.
    fn build_transfer(&self, from_seed: u64, amount: u64, to_seed: u64) -> (r: Result<Transaction, NodeError>)
        requires
            self.wf(),
        ensures
            amount == 0 ==> r matches Err(NodeError::ZeroAmount),
            amount != 0 && self.ledger_view() is None ==> r matches Err(NodeError::NotInitialized),
            amount != 0 && self.ledger_view() is Some ==> match transfer_for(state_of(self.ledger_view()->0), from_seed, amount, to_seed) {
                None => r matches Err(NodeError::InsufficientFunds),
                Some(t) => r matches Ok(tx) && tx@ == t,
            },
    {
        if amount == 0 {
            return Err(NodeError::ZeroAmount);
        }
        let from = KeyPair::from_u64(from_seed);
        let from_addr = from.address();
        let to_addr = Self::address(to_seed);
        let ledger = match &self.ledger {
            Some(l) => l,
            None => {
                return Err(NodeError::NotInitialized);
            },
        };
        let state = ledger.ledger_state();
        let ghost m = state@;
        let entries = state.entries();
        // Best fit: the smallest covering output, ties broken by outpoint.
        let mut best: Option<(OutPoint, u64)> = None;
        let mut i: usize = 0;
        while i < entries.len()
            invariant
                i <= entries@.len(),
                forall|j: int| 0 <= j < entries@.len() ==> m.contains_key((#[trigger] entries@[j]).0) && m[entries@[j].0] == entries@[j].1,
                best matches Some((op, v)) ==> covers(m, from_addr, amount, op) && m[op].value == v,
                best matches Some((op, v)) ==> forall|j: int| 0 <= j < i && covers(m, from_addr, amount, (#[trigger] entries@[j]).0)
                    ==> !coin_lt(entries@[j].1.value, entries@[j].0, v, op),
                best is None ==> forall|j: int| 0 <= j < i ==> !covers(m, from_addr, amount, (#[trigger] entries@[j]).0),
            decreases entries@.len() - i,
        {
            let (op, out) = entries[i];
            if out.owner == from_addr && out.value >= amount {
                let better = match best {
                    None => true,
                    Some((bop, bv)) => out.value < bv || (out.value == bv && (op.txid.0 < bop.txid.0 || (op.txid.0
                        == bop.txid.0 && (op.txid.1 < bop.txid.1 || (op.txid.1 == bop.txid.1 && op.index < bop.index))))),
                };
                if better {
                    best = Some((op, out.value));
                }
            }
            i = i + 1;
        }
        let (op, value) = match best {
            Some(x) => x,
            None => {
                proof {
                    assert forall|o: OutPoint| !#[trigger] best_fit(m, from_addr, amount, o) by {
                        if best_fit(m, from_addr, amount, o) {
                            let j = choose|j: int| 0 <= j < entries@.len() && entries@[j].0 == o;
                            assert(covers(m, from_addr, amount, entries@[j].0));
                        }
                    }
                }
                return Err(NodeError::InsufficientFunds);
            },
        };
        proof {
            assert(best_fit(m, from_addr, amount, op)) by {
                assert forall|o: OutPoint| #[trigger] covers(m, from_addr, amount, o) implies !coin_lt(m[o].value, o, m[op].value, op) by {
                    let j = choose|j: int| 0 <= j < entries@.len() && entries@[j].0 == o;
                    assert(covers(m, from_addr, amount, entries@[j].0));
                }
            }
            let c = choose|o: OutPoint| #[trigger] best_fit(m, from_addr, amount, o);
            lemma_best_fit_unique(m, from_addr, amount, c, op);
        }
        let mut outputs: Vec<TxOutput> = Vec::new();
        outputs.push(TxOutput::new(amount, to_addr));
        if value > amount {
            outputs.push(TxOutput::new(value - amount, from_addr));
        }
        let spends = [(op, &from)];
        let t = Transaction::signed(spends.as_slice(), outputs, Vec::new());
        proof {
            let outs = transfer_outputs(value, amount, from_addr, to_addr);
            assert(outputs@ =~= outs);
            let unsigned = TxView {
                inputs: seq![InputView { outpoint: op, signature: Seq::empty() }],
                outputs: outs,
                extra: Seq::empty(),
            };
            assert(t@.extra =~= Seq::<u8>::empty());
            lemma_outpoints_bytes_same(t@.inputs, unsigned.inputs);
            assert(unsigned_bytes(t@) =~= unsigned_bytes(unsigned));
            assert(t@.inputs =~= seq![InputView { outpoint: op, signature: ed25519_signature(seed_secret(from_seed), tx_sighash(unsigned)) }]);
            assert(t@ == transfer_tx(op, value, from_seed, amount, to_seed));
        }
        Ok(t)
    }

    /// Send `amount` from actor `from_seed` to actor `to_seed` immediately,
    /// as a new block built on the current tips. (For the mempool flow use
    /// [`Node::pool`] then [`Node::produce_block`].)
    pub fn send(&mut self, from_seed: u64, amount: u64, to_seed: u64) -> (r: Result<Sent, NodeError>)
        requires
            old(self).wf(),
        ensures
            final(self).wf(),
            send_outcome(*old(self), *final(self), from_seed, amount, to_seed, r),
    {
        let tx = match self.build_transfer(from_seed, amount, to_seed) {
            Ok(t) => t,
            Err(e) => {
                return Err(e);
            },
        };
        let id = tx.id();
        let ghost t = tx@;
        let mut txs: Vec<Transaction> = Vec::new();
        txs.push(tx);
        proof {
            assert(views(txs@) =~= seq![t]);
        }
        let mut ledger = match self.ledger.take() {
            Some(l) => l,
            None => {
                return Err(NodeError::NotInitialized);
            },
        };
        let ghost l0 = ledger;
        let parents = ledger.dag().tips();
        let res = ledger.insert(parents, 1, txs.as_slice());
        self.ledger = Some(ledger);
        let out = match res {
            Ok(b) => Ok(Sent { block: b, tx: id }),
            Err(e) => Err(NodeError::Insert(e)),
        };
        proof {
            assert(old(self).ledger_view() == Some(l0));
            assert(self.ledger_view() == Some(ledger));
            assert(transfer_for(state_of(l0), from_seed, amount, to_seed) == Some(t));
            assert(sent_outcome(l0, ledger, t, out)) by {
                assert(insert_outcome(l0, ledger, l0.dag_view().tips_view(), 1, seq![t], res) && match res {
                    Ok(b) => out matches Ok(sent) && sent.block == b && sent.tx == tx_id(t),
                    Err(e) => out == Err::<Sent, NodeError>(NodeError::Insert(e)),
                });
            }
        }
        out
    }

    /// Build a transfer and add it to the mempool (not yet in a block).
    /// Returns its transaction id.
    pub fn pool(&mut self, from_seed: u64, amount: u64, to_seed: u64) -> (r: Result<TxId, NodeError>)
        requires
            old(self).wf(),
        ensures
            final(self).wf(),
            pool_outcome(*old(self), *final(self), from_seed, amount, to_seed, r),
    {
        let tx = match self.build_transfer(from_seed, amount, to_seed) {
            Ok(t) => t,
            Err(e) => {
                return Err(e);
            },
        };
        let id = tx.id();
        self.mempool.add(tx);
        Ok(id)
    }

    /// Accept an externally formed transaction into the mempool (e.g. relayed
    /// by a peer). Rejects coinbase transactions. Returns its id.
    pub fn submit_tx(&mut self, tx: Transaction) -> (r: Result<TxId, NodeError>)
        requires
            old(self).wf(),
        ensures
            final(self).wf(),
            final(self).origin_view() == old(self).origin_view(),
            final(self).pulses_view() == old(self).pulses_view(),
            final(self).ledger_view() == old(self).ledger_view(),
            tx@.inputs.len() == 0 ==> (r matches Err(NodeError::UnexpectedCoinbase) && final(self).pending() == old(self).pending()),
            tx@.inputs.len() != 0 ==> (r == Ok::<TxId, NodeError>(tx_id(tx@)) && add_outcome(old(self).pending(), final(self).pending(), tx@)),
    {
        if tx.is_coinbase() {
            return Err(NodeError::UnexpectedCoinbase);
        }
        let id = tx.id();
        self.mempool.add(tx);
        Ok(id)
    }

    /// Assemble the mempool transactions that apply into a block on the
    /// current tips, add it, and drop the included transactions.
    ///
    /// Candidates are tried in id order against the current full state, each
    /// on top of those already chosen; any that do not apply stay in the
    /// mempool. Returns the new block id, or `None` if nothing applies.
    pub fn produce_block(&mut self) -> (r: Result<Option<BlockId>, NodeError>)
        requires
            old(self).wf(),
        ensures
            final(self).wf(),
            produce_outcome(*old(self), *final(self), r),
    {
        let (subsidy, mut working) = match &self.ledger {
            Some(l) => (l.subsidy(), l.ledger_state()),
            None => {
                return Err(NodeError::NotInitialized);
            },
        };
        let ghost pend = self.mempool.view();
        let cands = self.mempool.ordered();
        let ghost m0 = working@;
        let mut selected: Vec<Transaction> = Vec::new();
        let mut selected_ids: Vec<TxId> = Vec::new();
        let mut i: usize = 0;
        while i < cands.len()
            invariant
                views(cands@) == pend,
                i <= cands@.len(),
                select_txs(m0, pend, subsidy, i as int) == (working@, views(selected@)),
                selected_ids@ == ids_of(views(selected@)),
            decreases cands@.len() - i,
        {
            let mut one: Vec<Transaction> = Vec::new();
            one.push(cands[i].duplicate());
            proof {
                assert(views(one@) =~= seq![pend[i as int]]);
                assert(pend[i as int] == cands@[i as int]@);
            }
            let ghost before = working@;
            if apply_block(&mut working, one.as_slice(), subsidy).is_ok() {
                let t = cands[i].duplicate();
                selected_ids.push(t.id());
                let ghost sel0 = selected@;
                selected.push(t);
                proof {
                    assert(views(selected@) =~= views(sel0).push(pend[i as int]));
                    assert(ids_of(views(selected@)) =~= ids_of(views(sel0)).push(tx_id(pend[i as int])));
                }
            }
            i = i + 1;
        }
        if selected.len() == 0 {
            return Ok(None);
        }
        let mut ledger = match self.ledger.take() {
            Some(l) => l,
            None => {
                return Err(NodeError::NotInitialized);
            },
        };
        let ghost l0 = ledger;
        let parents = ledger.dag().tips();
        let res = ledger.insert(parents, 1, selected.as_slice());
        self.ledger = Some(ledger);
        let out = match res {
            Ok(b) => {
                self.mempool.remove_all(selected_ids.as_slice());
                Ok(Some(b))
            },
            Err(e) => Err(NodeError::Insert(e)),
        };
        proof {
            let sel = views(selected@);
            assert(old(self).ledger_view() == Some(l0));
            assert(self.ledger_view() == Some(ledger));
            assert(sel == select_txs(state_of(l0), old(self).pending(), l0.subsidy_view(), old(self).pending().len() as int).1);
            assert(insert_outcome(l0, ledger, l0.dag_view().tips_view(), 1, sel, res) && match res {
                Ok(b) => out == Ok::<Option<BlockId>, NodeError>(Some(b)) && self.pending() == keep_unlisted(
                    old(self).pending(),
                    ids_of(sel),
                    old(self).pending().len() as int,
                ),
                Err(e) => out == Err::<Option<BlockId>, NodeError>(NodeError::Insert(e)) && self.pending()
                    == old(self).pending(),
            });
        }
        out
    }

    /// The gossip record for a block, if present and its payload decodes.
    pub fn block_record(&self, id: &BlockId) -> (r: Option<BlockRecord>)
        requires
            self.wf(),
        ensures
            match self.ledger_view() {
                None => r is None,
                Some(l) => {
                    let d = l.dag_view();
                    if d.has(*id) && decoded(payload_of(d, *id)) is Some {
                        r matches Some(rec) && record_of(d, *id, rec)
                    } else {
                        r is None
                    }
                },
            },
    {
        let ledger = match &self.ledger {
            Some(l) => l,
            None => {
                return None;
            },
        };
        let block = match ledger.dag().block(id) {
            Some(b) => b,
            None => {
                return None;
            },
        };
        let txs = match decode_block_payload(block.payload()) {
            Ok(v) => v,
            Err(_) => {
                return None;
            },
        };
        let parents = copy_ids(block.parents());
        Some(BlockRecord { parents, work: block.work(), txs })
    }

    /// Every non-genesis block as a gossip record, in linearization order:
    /// what a peer needs to catch up (genesis is shared out of band).
    /// Suitable to feed, in order, into [`Node::receive_block`] on another
    /// node.
    pub fn export(&self) -> (r: Vec<BlockRecord>)
        requires
            self.wf(),
        ensures
            match self.ledger_view() {
                None => r@.len() == 0,
                Some(l) => {
                    let d = l.dag_view();
                    let e = export_ids(d, d.linearization(), d.ids().len() as int);
                    &&& r@.len() == e.len()
                    &&& forall|j: int| 0 <= j < e.len() ==> record_of(d, #[trigger] e[j], r@[j])
                },
            },
    {
        let ledger = match &self.ledger {
            Some(l) => l,
            None => {
                return Vec::new();
            },
        };
        let ghost d = ledger.dag_view();
        let order = ledger.dag().linearize();
        let genesis = ledger.genesis();
        let mut out: Vec<BlockRecord> = Vec::new();
        let mut i: usize = 0;
        while i < order.len()
            invariant
                self.wf(),
                self.ledger_view() == Some(*ledger),
                d == ledger.dag_view(),
                genesis == d.ids()[0],
                order@ == d.linearization(),
                order@.len() == d.ids().len(),
                i <= order@.len(),
                out@.len() == export_ids(d, order@, i as int).len(),
                forall|j: int| 0 <= j < out@.len() ==> record_of(d, #[trigger] export_ids(d, order@, i as int)[j], out@[j]),
            decreases order@.len() - i,
        {
            let id = order[i];
            let ghost before = export_ids(d, order@, i as int);
            if id.0 != genesis.0 {
                match self.block_record(&id) {
                    Some(rec) => {
                        out.push(rec);
                        proof {
                            assert(export_ids(d, order@, i + 1) == before.push(id));
                            assert forall|j: int| 0 <= j < out@.len() implies record_of(d, #[trigger] export_ids(d, order@, i + 1)[j], out@[j]) by {
                                if j < before.len() {
                                    assert(export_ids(d, order@, i + 1)[j] == before[j]);
                                }
                            }
                        }
                    },
                    None => {
                        proof {
                            assert(export_ids(d, order@, i + 1) == before);
                        }
                    },
                }
            } else {
                proof {
                    assert(id == d.ids()[0]);
                    assert(export_ids(d, order@, i + 1) == before);
                }
            }
            i = i + 1;
        }
        out
    }

    /// Add a block received from a peer. Idempotent: a block already present
    /// returns its id rather than an error. The block's parents must already
    /// be present (feed records in topological order).
    pub fn receive_block(&mut self, record: BlockRecord) -> (r: Result<BlockId, NodeError>)
        requires
            old(self).wf(),
        ensures
            final(self).wf(),
            final(self).origin_view() == old(self).origin_view(),
            final(self).pulses_view() == old(self).pulses_view(),
            final(self).pending() == old(self).pending(),
            received(*old(self), *final(self), record, r),
    {
        let ghost rp = record.parents@;
        let ghost rt = views(record.txs@);
        let BlockRecord { parents, work, txs } = record;
        let mut ledger = match self.ledger.take() {
            Some(l) => l,
            None => {
                return Err(NodeError::NotInitialized);
            },
        };
        let ghost l0 = ledger;
        let ghost ps = parents@;
        let res = ledger.insert(parents, work, txs.as_slice());
        self.ledger = Some(ledger);
        let out = match res {
            Ok(id) => Ok(id),
            Err(LedgerInsertError::Dag(DagError::DuplicateBlock(id))) => Ok(id),
            Err(e) => Err(NodeError::Insert(e)),
        };
        proof {
            assert(rp == ps && rt == views(txs@));
            assert(old(self).ledger_view() == Some(l0));
            assert(self.ledger_view() == Some(ledger));
            assert(insert_outcome(l0, ledger, rp, work, rt, res) && match res {
                Ok(id) => out == Ok::<BlockId, NodeError>(id),
                Err(LedgerInsertError::Dag(DagError::DuplicateBlock(id))) => out == Ok::<BlockId, NodeError>(id),
                Err(e) => out == Err::<BlockId, NodeError>(NodeError::Insert(e)),
            });
        }
        out
    }

    /// Declare the node's origin, replacing any earlier one.
    pub fn set_origin(&mut self, origin: Origin)
        requires
            old(self).wf(),
        ensures
            final(self).wf(),
            final(self).origin_view() == Some(origin),
            final(self).ledger_view() == old(self).ledger_view(),
            final(self).pending() == old(self).pending(),
            final(self).pulses_view() == old(self).pulses_view(),
    {
        self.origin = Some(origin);
    }

    /// The origin the node declares, if any.
    pub fn origin(&self) -> (r: Option<Origin>)
        ensures
            r == self.origin_view(),
    {
        self.origin
    }

    /// Count one pulse from a peer that announced `origin`.
    pub fn observe_origin(&mut self, origin: Origin)
        requires
            old(self).wf(),
        ensures
            final(self).wf(),
            final(self).pulses_view() == observed(old(self).pulses_view(), origin),
            final(self).origin_view() == old(self).origin_view(),
            final(self).ledger_view() == old(self).ledger_view(),
            final(self).pending() == old(self).pending(),
    {
        let ghost p = self.pulses@;
        let code = origin.as_bytes();
        let mut j: usize = 0;
        while j < self.pulses.len()
            invariant
                self.pulses@ == p,
                p == old(self).pulses_view(),
                distinct_letters(p),
                self.origin == old(self).origin_view(),
                self.ledger == old(self).ledger_view(),
                self.mempool.view() == old(self).pending(),
                old(self).wf(),
                code@ == origin.letters(),
                j <= p.len(),
                forall|t: int| 0 <= t < j ==> (#[trigger] p[t]).0.letters() != origin.letters(),
            decreases p.len() - j,
        {
            let (o, c) = self.pulses[j];
            let b = o.as_bytes();
            if b[0] == code[0] && b[1] == code[1] && b[2] == code[2] {
                proof {
                    o.lemma_letters_len();
                    origin.lemma_letters_len();
                    assert(b@ =~= code@);
                    assert(p[j as int].0.letters() == origin.letters());
                    let k = choose|k: int| 0 <= k < p.len() && (#[trigger] p[k]).0.letters() == origin.letters();
                    assert(k == j) by {
                        if k < j {
                            assert(p[k].0.letters() != p[j as int].0.letters());
                        } else if k > j {
                            assert(p[j as int].0.letters() != p[k].0.letters());
                        }
                    }
                }
                let next = if c < u64::MAX { c + 1 } else { c };
                self.pulses.set(j, (o, next));
                proof {
                    assert forall|a: int, b2: int| 0 <= a < b2 < self.pulses@.len() implies (#[trigger] self.pulses@[a]).0.letters()
                        != (#[trigger] self.pulses@[b2]).0.letters() by {
                        assert(p[a].0.letters() != p[b2].0.letters());
                        assert(self.pulses@[a].0 == p[a].0);
                        assert(self.pulses@[b2].0 == p[b2].0);
                    }
                }
                return;
            }
            proof {
                assert(o.letters() != origin.letters()) by {
                    if o.letters() == origin.letters() {
                        o.lemma_letters_len();
                        assert(b@[0] == code@[0] && b@[1] == code@[1] && b@[2] == code@[2]);
                    }
                }
            }
            j = j + 1;
        }
        self.pulses.push((origin, 1));
        proof {
            assert forall|a: int, b2: int| 0 <= a < b2 < self.pulses@.len() implies (#[trigger] self.pulses@[a]).0.letters()
                != (#[trigger] self.pulses@[b2]).0.letters() by {
                if b2 < p.len() {
                    assert(p[a].0.letters() != p[b2].0.letters());
                }
            }
        }
    }

    /// The origins seen announced by peers with their pulse counts: most
    /// pulses first, ties by code.
    pub fn origin_pulses(&self) -> (r: Vec<(Origin, u64)>)
        requires
            self.wf(),
        ensures
            r@.len() == self.pulses_view().len(),
            forall|x: (Origin, u64)| r@.contains(x) <==> self.pulses_view().contains(x),
            forall|i: int, j: int| 0 <= i < j < r@.len() ==> pulse_lt(#[trigger] r@[i], #[trigger] r@[j]),
    {
        let ghost p = self.pulses@;
        let mut r: Vec<(Origin, u64)> = Vec::new();
        let mut j: usize = 0;
        while j < self.pulses.len()
            invariant
                self.pulses@ == p,
                distinct_letters(p),
                j <= p.len(),
                r@.len() == j,
                forall|x: (Origin, u64)| r@.contains(x) <==> p.subrange(0, j as int).contains(x),
                forall|a: int, b: int| 0 <= a < b < r@.len() ==> pulse_lt(#[trigger] r@[a], #[trigger] r@[b]),
            decreases p.len() - j,
        {
            let x = self.pulses[j];
            // Every listed entry counts another origin.
            proof {
                assert forall|t: int| 0 <= t < r@.len() implies (#[trigger] r@[t]).0.letters() != x.0.letters() by {
                    assert(r@.contains(r@[t]));
                    assert(p.subrange(0, j as int).contains(r@[t]));
                    let u = choose|u: int| 0 <= u < j && p.subrange(0, j as int)[u] == r@[t];
                    assert(p[u] == r@[t]);
                }
            }
            let mut pos: usize = 0;
            while pos < r.len() && !pulse_before(x, r[pos])
                invariant
                    pos <= r@.len(),
                    forall|t: int| 0 <= t < r@.len() ==> (#[trigger] r@[t]).0.letters() != x.0.letters(),
                    forall|t: int| 0 <= t < pos ==> pulse_lt(#[trigger] r@[t], x),
                decreases r@.len() - pos,
            {
                proof {
                    lemma_pulse_total(x, r@[pos as int]);
                }
                pos = pos + 1;
            }
            let ghost before = r@;
            r.insert(pos, x);
            proof {
                assert forall|t: int| 0 <= t < pos implies #[trigger] r@[t] == before[t] by {}
                assert(r@[pos as int] == x);
                assert forall|t: int| pos < t < r@.len() implies #[trigger] r@[t] == before[t - 1] by {}
                if pos < before.len() {
                    lemma_pulse_total(x, before[pos as int]);
                }
                assert(p.subrange(0, j + 1) =~= p.subrange(0, j as int).push(x));
                assert forall|y: (Origin, u64)| r@.contains(y) <==> p.subrange(0, j + 1).contains(y) by {
                    if r@.contains(y) {
                        let t = choose|t: int| 0 <= t < r@.len() && r@[t] == y;
                        if t < pos || t > pos {
                            let u = if t < pos { t } else { t - 1 };
                            assert(before[u] == y);
                            assert(before.contains(y));
                            assert(p.subrange(0, j as int).contains(y));
                            let v = choose|v: int| 0 <= v < j && p.subrange(0, j as int)[v] == y;
                            assert(p.subrange(0, j + 1)[v] == y);
                        } else {
                            assert(y == x);
                            assert(p.subrange(0, j + 1)[j as int] == x);
                        }
                    }
                    if p.subrange(0, j + 1).contains(y) {
                        if y == x {
                            assert(r@[pos as int] == x);
                        } else {
                            assert(p.subrange(0, j as int).contains(y));
                            assert(before.contains(y));
                            let t = choose|t: int| 0 <= t < before.len() && before[t] == y;
                            if t < pos {
                                assert(r@[t] == y);
                            } else {
                                assert(r@[t + 1] == y);
                            }
                        }
                    }
                }
                assert forall|a: int, b: int| 0 <= a < b < r@.len() implies pulse_lt(#[trigger] r@[a], #[trigger] r@[b]) by {
                    if b < pos {
                        assert(pulse_lt(before[a], before[b]));
                    } else if b == pos {
                        assert(pulse_lt(before[a], x));
                    } else if a < pos {
                        assert(pulse_lt(before[a], x));
                        assert(pulse_lt(x, before[pos as int]));
                        if pos < b - 1 {
                            assert(pulse_lt(before[pos as int], before[b - 1]));
                            lemma_pulse_trans(x, before[pos as int], before[b - 1]);
                        }
                        lemma_pulse_trans(before[a], x, before[b - 1]);
                    } else if a == pos {
                        if pos < b - 1 {
                            assert(pulse_lt(before[pos as int], before[b - 1]));
                            lemma_pulse_trans(x, before[pos as int], before[b - 1]);
                        }
                    } else {
                        assert(pulse_lt(before[a - 1], before[b - 1]));
                    }
                }
            }
            j = j + 1;
        }
        proof {
            assert(p.subrange(0, p.len() as int) =~= p);
        }
        r
    }

    /// The snapshot of the node's ledger (see [`Ledger::write_snapshot`]).
    pub fn snapshot(&self) -> (r: Result<Vec<u8>, NodeError>)
        requires
            self.wf(),
        ensures
            match self.ledger_view() {
                None => r matches Err(NodeError::NotInitialized),
                Some(l) => r matches Ok(bytes) && bytes@ == snapshot_bytes(ledger_snap(l)) && snap_fits(ledger_snap(l)),
            },
    {
        match &self.ledger {
            Some(ledger) => Ok(ledger.write_snapshot()),
            None => Err(NodeError::NotInitialized),
        }
    }

    /// Replace the node's ledger with the one the snapshot `bytes` loads
    /// (see [`Ledger::read_snapshot`]); the mempool is kept. On failure the
    /// node is unchanged.
    pub fn restore(&mut self, bytes: &[u8]) -> (r: Result<(), NodeError>)
        requires
            old(self).wf(),
        ensures
            final(self).wf(),
            restore_outcome(*old(self), *final(self), bytes@, r),
    {
        match Ledger::read_snapshot(bytes) {
            Ok(ledger) => {
                self.ledger = Some(ledger);
                Ok(())
            },
            Err(e) => Err(NodeError::Snapshot(e)),
        }
    }
}

impl Default for Node {
    /// A fresh node with no ledger yet.
    fn default() -> (r: Node)
        ensures
            r.wf(),
            r.ledger_view() is None,
            r.pending() == Seq::<TxView>::empty(),
            r.origin_view() is None,
            r.pulses_view() == Seq::<(Origin, u64)>::empty(),
    {
        Node::new()
    }
}

/// A copy of a list of ids.
fn copy_ids(s: &[BlockId]) -> (r: Vec<BlockId>)
    ensures
        r@ == s@,
{
    let mut r: Vec<BlockId> = Vec::new();
    let mut i: usize = 0;
    while i < s.len()
        invariant
            i <= s@.len(),
            r@ == s@.subrange(0, i as int),
        decreases s@.len() - i,
    {
        r.push(s[i]);
        proof {
            assert(r@ =~= s@.subrange(0, i + 1));
        }
        i = i + 1;
    }
    proof {
        assert(r@ =~= s@);
    }
    r
}

} // verus!
