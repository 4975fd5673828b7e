//! The node's line protocol: one command line in, one reply out. Replies
//! start with `ok` or `err`. Saving and loading a snapshot need a file, so
//! for those the outcome asks the caller to write or read one.
use vstd::prelude::*;
use vstd::string::StringExecFns;
use vstd::string::StringSliceAdditionalSpecFns;

use crate::block::BlockId;
use crate::command::{command_of, parse_command, words, Command, CommandError, CommandView};
use crate::dag::DagError;
use crate::ledger::{LedgerError, LedgerInsertError};
use crate::node::{
    genesis_outcome, pool_outcome, produce_outcome, restore_outcome, seed_address, send_outcome, state_of, Node,
    NodeError, Sent,
};
use crate::origin::{is_letter, upper, Origin};
use crate::snapshot::{ledger_snap, snapshot_bytes, SnapshotError};
use crate::text::{dec_chars, hex_bytes, hex_word, push_dec, push_hex, push_hex_bytes};
use crate::tx::{address_bytes, txid_bytes, Address, OutPoint, TxId};
use crate::utxo::map_balance;

verus! {

/// The command summary `help` replies with.
pub const HELP: &'static str = "commands:
  genesis K SUBSIDY AMOUNT FOUNDER  bring up the ledger; mint AMOUNT to actor FOUNDER
  send FROM AMOUNT TO               transfer now, in a block of its own
  pool FROM AMOUNT TO               queue a transfer in the mempool
  pending                           number of queued transactions
  produce                           pack the mempool into a block
  balance SEED                      an actor's balance
  tip                               the selected tip
  tips                              every tip
  len                               number of blocks
  save PATH                         write a snapshot of the ledger
  load PATH                         replace the ledger with a snapshot
  origin [ISO3]                     show, or declare, this node's origin
  origins                           origins announced by peers, with pulse counts
  help                              this text
  quit | exit                       leave";

/// What a command line comes to.
pub enum Outcome {
    /// The reply.
    Reply(String),
    /// Write `bytes` to the file `path`.
    Save { path: Vec<u8>, bytes: Vec<u8> },
    /// Read the file `path` and pass its bytes to [`load_reply`].
    Load { path: Vec<u8> },
}

// ---------------------------------------------------------------------------
// The texts.

/// A successful reply.
pub open spec fn ok_text(t: Seq<char>) -> Seq<char> {
    "ok "@ + t
}

/// A failed reply.
pub open spec fn err_text(t: Seq<char>) -> Seq<char> {
    "err "@ + t
}

/// A block id: sixteen hexadecimal digits.
pub open spec fn id_text(id: BlockId) -> Seq<char> {
    hex_word(id.0 as nat, 16)
}

/// A transaction id: its 32 bytes in hexadecimal.
pub open spec fn txid_text(t: TxId) -> Seq<char> {
    hex_bytes(txid_bytes(t))
}

/// An outpoint: the transaction id, a colon and the output index.
pub open spec fn outpoint_text(op: OutPoint) -> Seq<char> {
    txid_text(op.txid) + ":"@ + dec_chars(op.index as nat)
}

/// Why a command line was refused.
pub open spec fn command_error_text(e: CommandError) -> Seq<char> {
    match e {
        CommandError::Empty => "empty command (try `help`)"@,
        CommandError::Unknown => "unknown command (try `help`)"@,
        CommandError::Arity { min, max } => if min == max {
            "expected "@ + dec_chars(min as nat) + " arguments (try `help`)"@
        } else {
            "expected "@ + dec_chars(min as nat) + " or "@ + dec_chars(max as nat) + " arguments (try `help`)"@
        },
        CommandError::NotANumber => "arguments must be unsigned decimal numbers that fit"@,
    }
}

/// Why transactions did not apply.
pub open spec fn ledger_error_text(e: LedgerError) -> Seq<char> {
    match e {
        LedgerError::MissingInput(op) => "missing/spent input "@ + outpoint_text(op),
        LedgerError::DuplicateInput(op) => "duplicate input "@ + outpoint_text(op),
        LedgerError::OutputAlreadyExists(op) => "output already exists "@ + outpoint_text(op),
        LedgerError::BadSignature { tx, input } => "bad signature on input "@ + dec_chars(input as nat) + " of "@
            + txid_text(tx),
        LedgerError::ValueNotConserved { tx, inputs, outputs } => "value not conserved in "@ + txid_text(tx) + ": in "@
            + dec_chars(inputs as nat) + " < out "@ + dec_chars(outputs as nat),
        LedgerError::ValueOverflow => "value sum overflowed"@,
        LedgerError::EmptyTransaction(tx) => "empty transaction "@ + txid_text(tx),
        LedgerError::ZeroValueOutput(tx) => "zero-value output in "@ + txid_text(tx),
        LedgerError::MisplacedCoinbase(tx) => "misplaced coinbase "@ + txid_text(tx),
        LedgerError::CoinbaseOverspend { claimed, allowed } => "coinbase overspend: claimed "@ + dec_chars(
            claimed as nat,
        ) + " > allowed "@ + dec_chars(allowed as nat),
        LedgerError::Payload(_) => "payload decode: not a list of transactions"@,
    }
}

/// Why the DAG refused a block.
pub open spec fn dag_error_text(e: DagError) -> Seq<char> {
    match e {
        DagError::DuplicateBlock(id) => "duplicate block "@ + id_text(id),
        DagError::MissingParent(id) => "missing parent "@ + id_text(id),
        DagError::NoParents(id) => "non-genesis block "@ + id_text(id) + " has no parents"@,
        DagError::GenesisAlreadySet => "genesis already set"@,
        DagError::InvalidBlock { id, reason } => "block "@ + id_text(id) + " rejected by validator: "@ + reason@,
    }
}

/// Why a block could not be added.
pub open spec fn insert_error_text(e: LedgerInsertError) -> Seq<char> {
    match e {
        LedgerInsertError::Dag(d) => dag_error_text(d),
        LedgerInsertError::Ledger(l) => ledger_error_text(l),
    }
}

/// Why a snapshot could not be loaded.
pub open spec fn snapshot_error_text(e: SnapshotError) -> Seq<char> {
    match e {
        SnapshotError::Malformed => "not a snapshot"@,
        SnapshotError::NoGenesis => "no genesis block"@,
        SnapshotError::Genesis(l) => "genesis invalid: "@ + ledger_error_text(l),
        SnapshotError::Block(i, b) => "block "@ + dec_chars(i as nat) + ": "@ + insert_error_text(b),
    }
}

/// Why a node operation failed.
pub open spec fn node_error_text(e: NodeError) -> Seq<char> {
    match e {
        NodeError::NotInitialized => "no ledger yet (run `genesis` first)"@,
        NodeError::AlreadyInitialized => "already initialised"@,
        NodeError::ZeroAmount => "amount must be non-zero"@,
        NodeError::InsufficientFunds => "no single output covers the amount"@,
        NodeError::UnexpectedCoinbase => "coinbase transactions are not accepted"@,
        NodeError::Ledger(l) => "genesis invalid: "@ + ledger_error_text(l),
        NodeError::Insert(i) => insert_error_text(i),
        NodeError::Io(s) => "io error: "@ + s@,
        NodeError::Snapshot(s) => "bad snapshot: "@ + snapshot_error_text(s),
    }
}

/// The reply to `genesis`.
pub open spec fn genesis_reply(r: Result<(BlockId, Address), NodeError>) -> Seq<char> {
    match r {
        Ok((g, a)) => ok_text("genesis "@ + id_text(g) + " founder "@ + hex_bytes(address_bytes(a))),
        Err(e) => err_text(node_error_text(e)),
    }
}

/// The reply to `send`.
pub open spec fn send_reply(r: Result<Sent, NodeError>) -> Seq<char> {
    match r {
        Ok(s) => ok_text("block "@ + id_text(s.block) + " tx "@ + txid_text(s.tx)),
        Err(e) => err_text(node_error_text(e)),
    }
}

/// The reply to `pool`.
pub open spec fn pool_reply(r: Result<TxId, NodeError>) -> Seq<char> {
    match r {
        Ok(t) => ok_text("pooled "@ + txid_text(t)),
        Err(e) => err_text(node_error_text(e)),
    }
}

/// The reply to `produce`.
pub open spec fn produce_reply(r: Result<Option<BlockId>, NodeError>) -> Seq<char> {
    match r {
        Ok(Some(id)) => ok_text("block "@ + id_text(id)),
        Ok(None) => ok_text("nothing to produce"@),
        Err(e) => err_text(node_error_text(e)),
    }
}

/// The reply to loading a snapshot.
pub open spec fn load_text(r: Result<(), NodeError>) -> Seq<char> {
    match r {
        Ok(()) => ok_text("loaded"@),
        Err(e) => err_text(node_error_text(e)),
    }
}

/// The tips, separated by spaces.
pub open spec fn ids_text(ids: Seq<BlockId>) -> Seq<char>
    decreases ids.len(),
{
    if ids.len() == 0 {
        Seq::empty()
    } else if ids.len() == 1 {
        id_text(ids[0])
    } else {
        ids_text(ids.drop_last()) + " "@ + id_text(ids.last())
    }
}

/// The pulse counts, each as a space, the code, a space and the count.
pub open spec fn pulses_text(p: Seq<(Origin, u64)>) -> Seq<char>
    decreases p.len(),
{
    if p.len() == 0 {
        Seq::empty()
    } else {
        pulses_text(p.drop_last()) + " "@ + p.last().0.text() + " "@ + dec_chars(p.last().1 as nat)
    }
}

/// Why an origin was refused.
pub open spec fn origin_error_text() -> Seq<char> {
    "origin must be a 3-letter ISO 3166-1 alpha-3 code (e.g. HRV)"@
}

/// `code` is three ASCII letters.
pub open spec fn origin_code_ok(code: Seq<u8>) -> bool {
    code.len() == 3 && is_letter(code[0]) && is_letter(code[1]) && is_letter(code[2])
}

// ---------------------------------------------------------------------------
// What a command does.

/// `out` is the reply `t`.
pub open spec fn reply_is(out: Outcome, t: Seq<char>) -> bool {
    out matches Outcome::Reply(s) && s@ == t
}

/// `old` and `new` hold the same ledger, mempool, origin and pulses.
pub open spec fn same_node(old: Node, new: Node) -> bool {
    &&& new.ledger_view() == old.ledger_view()
    &&& new.pending() == old.pending()
    &&& new.origin_view() == old.origin_view()
    &&& new.pulses_view() == old.pulses_view()
}

/// `s` lists the pulse counts `p` most pulses first, ties by code.
pub open spec fn sorted_pulses(p: Seq<(Origin, u64)>, s: Seq<(Origin, u64)>) -> bool {
    &&& s.len() == p.len()
    &&& forall|x: (Origin, u64)| s.contains(x) <==> p.contains(x)
    &&& forall|i: int, j: int| 0 <= i < j < s.len() ==> crate::node::pulse_lt(#[trigger] s[i], #[trigger] s[j])
}

/// `genesis K SUBSIDY AMOUNT FOUNDER` takes `old` to `new` and replies `out`.
#[verifier::opaque]
pub open spec fn genesis_line(old: Node, new: Node, k: u16, subsidy: u64, amount: u64, founder: u64, out: Outcome) -> bool {
    exists|r: Result<(BlockId, Address), NodeError>| #[trigger] genesis_outcome(old, new, k, subsidy, amount, founder, r) && reply_is(out, genesis_reply(r))
}

/// `send FROM AMOUNT TO` takes `old` to `new` and replies `out`.
#[verifier::opaque]
pub open spec fn send_line(old: Node, new: Node, from: u64, amount: u64, to: u64, out: Outcome) -> bool {
    exists|r: Result<Sent, NodeError>| #[trigger] send_outcome(old, new, from, amount, to, r) && reply_is(out, send_reply(r))
}

/// `pool FROM AMOUNT TO` takes `old` to `new` and replies `out`.
#[verifier::opaque]
pub open spec fn pool_line(old: Node, new: Node, from: u64, amount: u64, to: u64, out: Outcome) -> bool {
    exists|r: Result<TxId, NodeError>| #[trigger] pool_outcome(old, new, from, amount, to, r) && reply_is(out, pool_reply(r))
}

/// `produce` takes `old` to `new` and replies `out`.
#[verifier::opaque]
pub open spec fn produce_line(old: Node, new: Node, out: Outcome) -> bool {
    exists|r: Result<Option<BlockId>, NodeError>| #[trigger] produce_outcome(old, new, r) && reply_is(out, produce_reply(r))
}

/// `new` and `out` are what the command line parsed as `c` does to `old`.
pub open spec fn line_outcome(old: Node, new: Node, c: Result<CommandView, CommandError>, out: Outcome) -> bool {
    match c {
        Err(e) => same_node(old, new) && reply_is(out, err_text(command_error_text(e))),
        Ok(cv) => match cv {
            CommandView::Help => same_node(old, new) && reply_is(out, HELP@),
            CommandView::Quit => same_node(old, new) && reply_is(out, ok_text("bye"@)),
            CommandView::Genesis { k, subsidy, amount, founder } => genesis_line(old, new, k, subsidy, amount, founder, out),
            CommandView::Send { from, amount, to } => send_line(old, new, from, amount, to, out),
            CommandView::Pool { from, amount, to } => pool_line(old, new, from, amount, to, out),
            CommandView::Produce => produce_line(old, new, out),
            CommandView::Pending => same_node(old, new) && reply_is(out, ok_text(dec_chars(old.pending().len()))),
            CommandView::Balance { seed } => same_node(old, new) && reply_is(
                out,
                match old.ledger_view() {
                    None => err_text(node_error_text(NodeError::NotInitialized)),
                    Some(l) => ok_text(dec_chars(map_balance(state_of(l), seed_address(seed)) as nat)),
                },
            ),
            CommandView::Tip => same_node(old, new) && match old.ledger_view() {
                None => reply_is(out, err_text(node_error_text(NodeError::NotInitialized))),
                Some(l) => exists|t: BlockId|
                    #[trigger] l.dag_view().is_tip_spec(t) && (forall|u: BlockId|
                        #[trigger] l.dag_view().is_tip_spec(u) ==> !l.dag_view().chain_key_lt(t, u)) && reply_is(
                        out,
                        ok_text(id_text(t)),
                    ),
            },
            CommandView::Tips => same_node(old, new) && reply_is(
                out,
                match old.ledger_view() {
                    None => err_text(node_error_text(NodeError::NotInitialized)),
                    Some(l) => ok_text(ids_text(l.dag_view().tips_view())),
                },
            ),
            CommandView::Len => same_node(old, new) && reply_is(
                out,
                match old.ledger_view() {
                    None => err_text(node_error_text(NodeError::NotInitialized)),
                    Some(l) => ok_text(dec_chars(l.dag_view().ids().len())),
                },
            ),
            CommandView::Save { path } => same_node(old, new) && match old.ledger_view() {
                None => reply_is(out, err_text(node_error_text(NodeError::NotInitialized))),
                Some(l) => out matches Outcome::Save { path: p, bytes } && p@ == path && bytes@ == snapshot_bytes(
                    ledger_snap(l),
                ),
            },
            CommandView::Load { path } => same_node(old, new) && (out matches Outcome::Load { path: p } && p@ == path),
            CommandView::Origin { code: None } => same_node(old, new) && reply_is(
                out,
                match old.origin_view() {
                    None => ok_text("none"@),
                    Some(o) => ok_text(o.text()),
                },
            ),
            CommandView::Origin { code: Some(code) } => if origin_code_ok(code) {
                &&& new.ledger_view() == old.ledger_view()
                &&& new.pending() == old.pending()
                &&& new.pulses_view() == old.pulses_view()
                &&& new.origin_view() matches Some(o) && o.letters() == seq![upper(code[0]), upper(code[1]), upper(code[2])]
                    && reply_is(out, ok_text(o.text()))
            } else {
                same_node(old, new) && reply_is(out, err_text(origin_error_text()))
            },
            CommandView::Origins => same_node(old, new) && exists|s: Seq<(Origin, u64)>|
                #[trigger] sorted_pulses(old.pulses_view(), s) && reply_is(out, "ok"@ + pulses_text(s)),
        },
    }
}

// ---------------------------------------------------------------------------
// Rendering.

/// Append a block id.
fn push_id(out: &mut String, id: BlockId)
    ensures
        final(out)@ == old(out)@ + id_text(id),
{
    push_hex(out, id.0, 16);
}

/// Append a transaction id.
fn push_txid(out: &mut String, t: &TxId)
    ensures
        final(out)@ == old(out)@ + txid_text(*t),
{
    let b = t.to_bytes();
    push_hex_bytes(out, b.as_slice());
}

/// Append an outpoint.
fn push_outpoint(out: &mut String, op: &OutPoint)
    ensures
        final(out)@ == old(out)@ + outpoint_text(*op),
{
    push_txid(out, &op.txid);
    out.append(":");
    push_dec(out, op.index as u128);
    proof {
        assert(final(out)@ =~= old(out)@ + outpoint_text(*op));
    }
}

/// Append why a command line was refused.
fn push_command_error(out: &mut String, e: CommandError)
    ensures
        final(out)@ == old(out)@ + command_error_text(e),
{
    match e {
        CommandError::Empty => out.append("empty command (try `help`)"),
        CommandError::Unknown => out.append("unknown command (try `help`)"),
        CommandError::Arity { min, max } => {
            out.append("expected ");
            push_dec(out, min as u128);
            if min != max {
                out.append(" or ");
                push_dec(out, max as u128);
            }
            out.append(" arguments (try `help`)");
        },
        CommandError::NotANumber => out.append("arguments must be unsigned decimal numbers that fit"),
    }
    proof {
        assert(final(out)@ =~= old(out)@ + command_error_text(e));
    }
}

/// Append why transactions did not apply.
fn push_ledger_error(out: &mut String, e: &LedgerError)
    ensures
        final(out)@ == old(out)@ + ledger_error_text(*e),
{
    match e {
        LedgerError::MissingInput(op) => {
            out.append("missing/spent input ");
            push_outpoint(out, op);
        },
        LedgerError::DuplicateInput(op) => {
            out.append("duplicate input ");
            push_outpoint(out, op);
        },
        LedgerError::OutputAlreadyExists(op) => {
            out.append("output already exists ");
            push_outpoint(out, op);
        },
        LedgerError::BadSignature { tx, input } => {
            out.append("bad signature on input ");
            push_dec(out, *input as u128);
            out.append(" of ");
            push_txid(out, tx);
        },
        LedgerError::ValueNotConserved { tx, inputs, outputs } => {
            out.append("value not conserved in ");
            push_txid(out, tx);
            out.append(": in ");
            push_dec(out, *inputs as u128);
            out.append(" < out ");
            push_dec(out, *outputs as u128);
        },
        LedgerError::ValueOverflow => out.append("value sum overflowed"),
        LedgerError::EmptyTransaction(tx) => {
            out.append("empty transaction ");
            push_txid(out, tx);
        },
        LedgerError::ZeroValueOutput(tx) => {
            out.append("zero-value output in ");
            push_txid(out, tx);
        },
        LedgerError::MisplacedCoinbase(tx) => {
            out.append("misplaced coinbase ");
            push_txid(out, tx);
        },
        LedgerError::CoinbaseOverspend { claimed, allowed } => {
            out.append("coinbase overspend: claimed ");
            push_dec(out, *claimed as u128);
            out.append(" > allowed ");
            push_dec(out, *allowed as u128);
        },
        LedgerError::Payload(_) => out.append("payload decode: not a list of transactions"),
    }
    proof {
        assert(final(out)@ =~= old(out)@ + ledger_error_text(*e));
    }
}

/// Append why the DAG refused a block.
fn push_dag_error(out: &mut String, e: &DagError)
    ensures
        final(out)@ == old(out)@ + dag_error_text(*e),
{
    match e {
        DagError::DuplicateBlock(id) => {
            out.append("duplicate block ");
            push_id(out, *id);
        },
        DagError::MissingParent(id) => {
            out.append("missing parent ");
            push_id(out, *id);
        },
        DagError::NoParents(id) => {
            out.append("non-genesis block ");
            push_id(out, *id);
            out.append(" has no parents");
        },
        DagError::GenesisAlreadySet => out.append("genesis already set"),
        DagError::InvalidBlock { id, reason } => {
            out.append("block ");
            push_id(out, *id);
            out.append(" rejected by validator: ");
            out.append(reason.as_str());
        },
    }
    proof {
        assert(final(out)@ =~= old(out)@ + dag_error_text(*e));
    }
}

/// Append why a block could not be added.
fn push_insert_error(out: &mut String, e: &LedgerInsertError)
    ensures
        final(out)@ == old(out)@ + insert_error_text(*e),
{
    match e {
        LedgerInsertError::Dag(d) => push_dag_error(out, d),
        LedgerInsertError::Ledger(l) => push_ledger_error(out, l),
    }
}

/// Append why a snapshot could not be loaded.
fn push_snapshot_error(out: &mut String, e: &SnapshotError)
    ensures
        final(out)@ == old(out)@ + snapshot_error_text(*e),
{
    match e {
        SnapshotError::Malformed => out.append("not a snapshot"),
        SnapshotError::NoGenesis => out.append("no genesis block"),
        SnapshotError::Genesis(l) => {
            out.append("genesis invalid: ");
            push_ledger_error(out, l);
        },
        SnapshotError::Block(i, b) => {
            out.append("block ");
            push_dec(out, *i as u128);
            out.append(": ");
            push_insert_error(out, b);
        },
    }
    proof {
        assert(final(out)@ =~= old(out)@ + snapshot_error_text(*e));
    }
}

/// Append why a node operation failed.
fn push_node_error(out: &mut String, e: &NodeError)
    ensures
        final(out)@ == old(out)@ + node_error_text(*e),
{
    match e {
        NodeError::NotInitialized => out.append("no ledger yet (run `genesis` first)"),
        NodeError::AlreadyInitialized => out.append("already initialised"),
        NodeError::ZeroAmount => out.append("amount must be non-zero"),
        NodeError::InsufficientFunds => out.append("no single output covers the amount"),
        NodeError::UnexpectedCoinbase => out.append("coinbase transactions are not accepted"),
        NodeError::Ledger(l) => {
            out.append("genesis invalid: ");
            push_ledger_error(out, l);
        },
        NodeError::Insert(i) => push_insert_error(out, i),
        NodeError::Io(m) => {
            out.append("io error: ");
            out.append(m.as_str());
        },
        NodeError::Snapshot(se) => {
            out.append("bad snapshot: ");
            push_snapshot_error(out, se);
        },
    }
    proof {
        assert(final(out)@ =~= old(out)@ + node_error_text(*e));
    }
}

/// The reply to a failed node operation.
fn error_reply(e: &NodeError) -> (r: String)
    ensures
        r@ == err_text(node_error_text(*e)),
{
    let mut s = String::new();
    s.append("err ");
    push_node_error(&mut s, e);
    s
}

/// A reply that starts with `ok `.
fn ok_start() -> (r: String)
    ensures
        r@ == "ok "@,
{
    let mut s = String::new();
    s.append("ok ");
    s
}

// ---------------------------------------------------------------------------
// Running a command line.

/// `genesis`.
fn run_genesis(node: &mut Node, k: u16, subsidy: u64, amount: u64, founder: u64) -> (out: Outcome)
    requires
        old(node).wf(),
    ensures
        final(node).wf(),
        genesis_line(*old(node), *final(node), k, subsidy, amount, founder, out),
{
    let r = node.genesis(k, subsidy, amount, founder);
    let s = match &r {
        Ok((g, a)) => {
            let mut s = ok_start();
            s.append("genesis ");
            push_id(&mut s, *g);
            s.append(" founder ");
            let ab = a.to_bytes();
            push_hex_bytes(&mut s, ab.as_slice());
            s
        },
        Err(e) => error_reply(e),
    };
    proof {
        reveal(genesis_line);
        assert(s@ =~= genesis_reply(r));
    }
    Outcome::Reply(s)
}

/// `send`.
fn run_send(node: &mut Node, from: u64, amount: u64, to: u64) -> (out: Outcome)
    requires
        old(node).wf(),
    ensures
        final(node).wf(),
        send_line(*old(node), *final(node), from, amount, to, out),
{
    let r = node.send(from, amount, to);
    let s = match &r {
        Ok(sent) => {
            let mut s = ok_start();
            s.append("block ");
            push_id(&mut s, sent.block);
            s.append(" tx ");
            push_txid(&mut s, &sent.tx);
            s
        },
        Err(e) => error_reply(e),
    };
    proof {
        reveal(send_line);
        assert(s@ =~= send_reply(r));
    }
    Outcome::Reply(s)
}

/// `pool`.
fn run_pool(node: &mut Node, from: u64, amount: u64, to: u64) -> (out: Outcome)
    requires
        old(node).wf(),
    ensures
        final(node).wf(),
        pool_line(*old(node), *final(node), from, amount, to, out),
{
    let r = node.pool(from, amount, to);
    let s = match &r {
        Ok(t) => {
            let mut s = ok_start();
            s.append("pooled ");
            push_txid(&mut s, t);
            s
        },
        Err(e) => error_reply(e),
    };
    proof {
        reveal(pool_line);
        assert(s@ =~= pool_reply(r));
    }
    Outcome::Reply(s)
}

/// `produce`.
fn run_produce(node: &mut Node) -> (out: Outcome)
    requires
        old(node).wf(),
    ensures
        final(node).wf(),
        produce_line(*old(node), *final(node), out),
{
    let r = node.produce_block();
    let s = match &r {
        Ok(Some(b)) => {
            let mut s = ok_start();
            s.append("block ");
            push_id(&mut s, *b);
            s
        },
        Ok(None) => {
            let mut s = ok_start();
            s.append("nothing to produce");
            s
        },
        Err(e) => error_reply(e),
    };
    proof {
        reveal(produce_line);
        assert(s@ =~= produce_reply(r));
    }
    Outcome::Reply(s)
}

/// `tips`.
fn run_tips(node: &Node) -> (out: Outcome)
    requires
        node.wf(),
    ensures
        reply_is(
            out,
            match node.ledger_view() {
                None => err_text(node_error_text(NodeError::NotInitialized)),
                Some(l) => ok_text(ids_text(l.dag_view().tips_view())),
            },
        ),
{
    let s = match node.tips() {
        Ok(ts) => {
            let mut s = ok_start();
            let ghost head = s@;
            let mut i: usize = 0;
            proof {
                assert(ts@.subrange(0, 0) =~= Seq::<BlockId>::empty());
                assert(s@ =~= head + ids_text(ts@.subrange(0, 0)));
            }
            while i < ts.len()
                invariant
                    i <= ts@.len(),
                    s@ == head + ids_text(ts@.subrange(0, i as int)),
                decreases ts@.len() - i,
            {
                if i > 0 {
                    s.append(" ");
                }
                push_id(&mut s, ts[i]);
                proof {
                    let t = ts@.subrange(0, i + 1);
                    assert(t.drop_last() =~= ts@.subrange(0, i as int));
                    assert(s@ =~= head + ids_text(t));
                }
                i = i + 1;
            }
            proof {
                assert(ts@.subrange(0, ts@.len() as int) =~= ts@);
            }
            s
        },
        Err(e) => error_reply(&e),
    };
    Outcome::Reply(s)
}

/// `origin CODE`.
fn run_set_origin(node: &mut Node, code: &[u8]) -> (out: Outcome)
    requires
        old(node).wf(),
    ensures
        final(node).wf(),
        if origin_code_ok(code@) {
            &&& final(node).ledger_view() == old(node).ledger_view()
            &&& final(node).pending() == old(node).pending()
            &&& final(node).pulses_view() == old(node).pulses_view()
            &&& final(node).origin_view() matches Some(o) && o.letters() == seq![upper(code@[0]), upper(code@[1]), upper(code@[2])]
                && reply_is(out, ok_text(o.text()))
        } else {
            same_node(*old(node), *final(node)) && reply_is(out, err_text(origin_error_text()))
        },
{
    match Origin::from_bytes(code) {
        Ok(o) => {
            node.set_origin(o);
            let mut s = ok_start();
            s.append(o.as_str());
            Outcome::Reply(s)
        },
        Err(_) => {
            let mut s = String::new();
            s.append("err ");
            s.append("origin must be a 3-letter ISO 3166-1 alpha-3 code (e.g. HRV)");
            proof {
                assert(s@ =~= err_text(origin_error_text()));
            }
            Outcome::Reply(s)
        },
    }
}

/// `origins`.
fn run_origins(node: &Node) -> (out: Outcome)
    requires
        node.wf(),
    ensures
        exists|s: Seq<(Origin, u64)>| #[trigger] sorted_pulses(node.pulses_view(), s) && reply_is(out, "ok"@ + pulses_text(s)),
{
    let p = node.origin_pulses();
    let mut s = String::new();
    s.append("ok");
    let ghost head = s@;
    let mut i: usize = 0;
    proof {
        assert(p@.subrange(0, 0) =~= Seq::<(Origin, u64)>::empty());
        assert(s@ =~= head + pulses_text(p@.subrange(0, 0)));
    }
    while i < p.len()
        invariant
            i <= p@.len(),
            s@ == head + pulses_text(p@.subrange(0, i as int)),
        decreases p@.len() - i,
    {
        let (o, n) = p[i];
        s.append(" ");
        s.append(o.as_str());
        s.append(" ");
        push_dec(&mut s, n as u128);
        proof {
            let t = p@.subrange(0, i + 1);
            assert(t.drop_last() =~= p@.subrange(0, i as int));
            assert(s@ =~= head + pulses_text(t));
        }
        i = i + 1;
    }
    proof {
        assert(p@.subrange(0, p@.len() as int) =~= p@);
        assert(sorted_pulses(node.pulses_view(), p@));
    }
    Outcome::Reply(s)
}

/// The reply to a read-only command.
fn run_query(node: &Node, c: &Command) -> (out: Outcome)
    requires
        node.wf(),
        c matches Command::Pending || c matches Command::Balance { .. } || c matches Command::Tip || c matches Command::Len
            || c matches Command::Origin { code: None } || c matches Command::Help || c matches Command::Quit,
    ensures
        line_outcome(*node, *node, Ok(c.view()), out),
{
    match c {
        Command::Help => Outcome::Reply(HELP.to_owned()),
        Command::Quit => {
            let mut s = ok_start();
            s.append("bye");
            Outcome::Reply(s)
        },
        Command::Pending => {
            let mut s = ok_start();
            push_dec(&mut s, node.pending_count() as u128);
            Outcome::Reply(s)
        },
        Command::Balance { seed } => {
            let s = match node.balance(&Node::address(*seed)) {
                Ok(v) => {
                    let mut s = ok_start();
                    push_dec(&mut s, v);
                    s
                },
                Err(e) => error_reply(&e),
            };
            Outcome::Reply(s)
        },
        Command::Tip => {
            let s = match node.selected_tip() {
                Ok(t) => {
                    let mut s = ok_start();
                    push_id(&mut s, t);
                    s
                },
                Err(e) => error_reply(&e),
            };
            Outcome::Reply(s)
        },
        Command::Len => {
            let s = match node.block_count() {
                Ok(n) => {
                    let mut s = ok_start();
                    push_dec(&mut s, n as u128);
                    s
                },
                Err(e) => error_reply(&e),
            };
            Outcome::Reply(s)
        },
        _ => {
            let mut s = ok_start();
            match node.origin() {
                Some(o) => s.append(o.as_str()),
                None => s.append("none"),
            }
            Outcome::Reply(s)
        },
    }
}

/// Run one command line against the node.
#[verifier::spinoff_prover]
pub fn execute_line(node: &mut Node, line: &str) -> (out: Outcome)
    requires
        old(node).wf(),
    ensures
        final(node).wf(),
        line_outcome(*old(node), *final(node), command_of(words(line.spec_bytes())), out),
{
    let c = match parse_command(line) {
        Ok(c) => c,
        Err(e) => {
            let mut s = String::new();
            s.append("err ");
            push_command_error(&mut s, e);
            return Outcome::Reply(s);
        },
    };
    match c {
        Command::Genesis { k, subsidy, amount, founder } => run_genesis(node, k, subsidy, amount, founder),
        Command::Send { from, amount, to } => run_send(node, from, amount, to),
        Command::Pool { from, amount, to } => run_pool(node, from, amount, to),
        Command::Produce => run_produce(node),
        Command::Tips => run_tips(node),
        Command::Save { path } => match node.snapshot() {
            Ok(bytes) => Outcome::Save { path, bytes },
            Err(e) => Outcome::Reply(error_reply(&e)),
        },
        Command::Load { path } => Outcome::Load { path },
        Command::Origin { code: Some(code) } => run_set_origin(node, code.as_slice()),
        Command::Origins => run_origins(node),
        _ => run_query(node, &c),
    }
}

/// Load the snapshot `bytes` that a `load` command's file held, and reply.
pub fn load_reply(node: &mut Node, bytes: &[u8]) -> (s: String)
    requires
        old(node).wf(),
    ensures
        final(node).wf(),
        exists|r: Result<(), NodeError>|
            #[trigger] restore_outcome(*old(node), *final(node), bytes@, r) && s@ == load_text(r),
{
    let r = node.restore(bytes);
    let s = match &r {
        Ok(()) => {
            let mut s = ok_start();
            s.append("loaded");
            s
        },
        Err(e) => error_reply(e),
    };
    proof {
        assert(s@ =~= load_text(r));
    }
    s
}

/// The reply to a `save` command once its file was written, or why it
/// could not be.
pub fn saved_reply(written: Result<(), String>) -> (s: String)
    ensures
        s@ == match written {
            Ok(()) => ok_text("saved"@),
            Err(m) => err_text(node_error_text(NodeError::Io(m))),
        },
{
    match written {
        Ok(()) => {
            let mut s = ok_start();
            s.append("saved");
            s
        },
        Err(m) => error_reply(&NodeError::Io(m)),
    }
}

/// The reply to a `load` command whose file could not be read.
pub fn unreadable_reply(message: String) -> (s: String)
    ensures
        s@ == err_text(node_error_text(NodeError::Io(message))),
{
    error_reply(&NodeError::Io(message))
}

} // verus!
