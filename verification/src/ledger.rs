//! Applying transactions to the UTXO set: the ledger's state-transition
//! rules.
//!
//! * [`apply_block`] is the strict, atomic state transition for one block's
//!   transactions. It validates every spend (existence, no double spend
//!   within a transaction, signature, value conservation) and the coinbase
//!   (issuance at most subsidy plus fees), then commits. On any error the
//!   UTXO set is left untouched.
//! * [`apply_dag`] walks the DAG's linearization, decodes each block's
//!   payload and applies it in that order; a block that does not apply is
//!   rejected and has no effect.
//!
//! For a non-coinbase transaction against the current UTXO set:
//! 1. it has at least one input and one output;
//! 2. no outpoint is spent twice within the transaction;
//! 3. every spent outpoint is currently unspent;
//! 4. every input's signature verifies against the spent output's owner over
//!    the transaction's signature hash;
//! 5. every output value is non-zero;
//! 6. outputs do not exceed inputs; the difference is the fee.
//!
//! A block may begin with a single coinbase (input-less) transaction.
//! Regular transactions are applied first, in list order, accumulating fees;
//! then the coinbase's outputs are checked to sum to at most
//! `subsidy + fees` and applied last, so they are not spendable within the
//! same block.
use vstd::prelude::*;

use crate::block::{block_id_of, Block, BlockId};
use crate::crypto::ed25519_verifies;
use crate::dag::{Dag, DagError, KParam};
use crate::keys::verify;
use crate::payload::{decode_block_payload, decoded};
use crate::tx::{encode_block_payload, payload_bytes};
use crate::tx::{address_bytes, input_views, tx_id, tx_sighash, views, DecodeError, OutPoint, Transaction, TxId, TxInput, TxOutput, TxView};
use crate::utxo::{map_total, UtxoSet};

verus! {

/// Why a transaction or block could not be applied.
#[derive(Clone, Copy, Debug, PartialEq, Eq, Structural)]
pub enum LedgerError {
    /// A spent outpoint is not in the UTXO set (missing, already spent, or,
    /// for a same-block coinbase output, not yet mature).
    MissingInput(OutPoint),
    /// The same outpoint is spent twice within one transaction.
    DuplicateInput(OutPoint),
    /// A created output's outpoint already exists (id collision or replay).
    OutputAlreadyExists(OutPoint),
    /// An input's signature did not verify against the spent output's owner.
    BadSignature { tx: TxId, input: usize },
    /// A transaction's outputs exceed its inputs (it would mint value).
    ValueNotConserved { tx: TxId, inputs: u64, outputs: u64 },
    /// A value sum overflowed `u64`.
    ValueOverflow,
    /// A non-coinbase transaction had no inputs or no outputs, or a coinbase
    /// had no outputs to carry any value.
    EmptyTransaction(TxId),
    /// An output has zero value.
    ZeroValueOutput(TxId),
    /// A coinbase (input-less) transaction appeared somewhere other than first.
    MisplacedCoinbase(TxId),
    /// The coinbase claims more than `subsidy + fees` allows.
    CoinbaseOverspend { claimed: u64, allowed: u64 },
    /// A block's payload could not be decoded into transactions.
    Payload(DecodeError),
}

/// What a successfully applied block moved: total fees collected from its
/// transactions and total value minted by its coinbase.
#[derive(Clone, Copy, Debug, PartialEq, Eq, Structural)]
pub struct BlockSummary {
    /// Sum of `inputs - outputs` across the block's non-coinbase transactions.
    pub fees: u64,
    /// Total value claimed by the block's coinbase (0 if none).
    pub minted: u64,
}

/// A UTXO state, as a map.
pub type UtxoMap = Map<OutPoint, TxOutput>;

// ---------------------------------------------------------------------------
// The rules, as a specification.

/// The error input `i` of `t` meets against `m`, if any: a repeat of an
/// earlier input, a missing output, or a signature that does not verify.
pub open spec fn input_error(m: UtxoMap, t: TxView, i: int) -> Option<LedgerError> {
    let op = t.inputs[i].outpoint;
    let sig = t.inputs[i].signature;
    if exists|j: int| 0 <= j < i && #[trigger] t.inputs[j].outpoint == op {
        Some(LedgerError::DuplicateInput(op))
    } else if !m.contains_key(op) {
        Some(LedgerError::MissingInput(op))
    } else if !(sig.len() == 64 && ed25519_verifies(address_bytes(m[op].owner), tx_sighash(t), sig)) {
        Some(LedgerError::BadSignature { tx: tx_id(t), input: i as usize })
    } else {
        None
    }
}

/// Checking the first `k` inputs in order: the sum of their values, or the
/// first error met (an input error, or the running sum leaving `u64`).
pub open spec fn scan_inputs(m: UtxoMap, t: TxView, k: int) -> Result<int, LedgerError>
    decreases k,
{
    if k <= 0 {
        Ok(0)
    } else {
        match scan_inputs(m, t, k - 1) {
            Err(e) => Err(e),
            Ok(s) => match input_error(m, t, k - 1) {
                Some(e) => Err(e),
                None => {
                    let s2 = s + m[t.inputs[k - 1].outpoint].value;
                    if s2 > u64::MAX {
                        Err(LedgerError::ValueOverflow)
                    } else {
                        Ok(s2)
                    }
                },
            },
        }
    }
}

/// Checking the first `k` outputs in order: the sum of their values, or the
/// first error met (a zero value, or the running sum leaving `u64`).
pub open spec fn scan_outputs(t: TxView, k: int) -> Result<int, LedgerError>
    decreases k,
{
    if k <= 0 {
        Ok(0)
    } else {
        match scan_outputs(t, k - 1) {
            Err(e) => Err(e),
            Ok(s) => {
                let v = t.outputs[k - 1].value;
                if v == 0 {
                    Err(LedgerError::ZeroValueOutput(tx_id(t)))
                } else if s + v > u64::MAX {
                    Err(LedgerError::ValueOverflow)
                } else {
                    Ok(s + v)
                }
            },
        }
    }
}

/// `m` without the outputs the first `k` inputs of `t` spend.
pub open spec fn spend_inputs(m: UtxoMap, t: TxView, k: int) -> UtxoMap
    decreases k,
{
    if k <= 0 {
        m
    } else {
        spend_inputs(m, t, k - 1).remove(t.inputs[k - 1].outpoint)
    }
}

/// Adding the first `k` of `outs` as outputs of `txid`, in order: the new
/// map, or the first outpoint that already exists.
pub open spec fn add_outputs_spec(m: UtxoMap, txid: TxId, outs: Seq<TxOutput>, k: int) -> Result<UtxoMap, LedgerError>
    decreases k,
{
    if k <= 0 {
        Ok(m)
    } else {
        match add_outputs_spec(m, txid, outs, k - 1) {
            Err(e) => Err(e),
            Ok(m2) => {
                let op = OutPoint { txid, index: (k - 1) as u32 };
                if m2.contains_key(op) {
                    Err(LedgerError::OutputAlreadyExists(op))
                } else {
                    Ok(m2.insert(op, outs[k - 1]))
                }
            },
        }
    }
}

/// `m` with the first `k` of `outs` inserted as outputs of `txid`, each
/// replacing whatever its outpoint held.
pub open spec fn insert_outputs(m: UtxoMap, txid: TxId, outs: Seq<TxOutput>, k: int) -> UtxoMap
    decreases k,
{
    if k <= 0 {
        m
    } else {
        insert_outputs(m, txid, outs, k - 1).insert(OutPoint { txid, index: (k - 1) as u32 }, outs[k - 1])
    }
}

/// Adding the outputs `outs` of `txid` to `m` stopped at the first one whose
/// outpoint was taken, after inserting it and those before it: `fin` is
/// what was left.
pub open spec fn outputs_clash(m: UtxoMap, txid: TxId, outs: Seq<TxOutput>, fin: UtxoMap) -> bool {
    exists|k: int|
        0 <= k < outs.len() && #[trigger] add_outputs_spec(m, txid, outs, k) is Ok && add_outputs_spec(m, txid, outs, k + 1) is Err
            && fin == insert_outputs(m, txid, outs, k + 1)
}

/// Where adding the outputs succeeds, it inserts them all.
proof fn lemma_insert_outputs_ok(m: UtxoMap, txid: TxId, outs: Seq<TxOutput>, k: int)
    requires
        add_outputs_spec(m, txid, outs, k) is Ok,
    ensures
        add_outputs_spec(m, txid, outs, k) == Ok::<UtxoMap, LedgerError>(insert_outputs(m, txid, outs, k)),
    decreases k,
{
    if k > 0 {
        lemma_insert_outputs_ok(m, txid, outs, k - 1);
    }
}

/// Applying the regular transaction `t` to `m`: the new map and the fee, or
/// the error the rules give.
#[verifier::opaque]
pub open spec fn regular_spec(m: UtxoMap, t: TxView) -> Result<(UtxoMap, u64), LedgerError> {
    if t.inputs.len() == 0 || t.outputs.len() == 0 {
        Err(LedgerError::EmptyTransaction(tx_id(t)))
    } else {
        match scan_inputs(m, t, t.inputs.len() as int) {
            Err(e) => Err(e),
            Ok(si) => match scan_outputs(t, t.outputs.len() as int) {
                Err(e) => Err(e),
                Ok(so) => if so > si {
                    Err(LedgerError::ValueNotConserved { tx: tx_id(t), inputs: si as u64, outputs: so as u64 })
                } else {
                    match add_outputs_spec(spend_inputs(m, t, t.inputs.len() as int), tx_id(t), t.outputs, t.outputs.len() as int) {
                        Err(e) => Err(e),
                        Ok(m2) => Ok((m2, (si - so) as u64)),
                    }
                },
            },
        }
    }
}

/// Applying the coinbase `cb`, which may claim at most `allowed`: the new
/// map and the value claimed, or the error the rules give.
#[verifier::opaque]
pub open spec fn coinbase_spec(m: UtxoMap, cb: TxView, allowed: u64) -> Result<(UtxoMap, u64), LedgerError> {
    if cb.outputs.len() == 0 {
        Err(LedgerError::EmptyTransaction(tx_id(cb)))
    } else {
        match scan_outputs(cb, cb.outputs.len() as int) {
            Err(e) => Err(e),
            Ok(c) => if c > allowed {
                Err(LedgerError::CoinbaseOverspend { claimed: c as u64, allowed })
            } else {
                match add_outputs_spec(m, tx_id(cb), cb.outputs, cb.outputs.len() as int) {
                    Err(e) => Err(e),
                    Ok(m2) => Ok((m2, c as u64)),
                }
            },
        }
    }
}

/// Applying the regular transactions among the first `k` of `txs` in order
/// (a coinbase is skipped when first, an error elsewhere): the new map and
/// the fees so far, or the first error.
pub open spec fn scan_block(m: UtxoMap, txs: Seq<TxView>, k: int) -> Result<(UtxoMap, int), LedgerError>
    decreases k,
{
    if k <= 0 {
        Ok((m, 0))
    } else {
        match scan_block(m, txs, k - 1) {
            Err(e) => Err(e),
            Ok((m2, f)) => {
                let t = txs[k - 1];
                if t.inputs.len() == 0 {
                    if k - 1 != 0 {
                        Err(LedgerError::MisplacedCoinbase(tx_id(t)))
                    } else {
                        Ok((m2, f))
                    }
                } else {
                    match regular_spec(m2, t) {
                        Err(e) => Err(e),
                        Ok((m3, fee)) => if f + fee > u64::MAX {
                            Err(LedgerError::ValueOverflow)
                        } else {
                            Ok((m3, f + fee))
                        },
                    }
                }
            },
        }
    }
}

/// Applying a block's transactions `txs` to `m` with issuance allowance
/// `subsidy`: the new map and what the block moved, or the error the rules
/// give.
#[verifier::opaque]
pub open spec fn block_spec(m: UtxoMap, txs: Seq<TxView>, subsidy: u64) -> Result<(UtxoMap, BlockSummary), LedgerError> {
    match scan_block(m, txs, txs.len() as int) {
        Err(e) => Err(e),
        Ok((m2, fees)) => if subsidy + fees > u64::MAX {
            Err(LedgerError::ValueOverflow)
        } else {
            let allowed = (subsidy + fees) as u64;
            if txs.len() > 0 && txs[0].inputs.len() == 0 {
                match coinbase_spec(m2, txs[0], allowed) {
                    Err(e) => Err(e),
                    Ok((m3, c)) => Ok((m3, BlockSummary { fees: fees as u64, minted: c })),
                }
            } else {
                Ok((m2, BlockSummary { fees: fees as u64, minted: 0 }))
            }
        },
    }
}

// ---------------------------------------------------------------------------
// Value bookkeeping.

/// Sum of the values the first `k` inputs of `t` spend in `m`.
pub open spec fn spent_value(m: UtxoMap, t: TxView, k: int) -> int
    decreases k,
{
    if k <= 0 {
        0
    } else {
        spent_value(m, t, k - 1) + m[t.inputs[k - 1].outpoint].value
    }
}

/// Sum of the first `k` output values.
pub open spec fn outputs_value(outs: Seq<TxOutput>, k: int) -> int
    decreases k,
{
    if k <= 0 {
        0
    } else {
        outputs_value(outs, k - 1) + outs[k - 1].value
    }
}

/// A successful input scan spent distinct, present outputs worth its sum.
proof fn lemma_scan_inputs_ok(m: UtxoMap, t: TxView, k: int)
    requires
        0 <= k <= t.inputs.len(),
        scan_inputs(m, t, k) is Ok,
    ensures
        scan_inputs(m, t, k) == Ok::<int, LedgerError>(spent_value(m, t, k)),
        forall|j: int| 0 <= j < k ==> m.contains_key(#[trigger] t.inputs[j].outpoint),
        forall|a: int, b: int| 0 <= a < b < k ==> #[trigger] t.inputs[a].outpoint != #[trigger] t.inputs[b].outpoint,
    decreases k,
{
    if k > 0 {
        lemma_scan_inputs_ok(m, t, k - 1);
        assert(input_error(m, t, k - 1) is None);
        assert forall|a: int, b: int| 0 <= a < b < k implies #[trigger] t.inputs[a].outpoint != #[trigger] t.inputs[b].outpoint by {
            if b == k - 1 && t.inputs[a].outpoint == t.inputs[b].outpoint {
                assert(exists|j: int| 0 <= j < k - 1 && #[trigger] t.inputs[j].outpoint == t.inputs[k - 1].outpoint);
            }
        }
    }
}

/// A successful output scan summed the outputs.
proof fn lemma_scan_outputs_ok(t: TxView, k: int)
    requires
        0 <= k <= t.outputs.len(),
        scan_outputs(t, k) is Ok,
    ensures
        scan_outputs(t, k) == Ok::<int, LedgerError>(outputs_value(t.outputs, k)),
    decreases k,
{
    if k > 0 {
        lemma_scan_outputs_ok(t, k - 1);
    }
}

/// Spending distinct present inputs one by one: each is still present when
/// it is spent, and the others are untouched.
proof fn lemma_spend_step(m: UtxoMap, t: TxView, k: int)
    requires
        0 <= k < t.inputs.len(),
        forall|j: int| 0 <= j <= k ==> m.contains_key(#[trigger] t.inputs[j].outpoint),
        forall|a: int, b: int| 0 <= a < b <= k ==> #[trigger] t.inputs[a].outpoint != #[trigger] t.inputs[b].outpoint,
    ensures
        spend_inputs(m, t, k).contains_key(t.inputs[k].outpoint),
        spend_inputs(m, t, k)[t.inputs[k].outpoint] == m[t.inputs[k].outpoint],
    decreases k,
{
    let op = t.inputs[k].outpoint;
    if k > 0 {
        assert forall|k2: int| 0 <= k2 < k implies spend_inputs(m, t, k2).contains_key(op) && spend_inputs(m, t, k2)[op]
            == m[op] by {
            lemma_spend_keeps(m, t, k2, op);
        }
        lemma_spend_keeps(m, t, k, op);
    }
}

/// An outpoint none of the first `k` inputs spends is untouched.
proof fn lemma_spend_keeps(m: UtxoMap, t: TxView, k: int, op: OutPoint)
    requires
        0 <= k <= t.inputs.len(),
        forall|j: int| 0 <= j < k ==> #[trigger] t.inputs[j].outpoint != op,
    ensures
        spend_inputs(m, t, k).contains_key(op) == m.contains_key(op),
        m.contains_key(op) ==> spend_inputs(m, t, k)[op] == m[op],
    decreases k,
{
    if k > 0 {
        lemma_spend_keeps(m, t, k - 1, op);
    }
}

/// Once the input scan fails, it fails the same way on longer prefixes.
proof fn lemma_scan_inputs_err(m: UtxoMap, t: TxView, a: int, b: int)
    requires
        0 <= a <= b,
        scan_inputs(m, t, a) is Err,
    ensures
        scan_inputs(m, t, b) == scan_inputs(m, t, a),
    decreases b - a,
{
    if a < b {
        lemma_scan_inputs_err(m, t, a, b - 1);
    }
}

/// Once the output scan fails, it fails the same way on longer prefixes.
proof fn lemma_scan_outputs_err(t: TxView, a: int, b: int)
    requires
        0 <= a <= b,
        scan_outputs(t, a) is Err,
    ensures
        scan_outputs(t, b) == scan_outputs(t, a),
    decreases b - a,
{
    if a < b {
        lemma_scan_outputs_err(t, a, b - 1);
    }
}

/// Once adding outputs fails, it fails the same way on longer prefixes.
proof fn lemma_add_outputs_err(m: UtxoMap, txid: TxId, outs: Seq<TxOutput>, a: int, b: int)
    requires
        0 <= a <= b,
        add_outputs_spec(m, txid, outs, a) is Err,
    ensures
        add_outputs_spec(m, txid, outs, b) == add_outputs_spec(m, txid, outs, a),
    decreases b - a,
{
    if a < b {
        lemma_add_outputs_err(m, txid, outs, a, b - 1);
    }
}

/// Once a block scan fails, it fails the same way on longer prefixes.
proof fn lemma_scan_block_err(m: UtxoMap, txs: Seq<TxView>, a: int, b: int)
    requires
        0 <= a <= b,
        scan_block(m, txs, a) is Err,
    ensures
        scan_block(m, txs, b) == scan_block(m, txs, a),
    decreases b - a,
{
    if a < b {
        lemma_scan_block_err(m, txs, a, b - 1);
    }
}

/// A successful output scan stays within `u64`.
proof fn lemma_scan_outputs_range(t: TxView, k: int)
    requires
        scan_outputs(t, k) is Ok,
    ensures
        match scan_outputs(t, k) {
            Ok(s) => 0 <= s <= u64::MAX,
            Err(_) => true,
        },
    decreases k,
{
    if k > 0 {
        lemma_scan_outputs_range(t, k - 1);
    }
}

/// A coinbase that applies claims at most what is allowed.
proof fn lemma_coinbase_claim(m: UtxoMap, cb: TxView, allowed: u64)
    requires
        coinbase_spec(m, cb, allowed) is Ok,
    ensures
        match coinbase_spec(m, cb, allowed) {
            Ok((_, c)) => c <= allowed,
            Err(_) => true,
        },
{
    reveal(coinbase_spec);
    lemma_scan_outputs_range(cb, cb.outputs.len() as int);
}

/// A regular transaction whose input scan fails on input `i` fails with that
/// error.
proof fn lemma_regular_input_fails(m: UtxoMap, t: TxView, i: int)
    requires
        0 <= i < t.inputs.len(),
        t.outputs.len() > 0,
        scan_inputs(m, t, i + 1) is Err,
    ensures
        match scan_inputs(m, t, i + 1) {
            Err(e) => regular_spec(m, t) == Err::<(UtxoMap, u64), LedgerError>(e),
            Ok(_) => true,
        },
{
    reveal(regular_spec);
    lemma_scan_inputs_err(m, t, i + 1, t.inputs.len() as int);
}

/// A regular transaction whose inputs pass and whose output scan fails on
/// output `j` fails with that error.
proof fn lemma_regular_output_fails(m: UtxoMap, t: TxView, j: int)
    requires
        t.inputs.len() > 0,
        0 <= j < t.outputs.len(),
        scan_inputs(m, t, t.inputs.len() as int) is Ok,
        scan_outputs(t, j + 1) is Err,
    ensures
        match scan_outputs(t, j + 1) {
            Err(e) => regular_spec(m, t) == Err::<(UtxoMap, u64), LedgerError>(e),
            Ok(_) => true,
        },
{
    reveal(regular_spec);
    lemma_scan_outputs_err(t, j + 1, t.outputs.len() as int);
}

/// A coinbase whose output scan fails on output `j` fails with that error.
proof fn lemma_coinbase_output_fails(m: UtxoMap, cb: TxView, allowed: u64, j: int)
    requires
        0 <= j < cb.outputs.len(),
        scan_outputs(cb, j + 1) is Err,
    ensures
        match scan_outputs(cb, j + 1) {
            Err(e) => coinbase_spec(m, cb, allowed) == Err::<(UtxoMap, u64), LedgerError>(e),
            Ok(_) => true,
        },
{
    reveal(coinbase_spec);
    lemma_scan_outputs_err(cb, j + 1, cb.outputs.len() as int);
}

/// A block whose scan fails on transaction `i` fails with that error.
proof fn lemma_block_fails(m: UtxoMap, txs: Seq<TxView>, subsidy: u64, i: int)
    requires
        0 <= i < txs.len(),
        scan_block(m, txs, i + 1) is Err,
    ensures
        match scan_block(m, txs, i + 1) {
            Err(e) => block_spec(m, txs, subsidy) == Err::<(UtxoMap, BlockSummary), LedgerError>(e),
            Ok(_) => true,
        },
{
    reveal(block_spec);
    lemma_scan_block_err(m, txs, i + 1, txs.len() as int);
}

// ---------------------------------------------------------------------------
// The rules, as code.

/// Whether input `i` spends the same outpoint as an earlier input.
fn spent_earlier(inputs: &[TxInput], i: usize) -> (r: bool)
    requires
        i < inputs@.len(),
    ensures
        r == exists|j: int| 0 <= j < i && #[trigger] inputs@[j].outpoint == inputs@[i as int].outpoint,
{
    let op = inputs[i].outpoint;
    let mut j: usize = 0;
    while j < i
        invariant
            j <= i,
            i < inputs@.len(),
            op == inputs@[i as int].outpoint,
            forall|k: int| 0 <= k < j ==> #[trigger] inputs@[k].outpoint != op,
        decreases i - j,
    {
        if inputs[j].outpoint == op {
            return true;
        }
        j = j + 1;
    }
    false
}

/// Insert every output of `tx` into `staging`, keyed by `(txid, index)`,
/// rejecting any outpoint that already exists.
fn add_outputs(staging: &mut UtxoSet, txid: TxId, tx: &Transaction) -> (r: Result<(), LedgerError>)
    ensures
        match add_outputs_spec(old(staging)@, txid, tx@.outputs, tx@.outputs.len() as int) {
            Ok(m2) => r is Ok && final(staging)@ == m2 && final(staging).total_spec() == old(staging).total_spec()
                + outputs_value(tx@.outputs, tx@.outputs.len() as int),
            Err(e) => r == Err::<(), LedgerError>(e),
        },
        r is Err ==> r->Err_0 is OutputAlreadyExists && outputs_clash(old(staging)@, txid, tx@.outputs, final(staging)@),
{
    let ghost m0 = staging@;
    let ghost t0 = staging.total_spec();
    let outs = tx.outputs();
    let n = outs.len();
    let mut i: usize = 0;
    while i < n
        invariant
            n == outs@.len(),
            outs@ == tx@.outputs,
            i <= n,
            m0 == old(staging)@,
            add_outputs_spec(m0, txid, outs@, i as int) == Ok::<UtxoMap, LedgerError>(staging@),
            staging.total_spec() == t0 + outputs_value(outs@, i as int),
        decreases n - i,
    {
        let op = OutPoint::new(txid, i as u32);
        let out = outs[i];
        let ghost before = staging@;
        match staging.insert(op, out) {
            Some(_) => {
                proof {
                    assert(before.contains_key(op));
                    assert(((i + 1) - 1) as u32 == i as u32);
                    assert(add_outputs_spec(m0, txid, outs@, i + 1) == Err::<UtxoMap, LedgerError>(
                        LedgerError::OutputAlreadyExists(op),
                    ));
                    lemma_add_outputs_err(m0, txid, outs@, i + 1, n as int);
                    assert(add_outputs_spec(m0, txid, outs@, n as int) == Err::<UtxoMap, LedgerError>(
                        LedgerError::OutputAlreadyExists(op),
                    ));
                    lemma_insert_outputs_ok(m0, txid, outs@, i as int);
                    assert(staging@ == insert_outputs(m0, txid, outs@, i + 1));
                    assert(add_outputs_spec(m0, txid, outs@, i as int) is Ok);
                }
                return Err(LedgerError::OutputAlreadyExists(op));
            },
            None => {
                proof {
                    assert(((i + 1) - 1) as u32 == i as u32);
                }
            },
        }
        i = i + 1;
    }
    Ok(())
}

/// Validate and apply a regular (non-coinbase) transaction, returning its
/// fee. On success the unspent outputs lose the fee in value.
fn apply_regular(staging: &mut UtxoSet, tx: &Transaction) -> (r: Result<u64, LedgerError>)
    ensures
        match regular_spec(old(staging)@, tx@) {
            Ok((m2, fee)) => r == Ok::<u64, LedgerError>(fee) && final(staging)@ == m2 && final(staging).total_spec()
                == old(staging).total_spec() - fee,
            Err(e) => r == Err::<u64, LedgerError>(e),
        },
        r is Err ==> match r->Err_0 {
            LedgerError::OutputAlreadyExists(_) => outputs_clash(
                spend_inputs(old(staging)@, tx@, tx@.inputs.len() as int),
                tx_id(tx@),
                tx@.outputs,
                final(staging)@,
            ),
            _ => final(staging)@ == old(staging)@,
        },
{
    let ghost m0 = staging@;
    let ghost t0 = staging.total_spec();
    let ghost t = tx@;
    let inputs = tx.inputs();
    let outs = tx.outputs();
    if inputs.len() == 0 || outs.len() == 0 {
        proof {
            reveal(regular_spec);
        }
        return Err(LedgerError::EmptyTransaction(tx.id()));
    }
    let sighash = tx.sighash();
    let ni = inputs.len();
    let no = outs.len();
    let mut sum_in: u64 = 0;
    let mut i: usize = 0;
    while i < ni
        invariant
            staging@ == m0,
            staging.total_spec() == t0,
            t == tx@,
            ni == inputs@.len(),
            ni == t.inputs.len(),
            no == t.outputs.len(),
            no > 0,
            input_views(inputs@) == t.inputs,
            sighash@ == tx_sighash(t),
            i <= ni,
            scan_inputs(m0, t, i as int) == Ok::<int, LedgerError>(sum_in as int),
        decreases ni - i,
    {
        let op = inputs[i].outpoint;
        proof {
            assert(t.inputs[i as int] == inputs@[i as int]@);
            assert forall|j: int| 0 <= j < i implies #[trigger] t.inputs[j].outpoint == inputs@[j].outpoint by {
                assert(t.inputs[j] == inputs@[j]@);
            }
        }
        if spent_earlier(inputs, i) {
            proof {
                let j = choose|j: int| 0 <= j < i && #[trigger] inputs@[j].outpoint == inputs@[i as int].outpoint;
                assert(t.inputs[j].outpoint == op);
                assert(input_error(m0, t, i as int) == Some(LedgerError::DuplicateInput(op)));
                assert(scan_inputs(m0, t, i + 1) == Err::<int, LedgerError>(LedgerError::DuplicateInput(op)));
                lemma_regular_input_fails(m0, t, i as int);
            }
            return Err(LedgerError::DuplicateInput(op));
        }
        let prev = match staging.get(&op) {
            Some(p) => *p,
            None => {
                proof {
                    assert(input_error(m0, t, i as int) == Some(LedgerError::MissingInput(op)));
                    assert(scan_inputs(m0, t, i + 1) == Err::<int, LedgerError>(LedgerError::MissingInput(op)));
                    lemma_regular_input_fails(m0, t, i as int);
                }
                return Err(LedgerError::MissingInput(op));
            },
        };
        if !verify(&prev.owner, sighash.as_slice(), inputs[i].signature.as_slice()) {
            let id = tx.id();
            proof {
                let e = LedgerError::BadSignature { tx: id, input: i };
                assert(input_error(m0, t, i as int) == Some(e));
                assert(scan_inputs(m0, t, i + 1) == Err::<int, LedgerError>(e));
                lemma_regular_input_fails(m0, t, i as int);
            }
            return Err(LedgerError::BadSignature { tx: id, input: i });
        }
        match sum_in.checked_add(prev.value) {
            Some(v) => {
                sum_in = v;
            },
            None => {
                proof {
                    assert(scan_inputs(m0, t, i + 1) == Err::<int, LedgerError>(LedgerError::ValueOverflow));
                    lemma_regular_input_fails(m0, t, i as int);
                }
                return Err(LedgerError::ValueOverflow);
            },
        }
        i = i + 1;
    }
    let mut sum_out: u64 = 0;
    let mut j: usize = 0;
    while j < no
        invariant
            t == tx@,
            no == outs@.len(),
            outs@ == t.outputs,
            ni == t.inputs.len(),
            ni > 0,
            scan_inputs(m0, t, ni as int) == Ok::<int, LedgerError>(sum_in as int),
            staging@ == m0,
            staging.total_spec() == t0,
            j <= no,
            scan_outputs(t, j as int) == Ok::<int, LedgerError>(sum_out as int),
        decreases no - j,
    {
        let v = outs[j].value;
        if v == 0 {
            let id = tx.id();
            proof {
                assert(scan_outputs(t, j + 1) == Err::<int, LedgerError>(LedgerError::ZeroValueOutput(id)));
                lemma_regular_output_fails(m0, t, j as int);
            }
            return Err(LedgerError::ZeroValueOutput(id));
        }
        match sum_out.checked_add(v) {
            Some(x) => {
                sum_out = x;
            },
            None => {
                proof {
                    assert(scan_outputs(t, j + 1) == Err::<int, LedgerError>(LedgerError::ValueOverflow));
                    lemma_regular_output_fails(m0, t, j as int);
                }
                return Err(LedgerError::ValueOverflow);
            },
        }
        j = j + 1;
    }
    if sum_out > sum_in {
        let id = tx.id();
        proof {
            reveal(regular_spec);
        }
        return Err(LedgerError::ValueNotConserved { tx: id, inputs: sum_in, outputs: sum_out });
    }
    proof {
        lemma_scan_inputs_ok(m0, t, ni as int);
        lemma_scan_outputs_ok(t, no as int);
    }
    // Validation passed; spend the inputs.
    let mut k: usize = 0;
    while k < ni
        invariant
            t == tx@,
            ni == inputs@.len(),
            ni == t.inputs.len(),
            input_views(inputs@) == t.inputs,
            k <= ni,
            forall|j: int| 0 <= j < ni ==> m0.contains_key(#[trigger] t.inputs[j].outpoint),
            forall|a: int, b: int| 0 <= a < b < ni ==> #[trigger] t.inputs[a].outpoint != #[trigger] t.inputs[b].outpoint,
            staging@ == spend_inputs(m0, t, k as int),
            staging.total_spec() == t0 - spent_value(m0, t, k as int),
        decreases ni - k,
    {
        proof {
            assert(t.inputs[k as int] == inputs@[k as int]@);
            lemma_spend_step(m0, t, k as int);
        }
        staging.remove(&inputs[k].outpoint);
        k = k + 1;
    }
    let txid = tx.id();
    let added = add_outputs(staging, txid, tx);
    proof {
        reveal(regular_spec);
    }
    match added {
        Ok(()) => Ok(sum_in - sum_out),
        Err(e) => Err(e),
    }
}

/// Validate and apply a coinbase transaction that may claim at most
/// `allowed`, returning the value minted.
fn apply_coinbase(staging: &mut UtxoSet, cb: &Transaction, allowed: u64) -> (r: Result<u64, LedgerError>)
    ensures
        match coinbase_spec(old(staging)@, cb@, allowed) {
            Ok((m2, c)) => r == Ok::<u64, LedgerError>(c) && final(staging)@ == m2 && final(staging).total_spec()
                == old(staging).total_spec() + c,
            Err(e) => r == Err::<u64, LedgerError>(e),
        },
        r is Err ==> match r->Err_0 {
            LedgerError::OutputAlreadyExists(_) => outputs_clash(old(staging)@, tx_id(cb@), cb@.outputs, final(staging)@),
            _ => final(staging)@ == old(staging)@,
        },
{
    let ghost m0 = staging@;
    let ghost t = cb@;
    let outs = cb.outputs();
    let no = outs.len();
    if no == 0 {
        proof {
            reveal(coinbase_spec);
        }
        return Err(LedgerError::EmptyTransaction(cb.id()));
    }
    let mut claimed: u64 = 0;
    let mut j: usize = 0;
    while j < no
        invariant
            t == cb@,
            no == outs@.len(),
            outs@ == t.outputs,
            j <= no,
            staging@ == m0,
            scan_outputs(t, j as int) == Ok::<int, LedgerError>(claimed as int),
        decreases no - j,
    {
        let v = outs[j].value;
        if v == 0 {
            let id = cb.id();
            proof {
                assert(scan_outputs(t, j + 1) == Err::<int, LedgerError>(LedgerError::ZeroValueOutput(id)));
                lemma_coinbase_output_fails(m0, t, allowed, j as int);
            }
            return Err(LedgerError::ZeroValueOutput(id));
        }
        match claimed.checked_add(v) {
            Some(x) => {
                claimed = x;
            },
            None => {
                proof {
                    assert(scan_outputs(t, j + 1) == Err::<int, LedgerError>(LedgerError::ValueOverflow));
                    lemma_coinbase_output_fails(m0, t, allowed, j as int);
                }
                return Err(LedgerError::ValueOverflow);
            },
        }
        j = j + 1;
    }
    proof {
        lemma_scan_outputs_ok(t, no as int);
        reveal(coinbase_spec);
    }
    if claimed > allowed {
        return Err(LedgerError::CoinbaseOverspend { claimed, allowed });
    }
    let txid = cb.id();
    match add_outputs(staging, txid, cb) {
        Ok(()) => Ok(claimed),
        Err(e) => Err(e),
    }
}

/// Apply one block's transactions to `utxo`, atomically.
///
/// `txs` is the block's transaction list; if the first has no inputs it is
/// the coinbase. `subsidy` is the issuance allowance for this block. On any
/// error `utxo` is left exactly as it was. On success the unspent value
/// changes by what the coinbase minted less the fees the transactions paid,
/// and the coinbase minted at most `subsidy` plus those fees.
pub fn apply_block(utxo: &mut UtxoSet, txs: &[Transaction], subsidy: u64) -> (r: Result<BlockSummary, LedgerError>)
    ensures
        match block_spec(old(utxo)@, views(txs@), subsidy) {
            Ok((m2, s)) => {
                &&& r == Ok::<BlockSummary, LedgerError>(s)
                &&& final(utxo)@ == m2
                &&& map_total(m2) == map_total(old(utxo)@) - s.fees + s.minted
                &&& s.minted <= subsidy + s.fees
            },
            Err(e) => r == Err::<BlockSummary, LedgerError>(e) && *final(utxo) == *old(utxo),
        },
{
    utxo.sums_agree();
    let ghost m0 = utxo@;
    let ghost t0 = utxo.total_spec();
    let ghost v = views(txs@);
    let mut staging = utxo.duplicate();
    let mut has_coinbase = false;
    let mut total_fees: u64 = 0;
    let n = txs.len();
    let mut i: usize = 0;
    while i < n
        invariant
            n == txs@.len(),
            v == views(txs@),
            i <= n,
            *utxo == *old(utxo),
            m0 == old(utxo)@,
            t0 == old(utxo).total_spec(),
            scan_block(m0, v, i as int) == Ok::<(UtxoMap, int), LedgerError>((staging@, total_fees as int)),
            has_coinbase == (i > 0 && v[0].inputs.len() == 0),
            staging.total_spec() == t0 - total_fees,
        decreases n - i,
    {
        let tx = &txs[i];
        proof {
            assert(v[i as int] == txs@[i as int]@);
        }
        if tx.is_coinbase() {
            if i != 0 {
                let id = tx.id();
                proof {
                    assert(scan_block(m0, v, i + 1) == Err::<(UtxoMap, int), LedgerError>(LedgerError::MisplacedCoinbase(id)));
                    lemma_block_fails(m0, v, subsidy, i as int);
                }
                return Err(LedgerError::MisplacedCoinbase(id));
            }
            has_coinbase = true;
        } else {
            let fee = match apply_regular(&mut staging, tx) {
                Ok(f) => f,
                Err(e) => {
                    proof {
                        assert(scan_block(m0, v, i + 1) == Err::<(UtxoMap, int), LedgerError>(e));
                        lemma_block_fails(m0, v, subsidy, i as int);
                    }
                    return Err(e);
                },
            };
            total_fees = match total_fees.checked_add(fee) {
                Some(x) => x,
                None => {
                    proof {
                        assert(scan_block(m0, v, i + 1) == Err::<(UtxoMap, int), LedgerError>(LedgerError::ValueOverflow));
                        lemma_block_fails(m0, v, subsidy, i as int);
                    }
                    return Err(LedgerError::ValueOverflow);
                },
            };
        }
        i = i + 1;
    }
    proof {
        reveal(block_spec);
    }
    let allowed = match subsidy.checked_add(total_fees) {
        Some(x) => x,
        None => {
            return Err(LedgerError::ValueOverflow);
        },
    };
    let minted = if has_coinbase {
        proof {
            assert(v[0] == txs@[0]@);
            reveal(coinbase_spec);
        }
        let ghost before = staging@;
        match apply_coinbase(&mut staging, &txs[0], allowed) {
            Ok(c) => {
                proof {
                    lemma_coinbase_claim(before, txs@[0]@, allowed);
                }
                c
            },
            Err(e) => {
                return Err(e);
            },
        }
    } else {
        0
    };
    let summary = BlockSummary { fees: total_fees, minted };
    proof {
        assert(minted <= allowed);
        assert(block_spec(m0, v, subsidy) == Ok::<(UtxoMap, BlockSummary), LedgerError>((staging@, summary)));
        assert(staging.total_spec() == t0 - total_fees + minted);
    }
    staging.sums_agree();
    *utxo = staging;
    Ok(summary)
}

// ---------------------------------------------------------------------------
// Applying a whole DAG.

/// What a run over blocks has produced so far: the UTXO state, the blocks
/// that applied, and the blocks rejected with their reasons.
pub struct RunView {
    pub utxo: UtxoMap,
    pub accepted: Seq<BlockId>,
    pub rejected: Seq<(BlockId, LedgerError)>,
}

/// The payload of block `id` of `dag`.
pub open spec fn payload_of(dag: Dag, id: BlockId) -> Seq<u8> {
    dag.block_at(dag.pos(id)).payload_view()
}

/// Applying the blocks `order[..k]` of `dag` in order against a fresh state:
/// each block's payload is decoded and applied with [`block_spec`]; a block
/// that does not decode or apply is rejected and has no effect.
pub open spec fn run_blocks(dag: Dag, order: Seq<BlockId>, subsidy: u64, k: int) -> RunView
    decreases k,
{
    if k <= 0 {
        RunView { utxo: Map::empty(), accepted: Seq::empty(), rejected: Seq::empty() }
    } else {
        let r = run_blocks(dag, order, subsidy, k - 1);
        let id = order[k - 1];
        match decoded(payload_of(dag, id)) {
            None => RunView {
                utxo: r.utxo,
                accepted: r.accepted,
                rejected: r.rejected.push((id, LedgerError::Payload(DecodeError::Malformed))),
            },
            Some(txs) => match block_spec(r.utxo, txs, subsidy) {
                Ok((m2, _)) => RunView { utxo: m2, accepted: r.accepted.push(id), rejected: r.rejected },
                Err(e) => RunView { utxo: r.utxo, accepted: r.accepted, rejected: r.rejected.push((id, e)) },
            },
        }
    }
}

/// The result of applying a whole DAG's worth of blocks in linearized order.
#[derive(Clone, Debug)]
pub struct LedgerRun {
    /// The final UTXO set after applying every accepted block.
    pub utxo: UtxoSet,
    /// Blocks that applied cleanly, in linearization order.
    pub accepted: Vec<BlockId>,
    /// Blocks rejected as invalid, each with the reason. A rejected block is
    /// not fatal: it simply has no effect.
    pub rejected: Vec<(BlockId, LedgerError)>,
}

impl LedgerRun {
    /// The run as mathematical values.
    pub open spec fn view(&self) -> RunView {
        RunView { utxo: self.utxo@, accepted: self.accepted@, rejected: self.rejected@ }
    }

    /// An empty run: no blocks applied, an empty UTXO set.
    pub fn new() -> (r: LedgerRun)
        ensures
            r.view() == (RunView { utxo: Map::empty(), accepted: Seq::empty(), rejected: Seq::empty() }),
    {
        let r = LedgerRun { utxo: UtxoSet::new(), accepted: Vec::new(), rejected: Vec::new() };
        proof {
            assert(r.accepted@ =~= Seq::<BlockId>::empty());
            assert(r.rejected@ =~= Seq::<(BlockId, LedgerError)>::empty());
        }
        r
    }
}

impl Default for LedgerRun {
    fn default() -> (r: LedgerRun)
        ensures
            r.view() == (RunView { utxo: Map::empty(), accepted: Seq::empty(), rejected: Seq::empty() }),
    {
        LedgerRun::new()
    }
}

/// Apply the blocks of `order`, all blocks of `dag`, in that order against a
/// fresh state.
pub fn run_order(dag: &Dag, order: &Vec<BlockId>, subsidy: u64) -> (run: LedgerRun)
    requires
        dag.inv(),
        forall|j: int| 0 <= j < order@.len() ==> dag.has(#[trigger] order@[j]),
    ensures
        run.view() == run_blocks(*dag, order@, subsidy, order@.len() as int),
{
    let mut run = LedgerRun::new();
    let mut i: usize = 0;
    while i < order.len()
        invariant
            dag.inv(),
            forall|j: int| 0 <= j < order@.len() ==> dag.has(#[trigger] order@[j]),
            i <= order@.len(),
            run.view() == run_blocks(*dag, order@, subsidy, i as int),
        decreases order@.len() - i,
    {
        let id = order[i];
        proof {
            assert(dag.has(order@[i as int]));
        }
        match dag.block(&id) {
            Some(block) => {
                match decode_block_payload(block.payload()) {
                    Ok(txs) => {
                        let ghost before = run.view();
                        match apply_block(&mut run.utxo, txs.as_slice(), subsidy) {
                            Ok(_) => {
                                run.accepted.push(id);
                            },
                            Err(e) => {
                                run.rejected.push((id, e));
                            },
                        }
                        proof {
                            assert(run.view() == run_blocks(*dag, order@, subsidy, i + 1));
                        }
                    },
                    Err(e) => {
                        run.rejected.push((id, LedgerError::Payload(e)));
                    },
                }
            },
            None => {},
        }
        i = i + 1;
    }
    run
}

/// Apply an entire DAG: linearize it, then apply each block's transactions
/// in that order against a fresh UTXO set.
///
/// This is a function of the DAG and `subsidy` alone: the linearization is
/// deterministic and so is every state transition, so two nodes holding the
/// same DAG derive the identical run. Conflicting spends across parallel
/// blocks are resolved by the linearization: the earlier block spends the
/// output, and the later one is rejected with [`LedgerError::MissingInput`].
pub fn apply_dag(dag: &Dag, subsidy: u64) -> (run: LedgerRun)
    requires
        dag.inv(),
    ensures
        run.view() == run_blocks(*dag, dag.linearization(), subsidy, dag.ids().len() as int),
{
    let order = dag.linearize();
    proof {
        crate::ordering::lemma_linearization_topological(dag, order@);
        assert forall|j: int| 0 <= j < order@.len() implies dag.has(#[trigger] order@[j]) by {
            assert(order@.contains(order@[j]));
        }
    }
    run_order(dag, &order, subsidy)
}

// ---------------------------------------------------------------------------
// A ledger: the DAG plus the UTXO rules, checked per block at insert.

/// Why a block could not be added to a [`Ledger`].
#[derive(Clone, Debug, PartialEq, Eq)]
pub enum LedgerInsertError {
    /// The DAG refused the block (duplicate, no parents, missing parent).
    Dag(DagError),
    /// The block's transactions do not apply in the block's own view.
    Ledger(LedgerError),
}

/// `x` is one of `parents` or an ancestor of one of them in `dag`.
pub open spec fn in_past_of_parents(dag: Dag, parents: Seq<BlockId>, x: BlockId) -> bool {
    exists|j: int| 0 <= j < parents.len() && (parents[j] == x || dag.is_ancestor_spec(x, #[trigger] parents[j]))
}

/// The blocks of `order[..k]` in the past of a block with `parents`, in
/// order.
pub open spec fn past_order(dag: Dag, parents: Seq<BlockId>, order: Seq<BlockId>, k: int) -> Seq<BlockId>
    decreases k,
{
    if k <= 0 {
        Seq::empty()
    } else {
        let r = past_order(dag, parents, order, k - 1);
        if in_past_of_parents(dag, parents, order[k - 1]) {
            r.push(order[k - 1])
        } else {
            r
        }
    }
}

/// The UTXO state a block with `parents` sees: the rules applied, in
/// linearization order, to exactly the blocks in its past.
pub open spec fn view_state(dag: Dag, parents: Seq<BlockId>, subsidy: u64) -> UtxoMap {
    let o = past_order(dag, parents, dag.linearization(), dag.ids().len() as int);
    run_blocks(dag, o, subsidy, o.len() as int).utxo
}

/// The full UTXO state of `dag`: every block applied in linearization order.
pub open spec fn full_state(dag: Dag, subsidy: u64) -> UtxoMap {
    run_blocks(dag, dag.linearization(), subsidy, dag.ids().len() as int).utxo
}

/// `new` and `r` are what adding a block with `parents`, `work` and the
/// transactions `txs` to `old` gives: the block is added, and its id
/// returned, exactly when the DAG takes it and its transactions apply in
/// its own view; otherwise the ledger is unchanged and the error says why.
pub open spec fn insert_outcome(
    old: Ledger,
    new: Ledger,
    parents: Seq<BlockId>,
    work: u128,
    txs: Seq<TxView>,
    r: Result<BlockId, LedgerInsertError>,
) -> bool {
    block_outcome(old, new, parents, work, payload_bytes(txs), r)
}

/// `new` and `r` are what adding a block with `parents`, `work` and the
/// raw `payload` to `old` gives: the block is added, and its id returned,
/// exactly when the DAG takes it and the payload holds transactions that
/// apply in the block's own view; otherwise the ledger is unchanged and the
/// error says why.
pub open spec fn block_outcome(
    old: Ledger,
    new: Ledger,
    parents: Seq<BlockId>,
    work: u128,
    payload: Seq<u8>,
    r: Result<BlockId, LedgerInsertError>,
) -> bool {
    let id = block_id_of(parents, work, payload);
    let d = old.dag_view();
    let s = old.subsidy_view();
    &&& new.wf()
    &&& new.subsidy_view() == s
    &&& match r {
        Ok(rid) => {
            &&& rid == id
            &&& d.structural_error_of(id, parents) is None
            &&& decoded(payload) matches Some(v) && block_spec(view_state(d, parents, s), v, s) is Ok
            &&& new.dag_view().ids() == d.ids().push(id)
            &&& new.dag_view().extends(d)
            &&& new.dag_view().block_at(d.ids().len() as int).parents_view() == parents
            &&& new.dag_view().block_at(d.ids().len() as int).work_view() == work
            &&& new.dag_view().block_at(d.ids().len() as int).payload_view() == payload
        },
        Err(LedgerInsertError::Dag(e)) => {
            &&& d.structural_error_of(id, parents) == Some(e)
            &&& new == old
        },
        Err(LedgerInsertError::Ledger(e)) => {
            &&& d.structural_error_of(id, parents) is None
            &&& match decoded(payload) {
                None => e == LedgerError::Payload(DecodeError::Malformed),
                Some(v) => block_spec(view_state(d, parents, s), v, s) == Err::<(UtxoMap, BlockSummary), LedgerError>(e),
            }
            &&& new == old
        },
    }
}

/// A block DAG whose blocks carry transactions, with a per-block issuance
/// allowance. A block is accepted only if its transactions apply in its own
/// view (the state of its past), so a block that double-spends an ancestor
/// or carries a bad signature never enters the DAG.
pub struct Ledger {
    dag: Dag,
    subsidy: u64,
    /// The DAG as it stood after each block was added, oldest first.
    history: Ghost<Seq<Dag>>,
}

/// `p` holds the first blocks of `d`, in order, under the same `k`.
pub open spec fn same_prefix(p: Dag, d: Dag) -> bool {
    &&& p.k_view() == d.k_view()
    &&& p.ids().len() <= d.ids().len()
    &&& forall|j: int|
        0 <= j < p.ids().len() ==> {
            &&& (#[trigger] p.block_at(j)).parents_view() == d.block_at(j).parents_view()
            &&& p.block_at(j).work_view() == d.block_at(j).work_view()
            &&& p.block_at(j).payload_view() == d.block_at(j).payload_view()
        }
}

/// Block `b` met the ledger's checks against the DAG `p`: the DAG's
/// structural checks, and its transactions apply in its own view of `p`.
pub open spec fn accepted_at(p: Dag, b: Block, subsidy: u64) -> bool {
    &&& p.structural_error_of(b.spec_id(), b.parents_view()) is None
    &&& decoded(b.payload_view()) matches Some(v) && block_spec(view_state(p, b.parents_view(), subsidy), v, subsidy) is Ok
}

impl Ledger {
    /// The ledger is consistent: its DAG is, it runs no other validator,
    /// and every block met the checks when it was added.
    pub open spec fn wf(&self) -> bool {
        &&& self.dag_view().inv()
        &&& !self.dag_view().has_validator()
        &&& self.replayable()
    }

    /// The DAG as it stood after each block was added, oldest first.
    pub closed spec fn history(&self) -> Seq<Dag> {
        self.history@
    }

    /// Every block met the ledger's checks when it was added: the genesis
    /// block's transactions apply to an empty state, and every later block
    /// passed the structural checks and applied in its own view of the DAG
    /// as it then stood.
    pub open spec fn replayable(&self) -> bool {
        let d = self.dag_view();
        let h = self.history();
        let n = d.ids().len();
        &&& h.len() == n
        &&& n >= 1
        &&& h[n - 1] == d
        &&& forall|i: int|
            0 <= i < n ==> {
                &&& (#[trigger] h[i]).inv()
                &&& h[i].ids().len() == i + 1
                &&& same_prefix(h[i], d)
            }
        &&& decoded(d.block_at(0).payload_view()) matches Some(v) && block_spec(Map::empty(), v, self.subsidy_view()) is Ok
        &&& forall|i: int| 1 <= i < n ==> accepted_at(#[trigger] h[i - 1], d.block_at(i), self.subsidy_view())
    }

    /// The block DAG.
    pub closed spec fn dag_view(&self) -> Dag {
        self.dag
    }

    /// The per-block issuance allowance.
    pub closed spec fn subsidy_view(&self) -> u64 {
        self.subsidy
    }

    /// A ledger whose genesis block carries `genesis_txs` (typically one
    /// coinbase), with GHOSTDAG parameter `k` and per-block `subsidy`. Fails
    /// if the genesis transactions do not apply to an empty state.
    pub fn new(k: KParam, subsidy: u64, genesis_txs: &[Transaction]) -> (r: Result<Ledger, LedgerError>)
        ensures
            match decoded(payload_bytes(views(genesis_txs@))) {
                None => r == Err::<Ledger, LedgerError>(LedgerError::Payload(DecodeError::Malformed)),
                Some(v) => match block_spec(Map::empty(), v, subsidy) {
                    Err(e) => r == Err::<Ledger, LedgerError>(e),
                    Ok(_) => r matches Ok(l) && {
                        &&& l.wf()
                        &&& l.subsidy_view() == subsidy
                        &&& l.dag_view().k_view() == k
                        &&& l.dag_view().ids().len() == 1
                        &&& l.dag_view().block_at(0).parents_view().len() == 0
                        &&& l.dag_view().block_at(0).work_view() == 1
                        &&& l.dag_view().block_at(0).payload_view() == payload_bytes(views(genesis_txs@))
                    },
                },
            },
    {
        let payload = encode_block_payload(genesis_txs);
        Self::from_genesis(k, subsidy, Block::genesis(1, payload))
    }

    /// A ledger seeded with the block `genesis`, which names no parents.
    /// Fails if its payload does not hold transactions that apply to an
    /// empty state.
    pub fn from_genesis(k: KParam, subsidy: u64, genesis: Block) -> (r: Result<Ledger, LedgerError>)
        requires
            genesis.parents_view().len() == 0,
        ensures
            match decoded(genesis.payload_view()) {
                None => r == Err::<Ledger, LedgerError>(LedgerError::Payload(DecodeError::Malformed)),
                Some(v) => match block_spec(Map::empty(), v, subsidy) {
                    Err(e) => r == Err::<Ledger, LedgerError>(e),
                    Ok(_) => r matches Ok(l) && {
                        &&& l.wf()
                        &&& l.subsidy_view() == subsidy
                        &&& l.dag_view().k_view() == k
                        &&& l.dag_view().ids().len() == 1
                        &&& l.dag_view().block_at(0) == genesis
                    },
                },
            },
    {
        let txs = match decode_block_payload(genesis.payload()) {
            Ok(v) => v,
            Err(e) => {
                return Err(LedgerError::Payload(e));
            },
        };
        let mut state = UtxoSet::new();
        match apply_block(&mut state, txs.as_slice(), subsidy) {
            Ok(_) => {},
            Err(e) => {
                return Err(e);
            },
        }
        let dag = Dag::new(k, genesis);
        let ghost h = seq![dag];
        let l = Ledger { dag, subsidy, history: Ghost(h) };
        proof {
            assert(same_prefix(h[0], l.dag_view()));
        }
        Ok(l)
    }

    /// The block DAG.
    pub fn dag(&self) -> (r: &Dag)
        ensures
            *r == self.dag_view(),
    {
        &self.dag
    }

    /// The genesis block id.
    pub fn genesis(&self) -> (r: BlockId)
        requires
            self.wf(),
        ensures
            r == self.dag_view().ids()[0],
    {
        self.dag.genesis()
    }

    /// The per-block issuance allowance.
    pub fn subsidy(&self) -> (r: u64)
        ensures
            r == self.subsidy_view(),
    {
        self.subsidy
    }

    /// The full current state: every block applied in linearization order.
    pub fn ledger_state(&self) -> (r: UtxoSet)
        requires
            self.wf(),
        ensures
            r@ == full_state(self.dag_view(), self.subsidy_view()),
    {
        let run = apply_dag(&self.dag, self.subsidy);
        run.utxo
    }

    /// Whether `x` is one of `parents` or an ancestor of one of them.
    fn in_past(&self, parents: &[BlockId], x: BlockId) -> (r: bool)
        requires
            self.wf(),
        ensures
            r == in_past_of_parents(self.dag_view(), parents@, x),
    {
        let mut j: usize = 0;
        while j < parents.len()
            invariant
                self.wf(),
                j <= parents@.len(),
                forall|t: int| 0 <= t < j ==> !(parents@[t] == x || self.dag_view().is_ancestor_spec(x, #[trigger] parents@[t])),
            decreases parents@.len() - j,
        {
            if parents[j].0 == x.0 || self.dag.is_ancestor(&x, &parents[j]) {
                return true;
            }
            j = j + 1;
        }
        false
    }

    /// The state a block with `parents` sees: the blocks in its past,
    /// applied in linearization order.
    pub fn view_state(&self, parents: &[BlockId]) -> (r: UtxoSet)
        requires
            self.wf(),
        ensures
            r@ == view_state(self.dag_view(), parents@, self.subsidy_view()),
            self.dag_view().is_linearization(self.dag_view().linearization()),
    {
        let order = self.dag.linearize();
        proof {
            crate::ordering::lemma_linearization_topological(&self.dag, order@);
        }
        let mut past: Vec<BlockId> = Vec::new();
        let mut i: usize = 0;
        while i < order.len()
            invariant
                self.wf(),
                order@ == self.dag_view().linearization(),
                order@.len() == self.dag_view().ids().len(),
                forall|x: BlockId| self.dag_view().has(x) <==> #[trigger] order@.contains(x),
                i <= order@.len(),
                past@ == past_order(self.dag_view(), parents@, order@, i as int),
                forall|j: int| 0 <= j < past@.len() ==> self.dag_view().has(#[trigger] past@[j]),
            decreases order@.len() - i,
        {
            let x = order[i];
            if self.in_past(parents, x) {
                proof {
                    assert(order@.contains(x));
                }
                past.push(x);
            }
            i = i + 1;
        }
        let run = run_order(&self.dag, &past, self.subsidy);
        run.utxo
    }

    /// Add a block with `parents`, `work` and the transactions `txs` as its
    /// payload. Returns its id.
    ///
    /// Fails if the DAG refuses the block (duplicate, no parents, missing
    /// parent), or if its transactions do not apply on the state of its own
    /// past. A failed insert leaves the ledger unchanged.
    pub fn insert(&mut self, parents: Vec<BlockId>, work: u128, txs: &[Transaction]) -> (r: Result<BlockId, LedgerInsertError>)
        requires
            old(self).wf(),
        ensures
            insert_outcome(*old(self), *final(self), parents@, work, views(txs@), r),
    {
        let payload = encode_block_payload(txs);
        self.insert_block(Block::new(parents, work, payload))
    }

    /// Add `block` as it stands, its payload taken as raw bytes. Returns
    /// its id.
    ///
    /// Fails as [`Ledger::insert`] does, and also when the payload does not
    /// hold a list of transactions. A failed insert leaves the ledger
    /// unchanged.
    pub fn insert_block(&mut self, block: Block) -> (r: Result<BlockId, LedgerInsertError>)
        requires
            old(self).wf(),
        ensures
            block_outcome(*old(self), *final(self), block.parents_view(), block.work_view(), block.payload_view(), r),
    {
        match self.dag.preview(&block) {
            Ok(_) => {},
            Err(e) => {
                return Err(LedgerInsertError::Dag(e));
            },
        }
        let decoded_txs = match decode_block_payload(block.payload()) {
            Ok(v) => v,
            Err(e) => {
                return Err(LedgerInsertError::Ledger(LedgerError::Payload(e)));
            },
        };
        let mut view = self.view_state(block.parents());
        match apply_block(&mut view, decoded_txs.as_slice(), self.subsidy) {
            Ok(_) => {},
            Err(e) => {
                return Err(LedgerInsertError::Ledger(e));
            },
        }
        let ghost p = self.dag;
        let ghost b = block;
        match self.dag.insert(block) {
            Ok(id) => {
                let ghost h = self.history@;
                self.history = Ghost(h.push(self.dag));
                proof {
                    let d = self.dag;
                    let n = p.ids().len() as int;
                    d.lemma_extends_blocks(p);
                    let h2 = self.history@;
                    assert forall|i: int| 0 <= i < n + 1 implies {
                        &&& (#[trigger] h2[i]).inv()
                        &&& h2[i].ids().len() == i + 1
                        &&& same_prefix(h2[i], d)
                    } by {
                        if i < n {
                            assert(h2[i] == h[i]);
                            assert(same_prefix(h[i], p));
                        }
                    }
                    assert forall|i: int| 1 <= i < n + 1 implies accepted_at(#[trigger] h2[i - 1], d.block_at(i), self.subsidy) by {
                        assert(h2[i - 1] == h[i - 1]);
                        if i < n {
                            assert(accepted_at(h[i - 1], p.block_at(i), self.subsidy));
                        } else {
                            assert(h[n - 1] == p);
                            assert(d.block_at(n) == b);
                        }
                    }
                }
                Ok(id)
            },
            Err(e) => Err(LedgerInsertError::Dag(e)),
        }
    }
}

} // verus!
