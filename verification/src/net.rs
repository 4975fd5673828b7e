//! Exchanging blocks between nodes in one process: one node's blocks are
//! offered, in linearization order, to another, which adds those it lacks.
//! A node that declares an origin announces it with the blocks, and the
//! receiver counts a pulse for it (node policy, not consensus).
use vstd::prelude::*;

use crate::block::BlockId;
use crate::dag::{Dag, DagError};
use crate::ledger::{insert_outcome, Ledger, LedgerInsertError};
use crate::payload::decoded;
use crate::node::{export_ids, lemma_export_ids_present, lemma_record_id, observed, record_of, BlockRecord, Node, NodeError};
use crate::tx::views;

verus! {

/// Why a gossip exchange failed.
#[derive(Debug)]
pub enum NetError {
    /// The receiving node refused a block.
    Node(NodeError),
}

/// The blocks `n` offers a peer: every block but genesis whose payload
/// decodes, in linearization order.
pub open spec fn offered(n: Node) -> Seq<BlockId> {
    match n.ledger_view() {
        None => Seq::empty(),
        Some(l) => {
            let d = l.dag_view();
            export_ids(d, d.linearization(), d.ids().len() as int)
        },
    }
}

/// The pulse counts of `to` after an exchange with a node declaring
/// `origin`.
pub open spec fn announced(to: Node, origin: Option<crate::origin::Origin>) -> Seq<(crate::origin::Origin, u64)> {
    match origin {
        Some(o) => observed(to.pulses_view(), o),
        None => to.pulses_view(),
    }
}

/// `l` refuses the block `x` of `d`, as a peer's record carries it: adding
/// the block's parents, work and decoded transactions fails with `e` and
/// leaves `l` as it was.
pub open spec fn refuses(l: Ledger, d: Dag, x: BlockId, e: LedgerInsertError) -> bool {
    let b = d.block_at(d.pos(x));
    decoded(b.payload_view()) matches Some(txs) && insert_outcome(l, l, b.parents_view(), b.work_view(), txs, Err(e))
}

/// Offer every block of `from` to `to`, in linearization order, and count a
/// pulse for the origin `from` declares, if any. Returns how many blocks
/// `to` did not have. Blocks `to` already holds are skipped; the first
/// block it refuses ends the exchange with that error (and no pulse).
pub fn gossip(from: &Node, to: &mut Node) -> (r: Result<usize, NetError>)
    requires
        from.wf(),
        old(to).wf(),
    ensures
        final(to).wf(),
        final(to).pending() == old(to).pending(),
        final(to).origin_view() == old(to).origin_view(),
        match r {
            Ok(n) => {
                &&& final(to).pulses_view() == announced(*old(to), from.origin_view())
                &&& match (old(to).ledger_view(), final(to).ledger_view()) {
                    (Some(a), Some(b)) => {
                        &&& b.wf()
                        &&& b.subsidy_view() == a.subsidy_view()
                        &&& b.dag_view().ids().len() == a.dag_view().ids().len() + n
                        &&& b.dag_view().ids().subrange(0, a.dag_view().ids().len() as int) == a.dag_view().ids()
                        &&& forall|x: BlockId| #[trigger] b.dag_view().has(x) <==> (a.dag_view().has(x) || offered(*from).contains(x))
                    },
                    (None, None) => n == 0 && offered(*from).len() == 0,
                    _ => false,
                }
            },
            Err(NetError::Node(e)) => {
                &&& final(to).pulses_view() == old(to).pulses_view()
                &&& old(to).ledger_view() is None ==> (e matches NodeError::NotInitialized && final(to).ledger_view() is None
                    && offered(*from).len() > 0)
                &&& old(to).ledger_view() is Some ==> (e matches NodeError::Insert(ie) && final(to).ledger_view() matches Some(b)
                    && {
                    let a = old(to).ledger_view()->0;
                    &&& b.wf()
                    &&& b.subsidy_view() == a.subsidy_view()
                    &&& b.dag_view().ids().subrange(0, a.dag_view().ids().len() as int) == a.dag_view().ids()
                    &&& exists|t: int|
                        0 <= t < offered(*from).len() && (forall|x: BlockId| #[trigger] b.dag_view().has(x) <==> (a.dag_view().has(x)
                            || offered(*from).take(t).contains(x))) && #[trigger] refuses(
                            b,
                            from.ledger_view()->0.dag_view(),
                            offered(*from)[t],
                            ie,
                        )
                })
            },
        },
{
    let records = from.export();
    let ghost e = offered(*from);
    let ghost d = from.ledger_view()->0.dag_view();
    proof {
        from.lemma_ledger_wf();
        to.lemma_ledger_wf();
        if from.ledger_view() is Some {
            d.lemma_block_ids();
        }
        if old(to).ledger_view() is Some {
            let a = old(to).ledger_view()->0.dag_view().ids();
            assert(a.subrange(0, a.len() as int) =~= a);
        }
    }
    let n = records.len();
    // Reverse the list, so that the records come off its end in order.
    let mut records = records;
    let mut rest: Vec<BlockRecord> = Vec::new();
    while records.len() > 0
        invariant
            n == e.len(),
            records@.len() + rest@.len() == n,
            from.ledger_view() is Some ==> forall|t: int| 0 <= t < records@.len() ==> record_of(d, e[t], #[trigger] records@[t]),
            from.ledger_view() is Some ==> forall|t: int| 0 <= t < rest@.len() ==> record_of(d, e[n - 1 - t], #[trigger] rest@[t]),
        decreases records@.len(),
    {
        let rec = records.pop().unwrap();
        rest.push(rec);
    }
    let ghost start = old(to).ledger_view();
    let mut applied: usize = 0;
    let mut i: usize = 0;
    while rest.len() > 0
        invariant
            from.wf(),
            d == from.ledger_view()->0.dag_view(),
            e == offered(*from),
            n == e.len(),
            i + rest@.len() == n,
            from.ledger_view() is Some ==> forall|t: int| 0 <= t < rest@.len() ==> record_of(d, e[n - 1 - t], #[trigger] rest@[t]),
            from.ledger_view() is Some ==> forall|x: int| 0 <= x < d.ids().len() ==> #[trigger] d.block_at(x).spec_id() == d.ids()[x],
            from.ledger_view() is Some ==> d.inv(),
            from.ledger_view() is None ==> n == 0,
            to.wf(),
            to.pending() == old(to).pending(),
            to.origin_view() == old(to).origin_view(),
            to.pulses_view() == old(to).pulses_view(),
            start == old(to).ledger_view(),
            start is None ==> i == 0 && applied == 0 && to.ledger_view() is None,
            start is Some ==> (to.ledger_view() matches Some(b) && {
                let a = start->0;
                &&& b.wf()
                &&& b.subsidy_view() == a.subsidy_view()
                &&& b.dag_view().ids().len() == a.dag_view().ids().len() + applied
                &&& b.dag_view().ids().subrange(0, a.dag_view().ids().len() as int) == a.dag_view().ids()
                &&& forall|t: int| 0 <= t < i ==> b.dag_view().has(#[trigger] e[t])
                &&& forall|x: BlockId| #[trigger] b.dag_view().has(x) ==> (a.dag_view().has(x) || e.take(i as int).contains(x))
            }),
        decreases rest@.len(),
    {
        let ghost pending_recs = rest@;
        let rec = rest.pop().unwrap();
        proof {
            assert(rec == pending_recs[pending_recs.len() - 1]);
        }
        let before = match to.block_count() {
            Ok(c) => c,
            Err(err) => {
                return Err(NetError::Node(err));
            },
        };
        let ghost l_before = to.ledger_view()->0;
        let ghost rp = rec.parents@;
        let ghost rw = rec.work;
        let ghost rt = views(rec.txs@);
        match to.receive_block(rec) {
            Ok(_) => {
                proof {
                    to.lemma_ledger_wf();
                }
            },
            Err(err) => {
                proof {
                    if start is Some {
                        let b = to.ledger_view()->0;
                        let a = start->0;
                        let x = e[i as int];
                        let rec0 = pending_recs[pending_recs.len() - 1];
                        assert(rp == rec0.parents@ && rw == rec0.work && rt == views(rec0.txs@));
                        lemma_export_ids_present(d, d.linearization(), d.ids().len() as int);
                        assert(d.has(x));
                        assert(record_of(d, x, rec0));
                        let ir = choose|ir: Result<BlockId, LedgerInsertError>|
                            #[trigger] insert_outcome(l_before, b, rp, rw, rt, ir) && match ir {
                                Ok(id) => err == NodeError::NotInitialized && false,
                                Err(LedgerInsertError::Dag(DagError::DuplicateBlock(id))) => false,
                                Err(ie) => err == NodeError::Insert(ie),
                            };
                        assert(insert_outcome(l_before, b, rp, rw, rt, ir));
                        let ie = ir->Err_0;
                        assert(b == l_before);
                        assert(refuses(b, d, x, ie));
                        assert forall|y: BlockId| #[trigger] b.dag_view().has(y) <==> (a.dag_view().has(y)
                            || e.take(i as int).contains(y)) by {
                            if e.take(i as int).contains(y) {
                                let t = choose|t: int| 0 <= t < i && e.take(i as int)[t] == y;
                                assert(b.dag_view().has(e[t]));
                            }
                            if a.dag_view().has(y) {
                                let u = choose|u: int| 0 <= u < a.dag_view().ids().len() && a.dag_view().ids()[u] == y;
                                assert(b.dag_view().ids().subrange(0, a.dag_view().ids().len() as int)[u] == y);
                            }
                        }
                        assert(exists|t: int|
                            0 <= t < offered(*from).len() && (forall|y: BlockId| #[trigger] b.dag_view().has(y) <==> (a.dag_view().has(y)
                                || offered(*from).take(t).contains(y))) && #[trigger] refuses(
                                b,
                                from.ledger_view()->0.dag_view(),
                                offered(*from)[t],
                                ie,
                            ));
                    }
                }
                return Err(NetError::Node(err));
            },
        }
        let after = match to.block_count() {
            Ok(c) => c,
            Err(err) => {
                return Err(NetError::Node(err));
            },
        };
        proof {
            let b = to.ledger_view()->0;
            let a = start->0;
            let x = e[i as int];
            let rec0 = pending_recs[pending_recs.len() - 1];
            assert(rp == rec0.parents@ && rw == rec0.work && rt == views(rec0.txs@));
            lemma_export_ids_present(d, d.linearization(), d.ids().len() as int);
            assert(d.has(x));
            assert(record_of(d, x, rec0));
            lemma_record_id(d, x, rec0);
            let ir = choose|ir: Result<BlockId, LedgerInsertError>|
                #[trigger] insert_outcome(l_before, b, rp, rw, rt, ir) && match ir {
                    Ok(id) => true,
                    Err(LedgerInsertError::Dag(DagError::DuplicateBlock(id))) => true,
                    Err(_) => false,
                };
            assert(insert_outcome(l_before, b, rp, rw, rt, ir));
            let lb = l_before.dag_view();
            let bd = b.dag_view();
            match ir {
                Ok(id) => {
                    assert(bd.ids() == lb.ids().push(id));
                    assert(bd.ids()[lb.ids().len() as int] == x);
                    assert(bd.has(x));
                    assert(after == before + 1);
                    assert forall|t: int| 0 <= t < i implies bd.has(#[trigger] e[t]) by {
                        assert(lb.has(e[t]));
                        let u = choose|u: int| 0 <= u < lb.ids().len() && lb.ids()[u] == e[t];
                        assert(bd.ids()[u] == e[t]);
                    }
                    assert(bd.ids().subrange(0, a.dag_view().ids().len() as int) =~= a.dag_view().ids());
                    assert forall|y: BlockId| #[trigger] bd.has(y) implies (a.dag_view().has(y) || e.take(i + 1).contains(y)) by {
                        let u = choose|u: int| 0 <= u < bd.ids().len() && bd.ids()[u] == y;
                        if u < lb.ids().len() {
                            assert(lb.ids()[u] == y);
                            assert(lb.has(y));
                            if e.take(i as int).contains(y) {
                                let t = choose|t: int| 0 <= t < i && e.take(i as int)[t] == y;
                                assert(e.take(i + 1)[t] == y);
                            }
                        } else {
                            assert(e.take(i + 1)[i as int] == x);
                        }
                    }
                },
                Err(_) => {
                    assert(b == l_before);
                    assert(lb.has(x));
                    assert(after == before);
                    assert forall|y: BlockId| #[trigger] bd.has(y) implies (a.dag_view().has(y) || e.take(i + 1).contains(y)) by {
                        if e.take(i as int).contains(y) {
                            let t = choose|t: int| 0 <= t < i && e.take(i as int)[t] == y;
                            assert(e.take(i + 1)[t] == y);
                        }
                    }
                },
            }
        }
        if after > before {
            applied = applied + 1;
        }
        i = i + 1;
    }
    proof {
        if start is Some {
            let b = to.ledger_view()->0;
            assert forall|x: BlockId| #[trigger] offered(*from).contains(x) implies b.dag_view().has(x) by {
                let t = choose|t: int| 0 <= t < e.len() && e[t] == x;
                assert(b.dag_view().has(e[t]));
            }
        }
    }
    if let Some(o) = from.origin() {
        to.observe_origin(o);
    }
    Ok(applied)
}

} // verus!
