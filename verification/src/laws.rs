//! Properties of the DAG, its consensus data and the ledger that hold of
//! every state the library can reach.
use vstd::prelude::*;

use crate::block::BlockId;
use crate::crypto::ed25519_verifies;
use crate::dag::{graph_of, ids_at, DagError, ids_of, in_past_of, is_selected, key_lt, lemma_anc_past_size, lemma_node_ok_at, lemma_stored_facts, mergeset_ok, ms_lt, past_set, sizes_of, Dag, GhostdagData, KParam};
use crate::ghostdag::{acount, color_all, color_start, lemma_color_blues, lemma_color_order, lemma_color_split};
use crate::graph::{anc, childless, distinct_ids, lemma_anc_extend, lemma_anc_lt, lemma_anc_parent, lemma_anc_trans, lemma_anc_unfold};
use crate::ledger::{accepted_at, block_outcome, block_spec, full_state, payload_of, run_blocks, LedgerError, in_past_of_parents, input_error, insert_outcome, past_order, same_prefix, view_state, Ledger, LedgerInsertError, UtxoMap};
use crate::ordering::{lemma_linearization_exists, lemma_linearization_topological};
use crate::payload::{decoded, lemma_encoding_unique};
use crate::node::{best_fit, coin_lt, covers, seed_address, transfer_for, lemma_record_id, produce_outcome, received, record_of, restore_outcome, send_outcome, BlockRecord, Node, NodeError, Sent};
use crate::reachability::ints;
use crate::reorder::{lemma_insertion_order_free, lemma_state_order_free, same_block_set};
use crate::replay::{lemma_same_contents, lemma_same_view, same_contents};
use crate::snapshot::{dag_blocks, decode_snapshot, ledger_snap, lemma_snapshot_canonical, lemma_snapshot_roundtrip, read_outcome, replayed, snap_fits, snap_of, snapshot_bytes, SnapshotError};
use crate::tx::{views, address_bytes, encodes, payload_bytes, payload_fits, tx_sighash, Address, OutPoint, TxOutput, TxView};

verus! {

/// The k-cluster invariant: every block's blue anticone map has exactly
/// `blue_score` entries, one per distinct blue block of its past, and every
/// recorded blue-anticone size is at most `k`.
pub proof fn lemma_k_cluster(dag: &Dag, i: int)
    requires
        dag.inv(),
        0 <= i < dag.ids().len(),
    ensures
        dag.ghostdag_at(i).blue_anticone_sizes@.len() == dag.ghostdag_at(i).blue_score,
        forall|j: int| 0 <= j < dag.ghostdag_at(i).blue_anticone_sizes@.len() ==> (#[trigger] dag.ghostdag_at(
            i,
        ).blue_anticone_sizes@[j]).1 <= dag.k_view(),
        forall|j: int| 0 <= j < dag.ghostdag_at(i).blue_anticone_sizes@.len() ==> dag.is_ancestor_spec(
            (#[trigger] dag.ghostdag_at(i).blue_anticone_sizes@[j]).0,
            dag.ids()[i],
        ),
        forall|a: int, b: int|
            0 <= a < b < dag.ghostdag_at(i).blue_anticone_sizes@.len() ==> (#[trigger] dag.ghostdag_at(
                i,
            ).blue_anticone_sizes@[a]).0 != (#[trigger] dag.ghostdag_at(i).blue_anticone_sizes@[b]).0,
{
    dag.reveal_inv();
    let ns = dag.nodes@;
    let k = dag.k as int;
    lemma_node_ok_at(dag, i);
    lemma_stored_facts(ns, k, i);
    let nd = ns[i];
    let pre = ns.subrange(0, i);
    let gd = nd.ghostdag;
    let bl = ints(nd.blues@);
    let sz = sizes_of(nd.blue_sizes@);
    assert forall|j: int| 0 <= j < gd.blue_anticone_sizes@.len() implies (#[trigger] gd.blue_anticone_sizes@[j]).1
        <= dag.k_view() && dag.is_ancestor_spec(gd.blue_anticone_sizes@[j].0, dag.ids()[i]) by {
        assert(gd.blue_anticone_sizes@[j] == (pre[nd.blues@[j] as int].id, nd.blue_sizes@[j]));
        assert(sz[j] == nd.blue_sizes@[j] as int);
        let p = nd.blues@[j] as int;
        assert(pre[p] == ns[p]);
        assert(anc(graph_of(ns), p, i));
        assert(dag.ids()[p] == gd.blue_anticone_sizes@[j].0);
    }
    assert forall|a: int, b: int| 0 <= a < b < gd.blue_anticone_sizes@.len() implies (#[trigger] gd.blue_anticone_sizes@[a]).0
        != (#[trigger] gd.blue_anticone_sizes@[b]).0 by {
        let pa = nd.blues@[a] as int;
        let pb = nd.blues@[b] as int;
        assert(gd.blue_anticone_sizes@[a] == (pre[pa].id, nd.blue_sizes@[a]));
        assert(gd.blue_anticone_sizes@[b] == (pre[pb].id, nd.blue_sizes@[b]));
        assert(bl[a] == pa && bl[b] == pb);
        assert(pa != pb);
        assert(pre[pa] == ns[pa] && pre[pb] == ns[pb]);
        assert(distinct_ids(ids_of(ns)));
        assert(ids_of(ns)[pa] != ids_of(ns)[pb]);
    }
}

/// A block's `past_size` is the number of its strict ancestors.
pub proof fn lemma_past_size(dag: &Dag, i: int)
    requires
        dag.inv(),
        0 <= i < dag.ids().len(),
    ensures
        past_set(dag.graph(), i).finite(),
        dag.past_size_at(i) == past_set(dag.graph(), i).len(),
{
    dag.reveal_inv();
    lemma_stored_facts(dag.nodes@, dag.k as int, i);
}

/// Ancestry is a strict partial order: no block is its own ancestor, it is
/// transitive, and two blocks are never ancestors of each other.
pub proof fn lemma_ancestry_strict_order(dag: &Dag, a: BlockId, b: BlockId, c: BlockId)
    requires
        dag.inv(),
    ensures
        !dag.is_ancestor_spec(a, a),
        dag.is_ancestor_spec(a, b) && dag.is_ancestor_spec(b, c) ==> dag.is_ancestor_spec(a, c),
        dag.is_ancestor_spec(a, b) ==> !dag.is_ancestor_spec(b, a),
{
    dag.lemma_inv_shape();
    let g = dag.graph();
    let ids = dag.ids();
    if dag.is_ancestor_spec(a, a) {
        let (i, j) = choose|i: int, j: int| 0 <= i < ids.len() && 0 <= j < ids.len() && ids[i] == a && ids[j] == a && #[trigger] anc(g, i, j);
        lemma_anc_lt(g, i, j);
    }
    if dag.is_ancestor_spec(a, b) && dag.is_ancestor_spec(b, c) {
        let (i, j) = choose|i: int, j: int| 0 <= i < ids.len() && 0 <= j < ids.len() && ids[i] == a && ids[j] == b && #[trigger] anc(g, i, j);
        let (j2, l) = choose|i: int, j: int| 0 <= i < ids.len() && 0 <= j < ids.len() && ids[i] == b && ids[j] == c && #[trigger] anc(g, i, j);
        assert(j == j2);
        lemma_anc_trans(g, i, j, l);
    }
    if dag.is_ancestor_spec(a, b) && dag.is_ancestor_spec(b, a) {
        let (i, j) = choose|i: int, j: int| 0 <= i < ids.len() && 0 <= j < ids.len() && ids[i] == a && ids[j] == b && #[trigger] anc(g, i, j);
        let (j2, i2) = choose|i: int, j: int| 0 <= i < ids.len() && 0 <= j < ids.len() && ids[i] == b && ids[j] == a && #[trigger] anc(g, i, j);
        assert(j == j2 && i == i2);
        lemma_anc_lt(g, i, j);
        lemma_anc_lt(g, j, i);
    }
}

/// Being in each other's anticone is symmetric and never holds of a block
/// and itself.
pub proof fn lemma_anticone_symmetric(dag: &Dag, a: BlockId, b: BlockId)
    ensures
        dag.in_anticone_spec(a, b) == dag.in_anticone_spec(b, a),
        !dag.in_anticone_spec(a, a),
{
}

/// Every block is a tip or an ancestor of one.
proof fn lemma_reaches_tip(dag: &Dag, i: int)
    requires
        dag.inv(),
        0 <= i < dag.ids().len(),
    ensures
        in_past_of_parents(*dag, dag.tips_view(), dag.ids()[i]),
    decreases dag.ids().len() - i,
{
    dag.lemma_inv_shape();
    let g = dag.graph();
    let ids = dag.ids();
    let tips = dag.tips_view();
    dag.reveal_inv();
    if childless(g, i) {
        assert(dag.is_tip_spec(ids[i]));
        assert(tips.contains(ids[i]));
        let j = choose|j: int| 0 <= j < tips.len() && tips[j] == ids[i];
        assert(tips[j] == ids[i]);
    } else {
        let (c, k) = choose|c: int, k: int| 0 <= c < g.len() && 0 <= k < g[c].len() && #[trigger] g[c][k] == i;
        assert(0 <= g[c][k] < c);
        lemma_anc_parent(g, c, k);
        lemma_reaches_tip(dag, c);
        let j = choose|j: int| 0 <= j < tips.len() && (tips[j] == ids[c] || dag.is_ancestor_spec(ids[c], #[trigger] tips[j]));
        if tips[j] == ids[c] {
            assert(dag.is_ancestor_spec(ids[i], tips[j]));
        } else {
            let (c2, t) = choose|x: int, y: int| 0 <= x < ids.len() && 0 <= y < ids.len() && ids[x] == ids[c] && ids[y] == tips[j] && #[trigger] anc(g, x, y);
            assert(c2 == c);
            lemma_anc_trans(g, i, c, t);
            assert(dag.is_ancestor_spec(ids[i], tips[j]));
        }
        assert(in_past_of_parents(*dag, tips, ids[i]));
    }
}

/// A block built on all the current tips sees the full ledger state: every
/// block of the DAG is in its past, in linearization order.
pub proof fn lemma_all_tips_view(dag: &Dag, subsidy: u64)
    requires
        dag.inv(),
    ensures
        view_state(*dag, dag.tips_view(), subsidy) == full_state(*dag, subsidy),
{
    lemma_linearization_exists(dag);
    let lin = dag.linearization();
    let n = dag.ids().len() as int;
    let tips = dag.tips_view();
    lemma_linearization_topological(dag, lin);
    assert forall|x: BlockId| #[trigger] lin.contains(x) implies in_past_of_parents(*dag, tips, x) by {
        assert(dag.has(x));
        let i = choose|i: int| 0 <= i < dag.ids().len() && dag.ids()[i] == x;
        lemma_reaches_tip(dag, i);
    }
    assert forall|k: int| 0 <= k <= n implies #[trigger] past_order(*dag, tips, lin, k) == lin.take(k) by {
        lemma_past_order_all(dag, tips, lin, k);
    }
    assert(lin.take(n) =~= lin);
}

/// When every block of `order` is in the past, `past_order` keeps them all.
proof fn lemma_past_order_all(dag: &Dag, parents: Seq<BlockId>, order: Seq<BlockId>, k: int)
    requires
        0 <= k <= order.len(),
        forall|x: BlockId| #[trigger] order.contains(x) ==> in_past_of_parents(*dag, parents, x),
    ensures
        past_order(*dag, parents, order, k) == order.take(k),
    decreases k,
{
    if k > 0 {
        lemma_past_order_all(dag, parents, order, k - 1);
        assert(order.contains(order[k - 1]));
        assert(order.take(k) =~= order.take(k - 1).push(order[k - 1]));
    }
}

/// Decoding the encoding of transactions the encoding can carry gives them
/// back.
pub proof fn lemma_payload_roundtrip(s: Seq<TxView>)
    requires
        payload_fits(s),
    ensures
        decoded(payload_bytes(s)) == Some(s),
{
    assert(encodes(payload_bytes(s), s));
    let c = choose|c: Seq<TxView>| #[trigger] encodes(payload_bytes(s), c);
    lemma_encoding_unique(payload_bytes(s), c, s);
}

/// A spend signed over the transaction's signature hash by the key of the
/// spent output's owner passes the input checks, when the output is unspent
/// and not spent earlier in the same transaction.
pub proof fn lemma_signed_spend_accepted(m: UtxoMap, t: TxView, i: int, owner: Address)
    requires
        0 <= i < t.inputs.len(),
        m.contains_key(t.inputs[i].outpoint),
        m[t.inputs[i].outpoint].owner == owner,
        forall|j: int| 0 <= j < i ==> #[trigger] t.inputs[j].outpoint != t.inputs[i].outpoint,
        t.inputs[i].signature.len() == 64,
        ed25519_verifies(address_bytes(owner), tx_sighash(t), t.inputs[i].signature),
    ensures
        input_error(m, t, i) is None,
{
}

/// A block of a ledger is not refused by any ledger holding the same blocks
/// before it.
proof fn lemma_block_accepted_again(l: Ledger, l1: Ledger, i: int, e: LedgerInsertError)
    requires
        l.wf(),
        1 <= i < l.dag_view().ids().len(),
        replayed(l1, ledger_snap(l), i),
    ensures
        !block_outcome(
            l1,
            l1,
            l.dag_view().block_at(i).parents_view(),
            l.dag_view().block_at(i).work_view(),
            l.dag_view().block_at(i).payload_view(),
            Err(e),
        ),
{
    let v = ledger_snap(l);
    let d = l.dag_view();
    let h = l.history();
    let p = h[i - 1];
    let d1 = l1.dag_view();
    assert(same_prefix(p, d));
    assert(p.ids().len() == i);
    assert(dag_blocks(d1) == v.blocks.subrange(0, i));
    assert(v.blocks.len() == d.ids().len());
    assert(dag_blocks(d1).len() == d1.ids().len());
    assert(d1.ids().len() == i);
    assert(same_contents(p, d1)) by {
        assert forall|j: int| 0 <= j < p.ids().len() implies {
            &&& (#[trigger] p.block_at(j)).parents_view() == d1.block_at(j).parents_view()
            &&& p.block_at(j).work_view() == d1.block_at(j).work_view()
            &&& p.block_at(j).payload_view() == d1.block_at(j).payload_view()
        } by {
            assert(dag_blocks(d1)[j] == v.blocks.subrange(0, i)[j]);
            assert(dag_blocks(d)[j] == v.blocks[j]);
            assert(snap_of(d1.block_at(j)) == snap_of(d.block_at(j)));
            assert(p.block_at(j).parents_view() == d.block_at(j).parents_view());
        }
        assert(p.k_view() == d1.k_view());
        assert(p.ids().len() == d1.ids().len());
    }
    let b = d.block_at(i);
    assert(accepted_at(p, b, l.subsidy_view()));
    lemma_same_view(&p, &d1, b.spec_id(), b.parents_view(), l.subsidy_view());
}

/// Persistence: the snapshot of a ledger loads. Its bytes decode to exactly
/// the ledger's GHOSTDAG parameter, subsidy and blocks; every block is
/// accepted again when it is added back, since the checks a block meets
/// depend only on the blocks before it; and the loaded ledger holds the
/// same parameter, subsidy and blocks in the same order.
pub proof fn lemma_snapshot_reload(l: Ledger, r: Result<Ledger, SnapshotError>)
    requires
        l.wf(),
        snap_fits(ledger_snap(l)),
        read_outcome(snapshot_bytes(ledger_snap(l)), r),
    ensures
        r matches Ok(l2) && ledger_snap(l2) == ledger_snap(l),
{
    lemma_snapshot_roundtrip(ledger_snap(l));
    l.dag_view().lemma_genesis_no_parents();
    let v = ledger_snap(l);
    let d = l.dag_view();
    assert(v.blocks[0].parents.len() == 0);
    assert(decode_snapshot(snapshot_bytes(v)) == Some(v));
    match r {
        Ok(l2) => {
            assert(v.blocks.subrange(0, v.blocks.len() as int) =~= v.blocks);
            assert(ledger_snap(l2).blocks == v.blocks);
        },
        Err(SnapshotError::Genesis(e)) => {
            assert(v.blocks[0].payload == d.block_at(0).payload_view());
        },
        Err(SnapshotError::Block(i, e)) => {
            let i = i as int;
            let l1 = choose|l1: Ledger|
                #[trigger] replayed(l1, v, i) && block_outcome(
                    l1,
                    l1,
                    v.blocks[i].parents,
                    v.blocks[i].work,
                    v.blocks[i].payload,
                    Err(e),
                );
            assert(v.blocks[i] == snap_of(d.block_at(i)));
            lemma_block_accepted_again(l, l1, i, e);
        },
        _ => {},
    }
}

/// Adding a block is idempotent: once a block is in the ledger, offering
/// it again is refused as a duplicate, names the same id, and leaves the
/// ledger as it was.
pub proof fn lemma_insert_idempotent(
    l1: Ledger,
    l2: Ledger,
    l3: Ledger,
    parents: Seq<BlockId>,
    work: u128,
    txs: Seq<TxView>,
    id: BlockId,
    r2: Result<BlockId, LedgerInsertError>,
)
    requires
        insert_outcome(l1, l2, parents, work, txs, Ok(id)),
        insert_outcome(l2, l3, parents, work, txs, r2),
    ensures
        r2 == Err::<BlockId, LedgerInsertError>(LedgerInsertError::Dag(DagError::DuplicateBlock(id))),
        l3 == l2,
{
    let d = l2.dag_view();
    assert(d.ids()[l1.dag_view().ids().len() as int] == id);
    assert(d.has(id));
}

/// Origin is node policy, not consensus: two nodes that hold the same
/// ledger and mempool, whatever origins they declare or have seen, can
/// reach the same ledger and mempool, with the same result, by the same
/// immediate transfer or by packing their mempools.
pub proof fn lemma_origin_is_not_consensus(
    a: Node,
    a2: Node,
    b: Node,
    b2: Node,
    from_seed: u64,
    amount: u64,
    to_seed: u64,
    sent: Result<Sent, NodeError>,
    produced: Result<Option<BlockId>, NodeError>,
)
    requires
        a.ledger_view() == b.ledger_view(),
        a.pending() == b.pending(),
        b2.ledger_view() == a2.ledger_view(),
        b2.pending() == a2.pending(),
        b2.origin_view() == b.origin_view(),
        b2.pulses_view() == b.pulses_view(),
    ensures
        send_outcome(a, a2, from_seed, amount, to_seed, sent) ==> send_outcome(b, b2, from_seed, amount, to_seed, sent),
        produce_outcome(a, a2, produced) ==> produce_outcome(b, b2, produced),
{
}

/// Persistence: a ledger loaded from a snapshot writes that same snapshot
/// back, byte for byte.
pub proof fn lemma_loaded_snapshot_rewrites(bytes: Seq<u8>, l: Ledger)
    requires
        read_outcome(bytes, Ok(l)),
    ensures
        snapshot_bytes(ledger_snap(l)) == bytes,
{
    let v = decode_snapshot(bytes)->0;
    lemma_snapshot_canonical(bytes);
    assert(v.blocks.subrange(0, v.blocks.len() as int) =~= v.blocks);
    assert(ledger_snap(l).blocks == v.blocks);
    assert(ledger_snap(l) == v);
}


// ---------------------------------------------------------------------------
// The GHOSTDAG rules, stated by id.

/// `x` is in the mergeset of block `b` whose selected parent is `sp`: in
/// `b`'s past, but neither `sp` nor in `sp`'s past.
pub open spec fn in_mergeset_of(dag: Dag, b: BlockId, sp: BlockId, x: BlockId) -> bool {
    dag.is_ancestor_spec(x, b) && x != sp && !dag.is_ancestor_spec(x, sp)
}

/// How many of `keys` lie in the anticone of `x`.
pub open spec fn anticone_count(dag: Dag, keys: Seq<BlockId>, x: BlockId) -> int
    decreases keys.len(),
{
    if keys.len() == 0 {
        0
    } else {
        anticone_count(dag, keys.drop_last(), x) + if dag.in_anticone_spec(keys.last(), x) { 1int } else { 0int }
    }
}

/// The blue blocks a block's blue anticone map lists, in order.
pub open spec fn blue_keys(gd: GhostdagData) -> Seq<BlockId> {
    gd.blue_anticone_sizes@.map_values(|e: (BlockId, KParam)| e.0)
}

/// Ancestry by id is ancestry by position.
proof fn lemma_anc_by_id(dag: &Dag, p: int, q: int)
    requires
        dag.inv(),
        0 <= p < dag.ids().len(),
        0 <= q < dag.ids().len(),
    ensures
        dag.is_ancestor_spec(dag.ids()[p], dag.ids()[q]) == anc(dag.graph(), p, q),
{
    dag.lemma_inv_shape();
    let ids = dag.ids();
    if dag.is_ancestor_spec(ids[p], ids[q]) {
        let (i, j) = choose|i: int, j: int| 0 <= i < ids.len() && 0 <= j < ids.len() && ids[i] == ids[p] && ids[j] == ids[q] && #[trigger] anc(dag.graph(), i, j);
        assert(i == p && j == q);
    }
}

/// Counting a blue set's anticone by id counts it by position.
proof fn lemma_anticone_count(dag: &Dag, bl: Seq<int>, c: int)
    requires
        dag.inv(),
        forall|j: int| 0 <= j < bl.len() ==> 0 <= #[trigger] bl[j] < dag.ids().len(),
        0 <= c < dag.ids().len(),
    ensures
        anticone_count(*dag, bl.map_values(|x: int| dag.ids()[x]), dag.ids()[c]) == acount(dag.graph(), bl, c),
    decreases bl.len(),
{
    if bl.len() > 0 {
        let ids = dag.ids();
        dag.lemma_inv_shape();
        lemma_anticone_count(dag, bl.drop_last(), c);
        assert(bl.map_values(|x: int| ids[x]).drop_last() =~= bl.drop_last().map_values(|x: int| ids[x]));
        let b = bl.last();
        assert(bl[bl.len() - 1] == b);
        lemma_anc_by_id(dag, b, c);
        lemma_anc_by_id(dag, c, b);
        if b != c {
            assert(ids[b] != ids[c]);
        }
    }
}

/// The GHOSTDAG rules every block other than genesis follows. Its selected
/// parent is one of its parents, and no parent has a larger chain key
/// `(blue_work, blue_score, id)`. Its mergeset (its past, less the selected
/// parent and that parent's past) is split between mergeset blues and reds,
/// each block on exactly one side. Its blue set is the selected parent's
/// blue set, then the selected parent, then the mergeset blues, so its blue
/// score is the selected parent's plus one plus the number of mergeset
/// blues. Each blue block's recorded anticone size is the number of blue
/// blocks in its anticone.
pub proof fn lemma_ghostdag_rules(dag: &Dag, i: int)
    requires
        dag.inv(),
        0 < i < dag.ids().len(),
    ensures
        ({
            let id = dag.ids()[i];
            let gd = dag.ghostdag_at(i);
            let s = dag.tree()[i];
            let sp = dag.ids()[s];
            let spd = dag.ghostdag_at(s);
            let ps = dag.block_at(i).parents_view();
            &&& 0 <= s < i
            &&& gd.selected_parent == Some(sp)
            &&& ps.contains(sp)
            &&& forall|j: int| 0 <= j < ps.len() ==> !dag.chain_key_lt(sp, #[trigger] ps[j])
            &&& forall|j: int|
                0 <= j < ps.len() ==> spd.blue_work >= dag.ghostdag_at(dag.pos(#[trigger] ps[j])).blue_work && (spd.blue_work
                    == dag.ghostdag_at(dag.pos(ps[j])).blue_work ==> spd.blue_score >= dag.ghostdag_at(dag.pos(ps[j])).blue_score)
                    && (spd.blue_work == dag.ghostdag_at(dag.pos(ps[j])).blue_work && spd.blue_score == dag.ghostdag_at(
                    dag.pos(ps[j]),
                ).blue_score ==> sp.0 >= ps[j].0)
            &&& forall|x: BlockId|
                #![trigger in_mergeset_of(*dag, id, sp, x)]
                #![trigger gd.mergeset_blues@.contains(x)]
                #![trigger gd.mergeset_reds@.contains(x)]
                (gd.mergeset_blues@.contains(x) || gd.mergeset_reds@.contains(x)) <==> in_mergeset_of(*dag, id, sp, x)
            &&& forall|x: BlockId| !(#[trigger] gd.mergeset_blues@.contains(x) && gd.mergeset_reds@.contains(x))
            &&& forall|a: int, c: int|
                0 <= a < c < gd.mergeset_blues@.len() ==> !dag.is_ancestor_spec(
                    #[trigger] gd.mergeset_blues@[c],
                    #[trigger] gd.mergeset_blues@[a],
                )
            &&& forall|a: int, c: int|
                0 <= a < c < gd.mergeset_reds@.len() ==> !dag.is_ancestor_spec(
                    #[trigger] gd.mergeset_reds@[c],
                    #[trigger] gd.mergeset_reds@[a],
                )
            &&& blue_keys(gd) == blue_keys(spd).push(sp) + gd.mergeset_blues@
            &&& gd.blue_score == spd.blue_score + 1 + gd.mergeset_blues@.len()
            &&& forall|j: int|
                0 <= j < gd.blue_anticone_sizes@.len() ==> (#[trigger] gd.blue_anticone_sizes@[j]).1 == anticone_count(
                    *dag,
                    blue_keys(gd),
                    gd.blue_anticone_sizes@[j].0,
                )
        }),
{
    dag.reveal_inv();
    dag.lemma_inv_shape();
    let ns = dag.nodes@;
    let k = dag.k as int;
    let g = graph_of(ns);
    let ids = ids_of(ns);
    let pre = ns.subrange(0, i);
    let nd = ns[i];
    lemma_node_ok_at(dag, i);
    let s = nd.selected as int;
    assert(dag.tree()[i] == s);
    let sp = ids[s];
    let spn = ns[s];
    let gp = graph_of(pre);
    let psn = ints(nd.parents@);
    let ms = ints(nd.mergeset@);
    let st = color_start(ints(spn.blues@), sizes_of(spn.blue_sizes@), s);
    assert(pre[s] == spn);
    let col = color_all(gp, st, ms, k);
    let gd = nd.ghostdag;
    let spd = spn.ghostdag;
    let id = ids[i];
    assert(gp =~= g.subrange(0, i));
    assert(psn == g[i]);
    // Selected parent.
    assert(is_selected(pre, psn, s));
    let js = choose|j: int| 0 <= j < psn.len() && psn[j] == s;
    assert(0 <= s < i);
    let ps = dag.block_at(i).parents_view();
    assert(ps[js] == pre[nd.parents@[js] as int].id);
    assert(ps.contains(sp));
    dag.lemma_pos(sp, s);
    assert forall|j: int| 0 <= j < ps.len() implies !dag.chain_key_lt(sp, #[trigger] ps[j]) by {
        let q = psn[j];
        assert(q == nd.parents@[j] as int);
        assert(ps[j] == pre[q].id);
        assert(pre[q] == ns[q]);
        dag.lemma_pos(ps[j], q);
        assert(!key_lt(pre, s, psn[j]));
    }
    assert forall|j: int| 0 <= j < ps.len() implies spd.blue_work >= dag.ghostdag_at(dag.pos(#[trigger] ps[j])).blue_work
        && (spd.blue_work == dag.ghostdag_at(dag.pos(ps[j])).blue_work ==> spd.blue_score >= dag.ghostdag_at(
        dag.pos(ps[j]),
    ).blue_score) && (spd.blue_work == dag.ghostdag_at(dag.pos(ps[j])).blue_work && spd.blue_score == dag.ghostdag_at(
        dag.pos(ps[j]),
    ).blue_score ==> sp.0 >= ps[j].0) by {
        let q = psn[j];
        assert(q == nd.parents@[j] as int);
        assert(ps[j] == pre[q].id);
        assert(pre[q] == ns[q]);
        dag.lemma_pos(ps[j], q);
        assert(!key_lt(pre, s, psn[j]));
    }
    // The mergeset, split.
    assert(mergeset_ok(pre, psn, s, ms));
    assert(ms.no_duplicates()) by {
        assert forall|a: int, b: int| 0 <= a < ms.len() && 0 <= b < ms.len() && a != b implies ms[a] != ms[b] by {
            if a < b {
                assert(ms_lt(pre, ms[a], ms[b]));
            } else {
                assert(ms_lt(pre, ms[b], ms[a]));
            }
        }
    }
    lemma_color_split(gp, st, ms, k);
    lemma_color_blues(gp, st, ms, k);
    assert(gd.mergeset_blues@ == ids_at(pre, col.mblues));
    assert(gd.mergeset_reds@ == ids_at(pre, col.mreds));
    assert forall|j: int| 0 <= j < col.mblues.len() implies 0 <= #[trigger] col.mblues[j] < i by {
        assert(ints(nd.mblues@)[j] == nd.mblues@[j] as int);
    }
    assert forall|j: int| 0 <= j < col.mreds.len() implies 0 <= #[trigger] col.mreds[j] < i by {
        assert(ints(nd.mreds@)[j] == nd.mreds@[j] as int);
    }
    // A position below `i` is in the mergeset exactly when its id is.
    assert forall|x: int| 0 <= x < i implies #[trigger] ms.contains(x) == in_mergeset_of(*dag, id, sp, ids[x]) by {
        lemma_anc_by_id(dag, x, i);
        lemma_anc_by_id(dag, x, s);
        lemma_anc_extend(gp, g, x, s);
        if x == s {
        } else {
            assert(ids[x] != sp);
        }
        if in_past_of(gp, psn, x) {
            let t = choose|t: int| #![trigger psn[t]] 0 <= t < psn.len() && (psn[t] == x || anc(gp, x, psn[t]));
            lemma_anc_parent(g, i, t);
            if psn[t] != x {
                lemma_anc_extend(gp, g, x, psn[t]);
                lemma_anc_trans(g, x, psn[t], i);
            }
        }
        if anc(g, x, i) {
            lemma_anc_unfold(g, x, i);
            let t = choose|t: int| 0 <= t < g[i].len() && 0 <= #[trigger] g[i][t] < i && (g[i][t] == x || anc(g, x, g[i][t]));
            if g[i][t] != x {
                lemma_anc_extend(gp, g, x, g[i][t]);
            }
            assert(psn[t] == g[i][t]);
        }
    }
    assert forall|y: BlockId|
        #![trigger in_mergeset_of(*dag, id, sp, y)]
        #![trigger gd.mergeset_blues@.contains(y)]
        #![trigger gd.mergeset_reds@.contains(y)]
        (gd.mergeset_blues@.contains(y) || gd.mergeset_reds@.contains(y)) <==> in_mergeset_of(*dag, id, sp, y) by {
        if gd.mergeset_blues@.contains(y) {
            let j = choose|j: int| 0 <= j < gd.mergeset_blues@.len() && gd.mergeset_blues@[j] == y;
            let x = col.mblues[j];
            assert(col.mblues.contains(x));
            assert(pre[x] == ns[x]);
            assert(ids[x] == y);
        }
        if gd.mergeset_reds@.contains(y) {
            let j = choose|j: int| 0 <= j < gd.mergeset_reds@.len() && gd.mergeset_reds@[j] == y;
            let x = col.mreds[j];
            assert(col.mreds.contains(x));
            assert(pre[x] == ns[x]);
            assert(ids[x] == y);
        }
        if in_mergeset_of(*dag, id, sp, y) {
            let (a, b) = choose|a: int, b: int| 0 <= a < ids.len() && 0 <= b < ids.len() && ids[a] == y && ids[b] == id && #[trigger] anc(g, a, b);
            assert(b == i);
            lemma_anc_lt(g, a, i);
            assert(ms.contains(a));
            if col.mblues.contains(a) {
                let j = choose|j: int| 0 <= j < col.mblues.len() && col.mblues[j] == a;
                assert(gd.mergeset_blues@[j] == pre[a].id);
                assert(pre[a] == ns[a]);
            } else {
                assert(col.mreds.contains(a));
                let j = choose|j: int| 0 <= j < col.mreds.len() && col.mreds[j] == a;
                assert(gd.mergeset_reds@[j] == pre[a].id);
                assert(pre[a] == ns[a]);
            }
        }
    }
    assert forall|y: BlockId| !(#[trigger] gd.mergeset_blues@.contains(y) && gd.mergeset_reds@.contains(y)) by {
        if gd.mergeset_blues@.contains(y) && gd.mergeset_reds@.contains(y) {
            let j1 = choose|j: int| 0 <= j < gd.mergeset_blues@.len() && gd.mergeset_blues@[j] == y;
            let j2 = choose|j: int| 0 <= j < gd.mergeset_reds@.len() && gd.mergeset_reds@[j] == y;
            let x1 = col.mblues[j1];
            let x2 = col.mreds[j2];
            assert(pre[x1] == ns[x1] && pre[x2] == ns[x2]);
            assert(ids[x1] == ids[x2]);
            assert(x1 == x2);
            assert(col.mblues.contains(x1));
            assert(col.mreds.contains(x1));
        }
    }
    // The mergeset blues and reds keep the mergeset's topological order.
    let lt = |x: int, y: int| ms_lt(pre, x, y);
    assert forall|i1: int, i2: int| 0 <= i1 < i2 < ms.len() implies #[trigger] lt(ms[i1], ms[i2]) by {
        assert(ms_lt(pre, ms[i1], ms[i2]));
    }
    lemma_color_order(gp, st, ms, k, lt);
    assert forall|a: int, c: int|
        0 <= a < c < gd.mergeset_blues@.len() implies !dag.is_ancestor_spec(
        #[trigger] gd.mergeset_blues@[c],
        #[trigger] gd.mergeset_blues@[a],
    ) by {
        let x = col.mblues[a];
        let y = col.mblues[c];
        assert(lt(x, y));
        assert(pre[x] == ns[x] && pre[y] == ns[y]);
        lemma_anc_by_id(dag, y, x);
        if anc(g, y, x) {
            lemma_anc_past_size(ns, k, y, x);
        }
    }
    assert forall|a: int, c: int|
        0 <= a < c < gd.mergeset_reds@.len() implies !dag.is_ancestor_spec(
        #[trigger] gd.mergeset_reds@[c],
        #[trigger] gd.mergeset_reds@[a],
    ) by {
        let x = col.mreds[a];
        let y = col.mreds[c];
        assert(lt(x, y));
        assert(pre[x] == ns[x] && pre[y] == ns[y]);
        lemma_anc_by_id(dag, y, x);
        if anc(g, y, x) {
            lemma_anc_past_size(ns, k, y, x);
        }
    }
    // The blue set.
    lemma_node_ok_at(dag, s);
    let bl = ints(nd.blues@);
    assert(bl == col.blues);
    assert(col.blues == st.blues + col.mblues);
    assert(blue_keys(gd) =~= blue_keys(spd).push(sp) + gd.mergeset_blues@) by {
        let spbl = ints(spn.blues@);
        assert forall|j: int| 0 <= j < blue_keys(gd).len() implies #[trigger] blue_keys(gd)[j] == (blue_keys(spd).push(sp) + gd.mergeset_blues@)[j] by {
            let x = nd.blues@[j] as int;
            assert(gd.blue_anticone_sizes@[j] == (pre[x].id, nd.blue_sizes@[j]));
            assert(bl[j] == x);
            if j < spbl.len() {
                let y = spn.blues@[j] as int;
                assert(spd.blue_anticone_sizes@[j] == (ns.subrange(0, s)[y].id, spn.blue_sizes@[j]));
                assert(st.blues[j] == spbl[j]);
                assert(ns.subrange(0, s)[y] == ns[y]);
                assert(pre[x] == ns[x]);
            } else if j == spbl.len() {
                assert(st.blues[j] == s);
            } else {
                let m = j - spbl.len() - 1;
                assert(col.mblues[m] == x);
                assert(gd.mergeset_blues@[m] == pre[x].id);
            }
        }
    }
    // Anticone sizes.
    lemma_stored_facts(ns, k, i);
    assert forall|j: int| 0 <= j < gd.blue_anticone_sizes@.len() implies (#[trigger] gd.blue_anticone_sizes@[j]).1 == anticone_count(
        *dag,
        blue_keys(gd),
        gd.blue_anticone_sizes@[j].0,
    ) by {
        let x = nd.blues@[j] as int;
        assert(gd.blue_anticone_sizes@[j] == (pre[x].id, nd.blue_sizes@[j]));
        assert(pre[x] == ns[x]);
        assert forall|t: int| 0 <= t < bl.len() implies 0 <= #[trigger] bl[t] < dag.ids().len() by {
            assert(bl[t] == nd.blues@[t] as int);
        }
        assert(blue_keys(gd) =~= bl.map_values(|y: int| dag.ids()[y])) by {
            assert forall|t: int| 0 <= t < bl.len() implies #[trigger] blue_keys(gd)[t] == dag.ids()[bl[t]] by {
                let y = nd.blues@[t] as int;
                assert(gd.blue_anticone_sizes@[t] == (pre[y].id, nd.blue_sizes@[t]));
                assert(pre[y] == ns[y]);
            }
        }
        lemma_anticone_count(dag, bl, x);
        assert(sizes_of(nd.blue_sizes@)[j] == acount(g, bl, bl[j]));
    }
}


/// Receiving a block the node already holds, from the record it would
/// itself send for that block, names the block and leaves the node's ledger
/// as it was.
pub proof fn lemma_receive_own_record(n: Node, n2: Node, x: BlockId, rec: BlockRecord, r: Result<BlockId, NodeError>)
    requires
        n.wf(),
        n.ledger_view() matches Some(l) && l.dag_view().has(x) && record_of(l.dag_view(), x, rec),
        received(n, n2, rec, r),
    ensures
        r == Ok::<BlockId, NodeError>(x),
        n2.ledger_view() == n.ledger_view(),
{
    n.lemma_ledger_wf();
    let l = n.ledger_view()->0;
    let d = l.dag_view();
    lemma_record_id(d, x, rec);
    let l2 = n2.ledger_view()->0;
    let ir = choose|ir: Result<BlockId, LedgerInsertError>|
        #[trigger] insert_outcome(l, l2, rec.parents@, rec.work, views(rec.txs@), ir) && match ir {
            Ok(id) => r == Ok::<BlockId, NodeError>(id),
            Err(LedgerInsertError::Dag(DagError::DuplicateBlock(id))) => r == Ok::<BlockId, NodeError>(id),
            Err(e) => r == Err::<BlockId, NodeError>(NodeError::Insert(e)),
        };
    assert(d.structural_error_of(x, rec.parents@) == Some(DagError::DuplicateBlock(x)));
}


/// Persistence at a node: restoring a node from the snapshot another node
/// wrote succeeds, and leaves it a ledger with the same GHOSTDAG parameter,
/// subsidy and blocks, in the same order: the same block ids, tips and
/// chain keys, and the same full state. The mempool, origin and pulses
/// stay the restoring node's own.
pub proof fn lemma_node_reload(a: Node, bytes: Seq<u8>, b: Node, b2: Node, r: Result<(), NodeError>)
    requires
        a.wf(),
        b2.wf(),
        a.ledger_view() matches Some(l) && bytes == snapshot_bytes(ledger_snap(l)) && snap_fits(ledger_snap(l)),
        restore_outcome(b, b2, bytes, r),
    ensures
        r is Ok,
        b2.pending() == b.pending(),
        b2.origin_view() == b.origin_view(),
        b2.pulses_view() == b.pulses_view(),
        ({
            let l = a.ledger_view()->0;
            let d = l.dag_view();
            b2.ledger_view() matches Some(l2) && {
                let d2 = l2.dag_view();
                &&& ledger_snap(l2) == ledger_snap(l)
                &&& d2.ids() == d.ids()
                &&& forall|t: BlockId| #[trigger] d2.is_tip_spec(t) <==> d.is_tip_spec(t)
                &&& forall|x: BlockId, y: BlockId|
                    d.has(x) && d.has(y) ==> (#[trigger] d2.chain_key_lt(x, y) <==> d.chain_key_lt(x, y))
                &&& full_state(d2, l2.subsidy_view()) == full_state(d, l.subsidy_view())
            }
        }),
{
    a.lemma_ledger_wf();
    b2.lemma_ledger_wf();
    let l = a.ledger_view()->0;
    let d = l.dag_view();
    match r {
        Ok(()) => {},
        Err(e) => {
            let se = e->Snapshot_0;
            lemma_snapshot_reload(l, Err(se));
        },
    }
    let l2 = b2.ledger_view()->0;
    lemma_snapshot_reload(l, Ok(l2));
    let d2 = l2.dag_view();
    assert(d2.ids().len() == dag_blocks(d2).len());
    assert(same_contents(d, d2)) by {
        assert forall|i: int| 0 <= i < d.ids().len() implies {
            &&& (#[trigger] d.block_at(i)).parents_view() == d2.block_at(i).parents_view()
            &&& d.block_at(i).work_view() == d2.block_at(i).work_view()
            &&& d.block_at(i).payload_view() == d2.block_at(i).payload_view()
        } by {
            assert(dag_blocks(d)[i] == dag_blocks(d2)[i]);
        }
    }
    lemma_same_contents(&d, &d2);
    assert(same_block_set(d2, d)) by {
        assert forall|x: BlockId| #[trigger] d2.has(x) implies {
            &&& d2.block_at(d2.pos(x)).parents_view() == d.block_at(d.pos(x)).parents_view()
            &&& d2.block_at(d2.pos(x)).work_view() == d.block_at(d.pos(x)).work_view()
            &&& d2.block_at(d2.pos(x)).payload_view() == d.block_at(d.pos(x)).payload_view()
        } by {
            let i = choose|i: int| 0 <= i < d2.ids().len() && d2.ids()[i] == x;
            d2.lemma_pos(x, i);
            d.lemma_pos(x, i);
            assert(dag_blocks(d)[i] == dag_blocks(d2)[i]);
        }
    }
    lemma_insertion_order_free(&d2, &d);
    lemma_state_order_free(&d2, &d, Seq::empty(), l.subsidy_view());
    assert forall|x: BlockId, y: BlockId| d.has(x) && d.has(y) implies (#[trigger] d2.chain_key_lt(x, y) <==> d.chain_key_lt(x, y)) by {
        assert(d2.has(x) && d2.has(y));
    }
}


/// Applying blocks in order never stops at a refused block. Every block of
/// the order is classified, accepted or rejected, each once; and a block is
/// accepted exactly when its payload decodes to transactions that apply to
/// the state the accepted blocks before it left, whatever was rejected
/// before it. A rejected block has no effect on the state.
pub proof fn lemma_run_classifies(dag: Dag, order: Seq<BlockId>, subsidy: u64, k: int)
    requires
        0 <= k <= order.len(),
    ensures
        run_blocks(dag, order, subsidy, k).accepted.len() + run_blocks(dag, order, subsidy, k).rejected.len() == k,
        forall|j: int|
            0 <= j < k ==> run_blocks(dag, order, subsidy, k).accepted.contains(#[trigger] order[j]) || exists|e: LedgerError|
                run_blocks(dag, order, subsidy, k).rejected.contains((order[j], e)),
        forall|j: int|
            0 <= j < k ==> {
                let before = #[trigger] run_blocks(dag, order, subsidy, j);
                let after = run_blocks(dag, order, subsidy, j + 1);
                &&& (after.accepted == before.accepted.push(order[j])) <==> (decoded(payload_of(dag, order[j])) matches Some(
                    txs,
                ) && block_spec(before.utxo, txs, subsidy) is Ok)
                &&& after.accepted.len() == before.accepted.len() ==> after.utxo == before.utxo
            },
    decreases k,
{
    if k > 0 {
        lemma_run_classifies(dag, order, subsidy, k - 1);
        let r0 = run_blocks(dag, order, subsidy, k - 1);
        let r = run_blocks(dag, order, subsidy, k);
        assert forall|j: int|
            0 <= j < k implies r.accepted.contains(#[trigger] order[j]) || exists|e: LedgerError| r.rejected.contains((order[j], e)) by {
            if j < k - 1 {
                if r0.accepted.contains(order[j]) {
                    let t = choose|t: int| 0 <= t < r0.accepted.len() && r0.accepted[t] == order[j];
                    assert(r.accepted[t] == order[j]);
                    assert(r.accepted.contains(order[j]));
                } else {
                    let e = choose|e: LedgerError| r0.rejected.contains((order[j], e));
                    let t = choose|t: int| 0 <= t < r0.rejected.len() && r0.rejected[t] == (order[j], e);
                    assert(r.rejected[t] == (order[j], e));
                    assert(r.rejected.contains((order[j], e)));
                }
            } else {
                if r.accepted.len() > r0.accepted.len() {
                    assert(r.accepted[r0.accepted.len() as int] == order[j]);
                    assert(r.accepted.contains(order[j]));
                } else {
                    let e = r.rejected[r0.rejected.len() as int].1;
                    assert(r.rejected[r0.rejected.len() as int] == (order[j], e));
                    assert(r.rejected.contains((order[j], e)));
                }
            }
        }
        assert forall|j: int|
            0 <= j < k implies {
                let before = #[trigger] run_blocks(dag, order, subsidy, j);
                let after = run_blocks(dag, order, subsidy, j + 1);
                &&& (after.accepted == before.accepted.push(order[j])) <==> (decoded(payload_of(dag, order[j])) matches Some(
                    txs,
                ) && block_spec(before.utxo, txs, subsidy) is Ok)
                &&& after.accepted.len() == before.accepted.len() ==> after.utxo == before.utxo
            } by {
            let before = run_blocks(dag, order, subsidy, j);
            let after = run_blocks(dag, order, subsidy, j + 1);
            assert(after.accepted.len() == before.accepted.len() ==> after.accepted != before.accepted.push(order[j]));
        }
    }
}


/// A finite set of covering outputs has a least one by value, then by
/// outpoint.
proof fn lemma_least_cover(m: UtxoMap, owner: Address, amount: u64, cs: Set<OutPoint>)
    requires
        cs.finite(),
        cs.len() > 0,
        forall|o: OutPoint| #[trigger] cs.contains(o) ==> covers(m, owner, amount, o),
    ensures
        exists|x: OutPoint|
            cs.contains(x) && forall|o: OutPoint| #[trigger] cs.contains(o) ==> !coin_lt(m[o].value, o, m[x].value, x),
    decreases cs.len(),
{
    let a = cs.choose();
    assert(cs.contains(a));
    let rest = cs.remove(a);
    if rest.len() == 0 {
        assert forall|o: OutPoint| #[trigger] cs.contains(o) implies !coin_lt(m[o].value, o, m[a].value, a) by {
            if o != a {
                assert(rest.contains(o));
            }
        }
    } else {
        lemma_least_cover(m, owner, amount, rest);
        let b = choose|x: OutPoint|
            rest.contains(x) && forall|o: OutPoint| #[trigger] rest.contains(o) ==> !coin_lt(m[o].value, o, m[x].value, x);
        if coin_lt(m[a].value, a, m[b].value, b) {
            assert forall|o: OutPoint| #[trigger] cs.contains(o) implies !coin_lt(m[o].value, o, m[a].value, a) by {
                if o != a {
                    assert(rest.contains(o));
                    assert(!coin_lt(m[o].value, o, m[b].value, b));
                }
            }
        } else {
            assert forall|o: OutPoint| #[trigger] cs.contains(o) implies !coin_lt(m[o].value, o, m[b].value, b) by {
                if o != a {
                    assert(rest.contains(o));
                }
            }
        }
    }
}

/// A transfer spends the best-fit coin: a single unspent output of the
/// sender worth at least the amount, and no other such output is worth
/// less. It pays the amount to the receiver and returns the rest, if any,
/// to the sender. When the state is finite and the sender holds an output
/// worth at least the amount, there is such a transfer.
pub proof fn lemma_transfer_best_fit(m: UtxoMap, from_seed: u64, amount: u64, to_seed: u64)
    ensures
        m.dom().finite() && (exists|o: OutPoint|
            #[trigger] m.contains_key(o) && m[o].owner == seed_address(from_seed) && m[o].value >= amount) ==> transfer_for(
            m,
            from_seed,
            amount,
            to_seed,
        ) is Some,
        transfer_for(m, from_seed, amount, to_seed) matches Some(t) ==> {
            let op = t.inputs[0].outpoint;
            let from = seed_address(from_seed);
            &&& t.inputs.len() == 1
            &&& m.contains_key(op)
            &&& m[op].owner == from
            &&& m[op].value >= amount
            &&& forall|o: OutPoint|
                #[trigger] m.contains_key(o) && m[o].owner == from && m[o].value >= amount ==> m[op].value <= m[o].value
            &&& t.outputs[0] == (TxOutput { value: amount, owner: seed_address(to_seed) })
            &&& m[op].value > amount ==> t.outputs.len() == 2 && t.outputs[1] == (TxOutput {
                value: (m[op].value - amount) as u64,
                owner: from,
            })
            &&& m[op].value == amount ==> t.outputs.len() == 1
        },
{
    let from = seed_address(from_seed);
    if m.dom().finite() && (exists|o: OutPoint| #[trigger] m.contains_key(o) && m[o].owner == from && m[o].value >= amount) {
        let o = choose|o: OutPoint| #[trigger] m.contains_key(o) && m[o].owner == from && m[o].value >= amount;
        let cs = m.dom().filter(|x: OutPoint| covers(m, from, amount, x));
        assert(cs.subset_of(m.dom()));
        vstd::set_lib::lemma_len_subset(cs, m.dom());
        assert(cs.contains(o));
        lemma_least_cover(m, from, amount, cs);
        let x = choose|x: OutPoint|
            cs.contains(x) && forall|o: OutPoint| #[trigger] cs.contains(o) ==> !coin_lt(m[o].value, o, m[x].value, x);
        assert forall|o: OutPoint| #[trigger] covers(m, from, amount, o) implies !coin_lt(m[o].value, o, m[x].value, x) by {
            assert(cs.contains(o));
        }
        assert(best_fit(m, from, amount, x));
    }
    if exists|op: OutPoint| #[trigger] best_fit(m, from, amount, op) {
        let op = choose|op: OutPoint| #[trigger] best_fit(m, from, amount, op);
        assert forall|o: OutPoint| #[trigger] m.contains_key(o) && m[o].owner == from && m[o].value >= amount implies m[op].value
            <= m[o].value by {
            assert(covers(m, from, amount, o));
            assert(!coin_lt(m[o].value, o, m[op].value, op));
        }
    }
}


/// The heaviest of a set of blocks: the selected tip, or a block's selected
/// parent among its parents, has the largest blue work; blue score only
/// breaks ties of equal blue work.
pub proof fn lemma_heaviest_by_work(dag: &Dag, r: BlockId, t: BlockId)
    requires
        dag.inv(),
        dag.has(r),
        dag.has(t),
        !dag.chain_key_lt(r, t),
    ensures
        dag.ghostdag_at(dag.pos(r)).blue_work >= dag.ghostdag_at(dag.pos(t)).blue_work,
        dag.ghostdag_at(dag.pos(r)).blue_work == dag.ghostdag_at(dag.pos(t)).blue_work ==> dag.ghostdag_at(
            dag.pos(r),
        ).blue_score >= dag.ghostdag_at(dag.pos(t)).blue_score,
        dag.ghostdag_at(dag.pos(r)).blue_work == dag.ghostdag_at(dag.pos(t)).blue_work && dag.ghostdag_at(dag.pos(r)).blue_score
            == dag.ghostdag_at(dag.pos(t)).blue_score ==> r.0 >= t.0,
{
}

/// The selected tip carries the heaviest blue work of all tips, and among
/// tips of equal blue work the highest blue score.
pub proof fn lemma_selected_tip_heaviest(dag: &Dag, r: BlockId)
    requires
        dag.inv(),
        dag.is_tip_spec(r),
        forall|t: BlockId| #[trigger] dag.is_tip_spec(t) ==> !dag.chain_key_lt(r, t),
    ensures
        forall|t: BlockId|
            #[trigger] dag.is_tip_spec(t) ==> dag.ghostdag_at(dag.pos(r)).blue_work >= dag.ghostdag_at(dag.pos(t)).blue_work
                && (dag.ghostdag_at(dag.pos(r)).blue_work == dag.ghostdag_at(dag.pos(t)).blue_work ==> dag.ghostdag_at(
                dag.pos(r),
            ).blue_score >= dag.ghostdag_at(dag.pos(t)).blue_score),
{
    assert forall|t: BlockId| #[trigger] dag.is_tip_spec(t) implies dag.ghostdag_at(dag.pos(r)).blue_work >= dag.ghostdag_at(
        dag.pos(t),
    ).blue_work && (dag.ghostdag_at(dag.pos(r)).blue_work == dag.ghostdag_at(dag.pos(t)).blue_work ==> dag.ghostdag_at(
        dag.pos(r),
    ).blue_score >= dag.ghostdag_at(dag.pos(t)).blue_score) by {
        assert(!dag.chain_key_lt(r, t));
    }
}

} // verus!
