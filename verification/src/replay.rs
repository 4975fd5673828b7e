//! A DAG is determined by its blocks: two consistent stores that hold the
//! same blocks in the same order, with the same GHOSTDAG parameter, derive
//! the same parents, selected parents, colouring and chain keys, and so the
//! same linearization and the same views. Adding the blocks of a ledger
//! again, in order, therefore meets the same checks they met the first time.
use vstd::prelude::*;

use crate::block::BlockId;
use crate::dag::{graph_of, ids_of, is_selected, key_lt, mergeset_ok, ms_lt, node_ok, tree_of, work_sum, Dag, DagNode};
use crate::graph::distinct_ids;
use crate::ordering::{lemma_linearization_exists, lemma_linearization_unique, ready};
use crate::ledger::{in_past_of_parents, past_order, payload_of, run_blocks, view_state};
use crate::reachability::ints;

verus! {

/// Two stores hold the same blocks, in the same order, under the same `k`.
pub open spec fn same_contents(d1: Dag, d2: Dag) -> bool {
    &&& d1.k_view() == d2.k_view()
    &&& d1.ids().len() == d2.ids().len()
    &&& forall|i: int|
        0 <= i < d1.ids().len() ==> {
            &&& (#[trigger] d1.block_at(i)).parents_view() == d2.block_at(i).parents_view()
            &&& d1.block_at(i).work_view() == d2.block_at(i).work_view()
            &&& d1.block_at(i).payload_view() == d2.block_at(i).payload_view()
        }
}

/// Two stored blocks agree on the block and on everything derived from it.
pub(crate) open spec fn nodes_agree(a: DagNode, b: DagNode) -> bool {
    &&& a.block.parents_view() == b.block.parents_view()
    &&& a.block.work_view() == b.block.work_view()
    &&& a.block.payload_view() == b.block.payload_view()
    &&& a.id == b.id
    &&& a.parents@ == b.parents@
    &&& a.selected == b.selected
    &&& a.mergeset@ == b.mergeset@
    &&& a.blues@ == b.blues@
    &&& a.blue_sizes@ == b.blue_sizes@
    &&& a.mblues@ == b.mblues@
    &&& a.mreds@ == b.mreds@
    &&& a.past_size == b.past_size
    &&& a.ghostdag.blue_work == b.ghostdag.blue_work
    &&& a.ghostdag.blue_score == b.ghostdag.blue_score
}

/// Agreeing prefixes give the same work sums.
proof fn lemma_work_sum_agree(p1: Seq<DagNode>, p2: Seq<DagNode>, xs: Seq<int>)
    requires
        p1.len() == p2.len(),
        forall|j: int| 0 <= j < p1.len() ==> nodes_agree(#[trigger] p1[j], p2[j]),
        forall|j: int| 0 <= j < xs.len() ==> 0 <= #[trigger] xs[j] < p1.len(),
    ensures
        work_sum(p1, xs) == work_sum(p2, xs),
    decreases xs.len(),
{
    if xs.len() > 0 {
        lemma_work_sum_agree(p1, p2, xs.drop_last());
        assert(nodes_agree(p1[xs.last()], p2[xs.last()]));
    }
}

/// Two lists strictly ordered by the mergeset order, holding the same
/// positions, are equal.
pub(crate) proof fn lemma_sorted_unique(ns: Seq<DagNode>, a: Seq<int>, b: Seq<int>)
    requires
        forall|x: int, y: int| 0 <= x < y < a.len() ==> ms_lt(ns, #[trigger] a[x], #[trigger] a[y]),
        forall|x: int, y: int| 0 <= x < y < b.len() ==> ms_lt(ns, #[trigger] b[x], #[trigger] b[y]),
        forall|x: int| #[trigger] a.contains(x) <==> b.contains(x),
    ensures
        a == b,
{
    let n = if a.len() < b.len() { a.len() as int } else { b.len() as int };
    if n > 0 {
        lemma_sorted_prefix(ns, a, b, n - 1);
    }
    if a.len() > b.len() {
        let t = b.len() as int;
        assert(a.contains(a[t]));
        assert(b.contains(a[t]));
        let m = choose|m: int| 0 <= m < b.len() && b[m] == a[t];
        assert(a[m] == b[m]);
        assert(ms_lt(ns, a[m], a[t]));
    } else if b.len() > a.len() {
        let t = a.len() as int;
        assert(b.contains(b[t]));
        assert(a.contains(b[t]));
        let m = choose|m: int| 0 <= m < a.len() && a[m] == b[t];
        assert(a[m] == b[m]);
        assert(ms_lt(ns, b[m], b[t]));
    }
    assert(a =~= b);
}

/// The entries of two such lists agree up to position `t`.
proof fn lemma_sorted_prefix(ns: Seq<DagNode>, a: Seq<int>, b: Seq<int>, t: int)
    requires
        forall|x: int, y: int| 0 <= x < y < a.len() ==> ms_lt(ns, #[trigger] a[x], #[trigger] a[y]),
        forall|x: int, y: int| 0 <= x < y < b.len() ==> ms_lt(ns, #[trigger] b[x], #[trigger] b[y]),
        forall|x: int| #[trigger] a.contains(x) <==> b.contains(x),
        0 <= t < a.len(),
        t < b.len(),
    ensures
        forall|u: int| 0 <= u <= t ==> a[u] == b[u],
    decreases t,
{
    if t > 0 {
        lemma_sorted_prefix(ns, a, b, t - 1);
    }
    if a[t] != b[t] {
        assert(a.contains(a[t]));
        assert(b.contains(a[t]));
        let m = choose|m: int| 0 <= m < b.len() && b[m] == a[t];
        assert(b.contains(b[t]));
        assert(a.contains(b[t]));
        let p = choose|p: int| 0 <= p < a.len() && a[p] == b[t];
        // Earlier entries agree, so neither sits earlier in the other list.
        if m < t {
            assert(a[m] == b[m]);
            assert(ms_lt(ns, a[m], a[t]));
        }
        if p < t {
            assert(a[p] == b[p]);
            assert(ms_lt(ns, b[p], b[t]));
        }
        assert(ms_lt(ns, b[t], b[m]));
        assert(ms_lt(ns, a[t], a[p]));
    }
}

/// Stores whose nodes satisfy the GHOSTDAG rules and hold the same blocks
/// agree on every derived field, position by position.
proof fn lemma_nodes_agree(ns1: Seq<DagNode>, ns2: Seq<DagNode>, k: int, i: int)
    requires
        ns1.len() == ns2.len(),
        0 <= i < ns1.len(),
        forall|j: int| 0 <= j < ns1.len() ==> #[trigger] node_ok(ns1.subrange(0, j), ns1[j], k),
        forall|j: int| 0 <= j < ns2.len() ==> #[trigger] node_ok(ns2.subrange(0, j), ns2[j], k),
        distinct_ids(ids_of(ns1)),
        forall|j: int|
            0 <= j < ns1.len() ==> {
                &&& (#[trigger] ns1[j]).block.parents_view() == ns2[j].block.parents_view()
                &&& ns1[j].block.work_view() == ns2[j].block.work_view()
                &&& ns1[j].block.payload_view() == ns2[j].block.payload_view()
            },
    ensures
        forall|j: int| 0 <= j <= i ==> nodes_agree(#[trigger] ns1[j], ns2[j]),
    decreases i,
{
    if i > 0 {
        lemma_nodes_agree(ns1, ns2, k, i - 1);
    }
    let p1 = ns1.subrange(0, i);
    let p2 = ns2.subrange(0, i);
    let n1 = ns1[i];
    let n2 = ns2[i];
    assert(node_ok(p1, n1, k));
    assert(node_ok(p2, n2, k));
    assert forall|j: int| 0 <= j < i implies nodes_agree(#[trigger] p1[j], p2[j]) by {
        assert(p1[j] == ns1[j] && p2[j] == ns2[j]);
    }
    assert(ids_of(p1) =~= ids_of(p2));
    assert(graph_of(p1) =~= graph_of(p2));
    // The ids of the prefix are distinct.
    assert(forall|x: int, y: int| 0 <= x < i && 0 <= y < i && x != y ==> #[trigger] p1[x].id != #[trigger] p1[y].id) by {
        assert forall|x: int, y: int| 0 <= x < i && 0 <= y < i && x != y implies #[trigger] p1[x].id != #[trigger] p1[y].id by {
            assert(ids_of(ns1)[x] == p1[x].id && ids_of(ns1)[y] == p1[y].id);
        }
    }
    // Parent positions.
    assert(n1.parents@ =~= n2.parents@) by {
        assert forall|j: int| 0 <= j < n1.parents@.len() implies n1.parents@[j] == n2.parents@[j] by {
            let a = n1.parents@[j] as int;
            let b = n2.parents@[j] as int;
            assert(n1.block.parents_view()[j] == p1[a].id);
            assert(n2.block.parents_view()[j] == p2[b].id);
            assert(nodes_agree(p1[b], p2[b]));
        }
    }
    let ps = ints(n1.parents@);
    if i == 0 {
        assert(n1.mergeset@ =~= n2.mergeset@);
        assert(n1.blues@ =~= n2.blues@);
        assert(n1.blue_sizes@ =~= n2.blue_sizes@);
        assert(n1.mblues@ =~= n2.mblues@);
        assert(n1.mreds@ =~= n2.mreds@);
    } else {
        let s1 = n1.selected as int;
        let s2 = n2.selected as int;
        // The selected parent is the unique parent with the largest key.
        assert forall|a: int, b: int| 0 <= a < i && 0 <= b < i implies key_lt(p1, a, b) == key_lt(p2, a, b) by {
            assert(nodes_agree(p1[a], p2[a]));
            assert(nodes_agree(p1[b], p2[b]));
        }
        assert(is_selected(p1, ps, s1));
        assert(is_selected(p2, ints(n2.parents@), s2));
        assert(ints(n2.parents@) =~= ps);
        assert(s1 == s2) by {
            let j1 = choose|j: int| 0 <= j < ps.len() && ps[j] == s1;
            let j2 = choose|j: int| 0 <= j < ps.len() && ps[j] == s2;
            assert(!key_lt(p1, s1, ps[j2]));
            assert(!key_lt(p2, s2, ps[j1]));
            assert(!key_lt(p1, s2, s1));
            if s1 != s2 {
                assert(p1[s1].id != p1[s2].id);
            }
        }
        let sp1 = p1[s1];
        let sp2 = p2[s1];
        assert(nodes_agree(sp1, sp2));
        // The mergeset is the unique sorted list of the mergeset positions.
        let ms1 = ints(n1.mergeset@);
        let ms2 = ints(n2.mergeset@);
        assert(mergeset_ok(p1, ps, s1, ms1));
        assert(mergeset_ok(p2, ps, s1, ms2));
        assert forall|x: int, y: int| 0 <= x < y < ms2.len() implies ms_lt(p1, #[trigger] ms2[x], #[trigger] ms2[y]) by {
            assert(ms_lt(p2, ms2[x], ms2[y]));
            assert(nodes_agree(p1[ms2[x]], p2[ms2[x]]));
            assert(nodes_agree(p1[ms2[y]], p2[ms2[y]]));
        }
        lemma_sorted_unique(p1, ms1, ms2);
        assert(n1.mergeset@ =~= n2.mergeset@) by {
            assert forall|j: int| 0 <= j < n1.mergeset@.len() implies n1.mergeset@[j] == n2.mergeset@[j] by {
                assert(ms1[j] == ms2[j]);
            }
        }
        // The colouring is a function of what is now known to agree.
        assert(ints(sp1.blues@) == ints(sp2.blues@));
        assert(n1.blues@ =~= n2.blues@) by {
            assert forall|j: int| 0 <= j < n1.blues@.len() implies n1.blues@[j] == n2.blues@[j] by {
                assert(ints(n1.blues@)[j] == ints(n2.blues@)[j]);
            }
        }
        assert(n1.blue_sizes@ =~= n2.blue_sizes@) by {
            assert forall|j: int| 0 <= j < n1.blue_sizes@.len() implies n1.blue_sizes@[j] == n2.blue_sizes@[j] by {
                assert(crate::dag::sizes_of(n1.blue_sizes@)[j] == crate::dag::sizes_of(n2.blue_sizes@)[j]);
            }
        }
        assert(n1.mblues@ =~= n2.mblues@) by {
            assert forall|j: int| 0 <= j < n1.mblues@.len() implies n1.mblues@[j] == n2.mblues@[j] by {
                assert(ints(n1.mblues@)[j] == ints(n2.mblues@)[j]);
            }
        }
        assert(n1.mreds@ =~= n2.mreds@) by {
            assert forall|j: int| 0 <= j < n1.mreds@.len() implies n1.mreds@[j] == n2.mreds@[j] by {
                assert(ints(n1.mreds@)[j] == ints(n2.mreds@)[j]);
            }
        }
        lemma_work_sum_agree(p1, p2, ints(n1.mblues@));
    }
    assert(nodes_agree(n1, n2));
}

/// Two consistent stores with the same contents have the same ids, parents,
/// selected parents and chain keys.
pub proof fn lemma_same_contents(d1: &Dag, d2: &Dag)
    requires
        d1.inv(),
        d2.inv(),
        same_contents(*d1, *d2),
    ensures
        d1.ids() == d2.ids(),
        d1.graph() == d2.graph(),
        d1.tree() == d2.tree(),
        forall|i: int|
            0 <= i < d1.ids().len() ==> (#[trigger] d1.ghostdag_at(i)).blue_work == d2.ghostdag_at(i).blue_work
                && d1.ghostdag_at(i).blue_score == d2.ghostdag_at(i).blue_score,
{
    d1.reveal_inv();
    d2.reveal_inv();
    let ns1 = d1.nodes@;
    let ns2 = d2.nodes@;
    assert forall|j: int| 0 <= j < ns1.len() implies {
        &&& (#[trigger] ns1[j]).block.parents_view() == ns2[j].block.parents_view()
        &&& ns1[j].block.work_view() == ns2[j].block.work_view()
        &&& ns1[j].block.payload_view() == ns2[j].block.payload_view()
    } by {
        assert(d1.block_at(j) == ns1[j].block);
        assert(d2.block_at(j) == ns2[j].block);
    }
    lemma_nodes_agree(ns1, ns2, d1.k as int, ns1.len() - 1);
    assert(ids_of(ns1) =~= ids_of(ns2));
    assert(graph_of(ns1) =~= graph_of(ns2)) by {
        assert forall|j: int| 0 <= j < ns1.len() implies graph_of(ns1)[j] == graph_of(ns2)[j] by {
            assert(nodes_agree(ns1[j], ns2[j]));
        }
    }
    assert(tree_of(ns1) =~= tree_of(ns2)) by {
        assert forall|j: int| 0 <= j < ns1.len() implies tree_of(ns1)[j] == tree_of(ns2)[j] by {
            assert(nodes_agree(ns1[j], ns2[j]));
        }
    }
    assert forall|i: int| 0 <= i < d1.ids().len() implies (#[trigger] d1.ghostdag_at(i)).blue_work
        == d2.ghostdag_at(i).blue_work && d1.ghostdag_at(i).blue_score == d2.ghostdag_at(i).blue_score by {
        assert(nodes_agree(ns1[i], ns2[i]));
    }
}

/// Two consistent stores with the same contents have the same
/// linearization.
pub proof fn lemma_same_linearization(d1: &Dag, d2: &Dag)
    requires
        d1.inv(),
        d2.inv(),
        same_contents(*d1, *d2),
    ensures
        d2.is_linearization(d2.linearization()),
        d2.linearization() == d1.linearization(),
{
    lemma_same_contents(d1, d2);
    lemma_linearization_exists(d1);
    let lin = d1.linearization();
    let o = choose|o: Seq<int>| #[trigger] d1.linear_order(o) && lin == o.map_values(|i: int| d1.ids()[i]);
    assert(d1.linear_order(o));
    assert forall|t: int, y: int| 0 <= t < o.len() && #[trigger] ready(d2.graph(), o.take(t), y) implies !d2.prio_lt(o[t], y) by {
        assert(ready(d1.graph(), o.take(t), y));
        assert(!d1.prio_lt(o[t], y));
        assert(ready(d1.graph(), o.take(t), o[t]));
        d1.lemma_inv_shape();
        let a = o[t];
        assert(d1.ghostdag_at(a).blue_work == d2.ghostdag_at(a).blue_work);
        assert(d1.ghostdag_at(y).blue_work == d2.ghostdag_at(y).blue_work);
    }
    assert(d2.linear_order(o));
    assert(lin == o.map_values(|i: int| d2.ids()[i]));
    assert(d2.is_linearization(lin));
    lemma_linearization_unique(d2, lin, d2.linearization());
}

/// Stores with the same ids find the same first missing parent.
proof fn lemma_same_missing(d1: &Dag, d2: &Dag, ps: Seq<BlockId>, j: int)
    requires
        d1.ids() == d2.ids(),
    ensures
        d1.missing_parent(ps, j) == d2.missing_parent(ps, j),
    decreases ps.len() - j,
{
    if 0 <= j < ps.len() {
        lemma_same_missing(d1, d2, ps, j + 1);
    }
}

/// Stores with the same ids and parents pick the same past.
proof fn lemma_same_past(d1: &Dag, d2: &Dag, parents: Seq<BlockId>, order: Seq<BlockId>, k: int)
    requires
        d1.ids() == d2.ids(),
        d1.graph() == d2.graph(),
    ensures
        past_order(*d1, parents, order, k) == past_order(*d2, parents, order, k),
    decreases k,
{
    if k > 0 {
        lemma_same_past(d1, d2, parents, order, k - 1);
        let x = order[k - 1];
        assert(in_past_of_parents(*d1, parents, x) == in_past_of_parents(*d2, parents, x)) by {
            assert forall|j: int| 0 <= j < parents.len() implies d1.is_ancestor_spec(x, #[trigger] parents[j])
                == d2.is_ancestor_spec(x, parents[j]) by {}
        }
    }
}

/// Consistent stores with the same contents run the same blocks alike.
proof fn lemma_same_run(d1: &Dag, d2: &Dag, order: Seq<BlockId>, subsidy: u64, k: int)
    requires
        d1.inv(),
        d2.inv(),
        same_contents(*d1, *d2),
        d1.ids() == d2.ids(),
        k <= order.len(),
        forall|j: int| 0 <= j < order.len() ==> d1.has(#[trigger] order[j]),
    ensures
        run_blocks(*d1, order, subsidy, k) == run_blocks(*d2, order, subsidy, k),
    decreases k,
{
    if k > 0 {
        lemma_same_run(d1, d2, order, subsidy, k - 1);
        let x = order[k - 1];
        assert(d1.has(x));
        let i = choose|i: int| 0 <= i < d1.ids().len() && d1.ids()[i] == x;
        d1.lemma_pos(x, i);
        d2.lemma_pos(x, i);
        assert(payload_of(*d1, x) == payload_of(*d2, x));
    }
}

/// Consistent stores with the same contents judge a new block alike: the
/// same structural verdict and the same view of its past.
pub proof fn lemma_same_view(d1: &Dag, d2: &Dag, id: BlockId, parents: Seq<BlockId>, subsidy: u64)
    requires
        d1.inv(),
        d2.inv(),
        same_contents(*d1, *d2),
    ensures
        d1.structural_error_of(id, parents) == d2.structural_error_of(id, parents),
        view_state(*d1, parents, subsidy) == view_state(*d2, parents, subsidy),
{
    lemma_same_contents(d1, d2);
    lemma_same_linearization(d1, d2);
    lemma_same_missing(d1, d2, parents, 0);
    let lin = d1.linearization();
    let n = d1.ids().len() as int;
    lemma_same_past(d1, d2, parents, lin, n);
    let o = past_order(*d1, parents, lin, n);
    lemma_linearization_exists(d1);
    crate::ordering::lemma_linearization_topological(d1, lin);
    lemma_past_order_present(*d1, parents, lin, n);
    lemma_same_run(d1, d2, o, subsidy, o.len() as int);
}

/// The past of a block lists blocks of the order it is drawn from.
pub(crate) proof fn lemma_past_order_present(d: Dag, parents: Seq<BlockId>, order: Seq<BlockId>, k: int)
    requires
        k <= order.len(),
        forall|x: BlockId| d.has(x) <==> #[trigger] order.contains(x),
    ensures
        forall|j: int| 0 <= j < past_order(d, parents, order, k).len() ==> d.has(#[trigger] past_order(d, parents, order, k)[j]),
    decreases k,
{
    if k > 0 {
        lemma_past_order_present(d, parents, order, k - 1);
        let r = past_order(d, parents, order, k - 1);
        assert(order.contains(order[k - 1]));
        assert forall|j: int| 0 <= j < past_order(d, parents, order, k).len() implies d.has(
            #[trigger] past_order(d, parents, order, k)[j],
        ) by {
            if j < r.len() {
                assert(past_order(d, parents, order, k)[j] == r[j]);
            }
        }
    }
}

} // verus!
