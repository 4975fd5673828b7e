//! Insertion order does not matter: two consistent stores that hold the same
//! blocks, added in different topological orders, derive the same GHOSTDAG
//! data block by block, and so the same linearization.
use vstd::prelude::*;

use crate::block::BlockId;
use crate::dag::{graph_of, ids_at, ids_of, in_mergeset, in_past_of, is_selected, key_lt, lemma_distinct_positions_len, mergeset_ok, ms_lt, node_ok, sizes_of, work_sum, Dag, DagNode, GhostdagData};
use crate::ghostdag::{acount, bump, color_all, color_start, color_step, fits, Coloring};
use crate::graph::{anc, childless, distinct_ids, in_anticone, lemma_anc_extend, lemma_anc_lt, lemma_anc_parent, lemma_anc_trans, lemma_anc_unfold, wf_graph};
use crate::ledger::{full_state, in_past_of_parents, past_order, payload_of, run_blocks, view_state};
use crate::ordering::{lemma_linearization_exists, lemma_linearization_topological, lemma_linearization_unique, ready};
use crate::reachability::ints;
use crate::replay::{lemma_past_order_present, lemma_sorted_unique};

verus! {

/// `pi` carries positions of `g1` to positions of `g2`, `sigma` carries them
/// back, and each block's parent list to the other store's.
pub open spec fn relabels(g1: Seq<Seq<int>>, g2: Seq<Seq<int>>, pi: Seq<int>, sigma: Seq<int>) -> bool {
    &&& g1.len() == g2.len()
    &&& pi.len() == g1.len()
    &&& sigma.len() == g2.len()
    &&& forall|i: int| 0 <= i < g1.len() ==> 0 <= #[trigger] pi[i] < g2.len() && sigma[pi[i]] == i
    &&& forall|j: int| 0 <= j < g2.len() ==> 0 <= #[trigger] sigma[j] < g1.len() && pi[sigma[j]] == j
    &&& forall|i: int| 0 <= i < g1.len() ==> (#[trigger] g2[pi[i]]).len() == g1[i].len()
    &&& forall|i: int, k: int| 0 <= i < g1.len() && 0 <= k < g1[i].len() ==> g2[pi[i]][k] == pi[#[trigger] g1[i][k]]
}

/// Ancestry is carried across.
pub proof fn lemma_anc_relabel(g1: Seq<Seq<int>>, g2: Seq<Seq<int>>, pi: Seq<int>, sigma: Seq<int>, a: int, b: int)
    requires
        relabels(g1, g2, pi, sigma),
        wf_graph(g1),
        wf_graph(g2),
        0 <= a < g1.len(),
        0 <= b < g1.len(),
    ensures
        anc(g2, pi[a], pi[b]) == anc(g1, a, b),
    decreases b,
{
    lemma_anc_unfold(g1, a, b);
    lemma_anc_unfold(g2, pi[a], pi[b]);
    let pb = pi[b];
    assert(g2[pb].len() == g1[b].len());
    if anc(g1, a, b) {
        let k = choose|k: int| 0 <= k < g1[b].len() && 0 <= #[trigger] g1[b][k] < b && (g1[b][k] == a || anc(g1, a, g1[b][k]));
        let p = g1[b][k];
        assert(g2[pb][k] == pi[p]);
        if p != a {
            lemma_anc_relabel(g1, g2, pi, sigma, a, p);
        }
        assert(0 <= g2[pb][k] < pb);
    }
    if anc(g2, pi[a], pb) {
        let k = choose|k: int| 0 <= k < g2[pb].len() && 0 <= #[trigger] g2[pb][k] < pb && (g2[pb][k] == pi[a] || anc(g2, pi[a], g2[pb][k]));
        let p = g1[b][k];
        assert(g2[pb][k] == pi[p]);
        assert(0 <= p < b);
        if pi[p] == pi[a] {
            assert(sigma[pi[p]] == p);
        } else {
            lemma_anc_relabel(g1, g2, pi, sigma, a, p);
        }
    }
}

/// Anticones are carried across.
pub proof fn lemma_anticone_relabel(g1: Seq<Seq<int>>, g2: Seq<Seq<int>>, pi: Seq<int>, sigma: Seq<int>, a: int, b: int)
    requires
        relabels(g1, g2, pi, sigma),
        wf_graph(g1),
        wf_graph(g2),
        0 <= a < g1.len(),
        0 <= b < g1.len(),
    ensures
        in_anticone(g2, pi[a], pi[b]) == in_anticone(g1, a, b),
{
    lemma_anc_relabel(g1, g2, pi, sigma, a, b);
    lemma_anc_relabel(g1, g2, pi, sigma, b, a);
    if pi[a] == pi[b] {
        assert(sigma[pi[a]] == a);
    }
}

/// The positions `xs` carried across by `pi`.
pub open spec fn carry(xs: Seq<int>, pi: Seq<int>) -> Seq<int> {
    Seq::new(xs.len(), |j: int| pi[xs[j]])
}

/// A colouring carried across by `pi`.
pub open spec fn carry_coloring(c: Coloring, pi: Seq<int>) -> Coloring {
    Coloring { blues: carry(c.blues, pi), sizes: c.sizes, mblues: carry(c.mblues, pi), mreds: carry(c.mreds, pi) }
}

/// Every position of `xs` lies in `[0, n)`.
pub open spec fn within(xs: Seq<int>, n: int) -> bool {
    forall|j: int| 0 <= j < xs.len() ==> 0 <= #[trigger] xs[j] < n
}

/// Anticone counts are carried across.
proof fn lemma_acount_relabel(g1: Seq<Seq<int>>, g2: Seq<Seq<int>>, pi: Seq<int>, sigma: Seq<int>, bl: Seq<int>, c: int)
    requires
        relabels(g1, g2, pi, sigma),
        wf_graph(g1),
        wf_graph(g2),
        within(bl, g1.len() as int),
        0 <= c < g1.len(),
    ensures
        acount(g2, carry(bl, pi), pi[c]) == acount(g1, bl, c),
    decreases bl.len(),
{
    if bl.len() > 0 {
        lemma_acount_relabel(g1, g2, pi, sigma, bl.drop_last(), c);
        assert(carry(bl, pi).drop_last() =~= carry(bl.drop_last(), pi));
        lemma_anticone_relabel(g1, g2, pi, sigma, bl.last(), c);
    }
}

/// One colouring step is carried across.
proof fn lemma_color_step_relabel(
    g1: Seq<Seq<int>>,
    g2: Seq<Seq<int>>,
    pi: Seq<int>,
    sigma: Seq<int>,
    st: Coloring,
    c: int,
    k: int,
)
    requires
        relabels(g1, g2, pi, sigma),
        wf_graph(g1),
        wf_graph(g2),
        within(st.blues, g1.len() as int),
        within(st.mblues, g1.len() as int),
        within(st.mreds, g1.len() as int),
        st.sizes.len() == st.blues.len(),
        0 <= c < g1.len(),
    ensures
        color_step(g2, carry_coloring(st, pi), pi[c], k) == carry_coloring(color_step(g1, st, c, k), pi),
{
    let bl = st.blues;
    let bl2 = carry(bl, pi);
    lemma_acount_relabel(g1, g2, pi, sigma, bl, c);
    assert forall|j: int| 0 <= j < bl.len() implies in_anticone(g2, #[trigger] bl2[j], pi[c]) == in_anticone(g1, bl[j], c) by {
        lemma_anticone_relabel(g1, g2, pi, sigma, bl[j], c);
    }
    if fits(g1, bl, st.sizes, c, k) {
        assert forall|j: int| 0 <= j < bl2.len() && in_anticone(g2, #[trigger] bl2[j], pi[c]) implies st.sizes[j] < k by {
            assert(in_anticone(g1, bl[j], c));
        }
    }
    if fits(g2, bl2, st.sizes, pi[c], k) {
        assert forall|j: int| 0 <= j < bl.len() && in_anticone(g1, #[trigger] bl[j], c) implies st.sizes[j] < k by {
            assert(in_anticone(g2, bl2[j], pi[c]));
        }
    }
    assert(fits(g2, bl2, st.sizes, pi[c], k) == fits(g1, bl, st.sizes, c, k));
    assert(bump(g2, bl2, st.sizes, pi[c]) =~= bump(g1, bl, st.sizes, c));
    assert(carry(bl.push(c), pi) =~= bl2.push(pi[c]));
    assert(carry(st.mblues.push(c), pi) =~= carry(st.mblues, pi).push(pi[c]));
    assert(carry(st.mreds.push(c), pi) =~= carry(st.mreds, pi).push(pi[c]));
}

/// Colouring a list of candidates is carried across.
pub proof fn lemma_color_all_relabel(
    g1: Seq<Seq<int>>,
    g2: Seq<Seq<int>>,
    pi: Seq<int>,
    sigma: Seq<int>,
    st: Coloring,
    cs: Seq<int>,
    k: int,
)
    requires
        relabels(g1, g2, pi, sigma),
        wf_graph(g1),
        wf_graph(g2),
        within(st.blues, g1.len() as int),
        within(st.mblues, g1.len() as int),
        within(st.mreds, g1.len() as int),
        within(cs, g1.len() as int),
        st.sizes.len() == st.blues.len(),
    ensures
        color_all(g2, carry_coloring(st, pi), carry(cs, pi), k) == carry_coloring(color_all(g1, st, cs, k), pi),
        within(color_all(g1, st, cs, k).blues, g1.len() as int),
        within(color_all(g1, st, cs, k).mblues, g1.len() as int),
        within(color_all(g1, st, cs, k).mreds, g1.len() as int),
        color_all(g1, st, cs, k).sizes.len() == color_all(g1, st, cs, k).blues.len(),
    decreases cs.len(),
{
    if cs.len() > 0 {
        let init = cs.drop_last();
        lemma_color_all_relabel(g1, g2, pi, sigma, st, init, k);
        assert(carry(cs, pi).drop_last() =~= carry(init, pi));
        assert(carry(cs, pi).last() == pi[cs.last()]);
        let mid = color_all(g1, st, init, k);
        lemma_color_step_relabel(g1, g2, pi, sigma, mid, cs.last(), k);
        let nxt = color_step(g1, mid, cs.last(), k);
        assert(within(nxt.blues, g1.len() as int));
        assert(within(nxt.mblues, g1.len() as int));
        assert(within(nxt.mreds, g1.len() as int));
    }
}

// ---------------------------------------------------------------------------
// Prefix graphs.

/// `g2` extends `g`.
pub open spec fn extends_graph(g: Seq<Seq<int>>, g2: Seq<Seq<int>>) -> bool {
    g.len() <= g2.len() && forall|i: int| 0 <= i < g.len() ==> #[trigger] g2[i] == g[i]
}

/// Anticone counts inside a graph do not change when it is extended.
proof fn lemma_acount_extend(g: Seq<Seq<int>>, g2: Seq<Seq<int>>, bl: Seq<int>, c: int)
    requires
        extends_graph(g, g2),
        within(bl, g.len() as int),
        0 <= c < g.len(),
    ensures
        acount(g, bl, c) == acount(g2, bl, c),
    decreases bl.len(),
{
    if bl.len() > 0 {
        lemma_acount_extend(g, g2, bl.drop_last(), c);
        lemma_anc_extend(g, g2, bl.last(), c);
        lemma_anc_extend(g, g2, c, bl.last());
    }
}

/// Colouring inside a graph does not change when it is extended.
proof fn lemma_color_all_extend(g: Seq<Seq<int>>, g2: Seq<Seq<int>>, st: Coloring, cs: Seq<int>, k: int)
    requires
        extends_graph(g, g2),
        within(st.blues, g.len() as int),
        within(cs, g.len() as int),
        st.sizes.len() == st.blues.len(),
    ensures
        color_all(g, st, cs, k) == color_all(g2, st, cs, k),
        within(color_all(g, st, cs, k).blues, g.len() as int),
        color_all(g, st, cs, k).sizes.len() == color_all(g, st, cs, k).blues.len(),
    decreases cs.len(),
{
    if cs.len() > 0 {
        let init = cs.drop_last();
        lemma_color_all_extend(g, g2, st, init, k);
        let mid = color_all(g, st, init, k);
        let c = cs.last();
        let bl = mid.blues;
        lemma_acount_extend(g, g2, bl, c);
        assert forall|j: int| 0 <= j < bl.len() implies in_anticone(g, #[trigger] bl[j], c) == in_anticone(g2, bl[j], c) by {
            lemma_anc_extend(g, g2, bl[j], c);
            lemma_anc_extend(g, g2, c, bl[j]);
        }
        assert(fits(g, bl, mid.sizes, c, k) == fits(g2, bl, mid.sizes, c, k));
        assert(bump(g, bl, mid.sizes, c) =~= bump(g2, bl, mid.sizes, c));
    }
}

/// A prefix's graph is extended by the whole graph.
proof fn lemma_prefix_graph(ns: Seq<DagNode>, m: int)
    requires
        0 <= m <= ns.len(),
    ensures
        extends_graph(graph_of(ns.subrange(0, m)), graph_of(ns)),
        graph_of(ns.subrange(0, m)).len() == m,
{
    assert forall|i: int| 0 <= i < m implies #[trigger] graph_of(ns)[i] == graph_of(ns.subrange(0, m))[i] by {}
}

// ---------------------------------------------------------------------------
// Two stores holding the same blocks.

/// `ns1` and `ns2` hold the same blocks, by id: `pi` gives each block of
/// `ns1` its position in `ns2`, `sigma` the other way round.
pub(crate) open spec fn reordered(ns1: Seq<DagNode>, ns2: Seq<DagNode>, pi: Seq<int>, sigma: Seq<int>) -> bool {
    &&& ns1.len() == ns2.len()
    &&& pi.len() == ns1.len()
    &&& sigma.len() == ns2.len()
    &&& distinct_ids(ids_of(ns1))
    &&& distinct_ids(ids_of(ns2))
    &&& forall|i: int|
        0 <= i < ns1.len() ==> {
            &&& 0 <= #[trigger] pi[i] < ns2.len()
            &&& ns2[pi[i]].id == ns1[i].id
            &&& ns2[pi[i]].block.parents_view() == ns1[i].block.parents_view()
            &&& ns2[pi[i]].block.work_view() == ns1[i].block.work_view()
            &&& ns2[pi[i]].block.payload_view() == ns1[i].block.payload_view()
        }
    &&& forall|j: int| 0 <= j < ns2.len() ==> 0 <= #[trigger] sigma[j] < ns1.len() && ns1[sigma[j]].id == ns2[j].id
}

/// Both stores follow the GHOSTDAG rules.
pub(crate) open spec fn both_ok(ns1: Seq<DagNode>, ns2: Seq<DagNode>, k: int) -> bool {
    &&& forall|j: int| 0 <= j < ns1.len() ==> #[trigger] node_ok(ns1.subrange(0, j), ns1[j], k)
    &&& forall|j: int| 0 <= j < ns2.len() ==> #[trigger] node_ok(ns2.subrange(0, j), ns2[j], k)
    &&& wf_graph(graph_of(ns1))
    &&& wf_graph(graph_of(ns2))
}

/// The parent lists of the two stores correspond.
proof fn lemma_graph_relabel(ns1: Seq<DagNode>, ns2: Seq<DagNode>, pi: Seq<int>, sigma: Seq<int>, k: int)
    requires
        reordered(ns1, ns2, pi, sigma),
        both_ok(ns1, ns2, k),
    ensures
        relabels(graph_of(ns1), graph_of(ns2), pi, sigma),
{
    let g1 = graph_of(ns1);
    let g2 = graph_of(ns2);
    let n = ns1.len();
    assert forall|i: int| 0 <= i < n implies 0 <= #[trigger] pi[i] < n && sigma[pi[i]] == i by {
        let j = pi[i];
        assert(ns1[sigma[j]].id == ns2[j].id);
        assert(ids_of(ns1)[sigma[j]] == ids_of(ns1)[i]);
    }
    assert forall|j: int| 0 <= j < n implies 0 <= #[trigger] sigma[j] < n && pi[sigma[j]] == j by {
        let i = sigma[j];
        assert(ns2[pi[i]].id == ns1[i].id);
        assert(ids_of(ns2)[pi[i]] == ids_of(ns2)[j]);
    }
    assert forall|i: int| 0 <= i < n implies (#[trigger] g2[pi[i]]).len() == g1[i].len() by {
        assert(node_ok(ns1.subrange(0, i), ns1[i], k));
        assert(node_ok(ns2.subrange(0, pi[i]), ns2[pi[i]], k));
    }
    assert forall|i: int, kk: int| 0 <= i < n && 0 <= kk < g1[i].len() implies g2[pi[i]][kk] == pi[#[trigger] g1[i][kk]] by {
        let a = ns1[i];
        let b = ns2[pi[i]];
        assert(node_ok(ns1.subrange(0, i), a, k));
        assert(node_ok(ns2.subrange(0, pi[i]), b, k));
        let p = a.parents@[kk] as int;
        let q = b.parents@[kk] as int;
        assert(a.block.parents_view()[kk] == ns1.subrange(0, i)[p].id);
        assert(b.block.parents_view()[kk] == ns2.subrange(0, pi[i])[q].id);
        assert(ns2[pi[p]].id == ns1[p].id);
        assert(ids_of(ns2)[pi[p]] == ids_of(ns2)[q]);
    }
}

/// The derived data of block `i` of `ns1` is that of its copy in `ns2`,
/// carried across.
pub(crate) open spec fn carried(ns1: Seq<DagNode>, ns2: Seq<DagNode>, pi: Seq<int>, i: int) -> bool {
    let a = ns1[i];
    let b = ns2[pi[i]];
    &&& b.selected as int == pi[a.selected as int]
    &&& ints(b.mergeset@) == carry(ints(a.mergeset@), pi)
    &&& ints(b.blues@) == carry(ints(a.blues@), pi)
    &&& b.blue_sizes@ == a.blue_sizes@
    &&& ints(b.mblues@) == carry(ints(a.mblues@), pi)
    &&& ints(b.mreds@) == carry(ints(a.mreds@), pi)
    &&& b.past_size == a.past_size
    &&& b.ghostdag.blue_work == a.ghostdag.blue_work
    &&& b.ghostdag.blue_score == a.ghostdag.blue_score
}

/// Ancestry in a prefix's graph is ancestry in the whole graph.
proof fn lemma_prefix_anc(ns: Seq<DagNode>, m: int, x: int, y: int)
    requires
        0 <= y < m <= ns.len(),
    ensures
        anc(graph_of(ns.subrange(0, m)), x, y) == anc(graph_of(ns), x, y),
{
    lemma_prefix_graph(ns, m);
    lemma_anc_extend(graph_of(ns.subrange(0, m)), graph_of(ns), x, y);
}

/// Membership of a mergeset is carried across.
proof fn lemma_mergeset_relabel(
    ns1: Seq<DagNode>,
    ns2: Seq<DagNode>,
    pi: Seq<int>,
    sigma: Seq<int>,
    k: int,
    i: int,
    s1: int,
    y: int,
)
    requires
        reordered(ns1, ns2, pi, sigma),
        both_ok(ns1, ns2, k),
        relabels(graph_of(ns1), graph_of(ns2), pi, sigma),
        0 <= i < ns1.len(),
        0 <= s1 < i,
        pi[s1] < pi[i],
        0 <= y < ns1.len(),
        ints(ns2[pi[i]].parents@) == carry(ints(ns1[i].parents@), pi),
    ensures
        in_mergeset(graph_of(ns1.subrange(0, i)), ints(ns1[i].parents@), s1, y) == in_mergeset(
            graph_of(ns2.subrange(0, pi[i])),
            ints(ns2[pi[i]].parents@),
            pi[s1],
            pi[y],
        ),
{
    let g1 = graph_of(ns1);
    let g2 = graph_of(ns2);
    let m = pi[i];
    let gp1 = graph_of(ns1.subrange(0, i));
    let gp2 = graph_of(ns2.subrange(0, m));
    let ps1 = ints(ns1[i].parents@);
    let ps2 = ints(ns2[m].parents@);
    lemma_prefix_graph(ns1, i);
    lemma_prefix_graph(ns2, m);
    assert(ps1 == g1[i]);
    assert(ps2 == g2[m]);
    // In the past of the block on either side means an ancestor of it.
    lemma_anc_relabel(g1, g2, pi, sigma, y, i);
    assert(in_past_of(gp1, ps1, y) ==> anc(g1, y, i)) by {
        if in_past_of(gp1, ps1, y) {
            let j = choose|j: int| 0 <= j < ps1.len() && (ps1[j] == y || anc(gp1, y, ps1[j]));
            lemma_anc_parent(g1, i, j);
            if ps1[j] != y {
                lemma_prefix_anc(ns1, i, y, ps1[j]);
                lemma_anc_trans(g1, y, ps1[j], i);
            }
        }
    }
    assert(in_past_of(gp2, ps2, pi[y]) ==> anc(g2, pi[y], m)) by {
        if in_past_of(gp2, ps2, pi[y]) {
            let j = choose|j: int| 0 <= j < ps2.len() && (ps2[j] == pi[y] || anc(gp2, pi[y], ps2[j]));
            lemma_anc_parent(g2, m, j);
            if ps2[j] != pi[y] {
                lemma_prefix_anc(ns2, m, pi[y], ps2[j]);
                lemma_anc_trans(g2, pi[y], ps2[j], m);
            }
        }
    }
    if anc(g1, y, i) {
        lemma_anc_lt(g1, y, i);
        lemma_anc_lt(g2, pi[y], m);
        // The remaining conditions correspond one by one.
        lemma_prefix_anc(ns1, i, y, s1);
        lemma_prefix_anc(ns2, m, pi[y], pi[s1]);
        lemma_anc_relabel(g1, g2, pi, sigma, y, s1);
        if pi[y] == pi[s1] {
            assert(sigma[pi[y]] == y);
        }
        assert forall|j: int| 0 <= j < ps1.len() implies (ps1[j] == y || anc(gp1, y, ps1[j])) == (ps2[j] == pi[y]
            || anc(gp2, pi[y], ps2[j])) by {
            let q = ps1[j];
            assert(ps2[j] == pi[q]);
            lemma_anc_parent(g1, i, j);
            lemma_anc_lt(g1, q, i);
            lemma_anc_relabel(g1, g2, pi, sigma, q, i);
            lemma_anc_lt(g2, pi[q], m);
            lemma_prefix_anc(ns1, i, y, q);
            lemma_prefix_anc(ns2, m, pi[y], pi[q]);
            lemma_anc_relabel(g1, g2, pi, sigma, y, q);
            if pi[q] == pi[y] {
                assert(sigma[pi[q]] == q);
            }
        }
        if in_past_of(gp1, ps1, y) {
            let j = choose|j: int| 0 <= j < ps1.len() && (ps1[j] == y || anc(gp1, y, ps1[j]));
            assert(ps2[j] == pi[y] || anc(gp2, pi[y], ps2[j]));
        }
        if in_past_of(gp2, ps2, pi[y]) {
            let j = choose|j: int| 0 <= j < ps2.len() && (ps2[j] == pi[y] || anc(gp2, pi[y], ps2[j]));
            assert(ps1[j] == y || anc(gp1, y, ps1[j]));
        }
    }
}


/// Every block before `i` in `ns1` has its derived data carried across.
pub(crate) open spec fn carried_below(ns1: Seq<DagNode>, ns2: Seq<DagNode>, pi: Seq<int>, i: int) -> bool {
    forall|j: int| 0 <= j < i ==> #[trigger] carried(ns1, ns2, pi, j)
}

/// A non-genesis block keeps its parents, carried across, and its selected
/// parent.
proof fn lemma_selected_carried(ns1: Seq<DagNode>, ns2: Seq<DagNode>, pi: Seq<int>, sigma: Seq<int>, k: int, i: int)
    requires
        reordered(ns1, ns2, pi, sigma),
        both_ok(ns1, ns2, k),
        relabels(graph_of(ns1), graph_of(ns2), pi, sigma),
        0 < i < ns1.len(),
        carried_below(ns1, ns2, pi, i),
    ensures
        pi[i] > 0,
        ints(ns2[pi[i]].parents@) == carry(ints(ns1[i].parents@), pi),
        ns2[pi[i]].selected as int == pi[ns1[i].selected as int],
        0 <= ns1[i].selected < i,
        0 <= pi[ns1[i].selected as int] < pi[i],
{
    let g1 = graph_of(ns1);
    let g2 = graph_of(ns2);
    let m = pi[i];
    let a = ns1[i];
    let b = ns2[m];
    let pre1 = ns1.subrange(0, i);
    let pre2 = ns2.subrange(0, m);
    assert(node_ok(pre1, a, k));
    assert(node_ok(pre2, b, k));
    let ps1 = ints(a.parents@);
    let ps2 = ints(b.parents@);
    assert(ps1 == g1[i]);
    assert(ps2 == g2[m]);
    assert(ps2 =~= carry(ps1, pi));
    assert(ps1.len() > 0);
    assert(m > 0);
    let s1 = a.selected as int;
    let s2 = b.selected as int;
    // Chain keys of parents correspond.
    assert forall|x: int, y: int| 0 <= x < ps1.len() && 0 <= y < ps1.len() implies key_lt(pre2, #[trigger] ps2[x], #[trigger] ps2[y]) == key_lt(pre1, ps1[x], ps1[y]) by {
        let p = ps1[x];
        let q = ps1[y];
        lemma_anc_parent(g1, i, x);
        lemma_anc_parent(g1, i, y);
        lemma_anc_relabel(g1, g2, pi, sigma, p, i);
        lemma_anc_relabel(g1, g2, pi, sigma, q, i);
        lemma_anc_lt(g1, p, i);
        lemma_anc_lt(g1, q, i);
        lemma_anc_lt(g2, pi[p], m);
        lemma_anc_lt(g2, pi[q], m);
        assert(carried(ns1, ns2, pi, p));
        assert(carried(ns1, ns2, pi, q));
        assert(pre1[p] == ns1[p]);
        assert(pre1[q] == ns1[q]);
        assert(pre2[pi[p]] == ns2[pi[p]]);
        assert(pre2[pi[q]] == ns2[pi[q]]);
    }
    assert(is_selected(pre1, ps1, s1));
    assert(is_selected(pre2, ps2, s2));
    let js = choose|j: int| 0 <= j < ps2.len() && ps2[j] == s2;
    let q = ps1[js];
    assert(ps2[js] == pi[q]);
    let j1 = choose|j: int| 0 <= j < ps1.len() && ps1[j] == s1;
    assert forall|y: int| 0 <= y < ps1.len() implies !key_lt(pre1, q, #[trigger] ps1[y]) by {
        assert(!key_lt(pre2, s2, ps2[y]));
        assert(key_lt(pre2, ps2[js], ps2[y]) == key_lt(pre1, ps1[js], ps1[y]));
    }
    if q != s1 {
        assert(!key_lt(pre1, q, ps1[j1]));
        assert(!key_lt(pre1, s1, ps1[js]));
        lemma_anc_parent(g1, i, js);
        lemma_anc_parent(g1, i, j1);
        lemma_anc_lt(g1, q, i);
        lemma_anc_lt(g1, s1, i);
        assert(ids_of(ns1)[q] != ids_of(ns1)[s1]);
        assert(pre1[q].id != pre1[s1].id);
    }
    lemma_anc_parent(g1, i, j1);
    lemma_anc_lt(g1, s1, i);
    lemma_anc_relabel(g1, g2, pi, sigma, s1, i);
    lemma_anc_lt(g2, pi[s1], m);
}


/// A non-genesis block keeps its mergeset, carried across, in order.
proof fn lemma_mergeset_carried(ns1: Seq<DagNode>, ns2: Seq<DagNode>, pi: Seq<int>, sigma: Seq<int>, k: int, i: int)
    requires
        reordered(ns1, ns2, pi, sigma),
        both_ok(ns1, ns2, k),
        relabels(graph_of(ns1), graph_of(ns2), pi, sigma),
        0 < i < ns1.len(),
        carried_below(ns1, ns2, pi, i),
    ensures
        ints(ns2[pi[i]].mergeset@) == carry(ints(ns1[i].mergeset@), pi),
        within(ints(ns1[i].mergeset@), i),
        within(carry(ints(ns1[i].mergeset@), pi), pi[i]),
{
    lemma_selected_carried(ns1, ns2, pi, sigma, k, i);
    let g1 = graph_of(ns1);
    let g2 = graph_of(ns2);
    let m = pi[i];
    let a = ns1[i];
    let b = ns2[m];
    let pre1 = ns1.subrange(0, i);
    let pre2 = ns2.subrange(0, m);
    assert(node_ok(pre1, a, k));
    assert(node_ok(pre2, b, k));
    let ps1 = ints(a.parents@);
    let ps2 = ints(b.parents@);
    let s1 = a.selected as int;
    let ms1 = ints(a.mergeset@);
    let ms2 = ints(b.mergeset@);
    let cm = carry(ms1, pi);
    assert(mergeset_ok(pre1, ps1, s1, ms1));
    assert(mergeset_ok(pre2, ps2, pi[s1], ms2));
    lemma_prefix_graph(ns1, i);
    lemma_prefix_graph(ns2, m);
    // Every mergeset member is an ancestor of the block, so it is carried
    // below the block's copy.
    assert forall|j: int| 0 <= j < ms1.len() implies 0 <= #[trigger] ms1[j] < i && 0 <= pi[ms1[j]] < m
        && carried(ns1, ns2, pi, ms1[j]) by {
        let x = ms1[j];
        assert(ms1.contains(x));
        assert(in_mergeset(graph_of(pre1), ps1, s1, x));
        lemma_mergeset_relabel(ns1, ns2, pi, sigma, k, i, s1, x);
        assert(in_mergeset(graph_of(pre2), ps2, pi[s1], pi[x]));
    }
    assert forall|x: int, y: int| 0 <= x < y < cm.len() implies ms_lt(pre2, #[trigger] cm[x], #[trigger] cm[y]) by {
        assert(ms_lt(pre1, ms1[x], ms1[y]));
        assert(pre1[ms1[x]] == ns1[ms1[x]]);
        assert(pre1[ms1[y]] == ns1[ms1[y]]);
        assert(pre2[cm[x]] == ns2[cm[x]]);
        assert(pre2[cm[y]] == ns2[cm[y]]);
        assert(carried(ns1, ns2, pi, ms1[x]));
        assert(carried(ns1, ns2, pi, ms1[y]));
    }
    assert forall|z: int| #[trigger] ms2.contains(z) <==> cm.contains(z) by {
        if ms2.contains(z) {
            assert(in_mergeset(graph_of(pre2), ps2, pi[s1], z));
            let j2 = choose|j: int| 0 <= j < ms2.len() && ms2[j] == z;
            assert(0 <= ms2[j2] < m);
            let x = sigma[z];
            assert(pi[x] == z);
            lemma_mergeset_relabel(ns1, ns2, pi, sigma, k, i, s1, x);
            assert(ms1.contains(x));
            let j = choose|j: int| 0 <= j < ms1.len() && ms1[j] == x;
            assert(cm[j] == z);
        }
        if cm.contains(z) {
            let j = choose|j: int| 0 <= j < cm.len() && cm[j] == z;
            let x = ms1[j];
            assert(ms1.contains(x));
            assert(0 <= x < i);
            lemma_mergeset_relabel(ns1, ns2, pi, sigma, k, i, s1, x);
            assert(in_mergeset(graph_of(pre2), ps2, pi[s1], z));
        }
    }
    lemma_sorted_unique(pre2, ms2, cm);
}


/// Work sums are carried across.
proof fn lemma_work_sum_carry(p1: Seq<DagNode>, p2: Seq<DagNode>, pi: Seq<int>, xs: Seq<int>)
    requires
        within(xs, p1.len() as int),
        within(carry(xs, pi), p2.len() as int),
        forall|j: int| 0 <= j < xs.len() ==> p2[pi[#[trigger] xs[j]]].block.work_view() == p1[xs[j]].block.work_view(),
    ensures
        work_sum(p2, carry(xs, pi)) == work_sum(p1, xs),
    decreases xs.len(),
{
    if xs.len() > 0 {
        let init = xs.drop_last();
        assert(carry(xs, pi).drop_last() =~= carry(init, pi));
        assert forall|j: int| 0 <= j < init.len() implies p2[pi[#[trigger] init[j]]].block.work_view() == p1[init[j]].block.work_view() by {
            assert(init[j] == xs[j]);
        }
        assert forall|j: int| 0 <= j < carry(init, pi).len() implies 0 <= #[trigger] carry(init, pi)[j] < p2.len() by {
            assert(carry(init, pi)[j] == carry(xs, pi)[j]);
        }
        lemma_work_sum_carry(p1, p2, pi, init);
        assert(xs[xs.len() - 1] == xs.last());
    }
}

/// A non-genesis block keeps its colouring, carried across.
proof fn lemma_coloring_carried(ns1: Seq<DagNode>, ns2: Seq<DagNode>, pi: Seq<int>, sigma: Seq<int>, k: int, i: int)
    requires
        reordered(ns1, ns2, pi, sigma),
        both_ok(ns1, ns2, k),
        relabels(graph_of(ns1), graph_of(ns2), pi, sigma),
        0 < i < ns1.len(),
        carried_below(ns1, ns2, pi, i),
    ensures
        ({
            let a = ns1[i];
            let s1 = a.selected as int;
            let st = color_start(ints(ns1[s1].blues@), sizes_of(ns1[s1].blue_sizes@), s1);
            let col = color_all(graph_of(ns1.subrange(0, i)), st, ints(a.mergeset@), k);
            let col2 = color_all(
                graph_of(ns2.subrange(0, pi[i])),
                color_start(ints(ns2[pi[s1]].blues@), sizes_of(ns2[pi[s1]].blue_sizes@), pi[s1]),
                ints(ns2[pi[i]].mergeset@),
                k,
            );
            col2 == carry_coloring(col, pi)
        }),
{
    lemma_selected_carried(ns1, ns2, pi, sigma, k, i);
    lemma_mergeset_carried(ns1, ns2, pi, sigma, k, i);
    let g1 = graph_of(ns1);
    let g2 = graph_of(ns2);
    let m = pi[i];
    let a = ns1[i];
    let s1 = a.selected as int;
    let s2 = pi[s1];
    let sp1 = ns1[s1];
    let sp2 = ns2[s2];
    assert(carried(ns1, ns2, pi, s1));
    assert(node_ok(ns1.subrange(0, s1), sp1, k));
    assert(node_ok(ns2.subrange(0, s2), sp2, k));
    let bl1 = ints(sp1.blues@);
    let bl2 = ints(sp2.blues@);
    let st1 = color_start(bl1, sizes_of(sp1.blue_sizes@), s1);
    let st2 = color_start(bl2, sizes_of(sp2.blue_sizes@), s2);
    let ms1 = ints(a.mergeset@);
    let ms2 = ints(ns2[m].mergeset@);
    assert(carry(bl1.push(s1), pi) =~= bl2.push(s2));
    assert(st2 == carry_coloring(st1, pi)) by {
        assert(carry(Seq::<int>::empty(), pi) =~= Seq::<int>::empty());
    }
    assert(within(st1.blues, i)) by {
        assert forall|j: int| 0 <= j < st1.blues.len() implies 0 <= #[trigger] st1.blues[j] < i by {
            if j < bl1.len() {
                assert(sp1.blues@[j] < s1);
            }
        }
    }
    assert(within(st2.blues, m)) by {
        assert forall|j: int| 0 <= j < st2.blues.len() implies 0 <= #[trigger] st2.blues[j] < m by {
            if j < bl2.len() {
                assert(sp2.blues@[j] < s2);
            }
        }
    }
    assert(within(st1.mblues, i));
    assert(within(st1.mreds, i));
    lemma_prefix_graph(ns1, i);
    lemma_prefix_graph(ns2, m);
    lemma_color_all_extend(graph_of(ns1.subrange(0, i)), g1, st1, ms1, k);
    lemma_color_all_extend(graph_of(ns2.subrange(0, m)), g2, st2, ms2, k);
    lemma_color_all_relabel(g1, g2, pi, sigma, st1, ms1, k);
}


/// Each block's derived data is carried across, given that of the blocks
/// before it.
proof fn lemma_carried_step(ns1: Seq<DagNode>, ns2: Seq<DagNode>, pi: Seq<int>, sigma: Seq<int>, k: int, i: int)
    requires
        reordered(ns1, ns2, pi, sigma),
        both_ok(ns1, ns2, k),
        relabels(graph_of(ns1), graph_of(ns2), pi, sigma),
        0 <= i < ns1.len(),
        carried_below(ns1, ns2, pi, i),
    ensures
        carried(ns1, ns2, pi, i),
{
    let g1 = graph_of(ns1);
    let g2 = graph_of(ns2);
    let m = pi[i];
    let a = ns1[i];
    let b = ns2[m];
    let pre1 = ns1.subrange(0, i);
    let pre2 = ns2.subrange(0, m);
    assert(node_ok(pre1, a, k));
    assert(node_ok(pre2, b, k));
    if i == 0 {
        assert(g1[0].len() == 0);
        assert(g2[m].len() == 0);
        assert(m == 0);
        assert(carry(ints(a.mergeset@), pi) =~= ints(b.mergeset@));
        assert(carry(ints(a.blues@), pi) =~= ints(b.blues@));
        assert(carry(ints(a.mblues@), pi) =~= ints(b.mblues@));
        assert(carry(ints(a.mreds@), pi) =~= ints(b.mreds@));
        assert(a.blue_sizes@ =~= b.blue_sizes@);
    } else {
        lemma_selected_carried(ns1, ns2, pi, sigma, k, i);
        lemma_mergeset_carried(ns1, ns2, pi, sigma, k, i);
        lemma_coloring_carried(ns1, ns2, pi, sigma, k, i);
        let s1 = a.selected as int;
        let s2 = pi[s1];
        assert(carried(ns1, ns2, pi, s1));
        assert(pre1[s1] == ns1[s1]);
        assert(pre2[s2] == ns2[s2]);
        let st1 = color_start(ints(ns1[s1].blues@), sizes_of(ns1[s1].blue_sizes@), s1);
        let col1 = color_all(graph_of(pre1), st1, ints(a.mergeset@), k);
        let col2 = carry_coloring(col1, pi);
        assert(ints(b.blues@) == col2.blues);
        assert(ints(b.mblues@) == col2.mblues);
        assert(ints(b.mreds@) == col2.mreds);
        assert(sizes_of(b.blue_sizes@) == sizes_of(a.blue_sizes@));
        assert(b.blue_sizes@ =~= a.blue_sizes@) by {
            assert forall|j: int| 0 <= j < a.blue_sizes@.len() implies b.blue_sizes@[j] == a.blue_sizes@[j] by {
                assert(sizes_of(b.blue_sizes@)[j] == sizes_of(a.blue_sizes@)[j]);
            }
        }
        // The blue work adds the same work on both sides.
        let mb = col1.mblues;
        assert(within(mb, i)) by {
            assert forall|j: int| 0 <= j < mb.len() implies 0 <= #[trigger] mb[j] < i by {
                assert(a.mblues@[j] < i);
            }
        }
        assert(within(carry(mb, pi), m)) by {
            assert forall|j: int| 0 <= j < carry(mb, pi).len() implies 0 <= #[trigger] carry(mb, pi)[j] < m by {
                assert(b.mblues@[j] < m);
            }
        }
        assert forall|j: int| 0 <= j < mb.len() implies pre2[pi[#[trigger] mb[j]]].block.work_view() == pre1[mb[j]].block.work_view() by {
            assert(pre1[mb[j]] == ns1[mb[j]]);
            assert(carry(mb, pi)[j] == pi[mb[j]]);
            assert(pre2[pi[mb[j]]] == ns2[pi[mb[j]]]);
        }
        lemma_work_sum_carry(pre1, pre2, pi, mb);
        assert(ns2[s2].block.work_view() == ns1[s1].block.work_view());
    }
}

/// Every block's derived data is carried across.
proof fn lemma_carried_all(ns1: Seq<DagNode>, ns2: Seq<DagNode>, pi: Seq<int>, sigma: Seq<int>, k: int, i: int)
    requires
        reordered(ns1, ns2, pi, sigma),
        both_ok(ns1, ns2, k),
        relabels(graph_of(ns1), graph_of(ns2), pi, sigma),
        0 <= i <= ns1.len(),
    ensures
        carried_below(ns1, ns2, pi, i),
    decreases i,
{
    if i > 0 {
        lemma_carried_all(ns1, ns2, pi, sigma, k, i - 1);
        lemma_carried_step(ns1, ns2, pi, sigma, k, i - 1);
    }
}


// ---------------------------------------------------------------------------
// Two DAGs holding the same blocks.

/// Two stores hold the same blocks under the same `k`, whatever order the
/// blocks were added in: the same ids, and under each id the same parents,
/// work and payload.
pub open spec fn same_block_set(d1: Dag, d2: Dag) -> bool {
    &&& d1.k_view() == d2.k_view()
    &&& forall|x: BlockId| #![trigger d1.has(x)] #![trigger d2.has(x)] d1.has(x) <==> d2.has(x)
    &&& forall|x: BlockId|
        #[trigger] d1.has(x) ==> {
            &&& d1.block_at(d1.pos(x)).parents_view() == d2.block_at(d2.pos(x)).parents_view()
            &&& d1.block_at(d1.pos(x)).work_view() == d2.block_at(d2.pos(x)).work_view()
            &&& d1.block_at(d1.pos(x)).payload_view() == d2.block_at(d2.pos(x)).payload_view()
        }
}

/// Positions in `d2` of the blocks of `d1`, in `d1`'s order.
pub(crate) open spec fn positions_in(d1: Dag, d2: Dag) -> Seq<int> {
    Seq::new(d1.ids().len(), |i: int| d2.pos(d1.ids()[i]))
}

/// The two stores' nodes correspond block by block, and every block's
/// derived data is carried across.
proof fn lemma_reorder_setup(d1: &Dag, d2: &Dag)
    requires
        d1.inv(),
        d2.inv(),
        same_block_set(*d1, *d2),
    ensures
        reordered(d1.nodes@, d2.nodes@, positions_in(*d1, *d2), positions_in(*d2, *d1)),
        both_ok(d1.nodes@, d2.nodes@, d1.k_view() as int),
        relabels(d1.graph(), d2.graph(), positions_in(*d1, *d2), positions_in(*d2, *d1)),
        carried_below(d1.nodes@, d2.nodes@, positions_in(*d1, *d2), d1.ids().len() as int),
        d1.ids() == ids_of(d1.nodes@),
        d2.ids() == ids_of(d2.nodes@),
        d1.graph() == graph_of(d1.nodes@),
        d2.graph() == graph_of(d2.nodes@),
{
    d1.reveal_inv();
    d2.reveal_inv();
    let ns1 = d1.nodes@;
    let ns2 = d2.nodes@;
    let ids1 = d1.ids();
    let ids2 = d2.ids();
    let pi = positions_in(*d1, *d2);
    let sigma = positions_in(*d2, *d1);
    let k = d1.k_view() as int;
    assert forall|i: int| 0 <= i < ids1.len() implies 0 <= #[trigger] pi[i] < ids2.len() && ids2[pi[i]] == ids1[i]
        && d1.pos(ids1[i]) == i by {
        let x = ids1[i];
        assert(d1.has(x));
        assert(d2.has(x));
        let j = choose|j: int| 0 <= j < ids2.len() && ids2[j] == x;
        d2.lemma_pos(x, j);
        d1.lemma_pos(x, i);
    }
    assert forall|j: int| 0 <= j < ids2.len() implies 0 <= #[trigger] sigma[j] < ids1.len() && ids1[sigma[j]] == ids2[j] by {
        let x = ids2[j];
        assert(d2.has(x));
        assert(d1.has(x));
        let i = choose|i: int| 0 <= i < ids1.len() && ids1[i] == x;
        d1.lemma_pos(x, i);
    }
    // The two stores hold equally many blocks.
    assert(pi.no_duplicates()) by {
        assert forall|a: int, b: int| 0 <= a < pi.len() && 0 <= b < pi.len() && a != b implies pi[a] != pi[b] by {
            assert(ids1[a] != ids1[b]);
        }
    }
    assert(sigma.no_duplicates()) by {
        assert forall|a: int, b: int| 0 <= a < sigma.len() && 0 <= b < sigma.len() && a != b implies sigma[a] != sigma[b] by {
            assert(ids2[a] != ids2[b]);
        }
    }
    lemma_distinct_positions_len(pi, ids2.len() as int);
    lemma_distinct_positions_len(sigma, ids1.len() as int);
    assert forall|i: int| 0 <= i < ns1.len() implies {
        &&& 0 <= #[trigger] pi[i] < ns2.len()
        &&& ns2[pi[i]].id == ns1[i].id
        &&& ns2[pi[i]].block.parents_view() == ns1[i].block.parents_view()
        &&& ns2[pi[i]].block.work_view() == ns1[i].block.work_view()
        &&& ns2[pi[i]].block.payload_view() == ns1[i].block.payload_view()
    } by {
        let x = ids1[i];
        assert(d1.has(x));
        assert(d2.pos(x) == pi[i]);
    }
    assert(reordered(ns1, ns2, pi, sigma));
    assert(both_ok(ns1, ns2, k));
    lemma_graph_relabel(ns1, ns2, pi, sigma, k);
    lemma_carried_all(ns1, ns2, pi, sigma, k, ns1.len() as int);
}


/// Readiness is carried across.
proof fn lemma_ready_carry(g1: Seq<Seq<int>>, g2: Seq<Seq<int>>, pi: Seq<int>, sigma: Seq<int>, done: Seq<int>, x: int)
    requires
        relabels(g1, g2, pi, sigma),
        wf_graph(g1),
        within(done, g1.len() as int),
        0 <= x < g1.len(),
    ensures
        ready(g2, carry(done, pi), pi[x]) == ready(g1, done, x),
{
    let cd = carry(done, pi);
    assert forall|z: int| 0 <= z < g1.len() implies #[trigger] cd.contains(pi[z]) == done.contains(z) by {
        if cd.contains(pi[z]) {
            let j = choose|j: int| 0 <= j < cd.len() && cd[j] == pi[z];
            assert(sigma[pi[done[j]]] == done[j]);
            assert(done[j] == z);
        }
        if done.contains(z) {
            let j = choose|j: int| 0 <= j < done.len() && done[j] == z;
            assert(cd[j] == pi[z]);
        }
    }
    assert forall|j: int| 0 <= j < g1[x].len() implies #[trigger] cd.contains(g2[pi[x]][j]) == done.contains(g1[x][j]) by {
        assert(g2[pi[x]][j] == pi[g1[x][j]]);
    }
    if ready(g1, done, x) {
        assert forall|j: int| 0 <= j < g2[pi[x]].len() implies cd.contains(#[trigger] g2[pi[x]][j]) by {
            assert(done.contains(g1[x][j]));
        }
    }
    if ready(g2, cd, pi[x]) {
        assert forall|j: int| 0 <= j < g1[x].len() implies done.contains(#[trigger] g1[x][j]) by {
            assert(cd.contains(g2[pi[x]][j]));
        }
    }
}

/// A linearization order of `d1`, carried across, is one of `d2`.
proof fn lemma_linear_order_carry(d1: &Dag, d2: &Dag, o: Seq<int>)
    requires
        d1.inv(),
        d2.inv(),
        same_block_set(*d1, *d2),
        d1.linear_order(o),
    ensures
        d2.linear_order(carry(o, positions_in(*d1, *d2))),
        carry(o, positions_in(*d1, *d2)).map_values(|i: int| d2.ids()[i]) == o.map_values(|i: int| d1.ids()[i]),
{
    lemma_reorder_setup(d1, d2);
    d1.lemma_inv_shape();
    d2.lemma_inv_shape();
    let ns1 = d1.nodes@;
    let ns2 = d2.nodes@;
    let pi = positions_in(*d1, *d2);
    let sigma = positions_in(*d2, *d1);
    let g1 = d1.graph();
    let g2 = d2.graph();
    let n = g1.len() as int;
    let co = carry(o, pi);
    d1.reveal_inv();
    d2.reveal_inv();
    assert(within(o, n)) by {
        assert forall|t: int| 0 <= t < o.len() implies 0 <= #[trigger] o[t] < n by {
            assert(ready(g1, o.take(t), o[t]));
        }
    }
    assert forall|a: int, b: int| 0 <= a < n && 0 <= b < n implies d2.prio_lt(#[trigger] pi[a], #[trigger] pi[b]) == d1.prio_lt(a, b) by {
        assert(carried(ns1, ns2, pi, a));
        assert(carried(ns1, ns2, pi, b));
    }
    assert forall|t: int| 0 <= t < co.len() implies #[trigger] ready(g2, co.take(t), co[t]) by {
        assert(co.take(t) =~= carry(o.take(t), pi));
        assert(ready(g1, o.take(t), o[t]));
        lemma_ready_carry(g1, g2, pi, sigma, o.take(t), o[t]);
    }
    assert forall|t: int, y: int| 0 <= t < co.len() && #[trigger] ready(g2, co.take(t), y) implies !d2.prio_lt(co[t], y) by {
        assert(co.take(t) =~= carry(o.take(t), pi));
        let x = sigma[y];
        assert(pi[x] == y);
        lemma_ready_carry(g1, g2, pi, sigma, o.take(t), x);
        assert(ready(g1, o.take(t), x));
        assert(!d1.prio_lt(o[t], x));
    }
    assert(d2.linear_order(co));
    assert(co.map_values(|i: int| d2.ids()[i]) =~= o.map_values(|i: int| d1.ids()[i]));
}


/// Two blocks' GHOSTDAG data agree field by field.
pub open spec fn same_ghostdag(a: GhostdagData, b: GhostdagData) -> bool {
    &&& a.selected_parent == b.selected_parent
    &&& a.mergeset_blues@ == b.mergeset_blues@
    &&& a.mergeset_reds@ == b.mergeset_reds@
    &&& a.blue_score == b.blue_score
    &&& a.blue_work == b.blue_work
    &&& a.blue_anticone_sizes@ == b.blue_anticone_sizes@
}

/// The ids of positions carried across are the same ids.
proof fn lemma_ids_at_carry(p1: Seq<DagNode>, p2: Seq<DagNode>, pi: Seq<int>, xs: Seq<int>)
    requires
        within(xs, p1.len() as int),
        within(carry(xs, pi), p2.len() as int),
        forall|j: int| 0 <= j < xs.len() ==> p2[pi[#[trigger] xs[j]]].id == p1[xs[j]].id,
    ensures
        ids_at(p2, carry(xs, pi)) == ids_at(p1, xs),
{
    assert forall|j: int| 0 <= j < xs.len() implies #[trigger] ids_at(p2, carry(xs, pi))[j] == ids_at(p1, xs)[j] by {
        assert(carry(xs, pi)[j] == pi[xs[j]]);
    }
    assert(ids_at(p2, carry(xs, pi)) =~= ids_at(p1, xs));
}

/// A block's GHOSTDAG data is the same in both stores.
proof fn lemma_ghostdag_carried(ns1: Seq<DagNode>, ns2: Seq<DagNode>, pi: Seq<int>, sigma: Seq<int>, k: int, i: int)
    requires
        reordered(ns1, ns2, pi, sigma),
        both_ok(ns1, ns2, k),
        relabels(graph_of(ns1), graph_of(ns2), pi, sigma),
        carried_below(ns1, ns2, pi, ns1.len() as int),
        0 <= i < ns1.len(),
    ensures
        same_ghostdag(ns1[i].ghostdag, ns2[pi[i]].ghostdag),
{
    let g1 = graph_of(ns1);
    let g2 = graph_of(ns2);
    let m = pi[i];
    let a = ns1[i];
    let b = ns2[m];
    let pre1 = ns1.subrange(0, i);
    let pre2 = ns2.subrange(0, m);
    assert(node_ok(pre1, a, k));
    assert(node_ok(pre2, b, k));
    assert(carried(ns1, ns2, pi, i));
    if i == 0 {
        assert(g2[m].len() == 0);
        assert(m == 0);
        assert(a.ghostdag.mergeset_blues@ =~= b.ghostdag.mergeset_blues@);
        assert(a.ghostdag.mergeset_reds@ =~= b.ghostdag.mergeset_reds@);
        assert(a.ghostdag.blue_anticone_sizes@ =~= b.ghostdag.blue_anticone_sizes@);
    } else {
        lemma_selected_carried(ns1, ns2, pi, sigma, k, i);
        let s1 = a.selected as int;
        assert(pre1[s1] == ns1[s1]);
        assert(pre2[pi[s1]] == ns2[pi[s1]]);
        let mb = ints(a.mblues@);
        let mr = ints(a.mreds@);
        assert(within(mb, i)) by {
            assert forall|j: int| 0 <= j < mb.len() implies 0 <= #[trigger] mb[j] < i by {
                assert(a.mblues@[j] < i);
            }
        }
        assert(within(carry(mb, pi), m)) by {
            assert forall|j: int| 0 <= j < carry(mb, pi).len() implies 0 <= #[trigger] carry(mb, pi)[j] < m by {
                assert(b.mblues@[j] < m);
            }
        }
        assert forall|j: int| 0 <= j < mb.len() implies pre2[pi[#[trigger] mb[j]]].id == pre1[mb[j]].id by {
            assert(carry(mb, pi)[j] == pi[mb[j]]);
        }
        lemma_ids_at_carry(pre1, pre2, pi, mb);
        assert(within(mr, i)) by {
            assert forall|j: int| 0 <= j < mr.len() implies 0 <= #[trigger] mr[j] < i by {
                assert(a.mreds@[j] < i);
            }
        }
        assert(within(carry(mr, pi), m)) by {
            assert forall|j: int| 0 <= j < carry(mr, pi).len() implies 0 <= #[trigger] carry(mr, pi)[j] < m by {
                assert(b.mreds@[j] < m);
            }
        }
        assert forall|j: int| 0 <= j < mr.len() implies pre2[pi[#[trigger] mr[j]]].id == pre1[mr[j]].id by {
            assert(carry(mr, pi)[j] == pi[mr[j]]);
        }
        lemma_ids_at_carry(pre1, pre2, pi, mr);
    }
    assert(a.ghostdag.blue_anticone_sizes@ =~= b.ghostdag.blue_anticone_sizes@) by {
        assert forall|j: int| 0 <= j < a.blues@.len() implies a.ghostdag.blue_anticone_sizes@[j] == b.ghostdag.blue_anticone_sizes@[j] by {
            let p = a.blues@[j] as int;
            assert(ints(b.blues@)[j] == carry(ints(a.blues@), pi)[j]);
            assert(b.blues@[j] as int == pi[p]);
            assert(pre1[p] == ns1[p]);
            assert(pre2[pi[p]] == ns2[pi[p]]);
        }
    }
}

/// Ancestry, tips and chain keys, all by id, are the same in both stores.
proof fn lemma_same_structure(d1: &Dag, d2: &Dag)
    requires
        d1.inv(),
        d2.inv(),
        same_block_set(*d1, *d2),
        same_block_set(*d2, *d1),
    ensures
        forall|a: BlockId, b: BlockId| #[trigger] d1.is_ancestor_spec(a, b) <==> d2.is_ancestor_spec(a, b),
        forall|t: BlockId| #[trigger] d1.is_tip_spec(t) <==> d2.is_tip_spec(t),
        forall|a: BlockId, b: BlockId|
            d1.has(a) && d1.has(b) ==> (#[trigger] d1.chain_key_lt(a, b) <==> d2.chain_key_lt(a, b)),
{
    lemma_reorder_setup(d1, d2);
    d1.reveal_inv();
    d2.reveal_inv();
    let ns1 = d1.nodes@;
    let ns2 = d2.nodes@;
    let pi = positions_in(*d1, *d2);
    let sigma = positions_in(*d2, *d1);
    let g1 = d1.graph();
    let g2 = d2.graph();
    let ids1 = d1.ids();
    let ids2 = d2.ids();
    let n = ids1.len() as int;
    assert forall|a: BlockId, b: BlockId| #[trigger] d1.is_ancestor_spec(a, b) <==> d2.is_ancestor_spec(a, b) by {
        if d1.is_ancestor_spec(a, b) {
            let (i, j) = choose|i: int, j: int| 0 <= i < n && 0 <= j < n && ids1[i] == a && ids1[j] == b && #[trigger] anc(g1, i, j);
            lemma_anc_relabel(g1, g2, pi, sigma, i, j);
            assert(anc(g2, pi[i], pi[j]));
        }
        if d2.is_ancestor_spec(a, b) {
            let (i, j) = choose|i: int, j: int| 0 <= i < n && 0 <= j < n && ids2[i] == a && ids2[j] == b && #[trigger] anc(g2, i, j);
            lemma_anc_relabel(g1, g2, pi, sigma, sigma[i], sigma[j]);
            assert(pi[sigma[i]] == i && pi[sigma[j]] == j);
            assert(anc(g1, sigma[i], sigma[j]));
        }
    }
    assert forall|t: BlockId| #[trigger] d1.is_tip_spec(t) <==> d2.is_tip_spec(t) by {
        if d1.is_tip_spec(t) {
            let i = choose|i: int| 0 <= i < n && #[trigger] ids1[i] == t && childless(g1, i);
            assert forall|c: int, j: int| 0 <= c < n && 0 <= j < g2[c].len() implies #[trigger] g2[c][j] != pi[i] by {
                let c1 = sigma[c];
                assert(pi[c1] == c);
                assert(g2[pi[c1]][j] == pi[g1[c1][j]]);
                assert(g1[c1][j] != i);
                assert(0 <= g1[c1][j] < c1);
                assert(sigma[pi[g1[c1][j]]] == g1[c1][j]);
            }
            assert(ids2[pi[i]] == t);
            assert(childless(g2, pi[i]));
        }
        if d2.is_tip_spec(t) {
            let m = choose|m: int| 0 <= m < n && #[trigger] ids2[m] == t && childless(g2, m);
            let i = sigma[m];
            assert(pi[i] == m);
            assert forall|c: int, j: int| 0 <= c < n && 0 <= j < g1[c].len() implies #[trigger] g1[c][j] != i by {
                assert(g2[pi[c]][j] == pi[g1[c][j]]);
                assert(g2[pi[c]][j] != m);
            }
            assert(childless(g1, i));
        }
    }
    assert forall|a: BlockId, b: BlockId| d1.has(a) && d1.has(b) implies (#[trigger] d1.chain_key_lt(a, b) <==> d2.chain_key_lt(a, b)) by {
        let i = choose|i: int| 0 <= i < n && ids1[i] == a;
        let j = choose|j: int| 0 <= j < n && ids1[j] == b;
        d1.lemma_pos(a, i);
        d1.lemma_pos(b, j);
        assert(d2.pos(ids1[i]) == pi[i]);
        assert(d2.pos(ids1[j]) == pi[j]);
        assert(carried(ns1, ns2, pi, i));
        assert(carried(ns1, ns2, pi, j));
    }
}

/// Insertion order does not matter. Two consistent stores that hold the same
/// blocks under the same `k`, whatever order each added them in, give every
/// block the same GHOSTDAG data (selected parent, mergeset colouring, blue
/// score and work, blue anticone sizes), accept the same orders as their
/// linearization, and so derive the same linearization.
pub proof fn lemma_insertion_order_free(d1: &Dag, d2: &Dag)
    requires
        d1.inv(),
        d2.inv(),
        same_block_set(*d1, *d2),
    ensures
        forall|x: BlockId| #[trigger] d1.has(x) ==> same_ghostdag(d1.ghostdag_at(d1.pos(x)), d2.ghostdag_at(d2.pos(x))),
        forall|order: Seq<BlockId>| #![trigger d1.is_linearization(order)] #![trigger d2.is_linearization(order)]
            d1.is_linearization(order) <==> d2.is_linearization(order),
        d2.linearization() == d1.linearization(),
        forall|a: BlockId, b: BlockId| #[trigger] d1.is_ancestor_spec(a, b) <==> d2.is_ancestor_spec(a, b),
        forall|t: BlockId| #[trigger] d1.is_tip_spec(t) <==> d2.is_tip_spec(t),
        forall|a: BlockId, b: BlockId|
            d1.has(a) && d1.has(b) ==> (#[trigger] d1.chain_key_lt(a, b) <==> d2.chain_key_lt(a, b)),
{
    assert(same_block_set(*d2, *d1)) by {
        assert forall|x: BlockId| #[trigger] d2.has(x) implies {
            &&& d2.block_at(d2.pos(x)).parents_view() == d1.block_at(d1.pos(x)).parents_view()
            &&& d2.block_at(d2.pos(x)).work_view() == d1.block_at(d1.pos(x)).work_view()
            &&& d2.block_at(d2.pos(x)).payload_view() == d1.block_at(d1.pos(x)).payload_view()
        } by {
            assert(d1.has(x));
        }
    }
    lemma_reorder_setup(d1, d2);
    d1.reveal_inv();
    d2.reveal_inv();
    let pi = positions_in(*d1, *d2);
    let sigma = positions_in(*d2, *d1);
    assert forall|x: BlockId| #[trigger] d1.has(x) implies same_ghostdag(d1.ghostdag_at(d1.pos(x)), d2.ghostdag_at(d2.pos(x))) by {
        let i = choose|i: int| 0 <= i < d1.ids().len() && d1.ids()[i] == x;
        d1.lemma_pos(x, i);
        assert(d2.pos(d1.ids()[i]) == pi[i]);
        lemma_ghostdag_carried(d1.nodes@, d2.nodes@, pi, sigma, d1.k_view() as int, i);
    }
    assert forall|order: Seq<BlockId>| #![trigger d1.is_linearization(order)] #![trigger d2.is_linearization(order)]
        d1.is_linearization(order) <==> d2.is_linearization(order) by {
        if d1.is_linearization(order) {
            let o = choose|o: Seq<int>| #[trigger] d1.linear_order(o) && order == o.map_values(|i: int| d1.ids()[i]);
            lemma_linear_order_carry(d1, d2, o);
            assert(d2.linear_order(carry(o, pi)));
        }
        if d2.is_linearization(order) {
            let o = choose|o: Seq<int>| #[trigger] d2.linear_order(o) && order == o.map_values(|i: int| d2.ids()[i]);
            lemma_linear_order_carry(d2, d1, o);
            assert(d1.linear_order(carry(o, sigma)));
        }
    }
    lemma_same_structure(d1, d2);
    lemma_linearization_exists(d1);
    let lin = d1.linearization();
    assert(d2.is_linearization(lin));
    lemma_linearization_unique(d2, lin, d2.linearization());
}


/// Stores with the same ancestry by id pick the same past.
proof fn lemma_past_order_same(d1: &Dag, d2: &Dag, parents: Seq<BlockId>, order: Seq<BlockId>, k: int)
    requires
        forall|a: BlockId, b: BlockId| #[trigger] d1.is_ancestor_spec(a, b) <==> d2.is_ancestor_spec(a, b),
    ensures
        past_order(*d1, parents, order, k) == past_order(*d2, parents, order, k),
    decreases k,
{
    if k > 0 {
        lemma_past_order_same(d1, d2, parents, order, k - 1);
        let x = order[k - 1];
        assert(in_past_of_parents(*d1, parents, x) == in_past_of_parents(*d2, parents, x)) by {
            assert forall|j: int| 0 <= j < parents.len() implies d1.is_ancestor_spec(x, #[trigger] parents[j])
                == d2.is_ancestor_spec(x, parents[j]) by {}
        }
    }
}

/// Stores holding the same blocks run the same blocks alike.
proof fn lemma_run_same(d1: &Dag, d2: &Dag, order: Seq<BlockId>, subsidy: u64, k: int)
    requires
        same_block_set(*d1, *d2),
        k <= order.len(),
        forall|j: int| 0 <= j < order.len() ==> d1.has(#[trigger] order[j]),
    ensures
        run_blocks(*d1, order, subsidy, k) == run_blocks(*d2, order, subsidy, k),
    decreases k,
{
    if k > 0 {
        lemma_run_same(d1, d2, order, subsidy, k - 1);
        assert(d1.has(order[k - 1]));
        assert(payload_of(*d1, order[k - 1]) == payload_of(*d2, order[k - 1]));
    }
}

/// The ledger state does not depend on insertion order either: two
/// consistent stores holding the same blocks under the same `k` give the
/// same full state, and a new block with any parents the same view of its
/// past.
pub proof fn lemma_state_order_free(d1: &Dag, d2: &Dag, parents: Seq<BlockId>, subsidy: u64)
    requires
        d1.inv(),
        d2.inv(),
        same_block_set(*d1, *d2),
    ensures
        full_state(*d1, subsidy) == full_state(*d2, subsidy),
        view_state(*d1, parents, subsidy) == view_state(*d2, parents, subsidy),
{
    lemma_insertion_order_free(d1, d2);
    lemma_reorder_setup(d1, d2);
    lemma_linearization_exists(d1);
    {
        let lin = d1.linearization();
        let n = d1.ids().len() as int;
        assert(d2.ids().len() == n);
        lemma_linearization_topological(d1, lin);
        assert forall|j: int| 0 <= j < lin.len() implies d1.has(#[trigger] lin[j]) by {
            assert(lin.contains(lin[j]));
        }
        lemma_run_same(d1, d2, lin, subsidy, n);
        lemma_past_order_same(d1, d2, parents, lin, n);
        let o = past_order(*d1, parents, lin, n);
        lemma_past_order_present(*d1, parents, lin, n);
        lemma_run_same(d1, d2, o, subsidy, o.len() as int);
    }
}

} // verus!
