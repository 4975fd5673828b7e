//! The mathematical model of a block DAG: blocks by position, each with the
//! positions of its parents, and the ancestor relation it induces. Positions
//! are insertion order, so every parent comes before its child.
use vstd::prelude::*;

use crate::block::BlockId;

verus! {

/// No id occurs twice.
pub open spec fn distinct_ids(ids: Seq<BlockId>) -> bool {
    forall|i: int, j: int| 0 <= i < ids.len() && 0 <= j < ids.len() && i != j ==> ids[i] != ids[j]
}

/// No block lists `i` as a parent.
pub open spec fn childless(ps: Seq<Seq<int>>, i: int) -> bool {
    forall|c: int, j: int| 0 <= c < ps.len() && 0 <= j < ps[c].len() ==> #[trigger] ps[c][j] != i
}

/// `x` names a block that no block lists as a parent.
pub open spec fn tip_by_id(ids: Seq<BlockId>, ps: Seq<Seq<int>>, x: BlockId) -> bool {
    exists|i: int| 0 <= i < ids.len() && #[trigger] ids[i] == x && childless(ps, i)
}

/// `a` is a strict ancestor of `b`, both named by id.
pub open spec fn ancestor_by_id(ids: Seq<BlockId>, ps: Seq<Seq<int>>, a: BlockId, b: BlockId) -> bool {
    exists|i: int, j: int|
        0 <= i < ids.len() && 0 <= j < ids.len() && ids[i] == a && ids[j] == b && #[trigger] anc(ps, i, j)
}

/// `a` is a strict tree (selected-chain) ancestor of `b`, both named by id.
pub open spec fn chain_ancestor_by_id(ids: Seq<BlockId>, tp: Seq<int>, a: BlockId, b: BlockId) -> bool {
    a != b && exists|i: int, j: int|
        0 <= i < ids.len() && 0 <= j < ids.len() && ids[i] == a && ids[j] == b && #[trigger] tanc(tp, i, j)
}

/// Every parent position lies strictly before its child.
pub open spec fn wf_graph(ps: Seq<Seq<int>>) -> bool {
    forall|i: int, j: int| 0 <= i < ps.len() && 0 <= j < ps[i].len() ==> 0 <= #[trigger] ps[i][j] < i
}

/// `a` is a strict ancestor of `b` (`a` is in `b`'s past).
pub open spec fn anc(ps: Seq<Seq<int>>, a: int, b: int) -> bool
    decreases b, ps[b].len() + 1,
{
    if 0 <= b < ps.len() {
        anc_upto(ps, a, b, ps[b].len() as int)
    } else {
        false
    }
}

/// `a` is reached through one of the first `j` parents of `b`.
pub open spec fn anc_upto(ps: Seq<Seq<int>>, a: int, b: int, j: int) -> bool
    decreases b, j,
{
    if j <= 0 || b < 0 || b >= ps.len() || j > ps[b].len() {
        false
    } else {
        let p = ps[b][j - 1];
        anc_upto(ps, a, b, j - 1) || (0 <= p < b && (p == a || anc(ps, a, p)))
    }
}

/// `a` and `b` are distinct and neither is an ancestor of the other.
pub open spec fn in_anticone(ps: Seq<Seq<int>>, a: int, b: int) -> bool {
    a != b && !anc(ps, a, b) && !anc(ps, b, a)
}

/// `x` is a tree ancestor of `y` or equal to it, in the tree whose parent map
/// is `tp` (position 0 is the root).
pub open spec fn tanc(tp: Seq<int>, x: int, y: int) -> bool
    decreases y,
{
    if y == x {
        true
    } else if 0 < y < tp.len() && 0 <= tp[y] < y {
        tanc(tp, x, tp[y])
    } else {
        false
    }
}

/// Every non-root tree parent lies strictly before its child.
pub open spec fn wf_tree(tp: Seq<int>) -> bool {
    forall|i: int| 0 < i < tp.len() ==> 0 <= #[trigger] tp[i] < i
}

/// Each non-root block's tree parent is one of its DAG parents.
pub open spec fn tree_in_graph(ps: Seq<Seq<int>>, tp: Seq<int>) -> bool {
    &&& tp.len() == ps.len()
    &&& forall|i: int| 0 < i < tp.len() ==> #[trigger] ps[i].contains(tp[i])
}

pub proof fn lemma_anc_upto_witness(ps: Seq<Seq<int>>, a: int, b: int, j: int)
    requires
        anc_upto(ps, a, b, j),
    ensures
        exists|k: int|
            0 <= k < j && k < ps[b].len() && 0 <= #[trigger] ps[b][k] < b && (ps[b][k] == a
                || anc(ps, a, ps[b][k])),
    decreases j,
{
    let p = ps[b][j - 1];
    if anc_upto(ps, a, b, j - 1) {
        lemma_anc_upto_witness(ps, a, b, j - 1);
    } else {
        assert(0 <= p < b && (p == a || anc(ps, a, p)));
    }
}

pub proof fn lemma_anc_upto_intro(ps: Seq<Seq<int>>, a: int, b: int, j: int, k: int)
    requires
        0 <= b < ps.len(),
        0 <= k < j <= ps[b].len(),
        0 <= ps[b][k] < b,
        ps[b][k] == a || anc(ps, a, ps[b][k]),
    ensures
        anc_upto(ps, a, b, j),
    decreases j,
{
    if k < j - 1 {
        lemma_anc_upto_intro(ps, a, b, j - 1, k);
    }
}

/// `a` is an ancestor of `b` exactly when it is a parent of `b` or an
/// ancestor of one.
pub proof fn lemma_anc_unfold(ps: Seq<Seq<int>>, a: int, b: int)
    ensures
        anc(ps, a, b) <==> (0 <= b < ps.len() && exists|k: int|
            0 <= k < ps[b].len() && 0 <= #[trigger] ps[b][k] < b && (ps[b][k] == a || anc(
                ps,
                a,
                ps[b][k],
            ))),
{
    if anc(ps, a, b) {
        lemma_anc_upto_witness(ps, a, b, ps[b].len() as int);
    }
    if 0 <= b < ps.len() && exists|k: int|
        0 <= k < ps[b].len() && 0 <= #[trigger] ps[b][k] < b && (ps[b][k] == a || anc(
            ps,
            a,
            ps[b][k],
        )) {
        let k = choose|k: int|
            0 <= k < ps[b].len() && 0 <= #[trigger] ps[b][k] < b && (ps[b][k] == a || anc(
                ps,
                a,
                ps[b][k],
            ));
        lemma_anc_upto_intro(ps, a, b, ps[b].len() as int, k);
    }
}

/// A parent is an ancestor.
pub proof fn lemma_anc_parent(ps: Seq<Seq<int>>, b: int, k: int)
    requires
        wf_graph(ps),
        0 <= b < ps.len(),
        0 <= k < ps[b].len(),
    ensures
        anc(ps, ps[b][k], b),
{
    lemma_anc_unfold(ps, ps[b][k], b);
}

/// Ancestors come strictly before their descendants.
pub proof fn lemma_anc_lt(ps: Seq<Seq<int>>, a: int, b: int)
    requires
        anc(ps, a, b),
    ensures
        0 <= a < b < ps.len(),
    decreases b,
{
    lemma_anc_unfold(ps, a, b);
    let k = choose|k: int|
        0 <= k < ps[b].len() && 0 <= #[trigger] ps[b][k] < b && (ps[b][k] == a || anc(
            ps,
            a,
            ps[b][k],
        ));
    let p = ps[b][k];
    if p != a {
        lemma_anc_lt(ps, a, p);
    }
}

/// The ancestor relation is transitive.
pub proof fn lemma_anc_trans(ps: Seq<Seq<int>>, a: int, b: int, c: int)
    requires
        anc(ps, a, b),
        anc(ps, b, c),
    ensures
        anc(ps, a, c),
    decreases c,
{
    lemma_anc_unfold(ps, b, c);
    let k = choose|k: int|
        0 <= k < ps[c].len() && 0 <= #[trigger] ps[c][k] < c && (ps[c][k] == b || anc(
            ps,
            b,
            ps[c][k],
        ));
    let p = ps[c][k];
    if p != b {
        lemma_anc_trans(ps, a, b, p);
    }
    lemma_anc_unfold(ps, a, c);
}

/// Appending blocks does not change the ancestry of existing blocks.
pub proof fn lemma_anc_extend(ps: Seq<Seq<int>>, ps2: Seq<Seq<int>>, a: int, b: int)
    requires
        ps.len() <= ps2.len(),
        forall|i: int| 0 <= i < ps.len() ==> ps2[i] == ps[i],
        0 <= b < ps.len(),
    ensures
        anc(ps2, a, b) == anc(ps, a, b),
    decreases b,
{
    lemma_anc_unfold(ps, a, b);
    lemma_anc_unfold(ps2, a, b);
    assert forall|k: int| 0 <= k < ps[b].len() && 0 <= #[trigger] ps[b][k] < b implies anc(
        ps2,
        a,
        ps[b][k],
    ) == anc(ps, a, ps[b][k]) by {
        lemma_anc_extend(ps, ps2, a, ps[b][k]);
    }
}

/// A strict tree ancestor is a strict DAG ancestor when the tree follows DAG
/// parents.
pub proof fn lemma_tanc_anc(ps: Seq<Seq<int>>, tp: Seq<int>, x: int, y: int)
    requires
        wf_graph(ps),
        tree_in_graph(ps, tp),
        tanc(tp, x, y),
        x != y,
    ensures
        anc(ps, x, y),
    decreases y,
{
    let p = tp[y];
    assert(0 < y < tp.len());
    assert(ps[y].contains(p));
    let k = choose|k: int| 0 <= k < ps[y].len() && ps[y][k] == p;
    lemma_anc_parent(ps, y, k);
    if p != x {
        lemma_tanc_anc(ps, tp, x, p);
        lemma_anc_trans(ps, x, p, y);
    }
}

/// Tree ancestry is transitive.
pub proof fn lemma_tanc_trans(tp: Seq<int>, x: int, y: int, z: int)
    requires
        tanc(tp, x, y),
        tanc(tp, y, z),
    ensures
        tanc(tp, x, z),
    decreases z,
{
    if z != y {
        lemma_tanc_trans(tp, x, y, tp[z]);
    }
}

/// A tree ancestor is not after its descendant.
pub proof fn lemma_tanc_le(tp: Seq<int>, x: int, y: int)
    requires
        tanc(tp, x, y),
    ensures
        x <= y,
    decreases y,
{
    if y != x {
        lemma_tanc_le(tp, x, tp[y]);
    }
}

/// Appending nodes does not change tree ancestry of existing nodes.
pub proof fn lemma_tanc_extend(tp: Seq<int>, tp2: Seq<int>, x: int, y: int)
    requires
        tp.len() <= tp2.len(),
        forall|i: int| 0 <= i < tp.len() ==> tp2[i] == tp[i],
        0 <= y < tp.len(),
    ensures
        tanc(tp2, x, y) == tanc(tp, x, y),
    decreases y,
{
    if y != x && 0 < y && 0 <= tp[y] < y {
        lemma_tanc_extend(tp, tp2, x, tp[y]);
    }
}

} // verus!
