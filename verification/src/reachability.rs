//! A reachability oracle: answers "is A an ancestor of B?" from an
//! interval-labelled reachability tree (the selected-parent tree) plus a
//! future-covering set per block for the DAG edges the tree misses.
//!
//! * `start[x] <= start[y] <= end[x]` holds exactly when `x` is a tree
//!   ancestor of (or equal to) `y`.
//! * `fcs[a]` holds the tree roots of `future(a) \ subtree(a)`; `a` reaches `b`
//!   iff `b` is in `a`'s subtree or in the subtree of one of them.
use vstd::prelude::*;

use crate::block::{position, BlockId};
use crate::dag::Dag;
use crate::graph::{anc, anc_upto, ancestor_by_id, chain_ancestor_by_id, distinct_ids, tanc, tree_in_graph, wf_graph, wf_tree};
use crate::graph::{lemma_anc_lt, lemma_anc_trans, lemma_anc_unfold, lemma_tanc_anc, lemma_tanc_le, lemma_tanc_trans};

verus! {

/// Integer view of a vector of positions.
pub open spec fn ints(v: Seq<usize>) -> Seq<int> {
    v.map_values(|x: usize| x as int)
}

/// Integer view of per-block parent position lists.
pub open spec fn int_lists(v: Seq<Vec<usize>>) -> Seq<Seq<int>> {
    Seq::new(v.len(), |i: int| ints(v[i]@))
}

/// Sum of `sz[c]` over the tree children `c` of `p` with `lo <= c < hi`.
pub open spec fn csum(sz: Seq<int>, tp: Seq<int>, p: int, lo: int, hi: int) -> int
    decreases hi - lo,
{
    if lo >= hi {
        0
    } else {
        (if tp[lo] == p && lo > 0 { sz[lo] } else { 0 }) + csum(sz, tp, p, lo + 1, hi)
    }
}

/// Sum of `sz[j]` for `j < i`.
pub open spec fn total(sz: Seq<int>, i: int) -> int
    decreases i,
{
    if i <= 0 {
        0
    } else {
        total(sz, i - 1) + sz[i - 1]
    }
}

proof fn lemma_csum_frame(s1: Seq<int>, s2: Seq<int>, tp: Seq<int>, p: int, lo: int, hi: int)
    requires
        forall|j: int| lo <= j < hi ==> s1[j] == s2[j],
    ensures
        csum(s1, tp, p, lo, hi) == csum(s2, tp, p, lo, hi),
    decreases hi - lo,
{
    if lo < hi {
        lemma_csum_frame(s1, s2, tp, p, lo + 1, hi);
    }
}

proof fn lemma_csum_hi(sz: Seq<int>, tp: Seq<int>, p: int, lo: int, hi: int)
    requires
        lo <= hi,
    ensures
        csum(sz, tp, p, lo, hi + 1) == csum(sz, tp, p, lo, hi) + (if tp[hi] == p && hi > 0 {
            sz[hi]
        } else {
            0
        }),
    decreases hi - lo,
{
    if lo < hi {
        lemma_csum_hi(sz, tp, p, lo + 1, hi);
    } else {
        assert(csum(sz, tp, p, hi + 1, hi + 1) == 0);
    }
}

proof fn lemma_csum_mono(sz: Seq<int>, tp: Seq<int>, p: int, lo: int, hi: int, hi2: int)
    requires
        lo <= hi <= hi2,
        forall|j: int| 0 <= j < sz.len() ==> sz[j] >= 0,
        hi2 <= sz.len(),
        lo >= 0,
    ensures
        csum(sz, tp, p, lo, hi) <= csum(sz, tp, p, lo, hi2),
    decreases hi2 - hi,
{
    if hi < hi2 {
        lemma_csum_mono(sz, tp, p, lo, hi, hi2 - 1);
        lemma_csum_hi(sz, tp, p, lo, hi2 - 1);
    }
}

proof fn lemma_total_update(sz: Seq<int>, t: int, d: int, i: int)
    requires
        0 <= t < i <= sz.len(),
    ensures
        total(sz.update(t, sz[t] + d), i) == total(sz, i) + d,
    decreases i,
{
    if i - 1 > t {
        lemma_total_update(sz, t, d, i - 1);
    } else {
        lemma_total_frame(sz, sz.update(t, sz[t] + d), i - 1);
    }
}

proof fn lemma_total_frame(s1: Seq<int>, s2: Seq<int>, i: int)
    requires
        forall|j: int| 0 <= j < i ==> s1[j] == s2[j],
    ensures
        total(s1, i) == total(s2, i),
    decreases i,
{
    if i > 0 {
        lemma_total_frame(s1, s2, i - 1);
    }
}

proof fn lemma_total_two(sz: Seq<int>, a: int, b: int, i: int)
    requires
        0 <= a < i,
        0 <= b < i,
        a != b,
        i <= sz.len(),
        forall|j: int| 0 <= j < sz.len() ==> sz[j] >= 0,
    ensures
        sz[a] + sz[b] <= total(sz, i),
    decreases i,
{
    if a == i - 1 {
        lemma_total_one(sz, b, i - 1);
    } else if b == i - 1 {
        lemma_total_one(sz, a, i - 1);
    } else {
        lemma_total_two(sz, a, b, i - 1);
    }
}

proof fn lemma_total_one(sz: Seq<int>, a: int, i: int)
    requires
        0 <= a < i <= sz.len(),
        forall|j: int| 0 <= j < sz.len() ==> sz[j] >= 0,
    ensures
        sz[a] <= total(sz, i),
    decreases i,
{
    if a < i - 1 {
        lemma_total_one(sz, a, i - 1);
    }
    lemma_total_nonneg(sz, i - 1);
}

proof fn lemma_total_nonneg(sz: Seq<int>, i: int)
    requires
        i <= sz.len(),
        forall|j: int| 0 <= j < sz.len() ==> sz[j] >= 0,
    ensures
        total(sz, i) >= 0,
    decreases i,
{
    if i > 0 {
        lemma_total_nonneg(sz, i - 1);
    }
}

proof fn lemma_total_ones(sz: Seq<int>, i: int)
    requires
        i <= sz.len(),
        forall|j: int| 0 <= j < sz.len() ==> sz[j] == 1,
    ensures
        total(sz, i) == if i < 0 { 0 } else { i },
    decreases i,
{
    if i > 0 {
        lemma_total_ones(sz, i - 1);
    }
}

/// The interval labels are nested along tree edges and disjoint between
/// siblings.
pub open spec fn intervals_ok(tp: Seq<int>, st: Seq<int>, en: Seq<int>) -> bool {
    &&& st.len() == tp.len()
    &&& en.len() == tp.len()
    &&& wf_tree(tp)
    &&& forall|i: int| 0 <= i < tp.len() ==> #[trigger] st[i] <= en[i]
    &&& forall|c: int|
        0 < c < tp.len() ==> st[tp[c]] < #[trigger] st[c] && en[c] <= en[tp[c]]
    &&& forall|c1: int, c2: int|
        0 < c1 < c2 < tp.len() && tp[c1] == tp[c2] ==> en[c1] < #[trigger] st[c2] && #[trigger] st[c1] < st[c2]
}

/// The child of `p` on the tree path down to `x`.
pub open spec fn path_child(tp: Seq<int>, p: int, x: int) -> int
    decreases x,
{
    if 0 < x < tp.len() && 0 <= tp[x] < x && tp[x] != p {
        path_child(tp, p, tp[x])
    } else {
        x
    }
}

proof fn lemma_path_child(tp: Seq<int>, p: int, x: int)
    requires
        wf_tree(tp),
        0 <= x < tp.len(),
        tanc(tp, p, x),
        p != x,
    ensures
        0 < path_child(tp, p, x) < tp.len(),
        tp[path_child(tp, p, x)] == p,
        tanc(tp, path_child(tp, p, x), x),
    decreases x,
{
    if tp[x] != p {
        lemma_path_child(tp, p, tp[x]);
        let c = path_child(tp, p, tp[x]);
        assert(tanc(tp, tp[x], tp[x]));
        assert(tanc(tp, tp[x], x));
        lemma_tanc_trans(tp, c, tp[x], x);
    }
}

/// Tree ancestors' intervals contain their descendants' intervals.
proof fn lemma_interval_nested(tp: Seq<int>, st: Seq<int>, en: Seq<int>, x: int, y: int)
    requires
        intervals_ok(tp, st, en),
        0 <= x < tp.len(),
        0 <= y < tp.len(),
        tanc(tp, x, y),
    ensures
        st[x] <= st[y],
        en[y] <= en[x],
        x != y ==> st[x] < st[y],
    decreases y,
{
    if y != x {
        let p = tp[y];
        lemma_interval_nested(tp, st, en, x, p);
        assert(st[p] < st[y]);
    }
}

/// Intervals of tree-unrelated nodes are disjoint.
#[verifier::rlimit(30)]
proof fn lemma_interval_disjoint(tp: Seq<int>, st: Seq<int>, en: Seq<int>, x: int, y: int)
    requires
        intervals_ok(tp, st, en),
        0 <= x < y < tp.len(),
        !tanc(tp, x, y),
        !tanc(tp, y, x),
    ensures
        en[x] < st[y] || en[y] < st[x],
    decreases y,
{
    assert(wf_tree(tp));
    assert(0 < y < tp.len());
    let p = tp[y];
    assert(0 <= p < y);
    assert(st[tp[y]] < st[y] && en[y] <= en[tp[y]]);
    if p == x {
        assert(tanc(tp, x, x));
        assert(tanc(tp, x, y));
    } else if tanc(tp, x, p) {
        assert(tanc(tp, x, y));
    } else if tanc(tp, p, x) {
        lemma_path_child(tp, p, x);
        let c = path_child(tp, p, x);
        if c == y {
            assert(tanc(tp, y, x));
        } else {
            lemma_interval_nested(tp, st, en, c, x);
            if c < y {
                assert(en[c] < st[y]);
            } else {
                assert(en[y] < st[c]);
            }
        }
    } else {
        if x < p {
            lemma_interval_disjoint(tp, st, en, x, p);
        } else {
            lemma_interval_disjoint(tp, st, en, p, x);
        }
    }
}

/// The interval test decides tree ancestry.
pub proof fn lemma_interval_iff(tp: Seq<int>, st: Seq<int>, en: Seq<int>, x: int, y: int)
    requires
        intervals_ok(tp, st, en),
        0 <= x < tp.len(),
        0 <= y < tp.len(),
    ensures
        (st[x] <= st[y] && st[y] <= en[x]) <==> tanc(tp, x, y),
{
    if tanc(tp, x, y) {
        lemma_interval_nested(tp, st, en, x, y);
    } else if tanc(tp, y, x) {
        lemma_interval_nested(tp, st, en, y, x);
    } else if x < y {
        lemma_interval_disjoint(tp, st, en, x, y);
    } else {
        assert(x != y);
        lemma_interval_disjoint(tp, st, en, y, x);
    }
}

/// Subtree sizes of the tree with parent map `tp`, bottom-up.
fn subtree_sizes(tp: &Vec<usize>) -> (sz: Vec<usize>)
    requires
        tp@.len() >= 1,
        wf_tree(ints(tp@)),
    ensures
        sz@.len() == tp@.len(),
        forall|j: int| 0 <= j < sz@.len() ==> #[trigger] sz@[j] >= 1,
        forall|j: int|
            0 <= j < sz@.len() ==> #[trigger] sz@[j] == 1 + csum(
                ints(sz@),
                ints(tp@),
                j,
                j + 1,
                sz@.len() as int,
            ),
        sz@[0] == tp@.len(),
{
    let n = tp.len();
    let ghost t = ints(tp@);
    let mut sz: Vec<usize> = Vec::new();
    let mut k: usize = 0;
    while k < n
        invariant
            k <= n,
            sz@.len() == k,
            forall|j: int| 0 <= j < k ==> sz@[j] == 1,
        decreases n - k,
    {
        sz.push(1);
        k = k + 1;
    }
    proof {
        lemma_total_ones(ints(sz@), n as int);
    }
    let mut i: usize = n;
    while i > 1
        invariant
            1 <= i <= n,
            n == tp@.len(),
            t == ints(tp@),
            wf_tree(t),
            sz@.len() == n,
            forall|j: int| 0 <= j < n ==> #[trigger] sz@[j] >= 1,
            forall|j: int|
                i <= j < n ==> #[trigger] sz@[j] == 1 + csum(ints(sz@), t, j, j + 1, n as int),
            forall|j: int|
                0 <= j < i ==> #[trigger] sz@[j] == 1 + csum(ints(sz@), t, j, i as int, n as int),
            total(ints(sz@), i as int) == n,
        decreases i,
    {
        let c = i - 1;
        let p = tp[c];
        assert(t[c as int] == p as int);
        let ghost s0 = ints(sz@);
        proof {
            assert forall|j: int| 0 <= j < n implies s0[j] >= 0 by {
                assert(sz@[j] >= 1);
            }
            lemma_total_two(s0, p as int, c as int, i as int);
        }
        let v = sz[p] + sz[c];
        sz.set(p, v);
        let ghost s1 = ints(sz@);
        proof {
            assert(s1 =~= s0.update(p as int, s0[p as int] + s0[c as int]));
            lemma_total_update(s0, p as int, s0[c as int], i as int);
            assert forall|j: int| c <= j < n implies #[trigger] sz@[j] == 1 + csum(
                ints(sz@),
                t,
                j,
                j + 1,
                n as int,
            ) by {
                lemma_csum_frame(s0, s1, t, j, j + 1, n as int);
                if j == c {
                    lemma_csum_frame(s0, s1, t, j, i as int, n as int);
                }
            }
            assert forall|j: int| 0 <= j < c implies #[trigger] sz@[j] == 1 + csum(
                ints(sz@),
                t,
                j,
                c as int,
                n as int,
            ) by {
                lemma_csum_frame(s0, s1, t, j, i as int, n as int);
                assert(csum(s1, t, j, c as int, n as int) == (if t[c as int] == j && c > 0 {
                    s1[c as int]
                } else {
                    0
                }) + csum(s1, t, j, i as int, n as int));
            }
        }
        i = c;
    }
    proof {
        assert(total(ints(sz@), 1) == total(ints(sz@), 0) + sz@[0]);
    }
    sz
}

/// Pre-order start labels: each child starts right after its parent's start
/// plus the sizes of its earlier siblings.
fn assign_starts(tp: &Vec<usize>, sz: &Vec<usize>) -> (st: Vec<usize>)
    requires
        tp@.len() >= 1,
        wf_tree(ints(tp@)),
        sz@.len() == tp@.len(),
        forall|j: int| 0 <= j < sz@.len() ==> #[trigger] sz@[j] >= 1,
        forall|j: int|
            0 <= j < sz@.len() ==> #[trigger] sz@[j] == 1 + csum(
                ints(sz@),
                ints(tp@),
                j,
                j + 1,
                sz@.len() as int,
            ),
        sz@[0] == tp@.len(),
    ensures
        st@.len() == tp@.len(),
        st@[0] == 0,
        forall|q: int|
            0 < q < tp@.len() ==> #[trigger] st@[q] == st@[tp@[q] as int] + 1 + csum(
                ints(sz@),
                ints(tp@),
                tp@[q] as int,
                tp@[q] + 1,
                q,
            ),
        forall|p: int| 0 <= p < tp@.len() ==> #[trigger] st@[p] + sz@[p] <= tp@.len(),
{
    let n = tp.len();
    let ghost t = ints(tp@);
    let ghost s = ints(sz@);
    proof {
        assert forall|j: int| 0 <= j < n implies s[j] >= 0 by {
            assert(sz@[j] >= 1);
        }
    }
    let mut st: Vec<usize> = Vec::new();
    let mut cur: Vec<usize> = Vec::new();
    let mut k: usize = 0;
    while k < n
        invariant
            k <= n,
            st@.len() == k,
            cur@.len() == k,
            forall|j: int| 0 <= j < k ==> st@[j] == 0 && cur@[j] == 1,
        decreases n - k,
    {
        st.push(0);
        cur.push(1);
        k = k + 1;
    }
    let mut c: usize = 1;
    while c < n
        invariant
            1 <= c <= n,
            n == tp@.len(),
            t == ints(tp@),
            s == ints(sz@),
            wf_tree(t),
            sz@.len() == n,
            st@.len() == n,
            cur@.len() == n,
            forall|j: int| 0 <= j < n ==> #[trigger] sz@[j] >= 1,
            forall|j: int| 0 <= j < n ==> s[j] >= 0,
            forall|j: int|
                0 <= j < n ==> #[trigger] sz@[j] == 1 + csum(s, t, j, j + 1, n as int),
            sz@[0] == n,
            st@[0] == 0,
            forall|p: int|
                0 <= p < c ==> #[trigger] cur@[p] == st@[p] + 1 + csum(s, t, p, p + 1, c as int),
            forall|q: int|
                0 < q < c ==> #[trigger] st@[q] == st@[t[q]] + 1 + csum(s, t, t[q], t[q] + 1, q),
            forall|p: int| 0 <= p < c ==> #[trigger] st@[p] + sz@[p] <= n,
        decreases n - c,
    {
        let p = tp[c];
        assert(t[c as int] == p as int);
        proof {
            lemma_csum_hi(s, t, p as int, p as int + 1, c as int);
            lemma_csum_mono(s, t, p as int, p as int + 1, c as int + 1, n as int);
        }
        let v = cur[p];
        st.set(c, v);
        let w = v + sz[c];
        cur.set(p, w);
        cur.set(c, v + 1);
        proof {
            assert forall|q: int| 0 <= q < c + 1 implies #[trigger] cur@[q] == st@[q] + 1 + csum(
                s,
                t,
                q,
                q + 1,
                c as int + 1,
            ) by {
                if q < c {
                    lemma_csum_hi(s, t, q, q + 1, c as int);
                }
            }
        }
        c = c + 1;
    }
    st
}

/// Start labels built by `assign_starts` and ends `start + size - 1` satisfy
/// `intervals_ok`.
proof fn lemma_labels_ok(t: Seq<int>, s: Seq<int>, a: Seq<int>, b: Seq<int>)
    requires
        t.len() >= 1,
        wf_tree(t),
        s.len() == t.len(),
        a.len() == t.len(),
        b.len() == t.len(),
        forall|j: int| 0 <= j < s.len() ==> #[trigger] s[j] >= 1,
        forall|j: int| 0 <= j < s.len() ==> #[trigger] s[j] == 1 + csum(s, t, j, j + 1, s.len() as int),
        forall|q: int| 0 < q < t.len() ==> #[trigger] a[q] == a[t[q]] + 1 + csum(s, t, t[q], t[q] + 1, q),
        forall|j: int| 0 <= j < t.len() ==> #[trigger] b[j] == a[j] + s[j] - 1,
    ensures
        intervals_ok(t, a, b),
{
    let n = t.len() as int;
    assert forall|j: int| 0 <= j < n implies s[j] >= 0 by {
        assert(s[j] >= 1);
    }
    assert forall|i: int| 0 <= i < n implies #[trigger] a[i] <= b[i] by {
        assert(s[i] >= 1);
    }
    assert forall|q: int| 0 < q < n implies a[t[q]] < #[trigger] a[q] && b[q] <= b[t[q]] by {
        let p = t[q];
        assert(a[q] == a[p] + 1 + csum(s, t, p, p + 1, q));
        lemma_csum_mono(s, t, p, p + 1, p + 1, q);
        assert(csum(s, t, p, p + 1, p + 1) == 0);
        lemma_csum_hi(s, t, p, p + 1, q);
        lemma_csum_mono(s, t, p, p + 1, q + 1, n);
        assert(s[p] == 1 + csum(s, t, p, p + 1, n));
        assert(b[q] == a[q] + s[q] - 1);
        assert(b[p] == a[p] + s[p] - 1);
    }
    assert forall|c1: int, c2: int|
        0 < c1 < c2 < n && t[c1] == t[c2] implies b[c1] < #[trigger] a[c2] && #[trigger] a[c1]
        < a[c2] by {
        let p = t[c1];
        assert(a[c1] == a[p] + 1 + csum(s, t, p, p + 1, c1));
        assert(a[c2] == a[p] + 1 + csum(s, t, p, p + 1, c2));
        lemma_csum_hi(s, t, p, p + 1, c1);
        lemma_csum_mono(s, t, p, p + 1, c1 + 1, c2);
        assert(b[c1] == a[c1] + s[c1] - 1);
        assert(s[c1] >= 1);
    }
}

/// The tree subtree of `x`: `x` and its tree descendants.
pub open spec fn subtree(tp: Seq<int>, x: int) -> Set<int> {
    Set::new(|y: int| 0 <= y < tp.len() && tanc(tp, x, y))
}

/// The size of every node's tree subtree.
pub open spec fn subtree_sizes_of(tp: Seq<int>) -> Seq<int> {
    Seq::new(tp.len(), |j: int| subtree(tp, j).len() as int)
}

/// The labels are the pre-order numbering of the tree, children visited in
/// position order: the root starts at 0, a child starts right after its
/// parent plus the subtrees of its earlier siblings, every node ends at its
/// start plus its subtree's size minus one, and the starts are exactly
/// `0..n`, one per node.
#[verifier::opaque]
pub open spec fn preorder_labels(tp: Seq<int>, st: Seq<int>, en: Seq<int>) -> bool {
    let n = tp.len() as int;
    &&& intervals_ok(tp, st, en)
    &&& st[0] == 0
    &&& forall|c: int|
        0 < c < n ==> #[trigger] st[c] == st[tp[c]] + 1 + csum(subtree_sizes_of(tp), tp, tp[c], tp[c] + 1, c)
    &&& forall|j: int| 0 <= j < n ==> #[trigger] en[j] == st[j] + subtree(tp, j).len() - 1
    &&& forall|j: int| 0 <= j < n ==> 0 <= #[trigger] st[j] < n
    &&& forall|i: int| 0 <= i < n ==> #[trigger] st.contains(i)
}

/// Pre-order labels are nested along tree edges and disjoint between
/// siblings, and their starts lie in `0..n`.
proof fn lemma_preorder_intervals(t: Seq<int>, a: Seq<int>, b: Seq<int>)
    requires
        preorder_labels(t, a, b),
    ensures
        intervals_ok(t, a, b),
        forall|j: int| 0 <= j < t.len() ==> 0 <= #[trigger] a[j] < t.len(),
        forall|i: int| 0 <= i < t.len() ==> #[trigger] a.contains(i),
{
    reveal(preorder_labels);
}

/// Distinct nodes have distinct starts.
proof fn lemma_starts_distinct(t: Seq<int>, a: Seq<int>, b: Seq<int>, x: int, y: int)
    requires
        intervals_ok(t, a, b),
        0 <= x < t.len(),
        0 <= y < t.len(),
        a[x] == a[y],
    ensures
        x == y,
{
    lemma_interval_iff(t, a, b, x, y);
    lemma_interval_iff(t, a, b, y, x);
    lemma_tanc_le(t, x, y);
    lemma_tanc_le(t, y, x);
}

/// Starts that are distinct and lie in `0..n` take every value there, and
/// every node's end is its start plus its subtree's size minus one.
proof fn lemma_labels_onto(t: Seq<int>, a: Seq<int>, b: Seq<int>)
    requires
        intervals_ok(t, a, b),
        forall|j: int| 0 <= j < t.len() ==> 0 <= #[trigger] a[j] && b[j] < t.len(),
    ensures
        forall|i: int| 0 <= i < t.len() ==> #[trigger] a.contains(i),
        forall|j: int| 0 <= j < t.len() ==> #[trigger] subtree(t, j).finite() && subtree(t, j).len() == b[j] - a[j] + 1,
{
    let n = t.len() as int;
    assert(a.no_duplicates()) by {
        assert forall|x: int, y: int| 0 <= x < a.len() && 0 <= y < a.len() && x != y implies a[x] != a[y] by {
            if a[x] == a[y] {
                lemma_starts_distinct(t, a, b, x, y);
            }
        }
    }
    assert forall|i: int| 0 <= i < n implies #[trigger] a.contains(i) by {
        if !a.contains(i) {
            a.unique_seq_to_set();
            assert forall|v: int| #[trigger] a.to_set().contains(v) implies vstd::set_lib::set_int_range(0, n).remove(i).contains(v) by {
                let j = choose|j: int| 0 <= j < a.len() && a[j] == v;
                assert(a[j] <= b[j]);
            }
            vstd::set_lib::lemma_int_range(0, n);
            vstd::set_lib::lemma_len_subset(a.to_set(), vstd::set_lib::set_int_range(0, n).remove(i));
        }
    }
    assert forall|x: int| 0 <= x < n implies #[trigger] subtree(t, x).finite() && subtree(t, x).len() == b[x] - a[x] + 1 by {
        let s = subtree(t, x);
        let f = |y: int| a[y];
        let r = vstd::set_lib::set_int_range(a[x], b[x] + 1);
        assert(s.subset_of(vstd::set_lib::set_int_range(0, n)));
        vstd::set_lib::lemma_int_range(0, n);
        vstd::set_lib::lemma_len_subset(s, vstd::set_lib::set_int_range(0, n));
        assert(vstd::relations::injective_on(f, s)) by {
            assert forall|y1: int, y2: int| s.contains(y1) && s.contains(y2) && #[trigger] f(y1) == #[trigger] f(y2) implies y1 == y2 by {
                lemma_starts_distinct(t, a, b, y1, y2);
            }
        }
        assert(s.map(f) =~= r) by {
            assert forall|v: int| #[trigger] s.map(f).contains(v) implies r.contains(v) by {
                let y = choose|y: int| s.contains(y) && f(y) == v;
                lemma_interval_iff(t, a, b, x, y);
            }
            assert forall|v: int| #[trigger] r.contains(v) implies s.map(f).contains(v) by {
                assert(0 <= a[x]);
                assert(b[x] < n);
                assert(a.contains(v));
                let y = choose|y: int| 0 <= y < a.len() && a[y] == v;
                lemma_interval_iff(t, a, b, x, y);
                assert(s.contains(y));
                assert(f(y) == v);
            }
        }
        vstd::set_lib::lemma_map_size(s, r, f);
        assert(a[x] <= b[x]);
        vstd::set_lib::lemma_int_range(a[x], b[x] + 1);
    }
}

/// Interval labels of the tree with parent map `tp` (root 0): the
/// pre-order numbering, children visited in position order, so that each
/// node's subtree is exactly the range `start..=end` of start labels.
fn label_intervals(tp: &Vec<usize>) -> (r: (Vec<usize>, Vec<usize>))
    requires
        tp@.len() >= 1,
        wf_tree(ints(tp@)),
    ensures
        preorder_labels(ints(tp@), ints(r.0@), ints(r.1@)),
{
    let n = tp.len();
    let sz = subtree_sizes(tp);
    let st = assign_starts(tp, &sz);
    let mut en: Vec<usize> = Vec::new();
    let mut i: usize = 0;
    while i < n
        invariant
            i <= n,
            n == tp@.len(),
            en@.len() == i,
            sz@.len() == n,
            st@.len() == n,
            forall|j: int| 0 <= j < n ==> #[trigger] sz@[j] >= 1,
            forall|p: int| 0 <= p < n ==> #[trigger] st@[p] + sz@[p] <= n,
            forall|j: int| 0 <= j < i ==> #[trigger] en@[j] == st@[j] + sz@[j] - 1,
        decreases n - i,
    {
        assert(st@[i as int] + sz@[i as int] <= n);
        en.push(st[i] + sz[i] - 1);
        i = i + 1;
    }
    proof {
        let s = ints(sz@);
        let a = ints(st@);
        let b = ints(en@);
        let t = ints(tp@);
        assert forall|j: int| 0 <= j < s.len() implies #[trigger] s[j] >= 1 by {
            assert(sz@[j] >= 1);
        }
        assert forall|j: int| 0 <= j < s.len() implies #[trigger] s[j] == 1 + csum(s, t, j, j + 1, s.len() as int) by {
            assert(sz@[j] == 1 + csum(s, t, j, j + 1, s.len() as int));
        }
        assert forall|q: int| 0 < q < t.len() implies #[trigger] a[q] == a[t[q]] + 1 + csum(s, t, t[q], t[q] + 1, q) by {
            assert(st@[q] == st@[tp@[q] as int] + 1 + csum(s, t, tp@[q] as int, tp@[q] + 1, q));
        }
        assert forall|j: int| 0 <= j < t.len() implies #[trigger] b[j] == a[j] + s[j] - 1 by {
            assert(en@[j] == st@[j] + sz@[j] - 1);
        }
        lemma_labels_ok(t, s, a, b);
        assert forall|j: int| 0 <= j < t.len() implies 0 <= #[trigger] a[j] && b[j] < t.len() by {
            assert(st@[j] + sz@[j] <= n);
        }
        lemma_labels_onto(t, a, b);
        assert forall|j: int| 0 <= j < t.len() implies #[trigger] s[j] == subtree_sizes_of(t)[j] by {
            assert(b[j] == a[j] + s[j] - 1);
            assert(subtree(t, j).finite());
            assert(subtree(t, j).len() == b[j] - a[j] + 1);
        }
        reveal(preorder_labels);
        assert(s =~= subtree_sizes_of(t));
        assert forall|c: int| 0 < c < t.len() implies #[trigger] a[c] == a[t[c]] + 1 + csum(subtree_sizes_of(t), t, t[c], t[c] + 1, c) by {
            assert(a[c] == a[t[c]] + 1 + csum(s, t, t[c], t[c] + 1, c));
        }
    }
    (st, en)
}

} // verus!

verus! {

/// Every cover of `a` is a strict descendant of `a`, and every descendant of
/// `a` outside its tree subtree lies in the tree subtree of some cover.
pub open spec fn fcs_ok(ps: Seq<Seq<int>>, tp: Seq<int>, fcs: Seq<Seq<int>>) -> bool {
    &&& fcs.len() == ps.len()
    &&& forall|a: int, k: int|
        0 <= a < fcs.len() && 0 <= k < fcs[a].len() ==> 0 <= #[trigger] fcs[a][k] < ps.len() && anc(
            ps,
            a,
            fcs[a][k],
        )
    &&& forall|a: int, b: int|
        0 <= a < ps.len() && 0 <= b < ps.len() && #[trigger] anc(ps, a, b) && !tanc(tp, a, b)
            ==> exists|k: int| 0 <= k < fcs[a].len() && #[trigger] tanc(tp, fcs[a][k], b)
}

/// `c` is a tree root of `future(a) \ subtree(a)`.
pub open spec fn is_cover(ps: Seq<Seq<int>>, tp: Seq<int>, a: int, c: int) -> bool {
    &&& anc(ps, a, c)
    &&& !tanc(tp, a, c)
    &&& (tanc(tp, a, tp[c]) || !anc(ps, a, tp[c]))
}

/// Walk up the tree from `b` while the tree parent is still outside `a`'s
/// subtree but in `a`'s future.
pub open spec fn cover_root(ps: Seq<Seq<int>>, tp: Seq<int>, a: int, b: int) -> int
    decreases b,
{
    if 0 < b < tp.len() && 0 <= tp[b] < b && anc(ps, a, tp[b]) && !tanc(tp, a, tp[b]) {
        cover_root(ps, tp, a, tp[b])
    } else {
        b
    }
}

proof fn lemma_cover_root(ps: Seq<Seq<int>>, tp: Seq<int>, a: int, b: int)
    requires
        wf_graph(ps),
        wf_tree(tp),
        tp.len() == ps.len(),
        anc(ps, a, b),
        !tanc(tp, a, b),
    ensures
        is_cover(ps, tp, a, cover_root(ps, tp, a, b)),
        tanc(tp, cover_root(ps, tp, a, b), b),
        0 <= cover_root(ps, tp, a, b) < ps.len(),
    decreases b,
{
    lemma_anc_lt(ps, a, b);
    assert(0 < b < tp.len());
    if anc(ps, a, tp[b]) && !tanc(tp, a, tp[b]) {
        lemma_cover_root(ps, tp, a, tp[b]);
        let r = cover_root(ps, tp, a, tp[b]);
        assert(tanc(tp, tp[b], b)) by {
            assert(tanc(tp, tp[b], tp[b]));
        }
        lemma_tanc_trans(tp, r, tp[b], b);
    } else {
        assert(tanc(tp, b, b));
    }
}

/// Which blocks have `a` as a strict ancestor, by a forward pass in position
/// order (parents come first).
fn future_of(ps: &Vec<Vec<usize>>, a: usize) -> (fut: Vec<bool>)
    requires
        a < ps@.len(),
        wf_graph(int_lists(ps@)),
    ensures
        fut@.len() == ps@.len(),
        forall|x: int| 0 <= x < ps@.len() ==> #[trigger] fut@[x] == anc(int_lists(ps@), a as int, x),
{
    let n = ps.len();
    let ghost g = int_lists(ps@);
    let mut fut: Vec<bool> = Vec::new();
    let mut k: usize = 0;
    while k < n
        invariant
            k <= n,
            n == ps@.len(),
            g == int_lists(ps@),
            fut@.len() == k,
            forall|x: int| 0 <= x < k ==> fut@[x] == false,
        decreases n - k,
    {
        fut.push(false);
        k = k + 1;
    }
    proof {
        assert forall|x: int| 0 <= x <= a implies !anc(g, a as int, x) by {
            if anc(g, a as int, x) {
                lemma_anc_lt(g, a as int, x);
            }
        }
    }
    let mut b: usize = a + 1;
    while b < n
        invariant
            a < b <= n,
            n == ps@.len(),
            g == int_lists(ps@),
            wf_graph(g),
            fut@.len() == n,
            forall|x: int| 0 <= x < b ==> #[trigger] fut@[x] == anc(g, a as int, x),
        decreases n - b,
    {
        let plist = &ps[b];
        let mut found = false;
        let mut j: usize = 0;
        assert(g[b as int] == ints(plist@));
        while j < plist.len()
            invariant
                j <= plist@.len(),
                a < b < n,
                n == ps@.len(),
                g == int_lists(ps@),
                wf_graph(g),
                plist@ == ps@[b as int]@,
                g[b as int] == ints(plist@),
                fut@.len() == n,
                forall|x: int| 0 <= x < b ==> #[trigger] fut@[x] == anc(g, a as int, x),
                found == anc_upto(g, a as int, b as int, j as int),
            decreases plist@.len() - j,
        {
            let p = plist[j];
            assert(g[b as int][j as int] == p as int);
            assert(0 <= p < b);
            if p == a || fut[p] {
                found = true;
            }
            j = j + 1;
        }
        fut.set(b, found);
        b = b + 1;
    }
    fut
}

/// Whether position `c` is a cover of position `a`, given `a`'s future.
fn cover_test(tp: &Vec<usize>, st: &Vec<usize>, en: &Vec<usize>, fut: &Vec<bool>, a: usize, c: usize, Ghost(g): Ghost<Seq<Seq<int>>>) -> (r: bool)
    requires
        a < tp@.len(),
        c < tp@.len(),
        g.len() == tp@.len(),
        wf_graph(g),
        wf_tree(ints(tp@)),
        intervals_ok(ints(tp@), ints(st@), ints(en@)),
        fut@.len() == tp@.len(),
        forall|x: int| 0 <= x < tp@.len() ==> #[trigger] fut@[x] == anc(g, a as int, x),
    ensures
        r == is_cover(g, ints(tp@), a as int, c as int),
{
    let ghost t = ints(tp@);
    if !fut[c] {
        return false;
    }
    proof {
        lemma_anc_lt(g, a as int, c as int);
    }
    let p = tp[c];
    assert(t[c as int] == p as int);
    let in_sub = st[a] <= st[c] && st[c] <= en[a];
    let parent_in_sub = st[a] <= st[p] && st[p] <= en[a];
    proof {
        lemma_interval_iff(t, ints(st@), ints(en@), a as int, c as int);
        lemma_interval_iff(t, ints(st@), ints(en@), a as int, p as int);
    }
    !in_sub && (parent_in_sub || !fut[p])
}

/// The node with each start label: `ord[i]` is the position whose start
/// is `i`.
fn start_order(st: &Vec<usize>) -> (ord: Vec<usize>)
    requires
        forall|j: int| 0 <= j < st@.len() ==> #[trigger] st@[j] < st@.len(),
        forall|i: int| 0 <= i < st@.len() ==> #[trigger] ints(st@).contains(i),
        forall|x: int, y: int| 0 <= x < st@.len() && 0 <= y < st@.len() && x != y ==> #[trigger] st@[x] != #[trigger] st@[y],
    ensures
        ord@.len() == st@.len(),
        forall|i: int| 0 <= i < st@.len() ==> #[trigger] ord@[i] < st@.len() && st@[ord@[i] as int] == i,
{
    let n = st.len();
    let mut ord: Vec<usize> = Vec::new();
    let mut k: usize = 0;
    while k < n
        invariant
            k <= n,
            n == st@.len(),
            ord@.len() == k,
            forall|i: int| 0 <= i < k ==> #[trigger] ord@[i] == 0,
        decreases n - k,
    {
        ord.push(0);
        k = k + 1;
    }
    let mut j: usize = 0;
    while j < n
        invariant
            j <= n,
            n == st@.len(),
            ord@.len() == n,
            forall|x: int| 0 <= x < n ==> #[trigger] st@[x] < n,
            forall|x: int, y: int| 0 <= x < n && 0 <= y < n && x != y ==> #[trigger] st@[x] != #[trigger] st@[y],
            forall|x: int| 0 <= x < j ==> #[trigger] ord@[st@[x] as int] == x,
        decreases n - j,
    {
        let i = st[j];
        ord.set(i, j);
        proof {
            assert forall|x: int| 0 <= x < j + 1 implies #[trigger] ord@[st@[x] as int] == x by {
                if x < j {
                    assert(st@[x] != st@[j as int]);
                }
            }
        }
        j = j + 1;
    }
    proof {
        assert forall|i: int| 0 <= i < n implies #[trigger] ord@[i] < n && st@[ord@[i] as int] == i by {
            assert(ints(st@).contains(i));
            let x = choose|x: int| 0 <= x < ints(st@).len() && ints(st@)[x] == i;
            assert(ord@[st@[x] as int] == x);
        }
    }
    ord
}

/// The covers of `a`: every position that is a cover, in increasing order
/// of start label.
fn covers_of(
    tp: &Vec<usize>,
    st: &Vec<usize>,
    en: &Vec<usize>,
    ord: &Vec<usize>,
    fut: &Vec<bool>,
    a: usize,
    Ghost(g): Ghost<Seq<Seq<int>>>,
) -> (covers: Vec<usize>)
    requires
        a < tp@.len(),
        g.len() == tp@.len(),
        wf_graph(g),
        wf_tree(ints(tp@)),
        intervals_ok(ints(tp@), ints(st@), ints(en@)),
        forall|j: int| 0 <= j < tp@.len() ==> #[trigger] st@[j] < tp@.len(),
        ord@.len() == tp@.len(),
        forall|i: int| 0 <= i < tp@.len() ==> #[trigger] ord@[i] < tp@.len() && st@[ord@[i] as int] == i,
        fut@.len() == tp@.len(),
        forall|x: int| 0 <= x < tp@.len() ==> #[trigger] fut@[x] == anc(g, a as int, x),
    ensures
        forall|k: int| 0 <= k < covers@.len() ==> 0 <= #[trigger] covers@[k] < tp@.len() && is_cover(
            g,
            ints(tp@),
            a as int,
            covers@[k] as int,
        ),
        forall|x: int| 0 <= x < tp@.len() && is_cover(g, ints(tp@), a as int, x) ==> #[trigger] covers@.contains(x as usize),
        forall|k1: int, k2: int| 0 <= k1 < k2 < covers@.len() ==> st@[#[trigger] covers@[k1] as int] < st@[#[trigger] covers@[k2] as int],
{
    let n = tp.len();
    let ghost t = ints(tp@);
    let mut covers: Vec<usize> = Vec::new();
    let mut i: usize = 0;
    while i < n
        invariant
            i <= n,
            a < n,
            n == tp@.len(),
            t == ints(tp@),
            g.len() == n,
            wf_graph(g),
            wf_tree(t),
            intervals_ok(t, ints(st@), ints(en@)),
            forall|j: int| 0 <= j < n ==> #[trigger] st@[j] < n,
            ord@.len() == n,
            forall|q: int| 0 <= q < n ==> #[trigger] ord@[q] < n && st@[ord@[q] as int] == q,
            fut@.len() == n,
            forall|x: int| 0 <= x < n ==> #[trigger] fut@[x] == anc(g, a as int, x),
            forall|k: int| 0 <= k < covers@.len() ==> 0 <= #[trigger] covers@[k] < n && is_cover(
                g,
                t,
                a as int,
                covers@[k] as int,
            ) && st@[covers@[k] as int] < i,
            forall|x: int| 0 <= x < n && st@[x] < i && is_cover(g, t, a as int, x) ==> #[trigger] covers@.contains(x as usize),
            forall|k1: int, k2: int| 0 <= k1 < k2 < covers@.len() ==> st@[#[trigger] covers@[k1] as int] < st@[#[trigger] covers@[k2] as int],
        decreases n - i,
    {
        let c = ord[i];
        assert(st@[c as int] == i);
        if cover_test(tp, st, en, fut, a, c, Ghost(g)) {
            let ghost old_covers = covers@;
            covers.push(c);
            proof {
                assert forall|x: int| 0 <= x < n && st@[x] < i + 1 && is_cover(g, t, a as int, x) implies #[trigger] covers@.contains(x as usize) by {
                    if st@[x] < i {
                        assert(old_covers.contains(x as usize));
                        let j = choose|j: int| 0 <= j < old_covers.len() && old_covers[j] == x as usize;
                        assert(covers@[j] == x as usize);
                    } else {
                        if x != c as int {
                            lemma_starts_distinct(t, ints(st@), ints(en@), x, c as int);
                        }
                        assert(covers@[covers@.len() - 1] == x as usize);
                    }
                }
                assert forall|k1: int, k2: int| 0 <= k1 < k2 < covers@.len() implies st@[#[trigger] covers@[k1] as int] < st@[#[trigger] covers@[k2] as int] by {
                    if k2 < old_covers.len() {
                        assert(covers@[k1] == old_covers[k1] && covers@[k2] == old_covers[k2]);
                    } else {
                        assert(covers@[k1] == old_covers[k1]);
                    }
                }
            }
        } else {
            proof {
                assert forall|x: int| 0 <= x < n && st@[x] < i + 1 && is_cover(g, t, a as int, x) implies #[trigger] covers@.contains(x as usize) by {
                    if st@[x] == i && x != c as int {
                        lemma_starts_distinct(t, ints(st@), ints(en@), x, c as int);
                    }
                }
            }
        }
        i = i + 1;
    }
    covers
}

/// The future-covering sets are exactly the covers: for each block `a`,
/// every tree root of `future(a) \ subtree(a)` once, in increasing order of
/// start label.
pub open spec fn fcs_exact(ps: Seq<Seq<int>>, tp: Seq<int>, st: Seq<int>, fcs: Seq<Seq<int>>) -> bool {
    &&& fcs.len() == ps.len()
    &&& forall|a: int, k: int|
        0 <= a < fcs.len() && 0 <= k < fcs[a].len() ==> 0 <= #[trigger] fcs[a][k] < ps.len() && is_cover(ps, tp, a, fcs[a][k])
    &&& forall|a: int, c: int| 0 <= a < ps.len() && 0 <= c < ps.len() && is_cover(ps, tp, a, c) ==> #[trigger] fcs[a].contains(c)
    &&& forall|a: int, k1: int, k2: int|
        0 <= a < fcs.len() && 0 <= k1 < k2 < fcs[a].len() ==> st[#[trigger] fcs[a][k1]] < st[#[trigger] fcs[a][k2]]
}

/// Future-covering sets for every block.
fn build_fcs(ps: &Vec<Vec<usize>>, tp: &Vec<usize>, st: &Vec<usize>, en: &Vec<usize>) -> (fcs: Vec<Vec<usize>>)
    requires
        ps@.len() >= 1,
        tp@.len() == ps@.len(),
        wf_graph(int_lists(ps@)),
        wf_tree(ints(tp@)),
        preorder_labels(ints(tp@), ints(st@), ints(en@)),
    ensures
        fcs_ok(int_lists(ps@), ints(tp@), int_lists(fcs@)),
        fcs_exact(int_lists(ps@), ints(tp@), ints(st@), int_lists(fcs@)),
{
    let n = ps.len();
    let ghost g = int_lists(ps@);
    let ghost t = ints(tp@);
    proof {
        lemma_preorder_intervals(t, ints(st@), ints(en@));
        assert forall|j: int| 0 <= j < st@.len() implies #[trigger] st@[j] < st@.len() by {
            assert(ints(st@)[j] < n);
        }
        assert forall|x: int, y: int| 0 <= x < st@.len() && 0 <= y < st@.len() && x != y implies #[trigger] st@[x] != #[trigger] st@[y] by {
            if st@[x] == st@[y] {
                lemma_starts_distinct(t, ints(st@), ints(en@), x, y);
            }
        }
    }
    let ord = start_order(st);
    let mut fcs: Vec<Vec<usize>> = Vec::new();
    let mut a: usize = 0;
    while a < n
        invariant
            a <= n,
            n == ps@.len(),
            n == tp@.len(),
            g == int_lists(ps@),
            t == ints(tp@),
            wf_graph(g),
            wf_tree(t),
            intervals_ok(t, ints(st@), ints(en@)),
            forall|j: int| 0 <= j < n ==> #[trigger] st@[j] < n,
            ord@.len() == n,
            forall|q: int| 0 <= q < n ==> #[trigger] ord@[q] < n && st@[ord@[q] as int] == q,
            forall|x: int, k1: int, k2: int|
                0 <= x < a && 0 <= k1 < k2 < fcs@[x]@.len() ==> st@[#[trigger] fcs@[x]@[k1] as int] < st@[#[trigger] fcs@[x]@[k2] as int],
            fcs@.len() == a,
            forall|x: int, k: int|
                0 <= x < a && 0 <= k < fcs@[x]@.len() ==> 0 <= #[trigger] fcs@[x]@[k] < n && is_cover(
                    g,
                    t,
                    x,
                    fcs@[x]@[k] as int,
                ),
            forall|x: int, c: int|
                0 <= x < a && 0 <= c < n && is_cover(g, t, x, c) ==> #[trigger] fcs@[x]@.contains(
                    c as usize,
                ),
        decreases n - a,
    {
        let fut = future_of(ps, a);
        let covers = covers_of(tp, st, en, &ord, &fut, a, Ghost(g));
        fcs.push(covers);
        a = a + 1;
    }
    proof {
        let f = int_lists(fcs@);
        assert forall|x: int, k: int|
            0 <= x < f.len() && 0 <= k < f[x].len() implies 0 <= #[trigger] f[x][k] < g.len() && anc(
            g,
            x,
            f[x][k],
        ) by {
            assert(f[x][k] == fcs@[x]@[k] as int);
        }
        assert forall|x: int, b: int|
            0 <= x < g.len() && 0 <= b < g.len() && #[trigger] anc(g, x, b) && !tanc(t, x, b)
            implies exists|k: int| 0 <= k < f[x].len() && #[trigger] tanc(t, f[x][k], b) by {
            lemma_cover_root(g, t, x, b);
            let r = cover_root(g, t, x, b);
            assert(fcs@[x]@.contains(r as usize));
            let k = choose|k: int| 0 <= k < fcs@[x]@.len() && fcs@[x]@[k] == r as usize;
            assert(f[x][k] == r);
        }
        assert forall|x: int, c: int| 0 <= x < g.len() && 0 <= c < g.len() && is_cover(g, t, x, c) implies #[trigger] f[x].contains(c) by {
            assert(fcs@[x]@.contains(c as usize));
            let k = choose|k: int| 0 <= k < fcs@[x]@.len() && fcs@[x]@[k] == c as usize;
            assert(f[x][k] == c);
        }
        assert forall|x: int, k1: int, k2: int|
            0 <= x < f.len() && 0 <= k1 < k2 < f[x].len() implies ints(st@)[#[trigger] f[x][k1]] < ints(st@)[#[trigger] f[x][k2]] by {
            assert(f[x][k1] == fcs@[x]@[k1] as int);
            assert(f[x][k2] == fcs@[x]@[k2] as int);
        }
    }
    fcs
}

/// A reachability oracle over a DAG of blocks.
pub struct Reachability {
    ids: Vec<BlockId>,
    start: Vec<usize>,
    end: Vec<usize>,
    fcs: Vec<Vec<usize>>,
    graph: Ghost<Seq<Seq<int>>>,
    tree: Ghost<Seq<int>>,
}

impl Reachability {
    /// The block ids, by position.
    pub closed spec fn ids_view(&self) -> Seq<BlockId> {
        self.ids@
    }

    /// The DAG the oracle was built from: parent positions by position.
    pub closed spec fn graph_view(&self) -> Seq<Seq<int>> {
        self.graph@
    }

    /// The reachability tree: tree parent positions by position.
    pub closed spec fn tree_view(&self) -> Seq<int> {
        self.tree@
    }

    /// The oracle's internal labels are consistent with its DAG and tree.
    pub closed spec fn inv(&self) -> bool {
        let n = self.ids@.len();
        &&& n >= 1
        &&& self.graph@.len() == n
        &&& wf_graph(self.graph@)
        &&& wf_tree(self.tree@)
        &&& tree_in_graph(self.graph@, self.tree@)
        &&& intervals_ok(self.tree@, ints(self.start@), ints(self.end@))
        &&& fcs_ok(self.graph@, self.tree@, int_lists(self.fcs@))
        &&& preorder_labels(self.tree@, ints(self.start@), ints(self.end@))
        &&& fcs_exact(self.graph@, self.tree@, ints(self.start@), int_lists(self.fcs@))
        &&& distinct_ids(self.ids@)
    }

    /// Build the oracle for the DAG with ids `ids`, parent positions `ps` and
    /// tree (selected) parent positions `tp`.
    pub(crate) fn build_from(ids: Vec<BlockId>, ps: &Vec<Vec<usize>>, tp: &Vec<usize>) -> (r: Reachability)
        requires
            ids@.len() >= 1,
            ps@.len() == ids@.len(),
            tp@.len() == ids@.len(),
            wf_graph(int_lists(ps@)),
            wf_tree(ints(tp@)),
            tree_in_graph(int_lists(ps@), ints(tp@)),
            distinct_ids(ids@),
        ensures
            r.inv(),
            r.ids_view() == ids@,
            r.graph_view() == int_lists(ps@),
            r.tree_view() == ints(tp@),
    {
        let (start, end) = label_intervals(tp);
        proof {
            lemma_preorder_intervals(ints(tp@), ints(start@), ints(end@));
        }
        let fcs = build_fcs(ps, tp, &start, &end);
        Reachability { ids, start, end, fcs, graph: Ghost(int_lists(ps@)), tree: Ghost(ints(tp@)) }
    }

    /// The block ids, by position.
    pub(crate) fn ids(&self) -> (r: &[BlockId])
        ensures
            r@ == self.ids_view(),
    {
        self.ids.as_slice()
    }

    /// Whether position `x` is a tree ancestor of, or equal to, position `y`.
    fn tree_reaches(&self, x: usize, y: usize) -> (r: bool)
        requires
            self.inv(),
            x < self.ids_view().len(),
            y < self.ids_view().len(),
        ensures
            r == tanc(self.tree_view(), x as int, y as int),
    {
        proof {
            lemma_interval_iff(self.tree@, ints(self.start@), ints(self.end@), x as int, y as int);
        }
        self.start[x] <= self.start[y] && self.start[y] <= self.end[x]
    }

    /// Whether position `a` is a strict DAG ancestor of position `b`.
    pub(crate) fn is_ancestor_at(&self, a: usize, b: usize) -> (r: bool)
        requires
            self.inv(),
            a < self.ids_view().len(),
            b < self.ids_view().len(),
        ensures
            r == anc(self.graph_view(), a as int, b as int),
    {
        let ghost g = self.graph@;
        let ghost t = self.tree@;
        if a == b {
            proof {
                if anc(g, a as int, b as int) {
                    lemma_anc_lt(g, a as int, b as int);
                }
            }
            return false;
        }
        if self.tree_reaches(a, b) {
            proof {
                lemma_tanc_anc(g, t, a as int, b as int);
            }
            return true;
        }
        let covers = &self.fcs[a];
        assert(int_lists(self.fcs@)[a as int] == ints(covers@));
        let mut k: usize = 0;
        while k < covers.len()
            invariant
                self.inv(),
                g == self.graph@,
                t == self.tree@,
                a < self.ids@.len(),
                b < self.ids@.len(),
                covers@ == self.fcs@[a as int]@,
                int_lists(self.fcs@)[a as int] == ints(covers@),
                forall|j: int| 0 <= j < k ==> !tanc(t, #[trigger] covers@[j] as int, b as int),
                k <= covers@.len(),
            decreases covers@.len() - k,
        {
            let c = covers[k];
            assert(ints(covers@)[k as int] == c as int);
            if self.tree_reaches(c, b) {
                proof {
                    if c != b {
                        lemma_tanc_anc(g, t, c as int, b as int);
                        lemma_anc_trans(g, a as int, c as int, b as int);
                    }
                }
                return true;
            }
            k = k + 1;
        }
        proof {
            if anc(g, a as int, b as int) {
                let j = choose|j: int| 0 <= j < ints(covers@).len() && #[trigger] tanc(t, ints(covers@)[j], b as int);
                assert(ints(covers@)[j] == covers@[j] as int);
            }
        }
        false
    }

    /// Build the oracle from `dag`'s blocks, parents and selected parents.
    pub fn build(dag: &Dag) -> (r: Reachability)
        requires
            dag.inv(),
        ensures
            r.inv(),
            forall|a: BlockId, b: BlockId| r.is_ancestor_spec(a, b) == dag.is_ancestor_spec(a, b),
            forall|a: BlockId, b: BlockId| r.is_chain_ancestor_spec(a, b) == dag.is_chain_ancestor_spec(a, b),
    {
        proof {
            dag.lemma_inv_shape();
        }
        let (ids, ps, tp) = dag.structure();
        Self::build_from(ids, &ps, &tp)
    }

    /// `a` is a strict ancestor of `b` in the oracle's DAG.
    pub open spec fn is_ancestor_spec(&self, a: BlockId, b: BlockId) -> bool {
        ancestor_by_id(self.ids_view(), self.graph_view(), a, b)
    }

    /// `a` is a strict selected-chain ancestor of `b` in the oracle's DAG.
    pub open spec fn is_chain_ancestor_spec(&self, a: BlockId, b: BlockId) -> bool {
        chain_ancestor_by_id(self.ids_view(), self.tree_view(), a, b)
    }

    /// Whether `ancestor` is a strict selected-chain ancestor of `descendant`.
    pub fn is_chain_ancestor(&self, ancestor: &BlockId, descendant: &BlockId) -> (r: bool)
        requires
            self.inv(),
        ensures
            r == self.is_chain_ancestor_spec(*ancestor, *descendant),
    {
        if ancestor.0 == descendant.0 {
            return false;
        }
        let ia = position(self.ids.as_slice(), *ancestor);
        let ib = position(self.ids.as_slice(), *descendant);
        match (ia, ib) {
            (Some(i), Some(j)) => {
                let r = self.tree_reaches(i, j);
                proof {
                    if !r {
                        assert forall|x: int, y: int|
                            0 <= x < self.ids@.len() && 0 <= y < self.ids@.len() && self.ids@[x] == *ancestor
                                && self.ids@[y] == *descendant implies !#[trigger] tanc(self.tree@, x, y) by {
                            assert(x == i as int);
                            assert(y == j as int);
                        }
                    }
                }
                r
            },
            _ => false,
        }
    }

    /// Whether `ancestor` is a strict DAG ancestor of `descendant` (false for
    /// equal ids and for ids not in the DAG).
    pub fn is_ancestor(&self, ancestor: &BlockId, descendant: &BlockId) -> (r: bool)
        requires
            self.inv(),
        ensures
            r == self.is_ancestor_spec(*ancestor, *descendant),
    {
        let ia = position(self.ids.as_slice(), *ancestor);
        let ib = position(self.ids.as_slice(), *descendant);
        match (ia, ib) {
            (Some(i), Some(j)) => {
                let r = self.is_ancestor_at(i, j);
                proof {
                    if !r {
                        assert forall|x: int, y: int|
                            0 <= x < self.ids@.len() && 0 <= y < self.ids@.len() && self.ids@[x] == *ancestor
                                && self.ids@[y] == *descendant implies !#[trigger] anc(self.graph@, x, y) by {
                            assert(x == i as int);
                            assert(y == j as int);
                        }
                    }
                }
                r
            },
            _ => false,
        }
    }
}

} // verus!
