//! GHOSTDAG colouring: the k-cluster greedy rule that splits a block's
//! mergeset into blue and red blocks.
//!
//! A new block starts from its selected parent's blue set plus the selected
//! parent itself. Mergeset blocks are then visited in topological order; a
//! candidate turns blue when at most `k` blues lie in its anticone and none of
//! those already has `k` blues in its own anticone. Each blue carries the size
//! of its blue anticone, so the k-cluster invariant (every size `<= k`) is
//! checked locally.
use vstd::prelude::*;

use crate::dag::{graph_of, ids_of, in_mergeset, in_past_of, is_selected, key_lt, mergeset_ok, ms_lt, node_ok, sizes_of, Dag};
use crate::graph::{anc, distinct_ids, in_anticone};
use crate::reachability::ints;

verus! {

/// The colouring state: blue positions with their blue-anticone sizes, and
/// the mergeset blues and reds chosen so far.
pub struct Coloring {
    pub blues: Seq<int>,
    pub sizes: Seq<int>,
    pub mblues: Seq<int>,
    pub mreds: Seq<int>,
}

/// Number of blues in `bl` that lie in `c`'s anticone.
pub open spec fn acount(g: Seq<Seq<int>>, bl: Seq<int>, c: int) -> int
    decreases bl.len(),
{
    if bl.len() == 0 {
        0
    } else {
        acount(g, bl.drop_last(), c) + if in_anticone(g, bl.last(), c) { 1int } else { 0int }
    }
}

/// `c` may join the blue set: at most `k` blues in its anticone, and each of
/// those still has room (fewer than `k` blues in its own anticone).
pub open spec fn fits(g: Seq<Seq<int>>, bl: Seq<int>, sz: Seq<int>, c: int, k: int) -> bool {
    &&& acount(g, bl, c) <= k
    &&& forall|j: int| 0 <= j < bl.len() && in_anticone(g, #[trigger] bl[j], c) ==> sz[j] < k
}

/// The sizes after `c` joins: every blue in `c`'s anticone gains one.
pub open spec fn bump(g: Seq<Seq<int>>, bl: Seq<int>, sz: Seq<int>, c: int) -> Seq<int> {
    Seq::new(sz.len(), |j: int| if in_anticone(g, bl[j], c) { sz[j] + 1 } else { sz[j] })
}

/// Colour one candidate.
pub open spec fn color_step(g: Seq<Seq<int>>, s: Coloring, c: int, k: int) -> Coloring {
    if fits(g, s.blues, s.sizes, c, k) {
        Coloring {
            blues: s.blues.push(c),
            sizes: bump(g, s.blues, s.sizes, c).push(acount(g, s.blues, c)),
            mblues: s.mblues.push(c),
            mreds: s.mreds,
        }
    } else {
        Coloring { blues: s.blues, sizes: s.sizes, mblues: s.mblues, mreds: s.mreds.push(c) }
    }
}

/// Colour the candidates in order.
pub open spec fn color_all(g: Seq<Seq<int>>, s: Coloring, cs: Seq<int>, k: int) -> Coloring
    decreases cs.len(),
{
    if cs.len() == 0 {
        s
    } else {
        color_step(g, color_all(g, s, cs.drop_last(), k), cs.last(), k)
    }
}

/// The starting colouring for a block whose selected parent is `sp`, with
/// blue set `bl` and sizes `sz`.
pub open spec fn color_start(bl: Seq<int>, sz: Seq<int>, sp: int) -> Coloring {
    Coloring { blues: bl.push(sp), sizes: sz.push(0), mblues: Seq::empty(), mreds: Seq::empty() }
}

/// Every recorded size is the true blue-anticone size within the set, and at
/// most `k`.
pub open spec fn k_cluster(g: Seq<Seq<int>>, bl: Seq<int>, sz: Seq<int>, k: int) -> bool {
    &&& sz.len() == bl.len()
    &&& forall|j: int| 0 <= j < bl.len() ==> #[trigger] sz[j] == acount(g, bl, bl[j])
    &&& forall|j: int| 0 <= j < bl.len() ==> 0 <= #[trigger] sz[j] <= k
}

proof fn lemma_acount_push(g: Seq<Seq<int>>, bl: Seq<int>, x: int, c: int)
    ensures
        acount(g, bl.push(x), c) == acount(g, bl, c) + if in_anticone(g, x, c) { 1int } else { 0int },
{
    assert(bl.push(x).drop_last() =~= bl);
}

proof fn lemma_acount_nonneg(g: Seq<Seq<int>>, bl: Seq<int>, c: int)
    ensures
        0 <= acount(g, bl, c) <= bl.len(),
    decreases bl.len(),
{
    if bl.len() > 0 {
        lemma_acount_nonneg(g, bl.drop_last(), c);
    }
}

/// Anticone counts only depend on ancestry among the positions involved.
pub proof fn lemma_acount_extend(g: Seq<Seq<int>>, g2: Seq<Seq<int>>, bl: Seq<int>, c: int)
    requires
        g.len() <= g2.len(),
        forall|i: int| 0 <= i < g.len() ==> g2[i] == g[i],
        forall|j: int| 0 <= j < bl.len() ==> 0 <= #[trigger] bl[j] < g.len(),
        0 <= c < g.len(),
    ensures
        acount(g2, bl, c) == acount(g, bl, c),
    decreases bl.len(),
{
    if bl.len() > 0 {
        lemma_acount_extend(g, g2, bl.drop_last(), c);
        crate::graph::lemma_anc_extend(g, g2, bl.last(), c);
        crate::graph::lemma_anc_extend(g, g2, c, bl.last());
    }
}

/// One greedy step keeps the k-cluster property.
pub proof fn lemma_step_k_cluster(g: Seq<Seq<int>>, s: Coloring, c: int, k: int)
    requires
        k_cluster(g, s.blues, s.sizes, k),
        !s.blues.contains(c),
        k >= 0,
    ensures
        k_cluster(g, color_step(g, s, c, k).blues, color_step(g, s, c, k).sizes, k),
{
    if fits(g, s.blues, s.sizes, c, k) {
        let bl2 = s.blues.push(c);
        let sz2 = bump(g, s.blues, s.sizes, c).push(acount(g, s.blues, c));
        lemma_acount_nonneg(g, s.blues, c);
        assert forall|j: int| 0 <= j < bl2.len() implies #[trigger] sz2[j] == acount(g, bl2, bl2[j]) && 0 <= sz2[j] <= k by {
            lemma_acount_push(g, s.blues, c, bl2[j]);
            if j < s.blues.len() {
                assert(bl2[j] == s.blues[j]);
                assert(sz2[j] == bump(g, s.blues, s.sizes, c)[j]);
                assert(s.sizes[j] == acount(g, s.blues, s.blues[j]));
                assert(0 <= s.sizes[j] <= k);
                if in_anticone(g, s.blues[j], c) {
                    assert(in_anticone(g, c, s.blues[j]));
                    assert(s.sizes[j] < k);
                } else {
                    assert(!in_anticone(g, c, s.blues[j]));
                }
            } else {
                assert(bl2[j] == c);
                assert(!in_anticone(g, c, c));
            }
        }
    }
}


/// What the greedy colouring produces, starting from a duplicate-free
/// k-cluster and no mergeset decisions yet: the blue set grows by exactly the
/// mergeset blues, every candidate is either blue or red, nothing repeats,
/// and the k-cluster property holds throughout.
pub proof fn lemma_color_all_facts(g: Seq<Seq<int>>, s: Coloring, cs: Seq<int>, k: int)
    requires
        s.blues.no_duplicates(),
        cs.no_duplicates(),
        s.mblues.len() == 0,
        s.mreds.len() == 0,
        forall|x: int| #[trigger] cs.contains(x) ==> !s.blues.contains(x),
        k_cluster(g, s.blues, s.sizes, k),
        k >= 0,
    ensures
        ({
            let col = color_all(g, s, cs, k);
            &&& col.blues == s.blues + col.mblues
            &&& col.blues.no_duplicates()
            &&& k_cluster(g, col.blues, col.sizes, k)
            &&& forall|x: int| #[trigger] col.mblues.contains(x) ==> cs.contains(x)
            &&& forall|x: int| #[trigger] col.mreds.contains(x) ==> cs.contains(x)
            &&& col.mblues.len() + col.mreds.len() == cs.len()
        }),
    decreases cs.len(),
{
    if cs.len() > 0 {
        let prev = cs.drop_last();
        let c = cs.last();
        assert forall|x: int| #[trigger] prev.contains(x) implies !s.blues.contains(x) by {
            let j = choose|j: int| 0 <= j < prev.len() && prev[j] == x;
            assert(cs[j] == x);
            assert(cs.contains(x));
        }
        assert(prev.no_duplicates()) by {
            assert forall|a: int, b: int| 0 <= a < prev.len() && 0 <= b < prev.len() && a != b implies prev[a] != prev[b] by {
                assert(prev[a] == cs[a] && prev[b] == cs[b]);
            }
        }
        lemma_color_all_facts(g, s, prev, k);
        let col = color_all(g, s, prev, k);
        assert(!col.blues.contains(c)) by {
            assert(cs.contains(c));
            if col.blues.contains(c) {
                let j = choose|j: int| 0 <= j < col.blues.len() && col.blues[j] == c;
                if j < s.blues.len() {
                    assert(s.blues[j] == c);
                } else {
                    assert(col.mblues[j - s.blues.len()] == c);
                    assert(col.mblues.contains(c));
                    let t = choose|t: int| 0 <= t < prev.len() && prev[t] == c;
                    assert(cs[t] == c && cs[cs.len() - 1] == c);
                }
            }
        }
        lemma_step_k_cluster(g, col, c, k);
        let col2 = color_step(g, col, c, k);
        if fits(g, col.blues, col.sizes, c, k) {
            assert(col2.blues =~= s.blues + col2.mblues);
            assert(col2.blues.no_duplicates()) by {
                assert forall|a: int, b: int| 0 <= a < col2.blues.len() && 0 <= b < col2.blues.len() && a != b implies col2.blues[a] != col2.blues[b] by {
                    if a < col.blues.len() && b < col.blues.len() {
                        assert(col2.blues[a] == col.blues[a] && col2.blues[b] == col.blues[b]);
                    } else if a < col.blues.len() {
                        assert(col2.blues[a] == col.blues[a]);
                        assert(col.blues.contains(col.blues[a]));
                    } else {
                        assert(col2.blues[b] == col.blues[b]);
                        assert(col.blues.contains(col.blues[b]));
                    }
                }
            }
        }
        assert forall|x: int| #[trigger] col2.mblues.contains(x) implies cs.contains(x) by {
            if col.mblues.contains(x) {
                let j = choose|j: int| 0 <= j < prev.len() && prev[j] == x;
                assert(cs[j] == x);
            } else {
                assert(x == c);
                assert(cs[cs.len() - 1] == c);
            }
        }
        assert forall|x: int| #[trigger] col2.mreds.contains(x) implies cs.contains(x) by {
            if col.mreds.contains(x) {
                let j = choose|j: int| 0 <= j < prev.len() && prev[j] == x;
                assert(cs[j] == x);
            } else {
                assert(x == c);
                assert(cs[cs.len() - 1] == c);
            }
        }
    } else {
        assert(s.blues + s.mblues =~= s.blues);
    }
}

/// The blue set after colouring is the starting blue set followed by the
/// mergeset blues.
pub proof fn lemma_color_blues(g: Seq<Seq<int>>, s: Coloring, cs: Seq<int>, k: int)
    requires
        s.mblues.len() == 0,
    ensures
        color_all(g, s, cs, k).blues == s.blues + color_all(g, s, cs, k).mblues,
    decreases cs.len(),
{
    if cs.len() > 0 {
        lemma_color_blues(g, s, cs.drop_last(), k);
        let col = color_all(g, s, cs.drop_last(), k);
        if fits(g, col.blues, col.sizes, cs.last(), k) {
            assert(col.blues.push(cs.last()) =~= s.blues + col.mblues.push(cs.last()));
        }
    } else {
        assert(s.blues + s.mblues =~= s.blues);
    }
}

/// The colouring keeps the candidates' order: the mergeset blues, and the
/// mergeset reds, come in the order the candidates did.
pub proof fn lemma_color_order(g: Seq<Seq<int>>, s: Coloring, cs: Seq<int>, k: int, lt: spec_fn(int, int) -> bool)
    requires
        cs.no_duplicates(),
        s.mblues.len() == 0,
        s.mreds.len() == 0,
        forall|i1: int, i2: int| 0 <= i1 < i2 < cs.len() ==> #[trigger] lt(cs[i1], cs[i2]),
    ensures
        forall|j1: int, j2: int|
            0 <= j1 < j2 < color_all(g, s, cs, k).mblues.len() ==> #[trigger] lt(
                color_all(g, s, cs, k).mblues[j1],
                color_all(g, s, cs, k).mblues[j2],
            ),
        forall|j1: int, j2: int|
            0 <= j1 < j2 < color_all(g, s, cs, k).mreds.len() ==> #[trigger] lt(
                color_all(g, s, cs, k).mreds[j1],
                color_all(g, s, cs, k).mreds[j2],
            ),
    decreases cs.len(),
{
    if cs.len() > 0 {
        let prev = cs.drop_last();
        let c = cs.last();
        assert(prev.no_duplicates()) by {
            assert forall|a: int, b: int| 0 <= a < prev.len() && 0 <= b < prev.len() && a != b implies prev[a] != prev[b] by {
                assert(prev[a] == cs[a] && prev[b] == cs[b]);
            }
        }
        assert forall|i1: int, i2: int| 0 <= i1 < i2 < prev.len() implies #[trigger] lt(prev[i1], prev[i2]) by {
            assert(prev[i1] == cs[i1] && prev[i2] == cs[i2]);
        }
        lemma_color_order(g, s, prev, k, lt);
        lemma_color_split(g, s, prev, k);
        let col = color_all(g, s, prev, k);
        let col2 = color_all(g, s, cs, k);
        assert(col2 == color_step(g, col, c, k));
        assert forall|x: int| prev.contains(x) implies #[trigger] lt(x, c) by {
            let i = choose|i: int| 0 <= i < prev.len() && prev[i] == x;
            assert(cs[i] == x && cs[cs.len() - 1] == c);
        }
        assert forall|j1: int, j2: int| 0 <= j1 < j2 < col2.mblues.len() implies #[trigger] lt(col2.mblues[j1], col2.mblues[j2]) by {
            if j2 < col.mblues.len() {
                assert(col2.mblues[j1] == col.mblues[j1] && col2.mblues[j2] == col.mblues[j2]);
            } else {
                assert(col2.mblues[j1] == col.mblues[j1]);
                assert(col.mblues.contains(col.mblues[j1]));
                assert(prev.contains(col.mblues[j1]));
            }
        }
        assert forall|j1: int, j2: int| 0 <= j1 < j2 < col2.mreds.len() implies #[trigger] lt(col2.mreds[j1], col2.mreds[j2]) by {
            if j2 < col.mreds.len() {
                assert(col2.mreds[j1] == col.mreds[j1] && col2.mreds[j2] == col.mreds[j2]);
            } else {
                assert(col2.mreds[j1] == col.mreds[j1]);
                assert(col.mreds.contains(col.mreds[j1]));
                assert(prev.contains(col.mreds[j1]));
            }
        }
    }
}

/// The colouring splits the candidates: each one ends up a mergeset blue or
/// a mergeset red, never both.
pub proof fn lemma_color_split(g: Seq<Seq<int>>, s: Coloring, cs: Seq<int>, k: int)
    requires
        cs.no_duplicates(),
        s.mblues.len() == 0,
        s.mreds.len() == 0,
    ensures
        forall|x: int|
            #![trigger color_all(g, s, cs, k).mblues.contains(x)]
            #![trigger color_all(g, s, cs, k).mreds.contains(x)]
            #![trigger cs.contains(x)]
            (color_all(g, s, cs, k).mblues.contains(x) || color_all(g, s, cs, k).mreds.contains(x)) <==> cs.contains(x),
        forall|x: int| !(#[trigger] color_all(g, s, cs, k).mblues.contains(x) && color_all(g, s, cs, k).mreds.contains(x)),
        color_all(g, s, cs, k).mblues.len() + color_all(g, s, cs, k).mreds.len() == cs.len(),
    decreases cs.len(),
{
    if cs.len() > 0 {
        let prev = cs.drop_last();
        let c = cs.last();
        assert(prev.no_duplicates()) by {
            assert forall|a: int, b: int| 0 <= a < prev.len() && 0 <= b < prev.len() && a != b implies prev[a] != prev[b] by {
                assert(prev[a] == cs[a] && prev[b] == cs[b]);
            }
        }
        lemma_color_split(g, s, prev, k);
        let col = color_all(g, s, prev, k);
        let col2 = color_all(g, s, cs, k);
        assert(col2 == color_step(g, col, c, k));
        assert(!prev.contains(c)) by {
            if prev.contains(c) {
                let j = choose|j: int| 0 <= j < prev.len() && prev[j] == c;
                assert(cs[j] == c && cs[cs.len() - 1] == c);
            }
        }
        assert forall|x: int| #[trigger] cs.contains(x) <==> (prev.contains(x) || x == c) by {
            if cs.contains(x) && x != c {
                let j = choose|j: int| 0 <= j < cs.len() && cs[j] == x;
                assert(prev[j] == x);
            }
            if prev.contains(x) {
                let j = choose|j: int| 0 <= j < prev.len() && prev[j] == x;
                assert(cs[j] == x);
            }
            if x == c {
                assert(cs[cs.len() - 1] == c);
            }
        }
        assert(!col.mblues.contains(c) && !col.mreds.contains(c));
        if fits(g, col.blues, col.sizes, c, k) {
            assert forall|x: int| #[trigger] col2.mblues.contains(x) <==> (col.mblues.contains(x) || x == c) by {
                if col2.mblues.contains(x) && x != c {
                    let j = choose|j: int| 0 <= j < col2.mblues.len() && col2.mblues[j] == x;
                    assert(col.mblues[j] == x);
                }
                if col.mblues.contains(x) {
                    let j = choose|j: int| 0 <= j < col.mblues.len() && col.mblues[j] == x;
                    assert(col2.mblues[j] == x);
                }
                if x == c {
                    assert(col2.mblues[col.mblues.len() as int] == c);
                }
            }
        } else {
            assert forall|x: int| #[trigger] col2.mreds.contains(x) <==> (col.mreds.contains(x) || x == c) by {
                if col2.mreds.contains(x) && x != c {
                    let j = choose|j: int| 0 <= j < col2.mreds.len() && col2.mreds[j] == x;
                    assert(col.mreds[j] == x);
                }
                if col.mreds.contains(x) {
                    let j = choose|j: int| 0 <= j < col.mreds.len() && col.mreds[j] == x;
                    assert(col2.mreds[j] == x);
                }
                if x == c {
                    assert(col2.mreds[col.mreds.len() as int] == c);
                }
            }
        }
    }
}

/// A blue set whose members are all ancestors of `c` counts no blue in `c`'s
/// anticone.
pub proof fn lemma_acount_all_ancestors(g: Seq<Seq<int>>, bl: Seq<int>, c: int)
    requires
        forall|j: int| 0 <= j < bl.len() ==> #[trigger] anc(g, bl[j], c),
    ensures
        acount(g, bl, c) == 0,
    decreases bl.len(),
{
    if bl.len() > 0 {
        let d = bl.drop_last();
        assert forall|j: int| 0 <= j < d.len() implies #[trigger] anc(g, d[j], c) by {
            assert(d[j] == bl[j]);
        }
        lemma_acount_all_ancestors(g, d, c);
        assert(anc(g, bl[bl.len() - 1], c));
    }
}

impl Dag {
    /// Whether positions `a` and `b` are in each other's anticone.
    pub(crate) fn in_anticone_at(&self, a: usize, b: usize) -> (r: bool)
        requires
            self.inv_core(),
            a < self.nodes@.len(),
            b < self.nodes@.len(),
        ensures
            r == in_anticone(graph_of(self.nodes@), a as int, b as int),
    {
        a != b && !self.reach.is_ancestor_at(a, b) && !self.reach.is_ancestor_at(b, a)
    }

    /// Whether the chain key of position `a` is smaller than that of `b`.
    pub(crate) fn key_lt_at(&self, a: usize, b: usize) -> (r: bool)
        requires
            a < self.nodes@.len(),
            b < self.nodes@.len(),
        ensures
            r == key_lt(self.nodes@, a as int, b as int),
    {
        let x = &self.nodes[a].ghostdag;
        let y = &self.nodes[b].ghostdag;
        x.blue_work < y.blue_work || (x.blue_work == y.blue_work && (x.blue_score < y.blue_score
            || (x.blue_score == y.blue_score && self.nodes[a].id.0 < self.nodes[b].id.0)))
    }

    /// The parent with the heaviest chain key `(blue_work, blue_score, id)`.
    pub(crate) fn select_parent(&self, ps: &Vec<usize>) -> (s: usize)
        requires
            ps@.len() > 0,
            forall|j: int| 0 <= j < ps@.len() ==> #[trigger] ps@[j] < self.nodes@.len(),
        ensures
            s < self.nodes@.len(),
            is_selected(self.nodes@, ints(ps@), s as int),
    {
        let ghost ns = self.nodes@;
        let ghost p = ints(ps@);
        let mut best = ps[0];
        let mut j: usize = 1;
        while j < ps.len()
            invariant
                1 <= j <= ps@.len(),
                ns == self.nodes@,
                p == ints(ps@),
                forall|t: int| 0 <= t < ps@.len() ==> #[trigger] ps@[t] < self.nodes@.len(),
                best < self.nodes@.len(),
                exists|t: int| 0 <= t < j && ps@[t] == best,
                forall|t: int| 0 <= t < j ==> !key_lt(ns, best as int, #[trigger] p[t]),
            decreases ps@.len() - j,
        {
            let x = ps[j];
            if self.key_lt_at(best, x) {
                best = x;
            }
            j = j + 1;
        }
        proof {
            let t = choose|t: int| 0 <= t < ps@.len() && ps@[t] == best;
            assert(p[t] == best as int);
        }
        best
    }

    /// Whether position `x` is one of `ps` or an ancestor of one.
    fn in_past(&self, ps: &Vec<usize>, x: usize) -> (r: bool)
        requires
            self.inv_core(),
            x < self.nodes@.len(),
            forall|j: int| 0 <= j < ps@.len() ==> #[trigger] ps@[j] < self.nodes@.len(),
        ensures
            r == in_past_of(graph_of(self.nodes@), ints(ps@), x as int),
    {
        let ghost g = graph_of(self.nodes@);
        let ghost p = ints(ps@);
        let mut j: usize = 0;
        while j < ps.len()
            invariant
                j <= ps@.len(),
                self.inv_core(),
                g == graph_of(self.nodes@),
                p == ints(ps@),
                x < self.nodes@.len(),
                forall|t: int| 0 <= t < ps@.len() ==> #[trigger] ps@[t] < self.nodes@.len(),
                forall|t: int| 0 <= t < j ==> !(#[trigger] p[t] == x || anc(g, x as int, p[t])),
                p.len() == ps@.len(),
            decreases ps@.len() - j,
        {
            let q = ps[j];
            assert(p[j as int] == q as int);
            assert(self.reach.graph_view() == g);
            let is_anc = self.reach.is_ancestor_at(x, q);
            assert(is_anc == anc(g, x as int, q as int));
            if q == x || is_anc {
                assert(p[j as int] == x || anc(g, x as int, p[j as int]));
                return true;
            }
            assert(!(p[j as int] == x || anc(g, x as int, p[j as int])));
            j = j + 1;
        }
        false
    }

    /// Whether position `x` precedes `y` in the mergeset order `(past_size, id)`.
    fn ms_lt_at(&self, x: usize, y: usize) -> (r: bool)
        requires
            x < self.nodes@.len(),
            y < self.nodes@.len(),
        ensures
            r == ms_lt(self.nodes@, x as int, y as int),
    {
        let a = &self.nodes[x];
        let b = &self.nodes[y];
        a.past_size < b.past_size || (a.past_size == b.past_size && a.id.0 < b.id.0)
    }

    /// Insert `x` into the strictly increasing list `ms`, keeping it so.
    fn insert_sorted(&self, ms: &mut Vec<usize>, x: usize)
        requires
            x < self.nodes@.len(),
            distinct_ids(ids_of(self.nodes@)),
            !old(ms)@.contains(x),
            forall|j: int| 0 <= j < old(ms)@.len() ==> #[trigger] old(ms)@[j] < self.nodes@.len(),
            forall|a: int, b: int| 0 <= a < b < old(ms)@.len() ==> ms_lt(self.nodes@, #[trigger] old(ms)@[a] as int, #[trigger] old(ms)@[b] as int),
        ensures
            forall|j: int| 0 <= j < final(ms)@.len() ==> #[trigger] final(ms)@[j] < self.nodes@.len(),
            forall|a: int, b: int| 0 <= a < b < final(ms)@.len() ==> ms_lt(self.nodes@, #[trigger] final(ms)@[a] as int, #[trigger] final(ms)@[b] as int),
            forall|y: usize| #[trigger] final(ms)@.contains(y) <==> (old(ms)@.contains(y) || y == x),
    {
        let ghost ns = self.nodes@;
        let ghost before = ms@;
        let mut idx: usize = 0;
        while idx < ms.len() && !self.ms_lt_at(x, ms[idx])
            invariant
                idx <= ms@.len(),
                x < self.nodes@.len(),
                ms@ == before,
                ns == self.nodes@,
                forall|j: int| 0 <= j < ms@.len() ==> #[trigger] ms@[j] < self.nodes@.len(),
                forall|j: int| 0 <= j < idx ==> !ms_lt(ns, x as int, #[trigger] ms@[j] as int),
            decreases ms@.len() - idx,
        {
            idx = idx + 1;
        }
        proof {
            assert forall|j: int| 0 <= j < idx implies ms_lt(ns, #[trigger] before[j] as int, x as int) by {
                assert(before[j] != x);
                assert(ids_of(ns)[before[j] as int] != ids_of(ns)[x as int]);
            }
            assert forall|j: int| idx <= j < before.len() implies ms_lt(ns, x as int, #[trigger] before[j] as int) by {
                if j > idx {
                    assert(ms_lt(ns, before[idx as int] as int, before[j] as int));
                }
            }
        }
        ms.insert(idx, x);
        proof {
            let after = ms@;
            assert(after =~= before.insert(idx as int, x));
            assert forall|j: int| 0 <= j < after.len() implies #[trigger] after[j] < self.nodes@.len() by {
                if j < idx {
                    assert(after[j] == before[j]);
                } else if j > idx {
                    assert(after[j] == before[j - 1]);
                }
            }
            assert forall|a: int, b: int| 0 <= a < b < after.len() implies ms_lt(ns, #[trigger] after[a] as int, #[trigger] after[b] as int) by {
                if b < idx {
                    assert(after[a] == before[a] && after[b] == before[b]);
                } else if b == idx {
                    assert(after[a] == before[a]);
                } else if a < idx {
                    assert(after[a] == before[a] && after[b] == before[b - 1]);
                    assert(ms_lt(ns, before[a] as int, x as int));
                    assert(ms_lt(ns, x as int, before[b - 1] as int));
                } else if a == idx {
                    assert(after[b] == before[b - 1]);
                } else {
                    assert(after[a] == before[a - 1] && after[b] == before[b - 1]);
                }
            }
            assert forall|y: usize| #[trigger] after.contains(y) <==> (before.contains(y) || y == x) by {
                if after.contains(y) {
                    let j = choose|j: int| 0 <= j < after.len() && after[j] == y;
                    if j < idx {
                        assert(before[j] == y);
                    } else if j > idx {
                        assert(before[j - 1] == y);
                    }
                }
                if before.contains(y) {
                    let j = choose|j: int| 0 <= j < before.len() && before[j] == y;
                    if j < idx {
                        assert(after[j] == y);
                    } else {
                        assert(after[j + 1] == y);
                    }
                }
                if y == x {
                    assert(after[idx as int] == y);
                }
            }
        }
    }

    /// The mergeset of a block with selected parent `sp` and parents `ps`:
    /// `past(block) \ (past(sp) ∪ {sp})`, sorted by `(past_size, id)`.
    pub(crate) fn mergeset_ordered(&self, sp: usize, ps: &Vec<usize>) -> (ms: Vec<usize>)
        requires
            self.inv_core(),
            sp < self.nodes@.len(),
            forall|j: int| 0 <= j < ps@.len() ==> #[trigger] ps@[j] < self.nodes@.len(),
        ensures
            mergeset_ok(self.nodes@, ints(ps@), sp as int, ints(ms@)),
    {
        let ghost ns = self.nodes@;
        let ghost g = graph_of(ns);
        let ghost p = ints(ps@);
        let n = self.nodes.len();
        let mut ms: Vec<usize> = Vec::new();
        let mut x: usize = 0;
        while x < n
            invariant
                x <= n,
                n == self.nodes@.len(),
                ns == self.nodes@,
                g == graph_of(ns),
                p == ints(ps@),
                self.inv_core(),
                sp < n,
                forall|j: int| 0 <= j < ps@.len() ==> #[trigger] ps@[j] < self.nodes@.len(),
                forall|j: int| 0 <= j < ms@.len() ==> #[trigger] ms@[j] < x,
                forall|a: int, b: int| 0 <= a < b < ms@.len() ==> ms_lt(ns, #[trigger] ms@[a] as int, #[trigger] ms@[b] as int),
                forall|y: usize| #[trigger] ms@.contains(y) <==> (y < x && in_mergeset(g, p, sp as int, y as int)),
            decreases n - x,
        {
            if x != sp && !self.reach.is_ancestor_at(x, sp) && self.in_past(ps, x) {
                let ghost before = ms@;
                self.insert_sorted(&mut ms, x);
                proof {
                    assert forall|j: int| 0 <= j < ms@.len() implies #[trigger] ms@[j] < x + 1 by {
                        assert(ms@.contains(ms@[j]));
                        if ms@[j] != x {
                            assert(before.contains(ms@[j]));
                            let t = choose|t: int| 0 <= t < before.len() && before[t] == ms@[j];
                        }
                    }
                }
            }
            x = x + 1;
        }
        proof {
            let m = ints(ms@);
            assert forall|a: int, b: int| 0 <= a < b < m.len() implies ms_lt(ns, #[trigger] m[a], #[trigger] m[b]) by {
                assert(m[a] == ms@[a] as int && m[b] == ms@[b] as int);
            }
            assert forall|j: int| 0 <= j < m.len() implies 0 <= #[trigger] m[j] < ns.len() by {
                assert(m[j] == ms@[j] as int);
            }
            assert forall|y: int| #[trigger] m.contains(y) <==> in_mergeset(g, p, sp as int, y) by {
                if m.contains(y) {
                    let j = choose|j: int| 0 <= j < m.len() && m[j] == y;
                    assert(ms@[j] as int == y);
                    assert(ms@.contains(ms@[j]));
                }
                if in_mergeset(g, p, sp as int, y) {
                    assert(ms@.contains(y as usize));
                    let j = choose|j: int| 0 <= j < ms@.len() && ms@[j] == y as usize;
                    assert(m[j] == y);
                }
            }
        }
        ms
    }

    /// The blue-anticone count of candidate `c` and whether it may turn blue.
    fn anticone_check(&self, blues: &Vec<usize>, sizes: &Vec<u16>, c: usize) -> (r: (u64, bool))
        requires
            self.inv_core(),
            c < self.nodes@.len(),
            sizes@.len() == blues@.len(),
            forall|j: int| 0 <= j < blues@.len() ==> #[trigger] blues@[j] < self.nodes@.len(),
        ensures
            r.0 as int == acount(graph_of(self.nodes@), ints(blues@), c as int),
            r.1 == fits(graph_of(self.nodes@), ints(blues@), sizes_of(sizes@), c as int, self.k as int),
    {
        let ghost g = graph_of(self.nodes@);
        let ghost bl = ints(blues@);
        let ghost sz = sizes_of(sizes@);
        let mut cnt: u64 = 0;
        let mut room = true;
        let mut j: usize = 0;
        while j < blues.len()
            invariant
                j <= blues@.len(),
                self.inv_core(),
                g == graph_of(self.nodes@),
                bl == ints(blues@),
                sz == sizes_of(sizes@),
                c < self.nodes@.len(),
                sizes@.len() == blues@.len(),
                forall|t: int| 0 <= t < blues@.len() ==> #[trigger] blues@[t] < self.nodes@.len(),
                cnt as int == acount(g, bl.subrange(0, j as int), c as int),
                cnt <= j,
                room == forall|t: int| 0 <= t < j && in_anticone(g, #[trigger] bl[t], c as int) ==> sz[t] < self.k,
            decreases blues@.len() - j,
        {
            let b = blues[j];
            assert(bl[j as int] == b as int);
            assert(sz[j as int] == sizes@[j as int] as int);
            let a = self.in_anticone_at(b, c);
            proof {
                assert(bl.subrange(0, j + 1).drop_last() =~= bl.subrange(0, j as int));
            }
            if a {
                cnt = cnt + 1;
                if sizes[j] >= self.k {
                    room = false;
                }
            }
            j = j + 1;
        }
        proof {
            assert(bl.subrange(0, blues@.len() as int) =~= bl);
        }
        (cnt, room && cnt <= self.k as u64)
    }

    /// Colour the mergeset `ms` of a block whose selected parent is `sp`.
    pub(crate) fn color(&self, sp: usize, ms: &Vec<usize>) -> (r: (Vec<usize>, Vec<u16>, Vec<usize>, Vec<usize>))
        requires
            self.inv_core(),
            sp < self.nodes@.len(),
            forall|j: int| 0 <= j < ms@.len() ==> #[trigger] ms@[j] < self.nodes@.len(),
        ensures
            ({
                let col = color_all(
                    graph_of(self.nodes@),
                    color_start(ints(self.nodes@[sp as int].blues@), sizes_of(self.nodes@[sp as int].blue_sizes@), sp as int),
                    ints(ms@),
                    self.k as int,
                );
                &&& ints(r.0@) == col.blues
                &&& sizes_of(r.1@) == col.sizes
                &&& ints(r.2@) == col.mblues
                &&& ints(r.3@) == col.mreds
            }),
            forall|j: int| 0 <= j < r.0@.len() ==> #[trigger] r.0@[j] < self.nodes@.len(),
            forall|j: int| 0 <= j < r.2@.len() ==> #[trigger] r.2@[j] < self.nodes@.len(),
            forall|j: int| 0 <= j < r.3@.len() ==> #[trigger] r.3@[j] < self.nodes@.len(),
    {
        let ghost g = graph_of(self.nodes@);
        let ghost k = self.k as int;
        let ghost ns = self.nodes@;
        proof {
            crate::dag::lemma_node_ok_at(self, sp as int);
        }
        let spn = &self.nodes[sp];
        let mut blues = crate::dag::copy_positions(&spn.blues);
        let mut sizes = copy_sizes(&spn.blue_sizes);
        blues.push(sp);
        sizes.push(0);
        let ghost start = color_start(ints(spn.blues@), sizes_of(spn.blue_sizes@), sp as int);
        let mut mblues: Vec<usize> = Vec::new();
        let mut mreds: Vec<usize> = Vec::new();
        proof {
            assert(ints(blues@) =~= start.blues);
            assert(sizes_of(sizes@) =~= start.sizes);
            assert(ints(mblues@) =~= start.mblues);
            assert(ints(mreds@) =~= start.mreds);
            assert(ints(ms@).subrange(0, 0) =~= Seq::<int>::empty());
        }
        let mut i: usize = 0;
        while i < ms.len()
            invariant
                i <= ms@.len(),
                self.inv_core(),
                g == graph_of(self.nodes@),
                k == self.k as int,
                forall|j: int| 0 <= j < ms@.len() ==> #[trigger] ms@[j] < self.nodes@.len(),
                sizes@.len() == blues@.len(),
                forall|j: int| 0 <= j < blues@.len() ==> #[trigger] blues@[j] < self.nodes@.len(),
                forall|j: int| 0 <= j < mblues@.len() ==> #[trigger] mblues@[j] < self.nodes@.len(),
                forall|j: int| 0 <= j < mreds@.len() ==> #[trigger] mreds@[j] < self.nodes@.len(),
                ({
                    let col = color_all(g, start, ints(ms@).subrange(0, i as int), k);
                    &&& ints(blues@) == col.blues
                    &&& sizes_of(sizes@) == col.sizes
                    &&& ints(mblues@) == col.mblues
                    &&& ints(mreds@) == col.mreds
                }),
            decreases ms@.len() - i,
        {
            let c = ms[i];
            let ghost prev = color_all(g, start, ints(ms@).subrange(0, i as int), k);
            proof {
                let s2 = ints(ms@).subrange(0, i + 1);
                assert(s2.drop_last() =~= ints(ms@).subrange(0, i as int));
                assert(s2.last() == c as int);
            }
            let (cnt, ok) = self.anticone_check(&blues, &sizes, c);
            if ok {
                let ghost bl = ints(blues@);
                let ghost sz0 = sizes_of(sizes@);
                let mut j: usize = 0;
                while j < blues.len()
                    invariant
                        j <= blues@.len(),
                        self.inv_core(),
                        g == graph_of(self.nodes@),
                        k == self.k as int,
                        bl == ints(blues@),
                        sizes@.len() == blues@.len(),
                        sz0.len() == blues@.len(),
                        c < self.nodes@.len(),
                        forall|t: int| 0 <= t < blues@.len() ==> #[trigger] blues@[t] < self.nodes@.len(),
                        fits(g, bl, sz0, c as int, k),
                        forall|t: int| 0 <= t < j ==> #[trigger] sizes_of(sizes@)[t] == bump(g, bl, sz0, c as int)[t],
                        forall|t: int| j <= t < blues@.len() ==> #[trigger] sizes_of(sizes@)[t] == sz0[t],
                    decreases blues@.len() - j,
                {
                    let b = blues[j];
                    assert(bl[j as int] == b as int);
                    let ghost old_sizes = sizes_of(sizes@);
                    let anti = self.in_anticone_at(b, c);
                    if anti {
                        assert(sizes_of(sizes@)[j as int] == sz0[j as int]);
                        assert(sz0[j as int] < k);
                        let v = sizes[j] + 1;
                        sizes.set(j, v);
                        proof {
                            assert(sizes_of(sizes@) =~= old_sizes.update(j as int, v as int));
                        }
                    }
                    proof {
                        assert(bump(g, bl, sz0, c as int)[j as int] == if anti { sz0[j as int] + 1 } else { sz0[j as int] });
                        assert(sizes_of(sizes@)[j as int] == bump(g, bl, sz0, c as int)[j as int]);
                        assert(forall|t: int| 0 <= t < sizes@.len() && t != j ==> sizes_of(sizes@)[t] == old_sizes[t]);
                    }
                    j = j + 1;
                }
                proof {
                    assert(sizes_of(sizes@) =~= bump(g, bl, sz0, c as int));
                    lemma_acount_nonneg(g, bl, c as int);
                }
                blues.push(c);
                sizes.push(cnt as u16);
                mblues.push(c);
            } else {
                mreds.push(c);
            }
            proof {
                let col = color_all(g, start, ints(ms@).subrange(0, i + 1), k);
                assert(ints(blues@) =~= col.blues);
                assert(sizes_of(sizes@) =~= col.sizes);
                assert(ints(mblues@) =~= col.mblues);
                assert(ints(mreds@) =~= col.mreds);
            }
            i = i + 1;
        }
        proof {
            assert(ints(ms@).subrange(0, ms@.len() as int) =~= ints(ms@));
        }
        (blues, sizes, mblues, mreds)
    }
}

/// A copy of a list of sizes.
fn copy_sizes(v: &Vec<u16>) -> (r: Vec<u16>)
    ensures
        r@ == v@,
{
    let mut r: Vec<u16> = Vec::new();
    let mut i: usize = 0;
    while i < v.len()
        invariant
            i <= v@.len(),
            r@ == v@.subrange(0, i as int),
        decreases v@.len() - i,
    {
        r.push(v[i]);
        proof {
            assert(r@ =~= v@.subrange(0, i + 1));
        }
        i = i + 1;
    }
    proof {
        assert(r@ =~= v@);
    }
    r
}

} // verus!
