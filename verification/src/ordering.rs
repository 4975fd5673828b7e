//! Turning the partial order into a total order (linearization).
//!
//! GHOSTDAG gives every block a blue score and a selected-parent chain. To run
//! a ledger a single, agreed total order over every block is still needed, so
//! that transactions are applied deterministically.
//!
//! [`Dag::linearize`] produces that order as a deterministic topological sort:
//! repeatedly emit the highest-priority block all of whose parents are already
//! emitted, where priority is heavier blue work first, then higher blue score,
//! then smaller id. [`Dag::selected_tip`] and [`Dag::selected_chain`] expose
//! the GHOSTDAG backbone (the heaviest chain).
use vstd::prelude::*;

use crate::block::BlockId;
use crate::dag::{lemma_node_ok_at, lemma_parents_view, tree_of, Dag};
use crate::graph::{childless, distinct_ids, wf_graph, wf_tree};
use crate::reachability::{int_lists, ints};

verus! {

/// `x` is a block outside `done` all of whose parents are in `done`.
pub open spec fn ready(g: Seq<Seq<int>>, done: Seq<int>, x: int) -> bool {
    &&& 0 <= x < g.len()
    &&& !done.contains(x)
    &&& forall|j: int| 0 <= j < g[x].len() ==> done.contains(#[trigger] g[x][j])
}

/// `ready`, with the emitted blocks given as one flag per position.
pub(crate) open spec fn ready_flags(g: Seq<Seq<int>>, em: Seq<bool>, x: int) -> bool {
    &&& 0 <= x < g.len()
    &&& !em[x]
    &&& forall|j: int| 0 <= j < g[x].len() ==> em[#[trigger] g[x][j]]
}

/// `b` is the tree parent of the non-root position `a`.
pub(crate) open spec fn tree_step(tr: Seq<int>, a: int, b: int) -> bool {
    a != 0 && tr[a] == b
}

/// `tree_step` over a list of tree-parent positions.
pub(crate) open spec fn tree_link(tp: Seq<usize>, a: usize, b: usize) -> bool {
    a != 0 && tp[a as int] == b
}

/// The linearization key of one block.
struct PriorityKey {
    blue_work: u128,
    blue_score: u64,
    id: BlockId,
}

impl PriorityKey {
    /// `self` ranks below `other`: lighter blue work, then lower blue score,
    /// then larger id.
    spec fn below(self, other: PriorityKey) -> bool {
        ||| self.blue_work < other.blue_work
        ||| self.blue_work == other.blue_work && self.blue_score < other.blue_score
        ||| self.blue_work == other.blue_work && self.blue_score == other.blue_score && self.id.0 > other.id.0
    }

    fn is_below(&self, other: &PriorityKey) -> (r: bool)
        ensures
            r == self.below(*other),
    {
        self.blue_work < other.blue_work || (self.blue_work == other.blue_work && (self.blue_score
            < other.blue_score || (self.blue_score == other.blue_score && self.id.0 > other.id.0)))
    }
}

impl Dag {
    /// The chain key `(blue_work, blue_score, id)` of `a` is smaller than that
    /// of `b`.
    pub open spec fn chain_key_lt(&self, a: BlockId, b: BlockId) -> bool {
        let x = self.ghostdag_at(self.pos(a));
        let y = self.ghostdag_at(self.pos(b));
        ||| x.blue_work < y.blue_work
        ||| x.blue_work == y.blue_work && x.blue_score < y.blue_score
        ||| x.blue_work == y.blue_work && x.blue_score == y.blue_score && a.0 < b.0
    }

    /// The linearization priority of position `a` is below that of `b`:
    /// lighter blue work, then lower blue score, then larger id.
    pub open spec fn prio_lt(&self, a: int, b: int) -> bool {
        let x = self.ghostdag_at(a);
        let y = self.ghostdag_at(b);
        ||| x.blue_work < y.blue_work
        ||| x.blue_work == y.blue_work && x.blue_score < y.blue_score
        ||| x.blue_work == y.blue_work && x.blue_score == y.blue_score && self.ids()[a].0 > self.ids()[b].0
    }

    /// `o` lists one position per block, each chosen as the highest-priority
    /// block whose parents are all listed before it.
    pub open spec fn linear_order(&self, o: Seq<int>) -> bool {
        &&& o.len() == self.ids().len()
        &&& forall|t: int| 0 <= t < o.len() ==> #[trigger] ready(self.graph(), o.take(t), o[t])
        &&& forall|t: int, y: int|
            0 <= t < o.len() && #[trigger] ready(self.graph(), o.take(t), y) ==> !self.prio_lt(o[t], y)
    }

    /// `order` is the linearization of this DAG, by id.
    pub open spec fn is_linearization(&self, order: Seq<BlockId>) -> bool {
        exists|o: Seq<int>| #[trigger] self.linear_order(o) && order == o.map_values(|i: int| self.ids()[i])
    }

    /// The linearization of this DAG, by id.
    pub open spec fn linearization(&self) -> Seq<BlockId> {
        choose|order: Seq<BlockId>| self.is_linearization(order)
    }

    /// The selected parent of every non-genesis block is the block at its
    /// tree position, which lies before it; genesis has none.
    pub(crate) proof fn lemma_selected_parent(&self, i: int)
        requires
            self.inv(),
            0 <= i < self.ids().len(),
        ensures
            i == 0 ==> self.ghostdag_at(i).selected_parent is None,
            i > 0 ==> 0 <= self.tree()[i] < i,
            i > 0 ==> self.ghostdag_at(i).selected_parent == Some(self.ids()[self.tree()[i]]),
    {
        self.reveal_inv();
        lemma_node_ok_at(self, i);
        let ns = self.nodes@;
        if i > 0 {
            let s = ns[i].selected as int;
            assert(tree_of(ns)[i] == s);
            assert(ns.subrange(0, i)[s] == ns[s]);
        }
    }

    /// The last block inserted is a tip.
    pub proof fn lemma_last_is_tip(&self)
        requires
            self.inv(),
        ensures
            self.is_tip_spec(self.ids()[self.ids().len() - 1]),
    {
        self.lemma_inv_shape();
        let g = self.graph();
        let n = self.ids().len() as int;
        assert(childless(g, n - 1)) by {
            assert forall|c: int, j: int| 0 <= c < g.len() && 0 <= j < g[c].len() implies #[trigger] g[c][j] != n - 1 by {}
        }
    }

    /// The chain key of a block: heavier blue work wins, then higher blue
    /// score, then larger id as a deterministic final tiebreak.
    pub(crate) fn chain_key(&self, id: &BlockId) -> (r: (u128, u64, BlockId))
        requires
            self.inv(),
            self.has(*id),
        ensures
            r == (self.ghostdag_at(self.pos(*id)).blue_work, self.ghostdag_at(self.pos(*id)).blue_score, *id),
    {
        match self.ghostdag(id) {
            Some(g) => (g.blue_work, g.blue_score, *id),
            None => (0, 0, *id),
        }
    }

    /// The selected tip: the tip with the heaviest chain key. This is the head
    /// of the heaviest blue chain and the tip a new block would choose as its
    /// selected parent.
    pub fn selected_tip(&self) -> (r: BlockId)
        requires
            self.inv(),
        ensures
            self.is_tip_spec(r),
            forall|t: BlockId| #[trigger] self.is_tip_spec(t) ==> !self.chain_key_lt(r, t),
            forall|t: BlockId|
                #[trigger] self.is_tip_spec(t) ==> self.ghostdag_at(self.pos(r)).blue_work >= self.ghostdag_at(
                    self.pos(t),
                ).blue_work && (self.ghostdag_at(self.pos(r)).blue_work == self.ghostdag_at(self.pos(t)).blue_work
                    ==> self.ghostdag_at(self.pos(r)).blue_score >= self.ghostdag_at(self.pos(t)).blue_score),
    {
        let tips = self.tips();
        proof {
            self.lemma_last_is_tip();
            assert(tips@.contains(self.ids()[self.ids().len() - 1]));
        }
        let mut best = tips[0];
        proof {
            assert(tips@.contains(best));
            self.lemma_tip_has(best);
        }
        let mut bk = self.chain_key(&best);
        let mut i: usize = 1;
        while i < tips.len()
            invariant
                self.inv(),
                1 <= i <= tips@.len(),
                forall|x: BlockId| #[trigger] tips@.contains(x) <==> self.is_tip_spec(x),
                self.is_tip_spec(best),
                self.has(best),
                bk == (self.ghostdag_at(self.pos(best)).blue_work, self.ghostdag_at(self.pos(best)).blue_score, best),
                forall|j: int| 0 <= j < i ==> !self.chain_key_lt(best, #[trigger] tips@[j]),
            decreases tips@.len() - i,
        {
            let t = tips[i];
            proof {
                assert(tips@.contains(t));
                self.lemma_tip_has(t);
            }
            let k = self.chain_key(&t);
            if bk.0 < k.0 || (bk.0 == k.0 && (bk.1 < k.1 || (bk.1 == k.1 && bk.2.0 < k.2.0))) {
                proof {
                    assert forall|j: int| 0 <= j <= i implies !self.chain_key_lt(t, #[trigger] tips@[j]) by {
                        if j < i {
                            assert(!self.chain_key_lt(best, tips@[j]));
                        }
                    }
                }
                best = t;
                bk = k;
            }
            i = i + 1;
        }
        proof {
            assert forall|t: BlockId| #[trigger] self.is_tip_spec(t) implies !self.chain_key_lt(best, t) by {
                assert(tips@.contains(t));
                let j = choose|j: int| 0 <= j < tips@.len() && tips@[j] == t;
                assert(!self.chain_key_lt(best, tips@[j]));
            }
            crate::laws::lemma_selected_tip_heaviest(self, best);
        }
        best
    }

    /// A tip is a block of the DAG.
    proof fn lemma_tip_has(&self, t: BlockId)
        requires
            self.is_tip_spec(t),
        ensures
            self.has(t),
    {
        let i = choose|i: int| 0 <= i < self.ids().len() && #[trigger] self.ids()[i] == t && childless(self.graph(), i);
        assert(self.ids()[i] == t);
    }

    /// Reading the positions `rev` (a selected-parent walk from a block down
    /// to genesis) backwards gives ids linked by their selected parents.
    proof fn lemma_chain_links(&self, rev: Seq<usize>, r: Seq<BlockId>)
        requires
            self.inv(),
            rev.len() >= 1,
            rev.last() == 0,
            forall|j: int| 0 <= j < rev.len() ==> #[trigger] rev[j] < self.ids().len(),
            forall|j: int| 0 <= j < rev.len() - 1 ==> #[trigger] tree_step(self.tree(), rev[j] as int, rev[j + 1] as int),
            r.len() == rev.len(),
            forall|j: int| 0 <= j < r.len() ==> #[trigger] r[j] == self.ids()[rev[rev.len() - 1 - j] as int],
        ensures
            r[0] == self.ids()[0],
            r.last() == self.ids()[rev[0] as int],
            forall|j: int| 0 <= j < r.len() ==> self.has(#[trigger] r[j]),
            forall|j: int| 0 < j < r.len() ==> #[trigger] self.ghostdag_at(self.pos(r[j])).selected_parent == Some(r[j - 1]),
    {
        let ids = self.ids();
        let tr = self.tree();
        let m = rev.len() as int;
        assert(r[0] == ids[rev[m - 1] as int]);
        assert(r.last() == ids[rev[0] as int]);
        assert forall|j: int| 0 <= j < r.len() implies self.has(#[trigger] r[j]) by {
            assert(ids[rev[m - 1 - j] as int] == r[j]);
        }
        assert forall|j: int| 0 < j < r.len() implies #[trigger] self.ghostdag_at(self.pos(r[j])).selected_parent == Some(r[j - 1]) by {
            let i = rev[m - 1 - j] as int;
            let q = rev[m - j] as int;
            assert(r[j] == ids[i]);
            assert(r[j - 1] == ids[q]);
            let jj = m - 1 - j;
            assert(tree_step(tr, rev[jj] as int, rev[jj + 1] as int));
            assert(jj + 1 == m - j);
            assert(i != 0 && tr[i] == q);
            self.lemma_pos(ids[i], i);
            self.lemma_selected_parent(i);
        }
    }

    /// The selected-parent chain from genesis up to the selected tip, in order.
    pub fn selected_chain(&self) -> (r: Vec<BlockId>)
        requires
            self.inv(),
        ensures
            r@.len() >= 1,
            r@[0] == self.ids()[0],
            self.is_tip_spec(r@.last()),
            forall|t: BlockId| #[trigger] self.is_tip_spec(t) ==> !self.chain_key_lt(r@.last(), t),
            forall|t: BlockId|
                #[trigger] self.is_tip_spec(t) ==> self.ghostdag_at(self.pos(r@.last())).blue_work >= self.ghostdag_at(
                    self.pos(t),
                ).blue_work && (self.ghostdag_at(self.pos(r@.last())).blue_work == self.ghostdag_at(self.pos(t)).blue_work
                    ==> self.ghostdag_at(self.pos(r@.last())).blue_score >= self.ghostdag_at(self.pos(t)).blue_score),
            forall|j: int| 0 <= j < r@.len() ==> self.has(#[trigger] r@[j]),
            forall|j: int| 0 < j < r@.len() ==> #[trigger] self.ghostdag_at(self.pos(r@[j])).selected_parent == Some(r@[j - 1]),
    {
        let tip = self.selected_tip();
        proof {
            self.lemma_tip_has(tip);
        }
        let p0 = match self.position_of(tip) {
            Some(p) => p,
            None => 0,
        };
        proof {
            self.lemma_inv_shape();
        }
        let (ids_v, _pl, tp) = self.structure();
        let ghost tr = self.tree();
        let ghost ids = self.ids();
        let n = ids_v.len();
        // Positions from the tip down to genesis.
        let mut rev: Vec<usize> = Vec::new();
        rev.push(p0);
        let mut cur = p0;
        proof {
            assert forall|i: int| 0 < i < n implies #[trigger] tp@[i] < i by {
                assert(tr[i] == tp@[i] as int);
            }
        }
        while cur != 0
            invariant
                tp@.len() == n,
                forall|i: int| 0 < i < n ==> #[trigger] tp@[i] < i,
                cur < n,
                rev@.len() >= 1,
                rev@[0] == p0,
                rev@.last() == cur,
                forall|j: int| 0 <= j < rev@.len() ==> #[trigger] rev@[j] < n,
                forall|j: int| 0 <= j < rev@.len() - 1 ==> #[trigger] tree_link(tp@, rev@[j], rev@[j + 1]),
            decreases cur,
        {
            let next = tp[cur];
            let ghost before = rev@;
            rev.push(next);
            proof {
                assert forall|j: int| 0 <= j < rev@.len() - 1 implies #[trigger] tree_link(tp@, rev@[j], rev@[j + 1]) by {
                    if j + 1 < before.len() {
                        assert(rev@[j] == before[j]);
                        assert(rev@[j + 1] == before[j + 1]);
                        assert(tree_link(tp@, before[j], before[j + 1]));
                    } else {
                        assert(rev@[j] == cur);
                        assert(rev@[j + 1] == next);
                    }
                }
            }
            cur = next;
        }
        proof {
            assert forall|j: int| 0 <= j < rev@.len() - 1 implies #[trigger] tree_step(tr, rev@[j] as int, rev@[j + 1] as int) by {
                assert(tree_link(tp@, rev@[j], rev@[j + 1]));
                assert(tr[rev@[j] as int] == tp@[rev@[j] as int] as int);
            }
        }
        let mut r: Vec<BlockId> = Vec::new();
        let mut k: usize = rev.len();
        while k > 0
            invariant
                n == ids.len(),
                ids == ids_v@,
                k <= rev@.len(),
                rev@.len() >= 1,
                rev@.last() == 0,
                tr == self.tree(),
                forall|j: int| 0 <= j < rev@.len() - 1 ==> #[trigger] tree_step(tr, rev@[j] as int, rev@[j + 1] as int),
                forall|j: int| 0 <= j < rev@.len() ==> #[trigger] rev@[j] < n,
                r@.len() == rev@.len() - k,
                forall|j: int| 0 <= j < r@.len() ==> #[trigger] r@[j] == ids[rev@[rev@.len() - 1 - j] as int],
            decreases k,
        {
            k = k - 1;
            r.push(ids_v[rev[k]]);
        }
        proof {
            self.lemma_chain_links(rev@, r@);
        }
        r
    }
}

/// Whether every position in `ps` is flagged in `emitted`.
fn all_emitted(ps: &Vec<usize>, emitted: &Vec<bool>) -> (r: bool)
    requires
        forall|j: int| 0 <= j < ps@.len() ==> #[trigger] ps@[j] < emitted@.len(),
    ensures
        r == forall|j: int| 0 <= j < ps@.len() ==> emitted@[#[trigger] ps@[j] as int],
{
    let mut j: usize = 0;
    while j < ps.len()
        invariant
            j <= ps@.len(),
            forall|t: int| 0 <= t < ps@.len() ==> #[trigger] ps@[t] < emitted@.len(),
            forall|t: int| 0 <= t < j ==> emitted@[#[trigger] ps@[t] as int],
        decreases ps@.len() - j,
    {
        if !emitted[ps[j]] {
            return false;
        }
        j = j + 1;
    }
    true
}

/// Whether position `x` is ready: not emitted, all its parents emitted.
fn is_ready(pl: &Vec<Vec<usize>>, emitted: &Vec<bool>, x: usize) -> (r: bool)
    requires
        pl@.len() == emitted@.len(),
        x < pl@.len(),
        wf_graph(int_lists(pl@)),
    ensures
        r == ready_flags(int_lists(pl@), emitted@, x as int),
{
    let ghost g = int_lists(pl@);
    proof {
        assert forall|j: int| 0 <= j < pl@[x as int]@.len() implies #[trigger] pl@[x as int]@[j] < emitted@.len() by {
            assert(g[x as int][j] == pl@[x as int]@[j] as int);
        }
    }
    if emitted[x] {
        return false;
    }
    let r = all_emitted(&pl[x], emitted);
    proof {
        if r {
            assert forall|j: int| 0 <= j < g[x as int].len() implies emitted@[#[trigger] g[x as int][j]] by {
                assert(g[x as int][j] == pl@[x as int]@[j] as int);
            }
        } else {
            let j = choose|j: int| 0 <= j < pl@[x as int]@.len() && !emitted@[#[trigger] pl@[x as int]@[j] as int];
            assert(g[x as int][j] == pl@[x as int]@[j] as int);
        }
    }
    r
}

/// A duplicate-free list of fewer than `n` positions below `n` misses one.
proof fn lemma_missing_position(xs: Seq<int>, n: int)
    requires
        xs.no_duplicates(),
        xs.len() < n,
        forall|j: int| 0 <= j < xs.len() ==> 0 <= #[trigger] xs[j] < n,
    ensures
        exists|x: int| 0 <= x < n && !xs.contains(x),
{
    if forall|x: int| 0 <= x < n ==> xs.contains(x) {
        xs.unique_seq_to_set();
        assert forall|x: int| #[trigger] vstd::set_lib::set_int_range(0, n).contains(x) implies xs.to_set().contains(x) by {}
        vstd::set_lib::lemma_int_range(0, n);
        vstd::set_lib::lemma_len_subset(vstd::set_lib::set_int_range(0, n), xs.to_set());
    }
}

/// The highest-priority ready position.
fn pick_next(pl: &Vec<Vec<usize>>, keys: &Vec<PriorityKey>, emitted: &Vec<bool>) -> (r: usize)
    requires
        pl@.len() == keys@.len(),
        pl@.len() == emitted@.len(),
        wf_graph(int_lists(pl@)),
        exists|x: int| 0 <= x < emitted@.len() && !emitted@[x],
    ensures
        r < pl@.len(),
        ready_flags(int_lists(pl@), emitted@, r as int),
        forall|y: int| #[trigger] ready_flags(int_lists(pl@), emitted@, y) ==> !keys@[r as int].below(keys@[y]),
{
    let ghost g = int_lists(pl@);
    let n = emitted.len();
    // The first position not yet emitted is ready: its parents lie before it.
    let mut m: usize = 0;
    while emitted[m]
        invariant
            m < n,
            n == emitted@.len(),
            exists|x: int| m <= x < n && !emitted@[x],
            forall|y: int| 0 <= y < m ==> emitted@[y],
        decreases n - m,
    {
        m = m + 1;
    }
    proof {
        assert forall|j: int| 0 <= j < g[m as int].len() implies emitted@[#[trigger] g[m as int][j]] by {
            assert(0 <= g[m as int][j] < m);
        }
    }
    let mut best = m;
    let mut x = m + 1;
    while x < n
        invariant
            n == emitted@.len(),
            n == pl@.len(),
            n == keys@.len(),
            g == int_lists(pl@),
            wf_graph(g),
            m < x <= n,
            forall|y: int| 0 <= y < m ==> emitted@[y],
            best < n,
            ready_flags(g, emitted@, best as int),
            forall|y: int| 0 <= y < x && #[trigger] ready_flags(g, emitted@, y) ==> !keys@[best as int].below(keys@[y]),
        decreases n - x,
    {
        if is_ready(pl, emitted, x) && keys[best].is_below(&keys[x]) {
            best = x;
        }
        x = x + 1;
    }
    best
}

impl Dag {
    /// The linearization key of position `i`, as a value.
    spec fn key_at(&self, i: int) -> PriorityKey {
        PriorityKey {
            blue_work: self.ghostdag_at(i).blue_work,
            blue_score: self.ghostdag_at(i).blue_score,
            id: self.ids()[i],
        }
    }

    /// The linearization key of the block at position `i`.
    fn priority_key(&self, i: usize) -> (r: PriorityKey)
        requires
            self.inv(),
            i < self.ids().len(),
        ensures
            r == self.key_at(i as int),
    {
        proof {
            self.reveal_inv();
        }
        let g = &self.nodes[i].ghostdag;
        PriorityKey { blue_work: g.blue_work, blue_score: g.blue_score, id: self.nodes[i].id }
    }

    /// A deterministic total order over every block in the DAG.
    ///
    /// The result is a topological sort (every block appears after all its
    /// parents), lists every block once, and is identical on any node holding
    /// the same DAG.
    pub fn linearize(&self) -> (r: Vec<BlockId>)
        requires
            self.inv(),
        ensures
            self.is_linearization(r@),
            r@ == self.linearization(),
    {
        proof {
            self.lemma_inv_shape();
        }
        let (ids_v, pl, _tp) = self.structure();
        let ghost g = self.graph();
        let ghost ids = self.ids();
        let n = ids_v.len();
        let mut keys: Vec<PriorityKey> = Vec::new();
        let mut emitted: Vec<bool> = Vec::new();
        let mut i: usize = 0;
        while i < n
            invariant
                self.inv(),
                n == ids.len(),
                ids == self.ids(),
                i <= n,
                keys@.len() == i,
                emitted@.len() == i,
                forall|j: int| 0 <= j < i ==> #[trigger] keys@[j] == self.key_at(j),
                forall|j: int| 0 <= j < i ==> !#[trigger] emitted@[j],
            decreases n - i,
        {
            keys.push(self.priority_key(i));
            emitted.push(false);
            i = i + 1;
        }
        let mut order: Vec<usize> = Vec::new();
        while order.len() < n
            invariant
                n == ids.len(),
                g.len() == n,
                g == int_lists(pl@),
                wf_graph(g),
                keys@.len() == n,
                forall|a: int, b: int| 0 <= a < n && 0 <= b < n ==> (#[trigger] keys@[a].below(#[trigger] keys@[b])
                    <==> self.prio_lt(a, b)),
                emitted@.len() == n,
                order@.len() <= n,
                forall|x: int| 0 <= x < n ==> (#[trigger] emitted@[x] <==> ints(order@).contains(x)),
                forall|t: int| 0 <= t < order@.len() ==> #[trigger] order@[t] < n,
                ints(order@).no_duplicates(),
                forall|t: int| 0 <= t < order@.len() ==> #[trigger] ready(g, ints(order@).take(t), ints(order@)[t]),
                forall|t: int, y: int|
                    0 <= t < order@.len() && #[trigger] ready(g, ints(order@).take(t), y) ==> !self.prio_lt(
                        ints(order@)[t],
                        y,
                    ),
            decreases n - order@.len(),
        {
            let ghost before = ints(order@);
            let ghost em0 = emitted@;
            proof {
                assert forall|j: int| 0 <= j < before.len() implies 0 <= #[trigger] before[j] < n by {
                    assert(before[j] == order@[j] as int);
                }
                lemma_missing_position(before, n as int);
                let x = choose|x: int| 0 <= x < n && !before.contains(x);
                assert(!emitted@[x]);
            }
            let x = pick_next(&pl, &keys, &emitted);
            emitted.set(x, true);
            order.push(x);
            proof {
                let after = ints(order@);
                assert(after =~= before.push(x as int));
                assert(after.take(before.len() as int) =~= before);
                assert(ready(g, before, x as int)) by {
                    assert forall|j: int| 0 <= j < g[x as int].len() implies before.contains(#[trigger] g[x as int][j]) by {
                        assert(0 <= g[x as int][j] < x);
                    }
                }
                assert forall|y: int| #[trigger] ready(g, before, y) implies !self.prio_lt(x as int, y) by {
                    assert(ready_flags(g, em0, y)) by {
                        assert forall|j: int| 0 <= j < g[y].len() implies em0[#[trigger] g[y][j]] by {
                            assert(before.contains(g[y][j]));
                            assert(0 <= g[y][j] < y);
                        }
                    }
                }
                assert forall|t: int| 0 <= t < before.len() implies #[trigger] after.take(t) =~= before.take(t) by {}
                assert forall|t: int| 0 <= t < order@.len() implies #[trigger] ready(g, after.take(t), after[t]) by {
                    if t < before.len() {
                        assert(after.take(t) =~= before.take(t));
                        assert(after[t] == before[t]);
                    }
                }
                assert forall|t: int, y: int|
                    0 <= t < order@.len() && #[trigger] ready(g, after.take(t), y) implies !self.prio_lt(after[t], y) by {
                    if t < before.len() {
                        assert(after.take(t) =~= before.take(t));
                        assert(after[t] == before[t]);
                    }
                }
                assert forall|z: int| 0 <= z < n implies (#[trigger] emitted@[z] <==> after.contains(z)) by {
                    if z == x as int {
                        assert(after[before.len() as int] == z);
                    } else {
                        assert(emitted@[z] == em0[z]);
                        if before.contains(z) {
                            let j = choose|j: int| 0 <= j < before.len() && before[j] == z;
                            assert(after[j] == z);
                        }
                        if after.contains(z) {
                            let j = choose|j: int| 0 <= j < after.len() && after[j] == z;
                            assert(before[j] == z);
                        }
                    }
                }
            }
        }
        let mut r: Vec<BlockId> = Vec::new();
        let mut t: usize = 0;
        while t < n
            invariant
                n == ids.len(),
                ids == ids_v@,
                order@.len() == n,
                forall|j: int| 0 <= j < n ==> #[trigger] order@[j] < n,
                t <= n,
                r@.len() == t,
                forall|j: int| 0 <= j < t ==> #[trigger] r@[j] == ids[order@[j] as int],
            decreases n - t,
        {
            r.push(ids_v[order[t]]);
            t = t + 1;
        }
        proof {
            let o = ints(order@);
            assert(r@ =~= o.map_values(|i: int| self.ids()[i]));
            assert(self.linear_order(o));
            assert(self.is_linearization(r@));
            lemma_linearization_unique(self, r@, self.linearization());
        }
        r
    }
}

/// Two orders that both follow the linearization rule agree on their first
/// `t` entries.
proof fn lemma_orders_agree(dag: &Dag, o1: Seq<int>, o2: Seq<int>, t: int)
    requires
        dag.inv(),
        dag.linear_order(o1),
        dag.linear_order(o2),
        0 <= t <= o1.len(),
    ensures
        o1.take(t) == o2.take(t),
    decreases t,
{
    if t > 0 {
        lemma_orders_agree(dag, o1, o2, t - 1);
        dag.lemma_inv_shape();
        let g = dag.graph();
        let d = o1.take(t - 1);
        assert(o2.take(t - 1) == d);
        let a = o1[t - 1];
        let b = o2[t - 1];
        assert(ready(g, o1.take(t - 1), a));
        assert(ready(g, o2.take(t - 1), b));
        assert(ready(g, o1.take(t - 1), b));
        assert(ready(g, o2.take(t - 1), a));
        assert(!dag.prio_lt(a, b));
        assert(!dag.prio_lt(b, a));
        if a != b {
            assert(distinct_ids(dag.ids()));
            assert(dag.ids()[a] != dag.ids()[b]);
            assert(dag.ids()[a].0 != dag.ids()[b].0);
        }
        assert(o1.take(t) =~= o1.take(t - 1).push(a));
        assert(o2.take(t) =~= o2.take(t - 1).push(b));
    }
}

/// The linearization is a function of the DAG: any two orders that follow
/// its rule are the same order, so every node holding the same DAG derives
/// the identical sequence.
pub proof fn lemma_linearization_unique(dag: &Dag, a: Seq<BlockId>, b: Seq<BlockId>)
    requires
        dag.inv(),
        dag.is_linearization(a),
        dag.is_linearization(b),
    ensures
        a == b,
{
    let o1 = choose|o: Seq<int>| #[trigger] dag.linear_order(o) && a == o.map_values(|i: int| dag.ids()[i]);
    let o2 = choose|o: Seq<int>| #[trigger] dag.linear_order(o) && b == o.map_values(|i: int| dag.ids()[i]);
    lemma_orders_agree(dag, o1, o2, o1.len() as int);
    assert(o1 =~= o1.take(o1.len() as int));
    assert(o2 =~= o2.take(o2.len() as int));
    assert(a =~= b);
}

/// The linearization is a topological order of the whole DAG: it lists every
/// block exactly once, and every block after all of its parents.
pub proof fn lemma_linearization_topological(dag: &Dag, order: Seq<BlockId>)
    requires
        dag.inv(),
        dag.is_linearization(order),
    ensures
        order.len() == dag.ids().len(),
        order.no_duplicates(),
        forall|x: BlockId| dag.has(x) <==> #[trigger] order.contains(x),
        forall|i: int, p: BlockId|
            0 <= i < order.len() && #[trigger] dag.block_at(dag.pos(order[i])).parents_view().contains(p) ==> exists|j: int|
                0 <= j < i && #[trigger] order[j] == p,
{
    dag.lemma_inv_shape();
    let g = dag.graph();
    let ids = dag.ids();
    let n = ids.len() as int;
    let o = choose|o: Seq<int>| #[trigger] dag.linear_order(o) && order == o.map_values(|i: int| dag.ids()[i]);
    assert forall|t: int| 0 <= t < o.len() implies 0 <= #[trigger] o[t] < n by {
        assert(ready(g, o.take(t), o[t]));
    }
    assert(o.no_duplicates()) by {
        assert forall|a: int, b: int| 0 <= a < o.len() && 0 <= b < o.len() && a != b implies o[a] != o[b] by {
            if a < b {
                assert(ready(g, o.take(b), o[b]));
                assert(o.take(b)[a] == o[a]);
            } else {
                assert(ready(g, o.take(a), o[a]));
                assert(o.take(a)[b] == o[b]);
            }
        }
    }
    assert(order.no_duplicates()) by {
        assert forall|a: int, b: int| 0 <= a < order.len() && 0 <= b < order.len() && a != b implies order[a] != order[b] by {
            assert(o[a] != o[b]);
            assert(order[a] == ids[o[a]]);
            assert(order[b] == ids[o[b]]);
        }
    }
    // every position occurs: `o` is a duplicate-free list of n positions below n
    assert forall|x: int| 0 <= x < n implies #[trigger] o.contains(x) by {
        if !o.contains(x) {
            o.unique_seq_to_set();
            assert forall|y: int| #[trigger] o.to_set().contains(y) implies vstd::set_lib::set_int_range(0, n).remove(x).contains(y) by {}
            vstd::set_lib::lemma_int_range(0, n);
            vstd::set_lib::lemma_len_subset(o.to_set(), vstd::set_lib::set_int_range(0, n).remove(x));
        }
    }
    assert forall|x: BlockId| dag.has(x) <==> #[trigger] order.contains(x) by {
        if dag.has(x) {
            let i = choose|i: int| 0 <= i < ids.len() && ids[i] == x;
            assert(o.contains(i));
            let t = choose|t: int| 0 <= t < o.len() && o[t] == i;
            assert(order[t] == x);
        }
        if order.contains(x) {
            let t = choose|t: int| 0 <= t < order.len() && order[t] == x;
            assert(ids[o[t]] == x);
        }
    }
    assert forall|i: int, p: BlockId|
        0 <= i < order.len() && #[trigger] dag.block_at(dag.pos(order[i])).parents_view().contains(p) implies exists|j: int|
            0 <= j < i && #[trigger] order[j] == p by {
        let x = o[i];
        assert(order[i] == ids[x]);
        dag.lemma_pos(ids[x], x);
        lemma_parents_view(dag, x);
        let pv = dag.block_at(x).parents_view();
        let k = choose|k: int| 0 <= k < pv.len() && pv[k] == p;
        assert(pv[k] == ids[g[x][k]]);
        assert(ready(g, o.take(i), x));
        assert(o.take(i).contains(g[x][k]));
        let j = choose|j: int| 0 <= j < o.take(i).len() && o.take(i)[j] == g[x][k];
        assert(o[j] == g[x][k]);
        assert(order[j] == p);
    }
}


/// Some block outside `done` is ready when one of the first `m` positions is
/// outside it: the first such position has all its parents in `done`.
proof fn lemma_some_ready(g: Seq<Seq<int>>, done: Seq<int>, m: int)
    requires
        wf_graph(g),
        m <= g.len(),
        exists|x: int| 0 <= x < m && !done.contains(x),
    ensures
        exists|y: int| #[trigger] ready(g, done, y),
    decreases m,
{
    if exists|x: int| 0 <= x < m - 1 && !done.contains(x) {
        lemma_some_ready(g, done, m - 1);
    } else {
        let x = m - 1;
        assert(!done.contains(x));
        assert forall|j: int| 0 <= j < g[x].len() implies done.contains(#[trigger] g[x][j]) by {
            assert(0 <= g[x][j] < x);
        }
        assert(ready(g, done, x));
    }
}

impl Dag {
    /// Among the ready positions below `m`, one has the highest priority.
    proof fn lemma_best_ready(&self, done: Seq<int>, m: int)
        requires
            self.inv(),
            0 <= m <= self.ids().len(),
            exists|y: int| 0 <= y < m && #[trigger] ready(self.graph(), done, y),
        ensures
            exists|b: int|
                0 <= b < m && #[trigger] ready(self.graph(), done, b) && forall|y: int|
                    0 <= y < m && #[trigger] ready(self.graph(), done, y) ==> !self.prio_lt(b, y),
        decreases m,
    {
        let g = self.graph();
        let x = m - 1;
        if exists|y: int| 0 <= y < m - 1 && #[trigger] ready(g, done, y) {
            self.lemma_best_ready(done, m - 1);
            let b = choose|b: int|
                0 <= b < m - 1 && #[trigger] ready(g, done, b) && forall|y: int|
                    0 <= y < m - 1 && #[trigger] ready(g, done, y) ==> !self.prio_lt(b, y);
            if ready(g, done, x) && self.prio_lt(b, x) {
                assert forall|y: int| 0 <= y < m && #[trigger] ready(g, done, y) implies !self.prio_lt(x, y) by {
                    if y < m - 1 {
                        assert(!self.prio_lt(b, y));
                    }
                }
            } else {
                assert forall|y: int| 0 <= y < m && #[trigger] ready(g, done, y) implies !self.prio_lt(b, y) by {
                    if y < m - 1 {
                    }
                }
            }
        } else {
            assert(ready(g, done, x));
            assert forall|y: int| 0 <= y < m && #[trigger] ready(g, done, y) implies !self.prio_lt(x, y) by {
                assert(y == x);
            }
        }
    }

    /// The highest-priority ready block after `done`.
    spec fn next_ready(&self, done: Seq<int>) -> int {
        choose|b: int| #[trigger] ready(self.graph(), done, b) && forall|y: int| #[trigger] ready(self.graph(), done, y) ==> !self.prio_lt(b, y)
    }

    /// The first `t` blocks emitted by the linearization rule.
    spec fn greedy(&self, t: nat) -> Seq<int>
        decreases t,
    {
        if t == 0 {
            Seq::empty()
        } else {
            let d = self.greedy((t - 1) as nat);
            d.push(self.next_ready(d))
        }
    }

    /// The first `t` emitted blocks are distinct positions, each the
    /// highest-priority ready block when it was emitted.
    proof fn lemma_greedy(&self, t: nat)
        requires
            self.inv(),
            t <= self.ids().len(),
        ensures
            self.greedy(t).len() == t,
            self.greedy(t).no_duplicates(),
            forall|u: int| 0 <= u < t ==> #[trigger] ready(self.graph(), self.greedy(t).take(u), self.greedy(t)[u]),
            forall|u: int, y: int|
                0 <= u < t && #[trigger] ready(self.graph(), self.greedy(t).take(u), y) ==> !self.prio_lt(self.greedy(t)[u], y),
        decreases t,
    {
        if t > 0 {
            self.lemma_inv_shape();
            let g = self.graph();
            let n = self.ids().len() as int;
            self.lemma_greedy((t - 1) as nat);
            let d = self.greedy((t - 1) as nat);
            assert forall|j: int| 0 <= j < d.len() implies 0 <= #[trigger] d[j] < n by {
                assert(ready(g, d.take(j), d[j]));
            }
            lemma_missing_position(d, n);
            lemma_some_ready(g, d, n);
            let y0 = choose|y: int| #[trigger] ready(g, d, y);
            assert(0 <= y0 < n);
            self.lemma_best_ready(d, n);
            let b = self.next_ready(d);
            assert(ready(g, d, b) && forall|y: int| #[trigger] ready(g, d, y) ==> !self.prio_lt(b, y));
            let r = self.greedy(t);
            assert(r == d.push(b));
            assert forall|u: int| 0 <= u < t implies #[trigger] r.take(u) == (if u < t - 1 { d.take(u) } else { d }) by {
                if u < t - 1 {
                    assert(r.take(u) =~= d.take(u));
                } else {
                    assert(r.take(u) =~= d);
                }
            }
            assert forall|u: int| 0 <= u < t implies #[trigger] ready(g, r.take(u), r[u]) by {
                if u < t - 1 {
                    assert(r[u] == d[u]);
                }
            }
            assert forall|u: int, y: int| 0 <= u < t && #[trigger] ready(g, r.take(u), y) implies !self.prio_lt(r[u], y) by {
                if u < t - 1 {
                    assert(r[u] == d[u]);
                    assert(ready(g, d.take(u), y));
                }
            }
            assert(r.no_duplicates()) by {
                assert forall|a: int, c: int| 0 <= a < r.len() && 0 <= c < r.len() && a != c implies r[a] != r[c] by {
                    if a == t - 1 && c < t - 1 {
                        assert(!d.contains(b));
                        assert(d.contains(d[c]));
                    } else if c == t - 1 && a < t - 1 {
                        assert(!d.contains(b));
                        assert(d.contains(d[a]));
                    }
                }
            }
        }
    }
}

/// Every consistent DAG has its linearization: the linearization rule can
/// always be followed to the end, and [`Dag::linearization`] is the order it
/// gives.
pub proof fn lemma_linearization_exists(dag: &Dag)
    requires
        dag.inv(),
    ensures
        dag.is_linearization(dag.linearization()),
{
    let n = dag.ids().len();
    dag.lemma_greedy(n);
    let o = dag.greedy(n);
    assert(dag.linear_order(o));
    assert(dag.is_linearization(o.map_values(|i: int| dag.ids()[i])));
}


/// The linearization emits, at every step, a heaviest block among those
/// ready: no block outside the order so far whose parents all come earlier
/// carries more blue work than the block emitted next, nor equal blue work
/// and a higher blue score. So of two ready blocks the heavier comes first.
pub proof fn lemma_linearization_heaviest_first(dag: &Dag, t: int, y: BlockId)
    requires
        dag.inv(),
        0 <= t < dag.linearization().len(),
        dag.has(y),
        !dag.linearization().take(t).contains(y),
        forall|p: BlockId| #[trigger] dag.block_at(dag.pos(y)).parents_view().contains(p) ==> dag.linearization().take(t).contains(p),
    ensures
        dag.ghostdag_at(dag.pos(dag.linearization()[t])).blue_work >= dag.ghostdag_at(dag.pos(y)).blue_work,
        dag.ghostdag_at(dag.pos(dag.linearization()[t])).blue_work == dag.ghostdag_at(dag.pos(y)).blue_work
            ==> dag.ghostdag_at(dag.pos(dag.linearization()[t])).blue_score >= dag.ghostdag_at(dag.pos(y)).blue_score,
        dag.ghostdag_at(dag.pos(dag.linearization()[t])).blue_work == dag.ghostdag_at(dag.pos(y)).blue_work
            && dag.ghostdag_at(dag.pos(dag.linearization()[t])).blue_score == dag.ghostdag_at(dag.pos(y)).blue_score
            ==> dag.linearization()[t].0 <= y.0,
{
    lemma_linearization_exists(dag);
    dag.lemma_inv_shape();
    let lin = dag.linearization();
    let ids = dag.ids();
    let g = dag.graph();
    let n = ids.len() as int;
    let o = choose|o: Seq<int>| #[trigger] dag.linear_order(o) && lin == o.map_values(|i: int| dag.ids()[i]);
    assert(dag.linear_order(o));
    assert forall|u: int| 0 <= u < o.len() implies 0 <= #[trigger] o[u] < n by {
        assert(ready(g, o.take(u), o[u]));
    }
    let q = choose|i: int| 0 <= i < ids.len() && ids[i] == y;
    dag.lemma_pos(y, q);
    // An id in the order so far is the id of a position in it.
    assert forall|x: int| 0 <= x < n implies #[trigger] o.take(t).contains(x) == lin.take(t).contains(ids[x]) by {
        if o.take(t).contains(x) {
            let u = choose|u: int| 0 <= u < t && o.take(t)[u] == x;
            assert(lin.take(t)[u] == ids[x]);
        }
        if lin.take(t).contains(ids[x]) {
            let u = choose|u: int| 0 <= u < t && lin.take(t)[u] == ids[x];
            assert(lin[u] == ids[o[u]]);
            assert(o.take(t)[u] == x);
        }
    }
    lemma_parents_view(dag, q);
    assert forall|j: int| 0 <= j < g[q].len() implies o.take(t).contains(#[trigger] g[q][j]) by {
        let p = dag.block_at(q).parents_view()[j];
        assert(dag.block_at(q).parents_view().contains(p));
    }
    assert(ready(g, o.take(t), q));
    assert(ready(g, o.take(t), o[t]));
    assert(!dag.prio_lt(o[t], q));
    dag.lemma_pos(lin[t], o[t]);
}

} // verus!
