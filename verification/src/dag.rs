//! The append-only block DAG store and its GHOSTDAG metadata.
//!
//! The [`Dag`] owns every block plus the consensus data GHOSTDAG derives for
//! it and the total order it induces. Blocks are inserted one at a time; each
//! insert is validated and immediately coloured, so the store always holds a
//! fully processed DAG. Blocks are kept in insertion order, which is a
//! topological order: every parent comes before its children.
//!
//! Ancestor queries and mergeset computation go through a [`Reachability`]
//! oracle (interval-labelled selected-parent tree + future-covering sets),
//! rebuilt after every insert. Each block keeps only its `past_size` (the
//! number of its ancestors), which is the topological sort key.
use vstd::prelude::*;

use crate::block::{position, Block, BlockId};
use crate::ghostdag::{acount, color_all, color_start, k_cluster, lemma_acount_all_ancestors, lemma_acount_extend, lemma_color_all_facts, lemma_color_split, Coloring};
use crate::graph::{lemma_anc_extend, lemma_anc_lt, lemma_anc_trans, lemma_anc_unfold, lemma_anc_parent};
use crate::graph::{anc, ancestor_by_id, chain_ancestor_by_id, childless, distinct_ids, tip_by_id, in_anticone, tanc, tree_in_graph, wf_graph, wf_tree};
use crate::reachability::{int_lists, ints, Reachability};

verus! {

/// The `k` parameter of GHOSTDAG: the maximum tolerated blue anticone size.
pub type KParam = u16;

/// Errors returned when inserting a block into the [`Dag`].
#[derive(Clone, Debug, PartialEq, Eq)]
pub enum DagError {
    /// A block with this id is already present.
    DuplicateBlock(BlockId),
    /// A referenced parent is not in the DAG.
    MissingParent(BlockId),
    /// A non-genesis block referenced no parents.
    NoParents(BlockId),
    /// A second genesis was offered to a DAG that already has one.
    GenesisAlreadySet,
    /// The installed [`BlockValidator`] rejected the block, with its reason.
    InvalidBlock { id: BlockId, reason: String },
}

/// Consensus metadata GHOSTDAG derives for a single block.
#[derive(Clone, Debug)]
pub struct GhostdagData {
    /// The parent with the heaviest chain key. `None` only for genesis.
    pub selected_parent: Option<BlockId>,
    /// Mergeset blocks coloured blue, in the topological order they were added.
    pub mergeset_blues: Vec<BlockId>,
    /// Mergeset blocks coloured red, in topological order.
    pub mergeset_reds: Vec<BlockId>,
    /// Size of this block's blue set (number of blue blocks in its past).
    pub blue_score: u64,
    /// Total work of this block's blue set (saturating at `u128::MAX`).
    pub blue_work: u128,
    /// For each blue block in this block's blue set, the number of blue blocks
    /// in its anticone (restricted to this blue set); every value is `<= k`.
    pub blue_anticone_sizes: Vec<(BlockId, KParam)>,
}

/// The GHOSTDAG data a block would receive, computed by [`Dag::preview`]
/// without inserting the block.
#[derive(Clone, Debug)]
pub struct BlockPreview {
    /// The parent that would be the block's selected parent.
    pub selected_parent: BlockId,
    /// The block's mergeset, in the deterministic order the linearization uses.
    pub mergeset: Vec<BlockId>,
}

/// A payload-aware check run on every [`Dag::insert`] once the structural
/// checks pass. Implemented by users of the DAG (e.g. a ledger that rejects
/// blocks whose transactions do not apply on top of their selected parent).
/// It is handed the block and the block's preview: the GHOSTDAG view the
/// block would get, its selected parent and its ordered mergeset.
pub trait BlockValidator {
    /// The verdict on `block` with the preview `view`: `Ok(())` to accept it,
    /// or the reason to reject it.
    spec fn verdict(&self, block: Block, view: BlockPreview) -> Result<(), String>;

    /// `Ok(())` to accept `block`, or the reason to reject it.
    fn validate(&self, block: &Block, view: &BlockPreview) -> (r: Result<(), String>)
        ensures
            r == self.verdict(*block, *view),
    ;
}

/// A stored block: the block itself plus derived DAG/consensus data. Blocks
/// are named by their position in insertion order.
pub(crate) struct DagNode {
    pub(crate) block: Block,
    pub(crate) id: BlockId,
    /// Positions of the parents, in the block's parent order.
    pub(crate) parents: Vec<usize>,
    /// Position of the selected parent (0 for genesis).
    pub(crate) selected: usize,
    /// Positions of the mergeset, in topological order.
    pub(crate) mergeset: Vec<usize>,
    /// Positions of the blue set, with their blue-anticone sizes.
    pub(crate) blues: Vec<usize>,
    pub(crate) blue_sizes: Vec<u16>,
    /// Positions of the mergeset blues and reds.
    pub(crate) mblues: Vec<usize>,
    pub(crate) mreds: Vec<usize>,
    /// Number of strict ancestors.
    pub(crate) past_size: u64,
    pub(crate) ghostdag: GhostdagData,
}

/// An append-only block DAG with GHOSTDAG consensus data.
pub struct Dag {
    pub(crate) k: KParam,
    pub(crate) genesis: BlockId,
    pub(crate) nodes: Vec<DagNode>,
    /// Blocks with no children yet, sorted by id.
    pub(crate) tips: Vec<BlockId>,
    pub(crate) reach: Reachability,
    pub(crate) validator: Option<Box<dyn BlockValidator>>,
}

// ---------------------------------------------------------------------------
// The model.

/// Parent positions of every node.
pub(crate) open spec fn graph_of(ns: Seq<DagNode>) -> Seq<Seq<int>> {
    Seq::new(ns.len(), |i: int| ints(ns[i].parents@))
}

/// Ids by position.
pub(crate) open spec fn ids_of(ns: Seq<DagNode>) -> Seq<BlockId> {
    Seq::new(ns.len(), |i: int| ns[i].id)
}

/// Selected-parent positions by position.
pub(crate) open spec fn tree_of(ns: Seq<DagNode>) -> Seq<int> {
    Seq::new(ns.len(), |i: int| ns[i].selected as int)
}

/// Sizes as integers.
pub(crate) open spec fn sizes_of(v: Seq<u16>) -> Seq<int> {
    v.map_values(|x: u16| x as int)
}

/// The chain key `(blue_work, blue_score, id)` of `i` is smaller than that of `j`.
pub(crate) open spec fn key_lt(ns: Seq<DagNode>, i: int, j: int) -> bool {
    let a = ns[i].ghostdag;
    let b = ns[j].ghostdag;
    ||| a.blue_work < b.blue_work
    ||| a.blue_work == b.blue_work && a.blue_score < b.blue_score
    ||| a.blue_work == b.blue_work && a.blue_score == b.blue_score && ns[i].id.0 < ns[j].id.0
}

/// `s` is the member of `ps` with the largest chain key.
pub(crate) open spec fn is_selected(ns: Seq<DagNode>, ps: Seq<int>, s: int) -> bool {
    &&& ps.contains(s)
    &&& forall|j: int| 0 <= j < ps.len() ==> !key_lt(ns, s, #[trigger] ps[j])
}

/// `x` is one of `ps` or an ancestor of one.
pub(crate) open spec fn in_past_of(g: Seq<Seq<int>>, ps: Seq<int>, x: int) -> bool {
    exists|j: int| #![trigger ps[j]] 0 <= j < ps.len() && (ps[j] == x || anc(g, x, ps[j]))
}

/// `x` is in the mergeset of a block with parents `ps` and selected parent `s`:
/// in its past, but neither `s` nor in `s`'s past.
pub(crate) open spec fn in_mergeset(g: Seq<Seq<int>>, ps: Seq<int>, s: int, x: int) -> bool {
    &&& 0 <= x < g.len()
    &&& x != s
    &&& !anc(g, x, s)
    &&& in_past_of(g, ps, x)
}

/// The mergeset order: by `(past_size, id)`.
pub(crate) open spec fn ms_lt(ns: Seq<DagNode>, x: int, y: int) -> bool {
    ||| ns[x].past_size < ns[y].past_size
    ||| ns[x].past_size == ns[y].past_size && ns[x].id.0 < ns[y].id.0
}

/// `ms` lists exactly the mergeset, strictly increasing in the mergeset order.
pub(crate) open spec fn mergeset_ok(ns: Seq<DagNode>, ps: Seq<int>, s: int, ms: Seq<int>) -> bool {
    &&& forall|a: int, b: int| 0 <= a < b < ms.len() ==> ms_lt(ns, #[trigger] ms[a], #[trigger] ms[b])
    &&& forall|j: int| 0 <= j < ms.len() ==> 0 <= #[trigger] ms[j] < ns.len()
    &&& forall|x: int| #[trigger] ms.contains(x) <==> in_mergeset(graph_of(ns), ps, s, x)
}

/// Sum of the work of the blocks at positions `xs`.
pub(crate) open spec fn work_sum(ns: Seq<DagNode>, xs: Seq<int>) -> int
    decreases xs.len(),
{
    if xs.len() == 0 {
        0
    } else {
        work_sum(ns, xs.drop_last()) + ns[xs.last()].block.work_view()
    }
}

/// `x` capped at `u128::MAX`.
pub open spec fn sat128(x: int) -> int {
    if x > u128::MAX { u128::MAX as int } else { x }
}

/// Ids of the blocks at positions `xs`.
pub(crate) open spec fn ids_at(ns: Seq<DagNode>, xs: Seq<int>) -> Seq<BlockId> {
    Seq::new(xs.len(), |j: int| ns[xs[j]].id)
}

/// The set of strict ancestors of `b`.
pub open spec fn past_set(g: Seq<Seq<int>>, b: int) -> Set<int> {
    Set::new(|a: int| anc(g, a, b))
}

/// The GHOSTDAG data of genesis.
pub open spec fn genesis_ghostdag(gd: GhostdagData) -> bool {
    &&& gd.selected_parent is None
    &&& gd.mergeset_blues@.len() == 0
    &&& gd.mergeset_reds@.len() == 0
    &&& gd.blue_score == 0
    &&& gd.blue_work == 0
    &&& gd.blue_anticone_sizes@.len() == 0
}

/// The node appended after the nodes `pre` is consistent: its id, parents,
/// selected parent, mergeset, colouring and derived counts are exactly what
/// GHOSTDAG gives for its parents in the DAG `pre`.
pub(crate) open spec fn node_ok(pre: Seq<DagNode>, nd: DagNode, k: int) -> bool {
    let i = pre.len() as int;
    let g = graph_of(pre);
    let ps = ints(nd.parents@);
    let bl = ints(nd.blues@);
    &&& nd.id == nd.block.spec_id()
    &&& nd.block.parents_view().len() == nd.parents@.len()
    &&& forall|j: int| 0 <= j < nd.parents@.len() ==> #[trigger] nd.parents@[j] < i
    &&& forall|j: int| 0 <= j < nd.parents@.len() ==> nd.block.parents_view()[j] == pre[#[trigger] nd.parents@[j] as int].id
    &&& nd.blue_sizes@.len() == nd.blues@.len()
    &&& nd.ghostdag.blue_anticone_sizes@.len() == nd.blues@.len()
    &&& forall|j: int| 0 <= j < nd.blues@.len() ==> 0 <= #[trigger] nd.blues@[j] < i
    &&& forall|j: int| 0 <= j < nd.blues@.len() ==> #[trigger] nd.ghostdag.blue_anticone_sizes@[j] == (
        pre[nd.blues@[j] as int].id,
        nd.blue_sizes@[j],
    )
    &&& forall|j: int| 0 <= j < nd.mblues@.len() ==> 0 <= #[trigger] nd.mblues@[j] < i
    &&& forall|j: int| 0 <= j < nd.mreds@.len() ==> 0 <= #[trigger] nd.mreds@[j] < i
    &&& nd.ghostdag.mergeset_blues@ == ids_at(pre, ints(nd.mblues@))
    &&& nd.ghostdag.mergeset_reds@ == ids_at(pre, ints(nd.mreds@))
    &&& nd.ghostdag.blue_score == nd.blues@.len()
    &&& bl.no_duplicates()
    &&& k_cluster(g, bl, sizes_of(nd.blue_sizes@), k)
    &&& if i == 0 {
        &&& nd.parents@.len() == 0
        &&& nd.selected == 0
        &&& nd.mergeset@.len() == 0
        &&& nd.blues@.len() == 0
        &&& nd.mblues@.len() == 0
        &&& nd.mreds@.len() == 0
        &&& nd.past_size == 0
        &&& genesis_ghostdag(nd.ghostdag)
    } else {
        let s = nd.selected as int;
        let sp = pre[s];
        let ms = ints(nd.mergeset@);
        let col = color_all(g, color_start(ints(sp.blues@), sizes_of(sp.blue_sizes@), s), ms, k);
        &&& nd.parents@.len() > 0
        &&& is_selected(pre, ps, s)
        &&& mergeset_ok(pre, ps, s, ms)
        &&& bl == col.blues
        &&& sizes_of(nd.blue_sizes@) == col.sizes
        &&& ints(nd.mblues@) == col.mblues
        &&& ints(nd.mreds@) == col.mreds
        &&& nd.ghostdag.selected_parent == Some(sp.id)
        &&& nd.ghostdag.blue_work == sat128(sp.ghostdag.blue_work + sp.block.work_view() + work_sum(pre, col.mblues))
        &&& nd.past_size as int == sp.past_size + 1 + ms.len()
        &&& forall|j: int| 0 <= j < bl.len() ==> #[trigger] anc(graph_of(pre.push(nd)), bl[j], i)
        &&& nd.past_size as int == past_set(graph_of(pre.push(nd)), i).len()
    }
}

impl Dag {
    /// Block ids by position (insertion order).
    pub closed spec fn ids(&self) -> Seq<BlockId> {
        ids_of(self.nodes@)
    }

    /// Parent positions of every block, by position.
    pub closed spec fn graph(&self) -> Seq<Seq<int>> {
        graph_of(self.nodes@)
    }

    /// Selected-parent positions by position (genesis maps to itself).
    pub closed spec fn tree(&self) -> Seq<int> {
        tree_of(self.nodes@)
    }

    /// The block stored at position `i`.
    pub closed spec fn block_at(&self, i: int) -> Block {
        self.nodes@[i].block
    }

    /// The GHOSTDAG data of the block at position `i`.
    pub closed spec fn ghostdag_at(&self, i: int) -> GhostdagData {
        self.nodes@[i].ghostdag
    }

    /// The number of strict ancestors recorded for the block at position `i`.
    pub closed spec fn past_size_at(&self, i: int) -> int {
        self.nodes@[i].past_size as int
    }

    /// The GHOSTDAG `k` parameter.
    pub closed spec fn k_view(&self) -> KParam {
        self.k
    }

    /// The tips, sorted by id.
    pub closed spec fn tips_view(&self) -> Seq<BlockId> {
        self.tips@
    }

    /// The position of `id`, if present.
    pub open spec fn pos(&self, id: BlockId) -> int {
        choose|i: int| 0 <= i < self.ids().len() && self.ids()[i] == id
    }

    /// Whether `id` is a block of the DAG.
    pub open spec fn has(&self, id: BlockId) -> bool {
        self.ids().contains(id)
    }

    /// `a` is a strict ancestor of `b`.
    pub open spec fn is_ancestor_spec(&self, a: BlockId, b: BlockId) -> bool {
        ancestor_by_id(self.ids(), self.graph(), a, b)
    }

    /// `a` is a strict selected-chain ancestor of `b`.
    pub open spec fn is_chain_ancestor_spec(&self, a: BlockId, b: BlockId) -> bool {
        chain_ancestor_by_id(self.ids(), self.tree(), a, b)
    }

    /// `a` and `b` are distinct blocks of the DAG and neither is an ancestor of
    /// the other.
    pub open spec fn in_anticone_spec(&self, a: BlockId, b: BlockId) -> bool {
        a != b && !self.is_ancestor_spec(a, b) && !self.is_ancestor_spec(b, a)
    }

    /// The store is consistent: every block's derived data is what GHOSTDAG
    /// gives it, the tips are the childless blocks, and the oracle describes
    /// this DAG.
    pub closed spec fn inv(&self) -> bool {
        self.inv_core()
    }

    /// The consistency conditions behind `inv`.
    pub(crate) proof fn reveal_inv(&self)
        ensures
            self.inv() == self.inv_core(),
            self.ids() == ids_of(self.nodes@),
            self.graph() == graph_of(self.nodes@),
            self.tree() == tree_of(self.nodes@),
            self.k_view() == self.k,
            self.tips_view() == self.tips@,
            forall|i: int| #[trigger] self.block_at(i) == self.nodes@[i].block,
            forall|i: int| #[trigger] self.ghostdag_at(i) == self.nodes@[i].ghostdag,
            forall|i: int| #[trigger] self.past_size_at(i) == self.nodes@[i].past_size as int,
    {
    }

    /// The consistency conditions behind `inv`.
    pub(crate) open spec fn inv_core(&self) -> bool {
        let ns = self.nodes@;
        &&& ns.len() >= 1
        &&& forall|i: int| 0 <= i < ns.len() ==> #[trigger] node_ok(ns.subrange(0, i), ns[i], self.k as int)
        &&& distinct_ids(ids_of(ns))
        &&& self.genesis == ns[0].id
        &&& wf_graph(graph_of(ns))
        &&& wf_tree(tree_of(ns))
        &&& tree_in_graph(graph_of(ns), tree_of(ns))
        &&& self.reach.inv()
        &&& self.reach.ids_view() == ids_of(ns)
        &&& self.reach.graph_view() == graph_of(ns)
        &&& self.reach.tree_view() == tree_of(ns)
        &&& forall|a: int, b: int| 0 <= a < b < self.tips@.len() ==> (#[trigger] self.tips@[a]).0 < (#[trigger] self.tips@[b]).0
        &&& forall|x: BlockId| #[trigger] self.tips@.contains(x) <==> tip_by_id(ids_of(ns), graph_of(ns), x)
    }

    /// `x` is a block of the DAG that no block names as a parent.
    pub open spec fn is_tip_spec(&self, x: BlockId) -> bool {
        tip_by_id(self.ids(), self.graph(), x)
    }

    /// The shape facts the oracle needs.
    pub(crate) proof fn lemma_inv_shape(&self)
        requires
            self.inv(),
        ensures
            self.ids().len() >= 1,
            self.graph().len() == self.ids().len(),
            self.tree().len() == self.ids().len(),
            wf_graph(self.graph()),
            wf_tree(self.tree()),
            tree_in_graph(self.graph(), self.tree()),
            distinct_ids(self.ids()),
    {
    }

    /// The position of a present id is the one `pos` names.
    pub(crate) proof fn lemma_pos(&self, id: BlockId, i: int)
        requires
            self.inv(),
            0 <= i < self.ids().len(),
            self.ids()[i] == id,
        ensures
            self.pos(id) == i,
            self.has(id),
    {
        let j = self.pos(id);
        assert(self.ids()[j] == id);
    }

    /// The ids, parent positions and selected-parent positions of every block.
    pub(crate) fn structure(&self) -> (r: (Vec<BlockId>, Vec<Vec<usize>>, Vec<usize>))
        ensures
            r.0@ == self.ids(),
            int_lists(r.1@) == self.graph(),
            ints(r.2@) == self.tree(),
            r.1@.len() == r.0@.len(),
            r.2@.len() == r.0@.len(),
    {
        let n = self.nodes.len();
        let mut ids: Vec<BlockId> = Vec::new();
        let mut ps: Vec<Vec<usize>> = Vec::new();
        let mut tp: Vec<usize> = Vec::new();
        let mut i: usize = 0;
        while i < n
            invariant
                i <= n,
                n == self.nodes@.len(),
                ids@.len() == i,
                ps@.len() == i,
                tp@.len() == i,
                forall|j: int| 0 <= j < i ==> ids@[j] == self.nodes@[j].id,
                forall|j: int| 0 <= j < i ==> (#[trigger] ps@[j])@ == self.nodes@[j].parents@,
                forall|j: int| 0 <= j < i ==> tp@[j] == self.nodes@[j].selected,
            decreases n - i,
        {
            let nd = &self.nodes[i];
            ids.push(nd.id);
            ps.push(copy_positions(&nd.parents));
            tp.push(nd.selected);
            i = i + 1;
        }
        proof {
            assert(ids@ =~= self.ids());
            assert(int_lists(ps@) =~= self.graph());
            assert(ints(tp@) =~= self.tree());
        }
        (ids, ps, tp)
    }

    /// Create a DAG seeded with `genesis` and the GHOSTDAG parameter `k`.
    pub fn new(k: KParam, genesis: Block) -> (dag: Dag)
        requires
            genesis.parents_view().len() == 0,
        ensures
            dag.inv(),
            dag.k_view() == k,
            dag.ids() == seq![genesis.spec_id()],
            dag.block_at(0) == genesis,
            genesis_ghostdag(dag.ghostdag_at(0)),
            !dag.has_validator(),
    {
        let id = genesis.id();
        let node = DagNode {
            block: genesis,
            id,
            parents: Vec::new(),
            selected: 0,
            mergeset: Vec::new(),
            blues: Vec::new(),
            blue_sizes: Vec::new(),
            mblues: Vec::new(),
            mreds: Vec::new(),
            past_size: 0,
            ghostdag: GhostdagData {
                selected_parent: None,
                mergeset_blues: Vec::new(),
                mergeset_reds: Vec::new(),
                blue_score: 0,
                blue_work: 0,
                blue_anticone_sizes: Vec::new(),
            },
        };
        let mut nodes: Vec<DagNode> = Vec::new();
        nodes.push(node);
        let mut ids: Vec<BlockId> = Vec::new();
        ids.push(id);
        let mut ps: Vec<Vec<usize>> = Vec::new();
        ps.push(Vec::new());
        let mut tp: Vec<usize> = Vec::new();
        tp.push(0);
        proof {
            assert(ps@[0]@ =~= Seq::<usize>::empty());
            assert(ints(ps@[0]@) =~= Seq::<int>::empty());
            assert(int_lists(ps@) =~= seq![Seq::<int>::empty()]);
            assert(ints(tp@) =~= seq![0int]);
        }
        let reach = Reachability::build_from(ids, &ps, &tp);
        let mut tips: Vec<BlockId> = Vec::new();
        tips.push(id);
        let dag = Dag { k, genesis: id, nodes, tips, reach, validator: None };
        proof {
            let ns = dag.nodes@;
            assert(ns.subrange(0, 0) =~= Seq::<DagNode>::empty());
            assert(ids_of(ns) =~= seq![id]);
            assert(graph_of(ns) =~= seq![Seq::<int>::empty()]);
            assert(tree_of(ns) =~= seq![0int]);
            assert(ints(ns[0].blues@) =~= Seq::<int>::empty());
            assert(sizes_of(ns[0].blue_sizes@) =~= Seq::<int>::empty());
            assert(ids_at(Seq::<DagNode>::empty(), ints(ns[0].mblues@)) =~= Seq::<BlockId>::empty());
            assert(ids_at(Seq::<DagNode>::empty(), ints(ns[0].mreds@)) =~= Seq::<BlockId>::empty());
            assert(node_ok(ns.subrange(0, 0), ns[0], k as int));
            assert forall|x: BlockId| #[trigger] dag.tips@.contains(x) <==> dag.is_tip_spec(x) by {
                if dag.tips@.contains(x) {
                    assert(dag.tips@[0] == x);
                    assert(childless(dag.graph(), 0));
                }
                if dag.is_tip_spec(x) {
                    assert(dag.tips@[0] == x);
                }
            }
        }
        dag
    }

    /// Create a DAG as [`Dag::new`] but with a [`BlockValidator`] installed, so
    /// every subsequent [`Dag::insert`] must pass `validator`. The genesis block
    /// itself is not validated.
    pub fn with_validator(k: KParam, genesis: Block, validator: Box<dyn BlockValidator>) -> (dag: Dag)
        requires
            genesis.parents_view().len() == 0,
        ensures
            dag.inv(),
            dag.k_view() == k,
            dag.ids() == seq![genesis.spec_id()],
            dag.block_at(0) == genesis,
            genesis_ghostdag(dag.ghostdag_at(0)),
            dag.has_validator(),
            forall|b: Block, p: BlockPreview| #[trigger] dag.verdict_on(b, p) == validator.verdict(b, p),
    {
        let mut dag = Self::new(k, genesis);
        let ghost v = validator;
        let installed = Some(validator);
        dag.validator = installed;
        proof {
            assert forall|b: Block, p: BlockPreview| #[trigger] dag.verdict_on(b, p) == v.verdict(b, p) by {
                assert(dag.validator == Some(v));
            }
        }
        dag
    }

    /// Whether a validator is installed.
    pub closed spec fn has_validator(&self) -> bool {
        self.validator is Some
    }

    /// The installed validator's verdict on `block` with the preview `p`;
    /// `Ok(())` when no validator is installed.
    pub closed spec fn verdict_on(&self, block: Block, p: BlockPreview) -> Result<(), String> {
        match self.validator {
            Some(v) => v.verdict(block, p),
            None => Ok(()),
        }
    }

    /// Install (or replace) the block validator run on every [`Dag::insert`].
    pub fn set_validator(&mut self, validator: Box<dyn BlockValidator>)
        requires
            old(self).inv(),
        ensures
            final(self).inv(),
            final(self).has_validator(),
            final(self).same_blocks(*old(self)),
            forall|b: Block, p: BlockPreview| #[trigger] final(self).verdict_on(b, p) == validator.verdict(b, p),
    {
        let ghost v = validator;
        let installed = Some(validator);
        self.validator = installed;
        proof {
            assert forall|b: Block, p: BlockPreview| #[trigger] self.verdict_on(b, p) == v.verdict(b, p) by {
                assert(self.validator == Some(v));
            }
        }
    }

    /// The two stores hold the same blocks with the same derived data.
    pub closed spec fn same_blocks(&self, other: Dag) -> bool {
        &&& self.k == other.k
        &&& self.nodes@ == other.nodes@
        &&& self.tips@ == other.tips@
        &&& self.genesis == other.genesis
        &&& self.reach == other.reach
    }

    /// The GHOSTDAG `k` parameter.
    pub fn k(&self) -> (r: KParam)
        ensures
            r == self.k_view(),
    {
        self.k
    }

    /// The genesis block id.
    pub fn genesis(&self) -> (r: BlockId)
        requires
            self.inv(),
        ensures
            r == self.ids()[0],
    {
        self.genesis
    }

    /// Number of blocks in the DAG (including genesis).
    pub fn len(&self) -> (r: usize)
        ensures
            r == self.ids().len(),
    {
        self.nodes.len()
    }

    /// Whether the DAG only contains genesis.
    pub fn is_empty(&self) -> (r: bool)
        ensures
            r == (self.ids().len() <= 1),
    {
        self.nodes.len() <= 1
    }

    /// The position of `id`, if present.
    pub(crate) fn position_of(&self, id: BlockId) -> (r: Option<usize>)
        requires
            self.inv(),
        ensures
            r matches Some(i) ==> i < self.ids().len() && self.ids()[i as int] == id && self.pos(id) == i,
            r is None <==> !self.has(id),
    {
        let r = position(self.reach.ids(), id);
        proof {
            if let Some(i) = r {
                self.lemma_pos(id, i as int);
            } else {
                if self.has(id) {
                    let j = choose|j: int| 0 <= j < self.ids().len() && self.ids()[j] == id;
                }
            }
        }
        r
    }

    /// Whether a block is present.
    pub fn contains(&self, id: &BlockId) -> (r: bool)
        requires
            self.inv(),
        ensures
            r == self.has(*id),
    {
        self.position_of(*id).is_some()
    }

    /// The current tips (blocks with no children), sorted by id.
    pub fn tips(&self) -> (r: Vec<BlockId>)
        requires
            self.inv(),
        ensures
            r@ == self.tips_view(),
            forall|a: int, b: int| 0 <= a < b < r@.len() ==> (#[trigger] r@[a]).0 < (#[trigger] r@[b]).0,
            forall|x: BlockId| #[trigger] r@.contains(x) <==> self.is_tip_spec(x),
    {
        let mut r: Vec<BlockId> = Vec::new();
        let mut i: usize = 0;
        while i < self.tips.len()
            invariant
                i <= self.tips@.len(),
                r@ == self.tips@.subrange(0, i as int),
            decreases self.tips@.len() - i,
        {
            r.push(self.tips[i]);
            proof {
                assert(r@ =~= self.tips@.subrange(0, i + 1));
            }
            i = i + 1;
        }
        proof {
            assert(r@ =~= self.tips@);
        }
        r
    }

    /// Borrow a stored block.
    pub fn block(&self, id: &BlockId) -> (r: Option<&Block>)
        requires
            self.inv(),
        ensures
            r is Some <==> self.has(*id),
            r matches Some(b) ==> *b == self.block_at(self.pos(*id)),
    {
        match self.position_of(*id) {
            Some(i) => Some(&self.nodes[i].block),
            None => None,
        }
    }

    /// The block stored at position `i` (insertion order).
    pub(crate) fn block_by_pos(&self, i: usize) -> (r: &Block)
        requires
            i < self.ids().len(),
        ensures
            *r == self.block_at(i as int),
    {
        &self.nodes[i].block
    }

    /// Borrow the GHOSTDAG data derived for a block.
    pub fn ghostdag(&self, id: &BlockId) -> (r: Option<&GhostdagData>)
        requires
            self.inv(),
        ensures
            r is Some <==> self.has(*id),
            r matches Some(g) ==> *g == self.ghostdag_at(self.pos(*id)),
    {
        match self.position_of(*id) {
            Some(i) => Some(&self.nodes[i].ghostdag),
            None => None,
        }
    }

    /// Whether position `a` is a strict ancestor of position `b`.
    pub(crate) fn is_ancestor_at(&self, a: usize, b: usize) -> (r: bool)
        requires
            self.inv(),
            a < self.ids().len(),
            b < self.ids().len(),
        ensures
            r == anc(self.graph(), a as int, b as int),
    {
        self.reach.is_ancestor_at(a, b)
    }

    /// `true` iff `ancestor` is a strict ancestor of `descendant` (i.e.
    /// `ancestor` is in `descendant`'s past). `false` for equal ids.
    pub fn is_ancestor(&self, ancestor: &BlockId, descendant: &BlockId) -> (r: bool)
        requires
            self.inv(),
        ensures
            r == self.is_ancestor_spec(*ancestor, *descendant),
    {
        self.reach.is_ancestor(ancestor, descendant)
    }

    /// `true` iff `a` and `b` are in each other's anticone: distinct blocks
    /// where neither is an ancestor of the other (they are "parallel").
    pub fn in_anticone(&self, a: &BlockId, b: &BlockId) -> (r: bool)
        requires
            self.inv(),
        ensures
            r == self.in_anticone_spec(*a, *b),
    {
        a.0 != b.0 && !self.is_ancestor(a, b) && !self.is_ancestor(b, a)
    }
}

/// The parents a stored block names are the blocks at its parent positions.
pub proof fn lemma_parents_view(dag: &Dag, i: int)
    requires
        dag.inv(),
        0 <= i < dag.ids().len(),
    ensures
        dag.block_at(i).parents_view().len() == dag.graph()[i].len(),
        forall|j: int| 0 <= j < dag.graph()[i].len() ==> 0 <= #[trigger] dag.graph()[i][j] < i,
        forall|j: int| 0 <= j < dag.graph()[i].len() ==> #[trigger] dag.block_at(i).parents_view()[j] == dag.ids()[dag.graph()[i][j]],
        dag.block_at(i).spec_id() == dag.ids()[i],
{
    dag.reveal_inv();
    lemma_node_ok_at(dag, i);
    let ns = dag.nodes@;
    let nd = ns[i];
    assert forall|j: int| 0 <= j < dag.graph()[i].len() implies #[trigger] dag.block_at(i).parents_view()[j] == dag.ids()[dag.graph()[i][j]] by {
        assert(dag.graph()[i][j] == nd.parents@[j] as int);
        assert(ns.subrange(0, i)[nd.parents@[j] as int] == ns[nd.parents@[j] as int]);
    }
}

/// The stored facts about the node at position `i`.
pub(crate) proof fn lemma_node_ok_at(dag: &Dag, i: int)
    requires
        dag.inv_core(),
        0 <= i < dag.nodes@.len(),
    ensures
        node_ok(dag.nodes@.subrange(0, i), dag.nodes@[i], dag.k as int),
        forall|j: int| 0 <= j < dag.nodes@[i].blues@.len() ==> #[trigger] dag.nodes@[i].blues@[j] < i,
        dag.nodes@[i].blue_sizes@.len() == dag.nodes@[i].blues@.len(),
{
    assert(node_ok(dag.nodes@.subrange(0, i), dag.nodes@[i], dag.k as int));
}

/// Facts about the block at position `s` in the whole DAG `ns`: its blue set
/// lies in its past, is duplicate-free and a k-cluster, and its past has
/// exactly `past_size` members.
pub(crate) proof fn lemma_stored_facts(ns: Seq<DagNode>, k: int, s: int)
    requires
        forall|i: int| 0 <= i < ns.len() ==> #[trigger] node_ok(ns.subrange(0, i), ns[i], k),
        wf_graph(graph_of(ns)),
        0 <= s < ns.len(),
    ensures
        forall|j: int| 0 <= j < ns[s].blues@.len() ==> #[trigger] anc(graph_of(ns), ns[s].blues@[j] as int, s),
        forall|j: int| 0 <= j < ns[s].blues@.len() ==> 0 <= #[trigger] ns[s].blues@[j] < s,
        ints(ns[s].blues@).no_duplicates(),
        k_cluster(graph_of(ns), ints(ns[s].blues@), sizes_of(ns[s].blue_sizes@), k),
        past_set(graph_of(ns), s).finite(),
        past_set(graph_of(ns), s).len() == ns[s].past_size,
        past_set(graph_of(ns), s).subset_of(vstd::set_lib::set_int_range(0, s)),
{
    let g = graph_of(ns);
    let pre = ns.subrange(0, s);
    let nd = ns[s];
    assert(node_ok(pre, nd, k));
    let gs = graph_of(pre);
    let gs1 = graph_of(pre.push(nd));
    assert(gs =~= g.subrange(0, s));
    assert(gs1 =~= g.subrange(0, s + 1));
    let bl = ints(nd.blues@);
    assert forall|j: int| 0 <= j < nd.blues@.len() implies 0 <= #[trigger] nd.blues@[j] < s by {}
    assert forall|a: int| #[trigger] past_set(g, s).contains(a) == past_set(gs1, s).contains(a) by {
        lemma_anc_extend(gs1, g, a, s);
    }
    assert(past_set(g, s) =~= past_set(gs1, s));
    assert forall|a: int| past_set(g, s).contains(a) implies #[trigger] vstd::set_lib::set_int_range(0, s).contains(a) by {
        lemma_anc_lt(g, a, s);
    }
    vstd::set_lib::lemma_int_range(0, s);
    vstd::set_lib::lemma_len_subset(past_set(g, s), vstd::set_lib::set_int_range(0, s));
    if s == 0 {
        assert(past_set(g, 0) =~= Set::<int>::empty()) by {
            assert forall|a: int| !past_set(g, 0).contains(a) by {
                if anc(g, a, 0) {
                    lemma_anc_lt(g, a, 0);
                }
            }
        }
    } else {
        assert forall|j: int| 0 <= j < nd.blues@.len() implies #[trigger] anc(g, nd.blues@[j] as int, s) by {
            assert(bl[j] == nd.blues@[j] as int);
            assert(anc(gs1, bl[j], s));
            lemma_anc_extend(gs1, g, bl[j], s);
        }
    }
    let sz = sizes_of(nd.blue_sizes@);
    assert forall|j: int| 0 <= j < bl.len() implies #[trigger] sz[j] == acount(g, bl, bl[j]) by {
        assert(sz[j] == acount(gs, bl, bl[j]));
        assert forall|t: int| 0 <= t < bl.len() implies 0 <= #[trigger] bl[t] < gs.len() by {
            assert(bl[t] == nd.blues@[t] as int);
        }
        lemma_acount_extend(gs, g, bl, bl[j]);
    }
}

/// A strict ancestor has a strictly smaller past.
pub(crate) proof fn lemma_anc_past_size(ns: Seq<DagNode>, k: int, y: int, x: int)
    requires
        forall|i: int| 0 <= i < ns.len() ==> #[trigger] node_ok(ns.subrange(0, i), ns[i], k),
        wf_graph(graph_of(ns)),
        0 <= x < ns.len(),
        anc(graph_of(ns), y, x),
    ensures
        ns[y].past_size < ns[x].past_size,
{
    let g = graph_of(ns);
    lemma_anc_lt(g, y, x);
    lemma_stored_facts(ns, k, x);
    lemma_stored_facts(ns, k, y);
    let px = past_set(g, x);
    let py = past_set(g, y);
    assert forall|a: int| py.contains(a) implies #[trigger] px.remove(y).contains(a) by {
        lemma_anc_trans(g, a, y, x);
        if a == y {
            lemma_anc_lt(g, a, y);
        }
    }
    assert(px.contains(y));
    vstd::set_lib::lemma_len_subset(py, px.remove(y));
}

/// The past of a new block with parents `ps`, selected parent `s` and
/// mergeset `ms` is the selected parent's past, the selected parent, and the
/// mergeset, disjointly; so it has `past_size(s) + 1 + |ms|` members.
pub(crate) proof fn lemma_past_of_new(ns: Seq<DagNode>, ps: Seq<int>, s: int, ms: Seq<int>, k: int)
    requires
        forall|i: int| 0 <= i < ns.len() ==> #[trigger] node_ok(ns.subrange(0, i), ns[i], k),
        wf_graph(graph_of(ns)),
        forall|j: int| 0 <= j < ps.len() ==> 0 <= #[trigger] ps[j] < ns.len(),
        is_selected(ns, ps, s),
        mergeset_ok(ns, ps, s, ms),
    ensures
        past_set(graph_of(ns).push(ps), ns.len() as int).finite(),
        past_set(graph_of(ns).push(ps), ns.len() as int).len() == ns[s].past_size + 1 + ms.len(),
        ns[s].past_size + 1 + ms.len() <= ns.len(),
        ms.no_duplicates(),
{
    let n = ns.len() as int;
    let g = graph_of(ns);
    let g2 = graph_of(ns).push(ps);
    assert(0 <= s < n) by {
        let j = choose|j: int| 0 <= j < ps.len() && ps[j] == s;
    }
    assert forall|i: int| 0 <= i < n implies g2[i] == g[i] by {}
    assert(g2[n] == ps);
    lemma_stored_facts(ns, k, s);
    let psp = past_set(g, s);
    let m = ms.to_set();
    assert(ms.no_duplicates()) by {
        assert forall|a: int, b: int| 0 <= a < ms.len() && 0 <= b < ms.len() && a != b implies ms[a] != ms[b] by {
            if a < b {
                assert(ms_lt(ns, ms[a], ms[b]));
            } else {
                assert(ms_lt(ns, ms[b], ms[a]));
            }
        }
    }
    ms.unique_seq_to_set();
    assert forall|x: int| #[trigger] past_set(g2, n).contains(x) == (psp.insert(s) + m).contains(x) by {
        lemma_anc_unfold(g2, x, n);
        assert forall|j: int| 0 <= j < ps.len() implies #[trigger] anc(g2, x, ps[j]) == anc(g, x, ps[j]) by {
            lemma_anc_extend(g, g2, x, ps[j]);
        }
        if anc(g2, x, n) {
            let j = choose|j: int| 0 <= j < g2[n].len() && 0 <= #[trigger] g2[n][j] < n && (g2[n][j] == x || anc(g2, x, g2[n][j]));
            assert(ps[j] == g2[n][j]);
            assert(anc(g2, x, ps[j]) == anc(g, x, ps[j]));
            assert(ps[j] == x || anc(g, x, ps[j]));
            assert(in_past_of(g, ps, x));
            if x != ps[j] {
                lemma_anc_lt(g, x, ps[j]);
            }
            if x != s && !anc(g, x, s) {
                assert(in_mergeset(g, ps, s, x));
                assert(ms.contains(x));
            }
        }
        if (psp.insert(s) + m).contains(x) {
            let js = choose|j: int| 0 <= j < ps.len() && ps[j] == s;
            if x == s {
                assert(g2[n][js] == x);
            } else if psp.contains(x) {
                assert(anc(g2, x, g2[n][js]));
            } else {
                assert(ms.contains(x));
                assert(in_mergeset(g, ps, s, x));
                let j = choose|j: int| 0 <= j < ps.len() && (ps[j] == x || #[trigger] anc(g, x, ps[j]));
                assert(g2[n][j] == ps[j]);
            }
        }
    }
    assert(past_set(g2, n) =~= psp.insert(s) + m);
    assert(!psp.contains(s)) by {
        if anc(g, s, s) {
            lemma_anc_lt(g, s, s);
        }
    }
    assert(psp.insert(s).len() == psp.len() + 1);
    assert(psp.insert(s).disjoint(m)) by {
        assert forall|x: int| psp.insert(s).contains(x) implies !m.contains(x) by {
            if m.contains(x) {
                assert(ms.contains(x));
                assert(in_mergeset(g, ps, s, x));
            }
        }
    }
    vstd::set_lib::lemma_set_disjoint_lens(psp.insert(s), m);
    assert forall|x: int| past_set(g2, n).contains(x) implies #[trigger] vstd::set_lib::set_int_range(0, n).contains(x) by {
        lemma_anc_lt(g2, x, n);
    }
    vstd::set_lib::lemma_int_range(0, n);
    vstd::set_lib::lemma_len_subset(past_set(g2, n), vstd::set_lib::set_int_range(0, n));
}

/// A block that is a parent, or an ancestor of a parent, of a new block is
/// an ancestor of it.
pub(crate) proof fn lemma_in_past_anc(g: Seq<Seq<int>>, ps: Seq<int>, x: int)
    requires
        wf_graph(g),
        forall|j: int| 0 <= j < ps.len() ==> 0 <= #[trigger] ps[j] < g.len(),
        in_past_of(g, ps, x),
    ensures
        anc(g.push(ps), x, g.len() as int),
{
    let n = g.len() as int;
    let g2 = g.push(ps);
    let t = choose|t: int| #![trigger ps[t]] 0 <= t < ps.len() && (ps[t] == x || anc(g, x, ps[t]));
    assert(g2[n] == ps);
    assert(wf_graph(g2)) by {
        assert forall|i: int, j: int| 0 <= i < g2.len() && 0 <= j < g2[i].len() implies 0 <= #[trigger] g2[i][j] < i by {
            if i < n {
                assert(g2[i] == g[i]);
            }
        }
    }
    lemma_anc_parent(g2, n, t);
    if ps[t] != x {
        lemma_anc_extend(g, g2, x, ps[t]);
        lemma_anc_trans(g2, x, ps[t], n);
    }
}

/// A duplicate-free list of positions below `n` has at most `n` entries.
pub(crate) proof fn lemma_distinct_positions_len(xs: Seq<int>, n: int)
    requires
        xs.no_duplicates(),
        n >= 0,
        forall|j: int| 0 <= j < xs.len() ==> 0 <= #[trigger] xs[j] < n,
    ensures
        xs.len() <= n,
{
    xs.unique_seq_to_set();
    assert forall|x: int| xs.to_set().contains(x) implies #[trigger] vstd::set_lib::set_int_range(0, n).contains(x) by {}
    vstd::set_lib::lemma_int_range(0, n);
    vstd::set_lib::lemma_len_subset(xs.to_set(), vstd::set_lib::set_int_range(0, n));
}

impl Dag {
    /// The ids of the blocks at positions `xs`.
    pub(crate) fn ids_at_positions(&self, xs: &Vec<usize>) -> (r: Vec<BlockId>)
        requires
            forall|j: int| 0 <= j < xs@.len() ==> #[trigger] xs@[j] < self.nodes@.len(),
        ensures
            r@ == ids_at(self.nodes@, ints(xs@)),
    {
        let mut r: Vec<BlockId> = Vec::new();
        let mut i: usize = 0;
        while i < xs.len()
            invariant
                i <= xs@.len(),
                forall|j: int| 0 <= j < xs@.len() ==> #[trigger] xs@[j] < self.nodes@.len(),
                r@ == ids_at(self.nodes@, ints(xs@)).subrange(0, i as int),
            decreases xs@.len() - i,
        {
            r.push(self.nodes[xs[i]].id);
            proof {
                assert(r@ =~= ids_at(self.nodes@, ints(xs@)).subrange(0, i + 1));
            }
            i = i + 1;
        }
        proof {
            assert(r@ =~= ids_at(self.nodes@, ints(xs@)));
        }
        r
    }

    /// `(id, size)` for every blue.
    fn anticone_pairs(&self, blues: &Vec<usize>, sizes: &Vec<u16>) -> (r: Vec<(BlockId, KParam)>)
        requires
            sizes@.len() == blues@.len(),
            forall|j: int| 0 <= j < blues@.len() ==> #[trigger] blues@[j] < self.nodes@.len(),
        ensures
            r@.len() == blues@.len(),
            forall|j: int| 0 <= j < blues@.len() ==> #[trigger] r@[j] == (self.nodes@[blues@[j] as int].id, sizes@[j]),
    {
        let mut r: Vec<(BlockId, KParam)> = Vec::new();
        let mut i: usize = 0;
        while i < blues.len()
            invariant
                i <= blues@.len(),
                sizes@.len() == blues@.len(),
                forall|j: int| 0 <= j < blues@.len() ==> #[trigger] blues@[j] < self.nodes@.len(),
                r@.len() == i,
                forall|j: int| 0 <= j < i ==> #[trigger] r@[j] == (self.nodes@[blues@[j] as int].id, sizes@[j]),
            decreases blues@.len() - i,
        {
            r.push((self.nodes[blues[i]].id, sizes[i]));
            i = i + 1;
        }
        r
    }

    /// `blue_work(sp) + work(sp) + Σ work(mergeset blues)`, saturating.
    fn blue_work_of(&self, sp: usize, mblues: &Vec<usize>) -> (r: u128)
        requires
            sp < self.nodes@.len(),
            forall|j: int| 0 <= j < mblues@.len() ==> #[trigger] mblues@[j] < self.nodes@.len(),
        ensures
            r == sat128(self.nodes@[sp as int].ghostdag.blue_work + self.nodes@[sp as int].block.work_view()
                + work_sum(self.nodes@, ints(mblues@))),
    {
        let ghost ns = self.nodes@;
        let ghost base = ns[sp as int].ghostdag.blue_work + ns[sp as int].block.work_view();
        let mut acc = self.nodes[sp].ghostdag.blue_work.saturating_add(self.nodes[sp].block.work());
        let mut i: usize = 0;
        proof {
            assert(ints(mblues@).subrange(0, 0) =~= Seq::<int>::empty());
        }
        while i < mblues.len()
            invariant
                i <= mblues@.len(),
                ns == self.nodes@,
                forall|j: int| 0 <= j < mblues@.len() ==> #[trigger] mblues@[j] < self.nodes@.len(),
                acc == sat128(base + work_sum(ns, ints(mblues@).subrange(0, i as int))),
            decreases mblues@.len() - i,
        {
            let w = self.nodes[mblues[i]].block.work();
            proof {
                let s1 = ints(mblues@).subrange(0, i + 1);
                assert(s1.drop_last() =~= ints(mblues@).subrange(0, i as int));
                assert(s1.last() == mblues@[i as int] as int);
            }
            acc = acc.saturating_add(w);
            i = i + 1;
        }
        proof {
            assert(ints(mblues@).subrange(0, mblues@.len() as int) =~= ints(mblues@));
        }
        acc
    }

    /// Derive the stored node for `block`, whose parents sit at positions
    /// `ps`, with selected parent `sp` and ordered mergeset `ms`.
    fn make_node(&self, block: Block, id: BlockId, ps: Vec<usize>, sp: usize, ms: Vec<usize>) -> (nd: DagNode)
        requires
            self.inv_core(),
            id == block.spec_id(),
            ps@.len() > 0,
            ps@.len() == block.parents_view().len(),
            forall|j: int| 0 <= j < ps@.len() ==> #[trigger] ps@[j] < self.nodes@.len(),
            forall|j: int| 0 <= j < ps@.len() ==> block.parents_view()[j] == self.nodes@[#[trigger] ps@[j] as int].id,
            sp < self.nodes@.len(),
            is_selected(self.nodes@, ints(ps@), sp as int),
            mergeset_ok(self.nodes@, ints(ps@), sp as int, ints(ms@)),
        ensures
            node_ok(self.nodes@, nd, self.k as int),
            nd.block == block,
            nd.id == id,
            nd.parents@ == ps@,
            nd.selected == sp,
    {
        let ghost ns = self.nodes@;
        let ghost n = ns.len() as int;
        let ghost g = graph_of(ns);
        let ghost k = self.k as int;
        let ghost p = ints(ps@);
        let ghost m = ints(ms@);
        proof {
            assert forall|j: int| 0 <= j < ms@.len() implies #[trigger] ms@[j] < self.nodes@.len() by {
                assert(m[j] == ms@[j] as int);
            }
            lemma_stored_facts(ns, k, sp as int);
        }
        let (blues, sizes, mblues, mreds) = self.color(sp, &ms);
        let ghost spn = ns[sp as int];
        let ghost start = color_start(ints(spn.blues@), sizes_of(spn.blue_sizes@), sp as int);
        let ghost col = color_all(g, start, m, k);
        proof {
            let bl = ints(spn.blues@);
            let sz = sizes_of(spn.blue_sizes@);
            assert forall|j: int| 0 <= j < bl.len() implies #[trigger] anc(g, bl[j], sp as int) by {
                assert(bl[j] == spn.blues@[j] as int);
            }
            // the starting blue set is duplicate-free
            assert(start.blues.no_duplicates()) by {
                assert forall|a: int, b: int| 0 <= a < start.blues.len() && 0 <= b < start.blues.len() && a != b implies start.blues[a] != start.blues[b] by {
                    if a < bl.len() && b < bl.len() {
                    } else if a < bl.len() {
                        assert(bl[a] < sp) by { assert(bl[a] == spn.blues@[a] as int); }
                    } else {
                        assert(bl[b] < sp) by { assert(bl[b] == spn.blues@[b] as int); }
                    }
                }
            }
            assert forall|j: int| 0 <= j < p.len() implies 0 <= #[trigger] p[j] < n by {
                assert(p[j] == ps@[j] as int);
            }
            lemma_past_of_new(ns, p, sp as int, m, k);
            assert forall|x: int| #[trigger] m.contains(x) implies !start.blues.contains(x) by {
                assert(in_mergeset(g, p, sp as int, x));
                if start.blues.contains(x) {
                    let j = choose|j: int| 0 <= j < start.blues.len() && start.blues[j] == x;
                    if j < bl.len() {
                        assert(anc(g, bl[j], sp as int));
                    }
                }
            }
            // the starting sizes form a k-cluster
            assert(k_cluster(g, start.blues, start.sizes, k)) by {
                lemma_acount_all_ancestors(g, bl, sp as int);
                assert forall|j: int| 0 <= j < start.blues.len() implies #[trigger] start.sizes[j] == acount(g, start.blues, start.blues[j]) && 0 <= start.sizes[j] <= k by {
                    assert(start.blues.drop_last() =~= bl);
                    if j < bl.len() {
                        assert(start.blues[j] == bl[j]);
                        assert(start.sizes[j] == sz[j]);
                        assert(anc(g, bl[j], sp as int));
                    } else {
                        assert(start.blues[j] == sp as int);
                        assert(start.sizes[j] == 0);
                    }
                }
            }
            lemma_color_all_facts(g, start, m, k);
        }
        let bw = self.blue_work_of(sp, &mblues);
        let ghost bln = ints(blues@);
        proof {
            assert forall|j: int| 0 <= j < bln.len() implies 0 <= #[trigger] bln[j] < n by {
                assert(bln[j] == blues@[j] as int);
            }
            lemma_distinct_positions_len(bln, n);
        }
        let n_exec = self.nodes.len();
        assert(self.nodes@[sp as int].past_size + 1 + ms@.len() <= n_exec);
        let past_size = self.nodes[sp].past_size + 1 + ms.len() as u64;
        let ghostdag = GhostdagData {
            selected_parent: Some(self.nodes[sp].id),
            mergeset_blues: self.ids_at_positions(&mblues),
            mergeset_reds: self.ids_at_positions(&mreds),
            blue_score: blues.len() as u64,
            blue_work: bw,
            blue_anticone_sizes: self.anticone_pairs(&blues, &sizes),
        };
        let nd = DagNode { block, id, parents: ps, selected: sp, mergeset: ms, blues, blue_sizes: sizes, mblues, mreds, past_size, ghostdag };
        proof {
            let g2 = graph_of(ns.push(nd));
            assert(ns.push(nd).subrange(0, n) =~= ns);
            assert(g2 =~= g.push(p));
            assert forall|i: int| 0 <= i < n implies g2[i] == g[i] by {}
            assert(g2[n] == p);
            let js = choose|j: int| 0 <= j < p.len() && p[j] == sp as int;
            assert(anc(g2, sp as int, n)) by {
                assert(ps@[js] < n);
                lemma_anc_parent(g2, n, js);
            }
            assert forall|j: int| 0 <= j < bln.len() implies #[trigger] anc(g2, bln[j], n) by {
                let x = bln[j];
                if j < spn.blues@.len() {
                    assert(x == spn.blues@[j] as int);
                    assert(anc(g, x, sp as int));
                    lemma_anc_extend(g, g2, x, sp as int);
                    lemma_anc_trans(g2, x, sp as int, n);
                } else if j == spn.blues@.len() {
                    assert(x == sp as int);
                } else {
                    assert(col.mblues[j - spn.blues@.len() - 1] == x);
                    assert(col.mblues.contains(x));
                    assert(m.contains(x));
                    assert(in_mergeset(g, p, sp as int, x));
                    lemma_in_past_anc(g, p, x);
                }
            }
            assert(nd.ghostdag.mergeset_blues@ == ids_at(ns, ints(nd.mblues@)));
            assert forall|j: int| 0 <= j < nd.blues@.len() implies #[trigger] nd.ghostdag.blue_anticone_sizes@[j] == (
                ns[nd.blues@[j] as int].id,
                nd.blue_sizes@[j],
            ) by {}
            assert forall|j: int| 0 <= j < nd.blues@.len() implies 0 <= #[trigger] nd.blues@[j] < n by {
                assert(bln[j] == nd.blues@[j] as int);
            }
            assert(node_ok(ns, nd, k));
        }
        nd
    }
}

impl Dag {
    /// The first of `ps[j..]` that is not a block of the DAG.
    pub open spec fn missing_parent(&self, ps: Seq<BlockId>, j: int) -> Option<BlockId>
        decreases ps.len() - j,
    {
        if j < 0 || j >= ps.len() {
            None
        } else if !self.has(ps[j]) {
            Some(ps[j])
        } else {
            self.missing_parent(ps, j + 1)
        }
    }

    /// The structural reason `block` cannot join the DAG, checked in this
    /// order: already present, no parents, a parent not present.
    pub open spec fn structural_error(&self, block: Block) -> Option<DagError> {
        self.structural_error_of(block.spec_id(), block.parents_view())
    }

    /// The structural reason a block with id `id` and parents `parents`
    /// cannot join the DAG, as for [`Dag::structural_error`].
    pub open spec fn structural_error_of(&self, id: BlockId, parents: Seq<BlockId>) -> Option<DagError> {
        if self.has(id) {
            Some(DagError::DuplicateBlock(id))
        } else if parents.len() == 0 {
            Some(DagError::NoParents(id))
        } else {
            match self.missing_parent(parents, 0) {
                Some(p) => Some(DagError::MissingParent(p)),
                None => None,
            }
        }
    }

    /// The structural checks of `preview` and `insert`; on success the block's
    /// id and the positions of its parents.
    fn check_structure(&self, block: &Block) -> (r: Result<(BlockId, Vec<usize>), DagError>)
        requires
            self.inv(),
        ensures
            match r {
                Ok((id, ps)) => {
                    &&& self.structural_error(*block) is None
                    &&& id == block.spec_id()
                    &&& ps@.len() == block.parents_view().len()
                    &&& forall|j: int| 0 <= j < ps@.len() ==> #[trigger] ps@[j] < self.ids().len()
                    &&& forall|j: int| 0 <= j < ps@.len() ==> block.parents_view()[j] == self.ids()[#[trigger] ps@[j] as int]
                },
                Err(e) => self.structural_error(*block) == Some(e),
            },
    {
        let id = block.id();
        if self.contains(&id) {
            return Err(DagError::DuplicateBlock(id));
        }
        let parents = block.parents();
        if parents.len() == 0 {
            return Err(DagError::NoParents(id));
        }
        let ghost pv = block.parents_view();
        let mut ps: Vec<usize> = Vec::new();
        let mut j: usize = 0;
        while j < parents.len()
            invariant
                self.inv(),
                parents@ == pv,
                pv == block.parents_view(),
                !self.has(id),
                id == block.spec_id(),
                pv.len() > 0,
                j <= pv.len(),
                ps@.len() == j,
                forall|t: int| 0 <= t < j ==> #[trigger] ps@[t] < self.ids().len(),
                forall|t: int| 0 <= t < j ==> pv[t] == self.ids()[#[trigger] ps@[t] as int],
                self.missing_parent(pv, 0) == self.missing_parent(pv, j as int),
            decreases pv.len() - j,
        {
            match self.position_of(parents[j]) {
                Some(i) => {
                    ps.push(i);
                },
                None => {
                    proof {
                        assert(self.missing_parent(pv, j as int) == Some(pv[j as int]));
                        assert(!self.has(id));
                        assert(pv.len() > 0);
                        assert(self.structural_error(*block) == Some(DagError::MissingParent(pv[j as int])));
                    }
                    return Err(DagError::MissingParent(parents[j]));
                },
            }
            j = j + 1;
        }
        Ok((id, ps))
    }

    /// The tips after adding block `id` whose parents sit at positions `ps`:
    /// the old tips minus those parents, plus `id`, sorted by id.
    fn updated_tips(&self, ps: &Vec<usize>, id: BlockId) -> (r: Vec<BlockId>)
        requires
            self.inv_core(),
            !ids_of(self.nodes@).contains(id),
            forall|j: int| 0 <= j < ps@.len() ==> #[trigger] ps@[j] < self.nodes@.len(),
        ensures
            forall|a: int, b: int| 0 <= a < b < r@.len() ==> (#[trigger] r@[a]).0 < (#[trigger] r@[b]).0,
            forall|x: BlockId| #[trigger] r@.contains(x) <==> (x == id || (self.tips@.contains(x)
                && forall|j: int| 0 <= j < ps@.len() ==> self.nodes@[#[trigger] ps@[j] as int].id != x)),
    {
        let ghost ns = self.nodes@;
        let mut r: Vec<BlockId> = Vec::new();
        let mut i: usize = 0;
        while i < self.tips.len()
            invariant
                self.inv_core(),
                ns == self.nodes@,
                i <= self.tips@.len(),
                forall|j: int| 0 <= j < ps@.len() ==> #[trigger] ps@[j] < self.nodes@.len(),
                forall|a: int, b: int| 0 <= a < b < r@.len() ==> (#[trigger] r@[a]).0 < (#[trigger] r@[b]).0,
                forall|a: int| 0 <= a < r@.len() ==> exists|t: int| 0 <= t < i && self.tips@[t] == #[trigger] r@[a],
                forall|x: BlockId| #[trigger] r@.contains(x) <==> (self.tips@.subrange(0, i as int).contains(x)
                    && forall|j: int| 0 <= j < ps@.len() ==> ns[#[trigger] ps@[j] as int].id != x),
            decreases self.tips@.len() - i,
        {
            let t = self.tips[i];
            let mut is_parent = false;
            let mut j: usize = 0;
            while j < ps.len()
                invariant
                    j <= ps@.len(),
                    ns == self.nodes@,
                    forall|q: int| 0 <= q < ps@.len() ==> #[trigger] ps@[q] < self.nodes@.len(),
                    is_parent == exists|q: int| 0 <= q < j && ns[#[trigger] ps@[q] as int].id == t,
                decreases ps@.len() - j,
            {
                if self.nodes[ps[j]].id.0 == t.0 {
                    is_parent = true;
                }
                j = j + 1;
            }
            let ghost before = r@;
            if !is_parent {
                r.push(t);
                proof {
                    assert forall|a: int| 0 <= a < before.len() implies (#[trigger] r@[a]).0 < t.0 by {
                        let q = choose|q: int| 0 <= q < i && self.tips@[q] == before[a];
                        assert(self.tips@[q].0 < self.tips@[i as int].0);
                    }
                }
            }
            proof {
                assert(self.tips@.subrange(0, i + 1) =~= self.tips@.subrange(0, i as int).push(t));
                assert forall|a: int| 0 <= a < r@.len() implies exists|q: int| 0 <= q < i + 1 && self.tips@[q] == #[trigger] r@[a] by {
                    if a < before.len() {
                        assert(r@[a] == before[a]);
                        let q = choose|q: int| 0 <= q < i && self.tips@[q] == before[a];
                    } else {
                        assert(self.tips@[i as int] == r@[a]);
                    }
                }
                assert(!before.contains(t)) by {
                    if before.contains(t) {
                        let a = choose|a: int| 0 <= a < before.len() && before[a] == t;
                        let q = choose|q: int| 0 <= q < i && self.tips@[q] == before[a];
                        assert(self.tips@[q].0 < self.tips@[i as int].0);
                    }
                }
                assert(is_parent == !(forall|q: int| 0 <= q < ps@.len() ==> ns[#[trigger] ps@[q] as int].id != t));
                assert forall|x: BlockId| #[trigger] r@.contains(x) <==> (self.tips@.subrange(0, i + 1).contains(x)
                    && forall|q: int| 0 <= q < ps@.len() ==> ns[#[trigger] ps@[q] as int].id != x) by {
                    assert(self.tips@.subrange(0, i + 1).contains(x) <==> (self.tips@.subrange(0, i as int).contains(x) || x == t)) by {
                        let s1 = self.tips@.subrange(0, i + 1);
                        let s0 = self.tips@.subrange(0, i as int);
                        assert(s1 =~= s0.push(t));
                        if s1.contains(x) {
                            let a = choose|a: int| 0 <= a < s1.len() && #[trigger] s1[a] == x;
                            if a < i {
                                assert(s0[a] == x);
                            }
                        }
                        if s0.contains(x) {
                            let a = choose|a: int| 0 <= a < s0.len() && #[trigger] s0[a] == x;
                            assert(s1[a] == x);
                        }
                        if x == t {
                            assert(s1[i as int] == x);
                        }
                    }
                    if !is_parent {
                        assert(r@ == before.push(t));
                        assert(r@.contains(x) <==> (before.contains(x) || x == t)) by {
                            if r@.contains(x) && x != t {
                                let a = choose|a: int| 0 <= a < r@.len() && r@[a] == x;
                                assert(before[a] == x);
                            }
                            if before.contains(x) {
                                let a = choose|a: int| 0 <= a < before.len() && before[a] == x;
                                assert(r@[a] == x);
                            }
                            if x == t {
                                assert(r@[r@.len() - 1] == x);
                            }
                        }
                    } else {
                        assert(r@ == before);
                    }
                }
            }
            i = i + 1;
        }
        proof {
            assert(self.tips@.subrange(0, self.tips@.len() as int) =~= self.tips@);
            assert(!r@.contains(id)) by {
                if r@.contains(id) {
                    assert(self.tips@.contains(id));
                    assert(tip_by_id(ids_of(ns), graph_of(ns), id));
                    let q = choose|q: int| 0 <= q < ids_of(ns).len() && #[trigger] ids_of(ns)[q] == id && childless(graph_of(ns), q);
                }
            }
        }
        // insert `id` at its sorted position
        let mut idx: usize = 0;
        while idx < r.len() && r[idx].0 < id.0
            invariant
                idx <= r@.len(),
                forall|a: int| 0 <= a < idx ==> (#[trigger] r@[a]).0 < id.0,
            decreases r@.len() - idx,
        {
            idx = idx + 1;
        }
        let ghost before = r@;
        proof {
            assert forall|a: int| idx <= a < before.len() implies id.0 < (#[trigger] before[a]).0 by {
                assert(before[idx as int].0 >= id.0);
                assert(before[idx as int] != id) by {
                    assert(before.contains(before[idx as int]));
                }
                if a > idx {
                    assert(before[idx as int].0 < before[a].0);
                }
            }
        }
        r.insert(idx, id);
        proof {
            let after = r@;
            assert(after =~= before.insert(idx as int, id));
            assert forall|a: int, b: int| 0 <= a < b < after.len() implies (#[trigger] after[a]).0 < (#[trigger] after[b]).0 by {
                if b < idx {
                    assert(after[a] == before[a] && after[b] == before[b]);
                } else if b == idx {
                    assert(after[a] == before[a]);
                } else if a < idx {
                    assert(after[a] == before[a] && after[b] == before[b - 1]);
                } else if a == idx {
                    assert(after[b] == before[b - 1]);
                } else {
                    assert(after[a] == before[a - 1] && after[b] == before[b - 1]);
                }
            }
            assert forall|x: BlockId| #[trigger] after.contains(x) <==> (x == id || before.contains(x)) by {
                if after.contains(x) {
                    let j = choose|j: int| 0 <= j < after.len() && after[j] == x;
                    if j < idx {
                        assert(before[j] == x);
                    } else if j > idx {
                        assert(before[j - 1] == x);
                    }
                }
                if before.contains(x) {
                    let j = choose|j: int| 0 <= j < before.len() && before[j] == x;
                    if j < idx {
                        assert(after[j] == x);
                    } else {
                        assert(after[j + 1] == x);
                    }
                }
                if x == id {
                    assert(after[idx as int] == x);
                }
            }
        }
        r
    }
}

impl Dag {
    /// `p` is the GHOSTDAG view a block with `block`'s parents gets in this
    /// DAG: its selected parent is the parent with the largest chain key
    /// `(blue_work, blue_score, id)`, and its mergeset is
    /// `past(block) \ (past(sp) ∪ {sp})` in `(past_size, id)` order.
    pub closed spec fn preview_spec(&self, block: Block, p: BlockPreview) -> bool {
        let ns = self.nodes@;
        exists|ps: Seq<int>, sp: int, ms: Seq<int>|
            #![trigger is_selected(ns, ps, sp), mergeset_ok(ns, ps, sp, ms)]
            ps.len() == block.parents_view().len() && (forall|j: int|
                0 <= j < ps.len() ==> 0 <= #[trigger] ps[j] < ns.len() && ns[ps[j]].id
                    == block.parents_view()[j]) && is_selected(ns, ps, sp) && mergeset_ok(ns, ps, sp, ms)
                && p.selected_parent == ns[sp].id && p.mergeset@ == ids_at(ns, ms)
    }

    /// The selected parent and ordered mergeset a block with `block`'s parents
    /// would get, for the validator and for `preview`.
    fn view_for(&self, block: &Block, ps: &Vec<usize>) -> (r: (usize, Vec<usize>, BlockPreview))
        requires
            self.inv(),
            ps@.len() > 0,
            ps@.len() == block.parents_view().len(),
            forall|j: int| 0 <= j < ps@.len() ==> #[trigger] ps@[j] < self.ids().len(),
            forall|j: int| 0 <= j < ps@.len() ==> block.parents_view()[j] == self.ids()[#[trigger] ps@[j] as int],
        ensures
            r.0 < self.ids().len(),
            is_selected(self.nodes@, ints(ps@), r.0 as int),
            mergeset_ok(self.nodes@, ints(ps@), r.0 as int, ints(r.1@)),
            self.preview_spec(*block, r.2),
    {
        let sp = self.select_parent(ps);
        let ms = self.mergeset_ordered(sp, ps);
        proof {
            assert forall|j: int| 0 <= j < ms@.len() implies #[trigger] ms@[j] < self.nodes@.len() by {
                assert(ints(ms@)[j] == ms@[j] as int);
            }
        }
        let preview = BlockPreview { selected_parent: self.nodes[sp].id, mergeset: self.ids_at_positions(&ms) };
        proof {
            let p = ints(ps@);
            assert forall|j: int| 0 <= j < p.len() implies 0 <= #[trigger] p[j] < self.nodes@.len() && self.nodes@[p[j]].id
                == block.parents_view()[j] by {
                assert(p[j] == ps@[j] as int);
            }
        }
        (sp, ms, preview)
    }

    /// Preview the GHOSTDAG selected parent and mergeset a block would get if
    /// it were inserted with `block`'s parents, without inserting it. Runs the
    /// same structural checks as [`Dag::insert`].
    pub fn preview(&self, block: &Block) -> (r: Result<BlockPreview, DagError>)
        requires
            self.inv(),
        ensures
            match self.structural_error(*block) {
                Some(e) => r == Err::<BlockPreview, DagError>(e),
                None => r matches Ok(p) && self.preview_spec(*block, p),
            },
    {
        let (_id, ps) = match self.check_structure(block) {
            Ok(x) => x,
            Err(e) => {
                return Err(e);
            },
        };
        let (_sp, _ms, preview) = self.view_for(block, &ps);
        Ok(preview)
    }

    /// The blocks and derived data at positions below `old`'s length are
    /// `old`'s, unchanged.
    pub closed spec fn extends(&self, old: Dag) -> bool {
        &&& self.k == old.k
        &&& self.genesis == old.genesis
        &&& self.nodes@.len() >= old.nodes@.len()
        &&& forall|i: int| 0 <= i < old.nodes@.len() ==> #[trigger] self.nodes@[i] == old.nodes@[i]
    }

    /// Every stored block's id is the id of its contents.
    pub proof fn lemma_block_ids(&self)
        requires
            self.inv(),
        ensures
            forall|i: int| 0 <= i < self.ids().len() ==> #[trigger] self.block_at(i).spec_id() == self.ids()[i],
    {
        assert forall|i: int| 0 <= i < self.ids().len() implies #[trigger] self.block_at(i).spec_id() == self.ids()[i] by {
            assert(node_ok(self.nodes@.subrange(0, i), self.nodes@[i], self.k as int));
        }
    }

    /// The genesis block, at position 0, names no parents.
    pub proof fn lemma_genesis_no_parents(&self)
        requires
            self.inv(),
        ensures
            self.ids().len() >= 1,
            self.block_at(0).parents_view().len() == 0,
    {
        assert(node_ok(self.nodes@.subrange(0, 0), self.nodes@[0], self.k as int));
    }

    /// A store that extends `old` holds `old`'s blocks at their positions.
    pub proof fn lemma_extends_blocks(&self, old: Dag)
        requires
            self.extends(old),
            old.ids().len() <= self.ids().len(),
        ensures
            forall|i: int| 0 <= i < old.ids().len() ==> #[trigger] self.block_at(i) == old.block_at(i),
            self.k_view() == old.k_view(),
    {
    }

    /// A preview tells what inserting gives: once a block whose preview in
    /// this DAG was `p` has been added, its selected parent is `p`'s, one of
    /// its parents, and its mergeset blues and reds together are exactly
    /// `p`'s mergeset, each block on one side.
    pub proof fn lemma_preview_matches_insert(&self, new: &Dag, b: Block, p: BlockPreview)
        requires
            self.inv(),
            new.inv(),
            self.preview_spec(b, p),
            new.extends(*self),
            new.ids() == self.ids().push(b.spec_id()),
            new.block_at(self.ids().len() as int) == b,
        ensures
            ({
                let gd = new.ghostdag_at(self.ids().len() as int);
                &&& gd.selected_parent == Some(p.selected_parent)
                &&& b.parents_view().contains(p.selected_parent)
                &&& forall|x: BlockId|
                    #![trigger p.mergeset@.contains(x)]
                    #![trigger gd.mergeset_blues@.contains(x)]
                    #![trigger gd.mergeset_reds@.contains(x)]
                    p.mergeset@.contains(x) <==> (gd.mergeset_blues@.contains(x) || gd.mergeset_reds@.contains(x))
                &&& forall|x: BlockId| !(#[trigger] gd.mergeset_blues@.contains(x) && gd.mergeset_reds@.contains(x))
                &&& p.mergeset@.len() == gd.mergeset_blues@.len() + gd.mergeset_reds@.len()
            }),
    {
        self.reveal_inv();
        new.reveal_inv();
        let ns = self.nodes@;
        let n = ns.len() as int;
        let k = self.k as int;
        assert(new.ids().len() == n + 1);
        assert(new.nodes@.len() == n + 1);
        assert(new.nodes@.subrange(0, n) =~= ns);
        let nd = new.nodes@[n];
        assert(node_ok(new.nodes@.subrange(0, n), nd, new.k as int));
        assert(node_ok(ns, nd, k));
        let (ps, sp, ms) = choose|ps: Seq<int>, sp: int, ms: Seq<int>|
            #![trigger is_selected(ns, ps, sp), mergeset_ok(ns, ps, sp, ms)]
            ps.len() == b.parents_view().len() && (forall|j: int|
                0 <= j < ps.len() ==> 0 <= #[trigger] ps[j] < ns.len() && ns[ps[j]].id
                    == b.parents_view()[j]) && is_selected(ns, ps, sp) && mergeset_ok(ns, ps, sp, ms)
                && p.selected_parent == ns[sp].id && p.mergeset@ == ids_at(ns, ms);
        let psn = ints(nd.parents@);
        assert(nd.block == b);
        assert(psn =~= ps) by {
            assert forall|j: int| 0 <= j < ps.len() implies psn[j] == ps[j] by {
                assert(ns[nd.parents@[j] as int].id == b.parents_view()[j]);
                assert(ids_of(ns)[nd.parents@[j] as int] == ids_of(ns)[ps[j]]);
            }
        }
        let s = nd.selected as int;
        assert(is_selected(ns, ps, s));
        if s != sp {
            let j1 = choose|j: int| 0 <= j < ps.len() && ps[j] == s;
            let j2 = choose|j: int| 0 <= j < ps.len() && ps[j] == sp;
            assert(!key_lt(ns, s, ps[j2]));
            assert(!key_lt(ns, sp, ps[j1]));
            assert(ids_of(ns)[s] != ids_of(ns)[sp]);
        }
        let msn = ints(nd.mergeset@);
        assert(mergeset_ok(ns, ps, s, msn));
        crate::replay::lemma_sorted_unique(ns, msn, ms);
        let st = color_start(ints(ns[s].blues@), sizes_of(ns[s].blue_sizes@), s);
        let col = color_all(graph_of(ns), st, ms, k);
        assert(ms.no_duplicates()) by {
            assert forall|a: int, c: int| 0 <= a < ms.len() && 0 <= c < ms.len() && a != c implies ms[a] != ms[c] by {
                if a < c {
                    assert(ms_lt(ns, ms[a], ms[c]));
                } else {
                    assert(ms_lt(ns, ms[c], ms[a]));
                }
            }
        }
        lemma_color_split(graph_of(ns), st, ms, k);
        let gd = nd.ghostdag;
        assert(new.ghostdag_at(n) == gd);
        assert(gd.mergeset_blues@ == ids_at(ns, col.mblues));
        assert(gd.mergeset_reds@ == ids_at(ns, col.mreds));
        let j1 = choose|j: int| 0 <= j < ps.len() && ps[j] == sp;
        assert(b.parents_view()[j1] == p.selected_parent);
        assert(b.parents_view().contains(p.selected_parent));
        assert forall|j: int| 0 <= j < col.mblues.len() implies 0 <= #[trigger] col.mblues[j] < n by {
            assert(ints(nd.mblues@)[j] == nd.mblues@[j] as int);
        }
        assert forall|j: int| 0 <= j < col.mreds.len() implies 0 <= #[trigger] col.mreds[j] < n by {
            assert(ints(nd.mreds@)[j] == nd.mreds@[j] as int);
        }
        assert forall|x: BlockId|
            #![trigger p.mergeset@.contains(x)]
            #![trigger gd.mergeset_blues@.contains(x)]
            #![trigger gd.mergeset_reds@.contains(x)]
            p.mergeset@.contains(x) <==> (gd.mergeset_blues@.contains(x) || gd.mergeset_reds@.contains(x)) by {
            if p.mergeset@.contains(x) {
                let j = choose|j: int| 0 <= j < p.mergeset@.len() && p.mergeset@[j] == x;
                let y = ms[j];
                assert(ms.contains(y));
                if col.mblues.contains(y) {
                    let t = choose|t: int| 0 <= t < col.mblues.len() && col.mblues[t] == y;
                    assert(gd.mergeset_blues@[t] == x);
                } else {
                    let t = choose|t: int| 0 <= t < col.mreds.len() && col.mreds[t] == y;
                    assert(gd.mergeset_reds@[t] == x);
                }
            }
            if gd.mergeset_blues@.contains(x) {
                let t = choose|t: int| 0 <= t < gd.mergeset_blues@.len() && gd.mergeset_blues@[t] == x;
                let y = col.mblues[t];
                assert(col.mblues.contains(y));
                let j = choose|j: int| 0 <= j < ms.len() && ms[j] == y;
                assert(p.mergeset@[j] == x);
            }
            if gd.mergeset_reds@.contains(x) {
                let t = choose|t: int| 0 <= t < gd.mergeset_reds@.len() && gd.mergeset_reds@[t] == x;
                let y = col.mreds[t];
                assert(col.mreds.contains(y));
                let j = choose|j: int| 0 <= j < ms.len() && ms[j] == y;
                assert(p.mergeset@[j] == x);
            }
        }
        assert forall|x: BlockId| !(#[trigger] gd.mergeset_blues@.contains(x) && gd.mergeset_reds@.contains(x)) by {
            if gd.mergeset_blues@.contains(x) && gd.mergeset_reds@.contains(x) {
                let t1 = choose|t: int| 0 <= t < gd.mergeset_blues@.len() && gd.mergeset_blues@[t] == x;
                let t2 = choose|t: int| 0 <= t < gd.mergeset_reds@.len() && gd.mergeset_reds@[t] == x;
                let y1 = col.mblues[t1];
                let y2 = col.mreds[t2];
                assert(ids_of(ns)[y1] == ids_of(ns)[y2]);
                assert(col.mblues.contains(y1));
                assert(col.mreds.contains(y2));
            }
        }
    }

    /// A preview's mergeset is in topological order: no block in it comes
    /// after one of its own descendants; by past size, it never decreases.
    pub proof fn lemma_preview_topological(&self, b: Block, p: BlockPreview)
        requires
            self.inv(),
            self.preview_spec(b, p),
        ensures
            forall|a: int, c: int|
                0 <= a < c < p.mergeset@.len() ==> !self.is_ancestor_spec(#[trigger] p.mergeset@[c], #[trigger] p.mergeset@[a]),
            forall|a: int, c: int|
                0 <= a < c < p.mergeset@.len() ==> self.past_size_at(self.pos(#[trigger] p.mergeset@[a])) <= self.past_size_at(
                    self.pos(#[trigger] p.mergeset@[c]),
                ),
            forall|a: int, c: int|
                0 <= a < c < p.mergeset@.len() && self.past_size_at(self.pos(#[trigger] p.mergeset@[a])) == self.past_size_at(
                    self.pos(#[trigger] p.mergeset@[c]),
                ) ==> p.mergeset@[a].0 < p.mergeset@[c].0,
    {
        self.reveal_inv();
        let ns = self.nodes@;
        let k = self.k as int;
        let (ps, sp, ms) = choose|ps: Seq<int>, sp: int, ms: Seq<int>|
            #![trigger is_selected(ns, ps, sp), mergeset_ok(ns, ps, sp, ms)]
            ps.len() == b.parents_view().len() && (forall|j: int|
                0 <= j < ps.len() ==> 0 <= #[trigger] ps[j] < ns.len() && ns[ps[j]].id
                    == b.parents_view()[j]) && is_selected(ns, ps, sp) && mergeset_ok(ns, ps, sp, ms)
                && p.selected_parent == ns[sp].id && p.mergeset@ == ids_at(ns, ms);
        assert forall|a: int, c: int|
            0 <= a < c < p.mergeset@.len() implies !self.is_ancestor_spec(#[trigger] p.mergeset@[c], #[trigger] p.mergeset@[a])
            && self.past_size_at(self.pos(p.mergeset@[a])) <= self.past_size_at(self.pos(p.mergeset@[c])) && (self.past_size_at(
            self.pos(p.mergeset@[a]),
        ) == self.past_size_at(self.pos(p.mergeset@[c])) ==> p.mergeset@[a].0 < p.mergeset@[c].0) by {
            let x = ms[a];
            let y = ms[c];
            assert(ms_lt(ns, x, y));
            self.lemma_pos(p.mergeset@[a], x);
            self.lemma_pos(p.mergeset@[c], y);
            if self.is_ancestor_spec(p.mergeset@[c], p.mergeset@[a]) {
                let (i, j) = choose|i: int, j: int|
                    0 <= i < self.ids().len() && 0 <= j < self.ids().len() && self.ids()[i] == p.mergeset@[c] && self.ids()[j]
                        == p.mergeset@[a] && #[trigger] anc(self.graph(), i, j);
                assert(i == y && j == x);
                lemma_anc_past_size(ns, k, y, x);
            }
        }
    }

    /// Insert `block`, validating and colouring it. Returns its id.
    ///
    /// Fails if the block is a duplicate, has no parents, references a missing
    /// parent, or is rejected by the installed [`BlockValidator`]; a failed
    /// insert leaves the DAG unchanged.
    pub fn insert(&mut self, block: Block) -> (r: Result<BlockId, DagError>)
        requires
            old(self).inv(),
        ensures
            final(self).inv(),
            final(self).has_validator() == old(self).has_validator(),
            match r {
                Ok(id) => {
                    &&& old(self).structural_error(block) is None
                    &&& id == block.spec_id()
                    &&& final(self).ids() == old(self).ids().push(id)
                    &&& final(self).block_at(old(self).ids().len() as int) == block
                    &&& final(self).extends(*old(self))
                },
                Err(e) => {
                    &&& final(self).same_blocks(*old(self))
                    &&& match old(self).structural_error(block) {
                        Some(se) => e == se,
                        None => old(self).has_validator() && (e matches DagError::InvalidBlock { id, .. } && id
                            == block.spec_id()),
                    }
                },
            },
            old(self).structural_error(block) is None && !old(self).has_validator() ==> r is Ok,
            old(self).structural_error(block) is None ==> exists|p: BlockPreview|
                #[trigger] old(self).preview_spec(block, p) && match old(self).verdict_on(block, p) {
                    Ok(()) => r is Ok,
                    Err(reason) => r == Err::<BlockId, DagError>(DagError::InvalidBlock { id: block.spec_id(), reason }),
                },
    {
        let (id, ps) = match self.check_structure(&block) {
            Ok(x) => x,
            Err(e) => {
                return Err(e);
            },
        };
        let (sp, ms, preview) = self.view_for(&block, &ps);
        match &self.validator {
            Some(v) => {
                match v.validate(&block, &preview) {
                    Ok(()) => {},
                    Err(reason) => {
                        return Err(DagError::InvalidBlock { id, reason });
                    },
                }
            },
            None => {},
        }
        proof {
            self.reveal_inv();
        }
        let ghost ns = self.nodes@;
        let ghost n = ns.len() as int;
        let ghost old_dag = *self;
        let node = self.make_node(block, id, ps, sp, ms);
        let tips = self.updated_tips(&node.parents, id);
        self.nodes.push(node);
        self.tips = tips;
        let (ids, pl, tp) = self.structure();
        let ghost ns2 = self.nodes@;
        proof {
            let g = graph_of(ns);
            let g2 = graph_of(ns2);
            let nd = ns2[n];
            let p = ints(nd.parents@);
            assert(ns2 == ns.push(nd));
            assert(g2 =~= g.push(p));
            assert forall|i: int| 0 <= i < ns2.len() implies #[trigger] node_ok(ns2.subrange(0, i), ns2[i], self.k as int) by {
                if i < n {
                    assert(ns2.subrange(0, i) =~= ns.subrange(0, i));
                    assert(node_ok(ns.subrange(0, i), ns[i], self.k as int));
                } else {
                    assert(ns2.subrange(0, i) =~= ns);
                }
            }
            assert(ids_of(ns2) =~= ids_of(ns).push(id));
            assert(distinct_ids(ids_of(ns2))) by {
                assert forall|a: int, b: int| 0 <= a < ids_of(ns2).len() && 0 <= b < ids_of(ns2).len() && a != b implies ids_of(ns2)[a] != ids_of(ns2)[b] by {
                    if a == n {
                        assert(ids_of(ns)[b] != id);
                    } else if b == n {
                        assert(ids_of(ns)[a] != id);
                    }
                }
            }
            assert(wf_graph(g2)) by {
                assert forall|i: int, j: int| 0 <= i < g2.len() && 0 <= j < g2[i].len() implies 0 <= #[trigger] g2[i][j] < i by {
                    if i == n {
                        assert(p[j] == nd.parents@[j] as int);
                    } else {
                        assert(g2[i] == g[i]);
                    }
                }
            }
            assert(tree_of(ns2) =~= tree_of(ns).push(sp as int));
            assert(wf_tree(tree_of(ns2)));
            assert(tree_in_graph(g2, tree_of(ns2))) by {
                assert forall|i: int| 0 < i < tree_of(ns2).len() implies #[trigger] g2[i].contains(tree_of(ns2)[i]) by {
                    if i == n {
                        assert(p.contains(sp as int));
                    } else {
                        assert(g2[i] == g[i]);
                    }
                }
            }
            // tips: the old tips that are not parents of the new block, plus it
            assert forall|x: BlockId| #[trigger] self.tips@.contains(x) <==> tip_by_id(ids_of(ns2), g2, x) by {
                if tip_by_id(ids_of(ns2), g2, x) {
                    let i = choose|i: int| 0 <= i < ids_of(ns2).len() && #[trigger] ids_of(ns2)[i] == x && childless(g2, i);
                    if i < n {
                        assert(childless(g, i)) by {
                            assert forall|c: int, j: int| 0 <= c < g.len() && 0 <= j < g[c].len() implies #[trigger] g[c][j] != i by {
                                assert(g2[c] == g[c]);
                                assert(g2[c][j] != i);
                            }
                        }
                        assert(tip_by_id(ids_of(ns), g, x));
                        assert forall|j: int| 0 <= j < nd.parents@.len() implies ns[#[trigger] nd.parents@[j] as int].id != x by {
                            assert(g2[n][j] == p[j]);
                            assert(p[j] != i);
                            assert(p[j] == nd.parents@[j] as int);
                            assert(ids_of(ns)[p[j]] != ids_of(ns)[i]);
                        }
                    }
                }
                if self.tips@.contains(x) {
                    if x == id {
                        assert(ids_of(ns2)[n] == x);
                        assert(childless(g2, n)) by {
                            assert forall|c: int, j: int| 0 <= c < g2.len() && 0 <= j < g2[c].len() implies #[trigger] g2[c][j] != n by {}
                        }
                    } else {
                        assert(old_dag.tips@.contains(x));
                        assert(tip_by_id(ids_of(ns), g, x));
                        let i = choose|i: int| 0 <= i < ids_of(ns).len() && #[trigger] ids_of(ns)[i] == x && childless(g, i);
                        assert(ids_of(ns2)[i] == x);
                        assert(childless(g2, i)) by {
                            assert forall|c: int, j: int| 0 <= c < g2.len() && 0 <= j < g2[c].len() implies #[trigger] g2[c][j] != i by {
                                if c == n {
                                    assert(p[j] == nd.parents@[j] as int);
                                    assert(ns[nd.parents@[j] as int].id != x);
                                } else {
                                    assert(g2[c] == g[c]);
                                }
                            }
                        }
                    }
                }
            }
            lemma_inv_shape_raw(ns2, g2, tree_of(ns2));
        }
        self.reach = Reachability::build_from(ids, &pl, &tp);
        proof {
            assert(self.nodes@ == ns2);
            assert forall|i: int| 0 <= i < n implies #[trigger] self.nodes@[i] == old_dag.nodes@[i] by {}
            assert(self.nodes@[n].block == block);
        }
        Ok(id)
    }
}

/// Nothing to prove: names the facts `build_from` needs.
proof fn lemma_inv_shape_raw(ns: Seq<DagNode>, g: Seq<Seq<int>>, t: Seq<int>)
    requires
        g == graph_of(ns),
        t == tree_of(ns),
    ensures
        g.len() == ns.len(),
        t.len() == ns.len(),
{
}

/// A copy of a list of positions.
pub(crate) fn copy_positions(v: &Vec<usize>) -> (r: Vec<usize>)
    ensures
        r@ == v@,
{
    let mut r: Vec<usize> = Vec::new();
    let mut i: usize = 0;
    while i < v.len()
        invariant
            i <= v@.len(),
            r@ == v@.subrange(0, i as int),
        decreases v@.len() - i,
    {
        r.push(v[i]);
        proof {
            assert(r@ =~= v@.subrange(0, i + 1));
        }
        i = i + 1;
    }
    proof {
        assert(r@ =~= v@);
    }
    r
}

} // verus!
