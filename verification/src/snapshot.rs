//! Ledger snapshots: a compact replay log of the blocks in the order they
//! were added (a topological order), behind the GHOSTDAG parameter and the
//! subsidy. Loading a snapshot adds the blocks again one by one, so every
//! consensus and UTXO fact is recomputed rather than trusted from the bytes.
//!
//! Layout, all integers little-endian: `k` (2 bytes), subsidy (8), block
//! count (8), then per block: parent count (8), the parent ids (8 each),
//! work (16), payload length (8) and the payload.
use vstd::prelude::*;

use crate::block::{encode_ids, Block, BlockId};
use crate::bytes::{le_bytes, le_value, lemma_le_bytes_len, lemma_le_bytes_value, lemma_le_roundtrip_exact, lemma_le_value_bound, lemma_pow256_values, push_le, read_le};
use crate::dag::{Dag, KParam};
use crate::ledger::{block_outcome, block_spec, Ledger, LedgerError, LedgerInsertError};
use crate::payload::{copy_range, decoded};
use crate::tx::DecodeError;

verus! {

/// One block of a snapshot: what it takes to add the block again.
pub struct SnapBlock {
    pub parents: Seq<BlockId>,
    pub work: u128,
    pub payload: Seq<u8>,
}

/// What a snapshot records.
pub struct SnapView {
    pub k: KParam,
    pub subsidy: u64,
    pub blocks: Seq<SnapBlock>,
}

/// The snapshot record of a block.
pub open spec fn snap_of(b: Block) -> SnapBlock {
    SnapBlock { parents: b.parents_view(), work: b.work_view(), payload: b.payload_view() }
}

/// The snapshot records of a list of blocks.
pub open spec fn snaps_of(bs: Seq<Block>) -> Seq<SnapBlock> {
    Seq::new(bs.len(), |i: int| snap_of(bs[i]))
}

/// The blocks of `dag`, in the order they were added.
pub open spec fn dag_blocks(dag: Dag) -> Seq<SnapBlock> {
    Seq::new(dag.ids().len(), |i: int| snap_of(dag.block_at(i)))
}

/// What a snapshot of `l` records.
pub open spec fn ledger_snap(l: Ledger) -> SnapView {
    SnapView { k: l.dag_view().k_view(), subsidy: l.subsidy_view(), blocks: dag_blocks(l.dag_view()) }
}

// ---------------------------------------------------------------------------
// The encoding.

/// The bytes of one block record.
pub open spec fn entry_bytes(b: SnapBlock) -> Seq<u8> {
    le_bytes(b.parents.len(), 8) + encode_ids(b.parents) + le_bytes(b.work as nat, 16) + le_bytes(b.payload.len(), 8)
        + b.payload
}

/// The bytes of a list of block records, one after the other.
pub open spec fn entries_bytes(bs: Seq<SnapBlock>) -> Seq<u8>
    decreases bs.len(),
{
    if bs.len() == 0 {
        Seq::empty()
    } else {
        entry_bytes(bs[0]) + entries_bytes(bs.subrange(1, bs.len() as int))
    }
}

/// The bytes of a snapshot.
pub open spec fn snapshot_bytes(v: SnapView) -> Seq<u8> {
    le_bytes(v.k as nat, 2) + le_bytes(v.subsidy as nat, 8) + le_bytes(v.blocks.len(), 8) + entries_bytes(v.blocks)
}

/// Every count of `v` fits the eight bytes the layout gives it.
pub open spec fn snap_fits(v: SnapView) -> bool {
    &&& v.blocks.len() < 0x1_0000_0000_0000_0000
    &&& forall|i: int|
        0 <= i < v.blocks.len() ==> (#[trigger] v.blocks[i]).parents.len() < 0x1_0000_0000_0000_0000
            && v.blocks[i].payload.len() < 0x1_0000_0000_0000_0000
}

// ---------------------------------------------------------------------------
// The decoding.

/// The little-endian value of `s[a..b]`.
pub open spec fn word(s: Seq<u8>, a: int, b: int) -> nat {
    le_value(s.subrange(a, b))
}

/// The block record starting at `pos` and the position after it, if the
/// bytes hold one there.
pub open spec fn entry_at(s: Seq<u8>, pos: int) -> Option<(SnapBlock, int)> {
    if pos < 0 || pos + 8 > s.len() {
        None
    } else {
        let np = word(s, pos, pos + 8) as int;
        let q = pos + 8 + 8 * np;
        if q + 24 > s.len() {
            None
        } else {
            let pl = word(s, q + 16, q + 24) as int;
            let end = q + 24 + pl;
            if end > s.len() {
                None
            } else {
                Some(
                    (
                        SnapBlock {
                            parents: Seq::new(np as nat, |j: int| BlockId(word(s, pos + 8 + 8 * j, pos + 16 + 8 * j) as u64)),
                            work: word(s, q, q + 16) as u128,
                            payload: s.subrange(q + 24, end),
                        },
                        end,
                    ),
                )
            }
        }
    }
}

/// `n` block records starting at `pos` and ending exactly at the end of
/// `s`, if the bytes hold them.
pub open spec fn entries_at(s: Seq<u8>, pos: int, n: nat) -> Option<Seq<SnapBlock>>
    decreases n,
{
    if n == 0 {
        if pos == s.len() {
            Some(Seq::empty())
        } else {
            None
        }
    } else {
        match entry_at(s, pos) {
            None => None,
            Some((b, next)) => match entries_at(s, next, (n - 1) as nat) {
                None => None,
                Some(rest) => Some(seq![b] + rest),
            },
        }
    }
}

/// The snapshot `s` holds, if it is one.
pub open spec fn decode_snapshot(s: Seq<u8>) -> Option<SnapView> {
    if s.len() < 18 {
        None
    } else {
        match entries_at(s, 18, word(s, 10, 18)) {
            None => None,
            Some(bs) => Some(SnapView { k: word(s, 0, 2) as u16, subsidy: word(s, 2, 10) as u64, blocks: bs }),
        }
    }
}

// ---------------------------------------------------------------------------
// Decoding inverts encoding.

/// Appending a record appends its bytes.
pub proof fn lemma_entries_push(bs: Seq<SnapBlock>, b: SnapBlock)
    ensures
        entries_bytes(bs.push(b)) == entries_bytes(bs) + entry_bytes(b),
    decreases bs.len(),
{
    if bs.len() == 0 {
        let one = bs.push(b);
        assert(one.subrange(1, 1) =~= Seq::<SnapBlock>::empty());
        assert(one[0] == b);
        assert(entries_bytes(Seq::<SnapBlock>::empty()) == Seq::<u8>::empty());
        assert(entries_bytes(one) == entry_bytes(b) + entries_bytes(one.subrange(1, 1)));
        assert(entries_bytes(one) =~= entry_bytes(b));
        assert(entries_bytes(bs) == Seq::<u8>::empty());
    } else {
        let tail = bs.subrange(1, bs.len() as int);
        lemma_entries_push(tail, b);
        assert(bs.push(b).subrange(1, bs.len() as int + 1) =~= tail.push(b));
        assert(bs.push(b)[0] == bs[0]);
        assert(entries_bytes(bs.push(b)) =~= entries_bytes(bs) + entry_bytes(b));
    }
}

/// The encoding of a list of ids: eight bytes per id, id `j` at `8 * j`.
pub proof fn lemma_encode_ids_slot(ids: Seq<BlockId>)
    ensures
        encode_ids(ids).len() == 8 * ids.len(),
        forall|j: int|
            0 <= j < ids.len() ==> #[trigger] encode_ids(ids).subrange(8 * j, 8 * j + 8) == le_bytes(ids[j].0 as nat, 8),
    decreases ids.len(),
{
    if ids.len() > 0 {
        let init = ids.drop_last();
        lemma_encode_ids_slot(init);
        lemma_le_bytes_len(ids.last().0 as nat, 8);
        let e = encode_ids(ids);
        assert(e == encode_ids(init) + le_bytes(ids.last().0 as nat, 8));
        assert forall|j: int| 0 <= j < ids.len() implies #[trigger] e.subrange(8 * j, 8 * j + 8) == le_bytes(
            ids[j].0 as nat,
            8,
        ) by {
            if j < init.len() {
                assert(e.subrange(8 * j, 8 * j + 8) =~= encode_ids(init).subrange(8 * j, 8 * j + 8));
                assert(init[j] == ids[j]);
            } else {
                assert(e.subrange(8 * j, 8 * j + 8) =~= le_bytes(ids.last().0 as nat, 8));
            }
        }
    }
}

/// A record that fits is read back from wherever it stands.
#[verifier::rlimit(40)]
pub proof fn lemma_entry_at(s: Seq<u8>, pos: int, b: SnapBlock)
    requires
        0 <= pos,
        pos + entry_bytes(b).len() <= s.len(),
        s.subrange(pos, pos + entry_bytes(b).len()) == entry_bytes(b),
        b.parents.len() < 0x1_0000_0000_0000_0000,
        b.payload.len() < 0x1_0000_0000_0000_0000,
    ensures
        entry_at(s, pos) == Some((b, pos + entry_bytes(b).len())),
{
    let np = b.parents.len() as int;
    let pl = b.payload.len() as int;
    let e = entry_bytes(b);
    lemma_le_bytes_len(np as nat, 8);
    lemma_le_bytes_len(b.work as nat, 16);
    lemma_le_bytes_len(pl as nat, 8);
    lemma_encode_ids_slot(b.parents);
    lemma_pow256_values();
    let q = pos + 8 + 8 * np;
    assert(e.len() == 32 + 8 * np + pl);
    // Each field is read from its slot.
    assert(s.subrange(pos, pos + 8) =~= e.subrange(0, 8));
    assert(e.subrange(0, 8) =~= le_bytes(np as nat, 8));
    lemma_le_roundtrip_exact(np as nat, 8);
    assert(word(s, pos, pos + 8) == np);
    assert(s.subrange(q, q + 16) =~= le_bytes(b.work as nat, 16)) by {
        assert(s.subrange(q, q + 16) =~= e.subrange(8 + 8 * np, 24 + 8 * np));
    }
    lemma_le_roundtrip_exact(b.work as nat, 16);
    assert(s.subrange(q + 16, q + 24) =~= le_bytes(pl as nat, 8)) by {
        assert(s.subrange(q + 16, q + 24) =~= e.subrange(24 + 8 * np, 32 + 8 * np));
    }
    lemma_le_roundtrip_exact(pl as nat, 8);
    assert(s.subrange(q + 24, q + 24 + pl) =~= b.payload) by {
        assert(s.subrange(q + 24, q + 24 + pl) =~= e.subrange(32 + 8 * np, 32 + 8 * np + pl));
    }
    let ps = Seq::new(np as nat, |j: int| BlockId(word(s, pos + 8 + 8 * j, pos + 16 + 8 * j) as u64));
    assert forall|j: int| 0 <= j < np implies #[trigger] ps[j] == b.parents[j] by {
        let ids = encode_ids(b.parents);
        assert(s.subrange(pos + 8 + 8 * j, pos + 16 + 8 * j) =~= ids.subrange(8 * j, 8 * j + 8)) by {
            assert(s.subrange(pos + 8 + 8 * j, pos + 16 + 8 * j) =~= e.subrange(8 + 8 * j, 16 + 8 * j));
            assert(e.subrange(8 + 8 * j, 16 + 8 * j) =~= ids.subrange(8 * j, 8 * j + 8));
        }
        lemma_le_roundtrip_exact(b.parents[j].0 as nat, 8);
    }
    assert(ps =~= b.parents);
}

/// A list of records that fits is read back from wherever it stands, up to
/// the end of the bytes.
pub proof fn lemma_entries_at(s: Seq<u8>, pos: int, bs: Seq<SnapBlock>)
    requires
        0 <= pos <= s.len(),
        s.subrange(pos, s.len() as int) == entries_bytes(bs),
        forall|i: int|
            0 <= i < bs.len() ==> (#[trigger] bs[i]).parents.len() < 0x1_0000_0000_0000_0000
                && bs[i].payload.len() < 0x1_0000_0000_0000_0000,
    ensures
        entries_at(s, pos, bs.len()) == Some(bs),
    decreases bs.len(),
{
    if bs.len() == 0 {
        assert(s.subrange(pos, s.len() as int).len() == 0);
    } else {
        let b = bs[0];
        let tail = bs.subrange(1, bs.len() as int);
        let e = entry_bytes(b);
        let end = pos + e.len();
        assert(entries_bytes(bs) == e + entries_bytes(tail));
        assert(s.subrange(pos, end) =~= e) by {
            assert(s.subrange(pos, end) =~= s.subrange(pos, s.len() as int).subrange(0, e.len() as int));
        }
        lemma_entry_at(s, pos, b);
        assert(s.subrange(end, s.len() as int) =~= entries_bytes(tail)) by {
            assert(s.subrange(end, s.len() as int) =~= s.subrange(pos, s.len() as int).subrange(
                e.len() as int,
                (s.len() - pos) as int,
            ));
        }
        assert forall|i: int| 0 <= i < tail.len() implies (#[trigger] tail[i]).parents.len() < 0x1_0000_0000_0000_0000
            && tail[i].payload.len() < 0x1_0000_0000_0000_0000 by {
            assert(tail[i] == bs[i + 1]);
        }
        lemma_entries_at(s, end, tail);
        assert(seq![b] + tail =~= bs);
    }
}

/// Decoding a snapshot's bytes gives the snapshot back, whenever its counts
/// fit the layout.
pub proof fn lemma_snapshot_roundtrip(v: SnapView)
    requires
        snap_fits(v),
    ensures
        decode_snapshot(snapshot_bytes(v)) == Some(v),
{
    let s = snapshot_bytes(v);
    let n = v.blocks.len();
    lemma_le_bytes_len(v.k as nat, 2);
    lemma_le_bytes_len(v.subsidy as nat, 8);
    lemma_le_bytes_len(n, 8);
    lemma_pow256_values();
    assert(s.subrange(0, 2) =~= le_bytes(v.k as nat, 2));
    assert(s.subrange(2, 10) =~= le_bytes(v.subsidy as nat, 8));
    assert(s.subrange(10, 18) =~= le_bytes(n, 8));
    lemma_le_roundtrip_exact(v.k as nat, 2);
    lemma_le_roundtrip_exact(v.subsidy as nat, 8);
    lemma_le_roundtrip_exact(n, 8);
    assert(s.subrange(18, s.len() as int) =~= entries_bytes(v.blocks));
    lemma_entries_at(s, 18, v.blocks);
}

/// The record read at `pos` is exactly the bytes it spans.
#[verifier::rlimit(40)]
proof fn lemma_entry_at_bytes(s: Seq<u8>, pos: int)
    requires
        entry_at(s, pos) is Some,
    ensures
        ({
            let (b, end) = entry_at(s, pos)->0;
            &&& pos <= end <= s.len()
            &&& s.subrange(pos, end) == entry_bytes(b)
        }),
{
    let (b, end) = entry_at(s, pos)->0;
    let np = word(s, pos, pos + 8) as int;
    let q = pos + 8 + 8 * np;
    let pl = word(s, q + 16, q + 24) as int;
    lemma_pow256_values();
    lemma_le_bytes_value(s.subrange(pos, pos + 8));
    lemma_le_bytes_value(s.subrange(q, q + 16));
    lemma_le_bytes_value(s.subrange(q + 16, q + 24));
    lemma_le_value_bound(s.subrange(q, q + 16));
    assert(b.parents.len() == np);
    assert(b.payload.len() == pl);
    // The parent slots.
    lemma_encode_ids_slot(b.parents);
    let ids = encode_ids(b.parents);
    assert forall|t: int| 0 <= t < ids.len() implies #[trigger] ids[t] == s[pos + 8 + t] by {
        let j = t / 8;
        let k = t % 8;
        assert(0 <= j < np);
        assert(t == 8 * j + k);
        let slot = s.subrange(pos + 8 + 8 * j, pos + 16 + 8 * j);
        lemma_le_value_bound(slot);
        lemma_le_bytes_value(slot);
        assert(b.parents[j].0 as nat == le_value(slot));
        assert(ids.subrange(8 * j, 8 * j + 8) == le_bytes(b.parents[j].0 as nat, 8));
        assert(ids[t] == ids.subrange(8 * j, 8 * j + 8)[k]);
        assert(slot[k] == s[pos + 8 + t]);
    }
    assert(s.subrange(pos + 8, q) =~= ids);
    assert(s.subrange(pos, end) =~= s.subrange(pos, pos + 8) + s.subrange(pos + 8, q) + s.subrange(q, q + 16)
        + s.subrange(q + 16, q + 24) + s.subrange(q + 24, end));
    assert(s.subrange(pos, end) =~= entry_bytes(b));
}

/// The records read from `pos` to the end are exactly the bytes there.
proof fn lemma_entries_at_bytes(s: Seq<u8>, pos: int, n: nat)
    requires
        entries_at(s, pos, n) is Some,
    ensures
        0 <= pos <= s.len(),
        s.subrange(pos, s.len() as int) == entries_bytes(entries_at(s, pos, n)->0),
    decreases n,
{
    if n == 0 {
        assert(s.subrange(pos, s.len() as int) =~= Seq::<u8>::empty());
    } else {
        let (b, next) = entry_at(s, pos)->0;
        lemma_entry_at_bytes(s, pos);
        lemma_entries_at_bytes(s, next, (n - 1) as nat);
        let rest = entries_at(s, next, (n - 1) as nat)->0;
        let bs = seq![b] + rest;
        assert(bs[0] == b);
        assert(bs.subrange(1, bs.len() as int) =~= rest);
        assert(s.subrange(pos, s.len() as int) =~= s.subrange(pos, next) + s.subrange(next, s.len() as int));
    }
}

/// The format is canonical: bytes that decode are the encoding of what they
/// decode to.
pub proof fn lemma_snapshot_canonical(s: Seq<u8>)
    requires
        decode_snapshot(s) is Some,
    ensures
        snapshot_bytes(decode_snapshot(s)->0) == s,
{
    let v = decode_snapshot(s)->0;
    lemma_pow256_values();
    lemma_le_value_bound(s.subrange(0, 2));
    lemma_le_value_bound(s.subrange(2, 10));
    lemma_le_bytes_value(s.subrange(0, 2));
    lemma_le_bytes_value(s.subrange(2, 10));
    lemma_le_bytes_value(s.subrange(10, 18));
    lemma_entries_at_bytes(s, 18, word(s, 10, 18));
    // The block count is the number of records read.
    assert(v.blocks.len() == word(s, 10, 18)) by {
        lemma_entries_at_len(s, 18, word(s, 10, 18));
    }
    assert(s =~= s.subrange(0, 2) + s.subrange(2, 10) + s.subrange(10, 18) + s.subrange(18, s.len() as int));
}

/// Reading `n` records gives `n` records.
proof fn lemma_entries_at_len(s: Seq<u8>, pos: int, n: nat)
    requires
        entries_at(s, pos, n) is Some,
    ensures
        entries_at(s, pos, n)->0.len() == n,
    decreases n,
{
    if n > 0 {
        let (b, next) = entry_at(s, pos)->0;
        lemma_entries_at_len(s, next, (n - 1) as nat);
    }
}

// ---------------------------------------------------------------------------
// Writing.

/// Append the record of `b` to `out`.
fn push_entry(out: &mut Vec<u8>, b: &Block)
    ensures
        final(out)@ == old(out)@ + entry_bytes(snap_of(*b)),
{
    let ps = b.parents();
    push_le(out, ps.len() as u128, 8);
    let ghost head = out@;
    let mut i: usize = 0;
    while i < ps.len()
        invariant
            i <= ps@.len(),
            out@ == head + encode_ids(ps@.subrange(0, i as int)),
        decreases ps@.len() - i,
    {
        push_le(out, ps[i].0 as u128, 8);
        proof {
            let t = ps@.subrange(0, i + 1);
            assert(t.drop_last() =~= ps@.subrange(0, i as int));
            assert(out@ =~= head + encode_ids(t));
        }
        i = i + 1;
    }
    proof {
        assert(ps@.subrange(0, ps@.len() as int) =~= ps@);
    }
    push_le(out, b.work(), 16);
    let pl = b.payload();
    push_le(out, pl.len() as u128, 8);
    let ghost mid = out@;
    let mut j: usize = 0;
    while j < pl.len()
        invariant
            j <= pl@.len(),
            out@ == mid + pl@.subrange(0, j as int),
        decreases pl@.len() - j,
    {
        out.push(pl[j]);
        proof {
            assert(out@ =~= mid + pl@.subrange(0, j + 1));
        }
        j = j + 1;
    }
    proof {
        assert(pl@.subrange(0, pl@.len() as int) =~= pl@);
        assert(final(out)@ =~= old(out)@ + entry_bytes(snap_of(*b)));
    }
}

impl Ledger {
    /// The snapshot of this ledger: its GHOSTDAG parameter, its subsidy and
    /// its blocks in the order they were added.
    pub fn write_snapshot(&self) -> (r: Vec<u8>)
        requires
            self.wf(),
        ensures
            r@ == snapshot_bytes(ledger_snap(*self)),
            snap_fits(ledger_snap(*self)),
    {
        let dag = self.dag();
        let n = dag.len();
        let ghost blocks = dag_blocks(*dag);
        let mut out: Vec<u8> = Vec::new();
        push_le(&mut out, dag.k() as u128, 2);
        push_le(&mut out, self.subsidy() as u128, 8);
        push_le(&mut out, n as u128, 8);
        let ghost head = out@;
        proof {
            assert(blocks.subrange(0, 0) =~= Seq::<SnapBlock>::empty());
        }
        let mut i: usize = 0;
        while i < n
            invariant
                i <= n,
                n == dag.ids().len(),
                blocks == dag_blocks(*dag),
                out@ == head + entries_bytes(blocks.subrange(0, i as int)),
                forall|t: int|
                    0 <= t < i ==> (#[trigger] blocks[t]).parents.len() < 0x1_0000_0000_0000_0000
                        && blocks[t].payload.len() < 0x1_0000_0000_0000_0000,
            decreases n - i,
        {
            let b = dag.block_by_pos(i);
            let np = b.parents().len();
            let pl = b.payload().len();
            push_entry(&mut out, b);
            proof {
                lemma_entries_push(blocks.subrange(0, i as int), snap_of(*b));
                assert(blocks.subrange(0, i + 1) =~= blocks.subrange(0, i as int).push(snap_of(*b)));
                assert(blocks[i as int] == snap_of(*b));
            }
            i = i + 1;
        }
        proof {
            assert(blocks.subrange(0, n as int) =~= blocks);
        }
        out
    }
}

// ---------------------------------------------------------------------------
// Reading.

/// The block record at `pos`, and the position after it.
fn parse_entry(bytes: &[u8], pos: usize) -> (r: Option<(Block, usize)>)
    requires
        pos <= bytes@.len(),
    ensures
        match r {
            Some((b, p)) => entry_at(bytes@, pos as int) == Some((snap_of(b), p as int)),
            None => entry_at(bytes@, pos as int) is None,
        },
{
    let len = bytes.len();
    if len - pos < 8 {
        return None;
    }
    proof {
        lemma_le_value_bound(bytes@.subrange(pos as int, pos + 8));
        lemma_pow256_values();
    }
    let np = read_le(bytes, pos, 8);
    let room: usize = (len - pos - 8) / 8;
    if np > room as u128 {
        return None;
    }
    let np = np as usize;
    let mut parents: Vec<BlockId> = Vec::new();
    let mut j: usize = 0;
    while j < np
        invariant
            len == bytes@.len(),
            pos + 8 + 8 * np <= len,
            j <= np,
            parents@ == Seq::new(j as nat, |t: int| BlockId(word(bytes@, pos + 8 + 8 * t, pos + 16 + 8 * t) as u64)),
        decreases np - j,
    {
        let a = pos + 8 + 8 * j;
        proof {
            lemma_le_value_bound(bytes@.subrange(a as int, a + 8));
            lemma_pow256_values();
        }
        let w = read_le(bytes, a, 8);
        parents.push(BlockId(w as u64));
        proof {
            assert(parents@ =~= Seq::new((j + 1) as nat, |t: int| BlockId(word(bytes@, pos + 8 + 8 * t, pos + 16 + 8 * t) as u64)));
        }
        j = j + 1;
    }
    let q = pos + 8 + 8 * np;
    if len - q < 24 {
        return None;
    }
    proof {
        lemma_le_value_bound(bytes@.subrange(q as int, q + 16));
        lemma_le_value_bound(bytes@.subrange(q + 16, q + 24));
        lemma_pow256_values();
    }
    let work = read_le(bytes, q, 16);
    let pl = read_le(bytes, q + 16, 8);
    if pl > (len - q - 24) as u128 {
        return None;
    }
    let pl = pl as usize;
    let payload = copy_range(bytes, q + 24, pl);
    let end = q + 24 + pl;
    let b = Block::new(parents, work, payload);
    Some((b, end))
}

/// The contents of a snapshot: GHOSTDAG parameter, subsidy and blocks, or
/// `None` when the bytes are not a snapshot.
pub fn parse_snapshot(bytes: &[u8]) -> (r: Option<(KParam, u64, Vec<Block>)>)
    ensures
        match r {
            Some((k, subsidy, bs)) => decode_snapshot(bytes@) == Some(SnapView { k, subsidy, blocks: snaps_of(bs@) }),
            None => decode_snapshot(bytes@) is None,
        },
{
    let len = bytes.len();
    if len < 18 {
        return None;
    }
    proof {
        lemma_le_value_bound(bytes@.subrange(0, 2));
        lemma_le_value_bound(bytes@.subrange(2, 10));
        lemma_le_value_bound(bytes@.subrange(10, 18));
        lemma_pow256_values();
    }
    let k = read_le(bytes, 0, 2) as u16;
    let subsidy = read_le(bytes, 2, 10 - 2) as u64;
    let n = read_le(bytes, 10, 8);
    let ghost whole = entries_at(bytes@, 18, n as nat);
    let mut blocks: Vec<Block> = Vec::new();
    let mut pos: usize = 18;
    let mut i: u128 = 0;
    proof {
        assert(snaps_of(blocks@) =~= Seq::<SnapBlock>::empty());
        match entries_at(bytes@, 18, n as nat) {
            Some(rest) => {
                assert(snaps_of(blocks@) + rest =~= rest);
            },
            None => {},
        }
    }
    while i < n
        invariant
            len == bytes@.len(),
            18 <= pos <= len,
            i <= n,
            n as nat == word(bytes@, 10, 18),
            whole == entries_at(bytes@, 18, n as nat),
            whole == match entries_at(bytes@, pos as int, (n - i) as nat) {
                Some(rest) => Some(snaps_of(blocks@) + rest),
                None => None,
            },
        decreases n - i,
    {
        match parse_entry(bytes, pos) {
            None => {
                proof {
                    assert(entries_at(bytes@, pos as int, (n - i) as nat) is None);
                }
                return None;
            },
            Some((b, p)) => {
                let ghost before = blocks@;
                proof {
                    match entries_at(bytes@, p as int, (n - i - 1) as nat) {
                        Some(rest) => {
                            assert(snaps_of(before.push(b)) =~= snaps_of(before).push(snap_of(b)));
                            assert(snaps_of(before) + (seq![snap_of(b)] + rest) =~= snaps_of(before.push(b)) + rest);
                        },
                        None => {},
                    }
                }
                blocks.push(b);
                pos = p;
                i = i + 1;
            },
        }
    }
    if pos != len {
        return None;
    }
    proof {
        assert(snaps_of(blocks@) + Seq::<SnapBlock>::empty() =~= snaps_of(blocks@));
    }
    Some((k, subsidy, blocks))
}

/// Why a snapshot could not be loaded.
#[derive(Clone, Debug, PartialEq, Eq)]
pub enum SnapshotError {
    /// The bytes are not a snapshot.
    Malformed,
    /// The snapshot holds no blocks, or its first block names parents.
    NoGenesis,
    /// The genesis block's transactions do not apply.
    Genesis(LedgerError),
    /// The block at this position could not be added again.
    Block(u64, LedgerInsertError),
}

/// The genesis payload `payload` is refused with `e` under `subsidy`.
pub open spec fn genesis_refused(payload: Seq<u8>, subsidy: u64, e: LedgerError) -> bool {
    match decoded(payload) {
        None => e == LedgerError::Payload(DecodeError::Malformed),
        Some(txs) => block_spec(Map::empty(), txs, subsidy) == Err::<(crate::ledger::UtxoMap, crate::ledger::BlockSummary), LedgerError>(e),
    }
}

/// `l` is a ledger holding the first `i` blocks of `v`.
pub open spec fn replayed(l: Ledger, v: SnapView, i: int) -> bool {
    &&& l.wf()
    &&& l.dag_view().k_view() == v.k
    &&& l.subsidy_view() == v.subsidy
    &&& dag_blocks(l.dag_view()) == v.blocks.subrange(0, i)
}

/// `r` is what loading the snapshot `bytes` gives: a ledger holding
/// exactly the recorded blocks, each added again in order; or the first
/// reason that failed.
pub open spec fn read_outcome(bytes: Seq<u8>, r: Result<Ledger, SnapshotError>) -> bool {
    match decode_snapshot(bytes) {
        None => r == Err::<Ledger, SnapshotError>(SnapshotError::Malformed),
        Some(v) => if v.blocks.len() == 0 || v.blocks[0].parents.len() != 0 {
            r == Err::<Ledger, SnapshotError>(SnapshotError::NoGenesis)
        } else {
            match r {
                Ok(l) => replayed(l, v, v.blocks.len() as int),
                Err(SnapshotError::Genesis(e)) => genesis_refused(v.blocks[0].payload, v.subsidy, e),
                Err(SnapshotError::Block(i, e)) => 1 <= i < v.blocks.len() && exists|l: Ledger|
                    #[trigger] replayed(l, v, i as int) && block_outcome(
                        l,
                        l,
                        v.blocks[i as int].parents,
                        v.blocks[i as int].work,
                        v.blocks[i as int].payload,
                        Err(e),
                    ),
                Err(_) => false,
            }
        },
    }
}

impl Ledger {
    /// Load a snapshot: seed a ledger with its first block, then add the
    /// other blocks again in order, so that every consensus and UTXO fact
    /// is recomputed. Fails with the first block that is refused.
    pub fn read_snapshot(bytes: &[u8]) -> (r: Result<Ledger, SnapshotError>)
        ensures
            read_outcome(bytes@, r),
    {
        let (k, subsidy, mut blocks) = match parse_snapshot(bytes) {
            None => {
                return Err(SnapshotError::Malformed);
            },
            Some(x) => x,
        };
        let ghost v = SnapView { k, subsidy, blocks: snaps_of(blocks@) };
        let n = blocks.len();
        if n == 0 || blocks[0].parents().len() != 0 {
            return Err(SnapshotError::NoGenesis);
        }
        // Reverse the list, so that the blocks come off its end in order.
        let mut rest: Vec<Block> = Vec::new();
        while blocks.len() > 0
            invariant
                n == v.blocks.len(),
                blocks@.len() + rest@.len() == n,
                forall|t: int| 0 <= t < blocks@.len() ==> snap_of(#[trigger] blocks@[t]) == v.blocks[t],
                forall|t: int| 0 <= t < rest@.len() ==> snap_of(#[trigger] rest@[t]) == v.blocks[n - 1 - t],
            decreases blocks@.len(),
        {
            let b = blocks.pop().unwrap();
            rest.push(b);
        }
        let g = rest.pop().unwrap();
        let mut ledger = match Ledger::from_genesis(k, subsidy, g) {
            Ok(l) => l,
            Err(e) => {
                return Err(SnapshotError::Genesis(e));
            },
        };
        proof {
            assert(dag_blocks(ledger.dag_view()) =~= v.blocks.subrange(0, 1));
        }
        let mut i: usize = 1;
        while rest.len() > 0
            invariant
                decode_snapshot(bytes@) == Some(v),
                v.blocks[0].parents.len() == 0,
                n == v.blocks.len(),
                1 <= i <= n,
                i + rest@.len() == n,
                forall|t: int| 0 <= t < rest@.len() ==> snap_of(#[trigger] rest@[t]) == v.blocks[n - 1 - t],
                replayed(ledger, v, i as int),
            decreases rest@.len(),
        {
            let ghost pending = rest@;
            let b = rest.pop().unwrap();
            proof {
                assert(b == pending[pending.len() - 1]);
                assert(snap_of(b) == v.blocks[i as int]);
                assert forall|t: int| 0 <= t < rest@.len() implies snap_of(#[trigger] rest@[t]) == v.blocks[n - 1 - t] by {
                    assert(rest@[t] == pending[t]);
                }
            }
            let ghost before = ledger;
            match ledger.insert_block(b) {
                Ok(_) => {
                    proof {
                        let d = before.dag_view();
                        assert(d.ids().len() == i) by {
                            assert(dag_blocks(d).len() == v.blocks.subrange(0, i as int).len());
                        }
                        ledger.dag_view().lemma_extends_blocks(d);
                        let nb = dag_blocks(ledger.dag_view());
                        assert forall|j: int| 0 <= j < i + 1 implies #[trigger] nb[j] == v.blocks[j] by {
                            if j < i {
                                assert(dag_blocks(d)[j] == v.blocks.subrange(0, i as int)[j]);
                            } else {
                                assert(ledger.dag_view().block_at(j).parents_view() == b.parents_view());
                            }
                        }
                        assert(nb =~= v.blocks.subrange(0, i + 1));
                    }
                },
                Err(e) => {
                    proof {
                        assert(ledger == before);
                        assert(replayed(before, v, i as int));
                        assert(snap_of(b) == v.blocks[i as int]);
                        assert(block_outcome(
                            before,
                            before,
                            v.blocks[i as int].parents,
                            v.blocks[i as int].work,
                            v.blocks[i as int].payload,
                            Err::<BlockId, LedgerInsertError>(e),
                        ));
                    }
                    return Err(SnapshotError::Block(i as u64, e));
                },
            }
            i = i + 1;
        }
        proof {
            assert(v.blocks.subrange(0, n as int) =~= v.blocks);
        }
        Ok(ledger)
    }
}

} // verus!
