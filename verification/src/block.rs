//! Blocks and their ids. A block names its parents, carries a work weight and
//! an opaque payload; its id is derived from the BLAKE3 digest of its
//! canonical encoding, so equal contents give equal ids on every node.
use vstd::prelude::*;

use crate::bytes::{le_bytes, le_value, lemma_le_value_bound, lemma_pow256_values, push_le, read_le};
use crate::crypto::{blake3_digest, blake3_hash};

verus! {

/// A block id: the first eight bytes (little-endian) of the BLAKE3 digest of
/// the block's canonical encoding.
#[derive(Clone, Copy, Debug, PartialEq, Eq, Structural, Hash, PartialOrd, Ord)]
pub struct BlockId(pub u64);

/// A block of the DAG.
#[derive(Clone, Debug)]
pub struct Block {
    parents: Vec<BlockId>,
    work: u128,
    payload: Vec<u8>,
}

/// Canonical encoding of a list of ids: eight little-endian bytes each.
pub open spec fn encode_ids(ids: Seq<BlockId>) -> Seq<u8>
    decreases ids.len(),
{
    if ids.len() == 0 {
        Seq::empty()
    } else {
        encode_ids(ids.drop_last()) + le_bytes(ids.last().0 as nat, 8)
    }
}

/// Canonical encoding of a block: parent count (8 bytes), parents, work (16
/// bytes), payload.
pub open spec fn block_encoding(parents: Seq<BlockId>, work: u128, payload: Seq<u8>) -> Seq<u8> {
    le_bytes(parents.len(), 8) + encode_ids(parents) + le_bytes(work as nat, 16) + payload
}

/// The 64-bit word formed by the first eight bytes of a digest.
pub open spec fn digest_word(d: Seq<u8>) -> u64 {
    le_value(d.subrange(0, 8)) as u64
}

/// The id of a block with these contents.
pub open spec fn block_id_of(parents: Seq<BlockId>, work: u128, payload: Seq<u8>) -> BlockId {
    BlockId(digest_word(blake3_digest(block_encoding(parents, work, payload))))
}

/// First eight digest bytes as a little-endian word.
pub(crate) fn digest_prefix(d: &[u8; 32]) -> (r: u64)
    ensures
        r == digest_word(d@),
{
    let s = d.as_slice();
    let v = read_le(s, 0, 8);
    proof {
        lemma_le_value_bound(s@.subrange(0, 8));
        lemma_pow256_values();
    }
    v as u64
}

/// The position of `x` in `ids`, if present.
pub fn position(ids: &[BlockId], x: BlockId) -> (r: Option<usize>)
    ensures
        r matches Some(i) ==> i < ids@.len() && ids@[i as int] == x,
        r is None ==> forall|i: int| 0 <= i < ids@.len() ==> ids@[i] != x,
{
    let mut i: usize = 0;
    while i < ids.len()
        invariant
            i <= ids@.len(),
            forall|j: int| 0 <= j < i ==> ids@[j] != x,
        decreases ids@.len() - i,
    {
        if ids[i].0 == x.0 {
            return Some(i);
        }
        i = i + 1;
    }
    None
}

impl Block {
    /// The block's parent ids, in order.
    pub closed spec fn parents_view(&self) -> Seq<BlockId> {
        self.parents@
    }

    /// The block's work weight.
    pub closed spec fn work_view(&self) -> u128 {
        self.work
    }

    /// The block's payload bytes.
    pub closed spec fn payload_view(&self) -> Seq<u8> {
        self.payload@
    }

    /// The block's id.
    pub open spec fn spec_id(&self) -> BlockId {
        block_id_of(self.parents_view(), self.work_view(), self.payload_view())
    }

    /// A block with the given parents, work and payload.
    pub fn new(parents: Vec<BlockId>, work: u128, payload: Vec<u8>) -> (b: Block)
        ensures
            b.parents_view() == parents@,
            b.work_view() == work,
            b.payload_view() == payload@,
    {
        Block { parents, work, payload }
    }

    /// A parentless genesis block.
    pub fn genesis(work: u128, payload: Vec<u8>) -> (b: Block)
        ensures
            b.parents_view() == Seq::<BlockId>::empty(),
            b.work_view() == work,
            b.payload_view() == payload@,
    {
        Block { parents: Vec::new(), work, payload }
    }

    /// The parent ids.
    pub fn parents(&self) -> (r: &[BlockId])
        ensures
            r@ == self.parents_view(),
    {
        self.parents.as_slice()
    }

    /// The work weight.
    pub fn work(&self) -> (r: u128)
        ensures
            r == self.work_view(),
    {
        self.work
    }

    /// The payload bytes.
    pub fn payload(&self) -> (r: &[u8])
        ensures
            r@ == self.payload_view(),
    {
        self.payload.as_slice()
    }

    /// The canonical encoding of this block.
    pub fn encode(&self) -> (r: Vec<u8>)
        ensures
            r@ == block_encoding(self.parents_view(), self.work_view(), self.payload_view()),
    {
        let mut out: Vec<u8> = Vec::new();
        push_le(&mut out, self.parents.len() as u128, 8);
        let mut i: usize = 0;
        while i < self.parents.len()
            invariant
                i <= self.parents@.len(),
                out@ == le_bytes(self.parents@.len(), 8) + encode_ids(self.parents@.subrange(0, i as int)),
            decreases self.parents@.len() - i,
        {
            let ghost before = out@;
            push_le(&mut out, self.parents[i].0 as u128, 8);
            proof {
                let s = self.parents@.subrange(0, i + 1);
                assert(s.drop_last() =~= self.parents@.subrange(0, i as int));
                assert(out@ =~= le_bytes(self.parents@.len(), 8) + encode_ids(s));
            }
            i = i + 1;
        }
        proof {
            assert(self.parents@.subrange(0, self.parents@.len() as int) =~= self.parents@);
        }
        push_le(&mut out, self.work, 16);
        let mut j: usize = 0;
        let ghost head = out@;
        while j < self.payload.len()
            invariant
                j <= self.payload@.len(),
                out@ == head + self.payload@.subrange(0, j as int),
            decreases self.payload@.len() - j,
        {
            out.push(self.payload[j]);
            proof {
                assert(out@ =~= head + self.payload@.subrange(0, j + 1));
            }
            j = j + 1;
        }
        proof {
            assert(self.payload@.subrange(0, self.payload@.len() as int) =~= self.payload@);
        }
        out
    }

    /// The block id: derived from the BLAKE3 digest of the canonical encoding.
    pub fn id(&self) -> (r: BlockId)
        ensures
            r == self.spec_id(),
    {
        let enc = self.encode();
        let d = blake3_hash(enc.as_slice());
        BlockId(digest_prefix(&d))
    }
}

} // verus!
