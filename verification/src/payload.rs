//! Decoding block payloads. The encoding is prefix-free: a transaction's
//! counts say how long it is, so a payload decodes to at most one list of
//! transactions, and the decoder finds it whenever it exists.
use vstd::prelude::*;

use crate::bytes::{le_bytes, le_value, lemma_le_bytes_inj, lemma_le_bytes_len, lemma_le_bytes_value, lemma_le_value_bound, lemma_pow256_values, pow256, read_le};
use crate::tx::{address_bytes, encodes, input_bytes, input_views, inputs_bytes, len_bytes, lemma_inputs_bytes_push, lemma_outputs_bytes_push, lemma_txs_bytes_push, output_bytes, outputs_bytes, payload_bytes, payload_fits, tx_bytes, tx_fits, txid_bytes, txs_bytes, views, words_bytes, Address, DecodeError, InputView, OutPoint, Transaction, TxId, TxInput, TxOutput, TxView};

verus! {

// ---------------------------------------------------------------------------
// The encoding is prefix-free.

/// Two concatenations whose first parts are equally long agree part by part.
pub proof fn lemma_split<T>(a1: Seq<T>, b1: Seq<T>, a2: Seq<T>, b2: Seq<T>)
    requires
        a1.len() == a2.len(),
        a1 + b1 == a2 + b2,
    ensures
        a1 == a2,
        b1 == b2,
{
    assert(a1 =~= (a1 + b1).subrange(0, a1.len() as int));
    assert(a2 =~= (a2 + b2).subrange(0, a2.len() as int));
    assert(b1 =~= (a1 + b1).subrange(a1.len() as int, (a1 + b1).len() as int));
    assert(b2 =~= (a2 + b2).subrange(a2.len() as int, (a2 + b2).len() as int));
}

/// A four-byte length followed by anything determines the length.
proof fn lemma_len_prefix(n1: nat, n2: nat, r1: Seq<u8>, r2: Seq<u8>)
    requires
        n1 < 0x1_0000_0000,
        n2 < 0x1_0000_0000,
        len_bytes(n1) + r1 == len_bytes(n2) + r2,
    ensures
        n1 == n2,
        r1 == r2,
{
    lemma_le_bytes_len(n1, 4);
    lemma_le_bytes_len(n2, 4);
    lemma_split(len_bytes(n1), r1, len_bytes(n2), r2);
    lemma_pow256_values();
    lemma_le_bytes_inj(n1, n2, 4);
}

/// 32 bytes of two words followed by anything determine the words.
proof fn lemma_words_prefix(a: u128, b: u128, c: u128, d: u128, r1: Seq<u8>, r2: Seq<u8>)
    requires
        words_bytes(a, b) + r1 == words_bytes(c, d) + r2,
    ensures
        a == c,
        b == d,
        r1 == r2,
{
    let x = le_bytes(a as nat, 16);
    let y = le_bytes(b as nat, 16);
    let z = le_bytes(c as nat, 16);
    let w = le_bytes(d as nat, 16);
    lemma_le_bytes_len(a as nat, 16);
    lemma_le_bytes_len(b as nat, 16);
    lemma_le_bytes_len(c as nat, 16);
    lemma_le_bytes_len(d as nat, 16);
    assert(words_bytes(a, b) + r1 =~= x + (y + r1));
    assert(words_bytes(c, d) + r2 =~= z + (w + r2));
    lemma_split(x, y + r1, z, w + r2);
    lemma_split(y, r1, w, r2);
    lemma_pow256_values();
    lemma_le_bytes_inj(a as nat, c as nat, 16);
    lemma_le_bytes_inj(b as nat, d as nat, 16);
}

/// An input with a 64-byte signature followed by anything determines it.
proof fn lemma_input_prefix(i1: InputView, i2: InputView, r1: Seq<u8>, r2: Seq<u8>)
    requires
        i1.signature.len() == 64,
        i2.signature.len() == 64,
        input_bytes(i1) + r1 == input_bytes(i2) + r2,
    ensures
        i1 == i2,
        r1 == r2,
{
    let o1 = i1.outpoint;
    let o2 = i2.outpoint;
    assert(input_bytes(i1) + r1 =~= words_bytes(o1.txid.0, o1.txid.1) + (len_bytes(o1.index as nat) + (i1.signature + r1)));
    assert(input_bytes(i2) + r2 =~= words_bytes(o2.txid.0, o2.txid.1) + (len_bytes(o2.index as nat) + (i2.signature + r2)));
    lemma_words_prefix(o1.txid.0, o1.txid.1, o2.txid.0, o2.txid.1, len_bytes(o1.index as nat) + (i1.signature + r1), len_bytes(o2.index as nat) + (i2.signature + r2));
    lemma_len_prefix(o1.index as nat, o2.index as nat, i1.signature + r1, i2.signature + r2);
    lemma_split(i1.signature, r1, i2.signature, r2);
    assert(o1.txid == o2.txid);
    assert(o1 == o2);
}

/// An output followed by anything determines it.
proof fn lemma_output_prefix(o1: TxOutput, o2: TxOutput, r1: Seq<u8>, r2: Seq<u8>)
    requires
        output_bytes(o1) + r1 == output_bytes(o2) + r2,
    ensures
        o1 == o2,
        r1 == r2,
{
    let v1 = le_bytes(o1.value as nat, 8);
    let v2 = le_bytes(o2.value as nat, 8);
    lemma_le_bytes_len(o1.value as nat, 8);
    lemma_le_bytes_len(o2.value as nat, 8);
    assert(output_bytes(o1) + r1 =~= v1 + (words_bytes(o1.owner.0, o1.owner.1) + r1));
    assert(output_bytes(o2) + r2 =~= v2 + (words_bytes(o2.owner.0, o2.owner.1) + r2));
    lemma_split(v1, words_bytes(o1.owner.0, o1.owner.1) + r1, v2, words_bytes(o2.owner.0, o2.owner.1) + r2);
    lemma_pow256_values();
    lemma_le_bytes_inj(o1.value as nat, o2.value as nat, 8);
    lemma_words_prefix(o1.owner.0, o1.owner.1, o2.owner.0, o2.owner.1, r1, r2);
    assert(o1.owner == o2.owner);
}

/// Equally many inputs with 64-byte signatures followed by anything
/// determine the inputs.
proof fn lemma_inputs_prefix(s1: Seq<InputView>, s2: Seq<InputView>, r1: Seq<u8>, r2: Seq<u8>)
    requires
        s1.len() == s2.len(),
        forall|j: int| 0 <= j < s1.len() ==> (#[trigger] s1[j]).signature.len() == 64,
        forall|j: int| 0 <= j < s2.len() ==> (#[trigger] s2[j]).signature.len() == 64,
        inputs_bytes(s1) + r1 == inputs_bytes(s2) + r2,
    ensures
        s1 == s2,
        r1 == r2,
    decreases s1.len(),
{
    if s1.len() == 0 {
        assert(inputs_bytes(s1) + r1 =~= r1);
        assert(inputs_bytes(s2) + r2 =~= r2);
        assert(s1 =~= s2);
    } else {
        let t1 = inputs_bytes(s1.drop_first()) + r1;
        let t2 = inputs_bytes(s2.drop_first()) + r2;
        assert(inputs_bytes(s1) + r1 =~= input_bytes(s1[0]) + t1);
        assert(inputs_bytes(s2) + r2 =~= input_bytes(s2[0]) + t2);
        lemma_input_prefix(s1[0], s2[0], t1, t2);
        lemma_inputs_prefix(s1.drop_first(), s2.drop_first(), r1, r2);
        assert forall|j: int| 0 <= j < s1.len() implies s1[j] == s2[j] by {
            if j > 0 {
                assert(s1[j] == s1.drop_first()[j - 1]);
                assert(s2[j] == s2.drop_first()[j - 1]);
            }
        }
        assert(s1 =~= s2);
    }
}

/// Equally many outputs followed by anything determine the outputs.
proof fn lemma_outputs_prefix(s1: Seq<TxOutput>, s2: Seq<TxOutput>, r1: Seq<u8>, r2: Seq<u8>)
    requires
        s1.len() == s2.len(),
        outputs_bytes(s1) + r1 == outputs_bytes(s2) + r2,
    ensures
        s1 == s2,
        r1 == r2,
    decreases s1.len(),
{
    if s1.len() == 0 {
        assert(outputs_bytes(s1) + r1 =~= r1);
        assert(outputs_bytes(s2) + r2 =~= r2);
        assert(s1 =~= s2);
    } else {
        let t1 = outputs_bytes(s1.drop_first()) + r1;
        let t2 = outputs_bytes(s2.drop_first()) + r2;
        assert(outputs_bytes(s1) + r1 =~= output_bytes(s1[0]) + t1);
        assert(outputs_bytes(s2) + r2 =~= output_bytes(s2[0]) + t2);
        lemma_output_prefix(s1[0], s2[0], t1, t2);
        lemma_outputs_prefix(s1.drop_first(), s2.drop_first(), r1, r2);
        assert forall|j: int| 0 <= j < s1.len() implies s1[j] == s2[j] by {
            if j > 0 {
                assert(s1[j] == s1.drop_first()[j - 1]);
                assert(s2[j] == s2.drop_first()[j - 1]);
            }
        }
        assert(s1 =~= s2);
    }
}

/// A transaction the encoding can carry, followed by anything, determines it.
#[verifier::spinoff_prover]
#[verifier::rlimit(40)]
pub proof fn lemma_tx_prefix(t1: TxView, t2: TxView, r1: Seq<u8>, r2: Seq<u8>)
    requires
        tx_fits(t1),
        tx_fits(t2),
        tx_bytes(t1) + r1 == tx_bytes(t2) + r2,
    ensures
        t1 == t2,
        r1 == r2,
{
    let e1 = t1.extra + r1;
    let e2 = t2.extra + r2;
    let d1 = len_bytes(t1.extra.len()) + e1;
    let d2 = len_bytes(t2.extra.len()) + e2;
    let c1 = outputs_bytes(t1.outputs) + d1;
    let c2 = outputs_bytes(t2.outputs) + d2;
    let b1 = len_bytes(t1.outputs.len()) + c1;
    let b2 = len_bytes(t2.outputs.len()) + c2;
    let a1 = inputs_bytes(t1.inputs) + b1;
    let a2 = inputs_bytes(t2.inputs) + b2;
    assert(tx_bytes(t1) + r1 =~= len_bytes(t1.inputs.len()) + a1);
    assert(tx_bytes(t2) + r2 =~= len_bytes(t2.inputs.len()) + a2);
    lemma_len_prefix(t1.inputs.len(), t2.inputs.len(), a1, a2);
    lemma_inputs_prefix(t1.inputs, t2.inputs, b1, b2);
    lemma_len_prefix(t1.outputs.len(), t2.outputs.len(), c1, c2);
    lemma_outputs_prefix(t1.outputs, t2.outputs, d1, d2);
    lemma_len_prefix(t1.extra.len(), t2.extra.len(), e1, e2);
    lemma_split(t1.extra, r1, t2.extra, r2);
}

/// Equally many transactions the encoding can carry, followed by anything,
/// determine the transactions.
pub proof fn lemma_txs_prefix(s1: Seq<TxView>, s2: Seq<TxView>, r1: Seq<u8>, r2: Seq<u8>)
    requires
        s1.len() == s2.len(),
        forall|j: int| 0 <= j < s1.len() ==> tx_fits(#[trigger] s1[j]),
        forall|j: int| 0 <= j < s2.len() ==> tx_fits(#[trigger] s2[j]),
        txs_bytes(s1) + r1 == txs_bytes(s2) + r2,
    ensures
        s1 == s2,
        r1 == r2,
    decreases s1.len(),
{
    if s1.len() == 0 {
        assert(txs_bytes(s1) + r1 =~= r1);
        assert(txs_bytes(s2) + r2 =~= r2);
        assert(s1 =~= s2);
    } else {
        let t1 = txs_bytes(s1.drop_first()) + r1;
        let t2 = txs_bytes(s2.drop_first()) + r2;
        assert(txs_bytes(s1) + r1 =~= tx_bytes(s1[0]) + t1);
        assert(txs_bytes(s2) + r2 =~= tx_bytes(s2[0]) + t2);
        lemma_tx_prefix(s1[0], s2[0], t1, t2);
        assert forall|j: int| 0 <= j < s1.drop_first().len() implies tx_fits(#[trigger] s1.drop_first()[j]) by {
            assert(s1.drop_first()[j] == s1[j + 1]);
        }
        assert forall|j: int| 0 <= j < s2.drop_first().len() implies tx_fits(#[trigger] s2.drop_first()[j]) by {
            assert(s2.drop_first()[j] == s2[j + 1]);
        }
        lemma_txs_prefix(s1.drop_first(), s2.drop_first(), r1, r2);
        assert forall|j: int| 0 <= j < s1.len() implies s1[j] == s2[j] by {
            if j > 0 {
                assert(s1[j] == s1.drop_first()[j - 1]);
                assert(s2[j] == s2.drop_first()[j - 1]);
            }
        }
        assert(s1 =~= s2);
    }
}

/// A payload encodes at most one list of transactions.
pub proof fn lemma_encoding_unique(bytes: Seq<u8>, s1: Seq<TxView>, s2: Seq<TxView>)
    requires
        encodes(bytes, s1),
        encodes(bytes, s2),
    ensures
        s1 == s2,
{
    assert(payload_bytes(s1) =~= len_bytes(s1.len()) + txs_bytes(s1));
    lemma_len_prefix(s1.len(), s2.len(), txs_bytes(s1), txs_bytes(s2));
    assert(txs_bytes(s1) + Seq::<u8>::empty() =~= txs_bytes(s2) + Seq::<u8>::empty());
    lemma_txs_prefix(s1, s2, Seq::<u8>::empty(), Seq::<u8>::empty());
}

/// Concatenating two lists of transactions concatenates their bytes.
proof fn lemma_txs_bytes_append(a: Seq<TxView>, b: Seq<TxView>)
    ensures
        txs_bytes(a + b) == txs_bytes(a) + txs_bytes(b),
    decreases a.len(),
{
    if a.len() == 0 {
        assert(a + b =~= b);
        assert(txs_bytes(a) + txs_bytes(b) =~= txs_bytes(b));
    } else {
        lemma_txs_bytes_append(a.drop_first(), b);
        assert((a + b).drop_first() =~= a.drop_first() + b);
        assert((a + b)[0] == a[0]);
        assert(txs_bytes(a + b) =~= txs_bytes(a) + txs_bytes(b));
    }
}

// ---------------------------------------------------------------------------
// Lengths and layout.

proof fn lemma_inputs_len(s: Seq<InputView>)
    requires
        forall|j: int| 0 <= j < s.len() ==> (#[trigger] s[j]).signature.len() == 64,
    ensures
        inputs_bytes(s).len() == 100 * s.len(),
    decreases s.len(),
{
    if s.len() > 0 {
        assert forall|j: int| 0 <= j < s.drop_first().len() implies (#[trigger] s.drop_first()[j]).signature.len() == 64 by {
            assert(s.drop_first()[j] == s[j + 1]);
        }
        lemma_inputs_len(s.drop_first());
        lemma_le_bytes_len(s[0].outpoint.txid.0 as nat, 16);
        lemma_le_bytes_len(s[0].outpoint.txid.1 as nat, 16);
        lemma_le_bytes_len(s[0].outpoint.index as nat, 4);
    }
}

proof fn lemma_outputs_len(s: Seq<TxOutput>)
    ensures
        outputs_bytes(s).len() == 40 * s.len(),
    decreases s.len(),
{
    if s.len() > 0 {
        lemma_outputs_len(s.drop_first());
        lemma_le_bytes_len(s[0].value as nat, 8);
        lemma_le_bytes_len(s[0].owner.0 as nat, 16);
        lemma_le_bytes_len(s[0].owner.1 as nat, 16);
    }
}

/// Where the counts of a transaction sit inside bytes that start with it.
proof fn lemma_tx_in_tail(t: TxView, rest: Seq<u8>, tail: Seq<u8>)
    requires
        tx_fits(t),
        tx_bytes(t) + rest == tail,
    ensures
        tail.len() >= 12 + 100 * t.inputs.len() + 40 * t.outputs.len() + t.extra.len(),
        tail.subrange(0, 4) == len_bytes(t.inputs.len()),
        tail.subrange(4 + 100 * (t.inputs.len() as int), 8 + 100 * (t.inputs.len() as int)) == len_bytes(t.outputs.len()),
        tail.subrange(
            8 + 100 * (t.inputs.len() as int) + 40 * (t.outputs.len() as int),
            12 + 100 * (t.inputs.len() as int) + 40 * (t.outputs.len() as int),
        ) == len_bytes(t.extra.len()),
{
    let ni = t.inputs.len();
    let no = t.outputs.len();
    lemma_inputs_len(t.inputs);
    lemma_outputs_len(t.outputs);
    lemma_le_bytes_len(ni, 4);
    lemma_le_bytes_len(no, 4);
    lemma_le_bytes_len(t.extra.len(), 4);
    let a = 4 + 100 * (ni as int);
    let b = a + 4 + 40 * (no as int);
    assert(tail.subrange(0, 4) =~= len_bytes(ni));
    assert(tail.subrange(a, a + 4) =~= len_bytes(no));
    assert(tail.subrange(b, b + 4) =~= len_bytes(t.extra.len()));
}

// ---------------------------------------------------------------------------
// Readers.

/// The four-byte little-endian value at `pos`.
fn read_u32_at(bytes: &[u8], pos: usize) -> (r: u32)
    requires
        pos + 4 <= bytes@.len(),
    ensures
        len_bytes(r as nat) == bytes@.subrange(pos as int, pos + 4),
{
    let v = read_le(bytes, pos, 4);
    proof {
        let sub = bytes@.subrange(pos as int, pos + 4);
        lemma_le_value_bound(sub);
        lemma_pow256_values();
        lemma_le_bytes_value(sub);
    }
    v as u32
}

/// The eight-byte little-endian value at `pos`.
fn read_u64_at(bytes: &[u8], pos: usize) -> (r: u64)
    requires
        pos + 8 <= bytes@.len(),
    ensures
        le_bytes(r as nat, 8) == bytes@.subrange(pos as int, pos + 8),
{
    let v = read_le(bytes, pos, 8);
    proof {
        let sub = bytes@.subrange(pos as int, pos + 8);
        lemma_le_value_bound(sub);
        lemma_pow256_values();
        lemma_le_bytes_value(sub);
    }
    v as u64
}

/// The two 16-byte little-endian words at `pos`.
fn read_words_at(bytes: &[u8], pos: usize) -> (r: (u128, u128))
    requires
        bytes@.len() <= usize::MAX,
        pos + 32 <= bytes@.len(),
    ensures
        words_bytes(r.0, r.1) == bytes@.subrange(pos as int, pos + 32),
{
    let a = read_le(bytes, pos, 16);
    let b = read_le(bytes, pos + 16, 16);
    proof {
        let s1 = bytes@.subrange(pos as int, pos + 16);
        let s2 = bytes@.subrange(pos + 16, pos + 32);
        lemma_le_bytes_value(s1);
        lemma_le_bytes_value(s2);
        assert(bytes@.subrange(pos as int, pos + 32) =~= s1 + s2);
    }
    (a, b)
}

/// A copy of `bytes[pos..pos + n]`.
pub(crate) fn copy_range(bytes: &[u8], pos: usize, n: usize) -> (r: Vec<u8>)
    requires
        bytes@.len() <= usize::MAX,
        pos + n <= bytes@.len(),
    ensures
        r@ == bytes@.subrange(pos as int, pos + n),
{
    let mut r: Vec<u8> = Vec::new();
    let mut i: usize = 0;
    while i < n
        invariant
            i <= n,
            pos + n <= bytes@.len(),
            bytes@.len() <= usize::MAX,
            r@ == bytes@.subrange(pos as int, pos + i),
        decreases n - i,
    {
        r.push(bytes[pos + i]);
        proof {
            assert(r@ =~= bytes@.subrange(pos as int, pos + i + 1));
        }
        i = i + 1;
    }
    r
}

/// The input encoded in the 100 bytes at `pos`.
fn parse_input(bytes: &[u8], pos: usize) -> (r: TxInput)
    requires
        bytes@.len() <= usize::MAX,
        pos + 100 <= bytes@.len(),
    ensures
        input_bytes(r@) == bytes@.subrange(pos as int, pos + 100),
        r@.signature.len() == 64,
{
    let (a, b) = read_words_at(bytes, pos);
    let index = read_u32_at(bytes, pos + 32);
    let signature = copy_range(bytes, pos + 36, 64);
    let r = TxInput { outpoint: OutPoint { txid: TxId(a, b), index }, signature };
    proof {
        assert(bytes@.subrange(pos as int, pos + 100) =~= bytes@.subrange(pos as int, pos + 32) + bytes@.subrange(
            pos + 32,
            pos + 36,
        ) + bytes@.subrange(pos + 36, pos + 100));
        assert(input_bytes(r@) =~= words_bytes(a, b) + len_bytes(index as nat) + signature@);
    }
    r
}

/// The output encoded in the 40 bytes at `pos`.
fn parse_output(bytes: &[u8], pos: usize) -> (r: TxOutput)
    requires
        bytes@.len() <= usize::MAX,
        pos + 40 <= bytes@.len(),
    ensures
        output_bytes(r) == bytes@.subrange(pos as int, pos + 40),
{
    let value = read_u64_at(bytes, pos);
    let (a, b) = read_words_at(bytes, pos + 8);
    let r = TxOutput { value, owner: Address(a, b) };
    proof {
        assert(bytes@.subrange(pos as int, pos + 40) =~= bytes@.subrange(pos as int, pos + 8) + bytes@.subrange(
            pos + 8,
            pos + 40,
        ));
        assert(output_bytes(r) =~= le_bytes(value as nat, 8) + words_bytes(a, b));
    }
    r
}

/// The `n` inputs encoded from `pos` on.
fn parse_inputs(bytes: &[u8], pos: usize, n: u32) -> (r: Vec<TxInput>)
    requires
        bytes@.len() <= usize::MAX,
        pos + 100 * n <= bytes@.len(),
    ensures
        r@.len() == n,
        forall|j: int| 0 <= j < r@.len() ==> (#[trigger] r@[j])@.signature.len() == 64,
        bytes@.subrange(pos as int, pos + 100 * n) == inputs_bytes(input_views(r@)),
{
    let mut inputs: Vec<TxInput> = Vec::new();
    let mut k: u32 = 0;
    let mut p = pos;
    proof {
        assert(bytes@.subrange(pos as int, pos as int) =~= inputs_bytes(input_views(inputs@)));
    }
    while k < n
        invariant
            bytes@.len() <= usize::MAX,
            k <= n,
            p == pos + 100 * k,
            pos + 100 * n <= bytes@.len(),
            inputs@.len() == k,
            forall|j: int| 0 <= j < inputs@.len() ==> (#[trigger] inputs@[j])@.signature.len() == 64,
            bytes@.subrange(pos as int, p as int) == inputs_bytes(input_views(inputs@)),
        decreases n - k,
    {
        let inp = parse_input(bytes, p);
        let ghost before = inputs@;
        inputs.push(inp);
        proof {
            assert(input_views(inputs@) =~= input_views(before).push(inp@));
            lemma_inputs_bytes_push(input_views(before), inp@);
            assert(bytes@.subrange(pos as int, p + 100) =~= bytes@.subrange(pos as int, p as int) + bytes@.subrange(
                p as int,
                p + 100,
            ));
        }
        p = p + 100;
        k = k + 1;
    }
    inputs
}

/// The `n` outputs encoded from `pos` on.
fn parse_outputs(bytes: &[u8], pos: usize, n: u32) -> (r: Vec<TxOutput>)
    requires
        bytes@.len() <= usize::MAX,
        pos + 40 * n <= bytes@.len(),
    ensures
        r@.len() == n,
        bytes@.subrange(pos as int, pos + 40 * n) == outputs_bytes(r@),
{
    let mut outputs: Vec<TxOutput> = Vec::new();
    let mut m: u32 = 0;
    let mut p = pos;
    proof {
        assert(bytes@.subrange(pos as int, pos as int) =~= outputs_bytes(outputs@));
    }
    while m < n
        invariant
            bytes@.len() <= usize::MAX,
            m <= n,
            p == pos + 40 * m,
            pos + 40 * n <= bytes@.len(),
            outputs@.len() == m,
            bytes@.subrange(pos as int, p as int) == outputs_bytes(outputs@),
        decreases n - m,
    {
        let o = parse_output(bytes, p);
        let ghost before = outputs@;
        outputs.push(o);
        proof {
            lemma_outputs_bytes_push(before, o);
            assert(bytes@.subrange(pos as int, p + 40) =~= bytes@.subrange(pos as int, p as int) + bytes@.subrange(
                p as int,
                p + 40,
            ));
        }
        p = p + 40;
        m = m + 1;
    }
    outputs
}

/// The transactions `bytes` encodes, if any (there is at most one such list).
pub open spec fn decoded(bytes: Seq<u8>) -> Option<Seq<TxView>> {
    if exists|s: Seq<TxView>| #[trigger] encodes(bytes, s) {
        Some(choose|s: Seq<TxView>| #[trigger] encodes(bytes, s))
    } else {
        None
    }
}

/// No transaction the encoding can carry starts `tail`.
pub open spec fn no_tx_starts(tail: Seq<u8>) -> bool {
    forall|t: TxView, rest: Seq<u8>| tx_fits(t) ==> #[trigger] (tx_bytes(t) + rest) != tail
}

/// The transaction encoded at `pos`, and the position after it; `None` when
/// no transaction the encoding can carry starts there.
#[verifier::rlimit(40)]
fn parse_tx(bytes: &[u8], pos: usize) -> (r: Option<(Transaction, usize)>)
    requires
        pos <= bytes@.len(),
    ensures
        match r {
            Some((t, p)) => pos <= p <= bytes@.len() && tx_fits(t@) && bytes@.subrange(pos as int, p as int)
                == tx_bytes(t@),
            None => no_tx_starts(bytes@.subrange(pos as int, bytes@.len() as int)),
        },
{
    let len = bytes.len();
    let ghost tail = bytes@.subrange(pos as int, len as int);
    if len - pos < 4 {
        proof {
            assert forall|t: TxView, rest: Seq<u8>| tx_fits(t) implies #[trigger] (tx_bytes(t) + rest) != tail by {
                if tx_bytes(t) + rest == tail {
                    lemma_tx_in_tail(t, rest, tail);
                }
            }
        }
        return None;
    }
    let nin = read_u32_at(bytes, pos);
    let mut p = pos + 4;
    // Every candidate has `nin` inputs.
    proof {
        assert forall|t: TxView, rest: Seq<u8>| tx_fits(t) && #[trigger] (tx_bytes(t) + rest) == tail implies t.inputs.len()
            == nin by {
            lemma_tx_in_tail(t, rest, tail);
            assert(tail.subrange(0, 4) =~= bytes@.subrange(pos as int, pos + 4));
            lemma_pow256_values();
            lemma_le_bytes_inj(t.inputs.len(), nin as nat, 4);
        }
    }
    if (nin as u64) * 100 > (len - p) as u64 {
        proof {
            assert forall|t: TxView, rest: Seq<u8>| tx_fits(t) implies #[trigger] (tx_bytes(t) + rest) != tail by {
                if tx_bytes(t) + rest == tail {
                    lemma_tx_in_tail(t, rest, tail);
                }
            }
        }
        return None;
    }
    let inputs = parse_inputs(bytes, p, nin);
    p = p + 100 * (nin as usize);
    let ghost p_out = p;
    if len - p < 4 {
        proof {
            assert forall|t: TxView, rest: Seq<u8>| tx_fits(t) implies #[trigger] (tx_bytes(t) + rest) != tail by {
                if tx_bytes(t) + rest == tail {
                    lemma_tx_in_tail(t, rest, tail);
                }
            }
        }
        return None;
    }
    let nout = read_u32_at(bytes, p);
    p = p + 4;
    proof {
        assert forall|t: TxView, rest: Seq<u8>| tx_fits(t) && #[trigger] (tx_bytes(t) + rest) == tail implies t.outputs.len()
            == nout by {
            lemma_tx_in_tail(t, rest, tail);
            let a = 4 + 100 * (t.inputs.len() as int);
            assert(tail.subrange(a, a + 4) =~= bytes@.subrange(p_out as int, p_out + 4));
            lemma_pow256_values();
            lemma_le_bytes_inj(t.outputs.len(), nout as nat, 4);
        }
    }
    if (nout as u64) * 40 > (len - p) as u64 {
        proof {
            assert forall|t: TxView, rest: Seq<u8>| tx_fits(t) implies #[trigger] (tx_bytes(t) + rest) != tail by {
                if tx_bytes(t) + rest == tail {
                    lemma_tx_in_tail(t, rest, tail);
                }
            }
        }
        return None;
    }
    let ghost p_outs = p;
    let outputs = parse_outputs(bytes, p, nout);
    p = p + 40 * (nout as usize);
    let ghost p_ex = p;
    if len - p < 4 {
        proof {
            assert forall|t: TxView, rest: Seq<u8>| tx_fits(t) implies #[trigger] (tx_bytes(t) + rest) != tail by {
                if tx_bytes(t) + rest == tail {
                    lemma_tx_in_tail(t, rest, tail);
                }
            }
        }
        return None;
    }
    let nex = read_u32_at(bytes, p);
    p = p + 4;
    if (nex as u64) > (len - p) as u64 {
        proof {
            assert forall|t: TxView, rest: Seq<u8>| tx_fits(t) implies #[trigger] (tx_bytes(t) + rest) != tail by {
                if tx_bytes(t) + rest == tail {
                    lemma_tx_in_tail(t, rest, tail);
                    let b = 8 + 100 * (t.inputs.len() as int) + 40 * (t.outputs.len() as int);
                    assert(tail.subrange(b, b + 4) =~= bytes@.subrange(p_ex as int, p_ex + 4));
                    lemma_pow256_values();
                    lemma_le_bytes_inj(t.extra.len(), nex as nat, 4);
                }
            }
        }
        return None;
    }
    let extra = copy_range(bytes, p, nex as usize);
    p = p + nex as usize;
    let t = Transaction::from_parts(inputs, outputs, extra);
    proof {
        assert(bytes@.subrange(pos as int, p as int) =~= bytes@.subrange(pos as int, pos + 4) + bytes@.subrange(
            pos + 4,
            p_out as int,
        ) + bytes@.subrange(p_out as int, p_out + 4) + bytes@.subrange(p_out + 4, p_ex as int) + bytes@.subrange(
            p_ex as int,
            p_ex + 4,
        ) + bytes@.subrange(p_ex + 4, p as int));
        assert(bytes@.subrange(pos as int, p as int) =~= tx_bytes(t@));
        assert forall|j: int| 0 <= j < t@.inputs.len() implies (#[trigger] t@.inputs[j]).signature.len() == 64 by {
            assert(t@.inputs[j] == inputs@[j]@);
        }
    }
    Some((t, p))
}

/// Decode a block payload into its transactions.
///
/// Succeeds exactly when the bytes are the encoding of a list of
/// transactions, and then returns that list.
pub fn decode_block_payload(bytes: &[u8]) -> (r: Result<Vec<Transaction>, DecodeError>)
    ensures
        match r {
            Ok(v) => encodes(bytes@, views(v@)) && decoded(bytes@) == Some(views(v@)),
            Err(e) => decoded(bytes@) is None && e == DecodeError::Malformed,
        },
{
    let len = bytes.len();
    if len < 4 {
        proof {
            assert forall|s: Seq<TxView>| !#[trigger] encodes(bytes@, s) by {
                lemma_le_bytes_len(s.len(), 4);
            }
        }
        return Err(DecodeError::Malformed);
    }
    let count = read_u32_at(bytes, 0);
    // Every candidate has `count` transactions, encoded after the count.
    proof {
        assert forall|s: Seq<TxView>| #[trigger] encodes(bytes@, s) implies s.len() == count && bytes@.subrange(4, len as int)
            == txs_bytes(s) by {
            lemma_le_bytes_len(s.len(), 4);
            assert(bytes@ =~= bytes@.subrange(0, 4) + bytes@.subrange(4, len as int));
            lemma_len_prefix(s.len(), count as nat, txs_bytes(s), bytes@.subrange(4, len as int));
        }
    }
    let mut txs: Vec<Transaction> = Vec::new();
    let mut pos: usize = 4;
    let mut i: u32 = 0;
    while i < count
        invariant
            len == bytes@.len(),
            4 <= pos <= len,
            i <= count,
            txs@.len() == i,
            forall|j: int| 0 <= j < txs@.len() ==> tx_fits(#[trigger] txs@[j]@),
            bytes@.subrange(4, pos as int) == txs_bytes(views(txs@)),
            forall|s: Seq<TxView>| #[trigger] encodes(bytes@, s) ==> s.len() == count && bytes@.subrange(4, len as int)
                == txs_bytes(s),
        decreases count - i,
    {
        match parse_tx(bytes, pos) {
            Some((t, p)) => {
                let ghost before = txs@;
                txs.push(t);
                proof {
                    assert(views(txs@) =~= views(before).push(t@));
                    lemma_txs_bytes_push(views(before), t@);
                    assert(bytes@.subrange(4, p as int) =~= bytes@.subrange(4, pos as int) + bytes@.subrange(pos as int, p as int));
                }
                pos = p;
                i = i + 1;
            },
            None => {
                proof {
                    assert forall|s: Seq<TxView>| !#[trigger] encodes(bytes@, s) by {
                        if encodes(bytes@, s) {
                            let v = views(txs@);
                            let a = s.take(i as int);
                            let b = s.skip(i as int);
                            assert(s =~= a + b);
                            lemma_txs_bytes_append(a, b);
                            assert(bytes@.subrange(4, len as int) =~= bytes@.subrange(4, pos as int) + bytes@.subrange(
                                pos as int,
                                len as int,
                            ));
                            assert forall|j: int| 0 <= j < v.len() implies tx_fits(#[trigger] v[j]) by {
                                assert(v[j] == txs@[j]@);
                            }
                            assert forall|j: int| 0 <= j < a.len() implies tx_fits(#[trigger] a[j]) by {
                                assert(a[j] == s[j]);
                            }
                            lemma_txs_prefix(v, a, bytes@.subrange(pos as int, len as int), txs_bytes(b));
                            assert(txs_bytes(b) =~= tx_bytes(b[0]) + txs_bytes(b.drop_first()));
                            assert(b[0] == s[i as int]);
                            assert(tx_fits(s[i as int]));
                        }
                    }
                }
                return Err(DecodeError::Malformed);
            },
        }
    }
    if pos != len {
        proof {
            assert forall|s: Seq<TxView>| !#[trigger] encodes(bytes@, s) by {
                if encodes(bytes@, s) {
                    let v = views(txs@);
                    assert forall|j: int| 0 <= j < v.len() implies tx_fits(#[trigger] v[j]) by {
                        assert(v[j] == txs@[j]@);
                    }
                    assert(bytes@.subrange(4, len as int) =~= bytes@.subrange(4, pos as int) + bytes@.subrange(
                        pos as int,
                        len as int,
                    ));
                    assert(txs_bytes(s) + Seq::<u8>::empty() =~= txs_bytes(s));
                    lemma_txs_prefix(v, s, bytes@.subrange(pos as int, len as int), Seq::<u8>::empty());
                }
            }
        }
        return Err(DecodeError::Malformed);
    }
    proof {
        let v = views(txs@);
        assert forall|j: int| 0 <= j < v.len() implies tx_fits(#[trigger] v[j]) by {
            assert(v[j] == txs@[j]@);
        }
        assert(bytes@ =~= bytes@.subrange(0, 4) + bytes@.subrange(4, len as int));
        assert(bytes@ =~= payload_bytes(v));
        assert(encodes(bytes@, v));
        let c = choose|s: Seq<TxView>| #[trigger] encodes(bytes@, s);
        lemma_encoding_unique(bytes@, c, v);
    }
    Ok(txs)
}

} // verus!
