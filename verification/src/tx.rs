//! Transactions in the UTXO model and their canonical encoding.
//!
//! A transaction spends earlier outputs (its inputs, each signed by the
//! spent output's owner) and creates new outputs. A transaction without
//! inputs is a coinbase: it mints value. The canonical encoding doubles as
//! the block payload: a count followed by the transactions.
//!
//! Encoding (all integers little-endian):
//! * a transaction: input count (4 bytes), each input as txid (32 bytes),
//!   output index (4 bytes) and signature (64 bytes); output count (4
//!   bytes), each output as value (8 bytes) and owner (32 bytes); extra-data
//!   length (4 bytes) and the extra bytes;
//! * a payload: transaction count (4 bytes) and the transactions in order.
//!
//! A transaction's id is the BLAKE3 digest of its full encoding; its
//! signature hash is the BLAKE3 digest of the same encoding with the
//! signatures left out.
use vstd::prelude::*;

use crate::bytes::{le_bytes, le_value, lemma_le_bytes_len, lemma_le_value_bound, lemma_pow256_values, pow256, push_le, read_le};
use crate::crypto::{blake3_digest, blake3_hash, ed25519_signature, ed25519_verifies};
use crate::keys::KeyPair;

verus! {

/// A transaction id: the 32 digest bytes as two little-endian words (bytes
/// 0..16, then bytes 16..32).
#[derive(Clone, Copy, Debug, PartialEq, Eq, Structural, Hash, PartialOrd, Ord)]
pub struct TxId(pub u128, pub u128);

/// An owner address: an Ed25519 public key, as two little-endian words.
#[derive(Clone, Copy, Debug, PartialEq, Eq, Structural, Hash, PartialOrd, Ord)]
pub struct Address(pub u128, pub u128);

/// A reference to one output of a transaction.
#[derive(Clone, Copy, Debug, PartialEq, Eq, Structural, Hash, PartialOrd, Ord)]
pub struct OutPoint {
    pub txid: TxId,
    pub index: u32,
}

/// An output: a value locked to an owner.
#[derive(Clone, Copy, Debug, PartialEq, Eq, Structural, Hash)]
pub struct TxOutput {
    pub value: u64,
    pub owner: Address,
}

/// An input: the output it spends and the owner's signature over the
/// spending transaction's signature hash.
#[derive(Clone, Debug, PartialEq, Eq)]
pub struct TxInput {
    pub outpoint: OutPoint,
    pub signature: Vec<u8>,
}

/// A transaction: inputs, outputs and free-form extra data.
#[derive(Clone, Debug, PartialEq, Eq)]
pub struct Transaction {
    inputs: Vec<TxInput>,
    outputs: Vec<TxOutput>,
    extra: Vec<u8>,
}

/// Why a payload could not be decoded.
#[derive(Clone, Copy, Debug, PartialEq, Eq, Structural)]
pub enum DecodeError {
    /// The bytes are not the encoding of a list of transactions: they end
    /// inside a count or a record, or bytes remain after the last one.
    Malformed,
}

/// The mathematical value of an input.
pub struct InputView {
    pub outpoint: OutPoint,
    pub signature: Seq<u8>,
}

/// The mathematical value of a transaction.
pub struct TxView {
    pub inputs: Seq<InputView>,
    pub outputs: Seq<TxOutput>,
    pub extra: Seq<u8>,
}

// ---------------------------------------------------------------------------
// The encoding, as a specification.

/// Two words as 32 little-endian bytes.
pub open spec fn words_bytes(a: u128, b: u128) -> Seq<u8> {
    le_bytes(a as nat, 16) + le_bytes(b as nat, 16)
}

/// The two words whose bytes are `s` (32 bytes).
pub open spec fn bytes_words(s: Seq<u8>) -> (u128, u128) {
    (le_value(s.subrange(0, 16)) as u128, le_value(s.subrange(16, 32)) as u128)
}

/// A txid as bytes.
pub open spec fn txid_bytes(t: TxId) -> Seq<u8> {
    words_bytes(t.0, t.1)
}

/// An address as bytes: the public key it stands for.
pub open spec fn address_bytes(a: Address) -> Seq<u8> {
    words_bytes(a.0, a.1)
}

/// The txid whose 32 bytes are `s`.
pub open spec fn txid_of_bytes(s: Seq<u8>) -> TxId {
    TxId(bytes_words(s).0, bytes_words(s).1)
}

/// The address of the public key `s`.
pub open spec fn address_of_key(s: Seq<u8>) -> Address {
    Address(bytes_words(s).0, bytes_words(s).1)
}

/// An outpoint: txid then index.
pub open spec fn outpoint_bytes(op: OutPoint) -> Seq<u8> {
    txid_bytes(op.txid) + le_bytes(op.index as nat, 4)
}

/// An input: outpoint then signature.
pub open spec fn input_bytes(i: InputView) -> Seq<u8> {
    outpoint_bytes(i.outpoint) + i.signature
}

/// An output: value then owner.
pub open spec fn output_bytes(o: TxOutput) -> Seq<u8> {
    le_bytes(o.value as nat, 8) + address_bytes(o.owner)
}

/// Inputs, one after another.
pub open spec fn inputs_bytes(s: Seq<InputView>) -> Seq<u8>
    decreases s.len(),
{
    if s.len() == 0 {
        Seq::empty()
    } else {
        input_bytes(s[0]) + inputs_bytes(s.drop_first())
    }
}

/// The outpoints of inputs, one after another (signatures left out).
pub open spec fn outpoints_bytes(s: Seq<InputView>) -> Seq<u8>
    decreases s.len(),
{
    if s.len() == 0 {
        Seq::empty()
    } else {
        outpoint_bytes(s[0].outpoint) + outpoints_bytes(s.drop_first())
    }
}

/// Outputs, one after another.
pub open spec fn outputs_bytes(s: Seq<TxOutput>) -> Seq<u8>
    decreases s.len(),
{
    if s.len() == 0 {
        Seq::empty()
    } else {
        output_bytes(s[0]) + outputs_bytes(s.drop_first())
    }
}

/// A length as four bytes.
pub open spec fn len_bytes(n: nat) -> Seq<u8> {
    le_bytes(n, 4)
}

/// The canonical encoding of a transaction.
pub open spec fn tx_bytes(t: TxView) -> Seq<u8> {
    len_bytes(t.inputs.len()) + inputs_bytes(t.inputs) + len_bytes(t.outputs.len()) + outputs_bytes(t.outputs)
        + len_bytes(t.extra.len()) + t.extra
}

/// The encoding a transaction's signatures sign: as `tx_bytes`, without the
/// signatures.
pub open spec fn unsigned_bytes(t: TxView) -> Seq<u8> {
    len_bytes(t.inputs.len()) + outpoints_bytes(t.inputs) + len_bytes(t.outputs.len()) + outputs_bytes(t.outputs)
        + len_bytes(t.extra.len()) + t.extra
}

/// Transactions, one after another.
pub open spec fn txs_bytes(s: Seq<TxView>) -> Seq<u8>
    decreases s.len(),
{
    if s.len() == 0 {
        Seq::empty()
    } else {
        tx_bytes(s[0]) + txs_bytes(s.drop_first())
    }
}

/// The canonical encoding of a block payload.
pub open spec fn payload_bytes(s: Seq<TxView>) -> Seq<u8> {
    len_bytes(s.len()) + txs_bytes(s)
}

/// A transaction the encoding can carry: its counts fit in four bytes and
/// every signature is 64 bytes.
pub open spec fn tx_fits(t: TxView) -> bool {
    &&& t.inputs.len() < 0x1_0000_0000
    &&& t.outputs.len() < 0x1_0000_0000
    &&& t.extra.len() < 0x1_0000_0000
    &&& forall|j: int| 0 <= j < t.inputs.len() ==> (#[trigger] t.inputs[j]).signature.len() == 64
}

/// A payload the encoding can carry.
pub open spec fn payload_fits(s: Seq<TxView>) -> bool {
    &&& s.len() < 0x1_0000_0000
    &&& forall|j: int| 0 <= j < s.len() ==> tx_fits(#[trigger] s[j])
}

/// `bytes` is the encoding of the transactions `s`.
pub open spec fn encodes(bytes: Seq<u8>, s: Seq<TxView>) -> bool {
    payload_fits(s) && payload_bytes(s) == bytes
}

/// The id of a transaction.
pub open spec fn tx_id(t: TxView) -> TxId {
    txid_of_bytes(blake3_digest(tx_bytes(t)))
}

/// The digest a transaction's inputs sign.
pub open spec fn tx_sighash(t: TxView) -> Seq<u8> {
    blake3_digest(unsigned_bytes(t))
}

/// The views of a list of transactions.
pub open spec fn views(s: Seq<Transaction>) -> Seq<TxView> {
    s.map_values(|t: Transaction| t@)
}

/// The views of a list of inputs.
pub open spec fn input_views(s: Seq<TxInput>) -> Seq<InputView> {
    s.map_values(|i: TxInput| i@)
}

impl View for TxInput {
    type V = InputView;

    open spec fn view(&self) -> InputView {
        InputView { outpoint: self.outpoint, signature: self.signature@ }
    }
}

impl View for Transaction {
    type V = TxView;

    closed spec fn view(&self) -> TxView {
        TxView { inputs: input_views(self.inputs@), outputs: self.outputs@, extra: self.extra@ }
    }
}

// ---------------------------------------------------------------------------
// Sequence facts.

/// Appending one element to a list appends its bytes.
pub proof fn lemma_inputs_bytes_push(s: Seq<InputView>, x: InputView)
    ensures
        inputs_bytes(s.push(x)) == inputs_bytes(s) + input_bytes(x),
    decreases s.len(),
{
    if s.len() == 0 {
        assert(s.push(x).drop_first() =~= Seq::<InputView>::empty());
        assert(s.push(x)[0] == x);
        assert(inputs_bytes(Seq::<InputView>::empty()) == Seq::<u8>::empty());
        assert(inputs_bytes(s) == Seq::<u8>::empty());
        assert(inputs_bytes(s.push(x)) =~= input_bytes(x));
    } else {
        lemma_inputs_bytes_push(s.drop_first(), x);
        assert(s.push(x).drop_first() =~= s.drop_first().push(x));
        assert(inputs_bytes(s.push(x)) =~= inputs_bytes(s) + input_bytes(x));
    }
}

/// Appending one element to a list appends its outpoint bytes.
pub proof fn lemma_outpoints_bytes_push(s: Seq<InputView>, x: InputView)
    ensures
        outpoints_bytes(s.push(x)) == outpoints_bytes(s) + outpoint_bytes(x.outpoint),
    decreases s.len(),
{
    if s.len() == 0 {
        assert(s.push(x).drop_first() =~= Seq::<InputView>::empty());
        assert(s.push(x)[0] == x);
        assert(outpoints_bytes(Seq::<InputView>::empty()) == Seq::<u8>::empty());
        assert(outpoints_bytes(s) == Seq::<u8>::empty());
        assert(outpoints_bytes(s.push(x)) =~= outpoint_bytes(x.outpoint));
    } else {
        lemma_outpoints_bytes_push(s.drop_first(), x);
        assert(s.push(x).drop_first() =~= s.drop_first().push(x));
        assert(outpoints_bytes(s.push(x)) =~= outpoints_bytes(s) + outpoint_bytes(x.outpoint));
    }
}

/// Appending one element to a list appends its bytes.
pub proof fn lemma_outputs_bytes_push(s: Seq<TxOutput>, x: TxOutput)
    ensures
        outputs_bytes(s.push(x)) == outputs_bytes(s) + output_bytes(x),
    decreases s.len(),
{
    if s.len() == 0 {
        assert(s.push(x).drop_first() =~= Seq::<TxOutput>::empty());
        assert(s.push(x)[0] == x);
        assert(outputs_bytes(Seq::<TxOutput>::empty()) == Seq::<u8>::empty());
        assert(outputs_bytes(s) == Seq::<u8>::empty());
        assert(outputs_bytes(s.push(x)) =~= output_bytes(x));
    } else {
        lemma_outputs_bytes_push(s.drop_first(), x);
        assert(s.push(x).drop_first() =~= s.drop_first().push(x));
        assert(outputs_bytes(s.push(x)) =~= outputs_bytes(s) + output_bytes(x));
    }
}

/// Appending one transaction to a list appends its bytes.
pub proof fn lemma_txs_bytes_push(s: Seq<TxView>, x: TxView)
    ensures
        txs_bytes(s.push(x)) == txs_bytes(s) + tx_bytes(x),
    decreases s.len(),
{
    if s.len() == 0 {
        assert(s.push(x).drop_first() =~= Seq::<TxView>::empty());
        assert(s.push(x)[0] == x);
        assert(txs_bytes(Seq::<TxView>::empty()) == Seq::<u8>::empty());
        assert(txs_bytes(s) == Seq::<u8>::empty());
        assert(txs_bytes(s.push(x)) =~= tx_bytes(x));
    } else {
        lemma_txs_bytes_push(s.drop_first(), x);
        assert(s.push(x).drop_first() =~= s.drop_first().push(x));
        assert(txs_bytes(s.push(x)) =~= txs_bytes(s) + tx_bytes(x));
    }
}

/// The signature-less bytes of inputs depend only on their outpoints.
pub proof fn lemma_outpoints_bytes_same(s1: Seq<InputView>, s2: Seq<InputView>)
    requires
        s1.len() == s2.len(),
        forall|j: int| 0 <= j < s1.len() ==> (#[trigger] s1[j]).outpoint == s2[j].outpoint,
    ensures
        outpoints_bytes(s1) == outpoints_bytes(s2),
    decreases s1.len(),
{
    if s1.len() > 0 {
        assert forall|j: int| 0 <= j < s1.drop_first().len() implies (#[trigger] s1.drop_first()[j]).outpoint
            == s2.drop_first()[j].outpoint by {
            assert(s1.drop_first()[j] == s1[j + 1]);
            assert(s2.drop_first()[j] == s2[j + 1]);
        }
        lemma_outpoints_bytes_same(s1.drop_first(), s2.drop_first());
        assert(s1[0].outpoint == s2[0].outpoint);
    }
}

// ---------------------------------------------------------------------------
// Encoders.

/// Append the bytes of `s` to `out`.
fn push_all(out: &mut Vec<u8>, s: &[u8])
    ensures
        final(out)@ == old(out)@ + s@,
{
    let ghost start = old(out)@;
    let mut i: usize = 0;
    while i < s.len()
        invariant
            i <= s@.len(),
            out@ == start + s@.subrange(0, i as int),
        decreases s@.len() - i,
    {
        out.push(s[i]);
        proof {
            assert(out@ =~= start + s@.subrange(0, i + 1));
        }
        i = i + 1;
    }
    proof {
        assert(s@.subrange(0, s@.len() as int) =~= s@);
    }
}

/// Append two words as 32 bytes.
fn push_words(out: &mut Vec<u8>, a: u128, b: u128)
    ensures
        final(out)@ == old(out)@ + words_bytes(a, b),
{
    push_le(out, a, 16);
    push_le(out, b, 16);
    proof {
        assert(final(out)@ =~= old(out)@ + words_bytes(a, b));
    }
}

/// Append an outpoint.
fn push_outpoint(out: &mut Vec<u8>, op: &OutPoint)
    ensures
        final(out)@ == old(out)@ + outpoint_bytes(*op),
{
    push_words(out, op.txid.0, op.txid.1);
    push_le(out, op.index as u128, 4);
    proof {
        assert(final(out)@ =~= old(out)@ + outpoint_bytes(*op));
    }
}

/// Append an output.
fn push_output(out: &mut Vec<u8>, o: &TxOutput)
    ensures
        final(out)@ == old(out)@ + output_bytes(*o),
{
    push_le(out, o.value as u128, 8);
    push_words(out, o.owner.0, o.owner.1);
    proof {
        assert(final(out)@ =~= old(out)@ + output_bytes(*o));
    }
}

impl TxId {
    /// The id with these 32 bytes.
    pub fn from_bytes(bytes: [u8; 32]) -> (r: TxId)
        ensures
            r == txid_of_bytes(bytes@),
    {
        let s = bytes.as_slice();
        let a = read_le(s, 0, 16);
        let b = read_le(s, 16, 16);
        TxId(a, b)
    }

    /// The 32 bytes of this id.
    pub fn to_bytes(&self) -> (r: Vec<u8>)
        ensures
            r@ == txid_bytes(*self),
    {
        let mut out: Vec<u8> = Vec::new();
        push_words(&mut out, self.0, self.1);
        proof {
            assert(out@ =~= txid_bytes(*self));
        }
        out
    }
}

impl Address {
    /// The 32 public-key bytes this address stands for.
    pub fn to_bytes(&self) -> (r: Vec<u8>)
        ensures
            r@ == address_bytes(*self),
            r@.len() == 32,
    {
        let mut out: Vec<u8> = Vec::new();
        push_words(&mut out, self.0, self.1);
        proof {
            assert(out@ =~= address_bytes(*self));
            lemma_le_bytes_len(self.0 as nat, 16);
            lemma_le_bytes_len(self.1 as nat, 16);
        }
        out
    }
}

impl OutPoint {
    /// The output `index` of transaction `txid`.
    pub fn new(txid: TxId, index: u32) -> (r: OutPoint)
        ensures
            r == (OutPoint { txid, index }),
    {
        OutPoint { txid, index }
    }
}

impl TxOutput {
    /// An output of `value` locked to `owner`.
    pub fn new(value: u64, owner: Address) -> (r: TxOutput)
        ensures
            r == (TxOutput { value, owner }),
    {
        TxOutput { value, owner }
    }
}

impl Transaction {
    /// A transaction from its parts.
    pub fn from_parts(inputs: Vec<TxInput>, outputs: Vec<TxOutput>, extra: Vec<u8>) -> (t: Transaction)
        ensures
            t@.inputs == input_views(inputs@),
            t@.outputs == outputs@,
            t@.extra == extra@,
    {
        Transaction { inputs, outputs, extra }
    }

    /// A coinbase: no inputs, the given outputs and extra data.
    pub fn coinbase(outputs: Vec<TxOutput>, extra: Vec<u8>) -> (t: Transaction)
        ensures
            t@.inputs.len() == 0,
            t@.outputs == outputs@,
            t@.extra == extra@,
    {
        let t = Transaction { inputs: Vec::new(), outputs, extra };
        proof {
            assert(t@.inputs =~= Seq::<InputView>::empty());
        }
        t
    }

    /// A transaction spending each `(outpoint, key)` of `spends`, each input
    /// signed by its key over the transaction's signature hash, with the given
    /// outputs and extra data.
    pub fn signed(spends: &[(OutPoint, &KeyPair)], outputs: Vec<TxOutput>, extra: Vec<u8>) -> (t: Transaction)
        ensures
            t@.outputs == outputs@,
            t@.extra == extra@,
            t@.inputs.len() == spends@.len(),
            forall|j: int| 0 <= j < spends@.len() ==> (#[trigger] t@.inputs[j]).outpoint == spends@[j].0,
            forall|j: int| 0 <= j < spends@.len() ==> (#[trigger] t@.inputs[j]).signature == ed25519_signature(
                spends@[j].1.secret_view(),
                tx_sighash(t@),
            ),
            forall|j: int| 0 <= j < spends@.len() ==> (#[trigger] t@.inputs[j]).signature.len() == 64,
            forall|j: int| 0 <= j < spends@.len() ==> ed25519_verifies(
                address_bytes(spends@[j].1.address_spec()),
                tx_sighash(t@),
                (#[trigger] t@.inputs[j]).signature,
            ),
    {
        let mut unsigned: Vec<TxInput> = Vec::new();
        let mut i: usize = 0;
        while i < spends.len()
            invariant
                i <= spends@.len(),
                unsigned@.len() == i,
                forall|j: int| 0 <= j < i ==> (#[trigger] unsigned@[j]).outpoint == spends@[j].0,
            decreases spends@.len() - i,
        {
            unsigned.push(TxInput { outpoint: spends[i].0, signature: Vec::new() });
            i = i + 1;
        }
        let draft = Transaction { inputs: unsigned, outputs, extra };
        let h = draft.sighash();
        let mut inputs: Vec<TxInput> = Vec::new();
        let mut k: usize = 0;
        while k < spends.len()
            invariant
                k <= spends@.len(),
                inputs@.len() == k,
                h@ == tx_sighash(draft@),
                forall|j: int| 0 <= j < k ==> (#[trigger] inputs@[j]).outpoint == spends@[j].0,
                forall|j: int| 0 <= j < k ==> (#[trigger] inputs@[j]).signature@ == ed25519_signature(
                    spends@[j].1.secret_view(),
                    h@,
                ),
                forall|j: int| 0 <= j < k ==> (#[trigger] inputs@[j]).signature@.len() == 64,
                forall|j: int| 0 <= j < k ==> ed25519_verifies(
                    address_bytes(spends@[j].1.address_spec()),
                    h@,
                    (#[trigger] inputs@[j]).signature@,
                ),
            decreases spends@.len() - k,
        {
            let (op, key) = spends[k];
            let sig = key.sign(h.as_slice());
            inputs.push(TxInput { outpoint: op, signature: sig });
            k = k + 1;
        }
        let Transaction { inputs: _unused, outputs, extra } = draft;
        let t = Transaction { inputs, outputs, extra };
        proof {
            let a = input_views(t.inputs@);
            let b = draft@.inputs;
            assert forall|j: int| 0 <= j < a.len() implies (#[trigger] a[j]).outpoint == b[j].outpoint by {
                assert(a[j] == t.inputs@[j]@);
                assert(b[j] == draft.inputs@[j]@);
            }
            lemma_outpoints_bytes_same(a, b);
            assert(unsigned_bytes(t@) =~= unsigned_bytes(draft@));
            assert forall|j: int| 0 <= j < spends@.len() implies (#[trigger] t@.inputs[j]).outpoint == spends@[j].0 by {
                assert(t@.inputs[j] == t.inputs@[j]@);
            }
            assert forall|j: int| 0 <= j < spends@.len() implies (#[trigger] t@.inputs[j]).signature == ed25519_signature(
                spends@[j].1.secret_view(),
                tx_sighash(t@),
            ) && t@.inputs[j].signature.len() == 64 && ed25519_verifies(
                address_bytes(spends@[j].1.address_spec()),
                tx_sighash(t@),
                t@.inputs[j].signature,
            ) by {
                assert(t@.inputs[j] == t.inputs@[j]@);
            }
        }
        t
    }

    /// A copy of this transaction.
    pub fn duplicate(&self) -> (r: Transaction)
        ensures
            r@ == self@,
    {
        let mut inputs: Vec<TxInput> = Vec::new();
        let mut i: usize = 0;
        while i < self.inputs.len()
            invariant
                i <= self.inputs@.len(),
                inputs@.len() == i,
                forall|j: int| 0 <= j < i ==> (#[trigger] inputs@[j])@ == self.inputs@[j]@,
            decreases self.inputs@.len() - i,
        {
            let inp = &self.inputs[i];
            let mut sig: Vec<u8> = Vec::new();
            push_all(&mut sig, inp.signature.as_slice());
            proof {
                assert(sig@ =~= inp.signature@);
            }
            inputs.push(TxInput { outpoint: inp.outpoint, signature: sig });
            i = i + 1;
        }
        let mut outputs: Vec<TxOutput> = Vec::new();
        let mut j: usize = 0;
        while j < self.outputs.len()
            invariant
                j <= self.outputs@.len(),
                outputs@ == self.outputs@.subrange(0, j as int),
            decreases self.outputs@.len() - j,
        {
            outputs.push(self.outputs[j]);
            proof {
                assert(outputs@ =~= self.outputs@.subrange(0, j + 1));
            }
            j = j + 1;
        }
        let mut extra: Vec<u8> = Vec::new();
        push_all(&mut extra, self.extra.as_slice());
        let r = Transaction { inputs, outputs, extra };
        proof {
            assert(outputs@ =~= self.outputs@);
            assert(extra@ =~= self.extra@);
            assert(r@.inputs =~= self@.inputs) by {
                assert forall|k: int| 0 <= k < r@.inputs.len() implies r@.inputs[k] == self@.inputs[k] by {
                    assert(r@.inputs[k] == r.inputs@[k]@);
                    assert(self@.inputs[k] == self.inputs@[k]@);
                }
            }
        }
        r
    }

    /// Whether this is a coinbase (it has no inputs).
    pub fn is_coinbase(&self) -> (r: bool)
        ensures
            r == (self@.inputs.len() == 0),
    {
        self.inputs.len() == 0
    }

    /// The inputs.
    pub fn inputs(&self) -> (r: &[TxInput])
        ensures
            input_views(r@) == self@.inputs,
            r@.len() == self@.inputs.len(),
    {
        self.inputs.as_slice()
    }

    /// The outputs.
    pub fn outputs(&self) -> (r: &[TxOutput])
        ensures
            r@ == self@.outputs,
    {
        self.outputs.as_slice()
    }

    /// The extra data.
    pub fn extra(&self) -> (r: &[u8])
        ensures
            r@ == self@.extra,
    {
        self.extra.as_slice()
    }

    /// Append the encoding, or with `signed == false` the signature-less
    /// encoding, of this transaction.
    fn encode_into(&self, out: &mut Vec<u8>, signed: bool)
        ensures
            signed ==> final(out)@ == old(out)@ + tx_bytes(self@),
            !signed ==> final(out)@ == old(out)@ + unsigned_bytes(self@),
    {
        let ghost start = old(out)@;
        let ghost t = self@;
        push_le(out, self.inputs.len() as u128, 4);
        let ghost head = out@;
        let mut i: usize = 0;
        while i < self.inputs.len()
            invariant
                t == self@,
                i <= self.inputs@.len(),
                signed ==> out@ == head + inputs_bytes(input_views(self.inputs@.subrange(0, i as int))),
                !signed ==> out@ == head + outpoints_bytes(input_views(self.inputs@.subrange(0, i as int))),
            decreases self.inputs@.len() - i,
        {
            let inp = &self.inputs[i];
            push_outpoint(out, &inp.outpoint);
            if signed {
                push_all(out, inp.signature.as_slice());
            }
            proof {
                let pre = input_views(self.inputs@.subrange(0, i as int));
                let nxt = input_views(self.inputs@.subrange(0, i + 1));
                assert(nxt =~= pre.push(self.inputs@[i as int]@));
                lemma_inputs_bytes_push(pre, self.inputs@[i as int]@);
                lemma_outpoints_bytes_push(pre, self.inputs@[i as int]@);
                if signed {
                    assert(out@ =~= head + inputs_bytes(nxt));
                } else {
                    assert(out@ =~= head + outpoints_bytes(nxt));
                }
            }
            i = i + 1;
        }
        proof {
            assert(self.inputs@.subrange(0, self.inputs@.len() as int) =~= self.inputs@);
        }
        push_le(out, self.outputs.len() as u128, 4);
        let ghost head2 = out@;
        let mut j: usize = 0;
        while j < self.outputs.len()
            invariant
                j <= self.outputs@.len(),
                out@ == head2 + outputs_bytes(self.outputs@.subrange(0, j as int)),
            decreases self.outputs@.len() - j,
        {
            push_output(out, &self.outputs[j]);
            proof {
                assert(self.outputs@.subrange(0, j + 1) =~= self.outputs@.subrange(0, j as int).push(self.outputs@[j as int]));
                lemma_outputs_bytes_push(self.outputs@.subrange(0, j as int), self.outputs@[j as int]);
                assert(out@ =~= head2 + outputs_bytes(self.outputs@.subrange(0, j + 1)));
            }
            j = j + 1;
        }
        proof {
            assert(self.outputs@.subrange(0, self.outputs@.len() as int) =~= self.outputs@);
        }
        push_le(out, self.extra.len() as u128, 4);
        push_all(out, self.extra.as_slice());
        proof {
            if signed {
                assert(out@ =~= start + tx_bytes(t));
            } else {
                assert(out@ =~= start + unsigned_bytes(t));
            }
        }
    }

    /// The canonical encoding of this transaction.
    pub fn encode(&self) -> (r: Vec<u8>)
        ensures
            r@ == tx_bytes(self@),
    {
        let mut out: Vec<u8> = Vec::new();
        self.encode_into(&mut out, true);
        proof {
            assert(out@ =~= tx_bytes(self@));
        }
        out
    }

    /// The transaction id: the BLAKE3 digest of the canonical encoding.
    pub fn id(&self) -> (r: TxId)
        ensures
            r == tx_id(self@),
    {
        let enc = self.encode();
        let d = blake3_hash(enc.as_slice());
        TxId::from_bytes(d)
    }

    /// The signature hash: the BLAKE3 digest of the encoding without
    /// signatures, which every input signs.
    pub fn sighash(&self) -> (r: [u8; 32])
        ensures
            r@ == tx_sighash(self@),
    {
        let mut out: Vec<u8> = Vec::new();
        self.encode_into(&mut out, false);
        proof {
            assert(out@ =~= unsigned_bytes(self@));
        }
        blake3_hash(out.as_slice())
    }
}

/// The canonical payload for a block carrying `txs`.
pub fn encode_block_payload(txs: &[Transaction]) -> (r: Vec<u8>)
    ensures
        r@ == payload_bytes(views(txs@)),
{
    let mut out: Vec<u8> = Vec::new();
    push_le(&mut out, txs.len() as u128, 4);
    let ghost head = out@;
    let mut i: usize = 0;
    while i < txs.len()
        invariant
            i <= txs@.len(),
            out@ == head + txs_bytes(views(txs@.subrange(0, i as int))),
        decreases txs@.len() - i,
    {
        txs[i].encode_into(&mut out, true);
        proof {
            let pre = views(txs@.subrange(0, i as int));
            assert(views(txs@.subrange(0, i + 1)) =~= pre.push(txs@[i as int]@));
            lemma_txs_bytes_push(pre, txs@[i as int]@);
            assert(out@ =~= head + txs_bytes(views(txs@.subrange(0, i + 1))));
        }
        i = i + 1;
    }
    proof {
        assert(txs@.subrange(0, txs@.len() as int) =~= txs@);
        assert(out@ =~= payload_bytes(views(txs@)));
    }
    out
}

} // verus!
