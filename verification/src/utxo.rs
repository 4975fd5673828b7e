//! The set of unspent transaction outputs, keyed by outpoint.
use vstd::prelude::*;

use crate::tx::{Address, OutPoint, TxOutput};

verus! {

/// One unspent output and the outpoint that names it.
pub type UtxoEntry = (OutPoint, TxOutput);

/// `op` names one of the entries.
pub open spec fn has_key(s: Seq<UtxoEntry>, op: OutPoint) -> bool {
    exists|i: int| 0 <= i < s.len() && #[trigger] s[i].0 == op
}

/// No outpoint names two entries.
pub open spec fn keys_distinct(s: Seq<UtxoEntry>) -> bool {
    forall|i: int, j: int| 0 <= i < s.len() && 0 <= j < s.len() && i != j ==> #[trigger] s[i].0 != #[trigger] s[j].0
}

/// The entries as a map from outpoint to output.
pub open spec fn map_of(s: Seq<UtxoEntry>) -> Map<OutPoint, TxOutput> {
    Map::new(
        |op: OutPoint| has_key(s, op),
        |op: OutPoint| s[choose|i: int| 0 <= i < s.len() && #[trigger] s[i].0 == op].1,
    )
}

/// Total value of the entries.
pub open spec fn sum_values(s: Seq<UtxoEntry>) -> int
    decreases s.len(),
{
    if s.len() == 0 {
        0
    } else {
        sum_values(s.drop_last()) + s.last().1.value
    }
}

/// Total value of the entries owned by `a`.
pub open spec fn sum_owned(s: Seq<UtxoEntry>, a: Address) -> int
    decreases s.len(),
{
    if s.len() == 0 {
        0
    } else {
        sum_owned(s.drop_last(), a) + if s.last().1.owner == a { s.last().1.value as int } else { 0int }
    }
}

pub proof fn lemma_map_of_at(s: Seq<UtxoEntry>, i: int)
    requires
        keys_distinct(s),
        0 <= i < s.len(),
    ensures
        map_of(s).contains_key(s[i].0),
        map_of(s)[s[i].0] == s[i].1,
{
    let op = s[i].0;
    assert(has_key(s, op));
    let j = choose|j: int| 0 <= j < s.len() && #[trigger] s[j].0 == op;
    assert(s[j].0 == s[i].0);
}

proof fn lemma_map_of_push(s: Seq<UtxoEntry>, x: UtxoEntry)
    requires
        keys_distinct(s),
        !has_key(s, x.0),
    ensures
        keys_distinct(s.push(x)),
        map_of(s.push(x)) == map_of(s).insert(x.0, x.1),
{
    let t = s.push(x);
    assert(keys_distinct(t)) by {
        assert forall|i: int, j: int| 0 <= i < t.len() && 0 <= j < t.len() && i != j implies #[trigger] t[i].0 != #[trigger] t[j].0 by {
            if i < s.len() && j < s.len() {
                assert(t[i] == s[i] && t[j] == s[j]);
            } else if i < s.len() {
                assert(t[i] == s[i]);
            } else {
                assert(t[j] == s[j]);
            }
        }
    }
    assert forall|op: OutPoint| #[trigger] map_of(t).contains_key(op) == map_of(s).insert(x.0, x.1).contains_key(op) by {
        if has_key(s, op) {
            let i = choose|i: int| 0 <= i < s.len() && #[trigger] s[i].0 == op;
            assert(t[i].0 == op);
        }
        if has_key(t, op) && op != x.0 {
            let i = choose|i: int| 0 <= i < t.len() && #[trigger] t[i].0 == op;
            assert(s[i].0 == op);
        }
        if op == x.0 {
            assert(t[s.len() as int].0 == op);
        }
    }
    assert forall|op: OutPoint| #[trigger] map_of(t).contains_key(op) implies map_of(t)[op] == map_of(s).insert(x.0, x.1)[op] by {
        let i = choose|i: int| 0 <= i < t.len() && #[trigger] t[i].0 == op;
        lemma_map_of_at(t, i);
        if i < s.len() {
            assert(t[i] == s[i]);
            lemma_map_of_at(s, i);
        }
    }
    assert(map_of(t) =~= map_of(s).insert(x.0, x.1));
}

proof fn lemma_map_of_update(s: Seq<UtxoEntry>, i: int, x: UtxoEntry)
    requires
        keys_distinct(s),
        0 <= i < s.len(),
        s[i].0 == x.0,
    ensures
        keys_distinct(s.update(i, x)),
        map_of(s.update(i, x)) == map_of(s).insert(x.0, x.1),
{
    let t = s.update(i, x);
    assert(keys_distinct(t)) by {
        assert forall|a: int, b: int| 0 <= a < t.len() && 0 <= b < t.len() && a != b implies #[trigger] t[a].0 != #[trigger] t[b].0 by {
            assert(t[a].0 == s[a].0);
            assert(t[b].0 == s[b].0);
        }
    }
    assert forall|op: OutPoint| #[trigger] map_of(t).contains_key(op) == map_of(s).insert(x.0, x.1).contains_key(op) by {
        if has_key(s, op) {
            let j = choose|j: int| 0 <= j < s.len() && #[trigger] s[j].0 == op;
            assert(t[j].0 == op);
        }
        if has_key(t, op) {
            let j = choose|j: int| 0 <= j < t.len() && #[trigger] t[j].0 == op;
            assert(s[j].0 == op);
        }
        if op == x.0 {
            assert(s[i].0 == op);
        }
    }
    assert forall|op: OutPoint| #[trigger] map_of(t).contains_key(op) implies map_of(t)[op] == map_of(s).insert(x.0, x.1)[op] by {
        let j = choose|j: int| 0 <= j < t.len() && #[trigger] t[j].0 == op;
        lemma_map_of_at(t, j);
        if j != i {
            assert(t[j] == s[j]);
            lemma_map_of_at(s, j);
        }
    }
    assert(map_of(t) =~= map_of(s).insert(x.0, x.1));
}

proof fn lemma_map_of_remove(s: Seq<UtxoEntry>, i: int)
    requires
        keys_distinct(s),
        0 <= i < s.len(),
    ensures
        keys_distinct(s.remove(i)),
        map_of(s.remove(i)) == map_of(s).remove(s[i].0),
{
    let t = s.remove(i);
    let k = s[i].0;
    assert forall|j: int| 0 <= j < t.len() implies #[trigger] t[j] == if j < i { s[j] } else { s[j + 1] } by {}
    assert(keys_distinct(t)) by {
        assert forall|a: int, b: int| 0 <= a < t.len() && 0 <= b < t.len() && a != b implies #[trigger] t[a].0 != #[trigger] t[b].0 by {
            let a2 = if a < i { a } else { a + 1 };
            let b2 = if b < i { b } else { b + 1 };
            assert(t[a] == s[a2]);
            assert(t[b] == s[b2]);
        }
    }
    assert forall|op: OutPoint| #[trigger] map_of(t).contains_key(op) == map_of(s).remove(k).contains_key(op) by {
        if has_key(s, op) && op != k {
            let j = choose|j: int| 0 <= j < s.len() && #[trigger] s[j].0 == op;
            assert(j != i);
            let j2 = if j < i { j } else { j - 1 };
            assert(t[j2] == s[j]);
        }
        if has_key(t, op) {
            let j = choose|j: int| 0 <= j < t.len() && #[trigger] t[j].0 == op;
            let j2 = if j < i { j } else { j + 1 };
            assert(t[j] == s[j2]);
            assert(j2 != i);
            assert(s[j2].0 != s[i].0);
        }
    }
    assert forall|op: OutPoint| #[trigger] map_of(t).contains_key(op) implies map_of(t)[op] == map_of(s).remove(k)[op] by {
        let j = choose|j: int| 0 <= j < t.len() && #[trigger] t[j].0 == op;
        lemma_map_of_at(t, j);
        let j2 = if j < i { j } else { j + 1 };
        assert(t[j] == s[j2]);
        lemma_map_of_at(s, j2);
    }
    assert(map_of(t) =~= map_of(s).remove(k));
}

proof fn lemma_sums_push(s: Seq<UtxoEntry>, x: UtxoEntry)
    ensures
        sum_values(s.push(x)) == sum_values(s) + x.1.value,
        forall|a: Address| #[trigger] sum_owned(s.push(x), a) == sum_owned(s, a) + if x.1.owner == a {
            x.1.value as int
        } else {
            0int
        },
{
    assert(s.push(x).drop_last() =~= s);
}

proof fn lemma_sums_update(s: Seq<UtxoEntry>, i: int, x: UtxoEntry)
    requires
        0 <= i < s.len(),
    ensures
        sum_values(s.update(i, x)) == sum_values(s) - s[i].1.value + x.1.value,
        forall|a: Address| #[trigger] sum_owned(s.update(i, x), a) == sum_owned(s, a) - (if s[i].1.owner == a {
            s[i].1.value as int
        } else {
            0int
        }) + (if x.1.owner == a {
            x.1.value as int
        } else {
            0int
        }),
    decreases s.len(),
{
    let t = s.update(i, x);
    if i == s.len() - 1 {
        assert(t.drop_last() =~= s.drop_last());
        assert forall|a: Address| #[trigger] sum_owned(t, a) == sum_owned(s, a) - (if s[i].1.owner == a {
            s[i].1.value as int
        } else {
            0int
        }) + (if x.1.owner == a {
            x.1.value as int
        } else {
            0int
        }) by {
            assert(sum_owned(t, a) == sum_owned(t.drop_last(), a) + (if t.last().1.owner == a { t.last().1.value as int } else { 0int }));
            assert(sum_owned(s, a) == sum_owned(s.drop_last(), a) + (if s.last().1.owner == a { s.last().1.value as int } else { 0int }));
        }
    } else {
        lemma_sums_update(s.drop_last(), i, x);
        assert(t.drop_last() =~= s.drop_last().update(i, x));
        assert forall|a: Address| #[trigger] sum_owned(t, a) == sum_owned(s, a) - (if s[i].1.owner == a {
            s[i].1.value as int
        } else {
            0int
        }) + (if x.1.owner == a {
            x.1.value as int
        } else {
            0int
        }) by {
            assert(sum_owned(t, a) == sum_owned(t.drop_last(), a) + (if t.last().1.owner == a { t.last().1.value as int } else { 0int }));
            assert(sum_owned(s, a) == sum_owned(s.drop_last(), a) + (if s.last().1.owner == a { s.last().1.value as int } else { 0int }));
            assert(sum_owned(s.drop_last().update(i, x), a) == sum_owned(s.drop_last(), a) - (if s[i].1.owner == a {
                s[i].1.value as int
            } else {
                0int
            }) + (if x.1.owner == a {
                x.1.value as int
            } else {
                0int
            }));
        }
    }
}

proof fn lemma_sums_remove(s: Seq<UtxoEntry>, i: int)
    requires
        0 <= i < s.len(),
    ensures
        sum_values(s.remove(i)) == sum_values(s) - s[i].1.value,
        forall|a: Address| #[trigger] sum_owned(s.remove(i), a) == sum_owned(s, a) - if s[i].1.owner == a {
            s[i].1.value as int
        } else {
            0int
        },
    decreases s.len(),
{
    let t = s.remove(i);
    if i == s.len() - 1 {
        assert(t =~= s.drop_last());
        assert forall|a: Address| #[trigger] sum_owned(t, a) == sum_owned(s, a) - if s[i].1.owner == a {
            s[i].1.value as int
        } else {
            0int
        } by {
            assert(sum_owned(s, a) == sum_owned(s.drop_last(), a) + (if s.last().1.owner == a { s.last().1.value as int } else { 0int }));
        }
    } else {
        lemma_sums_remove(s.drop_last(), i);
        assert(t.drop_last() =~= s.drop_last().remove(i));
        assert(t.last() == s.last());
        assert forall|a: Address| #[trigger] sum_owned(t, a) == sum_owned(s, a) - if s[i].1.owner == a {
            s[i].1.value as int
        } else {
            0int
        } by {
            assert(sum_owned(t, a) == sum_owned(t.drop_last(), a) + (if t.last().1.owner == a { t.last().1.value as int } else { 0int }));
            assert(sum_owned(s, a) == sum_owned(s.drop_last(), a) + (if s.last().1.owner == a { s.last().1.value as int } else { 0int }));
            assert(sum_owned(s.drop_last().remove(i), a) == sum_owned(s.drop_last(), a) - if s[i].1.owner == a {
                s[i].1.value as int
            } else {
                0int
            });
        }
    }
}

proof fn lemma_sums_bounds(s: Seq<UtxoEntry>, a: Address)
    ensures
        0 <= sum_owned(s, a) <= sum_values(s),
        sum_values(s) <= s.len() * 0xffff_ffff_ffff_ffff,
    decreases s.len(),
{
    if s.len() > 0 {
        lemma_sums_bounds(s.drop_last(), a);
    }
}

/// Total value owned by `a` in the UTXO map `m` (any duplicate-free listing
/// of `m` gives the same sum).
pub open spec fn map_balance(m: Map<OutPoint, TxOutput>, a: Address) -> int {
    sum_owned(choose|s: Seq<UtxoEntry>| keys_distinct(s) && map_of(s) == m, a)
}

/// Total value in the UTXO map `m`.
pub open spec fn map_total(m: Map<OutPoint, TxOutput>) -> int {
    sum_values(choose|s: Seq<UtxoEntry>| keys_distinct(s) && map_of(s) == m)
}

/// Two duplicate-free listings of one map have the same sums.
pub proof fn lemma_sums_perm(s1: Seq<UtxoEntry>, s2: Seq<UtxoEntry>)
    requires
        keys_distinct(s1),
        keys_distinct(s2),
        map_of(s1) == map_of(s2),
    ensures
        sum_values(s1) == sum_values(s2),
        forall|a: Address| #[trigger] sum_owned(s1, a) == sum_owned(s2, a),
    decreases s1.len(),
{
    if s1.len() == 0 {
        if s2.len() > 0 {
            lemma_map_of_at(s2, 0);
        }
    } else {
        let n = s1.len() - 1;
        let x = s1[n];
        lemma_map_of_at(s1, n);
        assert(map_of(s2).contains_key(x.0));
        let j = choose|j: int| 0 <= j < s2.len() && #[trigger] s2[j].0 == x.0;
        lemma_map_of_at(s2, j);
        assert(s2[j] == x);
        lemma_map_of_remove(s1, n);
        lemma_map_of_remove(s2, j);
        assert(s1.remove(n) =~= s1.drop_last());
        lemma_sums_perm(s1.remove(n), s2.remove(j));
        lemma_sums_remove(s1, n);
        lemma_sums_remove(s2, j);
        assert forall|a: Address| #[trigger] sum_owned(s1, a) == sum_owned(s2, a) by {
            assert(sum_owned(s1.remove(n), a) == sum_owned(s2.remove(j), a));
        }
    }
}

/// The unspent outputs.
#[derive(Debug)]
pub struct UtxoSet {
    entries: Vec<UtxoEntry>,
}

impl View for UtxoSet {
    type V = Map<OutPoint, TxOutput>;

    closed spec fn view(&self) -> Map<OutPoint, TxOutput> {
        map_of(self.entries@)
    }
}

impl UtxoSet {
    #[verifier::type_invariant]
    spec fn well_formed(self) -> bool {
        keys_distinct(self.entries@)
    }

    /// Total value of all unspent outputs.
    pub closed spec fn total_spec(&self) -> int {
        sum_values(self.entries@)
    }

    /// Total value of the unspent outputs owned by `a`.
    pub closed spec fn balance_spec(&self, a: Address) -> int {
        sum_owned(self.entries@, a)
    }

    /// The view is a finite map, and the totals are within their bounds.
    pub proof fn lemma_bounds(&self)
        ensures
            self@.dom().finite(),
            self.total_spec() >= 0,
            forall|a: Address| 0 <= #[trigger] self.balance_spec(a) <= self.total_spec(),
    {
        let s = self.entries@;
        assert forall|a: Address| 0 <= #[trigger] self.balance_spec(a) <= self.total_spec() by {
            lemma_sums_bounds(s, a);
        }
        lemma_sums_bounds(s, Address(0, 0));
        // the domain is the image of the entry keys
        let keys = Seq::new(s.len(), |i: int| s[i].0);
        assert forall|op: OutPoint| #[trigger] self@.dom().contains(op) implies keys.to_set().contains(op) by {
            let i = choose|i: int| 0 <= i < s.len() && #[trigger] s[i].0 == op;
            assert(keys[i] == op);
        }
        assert forall|op: OutPoint| #[trigger] keys.to_set().contains(op) implies self@.dom().contains(op) by {
            let i = choose|i: int| 0 <= i < keys.len() && keys[i] == op;
            assert(s[i].0 == op);
        }
        assert(self@.dom() =~= keys.to_set());
        keys.lemma_cardinality_of_set();
    }

    /// The totals kept for this set are the totals of its map.
    pub fn sums_agree(&self)
        ensures
            self.total_spec() == map_total(self@),
            forall|a: Address| #[trigger] self.balance_spec(a) == map_balance(self@, a),
    {
        proof {
            use_type_invariant(self);
            let c = choose|s: Seq<UtxoEntry>| keys_distinct(s) && map_of(s) == self@;
            assert(keys_distinct(self.entries@) && map_of(self.entries@) == self@);
            lemma_sums_perm(self.entries@, c);
        }
    }

    /// An empty set.
    pub fn new() -> (r: UtxoSet)
        ensures
            r@ == Map::<OutPoint, TxOutput>::empty(),
            r.total_spec() == 0,
            forall|a: Address| #[trigger] r.balance_spec(a) == 0,
    {
        let r = UtxoSet { entries: Vec::new() };
        proof {
            assert(r@ =~= Map::<OutPoint, TxOutput>::empty());
        }
        r
    }

    /// Number of unspent outputs.
    pub fn len(&self) -> (r: usize)
        ensures
            r == self@.len(),
    {
        proof {
            use_type_invariant(self);
            self.lemma_len();
        }
        self.entries.len()
    }

    proof fn lemma_len(&self)
        requires
            keys_distinct(self.entries@),
        ensures
            self@.len() == self.entries@.len(),
    {
        let s = self.entries@;
        let keys = Seq::new(s.len(), |i: int| s[i].0);
        assert forall|op: OutPoint| #[trigger] self@.dom().contains(op) == keys.to_set().contains(op) by {
            if self@.dom().contains(op) {
                let i = choose|i: int| 0 <= i < s.len() && #[trigger] s[i].0 == op;
                assert(keys[i] == op);
            }
            if keys.to_set().contains(op) {
                let i = choose|i: int| 0 <= i < keys.len() && keys[i] == op;
                assert(s[i].0 == op);
            }
        }
        assert(self@.dom() =~= keys.to_set());
        assert(keys.no_duplicates()) by {
            assert forall|i: int, j: int| 0 <= i < keys.len() && 0 <= j < keys.len() && i != j implies keys[i] != keys[j] by {
                assert(s[i].0 != s[j].0);
            }
        }
        keys.unique_seq_to_set();
    }

    /// Whether the set is empty.
    pub fn is_empty(&self) -> (r: bool)
        ensures
            r == (self@.len() == 0),
    {
        self.len() == 0
    }

    /// The position of `op` among the entries.
    fn find(&self, op: &OutPoint) -> (r: Option<usize>)
        ensures
            r matches Some(i) ==> i < self.entries@.len() && self.entries@[i as int].0 == *op,
            r is None ==> !has_key(self.entries@, *op),
    {
        let mut i: usize = 0;
        while i < self.entries.len()
            invariant
                i <= self.entries@.len(),
                forall|j: int| 0 <= j < i ==> self.entries@[j].0 != *op,
            decreases self.entries@.len() - i,
        {
            if self.entries[i].0 == *op {
                return Some(i);
            }
            i = i + 1;
        }
        None
    }

    /// The unspent output at `op`, if any.
    pub fn get(&self, op: &OutPoint) -> (r: Option<&TxOutput>)
        ensures
            r is Some <==> self@.contains_key(*op),
            r matches Some(o) ==> *o == self@[*op],
    {
        proof {
            use_type_invariant(self);
        }
        match self.find(op) {
            Some(i) => {
                proof {
                    lemma_map_of_at(self.entries@, i as int);
                }
                Some(&self.entries[i].1)
            },
            None => None,
        }
    }

    /// Whether `op` is unspent.
    pub fn contains(&self, op: &OutPoint) -> (r: bool)
        ensures
            r == self@.contains_key(*op),
    {
        self.get(op).is_some()
    }

    /// Record `out` at `op`, returning the output it replaces, if any.
    pub fn insert(&mut self, op: OutPoint, out: TxOutput) -> (r: Option<TxOutput>)
        ensures
            final(self)@ == old(self)@.insert(op, out),
            r == (if old(self)@.contains_key(op) { Some(old(self)@[op]) } else { None::<TxOutput> }),
            final(self).total_spec() == old(self).total_spec() - (if old(self)@.contains_key(op) {
                old(self)@[op].value as int
            } else {
                0int
            }) + out.value,
            forall|a: Address| #[trigger] final(self).balance_spec(a) == old(self).balance_spec(a) - (if old(self)@.contains_key(op)
                && old(self)@[op].owner == a {
                old(self)@[op].value as int
            } else {
                0int
            }) + (if out.owner == a {
                out.value as int
            } else {
                0int
            }),
    {
        proof {
            use_type_invariant(&*self);
        }
        match self.find(&op) {
            Some(i) => {
                let prev = self.entries[i].1;
                proof {
                    lemma_map_of_at(self.entries@, i as int);
                    lemma_map_of_update(self.entries@, i as int, (op, out));
                    lemma_sums_update(self.entries@, i as int, (op, out));
                }
                let mut e: Vec<UtxoEntry> = Vec::new();
                std::mem::swap(&mut e, &mut self.entries);
                e.set(i, (op, out));
                self.entries = e;
                Some(prev)
            },
            None => {
                proof {
                    lemma_map_of_push(self.entries@, (op, out));
                    lemma_sums_push(self.entries@, (op, out));
                }
                let mut e: Vec<UtxoEntry> = Vec::new();
                std::mem::swap(&mut e, &mut self.entries);
                e.push((op, out));
                self.entries = e;
                None
            },
        }
    }

    /// Remove the output at `op`, returning it, if any.
    pub fn remove(&mut self, op: &OutPoint) -> (r: Option<TxOutput>)
        ensures
            final(self)@ == old(self)@.remove(*op),
            r == (if old(self)@.contains_key(*op) { Some(old(self)@[*op]) } else { None::<TxOutput> }),
            final(self).total_spec() == old(self).total_spec() - (if old(self)@.contains_key(*op) {
                old(self)@[*op].value as int
            } else {
                0int
            }),
            forall|a: Address| #[trigger] final(self).balance_spec(a) == old(self).balance_spec(a) - (if old(self)@.contains_key(*op)
                && old(self)@[*op].owner == a {
                old(self)@[*op].value as int
            } else {
                0int
            }),
    {
        proof {
            use_type_invariant(&*self);
        }
        match self.find(op) {
            Some(i) => {
                proof {
                    lemma_map_of_at(self.entries@, i as int);
                    lemma_map_of_remove(self.entries@, i as int);
                    lemma_sums_remove(self.entries@, i as int);
                }
                let mut e: Vec<UtxoEntry> = Vec::new();
                std::mem::swap(&mut e, &mut self.entries);
                let (_k, v) = e.remove(i);
                self.entries = e;
                Some(v)
            },
            None => {
                proof {
                    assert(self@ =~= self@.remove(*op));
                }
                None
            },
        }
    }

    /// Total value of the unspent outputs owned by `owner`.
    pub fn balance(&self, owner: &Address) -> (r: u128)
        ensures
            r == self.balance_spec(*owner),
            r == map_balance(self@, *owner),
    {
        proof {
            use_type_invariant(self);
            let c = choose|s: Seq<UtxoEntry>| keys_distinct(s) && map_of(s) == self@;
            assert(keys_distinct(self.entries@) && map_of(self.entries@) == self@);
            lemma_sums_perm(self.entries@, c);
        }
        let mut acc: u128 = 0;
        let mut i: usize = 0;
        while i < self.entries.len()
            invariant
                i <= self.entries@.len(),
                acc == sum_owned(self.entries@.subrange(0, i as int), *owner),
            decreases self.entries@.len() - i,
        {
            proof {
                let s = self.entries@.subrange(0, i + 1);
                assert(s.drop_last() =~= self.entries@.subrange(0, i as int));
                lemma_sums_bounds(self.entries@.subrange(0, i as int), *owner);
                assert(i < usize::MAX);
                assert((i as int) * 0xffff_ffff_ffff_ffff + 0xffff_ffff_ffff_ffff <= 0xffff_ffff_ffff_ffff_ffff_ffff_ffff_ffff)
                    by (nonlinear_arith)
                    requires
                        i < 0x1_0000_0000_0000_0000,
                ;
            }
            let e = self.entries[i].1;
            if e.owner == *owner {
                acc = acc + e.value as u128;
            }
            i = i + 1;
        }
        proof {
            assert(self.entries@.subrange(0, self.entries@.len() as int) =~= self.entries@);
        }
        acc
    }

    /// Total value of all unspent outputs.
    pub fn total_value(&self) -> (r: u128)
        ensures
            r == self.total_spec(),
            r == map_total(self@),
    {
        proof {
            use_type_invariant(self);
            let c = choose|s: Seq<UtxoEntry>| keys_distinct(s) && map_of(s) == self@;
            assert(keys_distinct(self.entries@) && map_of(self.entries@) == self@);
            lemma_sums_perm(self.entries@, c);
        }
        let mut acc: u128 = 0;
        let mut i: usize = 0;
        while i < self.entries.len()
            invariant
                i <= self.entries@.len(),
                acc == sum_values(self.entries@.subrange(0, i as int)),
            decreases self.entries@.len() - i,
        {
            proof {
                let s = self.entries@.subrange(0, i + 1);
                assert(s.drop_last() =~= self.entries@.subrange(0, i as int));
                lemma_sums_bounds(self.entries@.subrange(0, i as int), Address(0, 0));
                assert((i as int) * 0xffff_ffff_ffff_ffff + 0xffff_ffff_ffff_ffff <= 0xffff_ffff_ffff_ffff_ffff_ffff_ffff_ffff)
                    by (nonlinear_arith)
                    requires
                        i < 0x1_0000_0000_0000_0000,
                ;
            }
            acc = acc + self.entries[i].1.value as u128;
            i = i + 1;
        }
        proof {
            assert(self.entries@.subrange(0, self.entries@.len() as int) =~= self.entries@);
        }
        acc
    }

    /// Every unspent output with its outpoint, in storage order.
    pub fn entries(&self) -> (r: Vec<UtxoEntry>)
        ensures
            r@.len() == self@.len(),
            forall|j: int| 0 <= j < r@.len() ==> self@.contains_key((#[trigger] r@[j]).0) && self@[r@[j].0] == r@[j].1,
            forall|op: OutPoint| #[trigger] self@.contains_key(op) ==> exists|j: int| 0 <= j < r@.len() && r@[j].0 == op,
    {
        proof {
            use_type_invariant(self);
            self.lemma_len();
        }
        let mut r: Vec<UtxoEntry> = Vec::new();
        let mut i: usize = 0;
        while i < self.entries.len()
            invariant
                i <= self.entries@.len(),
                r@ == self.entries@.subrange(0, i as int),
            decreases self.entries@.len() - i,
        {
            r.push(self.entries[i]);
            proof {
                assert(r@ =~= self.entries@.subrange(0, i + 1));
            }
            i = i + 1;
        }
        proof {
            assert(r@ =~= self.entries@);
            assert forall|j: int| 0 <= j < r@.len() implies self@.contains_key((#[trigger] r@[j]).0) && self@[r@[j].0] == r@[j].1 by {
                lemma_map_of_at(self.entries@, j);
            }
        }
        r
    }

    /// A copy of this set.
    pub fn duplicate(&self) -> (r: UtxoSet)
        ensures
            r@ == self@,
            r.total_spec() == self.total_spec(),
            forall|a: Address| #[trigger] r.balance_spec(a) == self.balance_spec(a),
    {
        proof {
            use_type_invariant(self);
        }
        let mut v: Vec<UtxoEntry> = Vec::new();
        let mut i: usize = 0;
        while i < self.entries.len()
            invariant
                i <= self.entries@.len(),
                v@ == self.entries@.subrange(0, i as int),
            decreases self.entries@.len() - i,
        {
            v.push(self.entries[i]);
            proof {
                assert(v@ =~= self.entries@.subrange(0, i + 1));
            }
            i = i + 1;
        }
        proof {
            assert(v@ =~= self.entries@);
        }
        UtxoSet { entries: v }
    }
}

impl Clone for UtxoSet {
    fn clone(&self) -> (r: UtxoSet)
        ensures
            r@ == self@,
            r.total_spec() == self.total_spec(),
            forall|a: Address| #[trigger] r.balance_spec(a) == self.balance_spec(a),
    {
        self.duplicate()
    }
}

impl Default for UtxoSet {
    fn default() -> (r: UtxoSet)
        ensures
            r@ == Map::<OutPoint, TxOutput>::empty(),
            r.total_spec() == 0,
    {
        UtxoSet::new()
    }
}

} // verus!
