//! Pending transactions, kept in id order.
use vstd::prelude::*;

use crate::tx::{tx_id, views, Transaction, TxId, TxView};

verus! {

/// `a` orders before `b` (by the first word, then the second).
pub open spec fn id_lt(a: TxId, b: TxId) -> bool {
    a.0 < b.0 || (a.0 == b.0 && a.1 < b.1)
}

/// The transactions have strictly increasing ids.
pub open spec fn sorted_by_id(s: Seq<TxView>) -> bool {
    forall|i: int, j: int| 0 <= i < j < s.len() ==> id_lt(tx_id(#[trigger] s[i]), tx_id(#[trigger] s[j]))
}

/// The members of `s[..k]` whose ids are not in `ids`, in order.
pub open spec fn keep_unlisted(s: Seq<TxView>, ids: Seq<TxId>, k: int) -> Seq<TxView>
    decreases k,
{
    if k <= 0 {
        Seq::empty()
    } else {
        let r = keep_unlisted(s, ids, k - 1);
        if ids.contains(tx_id(s[k - 1])) {
            r
        } else {
            r.push(s[k - 1])
        }
    }
}

/// `new` is the pool `old` after adding `t`: unchanged when a transaction
/// with its id is pending, otherwise `old` plus `t`, still in id order.
pub open spec fn add_outcome(old: Seq<TxView>, new: Seq<TxView>, t: TxView) -> bool {
    &&& sorted_by_id(new)
    &&& (exists|i: int| 0 <= i < old.len() && tx_id(#[trigger] old[i]) == tx_id(t)) ==> new == old
    &&& !(exists|i: int| 0 <= i < old.len() && tx_id(#[trigger] old[i]) == tx_id(t)) ==> {
        &&& new.len() == old.len() + 1
        &&& forall|v: TxView| #[trigger] new.contains(v) <==> (old.contains(v) || v == t)
    }
}

fn id_less(a: &TxId, b: &TxId) -> (r: bool)
    ensures
        r == id_lt(*a, *b),
{
    a.0 < b.0 || (a.0 == b.0 && a.1 < b.1)
}

/// Transactions waiting to be packed into a block, at most one per id, in id
/// order.
pub struct Mempool {
    txs: Vec<Transaction>,
    ids: Vec<TxId>,
}

impl Mempool {
    #[verifier::type_invariant]
    spec fn well_formed(self) -> bool {
        &&& self.txs@.len() == self.ids@.len()
        &&& forall|i: int| 0 <= i < self.ids@.len() ==> #[trigger] self.ids@[i] == tx_id(self.txs@[i]@)
        &&& forall|i: int, j: int| 0 <= i < j < self.ids@.len() ==> id_lt(#[trigger] self.ids@[i], #[trigger] self.ids@[j])
    }

    /// The pending transactions, in id order.
    pub closed spec fn view(&self) -> Seq<TxView> {
        views(self.txs@)
    }

    /// An empty mempool.
    pub fn new() -> (r: Mempool)
        ensures
            r.view() == Seq::<TxView>::empty(),
    {
        let r = Mempool { txs: Vec::new(), ids: Vec::new() };
        proof {
            assert(r.view() =~= Seq::<TxView>::empty());
        }
        r
    }

    /// The pending transactions are in strictly increasing id order.
    pub fn sorted(&self) -> (r: ())
        ensures
            sorted_by_id(self.view()),
    {
        proof {
            use_type_invariant(self);
            assert forall|i: int, j: int| 0 <= i < j < self.view().len() implies id_lt(
                tx_id(#[trigger] self.view()[i]),
                tx_id(#[trigger] self.view()[j]),
            ) by {
                assert(self.view()[i] == self.txs@[i]@);
                assert(self.view()[j] == self.txs@[j]@);
                assert(id_lt(self.ids@[i], self.ids@[j]));
            }
        }
    }

    /// Number of pending transactions.
    pub fn len(&self) -> (r: usize)
        ensures
            r == self.view().len(),
    {
        self.txs.len()
    }

    /// Whether nothing is pending.
    pub fn is_empty(&self) -> (r: bool)
        ensures
            r == (self.view().len() == 0),
    {
        self.txs.len() == 0
    }

    /// Add `tx` unless a transaction with its id is already pending; returns
    /// whether it was added.
    pub fn add(&mut self, tx: Transaction) -> (added: bool)
        ensures
            add_outcome(old(self).view(), final(self).view(), tx@),
            added == !(exists|i: int| 0 <= i < old(self).view().len() && tx_id(#[trigger] old(self).view()[i]) == tx_id(tx@)),
    {
        proof {
            use_type_invariant(&*self);
        }
        let id = tx.id();
        let n = self.ids.len();
        let mut p: usize = 0;
        while p < n && id_less(&self.ids[p], &id)
            invariant
                n == self.ids@.len(),
                n == self.txs@.len(),
                p <= n,
                forall|i: int| 0 <= i < n ==> #[trigger] self.ids@[i] == tx_id(self.txs@[i]@),
                forall|i: int, j: int| 0 <= i < j < n ==> id_lt(#[trigger] self.ids@[i], #[trigger] self.ids@[j]),
                forall|i: int| 0 <= i < p ==> id_lt(#[trigger] self.ids@[i], id),
            decreases n - p,
        {
            p = p + 1;
        }
        if p < n && self.ids[p] == id {
            proof {
                assert(self.view()[p as int] == self.txs@[p as int]@);
            }
            self.sorted();
            return false;
        }
        proof {
            assert forall|i: int| 0 <= i < n implies #[trigger] self.ids@[i] != id by {
                if i < p {
                    assert(id_lt(self.ids@[i], id));
                } else if i > p {
                    assert(id_lt(self.ids@[p as int], self.ids@[i]));
                }
            }
            assert forall|i: int| 0 <= i < old(self).view().len() implies tx_id(#[trigger] old(self).view()[i]) != tx_id(tx@) by {
                assert(old(self).view()[i] == self.txs@[i]@);
                assert(self.ids@[i] != id);
                assert(self.ids@[i] == tx_id(self.txs@[i]@));
            }
        }
        let ghost old_txs = self.txs@;
        let ghost old_ids = self.ids@;
        let mut taken = Mempool::new();
        std::mem::swap(&mut taken, self);
        let Mempool { txs: mut txs, ids: mut ids } = taken;
        txs.insert(p, tx);
        ids.insert(p, id);
        proof {
            assert forall|i: int| 0 <= i < ids@.len() implies #[trigger] ids@[i] == tx_id(txs@[i]@) by {
                if i < p {
                    assert(ids@[i] == old_ids[i] && txs@[i] == old_txs[i]);
                } else if i > p {
                    assert(ids@[i] == old_ids[i - 1] && txs@[i] == old_txs[i - 1]);
                }
            }
            assert forall|i: int, j: int| 0 <= i < j < ids@.len() implies id_lt(#[trigger] ids@[i], #[trigger] ids@[j]) by {
                let a = if i < p { i } else if i == p { -1 } else { i - 1 };
                let b = if j < p { j } else if j == p { -1 } else { j - 1 };
                if i != p && j != p {
                    assert(ids@[i] == old_ids[a] && ids@[j] == old_ids[b]);
                } else if i == p {
                    assert(ids@[j] == old_ids[b]);
                    assert(!id_lt(old_ids[p as int], id) || p >= n);
                    if b > p {
                        assert(id_lt(old_ids[p as int], old_ids[b]));
                    }
                } else {
                    assert(ids@[i] == old_ids[a]);
                }
            }
        }
        *self = Mempool { txs, ids };
        proof {
            let nv = self.view();
            let ov = views(old_txs);
            assert(nv =~= ov.insert(p as int, tx@));
            assert forall|v: TxView| #[trigger] nv.contains(v) <==> (ov.contains(v) || v == tx@) by {
                if nv.contains(v) {
                    let k = choose|k: int| 0 <= k < nv.len() && nv[k] == v;
                    if k < p {
                        assert(ov[k] == v);
                    } else if k > p {
                        assert(ov[k - 1] == v);
                    }
                }
                if ov.contains(v) {
                    let k = choose|k: int| 0 <= k < ov.len() && ov[k] == v;
                    if k < p {
                        assert(nv[k] == v);
                    } else {
                        assert(nv[k + 1] == v);
                    }
                }
                if v == tx@ {
                    assert(nv[p as int] == v);
                }
            }
        }
        self.sorted();
        true
    }

    /// Copies of the pending transactions, in id order.
    pub fn ordered(&self) -> (r: Vec<Transaction>)
        ensures
            views(r@) == self.view(),
            sorted_by_id(self.view()),
    {
        self.sorted();
        let mut r: Vec<Transaction> = Vec::new();
        let mut i: usize = 0;
        while i < self.txs.len()
            invariant
                i <= self.txs@.len(),
                views(r@) == views(self.txs@.subrange(0, i as int)),
            decreases self.txs@.len() - i,
        {
            let t = self.txs[i].duplicate();
            proof {
                assert(views(r@.push(t)) =~= views(r@).push(t@));
                assert(views(self.txs@.subrange(0, i + 1)) =~= views(self.txs@.subrange(0, i as int)).push(self.txs@[i as int]@));
            }
            r.push(t);
            i = i + 1;
        }
        proof {
            assert(self.txs@.subrange(0, self.txs@.len() as int) =~= self.txs@);
        }
        r
    }

    /// Drop every pending transaction whose id is in `ids`.
    pub fn remove_all(&mut self, ids: &[TxId])
        ensures
            final(self).view() == keep_unlisted(old(self).view(), ids@, old(self).view().len() as int),
            sorted_by_id(final(self).view()),
    {
        proof {
            use_type_invariant(&*self);
        }
        let ghost ov = self.view();
        let mut taken = Mempool::new();
        std::mem::swap(&mut taken, self);
        proof {
            use_type_invariant(&taken);
        }
        let Mempool { txs, ids: kept } = taken;
        let ghost all_ids = kept@;
        let ghost all_txs = txs@;
        let mut new_txs: Vec<Transaction> = Vec::new();
        let mut new_ids: Vec<TxId> = Vec::new();
        let rest: Vec<Transaction> = txs;
        let n = rest.len();
        let mut i: usize = 0;
        while i < n
            invariant
                n == all_txs.len(),
                n == all_ids.len(),
                rest@ == all_txs,
                ov == views(all_txs),
                forall|k: int| 0 <= k < n ==> #[trigger] all_ids[k] == tx_id(all_txs[k]@),
                forall|a: int, b: int| 0 <= a < b < n ==> id_lt(#[trigger] all_ids[a], #[trigger] all_ids[b]),
                i <= n,
                views(new_txs@) == keep_unlisted(ov, ids@, i as int),
                new_ids@.len() == new_txs@.len(),
                forall|k: int| 0 <= k < new_ids@.len() ==> #[trigger] new_ids@[k] == tx_id(new_txs@[k]@),
                forall|a: int, b: int| 0 <= a < b < new_ids@.len() ==> id_lt(#[trigger] new_ids@[a], #[trigger] new_ids@[b]),
                forall|k: int, a: int| 0 <= k < new_ids@.len() && i <= a < n ==> id_lt(#[trigger] new_ids@[k], #[trigger] all_ids[a]),
            decreases n - i,
        {
            let id = tx_id_of(&rest[i]);
            proof {
                assert(id == all_ids[i as int]);
                assert(ov[i as int] == all_txs[i as int]@);
            }
            if !contains_id(ids, &id) {
                let t = rest[i].duplicate();
                let ghost before = new_txs@;
                new_txs.push(t);
                new_ids.push(id);
                proof {
                    assert(views(new_txs@) =~= views(before).push(t@));
                    assert forall|k: int, a: int| 0 <= k < new_ids@.len() && i + 1 <= a < n implies id_lt(
                        #[trigger] new_ids@[k],
                        #[trigger] all_ids[a],
                    ) by {
                        if k == new_ids@.len() - 1 {
                            assert(id_lt(all_ids[i as int], all_ids[a]));
                        }
                    }
                }
            } else {
                proof {
                    assert forall|k: int, a: int| 0 <= k < new_ids@.len() && i + 1 <= a < n implies id_lt(
                        #[trigger] new_ids@[k],
                        #[trigger] all_ids[a],
                    ) by {
                        assert(id_lt(new_ids@[k], all_ids[a]));
                    }
                }
            }
            i = i + 1;
        }
        *self = Mempool { txs: new_txs, ids: new_ids };
        self.sorted();
    }
}

/// The id of a transaction.
fn tx_id_of(t: &Transaction) -> (r: TxId)
    ensures
        r == tx_id(t@),
{
    t.id()
}

/// Whether `id` is in `ids`.
fn contains_id(ids: &[TxId], id: &TxId) -> (r: bool)
    ensures
        r == ids@.contains(*id),
{
    let mut i: usize = 0;
    while i < ids.len()
        invariant
            i <= ids@.len(),
            forall|k: int| 0 <= k < i ==> ids@[k] != *id,
        decreases ids@.len() - i,
    {
        if ids[i] == *id {
            proof {
                assert(ids@[i as int] == *id);
            }
            return true;
        }
        i = i + 1;
    }
    false
}

impl Default for Mempool {
    /// An empty pool.
    fn default() -> (r: Mempool)
        ensures
            r.view() == Seq::<TxView>::empty(),
    {
        Mempool::new()
    }
}

} // verus!
