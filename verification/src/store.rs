//! The ledger store: the durable collection of transaction records.
//!
//! The store owns every record. It guarantees that ids are unique and
//! never reused — it remembers every id it has ever accepted, so a
//! deleted record's id can never come back — that records are kept
//! newest first (timestamps descending), and that no record is
//! stamped later than the store's clock, which only moves forward.
//! A record's timestamp is the caller's UTC clock reading at insert
//! time, forced monotone by the store's own clock. Each operation is
//! a single atomic step over the collection, as each statement of a
//! relational backing store is.

use crate::model::{
    contains_id, lookup, overwrite_id, remove_id, sorted_desc, unique_ids, LedgerError,
    NewTransaction, Transaction,
};
use vstd::prelude::*;

verus! {

/// The collection of all transaction records, newest first, with the
/// clock that keeps stamps monotone and the history of every id ever
/// accepted.
pub struct Store {
    pub records: Vec<Transaction>,
    pub issued: Vec<u128>,
    pub clock: u64,
}

impl View for Store {
    type V = Seq<Transaction>;

    open spec fn view(&self) -> Seq<Transaction> {
        self.records@
    }
}

impl Store {
    /// The store's invariant: ids unique, newest first, no record
    /// stamped later than the clock, every live id among the issued,
    /// and every stored amount well-formed.
    pub open spec fn wf(self) -> bool {
        &&& unique_ids(self@)
        &&& sorted_desc(self@)
        &&& forall|i: int| 0 <= i < self@.len() ==> (#[trigger] self@[i].timestamp) <= self.clock
        &&& forall|i: int| 0 <= i < self@.len() ==> self.issued@.contains(#[trigger] self@[i].id)
        &&& forall|i: int| 0 <= i < self@.len() ==> (#[trigger] self@[i].amount).wf()
    }

    pub fn new() -> (s: Store)
        ensures
            s.wf(),
            s@ == Seq::<Transaction>::empty(),
            s.issued@ == Seq::<u128>::empty(),
            s.clock == 0,
    {
        Store { records: Vec::new(), issued: Vec::new(), clock: 0 }
    }

    /// Inserts a record with the given id and payload, stamped with
    /// the caller's clock reading `now` (or the store's clock where
    /// that is later, so stamps never decrease), and returns a copy of
    /// it. Fails with `Storage` (an identifier constraint violation),
    /// and only so, if and only if that id was ever issued before —
    /// also when the record carrying it has since been deleted: ids
    /// are never reused. On a store that has issued nothing, success
    /// is owed.
    pub fn create(&mut self, id: u128, now: u64, tx: NewTransaction) -> (r: Result<
        Transaction,
        LedgerError,
    >)
        requires
            old(self).wf(),
            tx.amount.wf(),
        ensures
            final(self).wf(),
            match r {
                Ok(t) => {
                    &&& !old(self).issued@.contains(id)
                    &&& !contains_id(old(self)@, id)
                    &&& t.id == id
                    &&& t.timestamp == (if now > old(self).clock {
                        now
                    } else {
                        old(self).clock
                    })
                    &&& t.kind == tx.kind
                    &&& t.amount == tx.amount
                    &&& t.description == tx.description
                    &&& t.tag == tx.tag
                    &&& final(self)@ == seq![t] + old(self)@
                    &&& final(self).issued@ == old(self).issued@.push(id)
                    &&& final(self).clock >= old(self).clock
                    &&& t.timestamp <= final(self).clock
                },
                Err(e) => {
                    &&& e == LedgerError::Storage
                    &&& old(self).issued@.contains(id)
                    &&& old(self).issued@.len() > 0
                    &&& *final(self) == *old(self)
                },
            },
    {
        let n = self.issued.len();
        let mut i: usize = 0;
        while i < n
            invariant
                old(self).wf(),
                *self == *old(self),
                n == self.issued@.len(),
                i <= n,
                forall|j: int| 0 <= j < i ==> (#[trigger] self.issued@[j]) != id,
            decreases n - i,
        {
            if self.issued[i] == id {
                return Err(LedgerError::Storage);
            }
            i = i + 1;
        }
        proof {
            assert(!self.issued@.contains(id)) by {
                if self.issued@.contains(id) {
                    let w = choose|w: int|
                        0 <= w < self.issued@.len() && self.issued@[w] == id;
                    assert(self.issued@[w] != id);
                }
            }
            assert(!contains_id(self@, id)) by {
                if contains_id(self@, id) {
                    let w = choose|w: int| 0 <= w < self@.len() && self@[w].id == id;
                    assert(self.issued@.contains(self@[w].id));
                }
            }
        }
        let stamp = if now > self.clock {
            now
        } else {
            self.clock
        };
        let t = Transaction {
            id,
            timestamp: stamp,
            kind: tx.kind,
            amount: tx.amount,
            description: tx.description,
            tag: tx.tag,
        };
        let out = t.duplicate();
        let ghost pre = self@;
        let ghost preissued = self.issued@;
        self.records.insert(0, t);
        self.issued.push(id);
        self.clock = if stamp < u64::MAX {
            stamp + 1
        } else {
            stamp
        };
        proof {
            assert(self@ =~= seq![t] + pre);
            assert(self.issued@ =~= preissued.push(id));
            assert forall|i2: int| 0 <= i2 < self@.len() implies self.issued@.contains(
                #[trigger] self@[i2].id,
            ) by {
                if i2 == 0 {
                    assert(self.issued@[preissued.len() as int] == id);
                } else {
                    assert(self@[i2] == pre[i2 - 1]);
                    assert(preissued.contains(pre[i2 - 1].id));
                    let w = choose|w: int|
                        0 <= w < preissued.len() && preissued[w] == pre[i2 - 1].id;
                    assert(self.issued@[w] == pre[i2 - 1].id);
                }
            }
        }
        Ok(out)
    }

    /// Every record, newest first.
    pub fn list_all(&self) -> (r: &Vec<Transaction>)
        ensures
            r@ == self@,
    {
        &self.records
    }

    /// The record carrying `id`; `NotFound`, and only that, if and
    /// only if no record carries it.
    pub fn get_by_id(&self, id: u128) -> (r: Result<&Transaction, LedgerError>)
        requires
            self.wf(),
        ensures
            match r {
                Ok(t) => contains_id(self@, id) && lookup(self@, id) == Some(*t)
                    && t.amount.wf(),
                Err(e) => e == LedgerError::NotFound && !contains_id(self@, id) && lookup(
                    self@,
                    id,
                ) is None,
            },
    {
        let n = self.records.len();
        let mut i: usize = 0;
        while i < n
            invariant
                self.wf(),
                n == self@.len(),
                i <= n,
                forall|j: int| 0 <= j < i ==> (#[trigger] self@[j].id) != id,
            decreases n - i,
        {
            if self.records[i].id == id {
                proof {
                    crate::model::lemma_lookup_at(self@, id, i as int);
                }
                return Ok(&self.records[i]);
            }
            i = i + 1;
        }
        proof {
            crate::model::lemma_lookup_absent(self@, id);
        }
        Err(LedgerError::NotFound)
    }

    /// Overwrites the mutable fields of the record carrying `id` and
    /// reports how many records were affected: one where the id
    /// exists, zero — with the store unchanged and no fault raised —
    /// where it does not. Id and timestamp never change, nor does the
    /// issued-id history.
    pub fn update(&mut self, id: u128, tx: NewTransaction) -> (r: usize)
        requires
            old(self).wf(),
            tx.amount.wf(),
        ensures
            final(self).wf(),
            final(self)@ == overwrite_id(old(self)@, id, tx),
            final(self).issued@ == old(self).issued@,
            final(self).clock == old(self).clock,
            r == (if contains_id(old(self)@, id) {
                1int
            } else {
                0int
            }),
            !contains_id(old(self)@, id) ==> final(self)@ == old(self)@,
    {
        let n = self.records.len();
        let mut i: usize = 0;
        while i < n
            invariant
                old(self).wf(),
                tx.amount.wf(),
                *self == *old(self),
                n == self@.len(),
                i <= n,
                forall|j: int| 0 <= j < i ==> (#[trigger] self@[j].id) != id,
            decreases n - i,
        {
            if self.records[i].id == id {
                let ghost pre = self@;
                let t = self.records.remove(i);
                let t2 = Transaction {
                    id: t.id,
                    timestamp: t.timestamp,
                    kind: tx.kind,
                    amount: tx.amount,
                    description: tx.description,
                    tag: tx.tag,
                };
                self.records.insert(i, t2);
                proof {
                    assert(unique_ids(pre));
                    assert(pre[i as int].id == id);
                    assert forall|j: int| 0 <= j < pre.len() && j != i implies (
                    #[trigger] pre[j].id) != id by {
                        if j > i {
                            assert(pre[i as int].id != pre[j].id);
                        }
                    }
                    assert(self@ =~= overwrite_id(pre, id, tx));
                }
                return 1;
            }
            i = i + 1;
        }
        proof {
            assert(self@ =~= overwrite_id(self@, id, tx));
        }
        0
    }

    /// Removes the record carrying `id`; removing an absent id is a
    /// no-op, never a fault, so deletion is idempotent. The id stays
    /// in the issued history: it will never be accepted again.
    pub fn delete(&mut self, id: u128)
        requires
            old(self).wf(),
        ensures
            final(self).wf(),
            final(self)@ == remove_id(old(self)@, id),
            final(self).issued@ == old(self).issued@,
            final(self).clock == old(self).clock,
            !contains_id(final(self)@, id),
    {
        let n = self.records.len();
        let mut i: usize = 0;
        while i < n
            invariant
                old(self).wf(),
                *self == *old(self),
                n == self@.len(),
                i <= n,
                forall|j: int| 0 <= j < i ==> (#[trigger] self@[j].id) != id,
            decreases n - i,
        {
            if self.records[i].id == id {
                let ghost pre = self@;
                self.records.remove(i);
                proof {
                    assert(unique_ids(pre));
                    assert(pre[i as int].id == id);
                    assert forall|j: int| 0 <= j < pre.len() && j != i implies (
                    #[trigger] pre[j].id) != id by {
                        if j > i {
                            assert(pre[i as int].id != pre[j].id);
                        }
                    }
                    crate::model::lemma_remove_id_at(pre, id, i as int);
                    crate::model::lemma_remove_id_gone(pre, id);
                }
                return ;
            }
            i = i + 1;
        }
        proof {
            crate::model::lemma_remove_id_absent(self@, id);
            assert(!contains_id(self@, id));
        }
    }
}

/// Listing order law: a well-formed store's records are always sorted
/// by timestamp descending, whatever sequence of operations built it.
pub proof fn lemma_listing_newest_first(s: Store)
    requires
        s.wf(),
    ensures
        sorted_desc(s@),
{
}

/// Identity law: a well-formed store never holds two records with one
/// id; every live id is among the ids ever issued, and `create`
/// rejects every issued id, so an id is never reused; and no stored
/// record is stamped later than the store's clock, so a record
/// created next is stamped no earlier than any present.
pub proof fn lemma_identity_and_clock(s: Store)
    requires
        s.wf(),
    ensures
        unique_ids(s@),
        forall|i: int| 0 <= i < s@.len() ==> s.issued@.contains(#[trigger] s@[i].id),
        forall|i: int| 0 <= i < s@.len() ==> (#[trigger] s@[i].timestamp) <= s.clock,
{
}

/// Creation law: a record stamped no earlier than the clock of a
/// well-formed store and carrying an id never issued by it — exactly
/// what `create` admits — has an id unique across the store and a
/// timestamp no less than that of every record inserted before it,
/// and placing it first keeps the collection well-ordered.
pub proof fn lemma_create_fresh(s: Store, t: Transaction)
    requires
        s.wf(),
        t.timestamp >= s.clock,
        !s.issued@.contains(t.id),
    ensures
        forall|i: int| 0 <= i < s@.len() ==> (#[trigger] s@[i].id) != t.id,
        forall|i: int| 0 <= i < s@.len() ==> (#[trigger] s@[i].timestamp) <= t.timestamp,
        unique_ids(seq![t] + s@),
        sorted_desc(seq![t] + s@),
{
    assert forall|i: int| 0 <= i < s@.len() implies (#[trigger] s@[i].id) != t.id by {
        assert(s.issued@.contains(s@[i].id));
    }
    let r = seq![t] + s@;
    assert(forall|i: int| 0 < i < r.len() ==> r[i] == s@[i - 1]);
    assert(r[0] == t);
}

/// Round-trip law: after a create adds record `t` to a store that did
/// not hold its id, fetching `t.id` finds exactly `t`.
pub proof fn lemma_create_then_get(pre: Seq<Transaction>, t: Transaction)
    requires
        !contains_id(pre, t.id),
    ensures
        lookup(seq![t] + pre, t.id) == Some(t),
{
    assert((seq![t] + pre)[0] == t);
}

/// Deletion law: after a delete the id resolves to nothing, and
/// deleting it again changes nothing.
pub proof fn lemma_delete_then_get(s: Seq<Transaction>, id: u128)
    ensures
        lookup(remove_id(s, id), id) is None,
        remove_id(remove_id(s, id), id) == remove_id(s, id),
{
    crate::model::lemma_remove_id_gone(s, id);
    crate::model::lemma_lookup_absent(remove_id(s, id), id);
    let r = remove_id(s, id);
    assert(forall|j: int| 0 <= j < r.len() ==> (#[trigger] r[j].id) != id);
    crate::model::lemma_remove_id_absent(r, id);
}

} // verus!
