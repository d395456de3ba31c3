//! The transaction record and the error kinds of the ledger.

use crate::decimal::Decimal;
use vstd::prelude::*;

verus! {

/// The three failure kinds the ledger distinguishes: a malformed or
/// missing request field, an id that resolves to no record, and a
/// storage-level fault such as an identifier collision. They are never
/// conflated: each maps to its own response.
#[derive(Clone, Copy, PartialEq, Eq, Structural, Debug)]
pub enum LedgerError {
    Validation,
    NotFound,
    Storage,
}

/// One financial event: identity and creation time never change after
/// insertion; the remaining fields are mutable as a whole. The
/// timestamp is the creation time in UTC as read from the caller's
/// clock (for instance unix milliseconds), made monotone by the
/// store, so newest-first ordering holds even across clock slips.
#[derive(Debug)]
pub struct Transaction {
    pub id: u128,
    pub timestamp: u64,
    pub kind: String,
    pub amount: Decimal,
    pub description: String,
    pub tag: Option<String>,
}

/// The validated payload of a create or update: every field a caller
/// may set, with the amount already parsed to an exact decimal.
#[derive(Debug)]
pub struct NewTransaction {
    pub kind: String,
    pub amount: Decimal,
    pub description: String,
    pub tag: Option<String>,
}

impl Transaction {
    /// An exact copy, field for field.
    pub fn duplicate(&self) -> (r: Transaction)
        ensures
            r == *self,
    {
        Transaction {
            id: self.id,
            timestamp: self.timestamp,
            kind: self.kind.clone(),
            amount: self.amount,
            description: self.description.clone(),
            tag: match &self.tag {
                Some(s) => Some(s.clone()),
                None => None,
            },
        }
    }
}

pub open spec fn contains_id(s: Seq<Transaction>, id: u128) -> bool {
    exists|i: int| 0 <= i < s.len() && s[i].id == id
}

pub open spec fn unique_ids(s: Seq<Transaction>) -> bool {
    forall|i: int, j: int| 0 <= i < j < s.len() ==> s[i].id != s[j].id
}

pub open spec fn sorted_desc(s: Seq<Transaction>) -> bool {
    forall|i: int, j: int| 0 <= i < j < s.len() ==> s[i].timestamp >= s[j].timestamp
}

/// The first record carrying `id`, if any.
pub open spec fn lookup(s: Seq<Transaction>, id: u128) -> Option<Transaction>
    decreases s.len(),
{
    if s.len() == 0 {
        None
    } else if s[0].id == id {
        Some(s[0])
    } else {
        lookup(s.skip(1), id)
    }
}

/// `s` with every record carrying `id` removed.
pub open spec fn remove_id(s: Seq<Transaction>, id: u128) -> Seq<Transaction>
    decreases s.len(),
{
    if s.len() == 0 {
        Seq::empty()
    } else if s[0].id == id {
        remove_id(s.skip(1), id)
    } else {
        seq![s[0]] + remove_id(s.skip(1), id)
    }
}

/// `s` with the mutable fields of every record carrying `id` replaced
/// by those of `tx`; id and timestamp stay as they were.
pub open spec fn overwrite_id(s: Seq<Transaction>, id: u128, tx: NewTransaction) -> Seq<
    Transaction,
> {
    Seq::new(
        s.len(),
        |i: int|
            if s[i].id == id {
                Transaction {
                    id: s[i].id,
                    timestamp: s[i].timestamp,
                    kind: tx.kind,
                    amount: tx.amount,
                    description: tx.description,
                    tag: tx.tag,
                }
            } else {
                s[i]
            },
    )
}

pub proof fn lemma_lookup_absent(s: Seq<Transaction>, id: u128)
    requires
        !contains_id(s, id),
    ensures
        lookup(s, id) is None,
    decreases s.len(),
{
    if s.len() > 0 {
        assert(s[0].id != id);
        assert(!contains_id(s.skip(1), id)) by {
            if contains_id(s.skip(1), id) {
                let i = choose|i: int| 0 <= i < s.skip(1).len() && s.skip(1)[i].id == id;
                assert(s[i + 1].id == id);
            }
        }
        lemma_lookup_absent(s.skip(1), id);
    }
}

/// The first record carrying `id` is what `lookup` finds.
pub proof fn lemma_lookup_at(s: Seq<Transaction>, id: u128, i: int)
    requires
        0 <= i < s.len(),
        s[i].id == id,
        forall|j: int| 0 <= j < i ==> s[j].id != id,
    ensures
        lookup(s, id) == Some(s[i]),
    decreases i,
{
    if i == 0 {
    } else {
        assert(s[0].id != id);
        assert(forall|j: int| 0 <= j < i - 1 ==> s.skip(1)[j] == s[j + 1]);
        lemma_lookup_at(s.skip(1), id, i - 1);
        assert(s.skip(1)[i - 1] == s[i]);
    }
}

pub proof fn lemma_remove_id_absent(s: Seq<Transaction>, id: u128)
    requires
        forall|j: int| 0 <= j < s.len() ==> (#[trigger] s[j].id) != id,
    ensures
        remove_id(s, id) == s,
    decreases s.len(),
{
    if s.len() > 0 {
        assert(forall|j: int|
            0 <= j < s.skip(1).len() ==> (#[trigger] s.skip(1)[j].id) == s[j + 1].id);
        lemma_remove_id_absent(s.skip(1), id);
        assert(seq![s[0]] + s.skip(1) =~= s);
    }
}

/// Where exactly one record carries `id`, removing `id` is removing
/// that record's position.
pub proof fn lemma_remove_id_at(s: Seq<Transaction>, id: u128, i: int)
    requires
        0 <= i < s.len(),
        s[i].id == id,
        forall|j: int| 0 <= j < s.len() && j != i ==> (#[trigger] s[j].id) != id,
    ensures
        remove_id(s, id) == s.remove(i),
    decreases i,
{
    assert(forall|j: int|
        0 <= j < s.skip(1).len() ==> (#[trigger] s.skip(1)[j].id) == s[j + 1].id);
    if i == 0 {
        lemma_remove_id_absent(s.skip(1), id);
        assert(s.remove(0) =~= s.skip(1));
    } else {
        assert(s[0].id != id);
        lemma_remove_id_at(s.skip(1), id, i - 1);
        assert(seq![s[0]] + s.skip(1).remove(i - 1) =~= s.remove(i));
    }
}

/// No record carrying `id` survives its removal.
pub proof fn lemma_remove_id_gone(s: Seq<Transaction>, id: u128)
    ensures
        !contains_id(remove_id(s, id), id),
        remove_id(s, id).len() <= s.len(),
    decreases s.len(),
{
    if s.len() > 0 {
        lemma_remove_id_gone(s.skip(1), id);
        if s[0].id != id {
            let r = seq![s[0]] + remove_id(s.skip(1), id);
            assert forall|i: int| 0 <= i < r.len() implies (#[trigger] r[i].id) != id by {
                if i > 0 {
                    assert(r[i] == remove_id(s.skip(1), id)[i - 1]);
                    assert(!contains_id(remove_id(s.skip(1), id), id));
                }
            }
        }
    }
}

} // verus!
