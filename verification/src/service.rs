//! The ledger service: the boundary between untyped request payloads
//! and the store's typed operations.
//!
//! Callers hand in form fields as plain text; the service validates
//! them (the amount must be exact decimal text — it is never decoded
//! through binary floating point), drives the store, and translates
//! each error kind to its own response, never conflating a missing
//! record with a storage fault.

use crate::decimal::{parse_amount, spec_parse_amount};
use crate::model::{
    contains_id, lookup, overwrite_id, remove_id, sorted_desc, LedgerError, NewTransaction,
    Transaction,
};
use crate::store::Store;
use vstd::prelude::*;

verus! {

/// The fields of a create request: amount as the submitted text.
#[derive(Debug)]
pub struct TransactionForm {
    pub kind: String,
    pub amount: String,
    pub description: String,
    pub tag: Option<String>,
}

/// The fields of an update request: the id of the record to overwrite
/// and every mutable field.
#[derive(Debug)]
pub struct UpdateTransactionForm {
    pub id: u128,
    pub kind: String,
    pub amount: String,
    pub description: String,
    pub tag: Option<String>,
}

/// Relies on `uuid::Uuid::new_v4` (a random version-4 UUID) read out
/// through `Uuid::as_u128`. Nothing is promised of the value: a fresh
/// id is random, and the store itself rejects a collision. `new_v4`
/// draws from the operating system's randomness source and aborts the
/// process if that source fails — an environmental fault of the same
/// class as memory exhaustion, present in the original id generation
/// too.
#[verifier::external_body]
fn fresh_id() -> (r: u128) {
    uuid::Uuid::new_v4().as_u128()
}

/// Validates a create payload and inserts the record under a fresh
/// id, stamped from the caller's UTC clock reading `now` (the store
/// forces stamps monotone). Malformed amount text is a `Validation`
/// error and leaves the store untouched; a collision of the drawn id
/// with one ever issued surfaces as the store's `Storage` error —
/// impossible on a store that has issued nothing, so there a parsed
/// amount owes success.
pub fn handle_create(store: &mut Store, form: TransactionForm, now: u64) -> (r: Result<
    Transaction,
    LedgerError,
>)
    requires
        old(store).wf(),
    ensures
        final(store).wf(),
        match r {
            Ok(t) => {
                &&& spec_parse_amount(form.amount@) == Some(t.amount)
                &&& t.amount.wf()
                &&& t.kind == form.kind
                &&& t.description == form.description
                &&& t.tag == form.tag
                &&& t.timestamp == (if now > old(store).clock {
                    now
                } else {
                    old(store).clock
                })
                &&& !old(store).issued@.contains(t.id)
                &&& !contains_id(old(store)@, t.id)
                &&& final(store)@ == seq![t] + old(store)@
                &&& final(store).issued@ == old(store).issued@.push(t.id)
            },
            Err(e) => {
                &&& *final(store) == *old(store)
                &&& match e {
                    LedgerError::Validation => spec_parse_amount(form.amount@) is None,
                    LedgerError::Storage => spec_parse_amount(form.amount@) is Some && old(
                        store,
                    ).issued@.len() > 0,
                    LedgerError::NotFound => false,
                }
            },
        },
{
    let amount = match parse_amount(form.amount.as_str()) {
        Some(d) => d,
        None => {
            return Err(LedgerError::Validation);
        },
    };
    let id = fresh_id();
    store.create(
        id,
        now,
        NewTransaction {
            kind: form.kind,
            amount,
            description: form.description,
            tag: form.tag,
        },
    )
}

/// Every record, newest first, for the listing page and the JSON
/// listing; an empty store yields an empty sequence, never an error.
pub fn handle_list(store: &Store) -> (r: &Vec<Transaction>)
    requires
        store.wf(),
    ensures
        r@ == store@,
        sorted_desc(r@),
        forall|i: int| 0 <= i < r@.len() ==> (#[trigger] r@[i].amount).wf(),
{
    store.list_all()
}

/// Validates an update payload and overwrites the record carrying the
/// given id, reporting how many records were affected; an absent id
/// affects zero records and raises no storage fault.
pub fn handle_update(store: &mut Store, form: UpdateTransactionForm) -> (r: Result<
    usize,
    LedgerError,
>)
    requires
        old(store).wf(),
    ensures
        final(store).wf(),
        match r {
            Ok(affected) => {
                &&& (spec_parse_amount(form.amount@) matches Some(a) && final(store)@
                    == overwrite_id(
                    old(store)@,
                    form.id,
                    (NewTransaction {
                        kind: form.kind,
                        amount: a,
                        description: form.description,
                        tag: form.tag,
                    }),
                ))
                &&& affected == (if contains_id(old(store)@, form.id) {
                    1int
                } else {
                    0int
                })
                &&& (!contains_id(old(store)@, form.id) ==> final(store)@ == old(store)@)
                &&& final(store).issued@ == old(store).issued@
            },
            Err(e) => {
                &&& e == LedgerError::Validation
                &&& spec_parse_amount(form.amount@) is None
                &&& final(store)@ == old(store)@
            },
        },
{
    let amount = match parse_amount(form.amount.as_str()) {
        Some(d) => d,
        None => {
            return Err(LedgerError::Validation);
        },
    };
    let affected = store.update(
        form.id,
        NewTransaction {
            kind: form.kind,
            amount,
            description: form.description,
            tag: form.tag,
        },
    );
    Ok(affected)
}

/// Removes the record carrying `id`; succeeds unconditionally, also
/// on an id that no record carries.
pub fn handle_delete(store: &mut Store, id: u128)
    requires
        old(store).wf(),
    ensures
        final(store).wf(),
        final(store)@ == remove_id(old(store)@, id),
        final(store).issued@ == old(store).issued@,
        !contains_id(final(store)@, id),
{
    store.delete(id);
}

/// The record for the edit view. An absent id is a `NotFound` the
/// caller must render as a client error response, distinct from any
/// storage fault — never an abort of the request.
pub fn handle_edit_view<'a>(store: &'a Store, id: u128) -> (r: Result<&'a Transaction, LedgerError>)
    requires
        store.wf(),
    ensures
        match r {
            Ok(t) => contains_id(store@, id) && lookup(store@, id) == Some(*t) && t.amount.wf(),
            Err(e) => e == LedgerError::NotFound && !contains_id(store@, id) && lookup(
                store@,
                id,
            ) is None,
        },
{
    store.get_by_id(id)
}

/// The response class of each error kind: a validation failure is the
/// client's bad request, a missing record is not found, and only a
/// genuine storage fault is a server error.
pub fn status_for(e: LedgerError) -> (code: u16)
    ensures
        code == (match e {
            LedgerError::Validation => 400u16,
            LedgerError::NotFound => 404u16,
            LedgerError::Storage => 500u16,
        }),
{
    match e {
        LedgerError::Validation => 400,
        LedgerError::NotFound => 404,
        LedgerError::Storage => 500,
    }
}

} // verus!
