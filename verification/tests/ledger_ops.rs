use ledger::decimal::{parse_amount, render_amount};
use ledger::model::LedgerError;
use ledger::service::{
    handle_create, handle_delete, handle_edit_view, handle_list, handle_update, status_for,
    TransactionForm, UpdateTransactionForm,
};
use ledger::store::Store;

fn form(kind: &str, amount: &str, description: &str, tag: Option<&str>) -> TransactionForm {
    TransactionForm {
        kind: kind.to_string(),
        amount: amount.to_string(),
        description: description.to_string(),
        tag: tag.map(|t| t.to_string()),
    }
}

#[test]
fn create_then_list_then_delete_scenario() {
    let mut store = Store::new();
    let created = handle_create(&mut store, form("expense", "12.50", "coffee", None), 1_000)
        .expect("valid payload on a fresh store");
    {
        let listed = handle_list(&store);
        assert_eq!(listed.len(), 1);
        assert_eq!(listed[0].kind, "expense");
        assert_eq!(render_amount(&listed[0].amount), "12.50");
        assert_eq!(listed[0].description, "coffee");
        assert!(listed[0].tag.is_none());
        assert_eq!(listed[0].id, created.id);
    }
    handle_delete(&mut store, created.id);
    assert!(handle_list(&store).is_empty());
}

#[test]
fn create_then_get_round_trip() {
    let mut store = Store::new();
    let now: u64 = 1_700_000_000_000;
    let created = handle_create(
        &mut store,
        form("income", "1000.00", "salary", Some("work")),
        now,
    )
    .expect("valid payload on a fresh store");
    let fetched = handle_edit_view(&store, created.id).expect("just created");
    assert_eq!(fetched.id, created.id);
    assert_eq!(fetched.kind, created.kind);
    assert_eq!(fetched.amount, created.amount);
    assert_eq!(fetched.description, created.description);
    assert_eq!(fetched.tag, created.tag);
    // the timestamp is store-assigned at insert time, from the clock
    // reading handed in
    assert_eq!(fetched.timestamp, created.timestamp);
    assert_eq!(created.timestamp, now);
}

#[test]
fn delete_is_idempotent_and_get_after_delete_is_not_found() {
    let mut store = Store::new();
    let created = handle_create(&mut store, form("expense", "5", "snack", None), 10)
        .expect("valid payload on a fresh store");
    handle_delete(&mut store, created.id);
    assert!(matches!(
        handle_edit_view(&store, created.id),
        Err(LedgerError::NotFound)
    ));
    // deleting the already-deleted id must not fail
    handle_delete(&mut store, created.id);
    assert!(handle_list(&store).is_empty());
}

#[test]
fn update_missing_id_affects_zero_rows_without_fault() {
    let mut store = Store::new();
    let kept = handle_create(&mut store, form("expense", "3.10", "bus", None), 10)
        .expect("valid payload on a fresh store");
    let affected = handle_update(
        &mut store,
        UpdateTransactionForm {
            id: kept.id.wrapping_add(1),
            kind: "expense".to_string(),
            amount: "9.99".to_string(),
            description: "nothing".to_string(),
            tag: None,
        },
    )
    .expect("an absent id is no fault");
    assert_eq!(affected, 0);
    let listed = handle_list(&store);
    assert_eq!(listed.len(), 1);
    assert_eq!(listed[0].description, "bus");
    assert_eq!(render_amount(&listed[0].amount), "3.10");
}

#[test]
fn update_existing_id_overwrites_mutable_fields_only() {
    let mut store = Store::new();
    let created = handle_create(&mut store, form("expense", "20", "book", Some("leisure")), 10)
        .expect("valid payload on a fresh store");
    let affected = handle_update(
        &mut store,
        UpdateTransactionForm {
            id: created.id,
            kind: "income".to_string(),
            amount: "25.50".to_string(),
            description: "book refund".to_string(),
            tag: None,
        },
    )
    .expect("valid payload");
    assert_eq!(affected, 1);
    let fetched = handle_edit_view(&store, created.id).expect("still present");
    assert_eq!(fetched.id, created.id);
    assert_eq!(fetched.timestamp, created.timestamp);
    assert_eq!(fetched.kind, "income");
    assert_eq!(render_amount(&fetched.amount), "25.50");
    assert_eq!(fetched.description, "book refund");
    assert!(fetched.tag.is_none());
}

#[test]
fn listing_is_newest_first_and_ids_unique_and_timestamps_monotonic() {
    let mut store = Store::new();
    let first = handle_create(&mut store, form("expense", "1", "one", None), 10).unwrap();
    let second = handle_create(&mut store, form("expense", "2", "two", None), 20).unwrap();
    // a clock slipping backwards must not break insertion order: the
    // store's own clock forces the stamp forward
    let third = handle_create(&mut store, form("expense", "3", "three", None), 15).unwrap();
    assert_eq!(first.timestamp, 10);
    assert_eq!(second.timestamp, 20);
    assert_eq!(third.timestamp, 21);
    assert!(first.timestamp <= second.timestamp && second.timestamp <= third.timestamp);
    assert!(first.id != second.id && second.id != third.id && first.id != third.id);
    let listed = handle_list(&store);
    assert_eq!(listed.len(), 3);
    assert_eq!(listed[0].description, "three");
    assert_eq!(listed[1].description, "two");
    assert_eq!(listed[2].description, "one");
    assert!(listed[0].timestamp >= listed[1].timestamp);
    assert!(listed[1].timestamp >= listed[2].timestamp);
}

#[test]
fn malformed_amount_is_a_validation_error_and_changes_nothing() {
    let mut store = Store::new();
    assert!(matches!(
        handle_create(&mut store, form("expense", "12,50", "comma", None), 10),
        Err(LedgerError::Validation)
    ));
    assert!(matches!(
        handle_create(&mut store, form("expense", "", "empty", None), 10),
        Err(LedgerError::Validation)
    ));
    assert!(handle_list(&store).is_empty());
    let bad_update = handle_update(
        &mut store,
        UpdateTransactionForm {
            id: 7,
            kind: "expense".to_string(),
            amount: "abc".to_string(),
            description: "bad".to_string(),
            tag: None,
        },
    );
    assert!(matches!(bad_update, Err(LedgerError::Validation)));
}

fn payload(desc: &str) -> ledger::model::NewTransaction {
    ledger::model::NewTransaction {
        kind: "expense".to_string(),
        amount: parse_amount("1.00").unwrap(),
        description: desc.to_string(),
        tag: None,
    }
}

#[test]
fn duplicate_id_is_a_storage_error() {
    let mut store = Store::new();
    let created = store.create(77, 5, payload("first")).expect("id 77 was never issued");
    assert_eq!(created.id, 77);
    assert!(matches!(
        store.create(77, 6, payload("second")),
        Err(LedgerError::Storage)
    ));
    assert_eq!(store.list_all().len(), 1);
}

#[test]
fn ids_are_never_reused_even_after_delete() {
    let mut store = Store::new();
    store.create(42, 5, payload("short-lived")).expect("id 42 was never issued");
    store.delete(42);
    assert!(store.list_all().is_empty());
    // the id stays spent: the store remembers every id ever issued
    assert!(matches!(
        store.create(42, 6, payload("revenant")),
        Err(LedgerError::Storage)
    ));
    assert!(store.list_all().is_empty());
}

#[test]
fn amount_precision_survives_create_and_read_back() {
    let mut store = Store::new();
    let a = handle_create(&mut store, form("expense", "19.99", "precise", None), 10).unwrap();
    let b = handle_create(&mut store, form("expense", "0.1", "tenth", None), 11).unwrap();
    let fa = handle_edit_view(&store, a.id).unwrap();
    let fb = handle_edit_view(&store, b.id).unwrap();
    assert_eq!(render_amount(&fa.amount), "19.99");
    assert_eq!(render_amount(&fb.amount), "0.1");
}

#[test]
fn error_kinds_map_to_distinct_response_classes() {
    assert_eq!(status_for(LedgerError::Validation), 400);
    assert_eq!(status_for(LedgerError::NotFound), 404);
    assert_eq!(status_for(LedgerError::Storage), 500);
}
