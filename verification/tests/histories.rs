use sea_orm_migration::error::MigrationError;
use sea_orm_migration::history::{HistoryRecord, HistoryStore};

fn record(name: &str, applied_at: i64) -> HistoryRecord {
    HistoryRecord { name: name.to_string(), applied_at }
}

#[test]
fn a_new_store_is_absent_and_empty() {
    let store = HistoryStore::new();
    assert!(!store.is_created());
    assert_eq!(store.len(), 0);
    assert!(store.list_applied().is_empty());
    assert!(!store.is_applied("0001_a"));
}

#[test]
fn ensure_created_is_idempotent() {
    let mut store = HistoryStore::new();
    store.ensure_created();
    assert!(store.is_created());
    store.record_applied("0001_a", 7).unwrap();
    store.ensure_created();
    store.ensure_created();
    assert!(store.is_created());
    assert_eq!(store.list_applied(), vec![record("0001_a", 7)]);
}

#[test]
fn the_store_is_created_on_demand() {
    let mut store = HistoryStore::new();
    assert_eq!(store.record_applied("0001_a", 7), Ok(()));
    assert!(store.is_created());
}

#[test]
fn records_are_listed_by_name_not_by_time() {
    let mut store = HistoryStore::new();
    store.record_applied("0002_b", 10).unwrap();
    store.record_applied("0003_c", 5).unwrap();
    store.record_applied("0001_a", 30).unwrap();
    assert_eq!(
        store.list_applied(),
        vec![record("0001_a", 30), record("0002_b", 10), record("0003_c", 5)]
    );
    assert_eq!(store.len(), 3);
    assert_eq!(store.name_at(1), "0002_b");
    assert!(store.is_applied("0003_c"));
}

#[test]
fn a_second_application_fails_and_changes_nothing() {
    let mut store = HistoryStore::new();
    store.record_applied("0001_a", 1).unwrap();
    store.record_applied("0002_b", 2).unwrap();
    let before = store.list_applied();
    assert_eq!(
        store.record_applied("0001_a", 99),
        Err(MigrationError::DuplicateApplication("0001_a".to_string()))
    );
    assert_eq!(store.list_applied(), before);
    assert_eq!(store.len(), 2);
}

#[test]
fn reverting_deletes_the_record() {
    let mut store = HistoryStore::new();
    store.record_applied("0001_a", 1).unwrap();
    store.record_applied("0002_b", 2).unwrap();
    store.record_applied("0003_c", 3).unwrap();
    assert_eq!(store.record_reverted("0002_b"), Ok(()));
    assert_eq!(store.list_applied(), vec![record("0001_a", 1), record("0003_c", 3)]);
    assert!(!store.is_applied("0002_b"));
    assert!(store.is_created());
}

#[test]
fn reverting_what_is_not_applied_fails_and_changes_nothing() {
    let mut store = HistoryStore::new();
    assert_eq!(
        store.record_reverted("0001_a"),
        Err(MigrationError::NotApplied("0001_a".to_string()))
    );
    assert!(!store.is_created());
    store.record_applied("0001_a", 1).unwrap();
    assert_eq!(
        store.record_reverted("0002_b"),
        Err(MigrationError::NotApplied("0002_b".to_string()))
    );
    assert_eq!(store.list_applied(), vec![record("0001_a", 1)]);
}

#[test]
fn a_reverted_unit_can_be_applied_again() {
    let mut store = HistoryStore::new();
    store.record_applied("0001_a", 1).unwrap();
    store.record_reverted("0001_a").unwrap();
    assert_eq!(store.len(), 0);
    assert_eq!(store.record_applied("0001_a", 2), Ok(()));
    assert_eq!(store.list_applied(), vec![record("0001_a", 2)]);
}
