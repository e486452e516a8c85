use sea_orm_migration::table::NameTable;

#[test]
fn an_empty_table_holds_nothing() {
    let table: NameTable<u8> = NameTable::new();
    assert_eq!(table.len(), 0);
    assert_eq!(table.locate("a"), (0, false));
    assert!(!table.contains("a"));
}

#[test]
fn entries_are_kept_in_name_order() {
    let mut table: NameTable<u8> = NameTable::new();
    assert!(table.insert("c".to_string(), 3));
    assert!(table.insert("a".to_string(), 1));
    assert!(table.insert("b".to_string(), 2));
    assert_eq!(table.len(), 3);
    assert_eq!(table.name_at(0), "a");
    assert_eq!(table.name_at(1), "b");
    assert_eq!(table.name_at(2), "c");
    assert_eq!(table.value_at(0), 1);
    assert_eq!(table.value_at(1), 2);
    assert_eq!(table.value_at(2), 3);
}

#[test]
fn locate_gives_rank_and_presence() {
    let mut table: NameTable<u8> = NameTable::new();
    table.insert("b".to_string(), 0);
    table.insert("d".to_string(), 0);
    assert_eq!(table.locate("a"), (0, false));
    assert_eq!(table.locate("b"), (0, true));
    assert_eq!(table.locate("c"), (1, false));
    assert_eq!(table.locate("d"), (1, true));
    assert_eq!(table.locate("e"), (2, false));
}

#[test]
fn a_name_is_not_inserted_twice() {
    let mut table: NameTable<u8> = NameTable::new();
    assert!(table.insert("a".to_string(), 1));
    assert!(!table.insert("a".to_string(), 9));
    assert_eq!(table.len(), 1);
    assert_eq!(table.value_at(0), 1);
}

#[test]
fn remove_takes_out_one_entry() {
    let mut table: NameTable<u8> = NameTable::new();
    table.insert("a".to_string(), 1);
    table.insert("b".to_string(), 2);
    table.insert("c".to_string(), 3);
    assert_eq!(table.remove("b"), Some(2));
    assert_eq!(table.remove("b"), None);
    assert_eq!(table.len(), 2);
    assert_eq!(table.name_at(0), "a");
    assert_eq!(table.name_at(1), "c");
}
