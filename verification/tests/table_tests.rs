use kanji_card::table::Table;

#[test]
fn empty_table_has_nothing() {
    let table: Table<u32> = Table::new();
    assert_eq!(table.len(), 0);
    assert!(table.load(0).is_none());
    assert!(table.list_ids().is_empty());
}

#[test]
fn upsert_then_load_round_trips() {
    let mut table: Table<u32> = Table::new();
    table.upsert(10, 100);
    table.upsert(20, 200);
    assert_eq!(table.len(), 2);
    assert_eq!(table.load(10), Some(&100));
    assert_eq!(table.load(20), Some(&200));
    assert!(table.load(30).is_none());
}

#[test]
fn upsert_overwrites_in_place() {
    let mut table: Table<u32> = Table::new();
    table.upsert(10, 100);
    table.upsert(20, 200);
    table.upsert(10, 111);
    assert_eq!(table.len(), 2);
    assert_eq!(table.load(10), Some(&111));
    assert_eq!(table.list_ids(), vec![10, 20]);
}

#[test]
fn remove_takes_the_record_out() {
    let mut table: Table<u32> = Table::new();
    table.upsert(10, 100);
    table.upsert(20, 200);
    assert_eq!(table.remove(10), Some(100));
    assert_eq!(table.remove(10), None);
    assert_eq!(table.len(), 1);
    assert_eq!(table.list_ids(), vec![20]);
}

#[test]
fn list_ids_keeps_insertion_order() {
    let mut table: Table<&'static str> = Table::new();
    table.upsert(3, "c");
    table.upsert(1, "a");
    table.upsert(2, "b");
    assert_eq!(table.list_ids(), vec![3, 1, 2]);
    assert_eq!(table.entry_at(1).1, "a");
}
