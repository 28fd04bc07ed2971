use rudibi_server::dtype::{canonical_column, ColumnValue, DataType};
use rudibi_server::engine::{Database, DbError, Row, StorageCfg};
use rudibi_server::query::{Bool, Value};
use rudibi_server::testlib::{empty_table, fruits_table};

const FRUIT_TYPES: [DataType; 2] = [DataType::U32, DataType::UTF8 { max_bytes: 20 }];

fn disk() -> StorageCfg {
    StorageCfg::Disk { path: "simple_deletes.db".to_string() }
}

fn check_equality(results: &[Row], dtypes: &[DataType], expected: &[Vec<ColumnValue>]) {
    assert_eq!(results.len(), expected.len());
    for (row_idx, (expected_row, result_row)) in expected.iter().zip(results.iter()).enumerate() {
        assert_eq!(result_row.offsets.len() - 1, expected_row.len());
        for col_idx in 0..expected_row.len() {
            let value = canonical_column(&dtypes[col_idx], result_row.get_column(col_idx)).unwrap();
            assert_eq!(value.eq(&expected_row[col_idx]), Ok(true), "column {} at row {} not equal", col_idx, row_idx);
        }
    }
}

#[test]
fn test_delete_non_existent_table() {
    // GIVEN
    let mut db = Database::new();

    // WHEN
    let result = db.delete("NonExistent", &Bool::True);

    // THEN
    assert!(matches!(result, Err(DbError::TableNotFound(ref s)) if s == "NonExistent"));
}

fn test_delete_empty(storage: StorageCfg) {
    // GIVEN
    let mut db = empty_table(storage);

    // WHEN
    let deleted_count = db.delete("EmptyTable", &Bool::True).unwrap();

    // THEN
    assert_eq!(deleted_count, 0);
}

#[test]
fn test_delete_empty_in_mem() {
    test_delete_empty(StorageCfg::InMemory);
}

#[test]
fn test_delete_empty_on_disk() {
    test_delete_empty(disk());
}

fn test_delete_with_equality_filter(storage: StorageCfg) {
    // GIVEN
    let mut db = fruits_table(storage);

    // WHEN
    let filter = Bool::Eq(Value::ColumnRef("name"), Value::Const(ColumnValue::UTF8("banana")));
    let deleted_count = db.delete("Fruits", &filter).unwrap();

    // THEN
    assert_eq!(deleted_count, 2);
    let results = db.select(&[Value::ColumnRef("id"), Value::ColumnRef("name")], "Fruits", &Bool::True).unwrap();
    check_equality(
        &results,
        &FRUIT_TYPES,
        &[
            vec![ColumnValue::U32(100), ColumnValue::UTF8("apple")],
            vec![ColumnValue::U32(400), ColumnValue::UTF8("cherry")],
        ],
    );
}

#[test]
fn test_delete_with_equality_filter_in_mem() {
    test_delete_with_equality_filter(StorageCfg::InMemory);
}

#[test]
fn test_delete_with_equality_filter_on_disk() {
    test_delete_with_equality_filter(disk());
}

fn test_delete_with_greater_than_filter(storage: StorageCfg) {
    // GIVEN
    let mut db = fruits_table(storage);

    // WHEN
    let filter = Bool::Gt(Value::ColumnRef("id"), Value::Const(ColumnValue::U32(200)));
    let deleted_count = db.delete("Fruits", &filter).unwrap();

    // THEN
    assert_eq!(deleted_count, 2);
    let results = db.select(&[Value::ColumnRef("id"), Value::ColumnRef("name")], "Fruits", &Bool::True).unwrap();
    check_equality(
        &results,
        &FRUIT_TYPES,
        &[
            vec![ColumnValue::U32(100), ColumnValue::UTF8("apple")],
            vec![ColumnValue::U32(200), ColumnValue::UTF8("banana")],
        ],
    );
}

#[test]
fn test_delete_with_greater_than_filter_in_mem() {
    test_delete_with_greater_than_filter(StorageCfg::InMemory);
}

#[test]
fn test_delete_with_greater_than_filter_on_disk() {
    test_delete_with_greater_than_filter(disk());
}

fn test_delete_all_rows(storage: StorageCfg) {
    // GIVEN
    let mut db = fruits_table(storage);

    // WHEN
    let deleted_count = db.delete("Fruits", &Bool::True).unwrap();

    // THEN
    assert_eq!(deleted_count, 4);
    let results = db.select(&[Value::ColumnRef("id")], "Fruits", &Bool::True).unwrap();
    assert_eq!(results.len(), 0);
}

#[test]
fn test_delete_all_rows_in_mem() {
    test_delete_all_rows(StorageCfg::InMemory);
}

#[test]
fn test_delete_all_rows_on_disk() {
    test_delete_all_rows(disk());
}

fn test_delete_with_invalid_column(storage: StorageCfg) {
    // GIVEN
    let mut db = fruits_table(storage);

    // WHEN
    let result = db.delete("Fruits", &Bool::Eq(Value::ColumnRef("invalid"), Value::Const(ColumnValue::U32(100))));

    // THEN
    assert!(matches!(result, Err(DbError::ColumnNotFound(ref s)) if s == "invalid"));
}

#[test]
fn test_delete_with_invalid_column_in_mem() {
    test_delete_with_invalid_column(StorageCfg::InMemory);
}

#[test]
fn test_delete_with_invalid_column_on_disk() {
    test_delete_with_invalid_column(disk());
}
