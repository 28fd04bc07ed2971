use rudibi_server::dtype::{canonical_column, ColumnValue, DataType};
use rudibi_server::engine::{Column, Database, DbError, Row, StorageCfg, Table};
use rudibi_server::query::{Bool, Value};
use rudibi_server::serial::Serializable;
use rudibi_server::testlib::{empty_table, fruits_schema};

fn disk() -> StorageCfg {
    StorageCfg::Disk { path: "simple_stores.db".to_string() }
}

fn check_equality(results: &[Row], dtypes: &[DataType], expected: &[Vec<ColumnValue>]) {
    assert_eq!(results.len(), expected.len());
    for (row_idx, (expected_row, result_row)) in expected.iter().zip(results.iter()).enumerate() {
        assert_eq!(result_row.offsets.len() - 1, expected_row.len());
        for col_idx in 0..expected_row.len() {
            let value = canonical_column(&dtypes[col_idx], result_row.get_column(col_idx)).unwrap();
            assert_eq!(value.eq(&expected_row[col_idx]), Ok(true), "column {} at row {} not equal", col_idx, row_idx);
        }
    }
}

#[test]
fn store_unknown_table() {
    let mut db = Database::new();
    let result = db.insert("UnknownTable", &["id"], &[]);
    assert_eq!(result, Err(DbError::TableNotFound("UnknownTable".to_string())));
}

fn store_nothing(storage: StorageCfg) {
    let mut db = empty_table(storage);
    let result = db.insert("EmptyTable", &["id"], &[]);
    assert!(matches!(result, Ok(0)));
}

#[test]
fn store_nothing_in_mem() {
    store_nothing(StorageCfg::InMemory);
}

#[test]
fn store_nothing_on_disk() {
    store_nothing(disk());
}

fn test_all_data_types(storage: StorageCfg) {
    let mut db = Database::new();
    db.new_table(
        &Table::new(
            "MixedTypes",
            vec![
                Column::new("int", DataType::U32),
                Column::new("float", DataType::F64),
                Column::new("text", DataType::UTF8 { max_bytes: 10 }),
                Column::new("binary", DataType::VARBINARY { max_length: 5 }),
                Column::new("buffer", DataType::BUFFER { length: 3 }),
            ],
        ),
        storage,
    )
    .unwrap();

    let int_val = 42u32.serialized();
    let float_val = 3.14f64.to_le_bytes();
    let text_val = "hello".serialized();
    let binary_val = [0x01u8, 0x02, 0x03, 0x04, 0x05];
    let buffer_val = [0xAAu8, 0xBB, 0xCC];
    let rows = [Row::of_columns(&[&int_val, &float_val, &text_val, &binary_val, &buffer_val])];

    let result = db.insert("MixedTypes", &["int", "float", "text", "binary", "buffer"], &rows);
    assert!(result.is_ok(), "{result:#?}");

    let results = db
        .select(
            &[
                Value::ColumnRef("int"),
                Value::ColumnRef("float"),
                Value::ColumnRef("text"),
                Value::ColumnRef("binary"),
                Value::ColumnRef("buffer"),
            ],
            "MixedTypes",
            &Bool::True,
        )
        .unwrap();
    check_equality(
        &results,
        &[
            DataType::U32,
            DataType::F64,
            DataType::UTF8 { max_bytes: 10 },
            DataType::VARBINARY { max_length: 5 },
            DataType::BUFFER { length: 3 },
        ],
        &[vec![
            ColumnValue::U32(42),
            ColumnValue::F64(3.14f64.to_bits()),
            ColumnValue::UTF8("hello"),
            ColumnValue::Bytes(&[0x01, 0x02, 0x03, 0x04, 0x05]),
            ColumnValue::Bytes(&[0xAA, 0xBB, 0xCC]),
        ]],
    );
}

#[test]
fn test_all_data_types_in_mem() {
    test_all_data_types(StorageCfg::InMemory);
}

#[test]
fn test_all_data_types_on_disk() {
    test_all_data_types(disk());
}

fn test_column_size_limits(storage: StorageCfg) {
    let mut db = Database::new();
    db.new_table(
        &Table::new(
            "SizeTest",
            vec![
                Column::new("utf8", DataType::UTF8 { max_bytes: 5 }),
                Column::new("varbinary", DataType::VARBINARY { max_length: 5 }),
                Column::new("buffer", DataType::BUFFER { length: 3 }),
            ],
        ),
        storage,
    )
    .unwrap();

    // Test valid sizes
    let utf8_val = "abc".as_bytes().to_vec(); // 3 bytes, within 0-5
    let varbinary_val = vec![1, 2, 3, 4, 5]; // 5 bytes, at max
    let buffer_val = vec![6, 7, 8]; // 3 bytes, exact length
    let rows = [Row::of_columns(&[&utf8_val, &varbinary_val, &buffer_val])];
    let result = db.insert("SizeTest", &["utf8", "varbinary", "buffer"], &rows);
    assert!(result.is_ok(), "{result:#?}");

    // Test invalid size (varbinary too long)
    let invalid_varbinary = vec![1, 2, 3, 4, 5, 6]; // 6 bytes, exceeds max_length 5
    let invalid_rows = [Row::of_columns(&[&utf8_val, &invalid_varbinary, &buffer_val])];
    let result = db.insert("SizeTest", &["utf8", "varbinary", "buffer"], &invalid_rows);
    assert_eq!(
        result,
        Err(DbError::ColumnSizeOutOfBounds { column: "varbinary".into(), got: 6, min: 0, max: 5 }),
        "{result:#?}"
    );

    // Test invalid size (buffer too short)
    let short_buffer = vec![1, 2]; // 2 bytes, less than length 3
    let short_row = [Row::of_columns(&[&utf8_val, &varbinary_val, &short_buffer])];
    let result = db.insert("SizeTest", &["utf8", "varbinary", "buffer"], &short_row);
    assert_eq!(result, Err(DbError::ColumnSizeOutOfBounds { column: "buffer".into(), got: 2, min: 3, max: 3 }));
}

#[test]
fn test_column_size_limits_in_mem() {
    test_column_size_limits(StorageCfg::InMemory);
}

#[test]
fn test_column_size_limits_on_disk() {
    test_column_size_limits(disk());
}

fn test_out_of_order_store(storage: StorageCfg) {
    // GIVEN
    let mut db = Database::new();
    db.new_table(&fruits_schema(), storage).unwrap();

    // WHEN
    let rows = [
        Row::of_columns(&[&"banana".serialized(), &100u32.serialized()]),
        Row::of_columns(&[&"apple".serialized(), &200u32.serialized()]),
    ];
    db.insert("Fruits", &["name", "id"], &rows).unwrap();

    // THEN
    let results = db.select(&[Value::ColumnRef("id"), Value::ColumnRef("name")], "Fruits", &Bool::True).unwrap();
    check_equality(
        &results,
        &[DataType::U32, DataType::UTF8 { max_bytes: 20 }],
        &[
            vec![ColumnValue::U32(100), ColumnValue::UTF8("banana")],
            vec![ColumnValue::U32(200), ColumnValue::UTF8("apple")],
        ],
    );
}

#[test]
fn test_out_of_order_store_in_mem() {
    test_out_of_order_store(StorageCfg::InMemory);
}

#[test]
fn test_out_of_order_store_on_disk() {
    test_out_of_order_store(disk());
}
