use rudibi_server::dtype::{canonical_column, ColumnValue, DataType, TypeError};
use rudibi_server::engine::{Database, DbError, Row, StorageCfg};
use rudibi_server::query::{Bool, Value};
use rudibi_server::testlib::fruits_table;

const FRUIT_TYPES: [DataType; 2] = [DataType::U32, DataType::UTF8 { max_bytes: 20 }];

fn check_equality(results: &[Row], dtypes: &[DataType], expected: &[Vec<ColumnValue>]) {
    assert_eq!(results.len(), expected.len());
    for (row_idx, (expected_row, result_row)) in expected.iter().zip(results.iter()).enumerate() {
        assert_eq!(result_row.offsets.len() - 1, expected_row.len());
        for col_idx in 0..expected_row.len() {
            let value = canonical_column(&dtypes[col_idx], result_row.get_column(col_idx)).unwrap();
            assert_eq!(value.eq(&expected_row[col_idx]), Ok(true), "column {} at row {} not equal", col_idx, row_idx);
        }
    }
}

#[test]
fn test_equality() {
    // GIVEN
    let db = fruits_table(StorageCfg::InMemory);

    // WHEN
    let filter = Bool::Eq(Value::ColumnRef("name"), Value::Const(ColumnValue::UTF8("banana")));
    let results = db.select(&[Value::ColumnRef("id"), Value::ColumnRef("name")], "Fruits", &filter).unwrap();

    // THEN
    check_equality(
        &results,
        &FRUIT_TYPES,
        &[
            vec![ColumnValue::U32(200), ColumnValue::UTF8("banana")],
            vec![ColumnValue::U32(300), ColumnValue::UTF8("banana")],
        ],
    );
}

#[test]
fn test_gt() {
    // GIVEN
    let db = fruits_table(StorageCfg::InMemory);

    // WHEN
    let filter = Bool::Gt(Value::ColumnRef("id"), Value::Const(ColumnValue::U32(200)));
    let results = db.select(&[Value::ColumnRef("id"), Value::ColumnRef("name")], "Fruits", &filter).unwrap();

    // THEN
    check_equality(
        &results,
        &FRUIT_TYPES,
        &[
            vec![ColumnValue::U32(300), ColumnValue::UTF8("banana")],
            vec![ColumnValue::U32(400), ColumnValue::UTF8("cherry")],
        ],
    );
}

#[test]
fn test_gt_utf8_unsupported() {
    // GIVEN
    let db = fruits_table(StorageCfg::InMemory);

    // WHEN
    let filter = Bool::Gt(Value::ColumnRef("name"), Value::Const(ColumnValue::UTF8("banana")));
    let result = db.select(&[Value::ColumnRef("name")], "Fruits", &filter);

    // THEN
    assert!(matches!(result, Err(DbError::QueryError(TypeError::InvalidArgType(_, _, _)))), "{result:#?}");
}

#[test]
fn test_lt() {
    // GIVEN
    let db = fruits_table(StorageCfg::InMemory);

    // Test 3: LessThan filter on U32
    let filter = Bool::Lt(Value::ColumnRef("id"), Value::Const(ColumnValue::U32(200)));
    let results = db.select(&[Value::ColumnRef("id"), Value::ColumnRef("name")], "Fruits", &filter).unwrap();
    check_equality(&results, &FRUIT_TYPES, &[vec![ColumnValue::U32(100), ColumnValue::UTF8("apple")]]);
}

#[test]
fn apply_projection() {
    // GIVEN
    let db = fruits_table(StorageCfg::InMemory);

    // WHEN
    let filter = Bool::Eq(Value::ColumnRef("id"), Value::Const(ColumnValue::U32(100)));
    let results = db.select(&[Value::ColumnRef("name")], "Fruits", &filter).unwrap();

    // THEN
    check_equality(&results, &[DataType::UTF8 { max_bytes: 20 }], &[vec![ColumnValue::UTF8("apple")]]);
}

#[test]
fn simple_filters_test_multiple_filters() {
    // GIVEN
    let db = fruits_table(StorageCfg::InMemory);

    // WHEN
    let filter = Bool::and(
        Bool::Gt(Value::ColumnRef("id"), Value::Const(ColumnValue::U32(100))),
        Bool::Neq(Value::ColumnRef("name"), Value::Const(ColumnValue::UTF8("cherry"))),
    );
    let results = db.select(&[Value::ColumnRef("id"), Value::ColumnRef("name")], "Fruits", &filter).unwrap();

    // THEN
    check_equality(
        &results,
        &FRUIT_TYPES,
        &[
            vec![ColumnValue::U32(200), ColumnValue::UTF8("banana")],
            vec![ColumnValue::U32(300), ColumnValue::UTF8("banana")],
        ],
    );
}

#[test]
fn simple_filters_test_no_matching_rows() {
    // GIVEN
    let db = fruits_table(StorageCfg::InMemory);

    // WHEN
    let filter = Bool::Eq(Value::ColumnRef("name"), Value::Const(ColumnValue::UTF8("orange")));
    let results = db.select(&[Value::ColumnRef("id"), Value::ColumnRef("name")], "Fruits", &filter).unwrap();

    // THEN
    assert_eq!(results.len(), 0);
}

#[test]
fn simple_filters_test_no_filters() {
    // GIVEN
    let db = fruits_table(StorageCfg::InMemory);

    // WHEN
    let results = db.select(&[Value::ColumnRef("id"), Value::ColumnRef("name")], "Fruits", &Bool::True).unwrap();

    // THEN
    check_equality(
        &results,
        &FRUIT_TYPES,
        &[
            vec![ColumnValue::U32(100), ColumnValue::UTF8("apple")],
            vec![ColumnValue::U32(200), ColumnValue::UTF8("banana")],
            vec![ColumnValue::U32(300), ColumnValue::UTF8("banana")],
            vec![ColumnValue::U32(400), ColumnValue::UTF8("cherry")],
        ],
    );
}

#[test]
fn simple_filters_test_invalid_column() {
    // GIVEN
    let db = fruits_table(StorageCfg::InMemory);

    // WHEN
    let result = db.select(&[Value::ColumnRef("invalid_column")], "Fruits", &Bool::True);

    // THEN
    assert_eq!(result.unwrap_err(), DbError::ColumnNotFound("invalid_column".into()));
}

#[test]
fn simple_filters_test_invalid_table() {
    // GIVEN
    let db = Database::new();

    // WHEN
    let result = db.select(&[Value::ColumnRef("id")], "NonExistent", &Bool::True);

    // THEN
    assert_eq!(result.unwrap_err(), DbError::TableNotFound("NonExistent".into()));
}
