use rudibi_server::dtype::{canonical_column, ColumnValue, DataType, TypeError};
use rudibi_server::engine::{Column, Database, DbError, Row, StorageCfg, Table};
use rudibi_server::query::{Bool, Value};
use rudibi_server::serial::Serializable;
use rudibi_server::testlib::{fruits_schema, fruits_table};

fn disk(name: &str) -> StorageCfg {
    StorageCfg::Disk { path: format!("{name}.db") }
}

fn all_fruit_columns() -> Vec<Value<'static>> {
    vec![Value::ColumnRef("id"), Value::ColumnRef("name")]
}

fn fruit(id: u32, name: &str) -> Row {
    Row::of_columns(&[&id.serialized(), &name.serialized()])
}

fn columns_of(rows: &[Row]) -> Vec<Vec<Vec<u8>>> {
    rows.iter()
        .map(|r| (0..r.offsets.len() - 1).map(|i| r.get_column(i).to_vec()).collect())
        .collect()
}

fn id_is(id: u32) -> Bool<'static> {
    Bool::Eq(Value::ColumnRef("id"), Value::Const(ColumnValue::U32(id)))
}

#[test]
fn insert_then_select_returns_row_in_schema_order() {
    for storage in [StorageCfg::InMemory, disk("roundtrip")] {
        let mut db = Database::new();
        db.new_table(&fruits_schema(), storage).unwrap();
        let rows = [Row::of_columns(&[&"kiwi".serialized(), &7u32.serialized()])];
        assert_eq!(db.insert("Fruits", &["name", "id"], &rows), Ok(1));
        let out = db.select(&all_fruit_columns(), "Fruits", &Bool::True).unwrap();
        assert_eq!(columns_of(&out), vec![vec![7u32.to_le_bytes().to_vec(), b"kiwi".to_vec()]]);
    }
}

#[test]
fn fixed_width_schema_sizes() {
    let t = Table::new(
        "Fixed",
        vec![
            Column::new("a", DataType::U32),
            Column::new("b", DataType::F64),
            Column::new("c", DataType::BUFFER { length: 3 }),
        ],
    );
    assert_eq!(t.min_row_size, 15);
    assert_eq!(t.max_row_size, 15);
    let v = Table::new("Var", vec![Column::new("a", DataType::U32), Column::new("b", DataType::UTF8 { max_bytes: 9 })]);
    assert_eq!((v.min_row_size, v.max_row_size), (4, 13));
}

#[test]
fn predicate_identities() {
    let db = fruits_table(StorageCfg::InMemory);
    let cols = all_fruit_columns();
    let base = db.select(&cols, "Fruits", &id_is(200)).unwrap();
    assert_eq!(base.len(), 1);
    let not_not = Bool::Not(Box::new(Bool::Not(Box::new(id_is(200)))));
    let and_true = id_is(200).and(Bool::True);
    let or_false = id_is(200).or(Bool::False);
    for p in [not_not, and_true, or_false] {
        assert_eq!(columns_of(&db.select(&cols, "Fruits", &p).unwrap()), columns_of(&base));
    }
    // An error is kept by each form too.
    let bad = || Bool::Lt(Value::ColumnRef("name"), Value::Const(ColumnValue::UTF8("x")));
    let expected = db.select(&cols, "Fruits", &bad()).unwrap_err();
    assert!(matches!(expected, DbError::QueryError(TypeError::InvalidArgType(ref op, _, _)) if op == "lt"));
    assert_eq!(db.select(&cols, "Fruits", &bad().and(Bool::True)).unwrap_err(), expected);
    assert_eq!(db.select(&cols, "Fruits", &bad().or(Bool::False)).unwrap_err(), expected);
}

#[test]
fn delete_true_empties_and_false_keeps() {
    for storage in [StorageCfg::InMemory, disk("delete_tf")] {
        let mut db = fruits_table(storage);
        assert_eq!(db.delete("Fruits", &Bool::False), Ok(0));
        assert_eq!(db.select(&all_fruit_columns(), "Fruits", &Bool::True).unwrap().len(), 4);
        assert_eq!(db.delete("Fruits", &Bool::True), Ok(4));
        assert_eq!(db.select(&all_fruit_columns(), "Fruits", &Bool::True).unwrap().len(), 0);
        assert_eq!(db.delete("Fruits", &Bool::True), Ok(0));
    }
}

#[test]
fn insert_adds_exactly_k_rows() {
    for storage in [StorageCfg::InMemory, disk("insert_k")] {
        let mut db = fruits_table(storage);
        let before = db.select(&[Value::ColumnRef("id")], "Fruits", &Bool::True).unwrap().len();
        let rows = [fruit(500, "date"), fruit(600, "fig"), fruit(700, "grape")];
        assert_eq!(db.insert("Fruits", &["id", "name"], &rows), Ok(3));
        let after = db.select(&[Value::ColumnRef("id")], "Fruits", &Bool::True).unwrap().len();
        assert_eq!(after, before + 3);
    }
}

fn fruit_session(storage: StorageCfg) -> Vec<(usize, Vec<Vec<Vec<u8>>>)> {
    let mut out = Vec::new();
    let mut db = fruits_table(storage);
    let cols = all_fruit_columns();
    for filter in [
        Bool::True,
        Bool::Eq(Value::ColumnRef("name"), Value::Const(ColumnValue::UTF8("banana"))),
        Bool::Gt(Value::ColumnRef("id"), Value::Const(ColumnValue::U32(200))),
    ] {
        let rows = db.select(&cols, "Fruits", &filter).unwrap();
        out.push((rows.len(), columns_of(&rows)));
    }
    let names = db.select(&[Value::ColumnRef("name")], "Fruits", &Bool::Lt(Value::ColumnRef("id"), Value::Const(ColumnValue::U32(200)))).unwrap();
    out.push((names.len(), columns_of(&names)));
    let removed = db.delete("Fruits", &Bool::Gt(Value::ColumnRef("id"), Value::Const(ColumnValue::U32(200)))).unwrap();
    let rest = db.select(&cols, "Fruits", &Bool::True).unwrap();
    out.push((removed, columns_of(&rest)));
    out
}

#[test]
fn backends_agree() {
    let memory = fruit_session(StorageCfg::InMemory);
    let disk = fruit_session(disk("agree"));
    assert_eq!(memory, disk);
    assert_eq!(memory[1].0, 2);
    assert_eq!(memory[2].0, 2);
    assert_eq!(memory[3].1, vec![vec![b"apple".to_vec()]]);
    assert_eq!(memory[4].0, 2);
    assert_eq!(memory[4].1.len(), 2);
}

fn size_table() -> Database {
    let mut db = Database::new();
    let t = Table::new(
        "Sizes",
        vec![Column::new("v", DataType::VARBINARY { max_length: 4 }), Column::new("b", DataType::BUFFER { length: 2 })],
    );
    assert_eq!((t.min_row_size, t.max_row_size), (2, 6));
    db.new_table(&t, StorageCfg::InMemory).unwrap();
    db
}

#[test]
fn row_size_boundaries() {
    let mut db = size_table();
    let ok_min = [Row::of_columns(&[&[], &[1, 2]])];
    let ok_max = [Row::of_columns(&[&[1, 2, 3, 4], &[1, 2]])];
    assert_eq!(db.insert("Sizes", &["v", "b"], &ok_min), Ok(1));
    assert_eq!(db.insert("Sizes", &["v", "b"], &ok_max), Ok(1));
    let too_small = [Row::of_columns(&[&[], &[1]])];
    assert_eq!(db.insert("Sizes", &["v", "b"], &too_small), Err(DbError::RowSizeTooSmall { got: 1, min: 2 }));
    let too_big = [Row::of_columns(&[&[1, 2, 3, 4, 5], &[1, 2]])];
    assert_eq!(db.insert("Sizes", &["v", "b"], &too_big), Err(DbError::RowSizeExceeded { got: 7, max: 6 }));
}

#[test]
fn buffer_of_wrong_length_is_rejected() {
    let mut db = size_table();
    for len in [0usize, 1, 3] {
        let buf = vec![9u8; len];
        let rows = [Row::of_columns(&[&[1, 2], &buf])];
        assert_eq!(
            db.insert("Sizes", &["v", "b"], &rows),
            Err(DbError::ColumnSizeOutOfBounds { column: "b".into(), got: len, min: 2, max: 2 })
        );
    }
}

#[test]
fn failed_insert_stores_nothing() {
    let mut db = size_table();
    let rows = [Row::of_columns(&[&[1], &[1, 2]]), Row::of_columns(&[&[1], &[1]])];
    assert!(db.insert("Sizes", &["v", "b"], &rows).is_err());
    assert_eq!(db.select(&[Value::ColumnRef("v")], "Sizes", &Bool::True).unwrap().len(), 0);
}

#[test]
fn cross_variant_comparison_is_a_type_mismatch() {
    let r = ColumnValue::U32(1).eq(&ColumnValue::UTF8("ab"));
    assert_eq!(r, Err(TypeError::InvalidArgType("eq".into(), DataType::U32, DataType::UTF8 { max_bytes: 2 })));
    let r = ColumnValue::Bytes(&[1, 2, 3]).neq(&ColumnValue::F64(0));
    assert_eq!(r, Err(TypeError::InvalidArgType("ne".into(), DataType::BUFFER { length: 3 }, DataType::F64)));
    let db = fruits_table(StorageCfg::InMemory);
    let filter = Bool::Eq(Value::ColumnRef("id"), Value::Const(ColumnValue::UTF8("100")));
    assert_eq!(
        db.select(&all_fruit_columns(), "Fruits", &filter).unwrap_err(),
        DbError::QueryError(TypeError::InvalidArgType("eq".into(), DataType::U32, DataType::UTF8 { max_bytes: 3 }))
    );
}

#[test]
fn ordering_on_text_is_a_type_mismatch() {
    let db = fruits_table(StorageCfg::InMemory);
    let filter = Bool::Gt(Value::ColumnRef("name"), Value::Const(ColumnValue::UTF8("banana")));
    assert_eq!(
        db.select(&[Value::ColumnRef("name")], "Fruits", &filter).unwrap_err(),
        DbError::QueryError(TypeError::InvalidArgType(
            "gt".into(),
            DataType::UTF8 { max_bytes: 5 },
            DataType::UTF8 { max_bytes: 6 }
        ))
    );
}

#[test]
fn true_matches_all_false_matches_none() {
    let db = fruits_table(disk("true_false"));
    assert_eq!(db.select(&all_fruit_columns(), "Fruits", &Bool::True).unwrap().len(), 4);
    assert_eq!(db.select(&all_fruit_columns(), "Fruits", &Bool::False).unwrap().len(), 0);
}

#[test]
fn projection_order_is_kept() {
    let db = fruits_table(StorageCfg::InMemory);
    let out = db.select(&[Value::ColumnRef("name"), Value::ColumnRef("id"), Value::ColumnRef("name")], "Fruits", &id_is(100)).unwrap();
    assert_eq!(
        columns_of(&out),
        vec![vec![b"apple".to_vec(), 100u32.to_le_bytes().to_vec(), b"apple".to_vec()]]
    );
}

#[test]
fn bytes_compare_for_equality() {
    let mut db = size_table();
    let rows = [Row::of_columns(&[&[1, 2], &[3, 4]]), Row::of_columns(&[&[5], &[6, 7]])];
    db.insert("Sizes", &["v", "b"], &rows).unwrap();
    let filter = Bool::Eq(Value::ColumnRef("b"), Value::Const(ColumnValue::Bytes(&[6, 7])));
    let out = db.select(&[Value::ColumnRef("v")], "Sizes", &filter).unwrap();
    assert_eq!(columns_of(&out), vec![vec![vec![5u8]]]);
    let filter = Bool::Neq(Value::ColumnRef("v"), Value::Const(ColumnValue::Bytes(&[1, 2])));
    assert_eq!(db.select(&[Value::ColumnRef("v")], "Sizes", &filter).unwrap().len(), 1);
}

#[test]
fn xor_and_not() {
    let db = fruits_table(StorageCfg::InMemory);
    let banana = || Bool::Eq(Value::ColumnRef("name"), Value::Const(ColumnValue::UTF8("banana")));
    let big = || Bool::Gte(Value::ColumnRef("id"), Value::Const(ColumnValue::U32(300)));
    let xor = Bool::Xor(Box::new(banana()), Box::new(big()));
    // banana xor id >= 300: 200 banana, 400 cherry
    let out = db.select(&[Value::ColumnRef("id")], "Fruits", &xor).unwrap();
    assert_eq!(columns_of(&out), vec![vec![200u32.to_le_bytes().to_vec()], vec![400u32.to_le_bytes().to_vec()]]);
    let not = Bool::Not(Box::new(Bool::Lte(Value::ColumnRef("id"), Value::Const(ColumnValue::U32(300)))));
    assert_eq!(db.select(&[Value::ColumnRef("id")], "Fruits", &not).unwrap().len(), 1);
}

#[test]
fn insert_errors() {
    let mut db = fruits_table(StorageCfg::InMemory);
    let rows = [fruit(1, "a")];
    assert_eq!(db.insert("Fruits", &["id"], &rows), Err(DbError::InvalidColumnCount { expected: 2, got: 1 }));
    assert_eq!(db.insert("Fruits", &["id", "nme"], &rows), Err(DbError::ColumnNotFound("name".into())));
    let short = [Row::of_columns(&[&1u32.serialized()])];
    assert_eq!(db.insert("Fruits", &["id", "name"], &short), Err(DbError::InvalidColumnCount { expected: 2, got: 1 }));
    assert_eq!(db.insert("Nope", &["id", "name"], &rows), Err(DbError::TableNotFound("Nope".into())));
}

#[test]
fn projection_of_constant_is_unsupported() {
    let db = fruits_table(StorageCfg::InMemory);
    let result = db.select(&[Value::ColumnRef("id"), Value::Const(ColumnValue::U32(1))], "Fruits", &Bool::True);
    assert_eq!(result.unwrap_err(), DbError::UnsupportedOperation("projection must reference columns".into()));
}

#[test]
fn filter_on_unknown_column_fails_before_scanning() {
    let db = fruits_table(StorageCfg::InMemory);
    let filter = Bool::True.and(Bool::Eq(Value::ColumnRef("colour"), Value::Const(ColumnValue::U32(1))));
    assert_eq!(db.select(&[Value::ColumnRef("id")], "Fruits", &filter).unwrap_err(), DbError::ColumnNotFound("colour".into()));
}

#[test]
fn undecodable_stored_text_is_an_integrity_error() {
    for storage in [StorageCfg::InMemory, disk("integrity")] {
        let mut db = Database::new();
        db.new_table(&fruits_schema(), storage).unwrap();
        let rows = [fruit(1, "ok"), Row::of_columns(&[&2u32.serialized(), &[0xff, 0xfe]])];
        db.insert("Fruits", &["id", "name"], &rows).unwrap();
        let filter = Bool::Eq(Value::ColumnRef("name"), Value::Const(ColumnValue::UTF8("ok")));
        assert_eq!(
            db.select(&[Value::ColumnRef("id")], "Fruits", &filter).unwrap_err(),
            DbError::DatabaseIntegrityError {
                table: "Fruits".into(),
                row_id: 1,
                column: "name".into(),
                dtype: DataType::UTF8 { max_bytes: 20 },
            }
        );
        // Filters that do not read the column still work.
        assert_eq!(db.select(&[Value::ColumnRef("name")], "Fruits", &id_is(2)).unwrap().len(), 1);
    }
}

#[test]
fn decoding() {
    assert!(matches!(canonical_column(&DataType::U32, &[1, 0, 0, 0]), Ok(ColumnValue::U32(1))));
    assert_eq!(canonical_column(&DataType::U32, &[1, 0, 0]).unwrap_err(), TypeError::ConversionError);
    assert!(matches!(canonical_column(&DataType::F64, &2.5f64.to_le_bytes()), Ok(ColumnValue::F64(b)) if b == 2.5f64.to_bits()));
    assert_eq!(canonical_column(&DataType::F64, &[0; 7]).unwrap_err(), TypeError::ConversionError);
    let text = "héllo".as_bytes();
    assert!(matches!(canonical_column(&DataType::UTF8 { max_bytes: 1 }, text), Ok(ColumnValue::UTF8("héllo"))));
    assert_eq!(canonical_column(&DataType::UTF8 { max_bytes: 9 }, &[0xc3]).unwrap_err(), TypeError::ConversionError);
    assert!(matches!(canonical_column(&DataType::VARBINARY { max_length: 0 }, &[1, 2]), Ok(ColumnValue::Bytes(&[1, 2]))));
    assert!(matches!(canonical_column(&DataType::BUFFER { length: 2 }, &[1, 2]), Ok(ColumnValue::Bytes(&[1, 2]))));
    assert_eq!(canonical_column(&DataType::BUFFER { length: 3 }, &[1, 2]).unwrap_err(), TypeError::ConversionError);
}

#[test]
fn float_comparisons_follow_ieee() {
    let f = |x: f64| ColumnValue::F64(x.to_bits());
    assert_eq!(f(1.5).lt(&f(2.0)), Ok(true));
    assert_eq!(f(-3.0).lt(&f(-2.0)), Ok(true));
    assert_eq!(f(-2.0).gt(&f(-3.0)), Ok(true));
    assert_eq!(f(-1.0).lt(&f(1.0)), Ok(true));
    assert_eq!(f(1.0).lte(&f(-1.0)), Ok(false));
    assert_eq!(f(0.0).eq(&f(-0.0)), Ok(true));
    assert_eq!(f(0.0).lt(&f(-0.0)), Ok(false));
    assert_eq!(f(-0.0).gte(&f(0.0)), Ok(true));
    assert_eq!(f(f64::NAN).eq(&f(f64::NAN)), Ok(false));
    assert_eq!(f(f64::NAN).neq(&f(f64::NAN)), Ok(true));
    assert_eq!(f(f64::NAN).lt(&f(1.0)), Ok(false));
    assert_eq!(f(1.0).gte(&f(f64::NAN)), Ok(false));
    assert_eq!(f(f64::INFINITY).gt(&f(f64::MAX)), Ok(true));
    assert_eq!(f(f64::NEG_INFINITY).lt(&f(f64::MIN)), Ok(true));
}

#[test]
fn integer_comparisons() {
    let a = ColumnValue::U32(5);
    let b = ColumnValue::U32(7);
    assert_eq!(a.lt(&b), Ok(true));
    assert_eq!(a.lte(&a), Ok(true));
    assert_eq!(a.gt(&b), Ok(false));
    assert_eq!(b.gte(&a), Ok(true));
    assert_eq!(a.neq(&b), Ok(true));
    assert_eq!(a.compare(&a, rudibi_server::dtype::CmpOp::Eq), Ok(true));
    assert_eq!(ColumnValue::UTF8("a").eq(&ColumnValue::UTF8("a")), Ok(true));
    assert_eq!(ColumnValue::UTF8("a").neq(&ColumnValue::UTF8("b")), Ok(true));
}

#[test]
fn sizes_of_types() {
    assert_eq!((DataType::U32.min_size(), DataType::U32.max_size()), (4, 4));
    assert_eq!((DataType::F64.min_size(), DataType::F64.max_size()), (8, 8));
    assert_eq!((DataType::UTF8 { max_bytes: 7 }.min_size(), DataType::UTF8 { max_bytes: 7 }.max_size()), (0, 7));
    assert_eq!((DataType::VARBINARY { max_length: 3 }.min_size(), DataType::VARBINARY { max_length: 3 }.max_size()), (0, 3));
    assert_eq!((DataType::BUFFER { length: 5 }.min_size(), DataType::BUFFER { length: 5 }.max_size()), (5, 5));
}

#[test]
fn schema_projections() {
    let t = fruits_schema();
    assert_eq!(t.project_to_schema_optional(&["name", "id", "name"]), Ok(vec![1, 0, 1]));
    assert_eq!(t.project_to_schema_optional(&["id", "x", "y"]), Err(DbError::ColumnNotFound("x".into())));
    assert_eq!(t.project_from_schema_required(&["name", "id"]), Ok(vec![1, 0]));
    assert_eq!(t.project_from_schema_required(&["name"]), Err(DbError::InvalidColumnCount { expected: 2, got: 1 }));
    assert_eq!(t.project_from_schema_required(&["name", "x"]), Err(DbError::ColumnNotFound("id".into())));
    let dup = Table::new("Dup", vec![Column::new("a", DataType::U32), Column::new("a", DataType::F64)]);
    assert_eq!(dup.project_to_schema_optional(&["a"]), Ok(vec![0]));
}

#[test]
fn rows_and_columns() {
    let r = Row::of_columns(&[&[1, 2], &[], &[3]]);
    assert_eq!(r.data, vec![1, 2, 3]);
    assert_eq!(r.offsets, vec![0, 2, 2, 3]);
    assert_eq!(r.get_column(0), &[1, 2]);
    assert!(r.get_column(1).is_empty());
    assert_eq!(r.get_column(2), &[3]);
    let empty = Row::of_columns(&[]);
    assert_eq!(empty.offsets, vec![0]);
}

#[test]
fn schema_lookup() {
    let db = fruits_table(StorageCfg::InMemory);
    let t = db.schema_for("Fruits").unwrap();
    assert_eq!(t.columns.len(), 2);
    assert_eq!((t.min_row_size, t.max_row_size), (4, 24));
    assert_eq!(db.schema_for("Vegetables").unwrap_err(), DbError::TableNotFound("Vegetables".into()));
}

#[test]
fn delete_then_insert_keeps_order() {
    for storage in [StorageCfg::InMemory, disk("ids_order")] {
        let mut db = fruits_table(storage);
        let filter = id_is(100).or(id_is(400));
        assert_eq!(db.delete("Fruits", &filter), Ok(2));
        let rest = db.select(&[Value::ColumnRef("name")], "Fruits", &Bool::True).unwrap();
        assert_eq!(columns_of(&rest), vec![vec![b"banana".to_vec()], vec![b"banana".to_vec()]]);
        assert_eq!(db.insert("Fruits", &["id", "name"], &[fruit(9, "lime")]), Ok(1));
        let all = db.select(&[Value::ColumnRef("id")], "Fruits", &Bool::True).unwrap();
        assert_eq!(columns_of(&all).last().unwrap(), &vec![9u32.to_le_bytes().to_vec()]);
    }
}
