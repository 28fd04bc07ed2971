use rudibi_server::dtype::DataType;
use rudibi_server::engine::{Column, Database, Row, StorageCfg, Table};

#[test]
fn batch_store_1_000_000_rows() {
    let mut db = Database::new();
    db.new_table(&Table::new("TestTable", vec![Column::new("id", DataType::U32)]), StorageCfg::InMemory).unwrap();

    let rows: Vec<Row> = (0..1_000_000u32).map(|i| Row::of_columns(&[&i.to_le_bytes()])).collect();

    let start = std::time::Instant::now();
    db.insert("TestTable", &["id"], &rows).unwrap();
    let duration = start.elapsed();

    println!("Time to store 1000 rows: {:?}", duration);
    assert!(duration.as_millis() < 200); // Rough performance check
}
