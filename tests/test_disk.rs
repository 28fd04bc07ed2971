use rudibi_server::dtype::DataType;
use rudibi_server::engine::{Column, Row, Table};
use rudibi_server::serial::Serializable;
use rudibi_server::storage::{DiskStorage, RowContent};
use rudibi_server::testlib::fruits_schema;

#[test]
fn test_single_column() {
    let mut storage = DiskStorage::new(Table::new("Table", vec![Column::new("id", DataType::U32)]), "single_column.db");
    let rows = [Row::of_columns(&[&1u32.serialized()])];
    storage.store(&rows, &vec![0]);

    let read: Vec<RowContent> = storage.scan().items.into_iter().map(|i| i.row_content).collect();
    assert_eq!(read.len(), 1);
    assert_eq!(read[0].get_column(0), &1u32.to_le_bytes());
}

#[test]
fn test_multiple_columns() {
    let mut storage = DiskStorage::new(fruits_schema(), "multiple_columns.db");
    let rows = [
        Row::of_columns(&[&1u32.serialized(), &[1u8, 2, 3, 4]]),
        Row::of_columns(&[&2u32.serialized(), &[5u8, 6, 7, 8]]),
    ];
    storage.store(&rows, &vec![0, 1]);

    let read_rows: Vec<RowContent> = storage.scan().items.into_iter().map(|i| i.row_content).collect();
    assert_eq!(read_rows.len(), 2);
    assert_eq!(read_rows[0].get_column(0), &1u32.to_le_bytes());
    assert_eq!(read_rows[0].get_column(1), &[1, 2, 3, 4]);
    assert_eq!(read_rows[1].get_column(0), &2u32.to_le_bytes());
    assert_eq!(read_rows[1].get_column(1), &[5, 6, 7, 8]);
}

#[test]
fn test_disk_storage() {
    let mut storage = DiskStorage::new(fruits_schema(), "disk_storage.db");
    let rows = [
        Row::of_columns(&[&1u32.to_le_bytes(), &[1, 2, 3, 4]]),
        Row::of_columns(&[&2u32.to_le_bytes(), &[5, 6, 7, 8]]),
    ];
    storage.store(&rows, &vec![0, 1]);

    let read_rows: Vec<RowContent> = storage.scan().items.into_iter().map(|x| x.row_content).collect();
    assert_eq!(read_rows.len(), 2);
    assert_eq!(read_rows[0].get_column(0), &1u32.to_le_bytes());
    assert_eq!(read_rows[0].get_column(1), &[1, 2, 3, 4]);
    assert_eq!(read_rows[1].get_column(0), &2u32.to_le_bytes());
    assert_eq!(read_rows[1].get_column(1), &[5, 6, 7, 8]);
}

#[test]
fn disk_log_layout() {
    let mut storage = DiskStorage::new(fruits_schema(), "layout.db");
    assert_eq!(storage.image(), &[b'R', b'D', b'B', b'I', 3, 0, 0, 0, 0, 0, 0, 0]);
    assert_eq!(storage.path(), "layout.db");
    // Input columns given as (name, id): the record holds them in schema order.
    let rows = [Row::of_columns(&[&[7u8, 8], &5u32.to_le_bytes()])];
    storage.store(&rows, &vec![1, 0]);
    let mut expected: Vec<u8> = vec![b'R', b'D', b'B', b'I', 3, 0, 0, 0, 0, 0, 0, 0];
    expected.push(0);
    for offset in [0u64, 4, 6] {
        expected.extend_from_slice(&offset.to_le_bytes());
    }
    expected.extend_from_slice(&6u64.to_le_bytes());
    expected.extend_from_slice(&[5, 0, 0, 0, 7, 8]);
    assert_eq!(storage.image(), expected.as_slice());

    // Deleting stamps the tombstone and moves no byte.
    storage.delete_rows(vec![0]);
    expected[12] = 1;
    assert_eq!(storage.image(), expected.as_slice());
    assert_eq!(storage.scan().items.len(), 0);
}

#[test]
fn disk_ids_skip_tombstones() {
    let mut storage = DiskStorage::new(Table::new("T", vec![Column::new("id", DataType::U32)]), "ids.db");
    let rows: Vec<Row> = (0..5u32).map(|i| Row::of_columns(&[&i.to_le_bytes()])).collect();
    storage.store(&rows, &vec![0]);
    storage.delete_rows(vec![3, 1, 99]);
    let items = storage.scan().items;
    let ids: Vec<usize> = items.iter().map(|i| i.row_id).collect();
    assert_eq!(ids, vec![0, 1, 2]);
    let values: Vec<&[u8]> = items.iter().map(|i| i.row_content.get_column(0)).collect();
    assert_eq!(values, vec![&0u32.to_le_bytes()[..], &2u32.to_le_bytes()[..], &4u32.to_le_bytes()[..]]);
    // Ids are positions among the live rows: deleting 1 now removes the value 2.
    storage.delete_rows(vec![1]);
    let values: Vec<Vec<u8>> = storage.scan().items.iter().map(|i| i.row_content.get_column(0).to_vec()).collect();
    assert_eq!(values, vec![0u32.to_le_bytes().to_vec(), 4u32.to_le_bytes().to_vec()]);
}
