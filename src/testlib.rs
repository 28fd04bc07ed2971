//! Ready-made tables for examples and tests.
use vstd::prelude::*;
use vstd::bytes::{spec_u32_to_le_bytes, lemma_auto_spec_u32_to_from_le_bytes};
use vstd::string::{is_ascii_spec_bytes, StringSliceAdditionalSpecFns};
use vstd::utf8::is_ascii_chars;
use crate::dtype::DataType;
use crate::engine::{sum_max,
    column_sizes_check, find_table, insert_map, position_from, required_prefix, row_check, rows_check,
    Column, Database, Row, StorageCfg, Table, TableState, names_view, slices_view,
};
use crate::serial::Serializable;
use crate::storage::{permuted, stored_rows};

verus! {

/// A short run of lowercase letters takes one byte per letter.
proof fn lemma_name_bytes(s: &str)
    requires
        forall|i: int| 0 <= i < s@.len() ==> 'a' <= #[trigger] s@[i] <= 'z',
    ensures
        s.spec_bytes().len() == s@.len(),
{
    broadcast use is_ascii_spec_bytes;

    assert(is_ascii_chars(s@));
    assert(vstd::string::is_ascii(s));
}

/// The columns of the fruits table: `id` (U32) and `name` (UTF8, at most 20 bytes).
pub open spec fn fruits_columns(cols: Seq<Column>) -> bool {
    &&& cols.len() == 2
    &&& cols[0].name@ == "id"@
    &&& cols[0].dtype == DataType::U32
    &&& cols[1].name@ == "name"@
    &&& cols[1].dtype == (DataType::UTF8 { max_bytes: 20 })
}

/// The schema `Fruits { id: U32, name: UTF8(20) }`.
pub fn fruits_schema() -> (r: Table)
    ensures
        r.wf(),
        r.name@ == "Fruits"@,
        fruits_columns(r.columns@),
        r.min_row_size == 4,
        r.max_row_size == 24,
{
    let columns = vec![Column::new("id", DataType::U32), Column::new("name", DataType::UTF8 { max_bytes: 20 })];
    assert(columns@.drop_last().drop_last() =~= Seq::<Column>::empty());
    assert(sum_max(columns@) == 24) by {
        reveal_with_fuel(sum_max, 3);
    }
    assert(crate::engine::sum_min(columns@) == 4) by {
        reveal_with_fuel(crate::engine::sum_min, 3);
    }
    Table::new("Fruits", columns)
}

/// A row of the fruits table.
fn fruit_row(id: u32, name: &str) -> (r: Row)
    requires
        name@.len() <= 20,
        forall|i: int| 0 <= i < name@.len() ==> 'a' <= #[trigger] name@[i] <= 'z',
    ensures
        r.wf(),
        r.offsets@.len() == 3,
        r.columns() == seq![spec_u32_to_le_bytes(id), name.spec_bytes()],
        r.columns()[0].len() == 4,
        r.columns()[1].len() == name@.len(),
        r.data@.len() == 4 + name@.len(),
{
    proof {
        lemma_name_bytes(name);
        lemma_auto_spec_u32_to_from_le_bytes();
    }
    let id_bytes = id.serialized();
    let name_bytes = name.serialized();
    let columns = vec![id_bytes.as_slice(), name_bytes.as_slice()];
    assert(slices_view(columns@) =~= seq![spec_u32_to_le_bytes(id), name.spec_bytes()]);
    let r = Row::of_columns(columns.as_slice());
    assert(r.columns()[0] == r.data@.subrange(r.offsets@[0] as int, r.offsets@[1] as int));
    assert(r.columns()[1] == r.data@.subrange(r.offsets@[1] as int, r.offsets@[2] as int));
    r
}

/// A row with a four-byte first column and a second column of at most 20 bytes.
spec fn fruit_ok(row: Row) -> bool {
    &&& row.wf()
    &&& row.offsets@.len() == 3
    &&& row.columns()[0].len() == 4
    &&& row.columns()[1].len() <= 20
    &&& row.data@.len() == 4 + row.columns()[1].len()
}

proof fn lemma_fruit_row_check(cols: Seq<Column>, row: Row)
    requires
        fruits_columns(cols),
        fruit_ok(row),
    ensures
        row_check(cols, 4, 24, row, seq![0usize, 1usize]) == Ok::<(), crate::engine::Failure>(()),
{
    let map = seq![0usize, 1usize];
    assert(column_sizes_check(cols, row.columns(), map, 0) == Ok::<(), crate::engine::Failure>(()));
    assert(column_sizes_check(cols, row.columns(), map, 1) == Ok::<(), crate::engine::Failure>(()));
    assert(column_sizes_check(cols, row.columns(), map, 2) == Ok::<(), crate::engine::Failure>(()));
}

/// The rows of the fruits table, each as the bytes of its two columns.
pub open spec fn fruits_rows() -> Seq<Seq<Seq<u8>>> {
    seq![
        seq![spec_u32_to_le_bytes(100), "apple".spec_bytes()],
        seq![spec_u32_to_le_bytes(200), "banana".spec_bytes()],
        seq![spec_u32_to_le_bytes(300), "banana".spec_bytes()],
        seq![spec_u32_to_le_bytes(400), "cherry".spec_bytes()],
    ]
}

/// The fruits table with rows (100, "apple"), (200, "banana"), (300, "banana"), (400, "cherry").
pub fn fruits_table(storage: StorageCfg) -> (r: Database)
    ensures
        r.wf(),
        r.view().len() == 1,
        r.view()[0].name == "Fruits"@,
        fruits_columns(r.view()[0].columns),
        r.view()[0].rows == fruits_rows(),
{
    let mut db = Database::new();
    let schema = fruits_schema();
    let created = db.new_table(&schema, storage);
    assert(created.is_ok());
    proof {
        reveal_strlit("apple");
        reveal_strlit("banana");
        reveal_strlit("cherry");
        reveal_strlit("id");
        reveal_strlit("name");
    }
    let rows = vec![fruit_row(100, "apple"), fruit_row(200, "banana"), fruit_row(300, "banana"), fruit_row(400, "cherry")];
    let columns = vec!["id", "name"];
    let ghost tables = db.view();
    let ghost t = tables[0];
    let ghost names = names_view(columns@);
    proof {
        assert(names =~= seq!["id"@, "name"@]);
        assert("id"@.len() == 2 && "name"@.len() == 4);
        assert("id"@ != "name"@);
        assert(fruits_columns(t.columns));
        assert(find_table(tables, "Fruits"@) == Some(0int));
        assert(position_from(names, "id"@, 0) == Some(0int));
        assert(position_from(names, "name"@, 1) == Some(1int));
        assert(position_from(names, "name"@, 0) == Some(1int));
        assert(required_prefix(t.columns, names, 0) == Ok::<Seq<usize>, crate::engine::Failure>(Seq::empty()));
        assert(Seq::<usize>::empty().push(0usize) =~= seq![0usize]);
        assert(seq![0usize].push(1usize) =~= seq![0usize, 1usize]);
        assert(required_prefix(t.columns, names, 1) == Ok::<Seq<usize>, crate::engine::Failure>(seq![0usize]));
        assert(required_prefix(t.columns, names, 2) == Ok::<Seq<usize>, crate::engine::Failure>(seq![0usize, 1usize]));
        let map = seq![0usize, 1usize];
        assert(fruit_ok(rows@[0]) && fruit_ok(rows@[1]) && fruit_ok(rows@[2]) && fruit_ok(rows@[3]));
        assert forall|k: int| 0 <= k < 4 implies row_check(t.columns, 4, 24, #[trigger] rows@[k], map) == Ok::<(), crate::engine::Failure>(()) by {
            lemma_fruit_row_check(t.columns, rows@[k]);
        }
        assert(row_check(t.columns, 4, 24, rows@[0], map) == Ok::<(), crate::engine::Failure>(()));
        assert(row_check(t.columns, 4, 24, rows@[1], map) == Ok::<(), crate::engine::Failure>(()));
        assert(row_check(t.columns, 4, 24, rows@[2], map) == Ok::<(), crate::engine::Failure>(()));
        assert(row_check(t.columns, 4, 24, rows@[3], map) == Ok::<(), crate::engine::Failure>(()));
        assert(rows_check(t.columns, 4, 24, rows@, map, 0) == Ok::<(), crate::engine::Failure>(()));
        assert(rows_check(t.columns, 4, 24, rows@, map, 1) == Ok::<(), crate::engine::Failure>(()));
        assert(rows_check(t.columns, 4, 24, rows@, map, 2) == Ok::<(), crate::engine::Failure>(()));
        assert(rows_check(t.columns, 4, 24, rows@, map, 3) == Ok::<(), crate::engine::Failure>(()));
        assert(rows_check(t.columns, 4, 24, rows@, map, 4) == Ok::<(), crate::engine::Failure>(()));
        assert(insert_map(tables, "Fruits"@, names, rows@) == Ok::<Seq<usize>, crate::engine::Failure>(map));
        assert forall|k: int| 0 <= k < 4 implies permuted(#[trigger] rows@[k].columns(), map) == rows@[k].columns() by {
            assert(permuted(rows@[k].columns(), map) =~= rows@[k].columns());
        }
        assert(stored_rows(rows@, map) =~= fruits_rows());
    }
    let inserted = db.insert("Fruits", columns.as_slice(), rows.as_slice());
    assert(db.view()[0].rows =~= fruits_rows());
    db
}

/// A database holding the table `EmptyTable { id: U32 }` with no rows.
pub fn empty_table(storage: StorageCfg) -> (r: Database)
    ensures
        r.wf(),
        r.view().len() == 1,
        r.view()[0].name == "EmptyTable"@,
        r.view()[0].columns.len() == 1,
        r.view()[0].columns[0].name@ == "id"@,
        r.view()[0].columns[0].dtype == DataType::U32,
        r.view()[0].rows == Seq::<Seq<Seq<u8>>>::empty(),
{
    let mut db = Database::new();
    let columns = vec![Column::new("id", DataType::U32)];
    assert(columns@.drop_last() =~= Seq::<Column>::empty());
    assert(sum_max(columns@) == 4) by {
        reveal_with_fuel(sum_max, 2);
    }
    let schema = Table::new("EmptyTable", columns);
    let created = db.new_table(&schema, storage);
    assert(created.is_ok());
    db
}

} // verus!
