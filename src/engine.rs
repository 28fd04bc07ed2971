//! Schema and row model, and the query executor.
use vstd::prelude::*;
use vstd::string::StringSliceAdditionalSpecFns;
use vstd::utf8::encode_utf8_decode_utf8;
use crate::dtype::{bytes_equal, compare, decode, op_name, type_of, CmpOp, ColumnValue, DataType, TypeError, Val, canonical_column};
use crate::query::{collect_filter_columns, filter_columns, Bool, Value};
use crate::storage::{dense_ids, kept, kept_prefix, permuted, rows_storable, scan_matches, stored_rows, DiskStorage, InMemoryStorage, ScanItem, Storage, RowId};

verus! {

/// Errors reported by the database operations.
#[derive(Debug, PartialEq)]
pub enum DbError {
    TableNotFound(String),
    TableAlreadyExists(String),
    EmptyTableSchema,
    ColumnNotFound(String),
    InvalidColumnCount { expected: usize, got: usize },
    RowSizeExceeded { got: usize, max: usize },
    RowSizeTooSmall { got: usize, min: usize },
    ColumnSizeOutOfBounds { column: String, got: usize, min: usize, max: usize },
    InputError(String),
    QueryError(TypeError),
    UnsupportedOperation(String),
    /// A stored column does not decode as its declared type.
    DatabaseIntegrityError { table: String, row_id: usize, column: String, dtype: DataType },
}

/// What a `DbError` reports, with text as characters.
pub ghost enum Failure {
    TableNotFound(Seq<char>),
    TableAlreadyExists(Seq<char>),
    EmptyTableSchema,
    ColumnNotFound(Seq<char>),
    InvalidColumnCount { expected: usize, got: usize },
    RowSizeExceeded { got: usize, max: usize },
    RowSizeTooSmall { got: usize, min: usize },
    ColumnSizeOutOfBounds { column: Seq<char>, got: usize, min: usize, max: usize },
    InputError(Seq<char>),
    TypeMismatch { op: Seq<char>, lhs: DataType, rhs: DataType },
    Conversion,
    UnsupportedOperation(Seq<char>),
    Integrity { table: Seq<char>, row_id: usize, column: Seq<char>, dtype: DataType },
}

impl DbError {
    pub open spec fn view(self) -> Failure {
        match self {
            DbError::TableNotFound(s) => Failure::TableNotFound(s@),
            DbError::TableAlreadyExists(s) => Failure::TableAlreadyExists(s@),
            DbError::EmptyTableSchema => Failure::EmptyTableSchema,
            DbError::ColumnNotFound(s) => Failure::ColumnNotFound(s@),
            DbError::InvalidColumnCount { expected, got } => Failure::InvalidColumnCount { expected, got },
            DbError::RowSizeExceeded { got, max } => Failure::RowSizeExceeded { got, max },
            DbError::RowSizeTooSmall { got, min } => Failure::RowSizeTooSmall { got, min },
            DbError::ColumnSizeOutOfBounds { column, got, min, max } => Failure::ColumnSizeOutOfBounds {
                column: column@,
                got,
                min,
                max,
            },
            DbError::InputError(s) => Failure::InputError(s@),
            DbError::QueryError(TypeError::InvalidArgType(op, lhs, rhs)) => Failure::TypeMismatch {
                op: op@,
                lhs,
                rhs,
            },
            DbError::QueryError(TypeError::ConversionError) => Failure::Conversion,
            DbError::UnsupportedOperation(s) => Failure::UnsupportedOperation(s@),
            DbError::DatabaseIntegrityError { table, row_id, column, dtype } => Failure::Integrity {
                table: table@,
                row_id,
                column: column@,
                dtype,
            },
        }
    }
}

/// The view of a fallible result: `Ok` as is, `Err` as its `Failure`.
pub open spec fn outcome<T>(r: Result<T, DbError>) -> Result<T, Failure> {
    match r {
        Ok(v) => Ok(v),
        Err(e) => Err(e@),
    }
}

/// The view of a fallible list of indices.
pub open spec fn index_outcome(r: Result<Vec<usize>, DbError>) -> Result<Seq<usize>, Failure> {
    match r {
        Ok(v) => Ok(v@),
        Err(e) => Err(e@),
    }
}

/// Equality of two strings.
pub fn str_equal(a: &str, b: &str) -> (r: bool)
    ensures
        r == (a@ == b@),
{
    proof {
        encode_utf8_decode_utf8(a@);
        encode_utf8_decode_utf8(b@);
    }
    bytes_equal(a.as_bytes(), b.as_bytes())
}

/// A named, typed column of a table.
#[derive(Debug, Clone)]
pub struct Column {
    pub name: String,
    pub dtype: DataType,
}

impl Column {
    pub fn new(name: &str, dtype: DataType) -> (r: Column)
        ensures
            r.name@ == name@,
            r.dtype == dtype,
    {
        Column { name: name.to_owned(), dtype }
    }

    /// A copy of this column.
    pub fn duplicate(&self) -> (r: Column)
        ensures
            r == *self,
    {
        Column { name: self.name.clone(), dtype: self.dtype }
    }
}

/// Sum of the smallest sizes of the columns.
pub open spec fn sum_min(cols: Seq<Column>) -> nat
    decreases cols.len(),
{
    if cols.len() == 0 {
        0
    } else {
        sum_min(cols.drop_last()) + cols.last().dtype.min_len()
    }
}

/// Sum of the largest sizes of the columns.
pub open spec fn sum_max(cols: Seq<Column>) -> nat
    decreases cols.len(),
{
    if cols.len() == 0 {
        0
    } else {
        sum_max(cols.drop_last()) + cols.last().dtype.max_len()
    }
}

proof fn lemma_sums_prefix(cols: Seq<Column>, i: int)
    requires
        0 <= i <= cols.len(),
    ensures
        sum_min(cols.take(i)) <= sum_max(cols.take(i)),
        sum_max(cols.take(i)) <= sum_max(cols),
    decreases cols.len() - i,
{
    lemma_sum_min_le_max(cols.take(i));
    if i < cols.len() {
        lemma_sums_prefix(cols, i + 1);
        assert(cols.take(i + 1).drop_last() == cols.take(i));
    } else {
        assert(cols.take(i) == cols);
    }
}

proof fn lemma_sum_min_le_max(cols: Seq<Column>)
    ensures
        sum_min(cols) <= sum_max(cols),
    decreases cols.len(),
{
    if cols.len() > 0 {
        lemma_sum_min_le_max(cols.drop_last());
    }
}

/// Index of the first column called `name`.
pub open spec fn find_from(cols: Seq<Column>, name: Seq<char>, i: int) -> Option<int>
    decreases cols.len() - i,
{
    if i < 0 || i >= cols.len() {
        None
    } else if cols[i].name@ == name {
        Some(i)
    } else {
        find_from(cols, name, i + 1)
    }
}

pub open spec fn find_column(cols: Seq<Column>, name: Seq<char>) -> Option<int> {
    find_from(cols, name, 0)
}

pub proof fn lemma_find_from_bounds(cols: Seq<Column>, name: Seq<char>, i: int)
    ensures
        find_from(cols, name, i) matches Some(k) ==> i <= k < cols.len() && cols[k].name@ == name,
    decreases cols.len() - i,
{
    if 0 <= i < cols.len() && cols[i].name@ != name {
        lemma_find_from_bounds(cols, name, i + 1);
    }
}

/// Schema indices of `names`, or the first name that is not a column.
pub open spec fn optional_map(cols: Seq<Column>, names: Seq<Seq<char>>) -> Result<Seq<usize>, Failure>
    decreases names.len(),
{
    if names.len() == 0 {
        Ok(Seq::empty())
    } else {
        match optional_map(cols, names.drop_last()) {
            Err(e) => Err(e),
            Ok(v) => match find_column(cols, names.last()) {
                Some(i) => Ok(v.push(i as usize)),
                None => Err(Failure::ColumnNotFound(names.last())),
            },
        }
    }
}

proof fn lemma_optional_map_err(cols: Seq<Column>, names: Seq<Seq<char>>, k: int, e: Failure)
    requires
        0 <= k <= names.len(),
        optional_map(cols, names.take(k)) == Err::<Seq<usize>, Failure>(e),
    ensures
        optional_map(cols, names) == Err::<Seq<usize>, Failure>(e),
    decreases names.len() - k,
{
    if k == names.len() {
        assert(names.take(k) == names);
    } else {
        assert(names.take(k + 1).drop_last() == names.take(k));
        lemma_optional_map_err(cols, names, k + 1, e);
    }
}

/// Index of the first name equal to `name`.
pub open spec fn position_from(names: Seq<Seq<char>>, name: Seq<char>, i: int) -> Option<int>
    decreases names.len() - i,
{
    if i < 0 || i >= names.len() {
        None
    } else if names[i] == name {
        Some(i)
    } else {
        position_from(names, name, i + 1)
    }
}

proof fn lemma_position_from_bounds(names: Seq<Seq<char>>, name: Seq<char>, i: int)
    ensures
        position_from(names, name, i) matches Some(k) ==> i <= k < names.len() && names[k] == name,
    decreases names.len() - i,
{
    if 0 <= i < names.len() && names[i] != name {
        lemma_position_from_bounds(names, name, i + 1);
    }
}

/// For the first `n` schema columns, the input position that holds each.
pub open spec fn required_prefix(cols: Seq<Column>, names: Seq<Seq<char>>, n: int) -> Result<Seq<usize>, Failure>
    decreases n,
{
    if n <= 0 {
        Ok(Seq::empty())
    } else {
        match required_prefix(cols, names, n - 1) {
            Err(e) => Err(e),
            Ok(v) => match position_from(names, cols[n - 1].name@, 0) {
                Some(p) => Ok(v.push(p as usize)),
                None => Err(Failure::ColumnNotFound(cols[n - 1].name@)),
            },
        }
    }
}

/// For every schema column, the position of the input column that holds it.
pub open spec fn required_map(cols: Seq<Column>, names: Seq<Seq<char>>) -> Result<Seq<usize>, Failure> {
    if names.len() != cols.len() {
        Err(Failure::InvalidColumnCount { expected: cols.len() as usize, got: names.len() as usize })
    } else {
        required_prefix(cols, names, cols.len() as int)
    }
}

proof fn lemma_required_prefix_err(cols: Seq<Column>, names: Seq<Seq<char>>, k: int, n: int, e: Failure)
    requires
        0 <= k <= n,
        required_prefix(cols, names, k) == Err::<Seq<usize>, Failure>(e),
    ensures
        required_prefix(cols, names, n) == Err::<Seq<usize>, Failure>(e),
    decreases n - k,
{
    if k < n {
        lemma_required_prefix_err(cols, names, k + 1, n, e);
    }
}

proof fn lemma_required_prefix_ok(cols: Seq<Column>, names: Seq<Seq<char>>, n: int)
    requires
        0 <= n,
    ensures
        required_prefix(cols, names, n) matches Ok(v) ==> v.len() == n && forall|i: int|
            0 <= i < n ==> #[trigger] v[i] < names.len(),
    decreases n,
{
    if n > 0 {
        lemma_required_prefix_ok(cols, names, n - 1);
        lemma_position_from_bounds(names, cols[n - 1].name@, 0);
    }
}

/// Position of the first of `names` equal to `name`.
fn position_of(names: &[&str], name: &str) -> (r: Option<usize>)
    ensures
        match position_from(names_view(names@), name@, 0) {
            Some(k) => r == Some(k as usize),
            None => r.is_none(),
        },
{
    let mut p: usize = 0;
    while p < names.len()
        invariant
            p <= names@.len(),
            position_from(names_view(names@), name@, 0) == position_from(names_view(names@), name@, p as int),
        decreases names@.len() - p,
    {
        if str_equal(names[p], name) {
            return Some(p);
        }
        p = p + 1;
    }
    None
}

/// The view of a slice of strings.
pub open spec fn names_view(names: Seq<&str>) -> Seq<Seq<char>> {
    names.map_values(|s: &str| s@)
}

/// A table schema: its name, its ordered columns, and the bounds on the
/// size of a row that they imply.
#[derive(Debug, Clone)]
pub struct Table {
    pub name: String,
    pub columns: Vec<Column>,
    pub min_row_size: usize,
    pub max_row_size: usize,
}

impl Table {
    /// The size bounds are the sums of the columns' bounds.
    pub open spec fn wf(&self) -> bool {
        &&& self.min_row_size == sum_min(self.columns@)
        &&& self.max_row_size == sum_max(self.columns@)
    }

    pub fn new(name: &str, schema: Vec<Column>) -> (r: Table)
        requires
            sum_max(schema@) <= usize::MAX,
        ensures
            r.wf(),
            r.name@ == name@,
            r.columns@ == schema@,
    {
        let mut min_total: usize = 0;
        let mut max_total: usize = 0;
        let mut i: usize = 0;
        while i < schema.len()
            invariant
                i <= schema@.len(),
                sum_max(schema@) <= usize::MAX,
                min_total == sum_min(schema@.take(i as int)),
                max_total == sum_max(schema@.take(i as int)),
            decreases schema@.len() - i,
        {
            proof {
                lemma_sums_prefix(schema@, i + 1);
                assert(schema@.take(i + 1).drop_last() == schema@.take(i as int));
            }
            min_total = min_total + schema[i].dtype.min_size();
            max_total = max_total + schema[i].dtype.max_size();
            i = i + 1;
        }
        assert(schema@.take(i as int) == schema@);
        Table { name: name.to_owned(), columns: schema, min_row_size: min_total, max_row_size: max_total }
    }

    /// A copy of this schema.
    pub fn duplicate(&self) -> (r: Table)
        ensures
            r.name@ == self.name@,
            r.columns@ == self.columns@,
            r.min_row_size == self.min_row_size,
            r.max_row_size == self.max_row_size,
    {
        let mut columns: Vec<Column> = Vec::with_capacity(self.columns.len());
        let mut i: usize = 0;
        while i < self.columns.len()
            invariant
                i <= self.columns@.len(),
                columns@ == self.columns@.take(i as int),
            decreases self.columns@.len() - i,
        {
            columns.push(self.columns[i].duplicate());
            assert(columns@ == self.columns@.take(i + 1));
            i = i + 1;
        }
        assert(self.columns@.take(i as int) == self.columns@);
        Table {
            name: self.name.clone(),
            columns,
            min_row_size: self.min_row_size,
            max_row_size: self.max_row_size,
        }
    }

    /// Index and column of the first column called `name`.
    pub fn require_column(&self, name: &str) -> (r: Result<(usize, &Column), DbError>)
        ensures
            match find_column(self.columns@, name@) {
                Some(i) => r matches Ok(p) && p.0 == i && *p.1 == self.columns@[i],
                None => r matches Err(e) && e@ == Failure::ColumnNotFound(name@),
            },
    {
        let mut i: usize = 0;
        while i < self.columns.len()
            invariant
                i <= self.columns@.len(),
                find_column(self.columns@, name@) == find_from(self.columns@, name@, i as int),
            decreases self.columns@.len() - i,
        {
            if str_equal(self.columns[i].name.as_str(), name) {
                return Ok((i, &self.columns[i]));
            }
            i = i + 1;
        }
        Err(DbError::ColumnNotFound(name.to_owned()))
    }

    /// Schema indices of the named columns, in the order given; used for
    /// projections and to check the columns that a filter names.
    pub fn project_to_schema_optional(&self, columns: &[&str]) -> (r: Result<Vec<usize>, DbError>)
        ensures
            index_outcome(r) == optional_map(self.columns@, names_view(columns@)),
    {
        let ghost names = names_view(columns@);
        let mut indices: Vec<usize> = Vec::with_capacity(columns.len());
        let mut k: usize = 0;
        while k < columns.len()
            invariant
                k <= columns@.len(),
                names == names_view(columns@),
                optional_map(self.columns@, names.take(k as int)) == Ok::<Seq<usize>, Failure>(indices@),
            decreases columns@.len() - k,
        {
            assert(names.take(k + 1).drop_last() == names.take(k as int));
            assert(names.take(k + 1).last() == columns@[k as int]@);
            match self.require_column(columns[k]) {
                Ok(p) => {
                    indices.push(p.0);
                },
                Err(e) => {
                    proof {
                        lemma_optional_map_err(self.columns@, names, k + 1, e@);
                    }
                    return Err(e);
                },
            }
            k = k + 1;
        }
        assert(names.take(k as int) == names);
        Ok(indices)
    }

    /// For each schema column, the position in `columns` of the input column
    /// that holds it; inserts must name every column.
    pub fn project_from_schema_required(&self, columns: &[&str]) -> (r: Result<Vec<usize>, DbError>)
        ensures
            index_outcome(r) == required_map(self.columns@, names_view(columns@)),
    {
        let ghost names = names_view(columns@);
        if columns.len() != self.columns.len() {
            return Err(DbError::InvalidColumnCount { expected: self.columns.len(), got: columns.len() });
        }
        let mut indices: Vec<usize> = Vec::with_capacity(self.columns.len());
        assert(names.len() == columns@.len());
        let mut i: usize = 0;
        while i < self.columns.len()
            invariant
                i <= self.columns@.len(),
                names == names_view(columns@),
                names.len() == self.columns@.len(),
                required_prefix(self.columns@, names, i as int) == Ok::<Seq<usize>, Failure>(indices@),
            decreases self.columns@.len() - i,
        {
            let name = self.columns[i].name.as_str();
            let found = position_of(columns, name);
            let p = match found {
                Some(p) => p,
                None => {
                    let e = DbError::ColumnNotFound(self.columns[i].name.clone());
                    proof {
                        assert(required_prefix(self.columns@, names, i + 1) == Err::<Seq<usize>, Failure>(e@));
                        lemma_required_prefix_err(self.columns@, names, i + 1, self.columns@.len() as int, e@);
                        assert(names.len() == self.columns@.len());
                    }
                    return Err(e);
                },
            };
            indices.push(p);
            i = i + 1;
        }
        Ok(indices)
    }

    /// Checks a row against the schema before it is stored; `column_mapping`
    /// gives, for each schema column, the input column that holds it.
    pub fn validate_input(&self, row: &Row, column_mapping: &Vec<usize>) -> (r: Result<(), DbError>)
        requires
            row.wf(),
            map_wf(self.columns@.len(), column_mapping@),
        ensures
            outcome(r) == row_check(self.columns@, self.min_row_size, self.max_row_size, *row, column_mapping@),
            r.is_ok() ==> row.offsets@.len() == column_mapping@.len() + 1,
    {
        let input_columns = row.offsets.len() - 1;
        if input_columns != column_mapping.len() {
            return Err(DbError::InvalidColumnCount { expected: self.columns.len(), got: input_columns });
        }
        let input_size = row.data.len();
        if input_size > self.max_row_size {
            return Err(DbError::RowSizeExceeded { got: input_size, max: self.max_row_size });
        }
        if input_size < self.min_row_size {
            return Err(DbError::RowSizeTooSmall { got: input_size, min: self.min_row_size });
        }
        let mut idx: usize = 0;
        while idx < self.columns.len()
            invariant
                idx <= self.columns@.len(),
                row.wf(),
                row.offsets@.len() - 1 == column_mapping@.len(),
                row.data@.len() <= self.max_row_size,
                row.data@.len() >= self.min_row_size,
                map_wf(self.columns@.len(), column_mapping@),
                column_sizes_check(self.columns@, row.columns(), column_mapping@, idx as int) == Ok::<(), Failure>(()),
            decreases self.columns@.len() - idx,
        {
            assert(column_sizes_check(self.columns@, row.columns(), column_mapping@, idx + 1) == match column_sizes_check(
                self.columns@,
                row.columns(),
                column_mapping@,
                idx as int,
            ) {
                Err(e) => Err(e),
                Ok(()) => {
                    let size = row.columns()[column_mapping@[idx as int] as int].len();
                    let d = self.columns@[idx as int].dtype;
                    if size < d.min_len() || size > d.max_len() {
                        Err(Failure::ColumnSizeOutOfBounds {
                            column: self.columns@[idx as int].name@,
                            got: size as usize,
                            min: d.min_len() as usize,
                            max: d.max_len() as usize,
                        })
                    } else {
                        Ok(())
                    }
                },
            });
            let input_col = row.get_column(column_mapping[idx]);
            let input_col_size = input_col.len();
            let col_min = self.columns[idx].dtype.min_size();
            let col_max = self.columns[idx].dtype.max_size();
            if input_col_size < col_min || input_col_size > col_max {
                let e = DbError::ColumnSizeOutOfBounds {
                    column: self.columns[idx].name.clone(),
                    got: input_col_size,
                    min: col_min,
                    max: col_max,
                };
                proof {
                    assert(input_col@.len() == row.columns()[column_mapping@[idx as int] as int].len());
                    assert(column_sizes_check(self.columns@, row.columns(), column_mapping@, idx + 1) == Err::<
                        (),
                        Failure,
                    >(e@));
                    lemma_column_sizes_err(self.columns@, row.columns(), column_mapping@, idx + 1,
                        self.columns@.len() as int, e@);
                }
                return Err(e);
            }
            idx = idx + 1;
        }
        Ok(())
    }
}

/// The first `n` schema columns each have a size within their type's bounds
/// in the input row, or the first that does not is reported.
pub open spec fn column_sizes_check(cols: Seq<Column>, row_cols: Seq<Seq<u8>>, map: Seq<usize>, n: int) -> Result<(), Failure>
    decreases n,
{
    if n <= 0 {
        Ok(())
    } else {
        match column_sizes_check(cols, row_cols, map, n - 1) {
            Err(e) => Err(e),
            Ok(()) => {
                let size = row_cols[map[n - 1] as int].len();
                let d = cols[n - 1].dtype;
                if size < d.min_len() || size > d.max_len() {
                    Err(Failure::ColumnSizeOutOfBounds {
                        column: cols[n - 1].name@,
                        got: size as usize,
                        min: d.min_len() as usize,
                        max: d.max_len() as usize,
                    })
                } else {
                    Ok(())
                }
            },
        }
    }
}

proof fn lemma_column_sizes_err(cols: Seq<Column>, row_cols: Seq<Seq<u8>>, map: Seq<usize>, k: int, n: int, e: Failure)
    requires
        0 <= k <= n,
        column_sizes_check(cols, row_cols, map, k) == Err::<(), Failure>(e),
    ensures
        column_sizes_check(cols, row_cols, map, n) == Err::<(), Failure>(e),
    decreases n - k,
{
    if k < n {
        lemma_column_sizes_err(cols, row_cols, map, k + 1, n, e);
    }
}

/// Whether a row given with the input-to-schema map `map` fits schema `t`:
/// its column count, then its total size, then each column's size.
pub open spec fn row_check(cols: Seq<Column>, min: usize, max: usize, row: Row, map: Seq<usize>) -> Result<(), Failure> {
    let n_in = (row.offsets@.len() - 1) as usize;
    let size = row.data@.len() as usize;
    if n_in != map.len() {
        Err(Failure::InvalidColumnCount { expected: cols.len() as usize, got: n_in })
    } else if size > max {
        Err(Failure::RowSizeExceeded { got: size, max })
    } else if size < min {
        Err(Failure::RowSizeTooSmall { got: size, min })
    } else {
        column_sizes_check(cols, row.columns(), map, cols.len() as int)
    }
}

/// `map` sends each schema column to one of the schema's positions.
pub open spec fn map_wf(ncols: nat, map: Seq<usize>) -> bool {
    &&& map.len() == ncols
    &&& forall|i: int| 0 <= i < map.len() ==> #[trigger] map[i] < ncols
}

proof fn lemma_optional_map_ok(cols: Seq<Column>, names: Seq<Seq<char>>)
    requires
        cols.len() <= usize::MAX,
    ensures
        optional_map(cols, names) matches Ok(v) ==> v.len() == names.len() && forall|j: int|
            0 <= j < v.len() ==> #[trigger] v[j] < cols.len() && find_column(cols, names[j]) == Some(
                v[j] as int,
            ),
    decreases names.len(),
{
    if names.len() > 0 {
        let p = names.drop_last();
        lemma_optional_map_ok(cols, p);
        lemma_find_from_bounds(cols, names.last(), 0);
        if let Ok(v) = optional_map(cols, names) {
            let pv = optional_map(cols, p)->Ok_0;
            assert(v == pv.push(v.last()));
            assert forall|j: int| 0 <= j < v.len() implies #[trigger] v[j] < cols.len() && find_column(cols, names[j])
                == Some(v[j] as int) by {
                if j < pv.len() {
                    assert(v[j] == pv[j]);
                    assert(names[j] == p[j]);
                }
            }
        }
    }
}

/// How the storage of a new table is kept.
#[derive(Clone, Debug)]
pub enum StorageCfg {
    InMemory,
    Disk { path: String },
}

/// The state of one table: its schema and its rows, each row with its
/// columns in schema order.
pub ghost struct TableState {
    pub name: Seq<char>,
    pub columns: Seq<Column>,
    pub min_row_size: usize,
    pub max_row_size: usize,
    pub rows: Seq<Seq<Seq<u8>>>,
}

/// Index of the table called `name`, searching from `i`.
pub open spec fn find_table_from(tables: Seq<TableState>, name: Seq<char>, i: int) -> Option<int>
    decreases tables.len() - i,
{
    if i < 0 || i >= tables.len() {
        None
    } else if tables[i].name == name {
        Some(i)
    } else {
        find_table_from(tables, name, i + 1)
    }
}

pub open spec fn find_table(tables: Seq<TableState>, name: Seq<char>) -> Option<int> {
    find_table_from(tables, name, 0)
}

proof fn lemma_find_table_bounds(tables: Seq<TableState>, name: Seq<char>, i: int)
    ensures
        find_table_from(tables, name, i) matches Some(k) ==> i <= k < tables.len() && tables[k].name == name,
    decreases tables.len() - i,
{
    if 0 <= i < tables.len() && tables[i].name != name {
        lemma_find_table_bounds(tables, name, i + 1);
    }
}

/// Each table's size bounds are the sums of its columns', it has a column,
/// each of its rows has one entry per column, and no two tables share a name.
pub open spec fn tables_wf(tables: Seq<TableState>) -> bool {
    &&& forall|i: int|
        0 <= i < tables.len() ==> {
            &&& (#[trigger] tables[i]).min_row_size == sum_min(tables[i].columns)
            &&& tables[i].max_row_size == sum_max(tables[i].columns)
            &&& tables[i].columns.len() >= 1
            &&& forall|k: int| 0 <= k < tables[i].rows.len() ==> (#[trigger] tables[i].rows[k]).len() == tables[i].columns.len()
        }
    &&& forall|i: int, j: int| 0 <= i < j < tables.len() ==> tables[i].name != tables[j].name
}

/// What a value denotes on a row: a column decoded as its declared type, or
/// the constant itself.
pub open spec fn resolve_spec(table: Seq<char>, cols: Seq<Column>, row: Seq<Seq<u8>>, row_id: usize, v: Value) -> Result<Val, Failure> {
    match v {
        Value::ColumnRef(name) => match find_column(cols, name@) {
            None => Err(Failure::ColumnNotFound(name@)),
            Some(i) => match decode(cols[i].dtype, row[i]) {
                Some(x) => Ok(x),
                None => Err(Failure::Integrity { table, row_id, column: cols[i].name@, dtype: cols[i].dtype }),
            },
        },
        Value::Const(c) => Ok(c@),
    }
}

/// A comparison on a row: the left side, then the right, then the operator.
pub open spec fn compare_spec(
    table: Seq<char>,
    cols: Seq<Column>,
    row: Seq<Seq<u8>>,
    row_id: usize,
    op: CmpOp,
    l: Value,
    r: Value,
) -> Result<bool, Failure> {
    match resolve_spec(table, cols, row, row_id, l) {
        Err(e) => Err(e),
        Ok(x) => match resolve_spec(table, cols, row, row_id, r) {
            Err(e) => Err(e),
            Ok(y) => match compare(op, x, y) {
                Some(b) => Ok(b),
                None => Err(Failure::TypeMismatch { op: op_name(op), lhs: type_of(x), rhs: type_of(y) }),
            },
        },
    }
}

/// Both sides evaluated, left first; the first error wins.
pub open spec fn both(a: Result<bool, Failure>, b: Result<bool, Failure>) -> Result<(bool, bool), Failure> {
    match a {
        Err(e) => Err(e),
        Ok(x) => match b {
            Err(e) => Err(e),
            Ok(y) => Ok((x, y)),
        },
    }
}

/// The value of predicate `b` on a row of table `table` with columns `cols`.
pub open spec fn eval_spec(table: Seq<char>, cols: Seq<Column>, row: Seq<Seq<u8>>, row_id: usize, b: Bool) -> Result<bool, Failure>
    decreases b,
{
    match b {
        Bool::True => Ok(true),
        Bool::False => Ok(false),
        Bool::Eq(l, r) => compare_spec(table, cols, row, row_id, CmpOp::Eq, l, r),
        Bool::Neq(l, r) => compare_spec(table, cols, row, row_id, CmpOp::Neq, l, r),
        Bool::Gt(l, r) => compare_spec(table, cols, row, row_id, CmpOp::Gt, l, r),
        Bool::Gte(l, r) => compare_spec(table, cols, row, row_id, CmpOp::Gte, l, r),
        Bool::Lt(l, r) => compare_spec(table, cols, row, row_id, CmpOp::Lt, l, r),
        Bool::Lte(l, r) => compare_spec(table, cols, row, row_id, CmpOp::Lte, l, r),
        Bool::And(l, r) => match both(eval_spec(table, cols, row, row_id, *l), eval_spec(table, cols, row, row_id, *r)) {
            Err(e) => Err(e),
            Ok((x, y)) => Ok(x && y),
        },
        Bool::Or(l, r) => match both(eval_spec(table, cols, row, row_id, *l), eval_spec(table, cols, row, row_id, *r)) {
            Err(e) => Err(e),
            Ok((x, y)) => Ok(x || y),
        },
        Bool::Xor(l, r) => match both(eval_spec(table, cols, row, row_id, *l), eval_spec(table, cols, row, row_id, *r)) {
            Err(e) => Err(e),
            Ok((x, y)) => Ok(x != y),
        },
        Bool::Not(x) => match eval_spec(table, cols, row, row_id, *x) {
            Err(e) => Err(e),
            Ok(v) => Ok(!v),
        },
    }
}

/// The column names of a projection, or `None` if it holds a constant.
pub open spec fn projection_names(values: Seq<Value>) -> Option<Seq<Seq<char>>>
    decreases values.len(),
{
    if values.len() == 0 {
        Some(Seq::empty())
    } else {
        match projection_names(values.drop_last()) {
            None => None,
            Some(names) => match values.last() {
                Value::ColumnRef(c) => Some(names.push(c@)),
                Value::Const(_) => None,
            },
        }
    }
}

proof fn lemma_projection_none(values: Seq<Value>, k: int)
    requires
        0 <= k <= values.len(),
        projection_names(values.take(k)).is_none(),
    ensures
        projection_names(values).is_none(),
    decreases values.len() - k,
{
    if k == values.len() {
        assert(values.take(k) == values);
    } else {
        assert(values.take(k + 1).drop_last() == values.take(k));
        lemma_projection_none(values, k + 1);
    }
}

/// Message of the error for a projection that holds a constant.
pub open spec fn projection_error() -> Seq<char> {
    "projection must reference columns"@
}

/// The projections of the first `n` rows on which `filter` holds, or the
/// first error.
pub open spec fn select_rows(
    table: Seq<char>,
    cols: Seq<Column>,
    rows: Seq<Seq<Seq<u8>>>,
    filter: Bool,
    proj: Seq<usize>,
    n: int,
) -> Result<Seq<Seq<Seq<u8>>>, Failure>
    decreases n,
{
    if n <= 0 {
        Ok(Seq::empty())
    } else {
        match select_rows(table, cols, rows, filter, proj, n - 1) {
            Err(e) => Err(e),
            Ok(acc) => match eval_spec(table, cols, rows[n - 1], (n - 1) as usize, filter) {
                Err(e) => Err(e),
                Ok(true) => Ok(acc.push(permuted(rows[n - 1], proj))),
                Ok(false) => Ok(acc),
            },
        }
    }
}

proof fn lemma_select_rows_err(table: Seq<char>, cols: Seq<Column>, rows: Seq<Seq<Seq<u8>>>, filter: Bool, proj: Seq<usize>, k: int, n: int, e: Failure)
    requires
        0 <= k <= n,
        select_rows(table, cols, rows, filter, proj, k) == Err::<Seq<Seq<Seq<u8>>>, Failure>(e),
    ensures
        select_rows(table, cols, rows, filter, proj, n) == Err::<Seq<Seq<Seq<u8>>>, Failure>(e),
    decreases n - k,
{
    if k < n {
        lemma_select_rows_err(table, cols, rows, filter, proj, k + 1, n, e);
    }
}

/// What `select` returns on tables `tables`.
pub open spec fn select_spec(tables: Seq<TableState>, values: Seq<Value>, name: Seq<char>, filter: Bool) -> Result<Seq<Seq<Seq<u8>>>, Failure> {
    match find_table(tables, name) {
        None => Err(Failure::TableNotFound(name)),
        Some(i) => {
            let t = tables[i];
            match projection_names(values) {
                None => Err(Failure::UnsupportedOperation(projection_error())),
                Some(names) => match optional_map(t.columns, names) {
                    Err(e) => Err(e),
                    Ok(proj) => match optional_map(t.columns, filter_columns(filter)) {
                        Err(e) => Err(e),
                        Ok(_) => select_rows(t.name, t.columns, t.rows, filter, proj, t.rows.len() as int),
                    },
                },
            }
        },
    }
}

/// Scan indices of the first `n` rows on which `filter` holds, or the first error.
pub open spec fn matching_ids(table: Seq<char>, cols: Seq<Column>, rows: Seq<Seq<Seq<u8>>>, filter: Bool, n: int) -> Result<Seq<usize>, Failure>
    decreases n,
{
    if n <= 0 {
        Ok(Seq::empty())
    } else {
        match matching_ids(table, cols, rows, filter, n - 1) {
            Err(e) => Err(e),
            Ok(acc) => match eval_spec(table, cols, rows[n - 1], (n - 1) as usize, filter) {
                Err(e) => Err(e),
                Ok(true) => Ok(acc.push((n - 1) as usize)),
                Ok(false) => Ok(acc),
            },
        }
    }
}

proof fn lemma_matching_ids_err(table: Seq<char>, cols: Seq<Column>, rows: Seq<Seq<Seq<u8>>>, filter: Bool, k: int, n: int, e: Failure)
    requires
        0 <= k <= n,
        matching_ids(table, cols, rows, filter, k) == Err::<Seq<usize>, Failure>(e),
    ensures
        matching_ids(table, cols, rows, filter, n) == Err::<Seq<usize>, Failure>(e),
    decreases n - k,
{
    if k < n {
        lemma_matching_ids_err(table, cols, rows, filter, k + 1, n, e);
    }
}

/// Scan indices of the rows of a table that `delete` removes, or its error.
pub open spec fn delete_ids(tables: Seq<TableState>, name: Seq<char>, filter: Bool) -> Result<Seq<usize>, Failure> {
    match find_table(tables, name) {
        None => Err(Failure::TableNotFound(name)),
        Some(i) => {
            let t = tables[i];
            match optional_map(t.columns, filter_columns(filter)) {
                Err(e) => Err(e),
                Ok(_) => matching_ids(t.name, t.columns, t.rows, filter, t.rows.len() as int),
            }
        },
    }
}

/// The tables after `delete`: the matching rows are gone; nothing changes on error.
pub open spec fn delete_state(tables: Seq<TableState>, name: Seq<char>, filter: Bool) -> Seq<TableState> {
    match delete_ids(tables, name, filter) {
        Err(_) => tables,
        Ok(ids) => {
            let i = find_table(tables, name)->Some_0;
            let t = tables[i];
            tables.update(i, TableState { rows: kept(t.rows, dense_ids(t.rows.len()), ids), ..t })
        },
    }
}

/// The first `n` rows fit the schema, or the first failure.
pub open spec fn rows_check(cols: Seq<Column>, min: usize, max: usize, rows: Seq<Row>, map: Seq<usize>, n: int) -> Result<(), Failure>
    decreases n,
{
    if n <= 0 {
        Ok(())
    } else {
        match rows_check(cols, min, max, rows, map, n - 1) {
            Err(e) => Err(e),
            Ok(()) => row_check(cols, min, max, rows[n - 1], map),
        }
    }
}

proof fn lemma_rows_check_err(cols: Seq<Column>, min: usize, max: usize, rows: Seq<Row>, map: Seq<usize>, k: int, n: int, e: Failure)
    requires
        0 <= k <= n,
        rows_check(cols, min, max, rows, map, k) == Err::<(), Failure>(e),
    ensures
        rows_check(cols, min, max, rows, map, n) == Err::<(), Failure>(e),
    decreases n - k,
{
    if k < n {
        lemma_rows_check_err(cols, min, max, rows, map, k + 1, n, e);
    }
}

/// The input-to-schema map of an insert, after every row passed validation.
pub open spec fn insert_map(tables: Seq<TableState>, name: Seq<char>, columns: Seq<Seq<char>>, rows: Seq<Row>) -> Result<Seq<usize>, Failure> {
    match find_table(tables, name) {
        None => Err(Failure::TableNotFound(name)),
        Some(i) => {
            let t = tables[i];
            match required_map(t.columns, columns) {
                Err(e) => Err(e),
                Ok(map) => match rows_check(t.columns, t.min_row_size, t.max_row_size, rows, map, rows.len() as int) {
                    Err(e) => Err(e),
                    Ok(()) => Ok(map),
                },
            }
        },
    }
}

/// The tables after `insert`: the rows are appended in schema order; nothing
/// changes on error.
pub open spec fn insert_state(tables: Seq<TableState>, name: Seq<char>, columns: Seq<Seq<char>>, rows: Seq<Row>) -> Seq<TableState> {
    match insert_map(tables, name, columns, rows) {
        Err(_) => tables,
        Ok(map) => {
            let i = find_table(tables, name)->Some_0;
            let t = tables[i];
            tables.update(i, TableState { rows: t.rows + stored_rows(rows, map), ..t })
        },
    }
}

/// What `new_table` reports.
pub open spec fn new_table_outcome(tables: Seq<TableState>, name: Seq<char>, columns: Seq<Column>) -> Result<(), Failure> {
    if find_table(tables, name).is_some() {
        Err(Failure::TableAlreadyExists(name))
    } else if columns.len() == 0 {
        Err(Failure::EmptyTableSchema)
    } else {
        Ok(())
    }
}

/// A view of a list of rows: each row's columns.
pub open spec fn rows_view(rows: Seq<Row>) -> Seq<Seq<Seq<u8>>> {
    Seq::new(rows.len(), |i: int| rows[i].columns())
}

/// The view of the rows a query returns.
pub open spec fn rows_outcome(r: Result<Vec<Row>, DbError>) -> Result<Seq<Seq<Seq<u8>>>, Failure> {
    match r {
        Ok(v) => Ok(rows_view(v@)),
        Err(e) => Err(e@),
    }
}

/// What a value denotes: a typed value, or an error.
pub open spec fn value_outcome(r: Result<ColumnValue, DbError>) -> Result<Val, Failure> {
    match r {
        Ok(v) => Ok(v@),
        Err(e) => Err(e@),
    }
}

/// Evaluates predicates against one scanned row of a table.
pub struct FilterContext<'r> {
    schema: &'r Table,
    item: &'r ScanItem<'r>,
}

impl<'r> FilterContext<'r> {
    pub closed spec fn wf(&self) -> bool {
        &&& self.item.row_content.wf()
        &&& self.item.row_content.offsets@.len() == self.schema.columns@.len() + 1
    }

    /// The typed value that `val` denotes on the row.
    fn resolve_value(&self, val: &'r Value<'r>) -> (r: Result<ColumnValue<'r>, DbError>)
        requires
            self.wf(),
        ensures
            value_outcome(r) == resolve_spec(
                self.schema.name@,
                self.schema.columns@,
                self.item.row_content.columns(),
                self.item.row_id,
                *val,
            ),
    {
        match val {
            Value::ColumnRef(column_name) => {
                let (col_idx, col) = match self.schema.require_column(column_name) {
                    Ok(p) => p,
                    Err(e) => {
                        return Err(e);
                    },
                };
                proof {
                    lemma_find_from_bounds(self.schema.columns@, column_name@, 0);
                }
                let col_value = self.item.row_content.get_column(col_idx);
                match canonical_column(&col.dtype, col_value) {
                    Ok(v) => Ok(v),
                    Err(_) => Err(
                        DbError::DatabaseIntegrityError {
                            table: self.schema.name.clone(),
                            row_id: self.item.row_id,
                            column: col.name.clone(),
                            dtype: col.dtype,
                        },
                    ),
                }
            },
            Value::Const(column_value) => Ok(*column_value),
        }
    }

    /// Applies `op` to the values of `left` and `right` on the row.
    fn execute_binop(&self, left: &'r Value<'r>, right: &'r Value<'r>, op: CmpOp) -> (r: Result<bool, DbError>)
        requires
            self.wf(),
        ensures
            outcome(r) == compare_spec(
                self.schema.name@,
                self.schema.columns@,
                self.item.row_content.columns(),
                self.item.row_id,
                op,
                *left,
                *right,
            ),
    {
        let l = match self.resolve_value(left) {
            Ok(v) => v,
            Err(e) => {
                return Err(e);
            },
        };
        let r = match self.resolve_value(right) {
            Ok(v) => v,
            Err(e) => {
                return Err(e);
            },
        };
        match l.compare(&r, op) {
            Ok(b) => Ok(b),
            Err(e) => Err(DbError::QueryError(e)),
        }
    }
}

/// The tables of a database and the storage of each.
pub struct Database {
    schemas: Vec<Table>,
    storage: Vec<Storage>,
}

impl Database {
    /// Every table with its schema and rows, in the order of creation.
    pub closed spec fn view(&self) -> Seq<TableState> {
        Seq::new(
            self.schemas@.len(),
            |i: int|
                TableState {
                    name: self.schemas@[i].name@,
                    columns: self.schemas@[i].columns@,
                    min_row_size: self.schemas@[i].min_row_size,
                    max_row_size: self.schemas@[i].max_row_size,
                    rows: self.storage@[i].rows(),
                },
        )
    }

    pub closed spec fn wf(&self) -> bool {
        &&& self.schemas@.len() == self.storage@.len()
        &&& forall|i: int|
            0 <= i < self.schemas@.len() ==> {
                &&& (#[trigger] self.schemas@[i]).wf()
                &&& self.schemas@[i].columns@.len() >= 1
                &&& self.storage@[i].wf()
                &&& self.storage@[i].column_count() == self.schemas@[i].columns@.len()
            }
        &&& forall|i: int, j: int| 0 <= i < j < self.schemas@.len() ==> self.schemas@[i].name@ != self.schemas@[j].name@
    }

    /// A well-formed database's tables are well formed.
    pub proof fn lemma_tables_wf(&self)
        requires
            self.wf(),
        ensures
            tables_wf(self.view()),
    {
        assert forall|i: int| 0 <= i < self.view().len() implies {
            &&& (#[trigger] self.view()[i]).min_row_size == sum_min(self.view()[i].columns)
            &&& self.view()[i].max_row_size == sum_max(self.view()[i].columns)
            &&& self.view()[i].columns.len() >= 1
            &&& forall|k: int| 0 <= k < self.view()[i].rows.len() ==> (#[trigger] self.view()[i].rows[k]).len() == self.view()[i].columns.len()
        } by {
            assert(self.schemas@[i].wf());
            self.storage@[i].lemma_row_widths();
        }
    }

    /// A database with no table.
    pub fn new() -> (r: Database)
        ensures
            r.wf(),
            r.view() == Seq::<TableState>::empty(),
    {
        let r = Database { schemas: Vec::new(), storage: Vec::new() };
        assert(r.view() =~= Seq::<TableState>::empty());
        r
    }

    /// Index of the table called `name`.
    fn table_index(&self, name: &str) -> (r: Option<usize>)
        requires
            self.wf(),
        ensures
            r.is_some() == find_table(self.view(), name@).is_some(),
            r matches Some(k) ==> find_table(self.view(), name@) == Some(k as int) && k < self.view().len(),
    {
        proof {
            lemma_find_table_bounds(self.view(), name@, 0);
        }
        let mut i: usize = 0;
        while i < self.schemas.len()
            invariant
                i <= self.schemas@.len(),
                self.wf(),
                find_table(self.view(), name@) == find_table_from(self.view(), name@, i as int),
            decreases self.schemas@.len() - i,
        {
            if str_equal(self.schemas[i].name.as_str(), name) {
                return Some(i);
            }
            i = i + 1;
        }
        None
    }

    /// Creates a table with the schema `new_table`, stored as `storage_cfg` says.
    pub fn new_table(&mut self, new_table: &Table, storage_cfg: StorageCfg) -> (r: Result<(), DbError>)
        requires
            old(self).wf(),
            new_table.wf(),
            new_table.columns@.len() < usize::MAX,
        ensures
            final(self).wf(),
            outcome(r) == new_table_outcome(old(self).view(), new_table.name@, new_table.columns@),
            r.is_err() ==> final(self).view() == old(self).view(),
            r.is_ok() ==> final(self).view() == old(self).view().push(
                TableState {
                    name: new_table.name@,
                    columns: new_table.columns@,
                    min_row_size: new_table.min_row_size,
                    max_row_size: new_table.max_row_size,
                    rows: Seq::empty(),
                },
            ),
    {
        if self.table_index(new_table.name.as_str()).is_some() {
            return Err(DbError::TableAlreadyExists(new_table.name.clone()));
        }
        if new_table.columns.len() == 0 {
            return Err(DbError::EmptyTableSchema);
        }
        let storage = match storage_cfg {
            StorageCfg::InMemory => Storage::InMemory(InMemoryStorage::new(new_table.duplicate())),
            StorageCfg::Disk { path } => Storage::Disk(DiskStorage::new(new_table.duplicate(), path.as_str())),
        };
        let ghost before = self.view();
        proof {
            assert forall|i: int| 0 <= i < before.len() implies before[i].name != new_table.name@ by {
                lemma_find_table_none(before, new_table.name@, 0, i);
            }
        }
        self.schemas.push(new_table.duplicate());
        self.storage.push(storage);
        proof {
            assert(self.view() =~= before.push(
                TableState {
                    name: new_table.name@,
                    columns: new_table.columns@,
                    min_row_size: new_table.min_row_size,
                    max_row_size: new_table.max_row_size,
                    rows: Seq::empty(),
                },
            )) by {
                assert forall|i: int| 0 <= i < before.len() implies self.view()[i] == before[i] by {
                    assert(self.schemas@[i] == old(self).schemas@[i]);
                    assert(self.storage@[i] == old(self).storage@[i]);
                }
            }
            assert forall|i: int, j: int| 0 <= i < j < self.schemas@.len() implies self.schemas@[i].name@
                != self.schemas@[j].name@ by {
                if j == before.len() {
                    assert(self.view()[i].name == before[i].name);
                } else {
                    assert(self.schemas@[i] == old(self).schemas@[i]);
                    assert(self.schemas@[j] == old(self).schemas@[j]);
                }
            }
            assert forall|i: int| 0 <= i < self.schemas@.len() implies {
                &&& (#[trigger] self.schemas@[i]).wf()
                &&& self.schemas@[i].columns@.len() >= 1
                &&& self.storage@[i].wf()
                &&& self.storage@[i].column_count() == self.schemas@[i].columns@.len()
            } by {
                if i < before.len() {
                    assert(self.schemas@[i] == old(self).schemas@[i]);
                    assert(self.storage@[i] == old(self).storage@[i]);
                }
            }
        }
        Ok(())
    }

    /// The schema of the table called `table_name`.
    pub fn schema_for(&self, table_name: &str) -> (r: Result<&Table, DbError>)
        requires
            self.wf(),
        ensures
            match find_table(self.view(), table_name@) {
                Some(i) => r matches Ok(t) && t.wf() && t.name@ == self.view()[i].name && t.columns@
                    == self.view()[i].columns && t.min_row_size == self.view()[i].min_row_size
                    && t.max_row_size == self.view()[i].max_row_size,
                None => r matches Err(e) && e@ == Failure::TableNotFound(table_name@),
            },
    {
        match self.table_index(table_name) {
            Some(i) => {
                proof {
                    lemma_find_table_bounds(self.view(), table_name@, 0);
                    assert(self.schemas@[i as int].wf());
                    assert(self.view()[i as int].name == self.schemas@[i as int].name@);
                    assert(self.view()[i as int].columns == self.schemas@[i as int].columns@);
                }
                let t = &self.schemas[i];
                assert(*t == self.schemas@[i as int]);
                Ok(t)
            },
            None => Err(DbError::TableNotFound(table_name.to_owned())),
        }
    }

    /// The storage of the table called `table_name`.
    pub fn storage_for(&self, table_name: &str) -> (r: Result<&Storage, DbError>)
        requires
            self.wf(),
        ensures
            match find_table(self.view(), table_name@) {
                Some(i) => r matches Ok(s) && s.wf() && s.rows() == self.view()[i].rows && s.column_count()
                    == self.view()[i].columns.len(),
                None => r matches Err(e) && e@ == Failure::TableNotFound(table_name@),
            },
    {
        match self.table_index(table_name) {
            Some(i) => {
                proof {
                    lemma_find_table_bounds(self.view(), table_name@, 0);
                    assert(self.schemas@[i as int].wf());
                }
                Ok(&self.storage[i])
            },
            None => Err(DbError::TableNotFound(table_name.to_owned())),
        }
    }

    /// Appends `what` to the table `table_name`. `columns` names the input
    /// columns in the order the rows hold them and must name every column of
    /// the table; every row is checked before any is stored.
    pub fn insert(&mut self, table_name: &str, columns: &[&str], what: &[Row]) -> (r: Result<usize, DbError>)
        requires
            old(self).wf(),
            forall|k: int| 0 <= k < what@.len() ==> (#[trigger] what@[k]).wf(),
        ensures
            final(self).wf(),
            match insert_map(old(self).view(), table_name@, names_view(columns@), what@) {
                Ok(_) => r == Ok::<usize, DbError>(what@.len() as usize),
                Err(e) => r matches Err(x) && x@ == e,
            },
            final(self).view() == insert_state(old(self).view(), table_name@, names_view(columns@), what@),
    {
        let i = match self.table_index(table_name) {
            Some(i) => i,
            None => {
                return Err(DbError::TableNotFound(table_name.to_owned()));
            },
        };
        let ghost t = self.view()[i as int];
        proof {
            assert(self.schemas@[i as int].wf());
        }
        let column_mapping = match self.schemas[i].project_from_schema_required(columns) {
            Ok(m) => m,
            Err(e) => {
                return Err(e);
            },
        };
        proof {
            lemma_required_prefix_ok(t.columns, names_view(columns@), t.columns.len() as int);
        }
        let mut k: usize = 0;
        while k < what.len()
            invariant
                k <= what@.len(),
                self.wf(),
                self.view() == old(self).view(),
                (i as int) < self.view().len(),
                t == self.view()[i as int],
                find_table(old(self).view(), table_name@) == Some(i as int),
                required_map(t.columns, names_view(columns@)) == Ok::<Seq<usize>, Failure>(column_mapping@),
                forall|q: int| 0 <= q < what@.len() ==> (#[trigger] what@[q]).wf(),
                map_wf(t.columns.len(), column_mapping@),
                self.schemas@[i as int].columns@ == t.columns,
                self.schemas@[i as int].min_row_size == t.min_row_size,
                self.schemas@[i as int].max_row_size == t.max_row_size,
                rows_check(t.columns, t.min_row_size, t.max_row_size, what@, column_mapping@, k as int) == Ok::<
                    (),
                    Failure,
                >(()),
                forall|q: int| 0 <= q < k ==> (#[trigger] what@[q]).offsets@.len() == column_mapping@.len() + 1,
            decreases what@.len() - k,
        {
            match self.schemas[i].validate_input(&what[k], &column_mapping) {
                Ok(()) => {
                    assert(what@.take(k + 1).len() == k + 1);
                },
                Err(e) => {
                    proof {
                        assert(rows_check(t.columns, t.min_row_size, t.max_row_size, what@, column_mapping@, k + 1)
                            == Err::<(), Failure>(e@));
                        lemma_rows_check_err(t.columns, t.min_row_size, t.max_row_size, what@, column_mapping@,
                            k + 1, what@.len() as int, e@);
                    }
                    return Err(e);
                },
            }
            k = k + 1;
        }
        proof {
            assert(rows_storable(what@, column_mapping@)) by {
                assert forall|q: int| 0 <= q < what@.len() implies {
                    &&& (#[trigger] what@[q]).wf()
                    &&& what@[q].offsets@.len() == column_mapping@.len() + 1
                } by {
                }
            }
            assert(self.storage@[i as int].wf());
        }
        let ghost before = self.view();
        self.storage[i].store(what, &column_mapping);
        proof {
            assert(self.view() =~= insert_state(before, table_name@, names_view(columns@), what@)) by {
                assert forall|q: int| 0 <= q < before.len() && q != i implies self.view()[q] == before[q] by {
                    assert(self.storage@[q] == old(self).storage@[q]);
                }
            }
            assert forall|q: int| 0 <= q < self.schemas@.len() implies {
                &&& (#[trigger] self.schemas@[q]).wf()
                &&& self.schemas@[q].columns@.len() >= 1
                &&& self.storage@[q].wf()
                &&& self.storage@[q].column_count() == self.schemas@[q].columns@.len()
            } by {
                if q != i {
                    assert(self.storage@[q] == old(self).storage@[q]);
                }
            }
        }
        Ok(what.len())
    }

    /// The rows of table `table` on which `filter` holds, in storage order,
    /// each holding the columns that `values` names, in that order.
    pub fn select<'q>(&self, values: &[Value<'q>], table: &str, filter: &'q Bool<'q>) -> (r: Result<Vec<Row>, DbError>)
        requires
            self.wf(),
        ensures
            rows_outcome(r) == select_spec(self.view(), values@, table@, *filter),
            r matches Ok(v) ==> forall|k: int| 0 <= k < v@.len() ==> (#[trigger] v@[k]).wf(),
    {
        let schema = match self.schema_for(table) {
            Ok(s) => s,
            Err(e) => {
                return Err(e);
            },
        };
        let storage = match self.storage_for(table) {
            Ok(s) => s,
            Err(e) => {
                return Err(e);
            },
        };
        let ghost i = find_table(self.view(), table@)->Some_0;
        let ghost t = self.view()[i];
        let mut result_columns: Vec<&str> = Vec::with_capacity(values.len());
        let mut k: usize = 0;
        while k < values.len()
            invariant
                k <= values@.len(),
                find_table(self.view(), table@) == Some(i),
                t == self.view()[i],
                projection_names(values@.take(k as int)) == Some(names_view(result_columns@)),
            decreases values@.len() - k,
        {
            assert(values@.take(k + 1).drop_last() =~= values@.take(k as int));
            assert(values@.take(k + 1).last() == values@[k as int]);
            match &values[k] {
                Value::ColumnRef(name) => {
                    let ghost before = result_columns@;
                    result_columns.push(*name);
                    assert(names_view(result_columns@) =~= names_view(before).push(name@));
                },
                Value::Const(_) => {
                    proof {
                        assert(projection_names(values@.take(k + 1)).is_none());
                        lemma_projection_none(values@, k + 1);
                    }
                    return Err(DbError::UnsupportedOperation("projection must reference columns".to_owned()));
                },
            }
            k = k + 1;
        }
        assert(values@.take(k as int) =~= values@);
        let column_mapping = match schema.project_to_schema_optional(result_columns.as_slice()) {
            Ok(m) => m,
            Err(e) => {
                return Err(e);
            },
        };
        let filter_names = collect_filter_columns(filter);
        match schema.project_to_schema_optional(filter_names.as_slice()) {
            Ok(_) => {},
            Err(e) => {
                return Err(e);
            },
        }
        let _c = schema.columns.len();
        proof {
            lemma_optional_map_ok(t.columns, names_view(result_columns@));
            storage.lemma_row_widths();
        }
        let iter = storage.scan();
        let n = iter.items.len();
        let mut results: Vec<Row> = Vec::new();
        assert(rows_view(results@) =~= Seq::<Seq<Seq<u8>>>::empty());
        let mut k: usize = 0;
        while k < n
            invariant
                k <= n,
                n == t.rows.len(),
                find_table(self.view(), table@) == Some(i),
                t == self.view()[i],
                projection_names(values@) == Some(names_view(result_columns@)),
                optional_map(t.columns, names_view(result_columns@)) == Ok::<Seq<usize>, Failure>(column_mapping@),
                optional_map(t.columns, filter_columns(*filter)) is Ok,
                schema.name@ == t.name,
                schema.columns@ == t.columns,
                scan_matches(iter.items@, t.rows, dense_ids(t.rows.len())),
                forall|q: int| 0 <= q < t.rows.len() ==> (#[trigger] t.rows[q]).len() == t.columns.len(),
                forall|j: int| 0 <= j < column_mapping@.len() ==> #[trigger] column_mapping@[j] < t.columns.len(),
                select_rows(t.name, t.columns, t.rows, *filter, column_mapping@, k as int) == Ok::<
                    Seq<Seq<Seq<u8>>>,
                    Failure,
                >(rows_view(results@)),
                forall|q: int| 0 <= q < results@.len() ==> (#[trigger] results@[q]).wf(),
            decreases n - k,
        {
            let item = &iter.items[k];
            assert(item.row_content.columns() == t.rows[k as int]);
            match Self::filter_row(schema, item, filter) {
                Err(e) => {
                    proof {
                        assert(select_rows(t.name, t.columns, t.rows, *filter, column_mapping@, k + 1) == Err::<
                            Seq<Seq<Seq<u8>>>,
                            Failure,
                        >(e@));
                        lemma_select_rows_err(t.name, t.columns, t.rows, *filter, column_mapping@, k + 1, n as int, e@);
                    }
                    return Err(e);
                },
                Ok(true) => {
                    let mut selected: Vec<&[u8]> = Vec::with_capacity(column_mapping.len());
                    let mut j: usize = 0;
                    while j < column_mapping.len()
                        invariant
                            j <= column_mapping@.len(),
                            item.row_content.wf(),
                            item.row_content.offsets@.len() == t.columns.len() + 1,
                            item.row_content.columns() == t.rows[k as int],
                            forall|q: int| 0 <= q < column_mapping@.len() ==> #[trigger] column_mapping@[q] < t.columns.len(),
                            slices_view(selected@) == permuted(t.rows[k as int], column_mapping@).take(j as int),
                        decreases column_mapping@.len() - j,
                    {
                        let ghost before = selected@;
                        assert(column_mapping@[j as int] < t.columns.len());
                        let col = item.row_content.get_column(column_mapping[j]);
                        assert(col@ == t.rows[k as int][column_mapping@[j as int] as int]);
                        selected.push(col);
                        assert(slices_view(selected@) =~= slices_view(before).push(col@));
                        assert(permuted(t.rows[k as int], column_mapping@).take(j + 1) =~= permuted(
                            t.rows[k as int],
                            column_mapping@,
                        ).take(j as int).push(col@));
                        j = j + 1;
                    }
                    assert(permuted(t.rows[k as int], column_mapping@).take(j as int) =~= permuted(
                        t.rows[k as int],
                        column_mapping@,
                    ));
                    let ghost before = results@;
                    results.push(Row::of_columns(selected.as_slice()));
                    assert(rows_view(results@) =~= rows_view(before).push(permuted(t.rows[k as int], column_mapping@)));
                },
                Ok(false) => {},
            }
            k = k + 1;
        }
        Ok(results)
    }

    /// Removes the rows of table `table_name` on which `filter` holds and
    /// returns how many there were; on error nothing is removed.
    pub fn delete<'q>(&mut self, table_name: &str, filter: &'q Bool<'q>) -> (r: Result<usize, DbError>)
        requires
            old(self).wf(),
        ensures
            final(self).wf(),
            match delete_ids(old(self).view(), table_name@, *filter) {
                Ok(ids) => r == Ok::<usize, DbError>(ids.len() as usize),
                Err(e) => r matches Err(x) && x@ == e,
            },
            final(self).view() == delete_state(old(self).view(), table_name@, *filter),
    {
        let i = match self.table_index(table_name) {
            Some(i) => i,
            None => {
                return Err(DbError::TableNotFound(table_name.to_owned()));
            },
        };
        let ghost t = self.view()[i as int];
        proof {
            assert(self.schemas@[i as int].wf());
            assert(self.storage@[i as int].wf());
        }
        let filter_names = collect_filter_columns(filter);
        match self.schemas[i].project_to_schema_optional(filter_names.as_slice()) {
            Ok(_) => {},
            Err(e) => {
                return Err(e);
            },
        }
        let mut to_remove: Vec<RowId> = Vec::new();
        {
            let schema = &self.schemas[i];
            let storage = &self.storage[i];
            proof {
                storage.lemma_row_widths();
            }
            let iter = storage.scan();
            let n = iter.items.len();
            let mut k: usize = 0;
            while k < n
                invariant
                    k <= n,
                    self.wf(),
                    self.view() == old(self).view(),
                    find_table(old(self).view(), table_name@) == Some(i as int),
                    t == self.view()[i as int],
                    optional_map(t.columns, filter_columns(*filter)) is Ok,
                    n == t.rows.len(),
                    schema.name@ == t.name,
                    schema.columns@ == t.columns,
                    scan_matches(iter.items@, t.rows, dense_ids(t.rows.len())),
                    forall|q: int| 0 <= q < t.rows.len() ==> (#[trigger] t.rows[q]).len() == t.columns.len(),
                    matching_ids(t.name, t.columns, t.rows, *filter, k as int) == Ok::<Seq<usize>, Failure>(to_remove@),
                decreases n - k,
            {
                let item = &iter.items[k];
                assert(item.row_content.columns() == t.rows[k as int]);
                match Self::filter_row(schema, item, filter) {
                    Err(e) => {
                        proof {
                            assert(matching_ids(t.name, t.columns, t.rows, *filter, k + 1) == Err::<Seq<usize>, Failure>(
                                e@,
                            ));
                            lemma_matching_ids_err(t.name, t.columns, t.rows, *filter, k + 1, n as int, e@);
                        }
                        return Err(e);
                    },
                    Ok(true) => {
                        to_remove.push(item.row_id);
                    },
                    Ok(false) => {},
                }
                k = k + 1;
            }
        }
        let removed = to_remove.len();
        let ghost before = self.view();
        self.storage[i].delete_rows(to_remove);
        proof {
            assert(self.view() =~= delete_state(before, table_name@, *filter)) by {
                assert forall|q: int| 0 <= q < before.len() && q != i implies self.view()[q] == before[q] by {
                    assert(self.storage@[q] == old(self).storage@[q]);
                }
            }
            assert forall|q: int| 0 <= q < self.schemas@.len() implies {
                &&& (#[trigger] self.schemas@[q]).wf()
                &&& self.schemas@[q].columns@.len() >= 1
                &&& self.storage@[q].wf()
                &&& self.storage@[q].column_count() == self.schemas@[q].columns@.len()
            } by {
                if q != i {
                    assert(self.storage@[q] == old(self).storage@[q]);
                }
            }
        }
        Ok(removed)
    }

    /// Whether `filter` holds on the row of `item`, a row of table `schema`.
    pub fn filter_row<'r>(schema: &'r Table, item: &'r ScanItem<'r>, filter: &'r Bool<'r>) -> (r: Result<bool, DbError>)
        requires
            item.row_content.wf(),
            item.row_content.offsets@.len() == schema.columns@.len() + 1,
        ensures
            outcome(r) == eval_spec(schema.name@, schema.columns@, item.row_content.columns(), item.row_id, *filter),
        decreases filter,
    {
        let ctx = FilterContext { schema, item };
        match filter {
            Bool::True => Ok(true),
            Bool::False => Ok(false),
            Bool::Eq(left, right) => ctx.execute_binop(left, right, CmpOp::Eq),
            Bool::Neq(left, right) => ctx.execute_binop(left, right, CmpOp::Neq),
            Bool::Gt(left, right) => ctx.execute_binop(left, right, CmpOp::Gt),
            Bool::Gte(left, right) => ctx.execute_binop(left, right, CmpOp::Gte),
            Bool::Lt(left, right) => ctx.execute_binop(left, right, CmpOp::Lt),
            Bool::Lte(left, right) => ctx.execute_binop(left, right, CmpOp::Lte),
            Bool::And(left, right) => {
                let a = Self::filter_row(schema, item, left);
                let b = Self::filter_row(schema, item, right);
                match (a, b) {
                    (Err(e), _) => Err(e),
                    (Ok(_), Err(e)) => Err(e),
                    (Ok(x), Ok(y)) => Ok(x && y),
                }
            },
            Bool::Or(left, right) => {
                let a = Self::filter_row(schema, item, left);
                let b = Self::filter_row(schema, item, right);
                match (a, b) {
                    (Err(e), _) => Err(e),
                    (Ok(_), Err(e)) => Err(e),
                    (Ok(x), Ok(y)) => Ok(x || y),
                }
            },
            Bool::Xor(left, right) => {
                let a = Self::filter_row(schema, item, left);
                let b = Self::filter_row(schema, item, right);
                match (a, b) {
                    (Err(e), _) => Err(e),
                    (Ok(_), Err(e)) => Err(e),
                    (Ok(x), Ok(y)) => Ok(x != y),
                }
            },
            Bool::Not(inner) => match Self::filter_row(schema, item, inner) {
                Ok(x) => Ok(!x),
                Err(e) => Err(e),
            },
        }
    }
}

proof fn lemma_find_table_none(tables: Seq<TableState>, name: Seq<char>, i: int, j: int)
    requires
        find_table_from(tables, name, i).is_none(),
        0 <= i <= j < tables.len(),
    ensures
        tables[j].name != name,
    decreases j - i,
{
    if i < j {
        lemma_find_table_none(tables, name, i + 1, j);
    }
}

/// Names of the columns, in schema order.
pub open spec fn column_names(cols: Seq<Column>) -> Seq<Seq<char>> {
    Seq::new(cols.len(), |i: int| cols[i].name@)
}

/// No two columns share a name.
pub open spec fn names_distinct(cols: Seq<Column>) -> bool {
    forall|i: int, j: int| 0 <= i < j < cols.len() ==> cols[i].name@ != cols[j].name@
}

/// The identity map on `n` columns.
pub open spec fn identity_map(n: nat) -> Seq<usize> {
    Seq::new(n, |i: int| i as usize)
}

/// With only fixed-size columns (smallest size equal to largest), a schema's
/// smallest and largest row sizes are equal, and both are the sum of the
/// column sizes.
pub proof fn lemma_fixed_width_row_size(t: Table)
    requires
        t.wf(),
        forall|i: int| 0 <= i < t.columns@.len() ==> (#[trigger] t.columns@[i]).dtype.min_len() == t.columns@[i].dtype.max_len(),
    ensures
        t.min_row_size == t.max_row_size,
        t.max_row_size == sum_max(t.columns@),
{
    lemma_fixed_width_sums(t.columns@);
}

proof fn lemma_fixed_width_sums(cols: Seq<Column>)
    requires
        forall|i: int| 0 <= i < cols.len() ==> (#[trigger] cols[i]).dtype.min_len() == cols[i].dtype.max_len(),
    ensures
        sum_min(cols) == sum_max(cols),
    decreases cols.len(),
{
    if cols.len() > 0 {
        let p = cols.drop_last();
        assert forall|i: int| 0 <= i < p.len() implies (#[trigger] p[i]).dtype.min_len() == p[i].dtype.max_len() by {
            assert(p[i] == cols[i]);
        }
        lemma_fixed_width_sums(p);
        assert(cols.last() == cols[cols.len() - 1]);
    }
}

/// On every row, `Not(Not(p))`, `And(p, True)` and `Or(p, False)` evaluate
/// exactly as `p` does, errors included.
pub proof fn lemma_predicate_identities(table: Seq<char>, cols: Seq<Column>, row: Seq<Seq<u8>>, row_id: usize, p: Bool)
    ensures
        eval_spec(table, cols, row, row_id, Bool::Not(Box::new(Bool::Not(Box::new(p)))))
            == eval_spec(table, cols, row, row_id, p),
        eval_spec(table, cols, row, row_id, Bool::And(Box::new(p), Box::new(Bool::True)))
            == eval_spec(table, cols, row, row_id, p),
        eval_spec(table, cols, row, row_id, Bool::Or(Box::new(p), Box::new(Bool::False)))
            == eval_spec(table, cols, row, row_id, p),
{
    reveal_with_fuel(eval_spec, 3);
}

/// `True` keeps every row and `False` none: the rows that a scan under
/// `True` returns are all the rows, projected, in order.
pub proof fn lemma_constant_filters(table: Seq<char>, cols: Seq<Column>, rows: Seq<Seq<Seq<u8>>>, proj: Seq<usize>, n: int)
    requires
        0 <= n <= rows.len(),
        rows.len() <= usize::MAX,
    ensures
        select_rows(table, cols, rows, Bool::True, proj, n) == Ok::<Seq<Seq<Seq<u8>>>, Failure>(
            Seq::new(n as nat, |j: int| permuted(rows[j], proj)),
        ),
        select_rows(table, cols, rows, Bool::False, proj, n) == Ok::<Seq<Seq<Seq<u8>>>, Failure>(Seq::empty()),
        matching_ids(table, cols, rows, Bool::True, n) == Ok::<Seq<usize>, Failure>(dense_ids(n as nat)),
        matching_ids(table, cols, rows, Bool::False, n) == Ok::<Seq<usize>, Failure>(Seq::empty()),
    decreases n,
{
    if n > 0 {
        lemma_constant_filters(table, cols, rows, proj, n - 1);
        assert(eval_spec(table, cols, rows[n - 1], (n - 1) as usize, Bool::True) == Ok::<bool, Failure>(true));
        assert(eval_spec(table, cols, rows[n - 1], (n - 1) as usize, Bool::False) == Ok::<bool, Failure>(false));
        assert(Seq::new((n - 1) as nat, |j: int| permuted(rows[j], proj)).push(permuted(rows[n - 1], proj)) =~= Seq::new(
            n as nat,
            |j: int| permuted(rows[j], proj),
        ));
        assert(dense_ids((n - 1) as nat).push((n - 1) as usize) =~= dense_ids(n as nat));
    } else {
        assert(Seq::new(0, |j: int| permuted(rows[j], proj)) =~= Seq::<Seq<Seq<u8>>>::empty());
        assert(dense_ids(0) =~= Seq::<usize>::empty());
    }
}

proof fn lemma_kept_all_none(rows: Seq<Seq<Seq<u8>>>, n: int)
    requires
        0 <= n <= rows.len(),
        rows.len() <= usize::MAX,
    ensures
        kept_prefix(rows, dense_ids(rows.len()), dense_ids(rows.len()), n) == Seq::<Seq<Seq<u8>>>::empty(),
        kept_prefix(rows, dense_ids(rows.len()), Seq::empty(), n) == rows.take(n),
    decreases n,
{
    if n > 0 {
        lemma_kept_all_none(rows, n - 1);
        assert(dense_ids(rows.len())[n - 1] == (n - 1) as usize);
        assert(dense_ids(rows.len()).contains((n - 1) as usize));
        assert(rows.take(n - 1).push(rows[n - 1]) =~= rows.take(n));
    } else {
        assert(rows.take(0) =~= Seq::<Seq<Seq<u8>>>::empty());
    }
}

/// Deleting under `True` removes every row of the table and reports how many
/// there were; afterwards a select under `True` returns no row.
pub proof fn lemma_delete_all(tables: Seq<TableState>, name: Seq<char>, values: Seq<Value>)
    requires
        tables_wf(tables),
        find_table(tables, name).is_some(),
        tables.len() <= usize::MAX,
        tables[find_table(tables, name)->Some_0].rows.len() <= usize::MAX,
    ensures
        ({
            let i = find_table(tables, name)->Some_0;
            &&& delete_ids(tables, name, Bool::True) == Ok::<Seq<usize>, Failure>(dense_ids(tables[i].rows.len()))
            &&& delete_state(tables, name, Bool::True)[i].rows == Seq::<Seq<Seq<u8>>>::empty()
            &&& select_spec(delete_state(tables, name, Bool::True), values, name, Bool::True) is Ok ==> select_spec(
                delete_state(tables, name, Bool::True),
                values,
                name,
                Bool::True,
            ) == Ok::<Seq<Seq<Seq<u8>>>, Failure>(Seq::empty())
        }),
{
    let i = find_table(tables, name)->Some_0;
    let t = tables[i];
    lemma_find_table_bounds(tables, name, 0);
    assert(filter_columns(Bool::True) == Seq::<Seq<char>>::empty());
    assert(optional_map(t.columns, Seq::empty()) == Ok::<Seq<usize>, Failure>(Seq::empty()));
    lemma_constant_filters(t.name, t.columns, t.rows, Seq::empty(), t.rows.len() as int);
    lemma_kept_all_none(t.rows, t.rows.len() as int);
    let after = delete_state(tables, name, Bool::True);
    lemma_find_table_same_names(tables, after, name, 0);
    assert(after[i].rows == Seq::<Seq<Seq<u8>>>::empty());
    lemma_constant_filters(t.name, t.columns, after[i].rows, Seq::empty(), 0);
    if let Some(names) = projection_names(values) {
        if let Ok(proj) = optional_map(t.columns, names) {
            lemma_constant_filters(t.name, t.columns, after[i].rows, proj, 0);
        }
    }
}

/// Deleting under `False` removes nothing and reports 0.
pub proof fn lemma_delete_none(tables: Seq<TableState>, name: Seq<char>)
    requires
        tables_wf(tables),
        find_table(tables, name).is_some(),
        tables[find_table(tables, name)->Some_0].rows.len() <= usize::MAX,
    ensures
        delete_ids(tables, name, Bool::False) == Ok::<Seq<usize>, Failure>(Seq::empty()),
        delete_state(tables, name, Bool::False) == tables,
{
    let i = find_table(tables, name)->Some_0;
    let t = tables[i];
    lemma_find_table_bounds(tables, name, 0);
    assert(optional_map(t.columns, filter_columns(Bool::False)) == Ok::<Seq<usize>, Failure>(Seq::empty()));
    lemma_constant_filters(t.name, t.columns, t.rows, Seq::empty(), t.rows.len() as int);
    lemma_kept_all_none(t.rows, t.rows.len() as int);
    assert(t.rows.take(t.rows.len() as int) =~= t.rows);
    assert(delete_state(tables, name, Bool::False) =~= tables);
}

proof fn lemma_find_table_same_names(a: Seq<TableState>, b: Seq<TableState>, name: Seq<char>, i: int)
    requires
        a.len() == b.len(),
        forall|k: int| 0 <= k < a.len() ==> (#[trigger] a[k]).name == b[k].name,
    ensures
        find_table_from(a, name, i) == find_table_from(b, name, i),
    decreases a.len() - i,
{
    if 0 <= i < a.len() {
        lemma_find_table_same_names(a, b, name, i + 1);
    }
}

/// Inserting `k` rows adds exactly `k` to the number of rows that a select
/// under `True` returns.
pub proof fn lemma_insert_count(tables: Seq<TableState>, name: Seq<char>, columns: Seq<Seq<char>>, rows: Seq<Row>, values: Seq<Value>)
    requires
        tables_wf(tables),
        insert_map(tables, name, columns, rows) is Ok,
        tables[find_table(tables, name)->Some_0].rows.len() + rows.len() <= usize::MAX,
    ensures
        select_spec(tables, values, name, Bool::True) matches Ok(before) ==> select_spec(
            insert_state(tables, name, columns, rows),
            values,
            name,
            Bool::True,
        ) matches Ok(after) && after.len() == before.len() + rows.len(),
{
    let i = find_table(tables, name)->Some_0;
    let t = tables[i];
    lemma_find_table_bounds(tables, name, 0);
    let after = insert_state(tables, name, columns, rows);
    lemma_find_table_same_names(tables, after, name, 0);
    if let Some(names) = projection_names(values) {
        if let Ok(proj) = optional_map(t.columns, names) {
            lemma_constant_filters(t.name, t.columns, t.rows, proj, t.rows.len() as int);
            lemma_constant_filters(t.name, t.columns, after[i].rows, proj, after[i].rows.len() as int);
        }
    }
}

proof fn lemma_all_columns_map(cols: Seq<Column>, n: int)
    requires
        names_distinct(cols),
        0 <= n <= cols.len(),
        cols.len() <= usize::MAX,
    ensures
        optional_map(cols, column_names(cols).take(n)) == Ok::<Seq<usize>, Failure>(identity_map(n as nat)),
    decreases n,
{
    if n > 0 {
        lemma_all_columns_map(cols, n - 1);
        assert(column_names(cols).take(n).drop_last() =~= column_names(cols).take(n - 1));
        lemma_find_first(cols, cols[n - 1].name@, n - 1, 0);
        assert(identity_map((n - 1) as nat).push((n - 1) as usize) =~= identity_map(n as nat));
    } else {
        assert(identity_map(0) =~= Seq::<usize>::empty());
    }
}

proof fn lemma_find_first(cols: Seq<Column>, name: Seq<char>, k: int, i: int)
    requires
        names_distinct(cols),
        0 <= i <= k < cols.len(),
        cols[k].name@ == name,
    ensures
        find_from(cols, name, i) == Some(k),
    decreases k - i,
{
    if i < k {
        lemma_find_first(cols, name, k, i + 1);
    }
}

/// A row that `insert` accepted comes back from a select of every column
/// under `True`, after the rows that were there, with its columns in schema
/// order (the input columns permuted by the insert's map).
pub proof fn lemma_insert_then_select_all(tables: Seq<TableState>, name: Seq<char>, columns: Seq<Seq<char>>, rows: Seq<Row>, values: Seq<Value>)
    requires
        tables_wf(tables),
        tables.len() <= usize::MAX,
        insert_map(tables, name, columns, rows) is Ok,
        names_distinct(tables[find_table(tables, name)->Some_0].columns),
        tables[find_table(tables, name)->Some_0].columns.len() <= usize::MAX,
        projection_names(values) == Some(column_names(tables[find_table(tables, name)->Some_0].columns)),
        tables[find_table(tables, name)->Some_0].rows.len() + rows.len() <= usize::MAX,
    ensures
        select_spec(insert_state(tables, name, columns, rows), values, name, Bool::True) == Ok::<Seq<Seq<Seq<u8>>>, Failure>(
            tables[find_table(tables, name)->Some_0].rows + stored_rows(rows, insert_map(tables, name, columns, rows)->Ok_0),
        ),
{
    let i = find_table(tables, name)->Some_0;
    let t = tables[i];
    let map = insert_map(tables, name, columns, rows)->Ok_0;
    lemma_find_table_bounds(tables, name, 0);
    lemma_required_prefix_ok(t.columns, columns, t.columns.len() as int);
    let after = insert_state(tables, name, columns, rows);
    lemma_find_table_same_names(tables, after, name, 0);
    let n = t.columns.len();
    lemma_all_columns_map(t.columns, n as int);
    assert(column_names(t.columns).take(n as int) =~= column_names(t.columns));
    assert(optional_map(t.columns, filter_columns(Bool::True)) == Ok::<Seq<usize>, Failure>(Seq::empty()));
    let all = after[i].rows;
    lemma_constant_filters(t.name, t.columns, all, identity_map(n), all.len() as int);
    assert(Seq::new(all.len(), |j: int| permuted(all[j], identity_map(n))) =~= all) by {
        assert forall|j: int| 0 <= j < all.len() implies permuted(all[j], identity_map(n)) == all[j] by {
            if j < t.rows.len() {
                assert(all[j] == t.rows[j]);
                assert(t.rows[j].len() == n);
            } else {
                assert(all[j] == permuted(rows[j - t.rows.len()].columns(), map));
            }
            assert(permuted(all[j], identity_map(n)) =~= all[j]);
        }
    }
}

/// Every returned row holds, at position `k`, the column that the `k`-th
/// projected name refers to: projections keep their own order, not the
/// schema's.
pub proof fn lemma_projection_order(tables: Seq<TableState>, values: Seq<Value>, name: Seq<char>)
    requires
        tables_wf(tables),
        select_spec(tables, values, name, Bool::True) is Ok,
        tables[find_table(tables, name)->Some_0].columns.len() <= usize::MAX,
        tables[find_table(tables, name)->Some_0].rows.len() <= usize::MAX,
    ensures
        ({
            let t = tables[find_table(tables, name)->Some_0];
            let names = projection_names(values)->Some_0;
            let out = select_spec(tables, values, name, Bool::True)->Ok_0;
            &&& out.len() == t.rows.len()
            &&& forall|j: int, k: int|
                0 <= j < out.len() && 0 <= k < names.len() ==> out[j][k] == t.rows[j][find_column(t.columns, names[k])->Some_0]
        }),
{
    let i = find_table(tables, name)->Some_0;
    let t = tables[i];
    lemma_find_table_bounds(tables, name, 0);
    let names = projection_names(values)->Some_0;
    let proj = optional_map(t.columns, names)->Ok_0;
    lemma_optional_map_ok(t.columns, names);
    lemma_constant_filters(t.name, t.columns, t.rows, proj, t.rows.len() as int);
}

/// `out_row` is the `j`-th row of table `t` for some `j` on which `filter`
/// holds, projected on `names` in their order.
pub open spec fn projected_from(t: TableState, filter: Bool, names: Seq<Seq<char>>, out_row: Seq<Seq<u8>>) -> bool {
    exists|j: int|
        0 <= j < t.rows.len() && eval_spec(t.name, t.columns, t.rows[j], j as usize, filter) == Ok::<bool, Failure>(true)
            && out_row.len() == names.len() && forall|k: int|
            0 <= k < names.len() ==> out_row[k] == t.rows[j][find_column(t.columns, names[k])->Some_0]
}

/// Each row that a select returns, under any filter, is a row of the table
/// on which the filter holds, holding at position `k` the column that the
/// `k`-th projected name refers to: projections keep their own order.
pub proof fn lemma_projection_order_any(tables: Seq<TableState>, values: Seq<Value>, name: Seq<char>, filter: Bool)
    requires
        select_spec(tables, values, name, filter) is Ok,
        tables[find_table(tables, name)->Some_0].columns.len() <= usize::MAX,
    ensures
        forall|q: int|
            0 <= q < select_spec(tables, values, name, filter)->Ok_0.len() ==> projected_from(
                tables[find_table(tables, name)->Some_0],
                filter,
                projection_names(values)->Some_0,
                #[trigger] select_spec(tables, values, name, filter)->Ok_0[q],
            ),
{
    let i = find_table(tables, name)->Some_0;
    let t = tables[i];
    lemma_find_table_bounds(tables, name, 0);
    let names = projection_names(values)->Some_0;
    let proj = optional_map(t.columns, names)->Ok_0;
    lemma_optional_map_ok(t.columns, names);
    lemma_select_rows_shape(t.name, t.columns, t.rows, filter, proj, t.rows.len() as int);
    let out = select_spec(tables, values, name, filter)->Ok_0;
    assert(out == select_rows(t.name, t.columns, t.rows, filter, proj, t.rows.len() as int)->Ok_0);
    assert forall|q: int| 0 <= q < out.len() implies projected_from(t, filter, names, #[trigger] out[q]) by {
        let j = choose|j: int|
            0 <= j < t.rows.len() && eval_spec(t.name, t.columns, t.rows[j], j as usize, filter) == Ok::<bool, Failure>(true)
                && #[trigger] out[q] == permuted(t.rows[j], proj);
        assert forall|k: int| 0 <= k < names.len() implies out[q][k] == t.rows[j][find_column(t.columns, names[k])->Some_0] by {
            assert(find_column(t.columns, names[k]) == Some(proj[k] as int));
        }
    }
}

proof fn lemma_select_rows_shape(table: Seq<char>, cols: Seq<Column>, rows: Seq<Seq<Seq<u8>>>, filter: Bool, proj: Seq<usize>, n: int)
    requires
        0 <= n <= rows.len(),
    ensures
        select_rows(table, cols, rows, filter, proj, n) matches Ok(out) ==> forall|q: int|
            0 <= q < out.len() ==> exists|j: int|
                0 <= j < n && eval_spec(table, cols, rows[j], j as usize, filter) == Ok::<bool, Failure>(true)
                    && #[trigger] out[q] == permuted(rows[j], proj),
    decreases n,
{
    if n > 0 {
        lemma_select_rows_shape(table, cols, rows, filter, proj, n - 1);
        if let Ok(out) = select_rows(table, cols, rows, filter, proj, n) {
            let prev = select_rows(table, cols, rows, filter, proj, n - 1)->Ok_0;
            assert forall|q: int| 0 <= q < out.len() implies exists|j: int|
                0 <= j < n && eval_spec(table, cols, rows[j], j as usize, filter) == Ok::<bool, Failure>(true)
                    && #[trigger] out[q] == permuted(rows[j], proj) by {
                if q < prev.len() {
                    assert(out[q] == prev[q]);
                    let j = choose|j: int|
                        0 <= j < n - 1 && eval_spec(table, cols, rows[j], j as usize, filter) == Ok::<bool, Failure>(true)
                            && #[trigger] prev[q] == permuted(rows[j], proj);
                    assert(0 <= j < n);
                } else {
                    assert(out[q] == permuted(rows[n - 1], proj));
                }
            }
        }
    }
}

/// Inserting one row with the right columns: a row smaller than the table's
/// smallest row size fails with `RowSizeTooSmall`, one larger than its
/// largest with `RowSizeExceeded`, and one whose size lies between (either
/// bound included) and whose columns fit their types is accepted. On a
/// failure the tables are unchanged.
pub proof fn lemma_insert_row_size(tables: Seq<TableState>, name: Seq<char>, columns: Seq<Seq<char>>, row: Row)
    requires
        tables_wf(tables),
        find_table(tables, name).is_some(),
        required_map(tables[find_table(tables, name)->Some_0].columns, columns) is Ok,
        row.wf(),
        row.offsets@.len() == tables[find_table(tables, name)->Some_0].columns.len() + 1,
        row.data@.len() <= usize::MAX,
        tables[find_table(tables, name)->Some_0].columns.len() <= usize::MAX,
    ensures
        ({
            let t = tables[find_table(tables, name)->Some_0];
            let map = required_map(t.columns, columns)->Ok_0;
            let size = row.data@.len();
            &&& size < t.min_row_size ==> insert_map(tables, name, columns, seq![row]) == Err::<Seq<usize>, Failure>(
                Failure::RowSizeTooSmall { got: size as usize, min: t.min_row_size },
            )
            &&& size > t.max_row_size ==> insert_map(tables, name, columns, seq![row]) == Err::<Seq<usize>, Failure>(
                Failure::RowSizeExceeded { got: size as usize, max: t.max_row_size },
            )
            &&& t.min_row_size <= size <= t.max_row_size && column_sizes_check(t.columns, row.columns(), map, t.columns.len() as int) is Ok
                ==> insert_map(tables, name, columns, seq![row]) == Ok::<Seq<usize>, Failure>(map)
            &&& insert_map(tables, name, columns, seq![row]) is Err ==> insert_state(tables, name, columns, seq![row]) == tables
        }),
{
    let i = find_table(tables, name)->Some_0;
    let t = tables[i];
    lemma_find_table_bounds(tables, name, 0);
    lemma_required_prefix_ok(t.columns, columns, t.columns.len() as int);
    let map = required_map(t.columns, columns)->Ok_0;
    lemma_sum_min_le_max(t.columns);
    lemma_row_size_bounds(t.columns, t.min_row_size, t.max_row_size, row, map);
    assert(seq![row][0] == row);
    assert(rows_check(t.columns, t.min_row_size, t.max_row_size, seq![row], map, 0) == Ok::<(), Failure>(()));
}

/// Inserting one row whose total size fits, whose columns before schema
/// column `c` fit their types, and whose column `c` is a `BUFFER` of another
/// length than the declared one fails with `ColumnSizeOutOfBounds` naming
/// that column; the tables are unchanged.
pub proof fn lemma_insert_buffer_size(tables: Seq<TableState>, name: Seq<char>, columns: Seq<Seq<char>>, row: Row, c: int, len: usize)
    requires
        tables_wf(tables),
        find_table(tables, name).is_some(),
        required_map(tables[find_table(tables, name)->Some_0].columns, columns) is Ok,
        row.wf(),
        row.offsets@.len() == tables[find_table(tables, name)->Some_0].columns.len() + 1,
        row.data@.len() <= usize::MAX,
        tables[find_table(tables, name)->Some_0].columns.len() <= usize::MAX,
        tables[find_table(tables, name)->Some_0].min_row_size <= row.data@.len() <= tables[find_table(tables, name)->Some_0].max_row_size,
        0 <= c < tables[find_table(tables, name)->Some_0].columns.len(),
        tables[find_table(tables, name)->Some_0].columns[c].dtype == (DataType::BUFFER { length: len }),
        column_sizes_check(
            tables[find_table(tables, name)->Some_0].columns,
            row.columns(),
            required_map(tables[find_table(tables, name)->Some_0].columns, columns)->Ok_0,
            c,
        ) is Ok,
        row.columns()[required_map(tables[find_table(tables, name)->Some_0].columns, columns)->Ok_0[c] as int].len() != len,
    ensures
        ({
            let t = tables[find_table(tables, name)->Some_0];
            let map = required_map(t.columns, columns)->Ok_0;
            let got = row.columns()[map[c] as int].len();
            &&& insert_map(tables, name, columns, seq![row]) == Err::<Seq<usize>, Failure>(
                Failure::ColumnSizeOutOfBounds { column: t.columns[c].name@, got: got as usize, min: len, max: len },
            )
            &&& insert_state(tables, name, columns, seq![row]) == tables
        }),
{
    let i = find_table(tables, name)->Some_0;
    let t = tables[i];
    lemma_find_table_bounds(tables, name, 0);
    lemma_required_prefix_ok(t.columns, columns, t.columns.len() as int);
    let map = required_map(t.columns, columns)->Ok_0;
    let got = row.columns()[map[c] as int].len();
    let e = Failure::ColumnSizeOutOfBounds { column: t.columns[c].name@, got: got as usize, min: len, max: len };
    assert(got <= row.data@.len());
    assert(column_sizes_check(t.columns, row.columns(), map, c + 1) == Err::<(), Failure>(e));
    lemma_column_sizes_err(t.columns, row.columns(), map, c + 1, t.columns.len() as int, e);
    lemma_sum_min_le_max(t.columns);
    assert(seq![row][0] == row);
    assert(rows_check(t.columns, t.min_row_size, t.max_row_size, seq![row], map, 0) == Ok::<(), Failure>(()));
}

/// The rows a database holds and its answers depend on its view alone, and
/// the view records no backend: two databases with the same view give the
/// same result to every select, insert and delete and reach the same view.
/// (`new_table` extends the view alike for either storage configuration.)
pub proof fn lemma_backends_agree(a: &Database, b: &Database)
    requires
        a.wf(),
        b.wf(),
        a.view() == b.view(),
    ensures
        forall|values: Seq<Value>, name: Seq<char>, filter: Bool|
            #[trigger] select_spec(a.view(), values, name, filter) == select_spec(b.view(), values, name, filter),
        forall|name: Seq<char>, filter: Bool|
            #[trigger] delete_ids(a.view(), name, filter) == delete_ids(b.view(), name, filter) && delete_state(
                a.view(),
                name,
                filter,
            ) == delete_state(b.view(), name, filter),
        forall|name: Seq<char>, columns: Seq<Seq<char>>, rows: Seq<Row>|
            #[trigger] insert_map(a.view(), name, columns, rows) == insert_map(b.view(), name, columns, rows)
                && insert_state(a.view(), name, columns, rows) == insert_state(b.view(), name, columns, rows),
{
}

/// A row with the right number of columns is checked for size before its
/// columns: above the largest row size it is too large, below the smallest
/// it is too small, and in between only its columns' sizes decide.
pub proof fn lemma_row_size_bounds(cols: Seq<Column>, min: usize, max: usize, row: Row, map: Seq<usize>)
    requires
        row.wf(),
        row.offsets@.len() == map.len() + 1,
        map.len() <= usize::MAX,
        row.data@.len() <= usize::MAX,
        min <= max,
    ensures
        row.data@.len() > max ==> row_check(cols, min, max, row, map) == Err::<(), Failure>(
            Failure::RowSizeExceeded { got: row.data@.len() as usize, max },
        ),
        row.data@.len() < min ==> row_check(cols, min, max, row, map) == Err::<(), Failure>(
            Failure::RowSizeTooSmall { got: row.data@.len() as usize, min },
        ),
        min <= row.data@.len() <= max ==> row_check(cols, min, max, row, map) == column_sizes_check(
            cols,
            row.columns(),
            map,
            cols.len() as int,
        ),
{
}

/// A column whose size is outside its type's bounds (a `BUFFER` of any other
/// length, say) makes the size check fail with `ColumnSizeOutOfBounds`.
pub proof fn lemma_column_out_of_bounds(cols: Seq<Column>, row_cols: Seq<Seq<u8>>, map: Seq<usize>, c: int, n: int)
    requires
        0 <= c < n <= cols.len(),
        map.len() == cols.len(),
        0 <= map[c] < row_cols.len(),
        row_cols[map[c] as int].len() < cols[c].dtype.min_len() || row_cols[map[c] as int].len() > cols[c].dtype.max_len(),
    ensures
        column_sizes_check(cols, row_cols, map, n) matches Err(Failure::ColumnSizeOutOfBounds { .. }),
    decreases n,
{
    if c < n - 1 {
        lemma_column_out_of_bounds(cols, row_cols, map, c, n - 1);
    } else {
        lemma_column_sizes_kind(cols, row_cols, map, n - 1);
    }
}

proof fn lemma_column_sizes_kind(cols: Seq<Column>, row_cols: Seq<Seq<u8>>, map: Seq<usize>, n: int)
    ensures
        column_sizes_check(cols, row_cols, map, n) matches Ok(_) || column_sizes_check(cols, row_cols, map, n) matches Err(
            Failure::ColumnSizeOutOfBounds { .. },
        ),
    decreases n,
{
    if n > 0 {
        lemma_column_sizes_kind(cols, row_cols, map, n - 1);
    }
}

/// Offsets split a buffer of `len` bytes into consecutive columns: they start
/// at 0, never decrease, and end at `len`.
pub open spec fn offsets_wf(len: nat, offsets: Seq<usize>) -> bool {
    &&& offsets.len() >= 1
    &&& offsets[0] == 0
    &&& offsets.last() == len
    &&& forall|i: int, j: int| 0 <= i <= j < offsets.len() ==> offsets[i] <= offsets[j]
}

/// The columns that `offsets` cut out of `data`.
pub open spec fn split_columns(data: Seq<u8>, offsets: Seq<usize>) -> Seq<Seq<u8>> {
    Seq::new(
        (offsets.len() - 1) as nat,
        |i: int| data.subrange(offsets[i] as int, offsets[i + 1] as int),
    )
}

/// The view of a slice of byte slices.
pub open spec fn slices_view(cols: Seq<&[u8]>) -> Seq<Seq<u8>> {
    cols.map_values(|c: &[u8]| c@)
}

/// A self-contained row: the columns' bytes back to back, and the offset at
/// which each column starts followed by the end of the last one.
#[derive(Debug)]
pub struct Row {
    pub data: Vec<u8>,
    pub offsets: Vec<usize>,
}

impl Row {
    pub open spec fn wf(&self) -> bool {
        offsets_wf(self.data@.len(), self.offsets@)
    }

    pub open spec fn columns(&self) -> Seq<Seq<u8>> {
        split_columns(self.data@, self.offsets@)
    }

    /// The row that holds `columns` in the order given.
    pub fn of_columns(columns: &[&[u8]]) -> (r: Row)
        ensures
            r.wf(),
            r.columns() == slices_view(columns@),
    {
        let ghost cols = slices_view(columns@);
        let mut data: Vec<u8> = Vec::new();
        let mut offsets: Vec<usize> = Vec::new();
        offsets.push(0);
        let mut k: usize = 0;
        while k < columns.len()
            invariant
                k <= columns@.len(),
                cols == slices_view(columns@),
                offsets_wf(data@.len(), offsets@),
                offsets@.len() == k + 1,
                split_columns(data@, offsets@) == cols.take(k as int),
            decreases columns@.len() - k,
        {
            let ghost old_data = data@;
            let ghost old_offsets = offsets@;
            append_bytes(&mut data, columns[k]);
            let end = data.len();
            offsets.push(end);
            proof {
                assert(split_columns(data@, offsets@) =~= cols.take(k + 1)) by {
                    assert forall|i: int| 0 <= i < k implies #[trigger] split_columns(data@, offsets@)[i]
                        == cols[i] by {
                        assert(split_columns(old_data, old_offsets)[i] == cols.take(k as int)[i]);
                        assert(old_data == data@.subrange(0, old_data.len() as int));
                        assert(data@.subrange(offsets@[i] as int, offsets@[i + 1] as int)
                            =~= old_data.subrange(offsets@[i] as int, offsets@[i + 1] as int));
                    }
                    assert(data@.subrange(old_data.len() as int, data@.len() as int) =~= cols[k as int]);
                }
            }
            k = k + 1;
        }
        assert(cols.take(k as int) == cols);
        Row { data, offsets }
    }

    /// The bytes of column `col_idx`.
    pub fn get_column(&self, col_idx: usize) -> (r: &[u8])
        requires
            self.wf(),
            col_idx < self.offsets@.len() - 1,
        ensures
            r@ == self.columns()[col_idx as int],
    {
        let _count = self.offsets.len();
        let start = self.offsets[col_idx];
        let end = self.offsets[col_idx + 1];
        vstd::slice::slice_subrange(self.data.as_slice(), start, end)
    }
}

/// Appends `b` to `v`.
pub fn append_bytes(v: &mut Vec<u8>, b: &[u8])
    ensures
        final(v)@ == old(v)@ + b@,
{
    let mut i: usize = 0;
    let ghost start = v@;
    while i < b.len()
        invariant
            i <= b@.len(),
            v@ == start + b@.take(i as int),
        decreases b@.len() - i,
    {
        v.push(b[i]);
        assert(b@.take(i + 1) == b@.take(i as int).push(b@[i as int]));
        i = i + 1;
    }
    assert(b@.take(i as int) == b@);
}

} // verus!
