//! Storage backends: an in-memory arena and an append-only log with
//! tombstones, behind one scan / store / delete contract.
use vstd::prelude::*;
use vstd::bytes::{spec_u64_to_le_bytes, spec_u64_from_le_bytes, lemma_auto_spec_u64_to_from_le_bytes, u64_from_le_bytes, u64_to_le_bytes};
use crate::engine::{offsets_wf, split_columns, map_wf, Row, Table, append_bytes};

verus! {

/// Identifies a row within one scan of one storage.
pub type RowId = usize;

/// A stored row as a scan sees it: the payload borrowed from the storage,
/// and the offsets that cut it into the schema's columns.
#[derive(Debug)]
pub struct RowContent<'a> {
    pub data: &'a [u8],
    pub offsets: Vec<usize>,
}

impl<'a> RowContent<'a> {
    pub open spec fn wf(&self) -> bool {
        offsets_wf(self.data@.len(), self.offsets@)
    }

    pub open spec fn columns(&self) -> Seq<Seq<u8>> {
        split_columns(self.data@, self.offsets@)
    }

    /// The bytes of column `col_idx`.
    pub fn get_column(&self, col_idx: usize) -> (r: &'a [u8])
        requires
            self.wf(),
            col_idx < self.offsets@.len() - 1,
        ensures
            r@ == self.columns()[col_idx as int],
    {
        let _count = self.offsets.len();
        let start = self.offsets[col_idx];
        let end = self.offsets[col_idx + 1];
        vstd::slice::slice_subrange(self.data, start, end)
    }
}

/// One row of a scan and its id.
#[derive(Debug)]
pub struct ScanItem<'a> {
    pub row_id: RowId,
    pub row_content: RowContent<'a>,
}

/// The rows of a scan, in storage order.
pub struct TableIterator<'a> {
    pub items: Vec<ScanItem<'a>>,
}

impl<'a> TableIterator<'a> {
    pub fn new(items: Vec<ScanItem<'a>>) -> (r: Self)
        ensures
            r.items@ == items@,
    {
        TableIterator { items }
    }
}

/// `items` lists `rows` under the ids `ids`, in order.
pub open spec fn scan_matches(items: Seq<ScanItem>, rows: Seq<Seq<Seq<u8>>>, ids: Seq<usize>) -> bool {
    &&& items.len() == rows.len()
    &&& items.len() == ids.len()
    &&& forall|k: int|
        0 <= k < items.len() ==> {
            &&& (#[trigger] items[k]).row_id == ids[k]
            &&& items[k].row_content.wf()
            &&& items[k].row_content.columns() == rows[k]
        }
}

/// The first `n` rows whose ids are not in `del`.
pub open spec fn kept_prefix<T>(rows: Seq<T>, ids: Seq<usize>, del: Seq<usize>, n: int) -> Seq<T>
    decreases n,
{
    if n <= 0 {
        Seq::empty()
    } else if del.contains(ids[n - 1]) {
        kept_prefix(rows, ids, del, n - 1)
    } else {
        kept_prefix(rows, ids, del, n - 1).push(rows[n - 1])
    }
}

/// The rows whose ids are not in `del`, in order.
pub open spec fn kept<T>(rows: Seq<T>, ids: Seq<usize>, del: Seq<usize>) -> Seq<T> {
    kept_prefix(rows, ids, del, rows.len() as int)
}

/// The ids `0..n`.
pub open spec fn dense_ids(n: nat) -> Seq<usize> {
    Seq::new(n, |i: int| i as usize)
}

/// The columns of `row` in schema order, given the input-to-schema map.
pub open spec fn permuted(row: Seq<Seq<u8>>, map: Seq<usize>) -> Seq<Seq<u8>> {
    Seq::new(map.len(), |i: int| row[map[i] as int])
}

/// Rows to be stored: well formed, each with one input column per schema column.
pub open spec fn rows_storable(rows: Seq<Row>, map: Seq<usize>) -> bool {
    &&& map_wf(map.len(), map)
    &&& forall|k: int|
        0 <= k < rows.len() ==> {
            &&& (#[trigger] rows[k]).wf()
            &&& rows[k].offsets@.len() == map.len() + 1
        }
}

/// The rows as the storage keeps them: schema order.
pub open spec fn stored_rows(rows: Seq<Row>, map: Seq<usize>) -> Seq<Seq<Seq<u8>>> {
    Seq::new(rows.len(), |k: int| permuted(rows[k].columns(), map))
}

proof fn lemma_push_column(data: Seq<u8>, offsets: Seq<usize>, cols: Seq<Seq<u8>>, col: Seq<u8>)
    requires
        offsets_wf(data.len(), offsets),
        split_columns(data, offsets) == cols,
        data.len() + col.len() <= usize::MAX,
    ensures
        offsets_wf((data + col).len(), offsets.push((data.len() + col.len()) as usize)),
        split_columns(data + col, offsets.push((data.len() + col.len()) as usize)) == cols.push(col),
{
    let d2 = data + col;
    let o2 = offsets.push((data.len() + col.len()) as usize);
    assert forall|i: int| 0 <= i < cols.len() implies #[trigger] split_columns(d2, o2)[i] == cols[i] by {
        assert(split_columns(data, offsets)[i] == cols[i]);
        assert(d2.subrange(o2[i] as int, o2[i + 1] as int) =~= data.subrange(offsets[i] as int, offsets[i + 1] as int));
    }
    assert(d2.subrange(data.len() as int, d2.len() as int) =~= col);
    assert(split_columns(d2, o2) =~= cols.push(col));
}

/// End of row `r` in an arena whose rows start at `starts`.
pub open spec fn row_end(data_len: nat, starts: Seq<usize>, r: int) -> int {
    if r + 1 < starts.len() {
        starts[r + 1] as int
    } else {
        data_len as int
    }
}

/// The offsets of row `r`: `opr` entries from `r * opr`.
pub open spec fn window(rel: Seq<usize>, opr: nat, r: int) -> Seq<usize> {
    rel.subrange(r * opr, r * opr + opr)
}

/// Rows lie back to back in `data`; each has `opr` offsets relative to its start.
pub open spec fn arena_wf(data: Seq<u8>, starts: Seq<usize>, rel: Seq<usize>, opr: nat) -> bool {
    &&& opr >= 1
    &&& rel.len() == starts.len() * opr
    &&& starts.len() == 0 ==> data.len() == 0
    &&& starts.len() > 0 ==> starts[0] == 0
    &&& forall|r: int|
        0 <= r < starts.len() ==> {
            &&& starts[r] <= #[trigger] row_end(data.len(), starts, r) <= data.len()
            &&& offsets_wf((row_end(data.len(), starts, r) - starts[r]) as nat, window(rel, opr, r))
        }
}

pub open spec fn arena_row(data: Seq<u8>, starts: Seq<usize>, rel: Seq<usize>, opr: nat, r: int) -> Seq<Seq<u8>> {
    split_columns(data.subrange(starts[r] as int, row_end(data.len(), starts, r)), window(rel, opr, r))
}

pub open spec fn arena_rows(data: Seq<u8>, starts: Seq<usize>, rel: Seq<usize>, opr: nat) -> Seq<Seq<Seq<u8>>> {
    Seq::new(starts.len(), |r: int| arena_row(data, starts, rel, opr, r))
}

proof fn lemma_window_bounds(r: int, n: int, opr: int)
    requires
        0 <= r < n,
        opr >= 1,
    ensures
        0 <= r * opr,
        r * opr + opr <= n * opr,
{
    assert(0 <= r * opr) by (nonlinear_arith)
        requires
            0 <= r,
            opr >= 1,
    ;
    assert(r * opr + opr <= n * opr) by (nonlinear_arith)
        requires
            r < n,
            opr >= 1,
    ;
}

proof fn lemma_push_row(data: Seq<u8>, starts: Seq<usize>, rel: Seq<usize>, opr: nat, bytes: Seq<u8>, w: Seq<usize>)
    requires
        arena_wf(data, starts, rel, opr),
        w.len() == opr,
        offsets_wf(bytes.len(), w),
        data.len() <= usize::MAX,
    ensures
        arena_wf(data + bytes, starts.push(data.len() as usize), rel + w, opr),
        arena_rows(data + bytes, starts.push(data.len() as usize), rel + w, opr) == arena_rows(data, starts, rel, opr).push(
            split_columns(bytes, w),
        ),
{
    let d2 = data + bytes;
    let s2 = starts.push(data.len() as usize);
    let r2 = rel + w;
    let n = starts.len() as int;
    assert(r2.len() == s2.len() * opr) by (nonlinear_arith)
        requires
            r2.len() == rel.len() + opr,
            rel.len() == n * opr,
            s2.len() == n + 1,
    ;
    assert forall|r: int| 0 <= r < s2.len() implies {
        &&& s2[r] <= #[trigger] row_end(d2.len(), s2, r) <= d2.len()
        &&& offsets_wf((row_end(d2.len(), s2, r) - s2[r]) as nat, window(r2, opr, r))
        &&& arena_row(d2, s2, r2, opr, r) == if r < n {
            arena_row(data, starts, rel, opr, r)
        } else {
            split_columns(bytes, w)
        }
    } by {
        if r < n {
            lemma_window_bounds(r, n, opr as int);
            assert(row_end(data.len(), starts, r) <= data.len());
            assert(row_end(d2.len(), s2, r) == row_end(data.len(), starts, r));
            assert(window(r2, opr, r) =~= window(rel, opr, r));
            assert(d2.subrange(s2[r] as int, row_end(d2.len(), s2, r)) =~= data.subrange(
                starts[r] as int,
                row_end(data.len(), starts, r),
            ));
        } else {
            assert(r * opr == n * opr);
            assert(window(r2, opr, r) =~= w);
            assert(d2.subrange(s2[r] as int, row_end(d2.len(), s2, r)) =~= bytes);
        }
    }
    assert(arena_rows(d2, s2, r2, opr) =~= arena_rows(data, starts, rel, opr).push(split_columns(bytes, w)));
}

/// Rows packed back to back in one growing buffer.
pub struct InMemoryStorage {
    offsets_per_row: usize,
    data: Vec<u8>,
    relative_column_offsets: Vec<usize>,
    row_data_starts: Vec<usize>,
}

impl InMemoryStorage {
    pub closed spec fn wf(&self) -> bool {
        arena_wf(self.data@, self.row_data_starts@, self.relative_column_offsets@, self.offsets_per_row as nat)
    }

    pub closed spec fn rows(&self) -> Seq<Seq<Seq<u8>>> {
        arena_rows(self.data@, self.row_data_starts@, self.relative_column_offsets@, self.offsets_per_row as nat)
    }

    /// Number of columns of each row.
    pub closed spec fn column_count(&self) -> nat {
        (self.offsets_per_row - 1) as nat
    }

    pub proof fn lemma_row_widths(&self)
        requires
            self.wf(),
        ensures
            forall|k: int| 0 <= k < self.rows().len() ==> (#[trigger] self.rows()[k]).len() == self.column_count(),
    {
        assert forall|k: int| 0 <= k < self.rows().len() implies (#[trigger] self.rows()[k]).len() == self.column_count() by {
            lemma_window_bounds(k, self.row_data_starts@.len() as int, self.offsets_per_row as int);
        }
    }

    /// An empty store for rows of `schema`.
    pub fn new(schema: Table) -> (r: Self)
        requires
            schema.columns@.len() < usize::MAX,
        ensures
            r.wf(),
            r.rows() == Seq::<Seq<Seq<u8>>>::empty(),
            r.column_count() == schema.columns@.len(),
    {
        let r = InMemoryStorage {
            offsets_per_row: schema.columns.len() + 1,
            data: Vec::new(),
            relative_column_offsets: Vec::new(),
            row_data_starts: Vec::new(),
        };
        assert(r.rows() =~= Seq::<Seq<Seq<u8>>>::empty());
        r
    }

    /// Appends a row given as its payload and its relative offsets.
    fn push_row(&mut self, bytes: &[u8], offsets: &[usize])
        requires
            old(self).wf(),
            offsets@.len() == old(self).offsets_per_row,
            offsets_wf(bytes@.len(), offsets@),
        ensures
            final(self).wf(),
            final(self).offsets_per_row == old(self).offsets_per_row,
            final(self).rows() == old(self).rows().push(split_columns(bytes@, offsets@)),
    {
        let _len = self.data.len();
        proof {
            lemma_push_row(self.data@, self.row_data_starts@, self.relative_column_offsets@,
                self.offsets_per_row as nat, bytes@, offsets@);
        }
        self.row_data_starts.push(self.data.len());
        append_bytes(&mut self.data, bytes);
        append_usizes(&mut self.relative_column_offsets, offsets);
    }

    /// Appends `rows`, each with its columns put in schema order by `column_mapping`.
    pub fn store(&mut self, rows: &[Row], column_mapping: &Vec<usize>)
        requires
            old(self).wf(),
            column_mapping@.len() == old(self).column_count(),
            rows_storable(rows@, column_mapping@),
        ensures
            final(self).wf(),
            final(self).column_count() == old(self).column_count(),
            final(self).rows() == old(self).rows() + stored_rows(rows@, column_mapping@),
    {
        let mut k: usize = 0;
        while k < rows.len()
            invariant
                k <= rows@.len(),
                self.wf(),
                column_mapping@.len() == self.column_count(),
                self.offsets_per_row == old(self).offsets_per_row,
                rows_storable(rows@, column_mapping@),
                self.rows() == old(self).rows() + stored_rows(rows@, column_mapping@).take(k as int),
            decreases rows@.len() - k,
        {
            let (bytes, offsets) = schema_ordered(&rows[k], column_mapping);
            self.push_row(bytes.as_slice(), offsets.as_slice());
            assert(stored_rows(rows@, column_mapping@).take(k + 1) =~= stored_rows(rows@, column_mapping@).take(
                k as int,
            ).push(permuted(rows@[k as int].columns(), column_mapping@)));
            k = k + 1;
        }
        assert(stored_rows(rows@, column_mapping@).take(k as int) =~= stored_rows(rows@, column_mapping@));
    }

    /// Row `row_id` as a scan presents it, if there is such a row.
    fn get_row_content(&self, row_id: RowId) -> (r: Option<RowContent>)
        requires
            self.wf(),
        ensures
            row_id < self.rows().len() <==> r.is_some(),
            r matches Some(c) ==> c.wf() && c.columns() == self.rows()[row_id as int] && c.offsets@.len()
                == self.offsets_per_row,
    {
        let n = self.row_data_starts.len();
        let _m = self.relative_column_offsets.len();
        if row_id < n {
            let start = self.row_data_starts[row_id];
            let end = if row_id + 1 < n {
                self.row_data_starts[row_id + 1]
            } else {
                self.data.len()
            };
            assert(end == row_end(self.data@.len(), self.row_data_starts@, row_id as int));
            let data = vstd::slice::slice_subrange(self.data.as_slice(), start, end);
            proof {
                lemma_window_bounds(row_id as int, n as int, self.offsets_per_row as int);
            }
            let offsets_start = row_id * self.offsets_per_row;
            let offsets_end = offsets_start + self.offsets_per_row;
            let window_slice = vstd::slice::slice_subrange(
                self.relative_column_offsets.as_slice(),
                offsets_start,
                offsets_end,
            );
            let offsets = copy_usizes(window_slice);
            Some(RowContent { data, offsets })
        } else {
            None
        }
    }

    /// Every row, under its index.
    pub fn scan(&self) -> (r: TableIterator)
        requires
            self.wf(),
        ensures
            scan_matches(r.items@, self.rows(), dense_ids(self.rows().len())),
    {
        let mut items: Vec<ScanItem> = Vec::new();
        let n = self.row_data_starts.len();
        let mut row_id: usize = 0;
        while row_id < n
            invariant
                self.wf(),
                n == self.rows().len(),
                row_id <= n,
                scan_matches(items@, self.rows().take(row_id as int), dense_ids(row_id as nat)),
            decreases n - row_id,
        {
            let row_content = self.get_row_content(row_id).unwrap();
            items.push(ScanItem { row_id, row_content });
            row_id = row_id + 1;
        }
        assert(self.rows().take(n as int) =~= self.rows());
        TableIterator::new(items)
    }

    /// Removes the rows whose indices are in `row_ids`; indices out of range
    /// are ignored, and the remaining rows are renumbered from 0.
    pub fn delete_rows(&mut self, row_ids: Vec<RowId>)
        requires
            old(self).wf(),
        ensures
            final(self).wf(),
            final(self).column_count() == old(self).column_count(),
            final(self).rows() == kept(old(self).rows(), dense_ids(old(self).rows().len()), row_ids@),
    {
        let n = self.row_data_starts.len();
        let ghost old_rows = self.rows();
        let ghost ids = dense_ids(n as nat);
        let mut marks: Vec<bool> = Vec::with_capacity(n);
        let mut i: usize = 0;
        while i < n
            invariant
                i <= n,
                marks@.len() == i,
                forall|r: int| 0 <= r < i ==> !#[trigger] marks@[r],
            decreases n - i,
        {
            marks.push(false);
            i = i + 1;
        }
        let mut j: usize = 0;
        while j < row_ids.len()
            invariant
                j <= row_ids@.len(),
                marks@.len() == n,
                forall|r: int| 0 <= r < n ==> #[trigger] marks@[r] == (exists|q: int| 0 <= q < j && #[trigger] row_ids@[q] == r as usize),
            decreases row_ids@.len() - j,
        {
            let id = row_ids[j];
            if id < n {
                marks.set(id, true);
            }
            j = j + 1;
        }
        let mut kept_store = InMemoryStorage {
            offsets_per_row: self.offsets_per_row,
            data: Vec::new(),
            relative_column_offsets: Vec::new(),
            row_data_starts: Vec::new(),
        };
        assert(kept_store.rows() =~= Seq::<Seq<Seq<u8>>>::empty());
        let mut r: usize = 0;
        while r < n
            invariant
                self.wf(),
                self.rows() == old_rows,
                n == old_rows.len(),
                ids == dense_ids(n as nat),
                r <= n,
                marks@.len() == n,
                forall|q: int| 0 <= q < n ==> #[trigger] marks@[q] == row_ids@.contains(q as usize),
                kept_store.wf(),
                kept_store.offsets_per_row == self.offsets_per_row,
                kept_store.rows() == kept_prefix(old_rows, ids, row_ids@, r as int),
            decreases n - r,
        {
            if !marks[r] {
                let content = self.get_row_content(r).unwrap();
                kept_store.push_row(content.data, content.offsets.as_slice());
            }
            assert(ids[r as int] == r as usize);
            r = r + 1;
        }
        *self = kept_store;
    }
}

/// One record of the log as it was written.
pub ghost struct LogRecord {
    pub live: bool,
    pub payload: Seq<u8>,
    pub offsets: Seq<usize>,
}

/// Eight bytes, little-endian.
pub open spec fn le64(x: usize) -> Seq<u8> {
    spec_u64_to_le_bytes(x as u64)
}

pub open spec fn le64_all(xs: Seq<usize>) -> Seq<u8>
    decreases xs.len(),
{
    if xs.len() == 0 {
        Seq::empty()
    } else {
        le64_all(xs.drop_last()) + le64(xs.last())
    }
}

/// Magic "RDBI", then the number of offsets per row.
pub open spec fn log_header(opr: usize) -> Seq<u8> {
    seq![0x52u8, 0x44u8, 0x42u8, 0x49u8] + le64(opr)
}

/// Tombstone byte (0 live, 1 deleted), offsets, payload length, payload.
pub open spec fn encode_record(rec: LogRecord) -> Seq<u8> {
    seq![if rec.live { 0u8 } else { 1u8 }] + le64_all(rec.offsets) + le64(rec.payload.len() as usize) + rec.payload
}

pub open spec fn encode_log(recs: Seq<LogRecord>) -> Seq<u8>
    decreases recs.len(),
{
    if recs.len() == 0 {
        Seq::empty()
    } else {
        encode_log(recs.drop_last()) + encode_record(recs.last())
    }
}

/// The columns back to back.
pub open spec fn concat_columns(cols: Seq<Seq<u8>>) -> Seq<u8>
    decreases cols.len(),
{
    if cols.len() == 0 {
        Seq::empty()
    } else {
        concat_columns(cols.drop_last()) + cols.last()
    }
}

/// The offset at which each column starts, then the end of the last one:
/// 0 and the running sums of the column sizes.
pub open spec fn running_offsets(cols: Seq<Seq<u8>>) -> Seq<usize>
    decreases cols.len(),
{
    if cols.len() == 0 {
        seq![0usize]
    } else {
        running_offsets(cols.drop_last()).push(concat_columns(cols).len() as usize)
    }
}

/// The record written for a row whose columns, in schema order, are `cols`:
/// live, the columns back to back, and their running offsets.
pub open spec fn stored_record(cols: Seq<Seq<u8>>) -> LogRecord {
    LogRecord { live: true, payload: concat_columns(cols), offsets: running_offsets(cols) }
}

/// The records written for `rows`, each with its columns in schema order.
pub open spec fn stored_records(rows: Seq<Row>, map: Seq<usize>) -> Seq<LogRecord> {
    Seq::new(rows.len(), |k: int| stored_record(permuted(rows[k].columns(), map)))
}

/// Columns of the live records among the first `n`.
pub open spec fn live_rows(recs: Seq<LogRecord>, n: int) -> Seq<Seq<Seq<u8>>>
    decreases n,
{
    if n <= 0 {
        Seq::empty()
    } else if recs[n - 1].live {
        live_rows(recs, n - 1).push(split_columns(recs[n - 1].payload, recs[n - 1].offsets))
    } else {
        live_rows(recs, n - 1)
    }
}

pub open spec fn records_wf(recs: Seq<LogRecord>, opr: nat) -> bool {
    forall|k: int|
        0 <= k < recs.len() ==> {
            &&& (#[trigger] recs[k]).offsets.len() == opr
            &&& offsets_wf(recs[k].payload.len(), recs[k].offsets)
        }
}

proof fn lemma_le64(x: usize)
    ensures
        le64(x).len() == 8,
        spec_u64_from_le_bytes(le64(x)) == x as u64,
{
    lemma_auto_spec_u64_to_from_le_bytes();
}

proof fn lemma_le64_all(xs: Seq<usize>)
    ensures
        le64_all(xs).len() == 8 * xs.len(),
        forall|i: int| 0 <= i < xs.len() ==> #[trigger] le64_all(xs).subrange(8 * i, 8 * i + 8) == le64(xs[i]),
    decreases xs.len(),
{
    if xs.len() > 0 {
        let p = xs.drop_last();
        lemma_le64_all(p);
        lemma_le64(xs.last());
        assert forall|i: int| 0 <= i < xs.len() implies #[trigger] le64_all(xs).subrange(8 * i, 8 * i + 8) == le64(
            xs[i],
        ) by {
            if i < p.len() {
                assert(le64_all(p).subrange(8 * i, 8 * i + 8) == le64(p[i]));
                assert(le64_all(xs).subrange(8 * i, 8 * i + 8) =~= le64_all(p).subrange(8 * i, 8 * i + 8));
            } else {
                assert(le64_all(xs).subrange(8 * i, 8 * i + 8) =~= le64(xs.last()));
            }
        }
    }
}

proof fn lemma_encode_record_len(rec: LogRecord)
    ensures
        encode_record(rec).len() == 1 + 8 * rec.offsets.len() + 8 + rec.payload.len(),
{
    lemma_le64_all(rec.offsets);
    lemma_le64(rec.payload.len() as usize);
}

proof fn lemma_log_prefix(recs: Seq<LogRecord>, j: int)
    requires
        0 <= j <= recs.len(),
    ensures
        encode_log(recs.take(j)).len() <= encode_log(recs).len(),
        encode_log(recs).subrange(0, encode_log(recs.take(j)).len() as int) == encode_log(recs.take(j)),
    decreases recs.len() - j,
{
    if j == recs.len() {
        assert(recs.take(j) == recs);
        assert(encode_log(recs).subrange(0, encode_log(recs).len() as int) =~= encode_log(recs));
    } else {
        lemma_log_prefix(recs, j + 1);
        assert(recs.take(j + 1).drop_last() == recs.take(j));
        let a = encode_log(recs.take(j));
        let b = encode_log(recs.take(j + 1));
        assert(b.subrange(0, a.len() as int) =~= a);
        assert(encode_log(recs).subrange(0, a.len() as int) =~= b.subrange(0, a.len() as int));
    }
}

proof fn lemma_record_at(recs: Seq<LogRecord>, k: int)
    requires
        0 <= k < recs.len(),
    ensures
        encode_log(recs.take(k + 1)) == encode_log(recs.take(k)) + encode_record(recs[k]),
        encode_log(recs.take(k + 1)).len() <= encode_log(recs).len(),
        encode_log(recs).subrange(
            encode_log(recs.take(k)).len() as int,
            encode_log(recs.take(k + 1)).len() as int,
        ) == encode_record(recs[k]),
{
    assert(recs.take(k + 1).drop_last() =~= recs.take(k));
    assert(recs.take(k + 1).last() == recs[k]);
    lemma_log_prefix(recs, k + 1);
    let a = encode_log(recs.take(k));
    let b = encode_log(recs.take(k + 1));
    assert(encode_log(recs).subrange(a.len() as int, b.len() as int) =~= b.subrange(a.len() as int, b.len() as int));
    assert(b.subrange(a.len() as int, b.len() as int) =~= encode_record(recs[k]));
}

proof fn lemma_log_len(recs: Seq<LogRecord>)
    ensures
        encode_log(recs).len() >= recs.len(),
    decreases recs.len(),
{
    if recs.len() > 0 {
        lemma_log_len(recs.drop_last());
    }
}

proof fn lemma_log_tombstone(recs: Seq<LogRecord>, k: int)
    requires
        0 <= k < recs.len(),
    ensures
        encode_log(recs.update(k, LogRecord { live: false, ..recs[k] })) == encode_log(recs).update(
            encode_log(recs.take(k)).len() as int,
            1u8,
        ),
    decreases recs.len(),
{
    let dead = LogRecord { live: false, ..recs[k] };
    let u = recs.update(k, dead);
    let p = recs.drop_last();
    assert(encode_record(dead) =~= encode_record(recs[k]).update(0, 1u8));
    if k == recs.len() - 1 {
        assert(u.drop_last() =~= p);
        assert(recs.take(k) =~= p);
        assert(encode_log(u) =~= encode_log(recs).update(encode_log(recs.take(k)).len() as int, 1u8));
    } else {
        lemma_log_tombstone(p, k);
        assert(u.drop_last() =~= p.update(k, dead));
        assert(u.last() == recs.last());
        assert(p.take(k) =~= recs.take(k));
        lemma_record_at(p, k);
        assert(encode_log(u) =~= encode_log(recs).update(encode_log(recs.take(k)).len() as int, 1u8));
    }
}

proof fn lemma_live_prefix(recs: Seq<LogRecord>, n: int, m: int)
    requires
        0 <= n <= m <= recs.len(),
    ensures
        live_rows(recs.take(m), n) == live_rows(recs, n),
    decreases n,
{
    if n > 0 {
        lemma_live_prefix(recs, n - 1, m);
    }
}

proof fn lemma_kept_prefix_same<T>(r1: Seq<T>, i1: Seq<usize>, r2: Seq<T>, i2: Seq<usize>, del: Seq<usize>, m: int)
    requires
        0 <= m <= r1.len(),
        m <= r2.len(),
        m <= i1.len(),
        m <= i2.len(),
        r1.take(m) == r2.take(m),
        i1.take(m) == i2.take(m),
    ensures
        kept_prefix(r1, i1, del, m) == kept_prefix(r2, i2, del, m),
    decreases m,
{
    if m > 0 {
        assert(r1[m - 1] == r1.take(m)[m - 1]);
        assert(r2[m - 1] == r2.take(m)[m - 1]);
        assert(i1[m - 1] == i1.take(m)[m - 1]);
        assert(i2[m - 1] == i2.take(m)[m - 1]);
        assert(r1.take(m - 1) =~= r1.take(m).take(m - 1));
        assert(r2.take(m - 1) =~= r2.take(m).take(m - 1));
        assert(i1.take(m - 1) =~= i1.take(m).take(m - 1));
        assert(i2.take(m - 1) =~= i2.take(m).take(m - 1));
        lemma_kept_prefix_same(r1, i1, r2, i2, del, m - 1);
    }
}

/// Tombstoning the live records whose index among the live records is in
/// `del` keeps exactly the rows whose index is not in `del`.
proof fn lemma_tombstones_keep(old_recs: Seq<LogRecord>, new_recs: Seq<LogRecord>, del: Seq<usize>, n: int)
    requires
        0 <= n <= old_recs.len(),
        old_recs.len() <= usize::MAX,
        old_recs.len() == new_recs.len(),
        forall|k: int|
            0 <= k < old_recs.len() ==> {
                &&& (#[trigger] new_recs[k]).payload == old_recs[k].payload
                &&& new_recs[k].offsets == old_recs[k].offsets
                &&& new_recs[k].live == (old_recs[k].live && !del.contains(
                    live_rows(old_recs, k).len() as usize,
                ))
            },
    ensures
        live_rows(new_recs, n) == kept(live_rows(old_recs, n), dense_ids(live_rows(old_recs, n).len()), del),
    decreases n,
{
    if n > 0 {
        lemma_tombstones_keep(old_recs, new_recs, del, n - 1);
        lemma_live_len(old_recs, n);
        let rows0 = live_rows(old_recs, n - 1);
        let rows1 = live_rows(old_recs, n);
        let m = rows0.len() as int;
        if old_recs[n - 1].live {
            assert(rows1.take(m) =~= rows0.take(m));
            assert(dense_ids(rows1.len()).take(m) =~= dense_ids(rows0.len()).take(m));
            lemma_kept_prefix_same(rows1, dense_ids(rows1.len()), rows0, dense_ids(rows0.len()), del, m);
            assert(rows0.take(m) =~= rows0);
            assert(dense_ids(rows1.len())[m] == m as usize);
        } else {
            assert(rows1 == rows0);
        }
    }
}

proof fn lemma_live_widths(recs: Seq<LogRecord>, n: int, opr: nat)
    requires
        0 <= n <= recs.len(),
        records_wf(recs, opr),
        opr >= 1,
    ensures
        forall|k: int| 0 <= k < live_rows(recs, n).len() ==> (#[trigger] live_rows(recs, n)[k]).len() == opr - 1,
    decreases n,
{
    if n > 0 {
        lemma_live_widths(recs, n - 1, opr);
        assert(recs[n - 1].offsets.len() == opr);
        let prev = live_rows(recs, n - 1);
        assert forall|k: int| 0 <= k < live_rows(recs, n).len() implies (#[trigger] live_rows(recs, n)[k]).len()
            == opr - 1 by {
            if k < prev.len() {
                assert(live_rows(recs, n)[k] == prev[k]);
            }
        }
    }
}

proof fn lemma_live_len(recs: Seq<LogRecord>, n: int)
    requires
        0 <= n <= recs.len(),
    ensures
        live_rows(recs, n).len() <= n,
    decreases n,
{
    if n > 0 {
        lemma_live_len(recs, n - 1);
    }
}

/// An append-only log of records with tombstones, kept as the bytes of the
/// file at `path`. A row is identified by its index among the live records.
pub struct DiskStorage {
    path: String,
    offsets_per_row: usize,
    image: Vec<u8>,
    record_count: usize,
    records: Ghost<Seq<LogRecord>>,
}

impl DiskStorage {
    pub closed spec fn wf(&self) -> bool {
        &&& self.offsets_per_row >= 1
        &&& self.image@ == log_header(self.offsets_per_row) + encode_log(self.records@)
        &&& self.record_count == self.records@.len()
        &&& records_wf(self.records@, self.offsets_per_row as nat)
    }

    pub closed spec fn rows(&self) -> Seq<Seq<Seq<u8>>> {
        live_rows(self.records@, self.records@.len() as int)
    }

    pub closed spec fn column_count(&self) -> nat {
        (self.offsets_per_row - 1) as nat
    }

    /// The records of the log, dead ones included, in the order written.
    pub closed spec fn records(&self) -> Seq<LogRecord> {
        self.records@
    }

    /// The log file is the header and then every record, and the rows are
    /// the columns of the live records, in order.
    pub proof fn lemma_log_layout(&self)
        requires
            self.wf(),
        ensures
            self.file_bytes() == log_header((self.column_count() + 1) as usize) + encode_log(self.records()),
            self.rows() == live_rows(self.records(), self.records().len() as int),
            records_wf(self.records(), self.column_count() + 1),
    {
    }

    /// The bytes of the log file.
    pub closed spec fn file_bytes(&self) -> Seq<u8> {
        self.image@
    }

    /// Path of the log file.
    pub closed spec fn file_path(&self) -> Seq<char> {
        self.path@
    }

    pub proof fn lemma_row_widths(&self)
        requires
            self.wf(),
        ensures
            forall|k: int| 0 <= k < self.rows().len() ==> (#[trigger] self.rows()[k]).len() == self.column_count(),
    {
        lemma_live_widths(self.records@, self.records@.len() as int, self.offsets_per_row as nat);
    }

    /// A log at `path` for rows of `schema`, holding the header and no record.
    pub fn new(schema: Table, path: &str) -> (r: Self)
        requires
            schema.columns@.len() < usize::MAX,
        ensures
            r.wf(),
            r.rows() == Seq::<Seq<Seq<u8>>>::empty(),
            r.column_count() == schema.columns@.len(),
            r.file_path() == path@,
            r.file_bytes() == log_header((schema.columns@.len() + 1) as usize),
    {
        let offsets_per_row = schema.columns.len() + 1;
        let mut image: Vec<u8> = Vec::new();
        image.push(0x52u8);
        image.push(0x44u8);
        image.push(0x42u8);
        image.push(0x49u8);
        let count_bytes = u64_to_le_bytes(offsets_per_row as u64);
        append_bytes(&mut image, count_bytes.as_slice());
        let r = DiskStorage {
            path: path.to_owned(),
            offsets_per_row,
            image,
            record_count: 0,
            records: Ghost(Seq::empty()),
        };
        assert(r.image@ =~= log_header(offsets_per_row) + encode_log(Seq::<LogRecord>::empty()));
        r
    }

    /// The bytes of the log file.
    pub fn image(&self) -> (r: &[u8])
        ensures
            r@ == self.file_bytes(),
    {
        self.image.as_slice()
    }

    /// Path of the log file.
    pub fn path(&self) -> (r: &str)
        ensures
            r@ == self.file_path(),
    {
        self.path.as_str()
    }

    /// Reads record `k`, which starts at `pos`: its tombstone, its offsets,
    /// and where its payload starts.
    fn read_record(&self, pos: usize, k: Ghost<int>) -> (r: (u8, Vec<usize>, usize))
        requires
            self.wf(),
            0 <= k@ < self.records@.len(),
            pos == log_header(self.offsets_per_row).len() + encode_log(self.records@.take(k@)).len(),
        ensures
            r.0 == (if self.records@[k@].live { 0u8 } else { 1u8 }),
            r.1@ == self.records@[k@].offsets,
            r.2 == pos + 1 + 8 * self.offsets_per_row + 8,
            r.2 + self.records@[k@].payload.len() == log_header(self.offsets_per_row).len() + encode_log(
                self.records@.take(k@ + 1),
            ).len(),
            self.image@.subrange(r.2 as int, r.2 + self.records@[k@].payload.len()) == self.records@[k@].payload,
            r.2 + self.records@[k@].payload.len() <= self.image@.len(),
            pos < self.image@.len(),
            self.image@[pos as int] == encode_record(self.records@[k@])[0],
    {
        let ghost recs = self.records@;
        let ghost rec = recs[k@];
        let ghost h = log_header(self.offsets_per_row);
        let ghost enc = encode_record(rec);
        let _len = self.image.len();
        proof {
            lemma_le64(self.offsets_per_row);
            lemma_record_at(recs, k@);
            lemma_encode_record_len(rec);
            lemma_le64_all(rec.offsets);
            lemma_le64(rec.payload.len() as usize);
            assert(self.image@.subrange(pos as int, pos + enc.len()) =~= enc) by {
                let a = encode_log(recs.take(k@));
                let b = encode_log(recs.take(k@ + 1));
                assert(self.image@.subrange(pos as int, pos + enc.len()) =~= encode_log(recs).subrange(
                    a.len() as int,
                    b.len() as int,
                ));
            }
            assert(self.image@[pos as int] == self.image@.subrange(pos as int, pos + enc.len())[0]);
        }
        let opr = self.offsets_per_row;
        let tombstone = self.image[pos];
        assert(tombstone == enc[0]);
        let mut offsets: Vec<usize> = Vec::with_capacity(opr);
        let base = pos + 1;
        let mut i: usize = 0;
        while i < opr
            invariant
                i <= opr,
                opr == self.offsets_per_row,
                rec.offsets.len() == opr,
                base == pos + 1,
                pos + enc.len() <= self.image@.len(),
                self.image@.len() <= usize::MAX,
                enc.len() == 1 + 8 * opr + 8 + rec.payload.len(),
                self.image@.subrange(pos as int, pos + enc.len()) == enc,
                enc == encode_record(rec),
                le64_all(rec.offsets).len() == 8 * opr,
                forall|q: int| 0 <= q < opr ==> #[trigger] le64_all(rec.offsets).subrange(8 * q, 8 * q + 8) == le64(rec.offsets[q]),
                offsets@ == rec.offsets.take(i as int),
            decreases opr - i,
        {
            let at = base + 8 * i;
            let chunk = vstd::slice::slice_subrange(self.image.as_slice(), at, at + 8);
            proof {
                assert(chunk@ =~= le64_all(rec.offsets).subrange(8 * i, 8 * i + 8)) by {
                    assert(chunk@ =~= enc.subrange(1 + 8 * i, 1 + 8 * i + 8));
                }
                lemma_le64(rec.offsets[i as int]);
            }
            let value = u64_from_le_bytes(chunk);
            offsets.push(value as usize);
            assert(offsets@ =~= rec.offsets.take(i + 1));
            i = i + 1;
        }
        assert(rec.offsets.take(i as int) =~= rec.offsets);
        let len_at = base + 8 * opr;
        let payload_start = len_at + 8;
        proof {
            assert(self.image@.subrange(payload_start as int, payload_start + rec.payload.len()) =~= enc.subrange(
                1 + 8 * opr + 8,
                enc.len() as int,
            ));
        }
        (tombstone, offsets, payload_start)
    }

    /// Appends one record per row, each with its columns put in schema order
    /// by `column_mapping`.
    pub fn store(&mut self, rows: &[Row], column_mapping: &Vec<usize>)
        requires
            old(self).wf(),
            column_mapping@.len() == old(self).column_count(),
            rows_storable(rows@, column_mapping@),
        ensures
            final(self).wf(),
            final(self).column_count() == old(self).column_count(),
            final(self).file_path() == old(self).file_path(),
            final(self).rows() == old(self).rows() + stored_rows(rows@, column_mapping@),
            final(self).records() == old(self).records() + stored_records(rows@, column_mapping@),
            final(self).file_bytes() == old(self).file_bytes() + encode_log(stored_records(rows@, column_mapping@)),
    {
        let ghost written = stored_records(rows@, column_mapping@);
        assert(written.take(0) =~= Seq::<LogRecord>::empty());
        assert(old(self).records@ + written.take(0) =~= old(self).records@);
        assert(old(self).image@ + encode_log(written.take(0)) =~= old(self).image@);
        let mut k: usize = 0;
        while k < rows.len()
            invariant
                k <= rows@.len(),
                self.wf(),
                written == stored_records(rows@, column_mapping@),
                self.records@ == old(self).records@ + written.take(k as int),
                self.image@ == old(self).image@ + encode_log(written.take(k as int)),
                column_mapping@.len() == self.column_count(),
                self.offsets_per_row == old(self).offsets_per_row,
                self.path == old(self).path,
                rows_storable(rows@, column_mapping@),
                self.rows() == old(self).rows() + stored_rows(rows@, column_mapping@).take(k as int),
            decreases rows@.len() - k,
        {
            let (bytes, offsets) = schema_ordered(&rows[k], column_mapping);
            let ghost rec = LogRecord { live: true, payload: bytes@, offsets: offsets@ };
            let ghost before = self.image@;
            let ghost recs = self.records@;
            assert(self.record_count == recs.len());
            assert(rec.offsets.len() == self.offsets_per_row);
            assert(offsets_wf(rec.payload.len(), rec.offsets));
            let mut encoded: Vec<u8> = Vec::new();
            encoded.push(0u8);
            let mut i: usize = 0;
            while i < offsets.len()
                invariant
                    i <= offsets@.len(),
                    encoded@ == seq![0u8] + le64_all(offsets@.take(i as int)),
                decreases offsets@.len() - i,
            {
                let b = u64_to_le_bytes(offsets[i] as u64);
                append_bytes(&mut encoded, b.as_slice());
                assert(offsets@.take(i + 1).drop_last() =~= offsets@.take(i as int));
                i = i + 1;
            }
            assert(offsets@.take(i as int) =~= offsets@);
            let b = u64_to_le_bytes(bytes.len() as u64);
            append_bytes(&mut encoded, b.as_slice());
            append_bytes(&mut encoded, bytes.as_slice());
            assert(encoded@ =~= encode_record(rec));
            append_bytes(&mut self.image, encoded.as_slice());
            proof {
                lemma_log_len(recs);
                lemma_le64(self.offsets_per_row);
            }
            let _l = self.image.len();
            assert(self.image@.len() > recs.len());
            self.records = Ghost(recs.push(rec));
            self.record_count = self.record_count + 1;
            proof {
                assert(self.records@.drop_last() =~= recs);
                assert(self.records@.last() == rec);
                assert(records_wf(self.records@, self.offsets_per_row as nat)) by {
                    assert forall|q: int| 0 <= q < self.records@.len() implies {
                        &&& (#[trigger] self.records@[q]).offsets.len() == self.offsets_per_row as nat
                        &&& offsets_wf(self.records@[q].payload.len(), self.records@[q].offsets)
                    } by {
                        if q < recs.len() {
                            assert(self.records@[q] == recs[q]);
                        } else {
                            assert(self.records@[q] == rec);
                        }
                    }
                }
                assert(self.image@ =~= log_header(self.offsets_per_row) + encode_log(self.records@));
                lemma_live_prefix(self.records@, recs.len() as int, recs.len() as int);
                assert(self.records@.take(recs.len() as int) =~= recs);
                assert(stored_rows(rows@, column_mapping@).take(k + 1) =~= stored_rows(rows@, column_mapping@).take(
                    k as int,
                ).push(permuted(rows@[k as int].columns(), column_mapping@)));
                assert(rec == written[k as int]);
                assert(written.take(k + 1).drop_last() =~= written.take(k as int));
                assert(written.take(k + 1).last() == rec);
                assert(self.records@ =~= old(self).records@ + written.take(k + 1));
                assert(self.image@ =~= old(self).image@ + encode_log(written.take(k + 1)));
            }
            k = k + 1;
        }
        assert(stored_rows(rows@, column_mapping@).take(k as int) =~= stored_rows(rows@, column_mapping@));
        assert(written.take(k as int) =~= written);
    }

    /// Every live record, under its index among the live records.
    pub fn scan(&self) -> (r: TableIterator)
        requires
            self.wf(),
        ensures
            scan_matches(r.items@, self.rows(), dense_ids(self.rows().len())),
    {
        let mut items: Vec<ScanItem> = Vec::new();
        let _l = self.image.len();
        let mut pos: usize = 4 + 8;
        let mut live: usize = 0;
        let mut k: usize = 0;
        proof {
            lemma_le64(self.offsets_per_row);
            assert(self.records@.take(0) =~= Seq::<LogRecord>::empty());
        }
        while k < self.record_count
            invariant
                self.wf(),
                self.image@.len() <= usize::MAX,
                k <= self.records@.len(),
                pos == log_header(self.offsets_per_row).len() + encode_log(self.records@.take(k as int)).len(),
                live == live_rows(self.records@, k as int).len(),
                scan_matches(items@, live_rows(self.records@, k as int), dense_ids(live as nat)),
            decreases self.records@.len() - k,
        {
            let (tombstone, offsets, payload_start) = self.read_record(pos, Ghost(k as int));
            let ghost rec = self.records@[k as int];
            proof {
                assert(records_wf(self.records@, self.offsets_per_row as nat));
                assert(rec.offsets.len() == self.offsets_per_row);
            }
            let payload_end = payload_start + offsets[offsets.len() - 1];
            proof {
                assert(self.records@.take(k + 1).drop_last() =~= self.records@.take(k as int));
            }
            if tombstone == 0 {
                let data = vstd::slice::slice_subrange(self.image.as_slice(), payload_start, payload_end);
                proof {
                    lemma_live_len(self.records@, k as int);
                }
                items.push(ScanItem { row_id: live, row_content: RowContent { data, offsets } });
                assert(items@.last().row_content.columns() == split_columns(rec.payload, rec.offsets));
                live = live + 1;
            }
            pos = payload_end;
            k = k + 1;
        }
        assert(self.records@.take(k as int) =~= self.records@);
        TableIterator::new(items)
    }

    /// Stamps a tombstone on each live record whose index among the live
    /// records is in `row_ids`; indices past the end are ignored. No byte of
    /// the log moves.
    pub fn delete_rows(&mut self, row_ids: Vec<RowId>)
        requires
            old(self).wf(),
        ensures
            final(self).wf(),
            final(self).column_count() == old(self).column_count(),
            final(self).file_path() == old(self).file_path(),
            final(self).rows() == kept(old(self).rows(), dense_ids(old(self).rows().len()), row_ids@),
            final(self).file_bytes().len() == old(self).file_bytes().len(),
            final(self).records().len() == old(self).records().len(),
            forall|k: int|
                0 <= k < old(self).records().len() ==> {
                    &&& (#[trigger] final(self).records()[k]).payload == old(self).records()[k].payload
                    &&& final(self).records()[k].offsets == old(self).records()[k].offsets
                    &&& final(self).records()[k].live == (old(self).records()[k].live && !row_ids@.contains(
                        live_rows(old(self).records(), k).len() as usize,
                    ))
                },
    {
        let n = self.record_count;
        let ghost old_recs = self.records@;
        let mut marks: Vec<bool> = Vec::with_capacity(n);
        let mut i: usize = 0;
        while i < n
            invariant
                i <= n,
                marks@.len() == i,
                forall|r: int| 0 <= r < i ==> !#[trigger] marks@[r],
            decreases n - i,
        {
            marks.push(false);
            i = i + 1;
        }
        let mut j: usize = 0;
        while j < row_ids.len()
            invariant
                j <= row_ids@.len(),
                marks@.len() == n,
                forall|r: int| 0 <= r < n ==> #[trigger] marks@[r] == (exists|q: int| 0 <= q < j && #[trigger] row_ids@[q] == r as usize),
            decreases row_ids@.len() - j,
        {
            let id = row_ids[j];
            if id < n {
                marks.set(id, true);
            }
            j = j + 1;
        }
        let _l = self.image.len();
        let mut pos: usize = 4 + 8;
        let mut live: usize = 0;
        let mut k: usize = 0;
        proof {
            lemma_le64(self.offsets_per_row);
            assert(self.records@.take(0) =~= Seq::<LogRecord>::empty());
        }
        while k < n
            invariant
                self.wf(),
                self.image@.len() == _l,
                n == self.records@.len(),
                n == old_recs.len(),
                self.offsets_per_row == old(self).offsets_per_row,
                self.path == old(self).path,
                k <= n,
                marks@.len() == n,
                forall|q: int| 0 <= q < n ==> #[trigger] marks@[q] == row_ids@.contains(q as usize),
                pos == log_header(self.offsets_per_row).len() + encode_log(self.records@.take(k as int)).len(),
                live == live_rows(old_recs, k as int).len(),
                forall|q: int|
                    0 <= q < n ==> {
                        &&& (#[trigger] self.records@[q]).payload == old_recs[q].payload
                        &&& self.records@[q].offsets == old_recs[q].offsets
                        &&& self.records@[q].live == if q < k {
                            old_recs[q].live && !row_ids@.contains(live_rows(old_recs, q).len() as usize)
                        } else {
                            old_recs[q].live
                        }
                    },
            decreases n - k,
        {
            let (tombstone, offsets, payload_start) = self.read_record(pos, Ghost(k as int));
            proof {
                assert(records_wf(self.records@, self.offsets_per_row as nat));
                assert(self.records@[k as int].offsets.len() == self.offsets_per_row);
            }
            let payload_end = payload_start + offsets[offsets.len() - 1];
            proof {
                lemma_live_len(old_recs, k as int);
            }
            let stamp = tombstone == 0 && marks[live];
            if tombstone == 0 {
                live = live + 1;
            }
            if stamp {
                let ghost recs = self.records@;
                proof {
                    lemma_log_tombstone(recs, k as int);
                    lemma_log_prefix(recs, k as int);
                    lemma_le64(self.offsets_per_row);
                }
                self.image.set(pos, 1u8);
                self.records = Ghost(recs.update(k as int, LogRecord { live: false, ..recs[k as int] }));
                proof {
                    assert(self.image@ =~= log_header(self.offsets_per_row) + encode_log(self.records@));
                    assert(self.records@.take(k + 1) =~= recs.take(k + 1).update(k as int, self.records@[k as int]));
                    assert(self.records@.take(k as int) =~= recs.take(k as int));
                    lemma_encode_record_len(recs[k as int]);
                    lemma_encode_record_len(self.records@[k as int]);
                    assert(self.records@.take(k + 1).drop_last() =~= self.records@.take(k as int));
                    assert(recs.take(k + 1).drop_last() =~= recs.take(k as int));
                }
            }
            pos = payload_end;
            k = k + 1;
        }
        proof {
            lemma_tombstones_keep(old_recs, self.records@, row_ids@, n as int);
        }
    }
}

/// The storage of one table: either backend behind one contract.
pub enum Storage {
    InMemory(InMemoryStorage),
    Disk(DiskStorage),
}

impl Storage {
    pub open spec fn wf(&self) -> bool {
        match self {
            Storage::InMemory(m) => m.wf(),
            Storage::Disk(d) => d.wf(),
        }
    }

    /// The stored rows, in insertion order, each with its columns in schema order.
    pub open spec fn rows(&self) -> Seq<Seq<Seq<u8>>> {
        match self {
            Storage::InMemory(m) => m.rows(),
            Storage::Disk(d) => d.rows(),
        }
    }

    pub open spec fn column_count(&self) -> nat {
        match self {
            Storage::InMemory(m) => m.column_count(),
            Storage::Disk(d) => d.column_count(),
        }
    }

    /// Each row has one entry per column.
    pub proof fn lemma_row_widths(&self)
        requires
            self.wf(),
        ensures
            forall|k: int| 0 <= k < self.rows().len() ==> (#[trigger] self.rows()[k]).len() == self.column_count(),
    {
        match self {
            Storage::InMemory(m) => m.lemma_row_widths(),
            Storage::Disk(d) => d.lemma_row_widths(),
        }
    }

    /// Appends `rows`, each with its columns put in schema order by `column_mapping`.
    pub fn store(&mut self, rows: &[Row], column_mapping: &Vec<usize>)
        requires
            old(self).wf(),
            column_mapping@.len() == old(self).column_count(),
            rows_storable(rows@, column_mapping@),
        ensures
            final(self).wf(),
            final(self).column_count() == old(self).column_count(),
            final(self).rows() == old(self).rows() + stored_rows(rows@, column_mapping@),
    {
        match self {
            Storage::InMemory(m) => m.store(rows, column_mapping),
            Storage::Disk(d) => d.store(rows, column_mapping),
        }
    }

    /// Every row, in order, under its index in the scan.
    pub fn scan(&self) -> (r: TableIterator)
        requires
            self.wf(),
        ensures
            scan_matches(r.items@, self.rows(), dense_ids(self.rows().len())),
    {
        match self {
            Storage::InMemory(m) => m.scan(),
            Storage::Disk(d) => d.scan(),
        }
    }

    /// Removes the rows whose scan indices are in `row_ids`, in any order;
    /// indices out of range are ignored.
    pub fn delete_rows(&mut self, row_ids: Vec<RowId>)
        requires
            old(self).wf(),
        ensures
            final(self).wf(),
            final(self).column_count() == old(self).column_count(),
            final(self).rows() == kept(old(self).rows(), dense_ids(old(self).rows().len()), row_ids@),
    {
        match self {
            Storage::InMemory(m) => m.delete_rows(row_ids),
            Storage::Disk(d) => d.delete_rows(row_ids),
        }
    }
}

/// The payload and relative offsets of `row` with its columns in schema order.
fn schema_ordered(row: &Row, column_mapping: &Vec<usize>) -> (r: (Vec<u8>, Vec<usize>))
    requires
        row.wf(),
        row.offsets@.len() == column_mapping@.len() + 1,
        map_wf(column_mapping@.len(), column_mapping@),
    ensures
        r.1@.len() == column_mapping@.len() + 1,
        offsets_wf(r.0@.len(), r.1@),
        split_columns(r.0@, r.1@) == permuted(row.columns(), column_mapping@),
        r.0@ == concat_columns(permuted(row.columns(), column_mapping@)),
        r.1@ == running_offsets(permuted(row.columns(), column_mapping@)),
{
    let mut bytes: Vec<u8> = Vec::new();
    let mut offsets: Vec<usize> = Vec::with_capacity(row.offsets.len());
    offsets.push(0);
    assert(split_columns(bytes@, offsets@) =~= Seq::<Seq<u8>>::empty());
    assert(offsets@ =~= seq![0usize]);
    assert(permuted(row.columns(), column_mapping@).take(0) =~= Seq::<Seq<u8>>::empty());
    let mut i: usize = 0;
    while i < column_mapping.len()
        invariant
            i <= column_mapping@.len(),
            row.wf(),
            row.offsets@.len() == column_mapping@.len() + 1,
            map_wf(column_mapping@.len(), column_mapping@),
            offsets@.len() == i + 1,
            offsets_wf(bytes@.len(), offsets@),
            split_columns(bytes@, offsets@) == permuted(row.columns(), column_mapping@).take(i as int),
            bytes@ == concat_columns(permuted(row.columns(), column_mapping@).take(i as int)),
            offsets@ == running_offsets(permuted(row.columns(), column_mapping@).take(i as int)),
        decreases column_mapping@.len() - i,
    {
        let col = row.get_column(column_mapping[i]);
        let ghost old_bytes = bytes@;
        let ghost old_offsets = offsets@;
        append_bytes(&mut bytes, col);
        let end = bytes.len();
        proof {
            lemma_push_column(old_bytes, old_offsets, permuted(row.columns(), column_mapping@).take(i as int), col@);
        }
        offsets.push(end);
        assert(permuted(row.columns(), column_mapping@).take(i + 1) =~= permuted(row.columns(), column_mapping@).take(
            i as int,
        ).push(col@));
        assert(permuted(row.columns(), column_mapping@).take(i + 1).drop_last() =~= permuted(
            row.columns(),
            column_mapping@,
        ).take(i as int));
        i = i + 1;
    }
    assert(permuted(row.columns(), column_mapping@).take(i as int) =~= permuted(row.columns(), column_mapping@));
    (bytes, offsets)
}

/// Appends `b` to `v`.
fn append_usizes(v: &mut Vec<usize>, b: &[usize])
    ensures
        final(v)@ == old(v)@ + b@,
{
    let mut i: usize = 0;
    let ghost start = v@;
    while i < b.len()
        invariant
            i <= b@.len(),
            v@ == start + b@.take(i as int),
        decreases b@.len() - i,
    {
        v.push(b[i]);
        assert(b@.take(i + 1) == b@.take(i as int).push(b@[i as int]));
        i = i + 1;
    }
    assert(b@.take(i as int) == b@);
}

/// An owned copy of `s`.
fn copy_usizes(s: &[usize]) -> (r: Vec<usize>)
    ensures
        r@ == s@,
{
    let mut v: Vec<usize> = Vec::with_capacity(s.len());
    append_usizes(&mut v, s);
    v
}

} // verus!
