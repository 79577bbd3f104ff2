//! Row scans over compressed segments: which columns are read, how a segment becomes rows, and
//! which row comes next.
//!
//! A scan alternates with its surroundings: it names the segment whose columns are to be
//! decompressed, takes the decompressed columns, and then gives out their rows.

use crate::scan::datum::{new_null, pg_type_oid, Cell, Datum};
use crate::text;
use vstd::prelude::*;
use vstd::string::*;

verus! {

// ---------------------------------------------------------------------------
// Columns
// ---------------------------------------------------------------------------

/// A column as the catalog describes it.
pub struct ColumnInfo {
    pub name: String,
    pub udt_name: String,
    pub typmod: Option<i32>,
}

/// A column of a scan.
pub struct ScanColumn {
    pub name: String,
    pub type_oid: u32,
    /// The type modifier, such as the length of a `CHAR(n)`; -1 if there is none.
    pub typmod: i32,
    /// Whether segments are formed by this column: all rows of a segment share its value.
    pub segment_by: bool,
    /// Whether the query reads the column.
    pub needed: bool,
}

/// Whether the query reads column `c`. Without any indices all columns are read.
pub open spec fn is_needed(needed_indices: Seq<i32>, c: int) -> bool {
    needed_indices.len() == 0 || exists|k: int|
        0 <= k < needed_indices.len() && #[trigger] needed_indices[k] == c
}

/// What a scan knows of a column.
pub open spec fn is_scan_column(
    info: ColumnInfo,
    segment_by: Seq<String>,
    needed_indices: Seq<i32>,
    c: int,
    col: ScanColumn,
) -> bool {
    &&& col.name@ == info.name@
    &&& col.type_oid == crate::scan::datum::oid_of_name(info.udt_name@)
    &&& col.typmod == match info.typmod {
        Some(t) => t,
        None => -1i32,
    }
    &&& col.segment_by == text::views(segment_by).contains(info.name@)
    &&& col.needed == is_needed(needed_indices, c)
}

/// Whether the query reads column `c`.
fn column_needed(needed_indices: &[i32], c: usize) -> (r: bool)
    ensures
        r == is_needed(needed_indices@, c as int),
{
    if needed_indices.is_empty() {
        return true;
    }
    let mut k: usize = 0;
    while k < needed_indices.len()
        invariant
            k <= needed_indices@.len(),
            forall|j: int| 0 <= j < k ==> needed_indices@[j] != c,
        decreases needed_indices@.len() - k,
    {
        if needed_indices[k] >= 0 && needed_indices[k] as usize == c {
            return true;
        }
        k = k + 1;
    }
    false
}

/// Makes the columns of a scan from what the catalog says of them.
pub fn scan_columns(
    infos: &Vec<ColumnInfo>,
    segment_by: &Vec<String>,
    needed_indices: &[i32],
) -> (cols: Vec<ScanColumn>)
    ensures
        cols@.len() == infos@.len(),
        forall|c: int|
            0 <= c < cols@.len() ==> is_scan_column(
                infos@[c],
                segment_by@,
                needed_indices@,
                c,
                #[trigger] cols@[c],
            ),
{
    let mut cols: Vec<ScanColumn> = Vec::new();
    let mut c: usize = 0;
    while c < infos.len()
        invariant
            c <= infos@.len(),
            cols@.len() == c,
            forall|k: int|
                0 <= k < c ==> is_scan_column(
                    infos@[k],
                    segment_by@,
                    needed_indices@,
                    k,
                    #[trigger] cols@[k],
                ),
        decreases infos@.len() - c,
    {
        let info = &infos[c];
        cols.push(
            ScanColumn {
                name: info.name.as_str().to_string(),
                type_oid: pg_type_oid(info.udt_name.as_str()),
                typmod: match info.typmod {
                    Some(t) => t,
                    None => -1,
                },
                segment_by: text::contains_name(segment_by, info.name.as_str()),
                needed: column_needed(needed_indices, c),
            },
        );
        c = c + 1;
    }
    cols
}

// ---------------------------------------------------------------------------
// Reading the companion table
// ---------------------------------------------------------------------------

/// What a column of the row of a segment holds.
#[derive(Clone, Copy, PartialEq, Eq, Structural, Debug)]
pub enum RowItem {
    /// The value that all rows of the segment share in a column.
    SegmentValue(usize),
    /// The compressed values of a column.
    Blob(usize),
}

/// The shared values among the first `n` columns.
pub open spec fn value_items(cols: Seq<ScanColumn>, n: nat) -> Seq<RowItem>
    decreases n,
{
    if n == 0 {
        Seq::empty()
    } else {
        let earlier = value_items(cols, (n - 1) as nat);
        if cols[n - 1].segment_by {
            earlier.push(RowItem::SegmentValue((n - 1) as usize))
        } else {
            earlier
        }
    }
}

/// The compressed columns among the first `n` that the query reads.
pub open spec fn blob_items(cols: Seq<ScanColumn>, n: nat) -> Seq<RowItem>
    decreases n,
{
    if n == 0 {
        Seq::empty()
    } else {
        let earlier = blob_items(cols, (n - 1) as nat);
        if !cols[n - 1].segment_by && cols[n - 1].needed {
            earlier.push(RowItem::Blob((n - 1) as usize))
        } else {
            earlier
        }
    }
}

/// What is read of the row of a segment, in order. The two bounds of its times and its row count
/// follow.
pub open spec fn row_items(cols: Seq<ScanColumn>) -> Seq<RowItem> {
    value_items(cols, cols.len()) + blob_items(cols, cols.len())
}

/// Lists what is read of the row of a segment.
pub fn list_row_items(cols: &Vec<ScanColumn>) -> (items: Vec<RowItem>)
    ensures
        items@ == row_items(cols@),
        forall|i: int| 0 <= i < items@.len() ==> item_column(#[trigger] items@[i]) < cols@.len(),
{
    let mut items: Vec<RowItem> = Vec::new();
    let mut c: usize = 0;
    while c < cols.len()
        invariant
            c <= cols@.len(),
            items@ == value_items(cols@, c as nat),
            forall|i: int|
                0 <= i < items@.len() ==> item_column(#[trigger] items@[i]) < cols@.len(),
        decreases cols@.len() - c,
    {
        if cols[c].segment_by {
            items.push(RowItem::SegmentValue(c));
        }
        c = c + 1;
    }
    let ghost values = items@;
    let mut c: usize = 0;
    assert(items@ =~= values + blob_items(cols@, 0));
    while c < cols.len()
        invariant
            c <= cols@.len(),
            items@ == values + blob_items(cols@, c as nat),
            forall|i: int|
                0 <= i < items@.len() ==> item_column(#[trigger] items@[i]) < cols@.len(),
        decreases cols@.len() - c,
    {
        if !cols[c].segment_by && cols[c].needed {
            items.push(RowItem::Blob(c));
            assert(items@ =~= values + blob_items(cols@, (c + 1) as nat));
        }
        c = c + 1;
    }
    items
}

/// The column that an item belongs to.
pub open spec fn item_column(item: RowItem) -> int {
    match item {
        RowItem::SegmentValue(c) => c as int,
        RowItem::Blob(c) => c as int,
    }
}

/// How an item is selected.
pub open spec fn item_text(cols: Seq<ScanColumn>, item: RowItem) -> Seq<char> {
    match item {
        RowItem::SegmentValue(c) => "\""@ + cols[c as int].name@ + "\"::text"@,
        RowItem::Blob(c) => "\"_"@ + cols[c as int].name@ + "_compressed\""@,
    }
}

/// The first `n` items in a select list, each with the comma that follows it.
pub open spec fn items_text(cols: Seq<ScanColumn>, items: Seq<RowItem>, n: nat) -> Seq<char>
    decreases n,
{
    if n == 0 {
        Seq::empty()
    } else {
        items_text(cols, items, (n - 1) as nat) + item_text(cols, items[n - 1]) + ", "@
    }
}

/// The query that reads the segments of a companion table.
pub open spec fn segments_query(
    cols: Seq<ScanColumn>,
    companion_name: Seq<char>,
    time_column: Seq<char>,
) -> Seq<char> {
    let items = row_items(cols);
    "SELECT "@ + items_text(cols, items, items.len()) + "_min_"@ + time_column + ", _max_"@
        + time_column + ", _row_count FROM \"_cocoon_compressed\".\""@ + companion_name + "\""@
}

/// Writes the query that reads the segments of a companion table.
pub fn build_segments_query(
    cols: &Vec<ScanColumn>,
    companion_name: &str,
    time_column: &str,
) -> (query: String)
    ensures
        query@ == segments_query(cols@, companion_name@, time_column@),
{
    let items = list_row_items(cols);
    let mut query: String = "SELECT ".to_string();
    let mut i: usize = 0;
    assert(query@ =~= "SELECT "@ + items_text(cols@, items@, 0));
    while i < items.len()
        invariant
            i <= items@.len(),
            forall|k: int|
                0 <= k < items@.len() ==> item_column(#[trigger] items@[k]) < cols@.len(),
            query@ == "SELECT "@ + items_text(cols@, items@, i as nat),
        decreases items@.len() - i,
    {
        let ghost before = query@;
        match items[i] {
            RowItem::SegmentValue(c) => {
                query.append("\"");
                query.append(cols[c].name.as_str());
                query.append("\"::text");
            },
            RowItem::Blob(c) => {
                query.append("\"_");
                query.append(cols[c].name.as_str());
                query.append("_compressed\"");
            },
        }
        query.append(", ");
        assert(query@ =~= before + item_text(cols@, items@[i as int]) + ", "@);
        assert(query@ =~= "SELECT "@ + items_text(cols@, items@, (i + 1) as nat));
        i = i + 1;
    }
    query.append("_min_");
    query.append(time_column);
    query.append(", _max_");
    query.append(time_column);
    query.append(", _row_count FROM \"_cocoon_compressed\".\"");
    query.append(companion_name);
    query.append("\"");
    query
}

/// Where the row count of a segment stands in its row, counted from one.
pub fn row_count_ordinal(items: &Vec<RowItem>) -> (ordinal: usize)
    requires
        items@.len() + 3 <= usize::MAX,
    ensures
        ordinal == items@.len() + 3,
{
    items.len() + 3
}

/// A segment as it is stored.
pub struct SegmentData {
    /// The shared values, one for each column that segments are formed by.
    pub segment_values: Vec<Option<String>>,
    /// The compressed values, one for each other column; empty for a column that is not read.
    pub compressed_blobs: Vec<Vec<u8>>,
    pub row_count: i32,
}

/// The number of shared values among the first `n` columns.
pub open spec fn values_before(cols: Seq<ScanColumn>, n: nat) -> nat {
    value_items(cols, n).len()
}

/// The number of columns among the first `n` that are compressed.
pub open spec fn blobs_before(cols: Seq<ScanColumn>, n: nat) -> nat
    decreases n,
{
    if n == 0 {
        0
    } else {
        blobs_before(cols, (n - 1) as nat) + if cols[n - 1].segment_by {
            0nat
        } else {
            1nat
        }
    }
}

/// The bytes of a compressed column; none if the column is null.
pub open spec fn bytes_of(blob: Option<Vec<u8>>) -> Seq<u8> {
    match blob {
        Some(b) => b@,
        None => Seq::empty(),
    }
}

/// The compressed columns among the first `n`, given those that were read: the others are empty.
pub open spec fn stored_blobs(
    cols: Seq<ScanColumn>,
    read: Seq<Option<Vec<u8>>>,
    n: nat,
) -> Seq<Seq<u8>>
    decreases n,
{
    if n == 0 {
        Seq::empty()
    } else {
        let earlier = stored_blobs(cols, read, (n - 1) as nat);
        if cols[n - 1].segment_by {
            earlier
        } else if cols[n - 1].needed {
            earlier.push(bytes_of(read[blob_items(cols, (n - 1) as nat).len() as int]))
        } else {
            earlier.push(Seq::empty())
        }
    }
}

/// The bytes of all blobs.
pub open spec fn blob_views(blobs: Seq<Vec<u8>>) -> Seq<Seq<u8>> {
    blobs.map_values(|b: Vec<u8>| b@)
}

/// Makes a segment from what was read of its row: the shared values, the compressed columns and
/// the row count.
pub fn segment_data(
    cols: &Vec<ScanColumn>,
    values: Vec<Option<String>>,
    read: Vec<Option<Vec<u8>>>,
    row_count: Option<i32>,
) -> (seg: SegmentData)
    requires
        values@.len() == values_before(cols@, cols@.len()),
        read@.len() == blob_items(cols@, cols@.len()).len(),
    ensures
        seg.segment_values@ == values@,
        blob_views(seg.compressed_blobs@) == stored_blobs(cols@, read@, cols@.len()),
        seg.row_count == match row_count {
            Some(n) => n,
            None => 0i32,
        },
{
    let ghost all = read@;
    let mut read = read;
    let mut compressed_blobs: Vec<Vec<u8>> = Vec::new();
    let mut next: usize = 0;
    let mut c: usize = 0;
    assert(blob_views(compressed_blobs@) =~= Seq::<Seq<u8>>::empty());
    while c < cols.len()
        invariant
            c <= cols@.len(),
            read@.len() == all.len(),
            all.len() == blob_items(cols@, cols@.len()).len(),
            next == blob_items(cols@, c as nat).len(),
            next <= c,
            forall|k: int| next <= k < all.len() ==> #[trigger] read@[k] == all[k],
            blob_views(compressed_blobs@) == stored_blobs(cols@, all, c as nat),
        decreases cols@.len() - c,
    {
        let ghost before = compressed_blobs@;
        if !cols[c].segment_by {
            if cols[c].needed {
                proof {
                    lemma_blob_items_grow(cols@, (c + 1) as nat, cols@.len());
                }
                assert(read@[next as int] == all[next as int]);
                let blob = read[next].take();
                let bytes = match blob {
                    Some(b) => b,
                    None => Vec::new(),
                };
                assert(bytes@ == bytes_of(all[next as int]));
                compressed_blobs.push(bytes);
                next = next + 1;
                assert(blob_views(compressed_blobs@) =~= blob_views(before).push(bytes@));
            } else {
                let bytes: Vec<u8> = Vec::new();
                compressed_blobs.push(bytes);
                assert(bytes@ =~= Seq::<u8>::empty());
                assert(blob_views(compressed_blobs@) =~= blob_views(before).push(bytes@));
            }
        }
        c = c + 1;
    }
    SegmentData {
        segment_values: values,
        compressed_blobs,
        row_count: match row_count {
            Some(n) => n,
            None => 0,
        },
    }
}

/// More columns have no fewer items.
proof fn lemma_blob_items_grow(cols: Seq<ScanColumn>, a: nat, b: nat)
    requires
        a <= b,
    ensures
        blob_items(cols, a).len() <= blob_items(cols, b).len(),
    decreases b,
{
    if a < b {
        lemma_blob_items_grow(cols, a, (b - 1) as nat);
    }
}

// ---------------------------------------------------------------------------
// Decompressing a segment
// ---------------------------------------------------------------------------

/// What has to be done for a column of a segment.
#[derive(Clone, Copy, PartialEq, Eq, Structural, Debug)]
pub enum ColumnWork {
    /// Nothing: the query does not read the column.
    Skip,
    /// Convert the shared value with this number.
    Value(usize),
    /// Decompress the blob with this number.
    Blob(usize),
}

/// What came of it.
pub enum ColumnResult {
    Skipped,
    /// The shared value, `None` if it is null.
    Value(Option<Datum>),
    /// The cells of all rows.
    Cells(Vec<Cell>),
}

/// What has to be done for column `c`.
pub open spec fn column_work(cols: Seq<ScanColumn>, c: int) -> ColumnWork {
    if !cols[c].needed {
        ColumnWork::Skip
    } else if cols[c].segment_by {
        ColumnWork::Value(values_before(cols, c as nat) as usize)
    } else {
        ColumnWork::Blob(blobs_before(cols, c as nat) as usize)
    }
}

/// Lists what has to be done for the columns of a segment.
pub fn list_column_work(cols: &Vec<ScanColumn>) -> (work: Vec<ColumnWork>)
    ensures
        work@.len() == cols@.len(),
        forall|c: int| 0 <= c < work@.len() ==> #[trigger] work@[c] == column_work(cols@, c),
{
    let mut work: Vec<ColumnWork> = Vec::new();
    let mut values: usize = 0;
    let mut blobs: usize = 0;
    let mut c: usize = 0;
    while c < cols.len()
        invariant
            c <= cols@.len(),
            values == values_before(cols@, c as nat),
            blobs == blobs_before(cols@, c as nat),
            values + blobs == c,
            work@.len() == c,
            forall|k: int| 0 <= k < c ==> #[trigger] work@[k] == column_work(cols@, k),
        decreases cols@.len() - c,
    {
        if !cols[c].needed {
            work.push(ColumnWork::Skip);
        } else if cols[c].segment_by {
            work.push(ColumnWork::Value(values));
        } else {
            work.push(ColumnWork::Blob(blobs));
        }
        if cols[c].segment_by {
            values = values + 1;
        } else {
            blobs = blobs + 1;
        }
        c = c + 1;
    }
    work
}

/// Whether the result is one of the work.
pub open spec fn result_of(work: ColumnWork, result: ColumnResult) -> bool {
    match work {
        ColumnWork::Skip => result is Skipped,
        ColumnWork::Value(_) => result is Value,
        ColumnWork::Blob(_) => result is Cells,
    }
}

/// The number of rows that a row count stands for.
pub open spec fn rows_of(row_count: i32) -> nat {
    if row_count < 0 {
        0
    } else {
        row_count as nat
    }
}

/// The cells of a column: those decompressed, or as many times the shared value as there are rows,
/// or as many nulls.
pub open spec fn result_cells(result: ColumnResult, row_count: i32) -> Seq<Cell> {
    match result {
        ColumnResult::Skipped => Seq::new(
            rows_of(row_count),
            |i: int| crate::scan::datum::null_cell(),
        ),
        ColumnResult::Value(Some(d)) => Seq::new(rows_of(row_count), |i: int| (d, false)),
        ColumnResult::Value(None) => Seq::new(
            rows_of(row_count),
            |i: int| crate::scan::datum::null_cell(),
        ),
        ColumnResult::Cells(cells) => cells@,
    }
}

/// The columns of a segment.
pub open spec fn segment_cells(results: Seq<ColumnResult>, row_count: i32) -> Seq<Seq<Cell>> {
    results.map_values(|r: ColumnResult| result_cells(r, row_count))
}

/// The number of rows of decompressed columns: that of the first column.
pub open spec fn row_total(current: Seq<Seq<Cell>>) -> nat {
    if current.len() == 0 {
        0
    } else {
        current[0].len()
    }
}

/// Whether every column that the query reads has a cell for every row.
pub open spec fn complete(needed: Seq<bool>, current: Seq<Seq<Cell>>) -> bool {
    current.len() == 0 || current.len() == needed.len() && forall|c: int|
        0 <= c < needed.len() && needed[c] ==> row_total(current) <= (#[trigger] current[c]).len()
}

/// As many times the same cell as there are rows.
pub fn repeated(cell: Cell, row_count: i32) -> (cells: Vec<Cell>)
    ensures
        cells@ == Seq::new(rows_of(row_count), |i: int| cell),
{
    let mut cells: Vec<Cell> = Vec::new();
    let mut i: i32 = 0;
    while i < row_count
        invariant
            0 <= i,
            i <= row_count || row_count < 0 && i == 0,
            cells@.len() == i,
            forall|k: int| 0 <= k < i ==> #[trigger] cells@[k] == cell,
        decreases row_count - i,
    {
        cells.push(cell);
        i = i + 1;
    }
    assert(cells@ =~= Seq::new(rows_of(row_count), |i: int| cell));
    cells
}

// ---------------------------------------------------------------------------
// The cursor
// ---------------------------------------------------------------------------

/// What comes next in a scan.
pub enum ScanStep {
    /// A row, one cell for each column.
    Row(Vec<Cell>),
    /// The segment with this number is to be decompressed.
    Load(usize),
    /// There are no more rows.
    Done,
}

/// What comes next in a scan, as a mathematical value.
pub enum StepModel {
    Row(Seq<Cell>),
    Load(int),
    Done,
}

impl View for ScanStep {
    type V = StepModel;

    open spec fn view(&self) -> StepModel {
        match *self {
            ScanStep::Row(cells) => StepModel::Row(cells@),
            ScanStep::Load(i) => StepModel::Load(i as int),
            ScanStep::Done => StepModel::Done,
        }
    }
}

/// Where a scan stands.
#[verifier::ext_equal]
pub struct ScanModel {
    /// Per column, whether the query reads it.
    pub needed: Seq<bool>,
    /// The row counts of the segments.
    pub counts: Seq<i32>,
    /// The number of segments behind the scan.
    pub index: int,
    /// The columns of the segment that is being read.
    pub current: Seq<Seq<Cell>>,
    /// The number of its rows behind the scan.
    pub cursor: int,
}

/// The first segment from `from` on that has rows.
pub open spec fn next_load(counts: Seq<i32>, from: int) -> Option<int>
    decreases counts.len() - from,
{
    if from >= counts.len() {
        None
    } else if counts[from] != 0 {
        Some(from)
    } else {
        next_load(counts, from + 1)
    }
}

/// A row: the cells of the columns that the query reads, nulls for the others.
pub open spec fn row_at(needed: Seq<bool>, current: Seq<Seq<Cell>>, r: int) -> Seq<Cell> {
    Seq::new(
        needed.len(),
        |c: int|
            if needed[c] {
                current[c][r]
            } else {
                crate::scan::datum::null_cell()
            },
    )
}

/// What comes next, and where the scan stands then.
pub open spec fn stepped(m: ScanModel) -> (StepModel, ScanModel) {
    if m.cursor < row_total(m.current) {
        (
            StepModel::Row(row_at(m.needed, m.current, m.cursor)),
            ScanModel { cursor: m.cursor + 1, ..m },
        )
    } else {
        match next_load(m.counts, m.index) {
            Some(i) => (StepModel::Load(i), ScanModel { index: i + 1, ..m }),
            None => (StepModel::Done, ScanModel { index: m.counts.len() as int, ..m }),
        }
    }
}

/// Where the scan stands once the columns of a segment are decompressed.
pub open spec fn installed(m: ScanModel, current: Seq<Seq<Cell>>) -> ScanModel {
    ScanModel { current, cursor: 0, ..m }
}

/// Where a scan stands before its first row.
pub open spec fn restarted(m: ScanModel) -> ScanModel {
    ScanModel { index: 0, current: Seq::empty(), cursor: 0, ..m }
}

/// A scan over the segments of a companion table.
pub struct DecompressState {
    columns: Vec<ScanColumn>,
    segments: Vec<SegmentData>,
    current_segment: Vec<Vec<Cell>>,
    row_cursor: usize,
    segment_index: usize,
}

/// The cells of all columns.
pub open spec fn cell_views(columns: Seq<Vec<Cell>>) -> Seq<Seq<Cell>> {
    columns.map_values(|c: Vec<Cell>| c@)
}

/// Which columns the query reads.
pub open spec fn needed_flags(cols: Seq<ScanColumn>) -> Seq<bool> {
    cols.map_values(|c: ScanColumn| c.needed)
}

/// The row counts of segments.
pub open spec fn row_counts(segments: Seq<SegmentData>) -> Seq<i32> {
    segments.map_values(|s: SegmentData| s.row_count)
}

impl View for DecompressState {
    type V = ScanModel;

    closed spec fn view(&self) -> ScanModel {
        ScanModel {
            needed: needed_flags(self.columns@),
            counts: row_counts(self.segments@),
            index: self.segment_index as int,
            current: cell_views(self.current_segment@),
            cursor: self.row_cursor as int,
        }
    }
}

impl DecompressState {
    /// The columns of the scan.
    pub closed spec fn scan_columns(&self) -> Seq<ScanColumn> {
        self.columns@
    }

    /// The segments of the scan.
    pub closed spec fn scan_segments(&self) -> Seq<SegmentData> {
        self.segments@
    }

    /// Whether every row of the current segment is complete.
    pub open spec fn wf(&self) -> bool {
        &&& complete(self@.needed, self@.current)
        &&& 0 <= self@.index <= self@.counts.len()
        &&& self@.needed == needed_flags(self.scan_columns())
        &&& self@.counts == row_counts(self.scan_segments())
    }

    /// Starts a scan.
    pub fn new(columns: Vec<ScanColumn>, segments: Vec<SegmentData>) -> (s: Self)
        ensures
            s.wf(),
            s.scan_columns() == columns@,
            s.scan_segments() == segments@,
            s@ == restarted(s@),
    {
        let s = DecompressState {
            columns,
            segments,
            current_segment: Vec::new(),
            row_cursor: 0,
            segment_index: 0,
        };
        assert(s@.current =~= Seq::<Seq<Cell>>::empty());
        s
    }

    /// The columns of the scan.
    pub fn columns(&self) -> (cols: &Vec<ScanColumn>)
        ensures
            cols@ == self.scan_columns(),
    {
        &self.columns
    }

    /// The segments of the scan.
    pub fn segments(&self) -> (segments: &Vec<SegmentData>)
        ensures
            segments@ == self.scan_segments(),
    {
        &self.segments
    }

    /// The row at the cursor.
    fn fill_slot(&self) -> (row: Vec<Cell>)
        requires
            self.wf(),
            self@.cursor < row_total(self@.current),
        ensures
            row@ == row_at(self@.needed, self@.current, self@.cursor),
    {
        let ghost all = row_at(self@.needed, self@.current, self@.cursor);
        let mut row: Vec<Cell> = Vec::new();
        let mut c: usize = 0;
        while c < self.columns.len()
            invariant
                c <= self.columns@.len(),
                self.wf(),
                self@.cursor < row_total(self@.current),
                all == row_at(self@.needed, self@.current, self@.cursor),
                row@.len() == c,
                forall|k: int| 0 <= k < c ==> #[trigger] row@[k] == all[k],
            decreases self.columns@.len() - c,
        {
            assert(self@.needed[c as int] == self.columns@[c as int].needed);
            assert(self@.current[c as int] == self.current_segment@[c as int]@);
            if self.columns[c].needed {
                row.push(self.current_segment[c][self.row_cursor]);
            } else {
                row.push(new_null());
            }
            c = c + 1;
        }
        assert(row@ =~= all);
        row
    }

    /// Goes on to what comes next. Segments without rows are passed over.
    pub fn next(&mut self) -> (step: ScanStep)
        requires
            old(self).wf(),
        ensures
            (step@, final(self)@) == stepped(old(self)@),
            final(self).wf(),
            final(self).scan_columns() == old(self).scan_columns(),
            final(self).scan_segments() == old(self).scan_segments(),
            step matches ScanStep::Load(i) ==> i < final(self).scan_segments().len(),
    {
        if !self.current_segment.is_empty() {
            assert(self@.current[0] == self.current_segment@[0]@);
            if self.row_cursor < self.current_segment[0].len() {
                let row = self.fill_slot();
                self.row_cursor = self.row_cursor + 1;
                return ScanStep::Row(row);
            }
        }
        let ghost m = self@;
        while self.segment_index < self.segments.len()
            invariant
                self.wf(),
                self.scan_columns() == old(self).scan_columns(),
                self.scan_segments() == old(self).scan_segments(),
                m == old(self)@,
                m.cursor >= row_total(m.current),
                self@ == (ScanModel { index: self@.index, ..m }),
                next_load(m.counts, m.index) == next_load(m.counts, self@.index),
            decreases self.segments@.len() - self.segment_index,
        {
            let i: usize = self.segment_index;
            assert(self@.counts[i as int] == self.segments@[i as int].row_count);
            self.segment_index = self.segment_index + 1;
            if self.segments[i].row_count != 0 {
                return ScanStep::Load(i);
            }
        }
        ScanStep::Done
    }

    /// Takes the columns of the segment named last.
    pub fn install(&mut self, results: Vec<ColumnResult>)
        requires
            old(self).wf(),
            old(self)@.index > 0,
            results@.len() == old(self).scan_columns().len(),
            forall|c: int|
                0 <= c < results@.len() ==> result_of(
                    column_work(old(self).scan_columns(), c),
                    #[trigger] results@[c],
                ),
            complete(
                old(self)@.needed,
                segment_cells(results@, old(self)@.counts[old(self)@.index - 1]),
            ),
        ensures
            final(self).wf(),
            final(self)@ == installed(
                old(self)@,
                segment_cells(results@, old(self)@.counts[old(self)@.index - 1]),
            ),
            final(self).scan_columns() == old(self).scan_columns(),
            final(self).scan_segments() == old(self).scan_segments(),
    {
        let ghost given = results@;
        assert(self@.counts[self@.index - 1] == self.segments@[self.segment_index - 1].row_count);
        let row_count: i32 = self.segments[self.segment_index - 1].row_count;
        let ghost all = segment_cells(given, row_count);
        let mut rest = results;
        let mut current: Vec<Vec<Cell>> = Vec::new();
        let mut c: usize = 0;
        assert(cell_views(current@) =~= all.take(0));
        while c < rest.len()
            invariant
                c <= rest@.len(),
                rest@.len() == given.len(),
                forall|k: int| c <= k < given.len() ==> #[trigger] rest@[k] == given[k],
                all == segment_cells(given, row_count),
                current@.len() == c,
                cell_views(current@) == all.take(c as int),
            decreases rest@.len() - c,
        {
            let mut result = ColumnResult::Skipped;
            std::mem::swap(&mut result, &mut rest[c]);
            assert(result == given[c as int]);
            let cells = match result {
                ColumnResult::Skipped => repeated(new_null(), row_count),
                ColumnResult::Value(Some(d)) => repeated((d, false), row_count),
                ColumnResult::Value(None) => repeated(new_null(), row_count),
                ColumnResult::Cells(cells) => cells,
            };
            assert(cells@ == all[c as int]);
            current.push(cells);
            assert(cell_views(current@) =~= all.take(c + 1));
            c = c + 1;
        }
        assert(cell_views(current@) =~= all);
        self.current_segment = current;
        self.row_cursor = 0;
    }

    /// Goes back to the beginning.
    pub fn rescan(&mut self)
        requires
            old(self).wf(),
        ensures
            final(self).wf(),
            final(self)@ == restarted(old(self)@),
            final(self).scan_columns() == old(self).scan_columns(),
            final(self).scan_segments() == old(self).scan_segments(),
    {
        self.segment_index = 0;
        self.row_cursor = 0;
        self.current_segment = Vec::new();
        assert(self@.current =~= Seq::<Seq<Cell>>::empty());
    }
}

// ---------------------------------------------------------------------------
// Laws
// ---------------------------------------------------------------------------

/// The blob that is decompressed for a column is the one that was selected under the name of that
/// column, and the shared value likewise. The blob of a column that is not read is empty.
pub proof fn law_columns_find_their_data(
    cols: Seq<ScanColumn>,
    read: Seq<Option<Vec<u8>>>,
    c: int,
)
    requires
        0 <= c < cols.len() <= usize::MAX,
    ensures
        cols[c].segment_by ==> {
            let at = values_before(cols, c as nat) as int;
            &&& at < values_before(cols, cols.len())
            &&& row_items(cols)[at] == RowItem::SegmentValue(c as usize)
        },
        !cols[c].segment_by && cols[c].needed ==> {
            let from = values_before(cols, cols.len()) as int;
            let at = blob_items(cols, c as nat).len() as int;
            &&& at < blob_items(cols, cols.len()).len()
            &&& row_items(cols)[from + at] == RowItem::Blob(c as usize)
            &&& stored_blobs(cols, read, cols.len())[blobs_before(cols, c as nat) as int]
                == bytes_of(read[at])
        },
        !cols[c].segment_by && !cols[c].needed ==> {
            stored_blobs(cols, read, cols.len())[blobs_before(cols, c as nat) as int] == Seq::<
                u8,
            >::empty()
        },
        !cols[c].segment_by ==> blobs_before(cols, c as nat) < stored_blobs(
            cols,
            read,
            cols.len(),
        ).len(),
{
    lemma_items_extend(cols, read, (c + 1) as nat, cols.len());
    lemma_items_extend(cols, read, c as nat, c as nat);
    let next = (c + 1) as nat;
    let values = value_items(cols, next);
    let blobs = blob_items(cols, next);
    let stored = stored_blobs(cols, read, next);
    if cols[c].segment_by {
        let at = values_before(cols, c as nat) as int;
        assert(value_items(cols, cols.len()).subrange(0, values.len() as int)[at] == values[at]);
    } else {
        let to = blobs_before(cols, c as nat) as int;
        assert(stored_blobs(cols, read, cols.len()).subrange(0, stored.len() as int)[to]
            == stored[to]);
        if cols[c].needed {
            let at = blob_items(cols, c as nat).len() as int;
            assert(blob_items(cols, cols.len()).subrange(0, blobs.len() as int)[at] == blobs[at]);
        }
    }
}

/// More columns extend the lists of items and blobs.
proof fn lemma_items_extend(cols: Seq<ScanColumn>, read: Seq<Option<Vec<u8>>>, a: nat, b: nat)
    requires
        a <= b <= cols.len(),
    ensures
        value_items(cols, a).is_prefix_of(value_items(cols, b)),
        blob_items(cols, a).is_prefix_of(blob_items(cols, b)),
        stored_blobs(cols, read, a).is_prefix_of(stored_blobs(cols, read, b)),
        stored_blobs(cols, read, b).len() == blobs_before(cols, b),
    decreases b,
{
    if a < b {
        lemma_items_extend(cols, read, a, (b - 1) as nat);
    } else if b > 0 {
        lemma_items_extend(cols, read, (b - 1) as nat, (b - 1) as nat);
    }
}

/// The next segment with rows is the first one.
pub proof fn lemma_next_load(counts: Seq<i32>, from: int)
    requires
        0 <= from,
    ensures
        match next_load(counts, from) {
            Some(i) => {
                &&& from <= i < counts.len()
                &&& counts[i] != 0
                &&& forall|k: int| from <= k < i ==> #[trigger] counts[k] == 0
            },
            None => forall|k: int| from <= k < counts.len() ==> #[trigger] counts[k] == 0,
        },
    decreases counts.len() - from,
{
    if from < counts.len() && counts[from] == 0 {
        lemma_next_load(counts, from + 1);
    }
}

/// The rows that a scan gives out from where it stands, if decompressing segment `i` yields the
/// columns `contents(i)`.
pub open spec fn yields(m: ScanModel, contents: spec_fn(int) -> Seq<Seq<Cell>>) -> Seq<Seq<Cell>>
    decreases m.counts.len() - m.index, row_total(m.current) - m.cursor,
    when 0 <= m.index
{
    proof {
        lemma_next_load(m.counts, m.index);
    }
    match stepped(m) {
        (StepModel::Row(row), then_at) => seq![row] + yields(then_at, contents),
        (StepModel::Load(i), then_at) => yields(installed(then_at, contents(i)), contents),
        (StepModel::Done, _) => Seq::empty(),
    }
}

/// The rows of a segment.
pub open spec fn segment_rows(needed: Seq<bool>, current: Seq<Seq<Cell>>) -> Seq<Seq<Cell>> {
    Seq::new(row_total(current), |r: int| row_at(needed, current, r))
}

/// The rows of all segments from `from` on that have rows, in order.
pub open spec fn rows_from(
    needed: Seq<bool>,
    counts: Seq<i32>,
    contents: spec_fn(int) -> Seq<Seq<Cell>>,
    from: int,
) -> Seq<Seq<Cell>>
    decreases counts.len() - from,
{
    if from >= counts.len() {
        Seq::empty()
    } else if counts[from] != 0 {
        segment_rows(needed, contents(from)) + rows_from(needed, counts, contents, from + 1)
    } else {
        rows_from(needed, counts, contents, from + 1)
    }
}

/// Segments without rows add none.
proof fn lemma_rows_from_next(
    needed: Seq<bool>,
    counts: Seq<i32>,
    contents: spec_fn(int) -> Seq<Seq<Cell>>,
    from: int,
)
    requires
        0 <= from,
    ensures
        rows_from(needed, counts, contents, from) == match next_load(counts, from) {
            Some(i) => segment_rows(needed, contents(i)) + rows_from(
                needed,
                counts,
                contents,
                i + 1,
            ),
            None => Seq::empty(),
        },
    decreases counts.len() - from,
{
    if from < counts.len() && counts[from] == 0 {
        lemma_rows_from_next(needed, counts, contents, from + 1);
    }
}

/// From anywhere, a scan gives out the rest of its segment and then the segments that follow.
proof fn lemma_yields(m: ScanModel, contents: spec_fn(int) -> Seq<Seq<Cell>>)
    requires
        0 <= m.index,
        0 <= m.cursor <= row_total(m.current),
    ensures
        yields(m, contents) == segment_rows(m.needed, m.current).skip(m.cursor) + rows_from(
            m.needed,
            m.counts,
            contents,
            m.index,
        ),
    decreases m.counts.len() - m.index, row_total(m.current) - m.cursor,
{
    let rows = segment_rows(m.needed, m.current);
    let rest = rows_from(m.needed, m.counts, contents, m.index);
    if m.cursor < row_total(m.current) {
        let next = ScanModel { cursor: m.cursor + 1, ..m };
        lemma_yields(next, contents);
        assert(rows.skip(m.cursor) =~= seq![rows[m.cursor]] + rows.skip(m.cursor + 1));
        assert(yields(m, contents) =~= rows.skip(m.cursor) + rest);
    } else {
        lemma_next_load(m.counts, m.index);
        lemma_rows_from_next(m.needed, m.counts, contents, m.index);
        assert(rows.skip(m.cursor) =~= Seq::<Seq<Cell>>::empty());
        match next_load(m.counts, m.index) {
            Some(i) => {
                let next = installed(ScanModel { index: i + 1, ..m }, contents(i));
                lemma_yields(next, contents);
                let loaded = segment_rows(m.needed, contents(i));
                assert(loaded.skip(0) =~= loaded);
                assert(yields(m, contents) =~= rows.skip(m.cursor) + rest);
            },
            None => {
                assert(yields(m, contents) =~= rows.skip(m.cursor) + rest);
            },
        }
    }
}

/// A scan from its beginning gives out every row of every segment that has rows, once and in order.
/// So it does when it is started again, wherever it stood.
pub proof fn law_scan_yields_all_rows(m: ScanModel, contents: spec_fn(int) -> Seq<Seq<Cell>>)
    ensures
        yields(restarted(m), contents) == rows_from(m.needed, m.counts, contents, 0),
{
    let start = restarted(m);
    lemma_yields(start, contents);
    assert(segment_rows(start.needed, start.current).skip(0) =~= Seq::<Seq<Cell>>::empty());
    assert(yields(start, contents) =~= rows_from(m.needed, m.counts, contents, 0));
}

/// A row has a cell for each column: the one that the segment holds for the row where the query reads
/// the column, otherwise a null. A segment has as many rows as its first column has cells.
pub proof fn law_row_cells(needed: Seq<bool>, current: Seq<Seq<Cell>>, r: int, c: int)
    requires
        0 <= c < needed.len(),
    ensures
        row_at(needed, current, r).len() == needed.len(),
        needed[c] ==> row_at(needed, current, r)[c] == current[c][r],
        !needed[c] ==> row_at(needed, current, r)[c].1,
        segment_rows(needed, current).len() == if current.len() == 0 {
            0
        } else {
            current[0].len()
        },
        0 <= r < segment_rows(needed, current).len() ==> segment_rows(needed, current)[r] == row_at(
            needed,
            current,
            r,
        ),
{
}

/// A column of which all rows share a value has that value in every row, or a null where the value
/// is null or the column is not read; a decompressed column has its cells. A negative row count
/// stands for no rows.
pub proof fn law_column_cells(result: ColumnResult, row_count: i32, r: int)
    ensures
        !(result is Cells) ==> result_cells(result, row_count).len() == if row_count > 0 {
            row_count as int
        } else {
            0
        },
        0 <= r < row_count ==> match result {
            ColumnResult::Value(Some(d)) => result_cells(result, row_count)[r] == (d, false),
            ColumnResult::Value(None) => result_cells(result, row_count)[r].1,
            ColumnResult::Skipped => result_cells(result, row_count)[r].1,
            ColumnResult::Cells(cells) => result_cells(result, row_count) == cells@,
        },
{
}

/// Without indices every column is read; with them, exactly the columns that they name.
pub proof fn law_needed_columns(indices: Seq<i32>, index: i32, c: int)
    ensures
        is_needed(Seq::empty(), c),
        is_needed(indices.push(index), c) <==> index == c || indices.len() > 0 && is_needed(
            indices,
            c,
        ),
{
    let more = indices.push(index);
    assert(more[indices.len() as int] == index);
    if indices.len() > 0 && is_needed(indices, c) {
        let k = choose|k: int| 0 <= k < indices.len() && #[trigger] indices[k] == c;
        assert(more[k] == c);
    }
    if is_needed(more, c) {
        let k = choose|k: int| 0 <= k < more.len() && #[trigger] more[k] == c;
        if k < indices.len() {
            assert(indices[k] == c);
        }
    }
}

/// A column of a scan has the name of the catalog's column, the type of its type name, its modifier
/// or -1, and forms segments exactly if its name is among those that do.
pub proof fn law_scan_column(
    info: ColumnInfo,
    segment_by: Seq<String>,
    needed_indices: Seq<i32>,
    c: int,
    col: ScanColumn,
)
    requires
        is_scan_column(info, segment_by, needed_indices, c, col),
    ensures
        col.name@ == info.name@,
        col.type_oid == crate::scan::datum::oid_of_name(info.udt_name@),
        info.typmod is None ==> col.typmod == -1,
        info.typmod matches Some(t) ==> col.typmod == t,
        col.segment_by <==> exists|i: int|
            0 <= i < segment_by.len() && (#[trigger] segment_by[i])@ == info.name@,
        col.needed <==> is_needed(needed_indices, c),
{
    let names = text::views(segment_by);
    if names.contains(info.name@) {
        let i = names.index_of(info.name@);
        assert(segment_by[i]@ == info.name@);
    }
    if exists|i: int| 0 <= i < segment_by.len() && (#[trigger] segment_by[i])@ == info.name@ {
        let i = choose|i: int|
            0 <= i < segment_by.len() && (#[trigger] segment_by[i])@ == info.name@;
        assert(names[i] == info.name@);
    }
}

/// What has to be done for a column: nothing where the query does not read it; otherwise its shared
/// value is converted or its blob decompressed. Values and blobs are numbered apart, each by the
/// columns of its kind before it.
pub proof fn law_column_work(cols: Seq<ScanColumn>, c: int)
    requires
        0 <= c < cols.len() <= usize::MAX,
    ensures
        column_work(cols, c) is Skip <==> !cols[c].needed,
        column_work(cols, c) matches ColumnWork::Value(v) ==> cols[c].segment_by && v == cols.take(
            c,
        ).filter(|col: ScanColumn| col.segment_by).len(),
        column_work(cols, c) matches ColumnWork::Blob(b) ==> !cols[c].segment_by && b == cols.take(
            c,
        ).filter(|col: ScanColumn| !col.segment_by).len(),
{
    lemma_before_counted(cols, c as nat);
}

/// The columns of each kind before a column are counted.
proof fn lemma_before_counted(cols: Seq<ScanColumn>, n: nat)
    requires
        n <= cols.len(),
    ensures
        values_before(cols, n) == cols.take(n as int).filter(
            |col: ScanColumn| col.segment_by,
        ).len(),
        blobs_before(cols, n) == cols.take(n as int).filter(
            |col: ScanColumn| !col.segment_by,
        ).len(),
        values_before(cols, n) + blobs_before(cols, n) == n,
    decreases n,
{
    reveal(Seq::filter);
    if n > 0 {
        lemma_before_counted(cols, (n - 1) as nat);
        assert(cols.take(n as int).drop_last() =~= cols.take(n - 1));
    }
}

/// Every segment with rows is loaded, in order and none twice: what comes after the rows of a
/// segment is the next segment whose row count is not zero, and the end if there is none.
pub proof fn law_next_segment(m: ScanModel)
    requires
        0 <= m.index <= m.counts.len(),
        m.cursor >= row_total(m.current),
    ensures
        match stepped(m) {
            (StepModel::Load(i), next) => {
                &&& m.index <= i < m.counts.len()
                &&& m.counts[i] != 0
                &&& forall|k: int| m.index <= k < i ==> #[trigger] m.counts[k] == 0
                &&& next.index == i + 1
            },
            (StepModel::Done, next) => forall|k: int|
                m.index <= k < m.counts.len() ==> #[trigger] m.counts[k] == 0,
            (StepModel::Row(_), _) => false,
        },
{
    lemma_next_load(m.counts, m.index);
}

/// What is read of the row of a segment: the shared value of every column that segments are formed
/// by, and of the others the compressed values of those that the query reads; nothing else.
pub proof fn law_row_items(cols: Seq<ScanColumn>, c: usize)
    requires
        cols.len() <= usize::MAX,
    ensures
        row_items(cols).contains(RowItem::SegmentValue(c)) <==> c < cols.len()
            && cols[c as int].segment_by,
        row_items(cols).contains(RowItem::Blob(c)) <==> c < cols.len() && !cols[c as int].segment_by
            && cols[c as int].needed,
        row_items(cols).len() == cols.filter(
            |col: ScanColumn| col.segment_by || col.needed,
        ).len(),
{
    let values = value_items(cols, cols.len());
    let blobs = blob_items(cols, cols.len());
    let all = row_items(cols);
    lemma_items_listed(cols, cols.len(), c);
    assert(cols.take(cols.len() as int) =~= cols);
    let value = RowItem::SegmentValue(c);
    let blob = RowItem::Blob(c);
    assert forall|item: RowItem| all.contains(item) <==> values.contains(item)
        || blobs.contains(item) by {
        if values.contains(item) {
            let i = values.index_of(item);
            assert(all[i] == item);
        }
        if blobs.contains(item) {
            let i = blobs.index_of(item);
            assert(all[values.len() + i] == item);
        }
        if all.contains(item) {
            let i = all.index_of(item);
            if i < values.len() {
                assert(values[i] == item);
            } else {
                assert(blobs[i - values.len()] == item);
            }
        }
    }
}

/// The items among the first columns.
proof fn lemma_items_listed(cols: Seq<ScanColumn>, n: nat, c: usize)
    requires
        n <= cols.len() <= usize::MAX,
    ensures
        value_items(cols, n).contains(RowItem::SegmentValue(c)) <==> c < n
            && cols[c as int].segment_by,
        blob_items(cols, n).contains(RowItem::Blob(c)) <==> c < n && !cols[c as int].segment_by
            && cols[c as int].needed,
        !value_items(cols, n).contains(RowItem::Blob(c)),
        !blob_items(cols, n).contains(RowItem::SegmentValue(c)),
        value_items(cols, n).len() + blob_items(cols, n).len() == cols.take(n as int).filter(
            |col: ScanColumn| col.segment_by || col.needed,
        ).len(),
    decreases n,
{
    reveal(Seq::filter);
    if n > 0 {
        let m = (n - 1) as nat;
        lemma_items_listed(cols, m, c);
        assert(cols.take(n as int).drop_last() =~= cols.take(m as int));
        let values = value_items(cols, m);
        let blobs = blob_items(cols, m);
        lemma_contains_push(values, RowItem::SegmentValue(m as usize), RowItem::SegmentValue(c));
        lemma_contains_push(values, RowItem::SegmentValue(m as usize), RowItem::Blob(c));
        lemma_contains_push(blobs, RowItem::Blob(m as usize), RowItem::Blob(c));
        lemma_contains_push(blobs, RowItem::Blob(m as usize), RowItem::SegmentValue(c));
    }
}

/// A list with one more item contains that item and what it contained.
proof fn lemma_contains_push(items: Seq<RowItem>, new: RowItem, item: RowItem)
    ensures
        items.push(new).contains(item) <==> items.contains(item) || item == new,
{
    let more = items.push(new);
    if items.contains(item) {
        let i = items.index_of(item);
        assert(more[i] == item);
    }
    assert(more[items.len() as int] == new);
    if more.contains(item) {
        let i = more.index_of(item);
        if i < items.len() {
            assert(items[i] == item);
        }
    }
}

/// The query for the segments selects what is read of a row, each column under its name: a shared
/// value as text, compressed values from the column that holds them. The bounds of the times, the row
/// count and the companion table come at the end.
pub proof fn law_segments_query(
    cols: Seq<ScanColumn>,
    companion_name: Seq<char>,
    time_column: Seq<char>,
    i: int,
)
    requires
        0 <= i < row_items(cols).len(),
    ensures
        ({
            let query = segments_query(cols, companion_name, time_column);
            let selected = match row_items(cols)[i] {
                RowItem::SegmentValue(c) => "\""@ + cols[c as int].name@ + "\"::text"@,
                RowItem::Blob(c) => "\"_"@ + cols[c as int].name@ + "_compressed\""@,
            };
            &&& text::starts_with_text(query, "SELECT "@)
            &&& text::contains_text(query, selected + ", "@)
            &&& text::ends_with_text(
                query,
                "_min_"@ + time_column + ", _max_"@ + time_column
                    + ", _row_count FROM \"_cocoon_compressed\".\""@ + companion_name + "\""@,
            )
        }),
{
    let items = row_items(cols);
    let query = segments_query(cols, companion_name, time_column);
    let list = items_text(cols, items, items.len());
    let tail = "_min_"@ + time_column + ", _max_"@ + time_column
        + ", _row_count FROM \"_cocoon_compressed\".\""@ + companion_name + "\""@;
    assert(query =~= "SELECT "@ + (list + tail));
    text::law_substrings(query, "SELECT "@);
    assert(query =~= ("SELECT "@ + list) + tail);
    text::law_substrings(query, tail);
    let one = item_text(cols, items[i]) + ", "@;
    let (front, rest) = lemma_item_in_list(cols, items, items.len(), i);
    assert(query =~= ("SELECT "@ + front) + one + (rest + tail));
    text::law_substrings(query, one);
}

/// Every item stands in the select list.
proof fn lemma_item_in_list(cols: Seq<ScanColumn>, items: Seq<RowItem>, n: nat, i: int) -> (r: (
    Seq<char>,
    Seq<char>,
))
    requires
        0 <= i < n,
    ensures
        items_text(cols, items, n) == r.0 + (item_text(cols, items[i]) + ", "@) + r.1,
    decreases n,
{
    if i == n - 1 {
        let front = items_text(cols, items, (n - 1) as nat);
        let rest = Seq::<char>::empty();
        assert(items_text(cols, items, n) =~= front + (item_text(cols, items[i]) + ", "@) + rest);
        (front, rest)
    } else {
        let (front, rest) = lemma_item_in_list(cols, items, (n - 1) as nat, i);
        let more = rest + (item_text(cols, items[n - 1]) + ", "@);
        assert(items_text(cols, items, n) =~= front + (item_text(cols, items[i]) + ", "@) + more);
        (front, more)
    }
}

} // verus!
