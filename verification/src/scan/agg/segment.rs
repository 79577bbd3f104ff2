//! What a decompressed segment offers to the aggregates and to the group key of each row.

use crate::scan::agg::accumulator::{AggExecSpec, AggExpr, AggType, RowValue};
use crate::scan::agg::group::GroupKeyRef;
use crate::scan::agg::plan::{GroupByColSpec, GroupByExpr};
use crate::scan::agg::regex::RegexCache;
use crate::scan::agg::time::{date_trunc, extract_field_from_usecs};
use crate::scan::datum::{is_text_type, Cell, Datum};
use crate::scan::text_col::SegTextColumn;
use vstd::prelude::*;
use vstd::string::*;

verus! {

/// The decompressed columns of a segment. A column that the query does not need is empty.
pub struct SegmentColumns {
    pub row_count: usize,
    /// The cells of each column.
    pub cells: Vec<Vec<Cell>>,
    /// The strings of each column that `regexp_replace` reads. The cells of such a column tell its
    /// nulls; they hold values only if it is a segment-by column.
    pub raw_strings: Vec<Option<Vec<Option<String>>>>,
    /// The texts of the cells of each text column that an aggregate compares, collects or measures.
    pub texts: Vec<Option<Vec<Option<String>>>>,
    /// The columns whose cells hold the lengths of their strings.
    pub lengths: Vec<bool>,
    /// The text columns that rows are grouped by.
    pub seg_text: Vec<Option<SegTextColumn>>,
}

/// Whether a column exists and holds a cell for the row, or none at all.
pub open spec fn cell_ok(seg: SegmentColumns, col: int, row: int) -> bool {
    &&& 0 <= col < seg.cells@.len()
    &&& seg.cells@[col]@.len() == 0 || 0 <= row < seg.cells@[col]@.len()
}

/// Whether the cell of a row holds no value: the column is empty, or the cell is null.
pub open spec fn cell_missing(seg: SegmentColumns, col: int, row: int) -> bool {
    seg.cells@[col]@.len() == 0 || seg.cells@[col]@[row].1
}

/// The word of a cell.
pub open spec fn cell_word(seg: SegmentColumns, col: int, row: int) -> u64 {
    seg.cells@[col]@[row].0.word
}

/// Whether the strings of a column are held, and reach to the row.
pub open spec fn strings_ok(
    strings: Seq<Option<Vec<Option<String>>>>,
    col: int,
    row: int,
) -> bool {
    &&& 0 <= col < strings.len()
    &&& strings[col] matches Some(s) && 0 <= row < s@.len()
}

/// The string of a row in a list of optional strings per column.
pub open spec fn string_of(
    strings: Seq<Option<Vec<Option<String>>>>,
    col: int,
    row: int,
) -> Option<Seq<char>> {
    match strings[col] {
        Some(s) => match s@[row] {
            Some(t) => Some(t@),
            None => None,
        },
        None => None,
    }
}

/// Reads the string of a row in a list of optional strings per column.
pub(crate) fn read_string(strings: &Vec<Option<Vec<Option<String>>>>, col: usize, row: usize) -> (r: Option<&str>)
    requires
        strings_ok(strings@, col as int, row as int),
    ensures
        crate::scan::text_col::opt_text(r) == string_of(strings@, col as int, row as int),
{
    match &strings[col] {
        Some(s) => match &s[row] {
            Some(t) => Some(t.as_str()),
            None => None,
        },
        None => None,
    }
}

// ---------------------------------------------------------------------------
// Aggregates
// ---------------------------------------------------------------------------

/// Whether a column is read as raw strings.
pub open spec fn is_raw(raw_cols: Seq<bool>, col: int) -> bool {
    0 <= col < raw_cols.len() && raw_cols[col]
}

/// Whether the cells of a column hold lengths.
pub open spec fn holds_lengths(seg: SegmentColumns, raw_cols: Seq<bool>, col: int) -> bool {
    !is_raw(raw_cols, col) && 0 <= col < seg.lengths@.len() && seg.lengths@[col]
}

/// The text that an aggregate over lengths measures in a row: the raw string, or else the text of
/// the cell.
pub open spec fn measured_text(
    seg: SegmentColumns,
    raw_cols: Seq<bool>,
    col: int,
    row: int,
) -> Option<Seq<char>> {
    if is_raw(raw_cols, col) {
        string_of(seg.raw_strings@, col, row)
    } else if cell_missing(seg, col, row) {
        None
    } else {
        string_of(seg.texts@, col, row)
    }
}

/// What a row offers to an aggregate over the lengths of a column: what the cell holds where it
/// holds a length, otherwise the number of characters of the text. A length is added to a sum as
/// it is, and compared or collected as an integer.
pub open spec fn length_value(
    seg: SegmentColumns,
    raw_cols: Seq<bool>,
    spec: AggExecSpec,
    row: int,
) -> crate::scan::agg::accumulator::RowModel {
    let col = spec.col_idx as int;
    if holds_lengths(seg, raw_cols, col) {
        cell_value(seg, col, row)
    } else {
        match measured_text(seg, raw_cols, col, row) {
            Some(s) => if crate::scan::agg::accumulator::collects(spec.agg_type) {
                crate::scan::agg::accumulator::RowModel::Word(
                    crate::scan::datum::word_of(s.len() as int),
                )
            } else {
                crate::scan::agg::accumulator::RowModel::Length(s.len())
            },
            None => crate::scan::agg::accumulator::RowModel::Missing,
        }
    }
}

/// What the cell of a row offers to an aggregate.
pub open spec fn cell_value(
    seg: SegmentColumns,
    col: int,
    row: int,
) -> crate::scan::agg::accumulator::RowModel {
    if cell_missing(seg, col, row) {
        crate::scan::agg::accumulator::RowModel::Missing
    } else {
        crate::scan::agg::accumulator::RowModel::Word(cell_word(seg, col, row))
    }
}

/// What a string offers to an aggregate.
pub open spec fn string_value(s: Option<Seq<char>>) -> crate::scan::agg::accumulator::RowModel {
    match s {
        Some(t) => crate::scan::agg::accumulator::RowModel::Text(t),
        None => crate::scan::agg::accumulator::RowModel::Missing,
    }
}

/// What the cell of a row offers to an aggregate that takes texts of text columns.
pub open spec fn typed_value(
    seg: SegmentColumns,
    spec: AggExecSpec,
    row: int,
) -> crate::scan::agg::accumulator::RowModel {
    let col = spec.col_idx as int;
    if cell_missing(seg, col, row) {
        crate::scan::agg::accumulator::RowModel::Missing
    } else if crate::scan::datum::is_text_oid(spec.col_type_oid) {
        string_value(string_of(seg.texts@, col, row))
    } else {
        crate::scan::agg::accumulator::RowModel::Word(cell_word(seg, col, row))
    }
}

/// What a row offers to an aggregate.
pub open spec fn value_at(
    seg: SegmentColumns,
    raw_cols: Seq<bool>,
    spec: AggExecSpec,
    row: int,
) -> crate::scan::agg::accumulator::RowModel {
    let col = spec.col_idx as int;
    match spec.agg_type {
        AggType::CountStar => crate::scan::agg::accumulator::RowModel::Row,
        AggType::Count => cell_value(seg, col, row),
        _ => if spec.expr_kind == AggExpr::LengthOf {
            length_value(seg, raw_cols, spec, row)
        } else if !crate::scan::agg::accumulator::collects(spec.agg_type) {
            cell_value(seg, col, row)
        } else if is_raw(raw_cols, col) && spec.agg_type != AggType::CountDistinct {
            string_value(string_of(seg.raw_strings@, col, row))
        } else {
            typed_value(seg, spec, row)
        },
    }
}

/// Whether the segment holds the cell of a row and, unless that is null, its text.
pub open spec fn text_ok(seg: SegmentColumns, col: int, row: int) -> bool {
    &&& cell_ok(seg, col, row)
    &&& !cell_missing(seg, col, row) ==> strings_ok(seg.texts@, col, row) && string_of(
        seg.texts@,
        col,
        row,
    ) is Some
}

/// Whether the segment holds what an aggregate reads of a row.
pub open spec fn value_ok(
    seg: SegmentColumns,
    raw_cols: Seq<bool>,
    spec: AggExecSpec,
    row: int,
) -> bool {
    let col = spec.col_idx as int;
    let raw = is_raw(raw_cols, col);
    match spec.agg_type {
        AggType::CountStar => true,
        AggType::Count => cell_ok(seg, col, row),
        _ => if spec.expr_kind == AggExpr::LengthOf {
            if raw {
                strings_ok(seg.raw_strings@, col, row)
            } else if holds_lengths(seg, raw_cols, col) {
                cell_ok(seg, col, row)
            } else {
                text_ok(seg, col, row)
            }
        } else if !crate::scan::agg::accumulator::collects(spec.agg_type) {
            cell_ok(seg, col, row)
        } else if raw && spec.agg_type != AggType::CountDistinct {
            strings_ok(seg.raw_strings@, col, row)
        } else if crate::scan::datum::is_text_oid(spec.col_type_oid) {
            text_ok(seg, col, row)
        } else {
            cell_ok(seg, col, row)
        },
    }
}

/// The cell of a row, or `None` if it holds no value.
pub(crate) fn read_cell(seg: &SegmentColumns, col: usize, row: usize) -> (r: Option<Cell>)
    requires
        cell_ok(*seg, col as int, row as int),
    ensures
        r is None <==> cell_missing(*seg, col as int, row as int),
        r matches Some(c) ==> c.0.word == cell_word(*seg, col as int, row as int),
{
    let cells = &seg.cells[col];
    if cells.is_empty() || cells[row].1 {
        None
    } else {
        Some(cells[row])
    }
}

/// What the cell of a row offers to an aggregate.
fn read_value<'a>(seg: &'a SegmentColumns, col: usize, row: usize) -> (r: RowValue<'a>)
    requires
        cell_ok(*seg, col as int, row as int),
    ensures
        r@ == cell_value(*seg, col as int, row as int),
{
    match read_cell(seg, col, row) {
        Some(c) => RowValue::Word(c.0),
        None => RowValue::Missing,
    }
}

/// What a string offers to an aggregate.
fn string_row_value<'a>(s: Option<&'a str>) -> (r: RowValue<'a>)
    ensures
        r@ == string_value(crate::scan::text_col::opt_text(s)),
{
    match s {
        Some(t) => RowValue::Text(t),
        None => RowValue::Missing,
    }
}

/// What the cell of a row offers to an aggregate that takes texts of text columns.
fn read_typed<'a>(seg: &'a SegmentColumns, spec: &AggExecSpec, row: usize) -> (r: RowValue<'a>)
    requires
        cell_ok(*seg, spec.col_idx as int, row as int),
        !cell_missing(*seg, spec.col_idx as int, row as int) && crate::scan::datum::is_text_oid(
            spec.col_type_oid,
        ) ==> strings_ok(seg.texts@, spec.col_idx as int, row as int),
    ensures
        r@ == typed_value(*seg, *spec, row as int),
{
    let col: usize = spec.col_idx as usize;
    match read_cell(seg, col, row) {
        None => RowValue::Missing,
        Some(c) => if is_text_type(spec.col_type_oid) {
            string_row_value(read_string(&seg.texts, col, row))
        } else {
            RowValue::Word(c.0)
        },
    }
}

/// What a row offers to an aggregate over the lengths of a column.
fn read_length<'a>(
    seg: &'a SegmentColumns,
    raw: bool,
    spec: &AggExecSpec,
    row: usize,
    Ghost(raw_cols): Ghost<Seq<bool>>,
) -> (r: RowValue<'a>)
    requires
        spec.expr_kind == AggExpr::LengthOf,
        spec.agg_type != AggType::CountStar,
        spec.agg_type != AggType::Count,
        raw == is_raw(raw_cols, spec.col_idx as int),
        value_ok(*seg, raw_cols, *spec, row as int),
    ensures
        r@ == length_value(*seg, raw_cols, *spec, row as int),
{
    let col: usize = spec.col_idx as usize;
    if !raw && col < seg.lengths.len() && seg.lengths[col] {
        return read_value(seg, col, row);
    }
    let s: Option<&str> = if raw {
        read_string(&seg.raw_strings, col, row)
    } else if read_cell(seg, col, row).is_none() {
        None
    } else {
        read_string(&seg.texts, col, row)
    };
    match s {
        None => RowValue::Missing,
        Some(t) => {
            let n: usize = t.unicode_len();
            match spec.agg_type {
                AggType::CountDistinct | AggType::Min | AggType::Max => RowValue::Word(
                    Datum { word: n as u64 },
                ),
                _ => RowValue::Length(n),
            }
        },
    }
}

/// What a row offers to an aggregate.
pub fn row_value<'a>(
    seg: &'a SegmentColumns,
    raw_cols: &Vec<bool>,
    spec: &AggExecSpec,
    row: usize,
) -> (r: RowValue<'a>)
    requires
        value_ok(*seg, raw_cols@, *spec, row as int),
    ensures
        r@ == value_at(*seg, raw_cols@, *spec, row as int),
{
    let raw: bool = spec.col_idx >= 0 && (spec.col_idx as usize) < raw_cols.len()
        && raw_cols[spec.col_idx as usize];
    match spec.agg_type {
        AggType::CountStar => RowValue::Row,
        AggType::Count => read_value(seg, spec.col_idx as usize, row),
        AggType::Sum | AggType::Avg => if spec.expr_kind == AggExpr::LengthOf {
            read_length(seg, raw, spec, row, Ghost(raw_cols@))
        } else {
            read_value(seg, spec.col_idx as usize, row)
        },
        AggType::CountDistinct => if spec.expr_kind == AggExpr::LengthOf {
            read_length(seg, raw, spec, row, Ghost(raw_cols@))
        } else {
            read_typed(seg, spec, row)
        },
        AggType::Min | AggType::Max => if spec.expr_kind == AggExpr::LengthOf {
            read_length(seg, raw, spec, row, Ghost(raw_cols@))
        } else if raw {
            string_row_value(read_string(&seg.raw_strings, spec.col_idx as usize, row))
        } else {
            read_typed(seg, spec, row)
        },
    }
}

// ---------------------------------------------------------------------------
// Group keys
// ---------------------------------------------------------------------------

/// A component of a group key that comes from a string.
pub open spec fn text_part(s: Option<Seq<char>>) -> crate::scan::agg::group::KeyPart {
    match s {
        Some(t) => crate::scan::agg::group::KeyPart::Text(t),
        None => crate::scan::agg::group::KeyPart::Null,
    }
}

/// The component of a row's group key for one group expression. `regex` maps the strings that the
/// expression's `regexp_replace` was applied to to its results.
pub open spec fn key_part(
    seg: SegmentColumns,
    gs: GroupByColSpec,
    regex: Map<Seq<char>, String>,
    row: int,
) -> crate::scan::agg::group::KeyPart {
    let col = gs.col_idx as int;
    let v = crate::scan::datum::signed(cell_word(seg, col, row));
    if cell_missing(seg, col, row) {
        crate::scan::agg::group::KeyPart::Null
    } else {
        match gs.expr {
            GroupByExpr::RegexpReplace { .. } => match string_of(seg.raw_strings@, col, row) {
                Some(s) => crate::scan::agg::group::KeyPart::Text(regex[s]@),
                None => crate::scan::agg::group::KeyPart::Null,
            },
            GroupByExpr::DateTrunc { unit_usecs, .. } => crate::scan::agg::group::KeyPart::Int(
                crate::scan::agg::time::truncated(v, unit_usecs as int) as i64,
            ),
            GroupByExpr::Extract { unit, .. } => crate::scan::agg::group::KeyPart::Int(
                crate::scan::agg::time::time_field(v, unit@) as i64,
            ),
            GroupByExpr::AddConst { offset, .. } => crate::scan::agg::group::KeyPart::Int(
                (v + offset) as i64,
            ),
            GroupByExpr::Column => match seg.seg_text@[col] {
                Some(t) => text_part(crate::scan::text_col::str_at(t, row)),
                None => crate::scan::agg::group::KeyPart::Int(v as i64),
            },
        }
    }
}

/// Whether the segment holds what a group expression reads of a row, and its value is in range.
pub open spec fn key_ok(
    seg: SegmentColumns,
    gs: GroupByColSpec,
    regex: Map<Seq<char>, String>,
    row: int,
) -> bool {
    let col = gs.col_idx as int;
    let v = crate::scan::datum::signed(cell_word(seg, col, row));
    &&& cell_ok(seg, col, row)
    &&& !cell_missing(seg, col, row) ==> match gs.expr {
        GroupByExpr::RegexpReplace { .. } => {
            &&& strings_ok(seg.raw_strings@, col, row)
            &&& string_of(seg.raw_strings@, col, row) matches Some(s) ==> regex.contains_key(s)
        },
        GroupByExpr::DateTrunc { unit_usecs, .. } => {
            &&& unit_usecs > 0
            &&& crate::scan::agg::time::truncated(v, unit_usecs as int) >= i64::MIN
        },
        GroupByExpr::Extract { .. } => true,
        GroupByExpr::AddConst { offset, .. } => i64::MIN <= v + offset <= i64::MAX,
        GroupByExpr::Column => {
            &&& col < seg.seg_text@.len()
            &&& seg.seg_text@[col] matches Some(t) ==> crate::scan::text_col::readable(t, row)
        },
    }
}

/// The component of a row's group key for one group expression.
fn key_ref<'a>(
    seg: &'a SegmentColumns,
    gs: &GroupByColSpec,
    regex: &'a RegexCache,
    group: usize,
    row: usize,
) -> (r: GroupKeyRef<'a>)
    requires
        key_ok(
            *seg,
            *gs,
            crate::scan::agg::regex::results_of(regex@, group as int),
            row as int,
        ),
    ensures
        crate::scan::agg::group::ref_part(r) == key_part(
            *seg,
            *gs,
            crate::scan::agg::regex::results_of(regex@, group as int),
            row as int,
        ),
{
    let col: usize = gs.col_idx as usize;
    match read_cell(seg, col, row) {
        None => GroupKeyRef::Null,
        Some(c) => {
            let v: i64 = c.0.to_i64();
            match &gs.expr {
                GroupByExpr::RegexpReplace { .. } => match read_string(
                    &seg.raw_strings,
                    col,
                    row,
                ) {
                    Some(s) => match regex.get(group, s) {
                        Some(result) => GroupKeyRef::from_str(result),
                        None => GroupKeyRef::Null,
                    },
                    None => GroupKeyRef::Null,
                },
                GroupByExpr::DateTrunc { unit_usecs, .. } => GroupKeyRef::Int(
                    date_trunc(v, *unit_usecs),
                ),
                GroupByExpr::Extract { unit, .. } => GroupKeyRef::Int(
                    extract_field_from_usecs(v, unit.as_str()),
                ),
                GroupByExpr::AddConst { offset, .. } => GroupKeyRef::Int(v + *offset),
                GroupByExpr::Column => match &seg.seg_text[col] {
                    Some(t) => match t.get_str(row) {
                        Some(s) => GroupKeyRef::from_str(s),
                        None => GroupKeyRef::Null,
                    },
                    None => GroupKeyRef::Int(v),
                },
            }
        },
    }
}

/// The group key of a row. `regex` holds the known results of each group expression.
pub open spec fn key_at(
    seg: SegmentColumns,
    groups: Seq<GroupByColSpec>,
    regex: Seq<Map<Seq<char>, String>>,
    row: int,
) -> Seq<crate::scan::agg::group::KeyPart> {
    Seq::new(
        groups.len(),
        |i: int|
            key_part(seg, groups[i], crate::scan::agg::regex::results_of(regex, i), row),
    )
}

/// Whether the segment holds what all group expressions read of a row.
pub open spec fn keys_ok(
    seg: SegmentColumns,
    groups: Seq<GroupByColSpec>,
    regex: Seq<Map<Seq<char>, String>>,
    row: int,
) -> bool {
    forall|i: int|
        0 <= i < groups.len() ==> key_ok(
            seg,
            #[trigger] groups[i],
            crate::scan::agg::regex::results_of(regex, i),
            row,
        )
}

/// The group key of a row, borrowed from the segment.
pub fn row_key<'a>(
    seg: &'a SegmentColumns,
    groups: &Vec<GroupByColSpec>,
    regex: &'a RegexCache,
    row: usize,
) -> (key: Vec<GroupKeyRef<'a>>)
    requires
        keys_ok(*seg, groups@, regex@, row as int),
    ensures
        crate::scan::agg::group::ref_parts(key@) == key_at(*seg, groups@, regex@, row as int),
{
    let mut key: Vec<GroupKeyRef<'a>> = Vec::new();
    let mut i: usize = 0;
    while i < groups.len()
        invariant
            i <= groups@.len(),
            keys_ok(*seg, groups@, regex@, row as int),
            key@.len() == i,
            forall|k: int|
                0 <= k < i ==> crate::scan::agg::group::ref_part(#[trigger] key@[k]) == key_at(
                    *seg,
                    groups@,
                    regex@,
                    row as int,
                )[k],
        decreases groups@.len() - i,
    {
        assert(key_ok(
            *seg,
            groups@[i as int],
            crate::scan::agg::regex::results_of(regex@, i as int),
            row as int,
        ));
        let part = key_ref(seg, &groups[i], regex, i, row);
        key.push(part);
        i = i + 1;
    }
    assert(crate::scan::agg::group::ref_parts(key@) =~= key_at(*seg, groups@, regex@, row as int));
    key
}

// ---------------------------------------------------------------------------
// Laws
// ---------------------------------------------------------------------------

/// The cell of a row, as an optional word: none where the column is empty or the cell is null.
pub open spec fn word_at(seg: SegmentColumns, col: int, row: int) -> Option<u64> {
    if seg.cells@[col]@.len() > 0 && !seg.cells@[col]@[row].1 {
        Some(seg.cells@[col]@[row].0.word)
    } else {
        None
    }
}

/// Every row counts for `COUNT(*)`. Counts, sums and averages of a column, and what is compared or
/// collected of a column that is not text, take the word of the cell, and nothing of a null.
pub proof fn law_words_taken(
    seg: SegmentColumns,
    raw_cols: Seq<bool>,
    spec: AggExecSpec,
    row: int,
)
    requires
        spec.agg_type is CountStar || 0 <= spec.col_idx < seg.cells@.len(),
    ensures
        ({
            let value = value_at(seg, raw_cols, spec, row);
            let col = spec.col_idx as int;
            let sums = spec.agg_type is Sum || spec.agg_type is Avg;
            let text = spec.col_type_oid == 25 || spec.col_type_oid == 1043 || spec.col_type_oid
                == 1042;
            let raw = 0 <= col < raw_cols.len() && raw_cols[col];
            &&& spec.agg_type is CountStar ==> value is Row
            &&& spec.agg_type is Count || !(spec.agg_type is CountStar) && !(
            spec.expr_kind is LengthOf) && (sums || !text && (!raw || spec.agg_type is CountDistinct))
                ==> match word_at(seg, col, row) {
                Some(w) => value == crate::scan::agg::accumulator::RowModel::Word(w),
                None => value is Missing,
            }
        }),
{
}

/// What is compared or collected of a text column is the text of the row: the raw string where the
/// column holds raw strings, otherwise the text of the cell. A null row offers nothing.
pub proof fn law_texts_taken(
    seg: SegmentColumns,
    raw_cols: Seq<bool>,
    spec: AggExecSpec,
    row: int,
    texts: Vec<Option<String>>,
)
    requires
        spec.agg_type is CountDistinct || spec.agg_type is Min || spec.agg_type is Max,
        !(spec.expr_kind is LengthOf),
        spec.col_type_oid == 25 || spec.col_type_oid == 1043 || spec.col_type_oid == 1042,
        0 <= spec.col_idx < seg.cells@.len(),
        ({
            let col = spec.col_idx as int;
            let raw = col < raw_cols.len() && raw_cols[col];
            if raw && !(spec.agg_type is CountDistinct) {
                seg.raw_strings@[col] == Some(texts)
            } else {
                seg.texts@[col] == Some(texts)
            }
        }),
    ensures
        ({
            let value = value_at(seg, raw_cols, spec, row);
            let col = spec.col_idx as int;
            let raw = col < raw_cols.len() && raw_cols[col] && !(spec.agg_type is CountDistinct);
            if !raw && word_at(seg, col, row) is None {
                value is Missing
            } else {
                match texts@[row] {
                    Some(s) => value == crate::scan::agg::accumulator::RowModel::Text(s@),
                    None => value is Missing,
                }
            }
        }),
{
}

/// The length of a text is the number of its characters, whether the column is read as raw strings
/// or as texts; a cell that holds a length offers it as it is. Sums take a length as such, and what
/// compares or collects lengths takes it as a number. A null has no length.
pub proof fn law_lengths_taken(
    seg: SegmentColumns,
    raw_cols: Seq<bool>,
    spec: AggExecSpec,
    row: int,
    texts: Vec<Option<String>>,
)
    requires
        !(spec.agg_type is CountStar) && !(spec.agg_type is Count),
        spec.expr_kind is LengthOf,
        0 <= spec.col_idx < seg.cells@.len(),
        spec.col_idx < seg.lengths@.len(),
        ({
            let col = spec.col_idx as int;
            if col < raw_cols.len() && raw_cols[col] {
                seg.raw_strings@[col] == Some(texts)
            } else {
                seg.texts@[col] == Some(texts)
            }
        }),
        texts@[row] matches Some(s) ==> s@.len() <= i64::MAX,
    ensures
        ({
            let value = value_at(seg, raw_cols, spec, row);
            let col = spec.col_idx as int;
            let raw = col < raw_cols.len() && raw_cols[col];
            if !raw && word_at(seg, col, row) is None {
                value is Missing
            } else if !raw && seg.lengths@[col] {
                value == crate::scan::agg::accumulator::RowModel::Word(word_at(seg, col, row)->0)
            } else {
                match texts@[row] {
                    Some(s) => if spec.agg_type is Sum || spec.agg_type is Avg {
                        value matches crate::scan::agg::accumulator::RowModel::Length(n) && n
                            == s@.len()
                    } else {
                        value matches crate::scan::agg::accumulator::RowModel::Word(w)
                            && crate::scan::datum::signed(w) == s@.len()
                    },
                    None => value is Missing,
                }
            }
        }),
{
}

/// The group key of a row has a component for each group expression: null for a null, the number of
/// a column, that number with the constant, the start of the unit that holds a time, the field of a
/// time, the text of a text column, or the recorded result of `regexp_replace` for its string.
pub proof fn law_key_parts(
    seg: SegmentColumns,
    groups: Seq<GroupByColSpec>,
    regex: Seq<Map<Seq<char>, String>>,
    row: int,
    i: int,
)
    requires
        0 <= i < groups.len(),
        i < regex.len(),
        key_ok(seg, groups[i], regex[i], row),
    ensures
        ({
            let gs = groups[i];
            let col = gs.col_idx as int;
            let key = key_at(seg, groups, regex, row);
            let part = key[i];
            &&& key.len() == groups.len()
            &&& match word_at(seg, col, row) {
                None => part is Null,
                Some(w) => {
                    let v = crate::scan::datum::signed(w);
                    match gs.expr {
                        GroupByExpr::Column => match seg.seg_text@[col] {
                            None => part matches crate::scan::agg::group::KeyPart::Int(n) && n == v,
                            Some(t) => match crate::scan::text_col::str_at(t, row) {
                                Some(s) => part == crate::scan::agg::group::KeyPart::Text(s),
                                None => part is Null,
                            },
                        },
                        GroupByExpr::AddConst { offset, .. } => part matches
                            crate::scan::agg::group::KeyPart::Int(n) && n - offset == v,
                        GroupByExpr::DateTrunc { unit_usecs, .. } => part matches
                            crate::scan::agg::group::KeyPart::Int(n) && n as int % unit_usecs as int
                            == 0 && n <= v < n + unit_usecs,
                        GroupByExpr::Extract { unit, .. } => i64::MIN
                            <= crate::scan::agg::time::time_field(v, unit@) <= i64::MAX ==> (
                        part matches crate::scan::agg::group::KeyPart::Int(n) && n
                            == crate::scan::agg::time::time_field(v, unit@)),
                        GroupByExpr::RegexpReplace { .. } => match seg.raw_strings@[col] {
                            Some(strings) => match strings@[row] {
                                Some(s) => regex[i].contains_key(s@) && part
                                    == crate::scan::agg::group::KeyPart::Text(regex[i][s@]@),
                                None => part is Null,
                            },
                            None => part is Null,
                        },
                    }
                },
            }
        }),
{
    let gs = groups[i];
    let col = gs.col_idx as int;
    assert(crate::scan::agg::regex::results_of(regex, i) == regex[i]);
    if let Some(w) = word_at(seg, col, row) {
        crate::scan::datum::law_word_roundtrip(0, w);
        if let GroupByExpr::DateTrunc { unit_usecs, .. } = gs.expr {
            crate::scan::agg::time::law_date_trunc(
                crate::scan::datum::signed(w),
                unit_usecs as int,
            );
        }
    }
}

/// Rows are in one group of a number column exactly if both are null or hold the same number.
pub proof fn law_same_key(
    seg: SegmentColumns,
    gs: GroupByColSpec,
    regex: Map<Seq<char>, String>,
    a: int,
    b: int,
)
    requires
        gs.expr is Column,
        0 <= gs.col_idx < seg.cells@.len(),
        seg.seg_text@[gs.col_idx as int] is None,
    ensures
        key_part(seg, gs, regex, a) == key_part(seg, gs, regex, b) <==> word_at(
            seg,
            gs.col_idx as int,
            a,
        ) == word_at(seg, gs.col_idx as int, b),
{
    let col = gs.col_idx as int;
    if let Some(w) = word_at(seg, col, a) {
        crate::scan::datum::law_word_roundtrip(0, w);
    }
    if let Some(w) = word_at(seg, col, b) {
        crate::scan::datum::law_word_roundtrip(0, w);
    }
}

/// What a segment must hold of a row is no more than what is read: nothing for `COUNT(*)`, the cell
/// of a column for counts, sums and averages of it, and for a text that is compared, collected or
/// measured its text where the cell is not null. A column without cells counts as null.
pub proof fn law_enough_for_values(
    seg: SegmentColumns,
    raw_cols: Seq<bool>,
    spec: AggExecSpec,
    row: int,
)
    ensures
        spec.agg_type is CountStar ==> value_ok(seg, raw_cols, spec, row),
        ({
            let col = spec.col_idx as int;
            let raw = 0 <= col < raw_cols.len() && raw_cols[col];
            let has_cell = 0 <= col < seg.cells@.len() && (seg.cells@[col]@.len() == 0 || 0 <= row
                < seg.cells@[col]@.len());
            let has_text = 0 <= col < seg.texts@.len() && (seg.texts@[col] matches Some(s) && 0
                <= row < s@.len() && s@[row] is Some);
            let has_raw = 0 <= col < seg.raw_strings@.len() && (
            seg.raw_strings@[col] matches Some(s) && 0 <= row < s@.len());
            &&& (spec.agg_type is Count || (spec.agg_type is Sum || spec.agg_type is Avg) && !(
            spec.expr_kind is LengthOf)) && has_cell ==> value_ok(seg, raw_cols, spec, row)
            &&& !(spec.agg_type is CountStar) && !(spec.agg_type is Count) && has_cell && has_raw
                && has_text ==> value_ok(seg, raw_cols, spec, row)
            &&& !raw && has_cell && word_at(seg, col, row) is None ==> value_ok(
                seg,
                raw_cols,
                spec,
                row,
            )
        }),
{
}

/// What a segment must hold of a row for a group expression is no more than what is read: nothing but
/// the cell of a null; of a number the number, which with a constant or truncated fits in 64 bits; of
/// a text its text; and for `regexp_replace` the string and its result.
pub proof fn law_enough_for_keys(
    seg: SegmentColumns,
    gs: GroupByColSpec,
    regex: Map<Seq<char>, String>,
    row: int,
)
    requires
        0 <= gs.col_idx < seg.cells@.len(),
        seg.cells@[gs.col_idx as int]@.len() == 0 || 0 <= row
            < seg.cells@[gs.col_idx as int]@.len(),
    ensures
        ({
            let col = gs.col_idx as int;
            match word_at(seg, col, row) {
                None => key_ok(seg, gs, regex, row),
                Some(w) => {
                    let v = crate::scan::datum::signed(w);
                    match gs.expr {
                        GroupByExpr::Column => col < seg.seg_text@.len() && seg.seg_text@[col]
                            is None ==> key_ok(seg, gs, regex, row),
                        GroupByExpr::Extract { .. } => key_ok(seg, gs, regex, row),
                        GroupByExpr::AddConst { offset, .. } => -0x8000_0000_0000_0000 <= v + offset
                            <= 0x7fff_ffff_ffff_ffff ==> key_ok(seg, gs, regex, row),
                        GroupByExpr::DateTrunc { unit_usecs, .. } => unit_usecs > 0 && v - unit_usecs
                            >= -0x8000_0000_0000_0000 ==> key_ok(seg, gs, regex, row),
                        GroupByExpr::RegexpReplace { .. } => col < seg.raw_strings@.len() && (
                        seg.raw_strings@[col] matches Some(s) && 0 <= row < s@.len() && (
                        s@[row] matches Some(t) ==> regex.contains_key(t@))) ==> key_ok(
                            seg,
                            gs,
                            regex,
                            row,
                        ),
                    }
                },
            }
        }),
{
    if let Some(w) = word_at(seg, gs.col_idx as int, row) {
        if let GroupByExpr::DateTrunc { unit_usecs, .. } = gs.expr {
            if unit_usecs > 0 {
                crate::scan::agg::time::law_date_trunc(
                    crate::scan::datum::signed(w),
                    unit_usecs as int,
                );
            }
        }
    }
}

} // verus!
