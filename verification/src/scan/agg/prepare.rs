//! Which columns an aggregation reads and how, and which segments it can skip.

use crate::scan::agg::accumulator::{AggExecSpec, AggExpr, AggType};
use crate::scan::agg::plan::{GroupByColSpec, GroupByExpr};
use crate::scan::datum::{is_text_type, NAMEOID};
use crate::text;
use vstd::prelude::*;

verus! {

/// How a qualifier of the WHERE clause compares a column.
#[derive(Clone, Copy, PartialEq, Eq, Structural, Debug)]
pub enum BatchCompareOp {
    Eq,
    Ne,
    Lt,
    Le,
    Gt,
    Ge,
    InList,
    Like,
    NotLike,
}

/// A qualifier of the WHERE clause that is evaluated on whole columns.
pub struct BatchQual {
    pub col_idx: usize,
    pub op: BatchCompareOp,
    /// The constant, if it is a text.
    pub text_const: Option<String>,
}

/// Whether a column number is that of a column.
pub open spec fn is_column(col_idx: i32, col: int) -> bool {
    col_idx >= 0 && col_idx == col
}

/// Whether a column is read by an aggregate.
pub open spec fn read_by_agg(specs: Seq<AggExecSpec>, col: int) -> bool {
    exists|i: int| 0 <= i < specs.len() && is_column((#[trigger] specs[i]).col_idx, col)
}

/// Whether a column is read by a group expression.
pub open spec fn read_by_group(groups: Seq<GroupByColSpec>, col: int) -> bool {
    exists|i: int| 0 <= i < groups.len() && is_column((#[trigger] groups[i]).col_idx, col)
}

/// Whether a column is read by a qualifier.
pub open spec fn read_by_qual(quals: Seq<BatchQual>, col: int) -> bool {
    exists|i: int| 0 <= i < quals.len() && (#[trigger] quals[i]).col_idx == col
}

/// Whether an aggregate reads a column.
fn agg_reads(specs: &Vec<AggExecSpec>, col: usize) -> (r: bool)
    ensures
        r == read_by_agg(specs@, col as int),
{
    let mut i: usize = 0;
    while i < specs.len()
        invariant
            i <= specs@.len(),
            forall|k: int| 0 <= k < i ==> !is_column((#[trigger] specs@[k]).col_idx, col as int),
        decreases specs@.len() - i,
    {
        if specs[i].col_idx >= 0 && specs[i].col_idx as usize == col {
            assert(is_column(specs@[i as int].col_idx, col as int));
            return true;
        }
        i = i + 1;
    }
    false
}

/// Whether a group expression reads a column.
fn group_reads(groups: &Vec<GroupByColSpec>, col: usize) -> (r: bool)
    ensures
        r == read_by_group(groups@, col as int),
{
    let mut i: usize = 0;
    while i < groups.len()
        invariant
            i <= groups@.len(),
            forall|k: int| 0 <= k < i ==> !is_column((#[trigger] groups@[k]).col_idx, col as int),
        decreases groups@.len() - i,
    {
        if groups[i].col_idx >= 0 && groups[i].col_idx as usize == col {
            assert(is_column(groups@[i as int].col_idx, col as int));
            return true;
        }
        i = i + 1;
    }
    false
}

/// Whether a qualifier reads a column.
fn qual_reads(quals: &Vec<BatchQual>, col: usize) -> (r: bool)
    ensures
        r == read_by_qual(quals@, col as int),
{
    let mut i: usize = 0;
    while i < quals.len()
        invariant
            i <= quals@.len(),
            forall|k: int| 0 <= k < i ==> (#[trigger] quals@[k]).col_idx != col,
        decreases quals@.len() - i,
    {
        if quals[i].col_idx == col {
            assert(quals@[i as int].col_idx == col);
            return true;
        }
        i = i + 1;
    }
    false
}

/// Whether a column is read by an aggregate, a group expression or a qualifier.
pub open spec fn is_read(
    specs: Seq<AggExecSpec>,
    groups: Seq<GroupByColSpec>,
    quals: Seq<BatchQual>,
    col: int,
) -> bool {
    read_by_agg(specs, col) || read_by_group(groups, col) || read_by_qual(quals, col)
}

/// The columns that an aggregation reads: those of its aggregates, group expressions and
/// qualifiers.
pub fn needed_columns(
    specs: &Vec<AggExecSpec>,
    groups: &Vec<GroupByColSpec>,
    quals: &Vec<BatchQual>,
    columns: usize,
) -> (needed: Vec<bool>)
    ensures
        needed@ == Seq::new(columns as nat, |col: int| is_read(specs@, groups@, quals@, col)),
{
    let mut needed: Vec<bool> = Vec::new();
    let mut col: usize = 0;
    while col < columns
        invariant
            col <= columns,
            needed@.len() == col,
            forall|c: int|
                0 <= c < col ==> #[trigger] needed@[c] == (read_by_agg(specs@, c) || read_by_group(
                    groups@,
                    c,
                ) || read_by_qual(quals@, c)),
        decreases columns - col,
    {
        let n: bool = agg_reads(specs, col) || group_reads(groups, col) || qual_reads(quals, col);
        needed.push(n);
        col = col + 1;
    }
    assert(needed@ =~= Seq::new(
        columns as nat,
        |col: int| is_read(specs@, groups@, quals@, col),
    ));
    needed
}

/// Whether a column is read by aggregates, and by all of them for its length only.
pub open spec fn length_only(specs: Seq<AggExecSpec>, col: int) -> bool {
    &&& read_by_agg(specs, col)
    &&& forall|i: int|
        0 <= i < specs.len() && is_column((#[trigger] specs[i]).col_idx, col) ==> specs[i].expr_kind
            == AggExpr::LengthOf
}

/// The columns of which only lengths are read; they are decompressed to lengths.
pub fn length_columns(specs: &Vec<AggExecSpec>, columns: usize) -> (lengths: Vec<bool>)
    ensures
        lengths@ == Seq::new(columns as nat, |col: int| length_only(specs@, col)),
{
    let mut lengths: Vec<bool> = Vec::new();
    let mut col: usize = 0;
    while col < columns
        invariant
            col <= columns,
            lengths@.len() == col,
            forall|c: int| 0 <= c < col ==> #[trigger] lengths@[c] == length_only(specs@, c),
        decreases columns - col,
    {
        let mut found: bool = false;
        let mut all: bool = true;
        let mut i: usize = 0;
        while i < specs.len()
            invariant
                i <= specs@.len(),
                found == exists|k: int|
                    0 <= k < i && is_column((#[trigger] specs@[k]).col_idx, col as int),
                all == forall|k: int|
                    0 <= k < i && is_column((#[trigger] specs@[k]).col_idx, col as int)
                        ==> specs@[k].expr_kind == AggExpr::LengthOf,
            decreases specs@.len() - i,
        {
            if specs[i].col_idx >= 0 && specs[i].col_idx as usize == col {
                assert(is_column(specs@[i as int].col_idx, col as int));
                found = true;
                if specs[i].expr_kind != AggExpr::LengthOf {
                    all = false;
                }
            }
            i = i + 1;
        }
        lengths.push(found && all);
        col = col + 1;
    }
    assert(lengths@ =~= Seq::new(columns as nat, |col: int| length_only(specs@, col)));
    lengths
}

/// Whether a group expression applies `regexp_replace` to a column.
pub open spec fn regexp_on(groups: Seq<GroupByColSpec>, col: int) -> bool {
    exists|i: int|
        0 <= i < groups.len() && is_column((#[trigger] groups[i]).col_idx, col)
            && groups[i].expr is RegexpReplace
}

/// Whether rows are grouped by a text column itself.
pub open spec fn text_group_on(groups: Seq<GroupByColSpec>, col: int) -> bool {
    exists|i: int|
        0 <= i < groups.len() && is_column((#[trigger] groups[i]).col_idx, col)
            && groups[i].expr is Column && (crate::scan::datum::is_text_oid(groups[i].type_oid)
            || groups[i].type_oid == NAMEOID)
}

/// The columns that are decompressed to raw strings because `regexp_replace` is applied to them.
pub fn raw_string_columns(groups: &Vec<GroupByColSpec>, columns: usize) -> (raw: Vec<bool>)
    ensures
        raw@ == Seq::new(columns as nat, |col: int| regexp_on(groups@, col)),
{
    let mut raw: Vec<bool> = Vec::new();
    let mut col: usize = 0;
    while col < columns
        invariant
            col <= columns,
            raw@.len() == col,
            forall|c: int| 0 <= c < col ==> #[trigger] raw@[c] == regexp_on(groups@, c),
        decreases columns - col,
    {
        let mut found: bool = false;
        let mut i: usize = 0;
        while i < groups.len()
            invariant
                i <= groups@.len(),
                found == exists|k: int|
                    0 <= k < i && is_column((#[trigger] groups@[k]).col_idx, col as int)
                        && groups@[k].expr is RegexpReplace,
            decreases groups@.len() - i,
        {
            if groups[i].col_idx >= 0 && groups[i].col_idx as usize == col {
                if let GroupByExpr::RegexpReplace { .. } = &groups[i].expr {
                    assert(is_column(groups@[i as int].col_idx, col as int));
                    found = true;
                }
            }
            i = i + 1;
        }
        raw.push(found);
        col = col + 1;
    }
    assert(raw@ =~= Seq::new(columns as nat, |col: int| regexp_on(groups@, col)));
    raw
}

/// The text columns that rows are grouped by.
pub fn text_group_columns(groups: &Vec<GroupByColSpec>, columns: usize) -> (cols: Vec<bool>)
    ensures
        cols@ == Seq::new(columns as nat, |col: int| text_group_on(groups@, col)),
{
    let mut cols: Vec<bool> = Vec::new();
    let mut col: usize = 0;
    while col < columns
        invariant
            col <= columns,
            cols@.len() == col,
            forall|c: int| 0 <= c < col ==> #[trigger] cols@[c] == text_group_on(groups@, c),
        decreases columns - col,
    {
        let mut found: bool = false;
        let mut i: usize = 0;
        while i < groups.len()
            invariant
                i <= groups@.len(),
                found == exists|k: int|
                    0 <= k < i && is_column((#[trigger] groups@[k]).col_idx, col as int)
                        && groups@[k].expr is Column && (crate::scan::datum::is_text_oid(
                        groups@[k].type_oid,
                    ) || groups@[k].type_oid == NAMEOID),
            decreases groups@.len() - i,
        {
            let text_typed: bool = is_text_type(groups[i].type_oid) || groups[i].type_oid
                == NAMEOID;
            if groups[i].col_idx >= 0 && groups[i].col_idx as usize == col && text_typed {
                if let GroupByExpr::Column = &groups[i].expr {
                    assert(is_column(groups@[i as int].col_idx, col as int));
                    found = true;
                }
            }
            i = i + 1;
        }
        cols.push(found);
        col = col + 1;
    }
    assert(cols@ =~= Seq::new(columns as nat, |col: int| text_group_on(groups@, col)));
    cols
}

// ---------------------------------------------------------------------------
// Skipping segments
// ---------------------------------------------------------------------------

/// The text of an optional string.
pub open spec fn opt_view(s: Option<String>) -> Option<Seq<char>> {
    match s {
        Some(s) => Some(s@),
        None => None,
    }
}

/// Whether the value of a segment-by column is not the one that is asked for; null never is.
pub open spec fn value_excluded(values: Seq<Option<String>>, filter: (usize, String)) -> bool {
    opt_view(values[filter.0 as int]) != Some(filter.1@)
}

/// Whether a segment lies outside the time range that is asked for.
pub open spec fn time_excluded(
    seg_min: Option<i64>,
    seg_max: Option<i64>,
    time_min: Option<i64>,
    time_max: Option<i64>,
) -> bool {
    match (seg_min, seg_max) {
        (Some(lo), Some(hi)) => (time_min is Some && hi < time_min->0) || (time_max is Some && lo
            > time_max->0),
        _ => false,
    }
}

/// Whether a segment can be skipped: it has no rows, a segment-by value that is not asked for, or
/// lies outside the time range.
pub open spec fn pruned(
    row_count: i32,
    segment_values: Seq<Option<String>>,
    seg_filters: Seq<(usize, String)>,
    seg_time: (Option<i64>, Option<i64>),
    query_time: (Option<i64>, Option<i64>),
) -> bool {
    ||| row_count == 0
    ||| exists|i: int|
        0 <= i < seg_filters.len() && value_excluded(segment_values, #[trigger] seg_filters[i])
    ||| time_excluded(seg_time.0, seg_time.1, query_time.0, query_time.1)
}

/// Whether a segment can be skipped: it has no rows, a segment-by value that is not asked for, or
/// lies outside the time range.
pub fn segment_pruned(
    row_count: i32,
    segment_values: &Vec<Option<String>>,
    seg_filters: &Vec<(usize, String)>,
    seg_time: (Option<i64>, Option<i64>),
    query_time: (Option<i64>, Option<i64>),
) -> (r: bool)
    requires
        forall|i: int|
            0 <= i < seg_filters@.len() ==> (#[trigger] seg_filters@[i]).0 < segment_values@.len(),
    ensures
        r == pruned(row_count, segment_values@, seg_filters@, seg_time, query_time),
{
    if row_count == 0 {
        return true;
    }
    let mut i: usize = 0;
    while i < seg_filters.len()
        invariant
            i <= seg_filters@.len(),
            forall|k: int|
                0 <= k < seg_filters@.len() ==> (#[trigger] seg_filters@[k]).0
                    < segment_values@.len(),
            forall|k: int|
                0 <= k < i ==> !value_excluded(segment_values@, #[trigger] seg_filters@[k]),
        decreases seg_filters@.len() - i,
    {
        let filter = &seg_filters[i];
        let matches_filter: bool = match &segment_values[filter.0] {
            Some(v) => text::str_eq(v.as_str(), filter.1.as_str()),
            None => false,
        };
        if !matches_filter {
            assert(value_excluded(segment_values@, seg_filters@[i as int]));
            return true;
        }
        i = i + 1;
    }
    match (seg_time.0, seg_time.1) {
        (Some(lo), Some(hi)) => {
            let before: bool = match query_time.0 {
                Some(from) => hi < from,
                None => false,
            };
            let after: bool = match query_time.1 {
                Some(to) => lo > to,
                None => false,
            };
            before || after
        },
        _ => false,
    }
}

// ---------------------------------------------------------------------------
// How columns are decompressed
// ---------------------------------------------------------------------------

/// Where the cells of a column come from.
#[derive(Clone, Copy, PartialEq, Eq, Structural, Debug)]
pub enum ColumnRoute {
    /// Nowhere: the column is not needed.
    Skip,
    /// The segment-by value with this number, for every row.
    SegmentBy(usize),
    /// The blob with this number, as raw strings; `true` if empty strings are to be dropped.
    RawStrings(usize, bool),
    /// The blob with this number, as lengths; `true` if empty strings are to be dropped.
    Lengths(usize, bool),
    /// The blob with this number, filtered by the LIKE qualifier with that number.
    Like(usize, usize),
    /// The blob with this number, filtered by the text equality qualifier with that number.
    TextEq(usize, usize),
    /// The blob with this number.
    Plain(usize),
}

/// Whether a qualifier drops the empty strings of a column.
pub open spec fn drops_empty(q: BatchQual, col: int) -> bool {
    q.col_idx == col && q.op == BatchCompareOp::Ne && (q.text_const matches Some(s) && s@ == ""@)
}

/// Whether a qualifier is a LIKE qualifier of a column.
pub open spec fn likes(q: BatchQual, col: int) -> bool {
    q.col_idx == col && (q.op == BatchCompareOp::Like || q.op == BatchCompareOp::NotLike)
}

/// Whether a qualifier compares a column with a text for equality.
pub open spec fn equals_text(q: BatchQual, col: int) -> bool {
    q.col_idx == col && q.text_const is Some && (q.op == BatchCompareOp::Eq || q.op
        == BatchCompareOp::Ne)
}

/// Whether any qualifier drops the empty strings of a column.
pub open spec fn any_drops_empty(quals: Seq<BatchQual>, col: int) -> bool {
    exists|i: int| 0 <= i < quals.len() && drops_empty(#[trigger] quals[i], col)
}

/// The first LIKE qualifier of a column among those from `from` on.
pub open spec fn first_like(quals: Seq<BatchQual>, col: int, from: int) -> Option<usize>
    decreases quals.len() - from,
{
    if from >= quals.len() {
        None
    } else if likes(quals[from], col) {
        Some(from as usize)
    } else {
        first_like(quals, col, from + 1)
    }
}

/// The first text equality qualifier of a column among those from `from` on.
pub open spec fn first_text_eq(quals: Seq<BatchQual>, col: int, from: int) -> Option<usize>
    decreases quals.len() - from,
{
    if from >= quals.len() {
        None
    } else if equals_text(quals[from], col) {
        Some(from as usize)
    } else {
        first_text_eq(quals, col, from + 1)
    }
}

/// How many of the first `col` columns are segment-by columns.
pub open spec fn segment_by_before(
    names: Seq<Seq<char>>,
    segment_by: Seq<Seq<char>>,
    col: nat,
) -> nat
    decreases col,
{
    if col == 0 {
        0
    } else {
        segment_by_before(names, segment_by, (col - 1) as nat) + if segment_by.contains(
            names[col - 1],
        ) {
            1nat
        } else {
            0nat
        }
    }
}

/// Where the cells of a column come from. Segment-by values and blobs are numbered apart, each in
/// the order of the columns.
pub open spec fn route_of(
    names: Seq<Seq<char>>,
    segment_by: Seq<Seq<char>>,
    needed: Seq<bool>,
    raw: Seq<bool>,
    lengths: Seq<bool>,
    quals: Seq<BatchQual>,
    col: int,
) -> ColumnRoute {
    let values_before = segment_by_before(names, segment_by, col as nat);
    let blob = (col - values_before) as usize;
    if !needed[col] {
        ColumnRoute::Skip
    } else if segment_by.contains(names[col]) {
        ColumnRoute::SegmentBy(values_before as usize)
    } else if raw[col] {
        ColumnRoute::RawStrings(blob, any_drops_empty(quals, col))
    } else if lengths[col] {
        ColumnRoute::Lengths(blob, any_drops_empty(quals, col))
    } else {
        match first_like(quals, col, 0) {
            Some(q) => ColumnRoute::Like(blob, q),
            None => match first_text_eq(quals, col, 0) {
                Some(q) => ColumnRoute::TextEq(blob, q),
                None => ColumnRoute::Plain(blob),
            },
        }
    }
}

/// Whether any qualifier drops the empty strings of a column.
fn find_drops_empty(quals: &Vec<BatchQual>, col: usize) -> (r: bool)
    ensures
        r == any_drops_empty(quals@, col as int),
{
    let mut i: usize = 0;
    while i < quals.len()
        invariant
            i <= quals@.len(),
            forall|k: int| 0 <= k < i ==> !drops_empty(#[trigger] quals@[k], col as int),
        decreases quals@.len() - i,
    {
        let q = &quals[i];
        let empty_const: bool = match &q.text_const {
            Some(s) => text::str_eq(s.as_str(), ""),
            None => false,
        };
        if q.col_idx == col && q.op == BatchCompareOp::Ne && empty_const {
            assert(drops_empty(quals@[i as int], col as int));
            return true;
        }
        i = i + 1;
    }
    false
}

/// The first LIKE qualifier of a column.
fn find_like(quals: &Vec<BatchQual>, col: usize) -> (r: Option<usize>)
    ensures
        r == first_like(quals@, col as int, 0),
{
    let mut i: usize = 0;
    while i < quals.len()
        invariant
            i <= quals@.len(),
            first_like(quals@, col as int, 0) == first_like(quals@, col as int, i as int),
        decreases quals@.len() - i,
    {
        let q = &quals[i];
        if q.col_idx == col && (q.op == BatchCompareOp::Like || q.op == BatchCompareOp::NotLike) {
            return Some(i);
        }
        i = i + 1;
    }
    None
}

/// The first text equality qualifier of a column.
fn find_text_eq(quals: &Vec<BatchQual>, col: usize) -> (r: Option<usize>)
    ensures
        r == first_text_eq(quals@, col as int, 0),
{
    let mut i: usize = 0;
    while i < quals.len()
        invariant
            i <= quals@.len(),
            first_text_eq(quals@, col as int, 0) == first_text_eq(quals@, col as int, i as int),
        decreases quals@.len() - i,
    {
        let q = &quals[i];
        if q.col_idx == col && q.text_const.is_some() && (q.op == BatchCompareOp::Eq || q.op
            == BatchCompareOp::Ne) {
            return Some(i);
        }
        i = i + 1;
    }
    None
}

/// Whether an aggregate reads the text of a column's cells: it compares or collects the texts of a
/// text column, or it measures them and the cells do not hold their lengths.
pub open spec fn reads_text(spec: AggExecSpec, route: ColumnRoute) -> bool {
    if spec.expr_kind == AggExpr::LengthOf {
        !(route is Lengths) && (crate::scan::agg::accumulator::collects(spec.agg_type)
            || spec.agg_type == AggType::Sum || spec.agg_type == AggType::Avg)
    } else {
        crate::scan::agg::accumulator::collects(spec.agg_type) && crate::scan::datum::is_text_oid(
            spec.col_type_oid,
        )
    }
}

/// Whether an aggregate reads the texts of a column's cells.
pub open spec fn texts_wanted(specs: Seq<AggExecSpec>, route: ColumnRoute, col: int) -> bool {
    exists|i: int|
        0 <= i < specs.len() && is_column((#[trigger] specs[i]).col_idx, col) && reads_text(
            specs[i],
            route,
        )
}

/// The columns whose cells' texts the aggregates read, given where the cells come from.
pub fn text_value_columns(specs: &Vec<AggExecSpec>, routes: &Vec<ColumnRoute>) -> (cols: Vec<bool>)
    ensures
        cols@ == Seq::new(routes@.len(), |col: int| texts_wanted(specs@, routes@[col], col)),
{
    let mut cols: Vec<bool> = Vec::new();
    let mut col: usize = 0;
    while col < routes.len()
        invariant
            col <= routes@.len(),
            cols@.len() == col,
            forall|c: int|
                0 <= c < col ==> #[trigger] cols@[c] == texts_wanted(specs@, routes@[c], c),
        decreases routes@.len() - col,
    {
        let route: ColumnRoute = routes[col];
        let as_lengths: bool = match route {
            ColumnRoute::Lengths(_, _) => true,
            _ => false,
        };
        let mut found: bool = false;
        let mut i: usize = 0;
        while i < specs.len()
            invariant
                i <= specs@.len(),
                as_lengths == (route is Lengths),
                found == exists|k: int|
                    0 <= k < i && is_column((#[trigger] specs@[k]).col_idx, col as int)
                        && reads_text(specs@[k], route),
            decreases specs@.len() - i,
        {
            let spec: AggExecSpec = specs[i];
            let reads: bool = match spec.agg_type {
                AggType::CountDistinct | AggType::Min | AggType::Max => if spec.expr_kind
                    == AggExpr::LengthOf {
                    !as_lengths
                } else {
                    is_text_type(spec.col_type_oid)
                },
                AggType::Sum | AggType::Avg => spec.expr_kind == AggExpr::LengthOf && !as_lengths,
                AggType::Count | AggType::CountStar => false,
            };
            assert(reads == reads_text(specs@[i as int], route));
            if spec.col_idx >= 0 && spec.col_idx as usize == col && reads {
                assert(is_column(specs@[i as int].col_idx, col as int));
                found = true;
            }
            i = i + 1;
        }
        cols.push(found);
        col = col + 1;
    }
    assert(cols@ =~= Seq::new(routes@.len(), |col: int| texts_wanted(specs@, routes@[col], col)));
    cols
}

/// Decides for every column where its cells come from.
pub fn column_routes(
    col_names: &Vec<String>,
    segment_by: &Vec<String>,
    needed: &Vec<bool>,
    raw: &Vec<bool>,
    lengths: &Vec<bool>,
    quals: &Vec<BatchQual>,
) -> (routes: Vec<ColumnRoute>)
    requires
        needed@.len() == col_names@.len(),
        raw@.len() == col_names@.len(),
        lengths@.len() == col_names@.len(),
    ensures
        routes@ == Seq::new(
            col_names@.len(),
            |col: int|
                route_of(
                    text::views(col_names@),
                    text::views(segment_by@),
                    needed@,
                    raw@,
                    lengths@,
                    quals@,
                    col,
                ),
        ),
{
    let ghost names = text::views(col_names@);
    let ghost seg = text::views(segment_by@);
    let mut routes: Vec<ColumnRoute> = Vec::new();
    let mut values: usize = 0;
    let mut blobs: usize = 0;
    let mut col: usize = 0;
    while col < col_names.len()
        invariant
            col <= col_names@.len(),
            names == text::views(col_names@),
            seg == text::views(segment_by@),
            needed@.len() == col_names@.len(),
            raw@.len() == col_names@.len(),
            lengths@.len() == col_names@.len(),
            values == segment_by_before(names, seg, col as nat),
            values + blobs == col,
            routes@.len() == col,
            forall|c: int|
                0 <= c < col ==> #[trigger] routes@[c] == route_of(
                    names,
                    seg,
                    needed@,
                    raw@,
                    lengths@,
                    quals@,
                    c,
                ),
        decreases col_names@.len() - col,
    {
        assert(names[col as int] == col_names@[col as int]@);
        let by_segment: bool = text::contains_name(segment_by, col_names[col].as_str());
        let route = if !needed[col] {
            ColumnRoute::Skip
        } else if by_segment {
            ColumnRoute::SegmentBy(values)
        } else if raw[col] {
            ColumnRoute::RawStrings(blobs, find_drops_empty(quals, col))
        } else if lengths[col] {
            ColumnRoute::Lengths(blobs, find_drops_empty(quals, col))
        } else {
            match find_like(quals, col) {
                Some(q) => ColumnRoute::Like(blobs, q),
                None => match find_text_eq(quals, col) {
                    Some(q) => ColumnRoute::TextEq(blobs, q),
                    None => ColumnRoute::Plain(blobs),
                },
            }
        };
        routes.push(route);
        if by_segment {
            values = values + 1;
        } else {
            blobs = blobs + 1;
        }
        col = col + 1;
    }
    assert(routes@ =~= Seq::new(
        col_names@.len(),
        |col: int| route_of(names, seg, needed@, raw@, lengths@, quals@, col),
    ));
    routes
}

/// The selection of rows after another filter: an empty selection selects all rows.
pub open spec fn merged(pre: Seq<bool>, sel: Seq<bool>) -> Seq<bool> {
    if pre.len() == 0 {
        sel
    } else {
        Seq::new(
            pre.len(),
            |i: int|
                if i < sel.len() {
                    pre[i] && sel[i]
                } else {
                    pre[i]
                },
        )
    }
}

/// Narrows a selection of rows by another filter.
pub fn merge_selection(pre: Vec<bool>, sel: Vec<bool>) -> (r: Vec<bool>)
    ensures
        r@ == merged(pre@, sel@),
{
    if pre.is_empty() {
        return sel;
    }
    let mut r: Vec<bool> = Vec::new();
    let mut i: usize = 0;
    while i < pre.len()
        invariant
            i <= pre@.len(),
            pre@.len() > 0,
            r@.len() == i,
            forall|k: int| 0 <= k < i ==> #[trigger] r@[k] == merged(pre@, sel@)[k],
        decreases pre@.len() - i,
    {
        let keep: bool = if i < sel.len() {
            pre[i] && sel[i]
        } else {
            pre[i]
        };
        r.push(keep);
        i = i + 1;
    }
    assert(r@ =~= merged(pre@, sel@));
    r
}

/// Filters can be applied in any order: a row passes two filters over the same rows if it passes
/// both, whichever comes first.
pub proof fn law_filters_commute(a: Seq<bool>, b: Seq<bool>)
    requires
        a.len() == b.len(),
    ensures
        merged(a, b) == merged(b, a),
        forall|i: int| 0 <= i < a.len() ==> (#[trigger] merged(a, b)[i] <==> a[i] && b[i]),
{
    assert(merged(a, b) =~= merged(b, a));
}

/// A segment-by column takes its value, and any other column its blob, from a place of its own:
/// no two columns share one.
pub proof fn law_routes_distinct(
    names: Seq<Seq<char>>,
    segment_by: Seq<Seq<char>>,
    a: int,
    b: int,
)
    requires
        0 <= a < b < names.len(),
        segment_by.contains(names[a]) == segment_by.contains(names[b]),
    ensures
        segment_by.contains(names[a]) ==> segment_by_before(names, segment_by, a as nat)
            < segment_by_before(names, segment_by, b as nat),
        !segment_by.contains(names[a]) ==> a - segment_by_before(names, segment_by, a as nat) < b
            - segment_by_before(names, segment_by, b as nat),
{
    lemma_segment_by_before(names, segment_by, (a + 1) as nat, b as nat);
}

/// Of the columns between two, some are segment-by columns and the others are not.
proof fn lemma_segment_by_before(
    names: Seq<Seq<char>>,
    segment_by: Seq<Seq<char>>,
    k: nat,
    n: nat,
)
    requires
        k <= n,
    ensures
        segment_by_before(names, segment_by, k) <= segment_by_before(names, segment_by, n),
        segment_by_before(names, segment_by, n) - segment_by_before(names, segment_by, k) <= n - k,
    decreases n,
{
    if k < n {
        lemma_segment_by_before(names, segment_by, k, (n - 1) as nat);
    }
}

/// Whether the segment-by values of a segment are the ones asked for.
pub open spec fn values_asked_for(
    segment_values: Seq<Option<String>>,
    seg_filters: Seq<(usize, String)>,
) -> bool {
    forall|i: int|
        0 <= i < seg_filters.len() ==> (segment_values[(#[trigger] seg_filters[i]).0 as int] matches
            Some(v) && v@ == seg_filters[i].1@)
}

/// Whether a time is in a range, as far as the range is bounded.
pub open spec fn in_range(t: int, range: (Option<i64>, Option<i64>)) -> bool {
    &&& range.0 matches Some(from) ==> from <= t
    &&& range.1 matches Some(to) ==> t <= to
}

/// A segment that is skipped holds no row that passes: where it has rows and its segment-by values
/// are the ones asked for, both bounds of its times are known and no time between them is in the
/// range of the query.
pub proof fn law_skipped_segments_hold_nothing(
    row_count: i32,
    segment_values: Seq<Option<String>>,
    seg_filters: Seq<(usize, String)>,
    seg_time: (Option<i64>, Option<i64>),
    query_time: (Option<i64>, Option<i64>),
)
    requires
        pruned(row_count, segment_values, seg_filters, seg_time, query_time),
        row_count != 0,
        values_asked_for(segment_values, seg_filters),
    ensures
        seg_time.0 is Some && seg_time.1 is Some,
        forall|t: int| #[trigger] in_range(t, seg_time) ==> !in_range(t, query_time),
{
}

/// A segment that is not skipped may hold rows that pass: it has rows, its segment-by values are
/// the ones asked for, and where its times and those of the query each span a range, some time is
/// in both.
pub proof fn law_kept_segments_may_hold_rows(
    row_count: i32,
    segment_values: Seq<Option<String>>,
    seg_filters: Seq<(usize, String)>,
    seg_time: (Option<i64>, Option<i64>),
    query_time: (Option<i64>, Option<i64>),
)
    requires
        !pruned(row_count, segment_values, seg_filters, seg_time, query_time),
    ensures
        row_count != 0,
        values_asked_for(segment_values, seg_filters),
        seg_time.0 is Some && seg_time.1 is Some && seg_time.0->0 <= seg_time.1->0 && (
        query_time.0 is Some && query_time.1 is Some ==> query_time.0->0 <= query_time.1->0)
            ==> exists|t: int| #[trigger] in_range(t, seg_time) && in_range(t, query_time),
{
    assert forall|i: int| 0 <= i < seg_filters.len() implies (segment_values[(
    #[trigger] seg_filters[i]).0 as int] matches Some(v) && v@ == seg_filters[i].1@) by {
        assert(!value_excluded(segment_values, seg_filters[i]));
    }
    if seg_time.0 is Some && seg_time.1 is Some && seg_time.0->0 <= seg_time.1->0 && (
    query_time.0 is Some && query_time.1 is Some ==> query_time.0->0 <= query_time.1->0) {
        let t = match query_time.0 {
            Some(from) => if from > seg_time.0->0 {
                from as int
            } else {
                seg_time.0->0 as int
            },
            None => seg_time.0->0 as int,
        };
        assert(in_range(t, seg_time) && in_range(t, query_time));
    }
}

/// A column is read exactly if an aggregate, a group expression or a qualifier names it; a negative
/// number names none.
pub proof fn law_columns_read(
    specs: Seq<AggExecSpec>,
    groups: Seq<GroupByColSpec>,
    quals: Seq<BatchQual>,
    col: int,
)
    requires
        col >= 0,
    ensures
        is_read(specs, groups, quals, col) <==> {
            ||| exists|i: int| 0 <= i < specs.len() && (#[trigger] specs[i]).col_idx == col
            ||| exists|i: int| 0 <= i < groups.len() && (#[trigger] groups[i]).col_idx == col
            ||| exists|i: int| 0 <= i < quals.len() && (#[trigger] quals[i]).col_idx == col
        },
{
    if exists|i: int| 0 <= i < specs.len() && (#[trigger] specs[i]).col_idx == col {
        let i = choose|i: int| 0 <= i < specs.len() && (#[trigger] specs[i]).col_idx == col;
        assert(is_column(specs[i].col_idx, col));
    }
    if exists|i: int| 0 <= i < groups.len() && (#[trigger] groups[i]).col_idx == col {
        let i = choose|i: int| 0 <= i < groups.len() && (#[trigger] groups[i]).col_idx == col;
        assert(is_column(groups[i].col_idx, col));
    }
}

/// One more aggregate leaves a column to be read for its lengths only if it does not read the
/// column or reads its lengths; the first reader of lengths makes it so.
pub proof fn law_length_columns(specs: Seq<AggExecSpec>, spec: AggExecSpec, col: int)
    requires
        col >= 0,
    ensures
        !length_only(Seq::empty(), col),
        spec.col_idx != col ==> length_only(specs.push(spec), col) == length_only(specs, col),
        spec.col_idx == col && !(spec.expr_kind is LengthOf) ==> !length_only(
            specs.push(spec),
            col,
        ),
        spec.col_idx == col && spec.expr_kind is LengthOf ==> (length_only(specs.push(spec), col)
            <==> length_only(specs, col) || forall|i: int|
            0 <= i < specs.len() ==> (#[trigger] specs[i]).col_idx != col),
{
    let more = specs.push(spec);
    assert(more[specs.len() as int] == spec);
    assert(is_column(spec.col_idx, col) == (spec.col_idx == col));
    assert forall|i: int| 0 <= i < specs.len() implies #[trigger] more[i] == specs[i] by {}
    if read_by_agg(specs, col) {
        let i = choose|i: int|
            0 <= i < specs.len() && is_column((#[trigger] specs[i]).col_idx, col);
        assert(is_column(more[i].col_idx, col));
    }
    if read_by_agg(more, col) {
        let i = choose|i: int| 0 <= i < more.len() && is_column((#[trigger] more[i]).col_idx, col);
        if i < specs.len() {
            assert(is_column(specs[i].col_idx, col));
        }
    }
    if length_only(more, col) {
        assert forall|i: int|
            0 <= i < specs.len() && is_column((#[trigger] specs[i]).col_idx, col) implies
            specs[i].expr_kind == AggExpr::LengthOf by {
            assert(is_column(more[i].col_idx, col));
        }
    }
    if spec.col_idx == col {
        assert(is_column(more[specs.len() as int].col_idx, col));
    }
    assert forall|i: int| 0 <= i < specs.len() implies is_column((#[trigger] specs[i]).col_idx, col)
        == (specs[i].col_idx == col) by {}
}

/// One more group expression makes a column one of raw strings if it applies `regexp_replace` to it,
/// and one that rows are grouped by if it is the column itself and of a text type; otherwise the
/// column is what it was before.
pub proof fn law_group_columns(groups: Seq<GroupByColSpec>, group: GroupByColSpec, col: int)
    requires
        col >= 0,
    ensures
        !regexp_on(Seq::empty(), col) && !text_group_on(Seq::empty(), col),
        regexp_on(groups.push(group), col) <==> regexp_on(groups, col) || group.col_idx == col
            && group.expr is RegexpReplace,
        text_group_on(groups.push(group), col) <==> text_group_on(groups, col) || group.col_idx
            == col && group.expr is Column && (group.type_oid == 25 || group.type_oid == 1043
            || group.type_oid == 1042 || group.type_oid == 19),
{
    let more = groups.push(group);
    assert(more[groups.len() as int] == group);
    assert(is_column(group.col_idx, col) == (group.col_idx == col));
    assert forall|i: int| 0 <= i < groups.len() implies #[trigger] more[i] == groups[i] by {}
    if regexp_on(groups, col) {
        let i = choose|i: int|
            0 <= i < groups.len() && is_column((#[trigger] groups[i]).col_idx, col)
                && groups[i].expr is RegexpReplace;
        assert(is_column(more[i].col_idx, col));
    }
    if text_group_on(groups, col) {
        let i = choose|i: int|
            0 <= i < groups.len() && is_column((#[trigger] groups[i]).col_idx, col)
                && groups[i].expr is Column && (crate::scan::datum::is_text_oid(groups[i].type_oid)
                || groups[i].type_oid == NAMEOID);
        assert(is_column(more[i].col_idx, col));
    }
    if regexp_on(more, col) {
        let i = choose|i: int|
            0 <= i < more.len() && is_column((#[trigger] more[i]).col_idx, col)
                && more[i].expr is RegexpReplace;
        if i < groups.len() {
            assert(is_column(groups[i].col_idx, col));
        }
    }
    if text_group_on(more, col) {
        let i = choose|i: int|
            0 <= i < more.len() && is_column((#[trigger] more[i]).col_idx, col)
                && more[i].expr is Column && (crate::scan::datum::is_text_oid(more[i].type_oid)
                || more[i].type_oid == NAMEOID);
        if i < groups.len() {
            assert(is_column(groups[i].col_idx, col));
        }
    }
    if group.col_idx == col {
        assert(is_column(more[groups.len() as int].col_idx, col));
    }
}

/// Whether a qualifier is `LIKE` or `NOT LIKE` on a column.
pub open spec fn is_like_on(q: BatchQual, col: int) -> bool {
    q.col_idx == col && (q.op is Like || q.op is NotLike)
}

/// Whether a qualifier is `=` or `<>` between a column and a text.
pub open spec fn is_text_eq_on(q: BatchQual, col: int) -> bool {
    q.col_idx == col && q.text_const is Some && (q.op is Eq || q.op is Ne)
}

/// Whether the qualifier with number `found` is the first with a property, or none has it.
pub open spec fn is_first(
    quals: Seq<BatchQual>,
    wanted: spec_fn(BatchQual) -> bool,
    from: int,
    found: Option<usize>,
) -> bool {
    match found {
        Some(q) => {
            &&& from <= q < quals.len()
            &&& wanted(quals[q as int])
            &&& forall|i: int| from <= i < q ==> !wanted(#[trigger] quals[i])
        },
        None => forall|i: int| from <= i < quals.len() ==> !wanted(#[trigger] quals[i]),
    }
}

/// A column is filtered by its first LIKE qualifier and by its first equality with a text: such a
/// qualifier is found if there is one, and none comes before it.
pub proof fn law_first_qualifiers(quals: Seq<BatchQual>, col: int, from: int)
    requires
        0 <= from <= quals.len() <= usize::MAX,
    ensures
        is_first(quals, |q: BatchQual| is_like_on(q, col), from, first_like(quals, col, from)),
        is_first(
            quals,
            |q: BatchQual| is_text_eq_on(q, col),
            from,
            first_text_eq(quals, col, from),
        ),
    decreases quals.len() - from,
{
    if from < quals.len() {
        law_first_qualifiers(quals, col, from + 1);
    }
}

/// How a column is decompressed. One that is not read is skipped; a segment-by column takes its
/// value; of the others, those for `regexp_replace` are read as raw strings and those of which only
/// lengths are read as lengths, each without the empty strings if a qualifier `<> ''` drops them;
/// any other one is filtered by its first LIKE qualifier or else its first equality with a text, or
/// read as it is. A value is numbered by the segment-by columns before the column, a blob by the
/// others.
pub proof fn law_routes(
    names: Seq<Seq<char>>,
    segment_by: Seq<Seq<char>>,
    needed: Seq<bool>,
    raw: Seq<bool>,
    lengths: Seq<bool>,
    quals: Seq<BatchQual>,
    col: int,
)
    requires
        0 <= col < names.len() <= usize::MAX,
        quals.len() <= usize::MAX,
    ensures
        ({
            let shared = segment_by.contains(names[col]);
            let values = names.take(col).filter(|n: Seq<char>| segment_by.contains(n)).len();
            let no_empty = exists|i: int|
                0 <= i < quals.len() && (#[trigger] quals[i]).col_idx == col && quals[i].op is Ne
                    && (quals[i].text_const matches Some(s) && s@.len() == 0);
            let like = |q: BatchQual| is_like_on(q, col);
            let text_eq = |q: BatchQual| is_text_eq_on(q, col);
            let as_it_is = needed[col] && !shared && !raw[col] && !lengths[col];
            match route_of(names, segment_by, needed, raw, lengths, quals, col) {
                ColumnRoute::Skip => !needed[col],
                ColumnRoute::SegmentBy(v) => needed[col] && shared && v == values,
                ColumnRoute::RawStrings(b, drop) => needed[col] && !shared && raw[col] && b + values
                    == col && drop == no_empty,
                ColumnRoute::Lengths(b, drop) => needed[col] && !shared && !raw[col] && lengths[col]
                    && b + values == col && drop == no_empty,
                ColumnRoute::Like(b, q) => as_it_is && b + values == col && is_first(
                    quals,
                    like,
                    0,
                    Some(q),
                ),
                ColumnRoute::TextEq(b, q) => as_it_is && b + values == col && is_first(
                    quals,
                    like,
                    0,
                    None,
                ) && is_first(quals, text_eq, 0, Some(q)),
                ColumnRoute::Plain(b) => as_it_is && b + values == col && is_first(
                    quals,
                    like,
                    0,
                    None,
                ) && is_first(quals, text_eq, 0, None),
            }
        }),
{
    lemma_segment_by_counted(names, segment_by, col as nat);
    lemma_segment_by_before(names, segment_by, 0, col as nat);
    law_first_qualifiers(quals, col, 0);
    reveal_strlit("");
    assert forall|i: int| 0 <= i < quals.len() implies drops_empty(#[trigger] quals[i], col) == (
    quals[i].col_idx == col && quals[i].op is Ne && (quals[i].text_const matches Some(s) && s@.len()
        == 0)) by {
        if let Some(s) = quals[i].text_const {
            if s@.len() == 0 {
                assert(s@ =~= ""@);
            }
        }
    }
    let no_empty = exists|i: int|
        0 <= i < quals.len() && (#[trigger] quals[i]).col_idx == col && quals[i].op is Ne && (
        quals[i].text_const matches Some(s) && s@.len() == 0);
    if no_empty {
        let i = choose|i: int|
            0 <= i < quals.len() && (#[trigger] quals[i]).col_idx == col && quals[i].op is Ne && (
            quals[i].text_const matches Some(s) && s@.len() == 0);
        assert(drops_empty(quals[i], col));
    }
    assert(any_drops_empty(quals, col) == no_empty);
}

/// The segment-by columns before a column are those whose name is a segment-by name.
proof fn lemma_segment_by_counted(
    names: Seq<Seq<char>>,
    segment_by: Seq<Seq<char>>,
    col: nat,
)
    requires
        col <= names.len(),
    ensures
        segment_by_before(names, segment_by, col) == names.take(col as int).filter(
            |n: Seq<char>| segment_by.contains(n),
        ).len(),
    decreases col,
{
    reveal(Seq::filter);
    if col > 0 {
        lemma_segment_by_counted(names, segment_by, (col - 1) as nat);
        assert(names.take(col as int).drop_last() =~= names.take(col - 1));
    }
}

/// Counting never reads texts. Distinct counts and extrema of a text column do, and what is
/// measured by length does unless the cells hold the lengths already; sums and averages of columns
/// never do.
pub proof fn law_texts_read(spec: AggExecSpec, route: ColumnRoute)
    ensures
        spec.agg_type is CountStar || spec.agg_type is Count ==> !reads_text(spec, route),
        spec.expr_kind is LengthOf && route is Lengths ==> !reads_text(spec, route),
        spec.expr_kind is LengthOf && !(route is Lengths) && !(spec.agg_type is CountStar)
            && !(spec.agg_type is Count) ==> reads_text(spec, route),
        !(spec.expr_kind is LengthOf) && (spec.agg_type is CountDistinct || spec.agg_type is Min
            || spec.agg_type is Max) ==> (reads_text(spec, route) <==> spec.col_type_oid == 25
            || spec.col_type_oid == 1043 || spec.col_type_oid == 1042),
        !(spec.expr_kind is LengthOf) && (spec.agg_type is Sum || spec.agg_type is Avg)
            ==> !reads_text(spec, route),
{
}

/// The texts of a column are wanted exactly if some aggregate of the column reads them.
pub proof fn law_texts_wanted(
    specs: Seq<AggExecSpec>,
    spec: AggExecSpec,
    route: ColumnRoute,
    col: int,
)
    requires
        col >= 0,
    ensures
        !texts_wanted(Seq::empty(), route, col),
        texts_wanted(specs.push(spec), route, col) <==> texts_wanted(specs, route, col)
            || spec.col_idx == col && reads_text(spec, route),
{
    let more = specs.push(spec);
    assert(more[specs.len() as int] == spec);
    assert(is_column(spec.col_idx, col) == (spec.col_idx == col));
    if texts_wanted(specs, route, col) {
        let i = choose|i: int|
            0 <= i < specs.len() && is_column((#[trigger] specs[i]).col_idx, col) && reads_text(
                specs[i],
                route,
            );
        assert(more[i] == specs[i]);
    }
    if texts_wanted(more, route, col) {
        let i = choose|i: int|
            0 <= i < more.len() && is_column((#[trigger] more[i]).col_idx, col) && reads_text(
                more[i],
                route,
            );
        if i < specs.len() {
            assert(more[i] == specs[i]);
        }
    }
}

/// Narrowing keeps the number of rows, never selects a row that was not, and drops a row only if the
/// filter rejects it; an empty selection or filter stands for all rows.
pub proof fn law_selection_narrows(pre: Seq<bool>, sel: Seq<bool>)
    ensures
        merged(Seq::empty(), sel) == sel,
        pre.len() > 0 ==> merged(pre, sel).len() == pre.len(),
        pre.len() > 0 ==> forall|i: int|
            0 <= i < pre.len() ==> (#[trigger] merged(pre, sel)[i] <==> pre[i] && (i < sel.len()
                ==> sel[i])),
        pre.len() > 0 ==> merged(pre, Seq::empty()) == pre,
{
    if pre.len() > 0 {
        assert(merged(pre, Seq::empty()) =~= pre);
    }
}

} // verus!
