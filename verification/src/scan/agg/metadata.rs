//! Answering aggregates without decompressing: from the catalog, or from the sums, counts and
//! extrema that are stored with every segment.

use crate::decimal::parse_i128;
use crate::scan::agg::accumulator::{
    type_of_values, AccModel, AggAccumulator, AggExecSpec, AggExpr, AggType, Deferred,
    DeferredModel,
};
use crate::scan::agg::plan::AggPlan;
use crate::scan::datum::{is_float_type, is_integer_type, Cell, Datum, FLOAT8OID};
use crate::text;
use vstd::hash_map::StringHashMap;
use vstd::prelude::*;
use vstd::utf8::*;

verus! {

/// Whether a plan aggregates all rows into one group: it has no group expressions, no WHERE clause
/// and no HAVING filters.
pub open spec fn is_whole_table(plan: AggPlan) -> bool {
    plan.group_specs@.len() == 0 && plan.where_quals is None && plan.having_filters@.len() == 0
}

/// Whether a plan aggregates all rows into one group.
pub fn whole_table(plan: &AggPlan) -> (r: bool)
    ensures
        r == is_whole_table(*plan),
{
    plan.group_specs.is_empty() && plan.where_quals.is_none() && plan.having_filters.is_empty()
}

// ---------------------------------------------------------------------------
// The catalog
// ---------------------------------------------------------------------------

/// The recorded numbers of distinct values of the columns of a table.
pub struct DistinctCounts {
    counts: StringHashMap<i64>,
}

impl View for DistinctCounts {
    type V = Map<Seq<char>, i64>;

    closed spec fn view(&self) -> Map<Seq<char>, i64> {
        self.counts@
    }
}

impl DistinctCounts {
    /// No recorded numbers.
    pub fn new() -> (d: Self)
        ensures
            d@ == Map::<Seq<char>, i64>::empty(),
    {
        DistinctCounts { counts: StringHashMap::new() }
    }

    /// Records the number of distinct values of a column.
    pub fn add_column(&mut self, name: String, count: i64)
        ensures
            final(self)@ == old(self)@.insert(name@, count),
    {
        self.counts.insert(name, count);
    }
}

/// The sum of the first `n` row counts; unknown ones count as zero.
pub open spec fn rows_total(counts: Seq<Option<i64>>, n: nat) -> int
    decreases n,
{
    if n == 0 {
        0
    } else {
        rows_total(counts, (n - 1) as nat) + match counts[n - 1] {
            Some(c) => c as int,
            None => 0,
        }
    }
}

/// Whether the row counts of all tables are known.
pub open spec fn rows_known(counts: Seq<Option<i64>>) -> bool {
    forall|i: int| 0 <= i < counts.len() ==> #[trigger] counts[i] is Some
}

/// Whether the sums of the row counts fit, as far as the counts are known.
pub open spec fn rows_fit(counts: Seq<Option<i64>>) -> bool {
    forall|n: nat|
        n <= counts.len() && rows_known(counts.take(n as int)) ==> i64::MIN
            <= #[trigger] rows_total(counts, n) <= i64::MAX
}

/// What the catalog says of an aggregate: `COUNT(*)` is the sum of the row counts of all tables;
/// `COUNT(DISTINCT)` of a column of a single table is the recorded number of distinct values.
pub open spec fn catalog_answer(
    spec: AggExecSpec,
    counts: Seq<Option<i64>>,
    ndistinct: Map<Seq<char>, i64>,
    names: Seq<Seq<char>>,
) -> Option<Cell> {
    if spec.agg_type == AggType::CountStar {
        if rows_known(counts) {
            Some(
                (
                    Datum {
                        word: crate::scan::datum::word_of(rows_total(counts, counts.len())),
                    },
                    false,
                ),
            )
        } else {
            None
        }
    } else if spec.agg_type == AggType::CountDistinct && spec.expr_kind == AggExpr::Column {
        if counts.len() == 1 && 0 <= spec.col_idx < names.len() && ndistinct.contains_key(
            names[spec.col_idx as int],
        ) {
            Some(
                (
                    Datum {
                        word: crate::scan::datum::word_of(
                            ndistinct[names[spec.col_idx as int]] as int,
                        ),
                    },
                    false,
                ),
            )
        } else {
            None
        }
    } else {
        None
    }
}

/// Whether the row counts are added up: a `COUNT(*)` is asked for, and the catalog answers what
/// stands before it.
pub open spec fn sums_rows(
    specs: Seq<AggExecSpec>,
    counts: Seq<Option<i64>>,
    ndistinct: Map<Seq<char>, i64>,
    names: Seq<Seq<char>>,
) -> bool {
    exists|i: int|
        0 <= i < specs.len() && (#[trigger] specs[i]).agg_type == AggType::CountStar && forall|
            k: int,
        |
            0 <= k < i ==> catalog_answer(#[trigger] specs[k], counts, ndistinct, names) is Some
}

/// The sum of the row counts of all tables, if all are known.
fn total_rows(counts: &[Option<i64>]) -> (r: Option<i64>)
    requires
        rows_fit(counts@),
    ensures
        match r {
            Some(t) => rows_known(counts@) && t == rows_total(counts@, counts@.len()),
            None => !rows_known(counts@),
        },
{
    let mut total: i64 = 0;
    let mut i: usize = 0;
    while i < counts.len()
        invariant
            i <= counts@.len(),
            rows_fit(counts@),
            total == rows_total(counts@, i as nat),
            forall|k: int| 0 <= k < i ==> #[trigger] counts@[k] is Some,
        decreases counts@.len() - i,
    {
        match counts[i] {
            None => {
                assert(!(counts@[i as int] is Some));
                return None;
            },
            Some(c) => {
                assert(rows_known(counts@.take(i + 1)));
                assert(rows_total(counts@, (i + 1) as nat) == total + c);
                total = total + c;
            },
        }
        i = i + 1;
    }
    Some(total)
}

/// Checks whether the sums of the row counts fit, as far as the counts are known.
fn rows_add_up(counts: &[Option<i64>]) -> (b: bool)
    ensures
        b == rows_fit(counts@),
{
    let mut total: i64 = 0;
    let mut i: usize = 0;
    while i < counts.len()
        invariant
            i <= counts@.len(),
            total == rows_total(counts@, i as nat),
            forall|k: int| 0 <= k < i ==> #[trigger] counts@[k] is Some,
            forall|n: nat|
                n <= i ==> i64::MIN <= #[trigger] rows_total(counts@, n) <= i64::MAX,
        decreases counts@.len() - i,
    {
        match counts[i] {
            None => {
                assert forall|n: nat|
                    n <= counts@.len() && rows_known(counts@.take(n as int)) implies i64::MIN
                    <= #[trigger] rows_total(counts@, n) <= i64::MAX by {
                    if n > i {
                        assert(counts@.take(n as int)[i as int] is Some);
                    }
                }
                return true;
            },
            Some(c) => {
                assert(rows_total(counts@, (i + 1) as nat) == total + c);
                match total.checked_add(c) {
                    Some(t) => {
                        total = t;
                    },
                    None => {
                        assert(rows_known(counts@.take(i + 1)));
                        return false;
                    },
                }
            },
        }
        i = i + 1;
    }
    true
}

/// What the catalog says of an aggregate other than `COUNT(*)`.
fn distinct_answer(
    spec: &AggExecSpec,
    counts: &[Option<i64>],
    ndistinct: &DistinctCounts,
    col_names: &Vec<String>,
) -> (r: Option<Cell>)
    requires
        spec.agg_type != AggType::CountStar,
    ensures
        r == catalog_answer(*spec, counts@, ndistinct@, text::views(col_names@)),
{
    if spec.agg_type != AggType::CountDistinct || spec.expr_kind != AggExpr::Column
        || counts.len() != 1 || spec.col_idx < 0 || spec.col_idx as usize >= col_names.len() {
        return None;
    }
    assert(text::views(col_names@)[spec.col_idx as int] == col_names@[spec.col_idx as int]@);
    match ndistinct.counts.get(col_names[spec.col_idx as usize].as_str()) {
        Some(nd) => Some((Datum::from_i64(*nd), false)),
        None => None,
    }
}

/// Checks whether the row counts can be added up, where they are.
pub fn row_counts_fit(
    specs: &Vec<AggExecSpec>,
    counts: &[Option<i64>],
    ndistinct: &DistinctCounts,
    col_names: &Vec<String>,
) -> (b: bool)
    ensures
        b == (sums_rows(specs@, counts@, ndistinct@, text::views(col_names@)) ==> rows_fit(
            counts@,
        )),
{
    let ghost names = text::views(col_names@);
    let mut i: usize = 0;
    while i < specs.len()
        invariant
            i <= specs@.len(),
            names == text::views(col_names@),
            forall|k: int|
                0 <= k < i ==> (#[trigger] specs@[k]).agg_type != AggType::CountStar
                    && catalog_answer(specs@[k], counts@, ndistinct@, names) is Some,
        decreases specs@.len() - i,
    {
        if specs[i].agg_type == AggType::CountStar {
            assert(specs@[i as int].agg_type == AggType::CountStar);
            return rows_add_up(counts);
        }
        if distinct_answer(&specs[i], counts, ndistinct, col_names).is_none() {
            assert(catalog_answer(specs@[i as int], counts@, ndistinct@, names) is None);
            return true;
        }
        i = i + 1;
    }
    true
}

/// Answers all aggregates from the catalog, or none. `counts` holds the row count of every table
/// as far as it is known, `ndistinct` the numbers of distinct values of the first.
pub fn catalog_answers(
    specs: &Vec<AggExecSpec>,
    counts: &[Option<i64>],
    ndistinct: &DistinctCounts,
    col_names: &Vec<String>,
) -> (r: Option<Vec<Cell>>)
    requires
        sums_rows(specs@, counts@, ndistinct@, text::views(col_names@)) ==> rows_fit(counts@),
    ensures
        match r {
            Some(cells) => {
                &&& cells@.len() == specs@.len()
                &&& forall|i: int|
                    0 <= i < specs@.len() ==> catalog_answer(
                        #[trigger] specs@[i],
                        counts@,
                        ndistinct@,
                        text::views(col_names@),
                    ) == Some(cells@[i])
            },
            None => exists|i: int|
                0 <= i < specs@.len() && catalog_answer(
                    #[trigger] specs@[i],
                    counts@,
                    ndistinct@,
                    text::views(col_names@),
                ) is None,
        },
{
    let ghost names = text::views(col_names@);
    let mut cells: Vec<Cell> = Vec::new();
    let mut i: usize = 0;
    while i < specs.len()
        invariant
            i <= specs@.len(),
            sums_rows(specs@, counts@, ndistinct@, names) ==> rows_fit(counts@),
            names == text::views(col_names@),
            cells@.len() == i,
            forall|k: int|
                0 <= k < i ==> catalog_answer(#[trigger] specs@[k], counts@, ndistinct@, names)
                    == Some(cells@[k]),
        decreases specs@.len() - i,
    {
        let spec: AggExecSpec = specs[i];
        assert(spec == specs@[i as int]);
        let answer: Option<Cell> = if spec.agg_type == AggType::CountStar {
            assert(specs@[i as int].agg_type == AggType::CountStar);
            match total_rows(counts) {
                Some(t) => Some((Datum::from_i64(t), false)),
                None => None,
            }
        } else {
            distinct_answer(&spec, counts, ndistinct, col_names)
        };
        match answer {
            Some(cell) => cells.push(cell),
            None => {
                return None;
            },
        }
        i = i + 1;
    }
    Some(cells)
}

// ---------------------------------------------------------------------------
// Segment metadata
// ---------------------------------------------------------------------------

/// The stored sum of a column of a segment.
pub struct ColumnSum {
    pub sum_null: bool,
    /// The decimal text of the sum, for an integer column.
    pub sum_text: String,
    /// The sum, for a floating-point column.
    pub sum_datum: Datum,
    /// The number of values that are not null.
    pub nonnull_count: i64,
}

/// The stored extrema of a column of a segment.
#[derive(Clone, Copy, PartialEq, Eq, Structural, Debug)]
pub struct ColumnMinMax {
    pub min_datum: Datum,
    pub min_null: bool,
    pub max_datum: Datum,
    pub max_null: bool,
}

/// What is stored with a segment.
pub struct SegmentMeta {
    pub row_count: i32,
    pub col_sums: StringHashMap<ColumnSum>,
    pub col_minmax: StringHashMap<ColumnMinMax>,
}

impl SegmentMeta {
    /// A segment with which nothing is stored but its row count.
    pub fn new(row_count: i32) -> (m: Self)
        ensures
            m.row_count == row_count,
            m.col_sums@ == Map::<Seq<char>, ColumnSum>::empty(),
            m.col_minmax@ == Map::<Seq<char>, ColumnMinMax>::empty(),
    {
        SegmentMeta { row_count, col_sums: StringHashMap::new(), col_minmax: StringHashMap::new() }
    }

    /// Adds the stored sum of a column.
    pub fn add_sum(&mut self, name: String, sum: ColumnSum)
        ensures
            final(self).row_count == old(self).row_count,
            final(self).col_sums@ == old(self).col_sums@.insert(name@, sum),
            final(self).col_minmax@ == old(self).col_minmax@,
    {
        self.col_sums.insert(name, sum);
    }

    /// Adds the stored extrema of a column.
    pub fn add_minmax(&mut self, name: String, minmax: ColumnMinMax)
        ensures
            final(self).row_count == old(self).row_count,
            final(self).col_sums@ == old(self).col_sums@,
            final(self).col_minmax@ == old(self).col_minmax@.insert(name@, minmax),
    {
        self.col_minmax.insert(name, minmax);
    }
}

/// Whether an aggregate can be answered from what is stored with every segment, if it is stored.
pub open spec fn resolvable(spec: AggExecSpec) -> bool {
    let numeric = crate::scan::datum::is_integer_oid(spec.col_type_oid)
        || crate::scan::datum::is_float_oid(spec.col_type_oid);
    match spec.agg_type {
        AggType::CountStar => true,
        AggType::Sum => spec.expr_kind != AggExpr::LengthOf && spec.col_idx >= 0 && numeric,
        AggType::Avg | AggType::Count => spec.expr_kind == AggExpr::Column && spec.col_idx >= 0
            && numeric,
        AggType::Min | AggType::Max => spec.expr_kind == AggExpr::Column && spec.col_idx >= 0,
        AggType::CountDistinct => false,
    }
}

/// Whether an aggregate can be answered from what is stored with every segment.
fn is_resolvable(spec: &AggExecSpec) -> (r: bool)
    ensures
        r == resolvable(*spec),
{
    let numeric: bool = is_integer_type(spec.col_type_oid) || is_float_type(spec.col_type_oid);
    match spec.agg_type {
        AggType::CountStar => true,
        AggType::Sum => (spec.expr_kind == AggExpr::Column || spec.expr_kind == AggExpr::AddConst)
            && spec.col_idx >= 0 && numeric,
        AggType::Avg | AggType::Count => spec.expr_kind == AggExpr::Column && spec.col_idx >= 0
            && numeric,
        AggType::Min | AggType::Max => spec.expr_kind == AggExpr::Column && spec.col_idx >= 0,
        AggType::CountDistinct => false,
    }
}

/// Whether a plan can be answered from what is stored with every segment, if it is stored.
pub fn metadata_fast_path(plan: &AggPlan) -> (r: bool)
    ensures
        r == metadata_answers(*plan),
{
    if !whole_table(plan) {
        return false;
    }
    let mut i: usize = 0;
    while i < plan.agg_specs.len()
        invariant
            i <= plan.agg_specs@.len(),
            forall|k: int| 0 <= k < i ==> resolvable(#[trigger] plan.agg_specs@[k]),
        decreases plan.agg_specs@.len() - i,
    {
        if !is_resolvable(&plan.agg_specs[i]) {
            assert(!resolvable(plan.agg_specs@[i as int]));
            return false;
        }
        i = i + 1;
    }
    true
}

/// How an aggregation is answered.
#[derive(Clone, Copy, PartialEq, Eq, Structural, Debug)]
pub enum AnswerPath {
    /// From the catalog, if it knows enough.
    Catalog,
    /// From what is stored with every segment, if it is stored: sums or counts, and extrema.
    Metadata { sums: bool, minmax: bool },
    /// By decompressing segments.
    Scan,
}

/// Whether a plan can be answered from what is stored with every segment, if it is stored.
pub open spec fn metadata_answers(plan: AggPlan) -> bool {
    is_whole_table(plan) && forall|i: int|
        0 <= i < plan.agg_specs@.len() ==> resolvable(#[trigger] plan.agg_specs@[i])
}

/// Where an answer is looked for first: in the catalog, unless the plan picks or groups rows.
pub open spec fn path_at_first(plan: AggPlan) -> AnswerPath {
    if is_whole_table(plan) {
        AnswerPath::Catalog
    } else {
        AnswerPath::Scan
    }
}

/// Where an answer is looked for that the catalog does not have: in what is stored with every
/// segment, if that can answer the plan.
pub open spec fn path_from_there(plan: AggPlan) -> AnswerPath {
    if metadata_answers(plan) {
        AnswerPath::Metadata {
            sums: exists|i: int|
                0 <= i < plan.agg_specs@.len() && reads_sum(#[trigger] plan.agg_specs@[i]),
            minmax: exists|i: int|
                0 <= i < plan.agg_specs@.len() && reads_minmax(#[trigger] plan.agg_specs@[i]),
        }
    } else {
        AnswerPath::Scan
    }
}

/// Where an answer is looked for first: in the catalog, unless the plan picks or groups rows.
pub fn first_path(plan: &AggPlan) -> (p: AnswerPath)
    ensures
        p == path_at_first(*plan),
{
    if whole_table(plan) {
        AnswerPath::Catalog
    } else {
        AnswerPath::Scan
    }
}

/// Where an answer is looked for that the catalog does not have.
pub fn path_without_catalog(plan: &AggPlan) -> (p: AnswerPath)
    ensures
        p == path_from_there(*plan),
{
    if !metadata_fast_path(plan) {
        return AnswerPath::Scan;
    }
    let mut sums: bool = false;
    let mut minmax: bool = false;
    let mut i: usize = 0;
    while i < plan.agg_specs.len()
        invariant
            i <= plan.agg_specs@.len(),
            sums == exists|k: int|
                0 <= k < i && reads_sum(#[trigger] plan.agg_specs@[k]),
            minmax == exists|k: int|
                0 <= k < i && reads_minmax(#[trigger] plan.agg_specs@[k]),
        decreases plan.agg_specs@.len() - i,
    {
        match plan.agg_specs[i].agg_type {
            AggType::Sum | AggType::Avg | AggType::Count => {
                sums = true;
                assert(reads_sum(plan.agg_specs@[i as int]));
            },
            AggType::Min | AggType::Max => {
                minmax = true;
                assert(reads_minmax(plan.agg_specs@[i as int]));
            },
            _ => {},
        }
        i = i + 1;
    }
    AnswerPath::Metadata { sums, minmax }
}

/// Whether an aggregate reads a stored sum or count.
pub open spec fn reads_sum(spec: AggExecSpec) -> bool {
    spec.agg_type == AggType::Sum || spec.agg_type == AggType::Avg || spec.agg_type
        == AggType::Count
}

/// Whether an aggregate reads a stored extremum.
pub open spec fn reads_minmax(spec: AggExecSpec) -> bool {
    spec.agg_type == AggType::Min || spec.agg_type == AggType::Max
}

/// The name of an aggregate's column.
pub open spec fn column_of(spec: AggExecSpec, names: Seq<Seq<char>>) -> Seq<char> {
    names[spec.col_idx as int]
}

/// Whether a segment stores what an aggregate reads.
pub open spec fn stores(seg: SegmentMeta, spec: AggExecSpec, names: Seq<Seq<char>>) -> bool {
    &&& reads_sum(spec) ==> seg.col_sums@.contains_key(column_of(spec, names))
    &&& reads_minmax(spec) ==> seg.col_minmax@.contains_key(column_of(spec, names))
}

/// Whether every column that an aggregate reads exists.
pub open spec fn columns_exist(specs: Seq<AggExecSpec>, columns: nat) -> bool {
    forall|i: int|
        0 <= i < specs.len() && (reads_sum(#[trigger] specs[i]) || reads_minmax(specs[i]))
            ==> 0 <= specs[i].col_idx < columns
}

/// Whether every segment stores what every aggregate reads.
pub fn metadata_available(
    specs: &Vec<AggExecSpec>,
    col_names: &Vec<String>,
    segments: &Vec<SegmentMeta>,
) -> (r: bool)
    requires
        columns_exist(specs@, col_names@.len()),
    ensures
        r == (forall|i: int, s: int|
            0 <= i < specs@.len() && 0 <= s < segments@.len() ==> stores(
                #[trigger] segments@[s],
                #[trigger] specs@[i],
                text::views(col_names@),
            )),
{
    let ghost names = text::views(col_names@);
    let mut i: usize = 0;
    while i < specs.len()
        invariant
            i <= specs@.len(),
            names == text::views(col_names@),
            columns_exist(specs@, col_names@.len()),
            forall|k: int, s: int|
                0 <= k < i && 0 <= s < segments@.len() ==> stores(
                    #[trigger] segments@[s],
                    #[trigger] specs@[k],
                    names,
                ),
        decreases specs@.len() - i,
    {
        let spec: AggExecSpec = specs[i];
        assert(spec == specs@[i as int]);
        let mut s: usize = 0;
        while s < segments.len()
            invariant
                s <= segments@.len(),
                i < specs@.len(),
                spec == specs@[i as int],
                names == text::views(col_names@),
                columns_exist(specs@, col_names@.len()),
                forall|k: int| 0 <= k < s ==> stores(#[trigger] segments@[k], spec, names),
            decreases segments@.len() - s,
        {
            let sum_read: bool = match spec.agg_type {
                AggType::Sum | AggType::Avg | AggType::Count => true,
                _ => false,
            };
            let minmax_read: bool = match spec.agg_type {
                AggType::Min | AggType::Max => true,
                _ => false,
            };
            if sum_read || minmax_read {
                let name = &col_names[spec.col_idx as usize];
                assert(name@ == column_of(spec, names));
                if (sum_read && !segments[s].col_sums.contains_key(name.as_str())) || (minmax_read
                    && !segments[s].col_minmax.contains_key(name.as_str())) {
                    assert(!stores(segments@[s as int], specs@[i as int], names));
                    return false;
                }
            }
            s = s + 1;
        }
        i = i + 1;
    }
    true
}

/// What a stored sum adds to an integer sum: the number, and the product of the aggregate's
/// constant and the count; `None` where the text is no number.
pub open spec fn stored_term(sum: ColumnSum, spec: AggExecSpec) -> Option<int> {
    match crate::decimal::parsed_i128(encode_utf8(sum.sum_text@)) {
        Some(v) => Some(
            v + crate::scan::agg::accumulator::offset_of(spec) * sum.nonnull_count,
        ),
        None => None,
    }
}

/// The state of an aggregate after a segment whose metadata is taken in. A segment without rows, a
/// null sum and a null extremum add nothing.
pub open spec fn meta_stepped(
    acc: AccModel,
    spec: AggExecSpec,
    seg: SegmentMeta,
    names: Seq<Seq<char>>,
) -> AccModel {
    let name = column_of(spec, names);
    let sum = seg.col_sums@[name];
    let ext = seg.col_minmax@[name];
    if seg.row_count == 0 {
        acc
    } else {
        match (spec.agg_type, acc) {
            (AggType::CountStar, AccModel::Count { count }) => AccModel::Count {
                count: count + seg.row_count,
            },
            (AggType::Count, AccModel::Count { count }) => AccModel::Count {
                count: count + sum.nonnull_count,
            },
            (AggType::Sum | AggType::Avg, AccModel::SumInt { sum: s, count }) => if sum.sum_null {
                acc
            } else {
                match stored_term(sum, spec) {
                    Some(t) => AccModel::SumInt { sum: s + t, count: count + sum.nonnull_count },
                    None => acc,
                }
            },
            (AggType::Sum | AggType::Avg, AccModel::SumFloat { bits, count }) => if sum.sum_null {
                acc
            } else {
                AccModel::SumFloat { bits, count: count + sum.nonnull_count }
            },
            (AggType::Min, AccModel::MinInt { val }) => if ext.min_null {
                acc
            } else {
                let v = crate::scan::datum::signed(ext.min_datum.word) as i64;
                AccModel::MinInt {
                    val: Some(
                        if val is Some && val->0 <= v {
                            val->0
                        } else {
                            v
                        },
                    ),
                }
            },
            (AggType::Max, AccModel::MaxInt { val }) => if ext.max_null {
                acc
            } else {
                let v = crate::scan::datum::signed(ext.max_datum.word) as i64;
                AccModel::MaxInt {
                    val: Some(
                        if val is Some && val->0 >= v {
                            val->0
                        } else {
                            v
                        },
                    ),
                }
            },
            _ => acc,
        }
    }
}

/// What a segment's metadata leaves to the executor.
pub open spec fn meta_deferred(
    acc: AccModel,
    slot: int,
    spec: AggExecSpec,
    seg: SegmentMeta,
    names: Seq<Seq<char>>,
) -> Seq<DeferredModel> {
    let name = column_of(spec, names);
    let sum = seg.col_sums@[name];
    let ext = seg.col_minmax@[name];
    if seg.row_count == 0 {
        Seq::empty()
    } else {
        match (spec.agg_type, acc) {
            (AggType::Sum | AggType::Avg, AccModel::SumFloat { .. }) => if sum.sum_null {
                Seq::empty()
            } else {
                seq![
                    DeferredModel::AddStoredSum {
                        slot,
                        word: sum.sum_datum.word,
                        offset: crate::scan::agg::accumulator::offset_of(spec) as i64,
                        count: sum.nonnull_count,
                    },
                ]
            },
            (AggType::Min, AccModel::MinFloat { .. }) => if ext.min_null {
                Seq::empty()
            } else {
                seq![
                    DeferredModel::OfferDatum {
                        slot,
                        word: ext.min_datum.word,
                        type_oid: FLOAT8OID,
                    },
                ]
            },
            (AggType::Max, AccModel::MaxFloat { .. }) => if ext.max_null {
                Seq::empty()
            } else {
                seq![
                    DeferredModel::OfferDatum {
                        slot,
                        word: ext.max_datum.word,
                        type_oid: FLOAT8OID,
                    },
                ]
            },
            _ => Seq::empty(),
        }
    }
}

/// Whether an integer sum takes in a stored sum.
pub open spec fn takes_integer(
    acc: AccModel,
    spec: AggExecSpec,
    seg: SegmentMeta,
    names: Seq<Seq<char>>,
) -> bool {
    &&& spec.agg_type == AggType::Sum || spec.agg_type == AggType::Avg
    &&& acc is SumInt
    &&& seg.row_count != 0
    &&& !seg.col_sums@[column_of(spec, names)].sum_null
}

/// Whether the numbers fit when a segment's metadata is taken in.
pub open spec fn meta_fits(
    acc: AccModel,
    spec: AggExecSpec,
    seg: SegmentMeta,
    names: Seq<Seq<char>>,
) -> bool {
    &&& match meta_stepped(acc, spec, seg, names) {
        AccModel::SumInt { sum: s, count } => i128::MIN <= s <= i128::MAX && i64::MIN <= count
            <= i64::MAX,
        AccModel::SumFloat { count, .. } => i64::MIN <= count <= i64::MAX,
        AccModel::Count { count } => i64::MIN <= count <= i64::MAX,
        _ => true,
    }
    &&& takes_integer(acc, spec, seg, names) ==> (stored_term(
        seg.col_sums@[column_of(spec, names)],
        spec,
    ) matches Some(t) ==> i128::MIN <= t <= i128::MAX)
}

/// Checks whether the numbers fit when a segment's metadata is taken in.
fn step_fits(
    acc: &AggAccumulator,
    spec: &AggExecSpec,
    seg: &SegmentMeta,
    col_names: &Vec<String>,
) -> (r: bool)
    requires
        reads_sum(*spec) || reads_minmax(*spec) ==> 0 <= spec.col_idx < col_names@.len(),
        stores(*seg, *spec, text::views(col_names@)),
    ensures
        r == meta_fits(acc@, *spec, *seg, text::views(col_names@)),
{
    let ghost names = text::views(col_names@);
    if seg.row_count == 0 {
        return true;
    }
    if spec.agg_type == AggType::CountStar {
        return match acc {
            AggAccumulator::Count { count } => count.checked_add(seg.row_count as i64).is_some(),
            _ => true,
        };
    }
    if spec.agg_type != AggType::Count && spec.agg_type != AggType::Sum && spec.agg_type
        != AggType::Avg {
        return true;
    }
    let name = &col_names[spec.col_idx as usize];
    assert(name@ == column_of(*spec, names));
    let stored = seg.col_sums.get(name.as_str());
    match stored {
        None => true,
        Some(cs) => {
            if spec.agg_type == AggType::Count {
                match acc {
                    AggAccumulator::Count { count } => count.checked_add(
                        cs.nonnull_count,
                    ).is_some(),
                    _ => true,
                }
            } else if cs.sum_null {
                true
            } else {
                match acc {
                    AggAccumulator::SumInt { sum, count } => {
                        let add_const: i64 = if spec.expr_kind == AggExpr::AddConst {
                            spec.const_offset
                        } else {
                            0
                        };
                        proof {
                            lemma_product_bound(add_const as int, cs.nonnull_count as int);
                        }
                        let shift: i128 = add_const as i128 * cs.nonnull_count as i128;
                        match parse_i128(cs.sum_text.as_str()) {
                            None => true,
                            Some(v) => match v.checked_add(shift) {
                                None => false,
                                Some(term) => sum.checked_add(term).is_some()
                                    && count.checked_add(cs.nonnull_count).is_some(),
                            },
                        }
                    },
                    AggAccumulator::SumFloat { count, .. } => count.checked_add(
                        cs.nonnull_count,
                    ).is_some(),
                    _ => true,
                }
            }
        },
    }
}

/// Takes in the metadata of a segment for one aggregate.
fn meta_step(
    acc: &mut AggAccumulator,
    slot: usize,
    spec: &AggExecSpec,
    seg: &SegmentMeta,
    col_names: &Vec<String>,
    deferred: &mut Vec<Deferred>,
)
    requires
        reads_sum(*spec) || reads_minmax(*spec) ==> 0 <= spec.col_idx < col_names@.len(),
        stores(*seg, *spec, text::views(col_names@)),
        meta_fits(old(acc)@, *spec, *seg, text::views(col_names@)),
    ensures
        final(acc)@ == meta_stepped(old(acc)@, *spec, *seg, text::views(col_names@)),
        crate::scan::agg::accumulator::deferred_views(final(deferred)@)
            == crate::scan::agg::accumulator::deferred_views(old(deferred)@) + meta_deferred(
            old(acc)@,
            slot as int,
            *spec,
            *seg,
            text::views(col_names@),
        ),
{
    let ghost names = text::views(col_names@);
    let ghost before = deferred@;
    let ghost pre = acc@;
    if seg.row_count != 0 {
        match spec.agg_type {
            AggType::CountStar => if let AggAccumulator::Count { count } = acc {
                *count = *count + seg.row_count as i64;
            },
            AggType::Count => {
                let name = &col_names[spec.col_idx as usize];
                assert(name@ == column_of(*spec, names));
                if let Some(cs) = seg.col_sums.get(name.as_str()) {
                    if let AggAccumulator::Count { count } = acc {
                        *count = *count + cs.nonnull_count;
                    }
                }
            },
            AggType::Sum | AggType::Avg => {
                let name = &col_names[spec.col_idx as usize];
                assert(name@ == column_of(*spec, names));
                if let Some(cs) = seg.col_sums.get(name.as_str()) {
                    if !cs.sum_null {
                        let add_const: i64 = if spec.expr_kind == AggExpr::AddConst {
                            spec.const_offset
                        } else {
                            0
                        };
                        match acc {
                            AggAccumulator::SumInt { sum, count } => {
                                if let Some(v) = parse_i128(cs.sum_text.as_str()) {
                                    proof {
                                        lemma_product_bound(add_const as int, cs.nonnull_count as int);
                                    }
                                    *sum = *sum + (v + add_const as i128 * cs.nonnull_count as i128);
                                    *count = *count + cs.nonnull_count;
                                }
                            },
                            AggAccumulator::SumFloat { count, .. } => {
                                deferred.push(
                                    Deferred::AddStoredSum {
                                        slot,
                                        datum: cs.sum_datum,
                                        offset: add_const,
                                        count: cs.nonnull_count,
                                    },
                                );
                                *count = *count + cs.nonnull_count;
                            },
                            _ => {},
                        }
                    }
                }
            },
            AggType::Min => {
                let name = &col_names[spec.col_idx as usize];
                assert(name@ == column_of(*spec, names));
                if let Some(cm) = seg.col_minmax.get(name.as_str()) {
                    if !cm.min_null {
                        match acc {
                            AggAccumulator::MinInt { val } => {
                                let v: i64 = cm.min_datum.to_i64();
                                let kept: i64 = match *val {
                                    Some(cur) => if cur <= v {
                                        cur
                                    } else {
                                        v
                                    },
                                    None => v,
                                };
                                *val = Some(kept);
                            },
                            AggAccumulator::MinFloat { .. } => {
                                deferred.push(
                                    Deferred::OfferDatum {
                                        slot,
                                        datum: cm.min_datum,
                                        type_oid: FLOAT8OID,
                                    },
                                );
                            },
                            _ => {},
                        }
                    }
                }
            },
            AggType::Max => {
                let name = &col_names[spec.col_idx as usize];
                assert(name@ == column_of(*spec, names));
                if let Some(cm) = seg.col_minmax.get(name.as_str()) {
                    if !cm.max_null {
                        match acc {
                            AggAccumulator::MaxInt { val } => {
                                let v: i64 = cm.max_datum.to_i64();
                                let kept: i64 = match *val {
                                    Some(cur) => if cur >= v {
                                        cur
                                    } else {
                                        v
                                    },
                                    None => v,
                                };
                                *val = Some(kept);
                            },
                            AggAccumulator::MaxFloat { .. } => {
                                deferred.push(
                                    Deferred::OfferDatum {
                                        slot,
                                        datum: cm.max_datum,
                                        type_oid: FLOAT8OID,
                                    },
                                );
                            },
                            _ => {},
                        }
                    }
                }
            },
            AggType::CountDistinct => {},
        }
    }
    assert(crate::scan::agg::accumulator::deferred_views(deferred@)
        =~= crate::scan::agg::accumulator::deferred_views(before) + meta_deferred(
        pre,
        slot as int,
        *spec,
        *seg,
        names,
    ));
}

/// The product of two 64-bit integers fits in 128 bits.
proof fn lemma_product_bound(a: int, b: int)
    requires
        i64::MIN <= a <= i64::MAX,
        i64::MIN <= b <= i64::MAX,
    ensures
        i128::MIN <= a * b <= i128::MAX,
{
    assert(i128::MIN <= a * b <= i128::MAX) by (nonlinear_arith)
        requires
            i64::MIN <= a <= i64::MAX,
            i64::MIN <= b <= i64::MAX,
    ;
}

/// The states of all aggregates after the metadata of the first `n` segments.
pub open spec fn meta_states(
    specs: Seq<AggExecSpec>,
    names: Seq<Seq<char>>,
    segments: Seq<SegmentMeta>,
    n: nat,
) -> Seq<AccModel>
    decreases n,
{
    if n == 0 {
        crate::scan::agg::aggregate::fresh_accs(specs)
    } else {
        let before = meta_states(specs, names, segments, (n - 1) as nat);
        Seq::new(
            specs.len(),
            |j: int| meta_stepped(before[j], specs[j], segments[n - 1], names),
        )
    }
}

/// What the first `j` aggregates leave to the executor for one segment.
pub open spec fn meta_segment_ops(
    before: Seq<AccModel>,
    specs: Seq<AggExecSpec>,
    names: Seq<Seq<char>>,
    seg: SegmentMeta,
    j: nat,
) -> Seq<DeferredModel>
    decreases j,
{
    if j == 0 {
        Seq::empty()
    } else {
        meta_segment_ops(before, specs, names, seg, (j - 1) as nat) + meta_deferred(
            before[j - 1],
            j - 1,
            specs[j - 1],
            seg,
            names,
        )
    }
}

/// What all aggregates leave to the executor for the first `n` segments.
pub open spec fn meta_ops(
    specs: Seq<AggExecSpec>,
    names: Seq<Seq<char>>,
    segments: Seq<SegmentMeta>,
    n: nat,
) -> Seq<DeferredModel>
    decreases n,
{
    if n == 0 {
        Seq::empty()
    } else {
        meta_ops(specs, names, segments, (n - 1) as nat) + meta_segment_ops(
            meta_states(specs, names, segments, (n - 1) as nat),
            specs,
            names,
            segments[n - 1],
            specs.len(),
        )
    }
}

/// Whether every segment stores what every aggregate reads, and all numbers fit.
pub open spec fn metadata_ok(
    specs: Seq<AggExecSpec>,
    names: Seq<Seq<char>>,
    segments: Seq<SegmentMeta>,
) -> bool {
    &&& columns_exist(specs, names.len())
    &&& forall|i: int, s: int|
        0 <= i < specs.len() && 0 <= s < segments.len() ==> stores(
            #[trigger] segments[s],
            #[trigger] specs[i],
            names,
        ) && meta_fits(
            meta_states(specs, names, segments, s as nat)[i],
            specs[i],
            segments[s],
            names,
        )
}

/// The state of one aggregate after the metadata of the first `n` segments.
spec fn spec_state(
    spec: AggExecSpec,
    names: Seq<Seq<char>>,
    segments: Seq<SegmentMeta>,
    n: nat,
) -> AccModel
    decreases n,
{
    if n == 0 {
        crate::scan::agg::accumulator::initial(
            spec.agg_type,
            crate::scan::agg::accumulator::value_type(spec),
        )
    } else {
        meta_stepped(
            spec_state(spec, names, segments, (n - 1) as nat),
            spec,
            segments[n - 1],
            names,
        )
    }
}

/// Every aggregate goes its own way.
proof fn lemma_spec_state(
    specs: Seq<AggExecSpec>,
    names: Seq<Seq<char>>,
    segments: Seq<SegmentMeta>,
    n: nat,
    i: int,
)
    requires
        0 <= i < specs.len(),
    ensures
        meta_states(specs, names, segments, n)[i] == spec_state(specs[i], names, segments, n),
    decreases n,
{
    if n > 0 {
        lemma_spec_state(specs, names, segments, (n - 1) as nat, i);
    }
}

/// Checks whether the numbers of one aggregate fit.
fn spec_fits(spec: &AggExecSpec, col_names: &Vec<String>, segments: &Vec<SegmentMeta>) -> (r: bool)
    requires
        reads_sum(*spec) || reads_minmax(*spec) ==> 0 <= spec.col_idx < col_names@.len(),
        forall|s: int|
            0 <= s < segments@.len() ==> stores(
                #[trigger] segments@[s],
                *spec,
                text::views(col_names@),
            ),
    ensures
        r == (forall|s: int|
            0 <= s < segments@.len() ==> meta_fits(
                spec_state(*spec, text::views(col_names@), segments@, s as nat),
                *spec,
                #[trigger] segments@[s],
                text::views(col_names@),
            )),
{
    let ghost names = text::views(col_names@);
    let mut acc = AggAccumulator::new_for(spec.agg_type, type_of_values(spec));
    let mut unused: Vec<Deferred> = Vec::new();
    let mut s: usize = 0;
    while s < segments.len()
        invariant
            s <= segments@.len(),
            names == text::views(col_names@),
            reads_sum(*spec) || reads_minmax(*spec) ==> 0 <= spec.col_idx < col_names@.len(),
            forall|t: int| 0 <= t < segments@.len() ==> stores(#[trigger] segments@[t], *spec, names),
            acc@ == spec_state(*spec, names, segments@, s as nat),
            forall|t: int|
                0 <= t < s ==> meta_fits(
                    spec_state(*spec, names, segments@, t as nat),
                    *spec,
                    #[trigger] segments@[t],
                    names,
                ),
        decreases segments@.len() - s,
    {
        let seg = &segments[s];
        assert(*seg == segments@[s as int]);
        if !step_fits(&acc, spec, seg, col_names) {
            return false;
        }
        meta_step(&mut acc, 0, spec, seg, col_names, &mut unused);
        s = s + 1;
    }
    true
}

/// Checks whether all numbers fit when what is stored with every segment is taken in.
pub fn metadata_fits(
    specs: &Vec<AggExecSpec>,
    col_names: &Vec<String>,
    segments: &Vec<SegmentMeta>,
) -> (r: bool)
    requires
        columns_exist(specs@, col_names@.len()),
        forall|i: int, s: int|
            0 <= i < specs@.len() && 0 <= s < segments@.len() ==> stores(
                #[trigger] segments@[s],
                #[trigger] specs@[i],
                text::views(col_names@),
            ),
    ensures
        r == metadata_ok(specs@, text::views(col_names@), segments@),
{
    let ghost names = text::views(col_names@);
    let mut i: usize = 0;
    while i < specs.len()
        invariant
            i <= specs@.len(),
            names == text::views(col_names@),
            columns_exist(specs@, names.len()),
            forall|k: int, t: int|
                0 <= k < specs@.len() && 0 <= t < segments@.len() ==> stores(
                    #[trigger] segments@[t],
                    #[trigger] specs@[k],
                    names,
                ),
            forall|k: int, t: int|
                0 <= k < i && 0 <= t < segments@.len() ==> meta_fits(
                    meta_states(specs@, names, segments@, t as nat)[k],
                    #[trigger] specs@[k],
                    #[trigger] segments@[t],
                    names,
                ),
        decreases specs@.len() - i,
    {
        assert(names.len() == col_names@.len());
        let spec = &specs[i];
        assert(*spec == specs@[i as int]);
        let fits: bool = spec_fits(spec, col_names, segments);
        proof {
            assert forall|t: int| 0 <= t < segments@.len() implies meta_fits(
                meta_states(specs@, names, segments@, t as nat)[i as int],
                specs@[i as int],
                #[trigger] segments@[t],
                names,
            ) == meta_fits(
                spec_state(*spec, names, segments@, t as nat),
                *spec,
                segments@[t],
                names,
            ) by {
                lemma_spec_state(specs@, names, segments@, t as nat, i as int);
            }
        }
        if !fits {
            return false;
        }
        i = i + 1;
    }
    true
}

/// Aggregates from what is stored with every segment. What is left to the executor is appended to
/// `deferred`, for the accumulator with the number of its aggregate.
pub fn accumulate_metadata(
    specs: &Vec<AggExecSpec>,
    col_names: &Vec<String>,
    segments: &Vec<SegmentMeta>,
    deferred: &mut Vec<Deferred>,
) -> (accs: Vec<AggAccumulator>)
    requires
        metadata_ok(specs@, text::views(col_names@), segments@),
    ensures
        crate::scan::agg::aggregate::acc_views(accs@) == meta_states(
            specs@,
            text::views(col_names@),
            segments@,
            segments@.len(),
        ),
        crate::scan::agg::accumulator::deferred_views(final(deferred)@)
            == crate::scan::agg::accumulator::deferred_views(old(deferred)@) + meta_ops(
            specs@,
            text::views(col_names@),
            segments@,
            segments@.len(),
        ),
{
    let ghost names = text::views(col_names@);
    let ghost start = crate::scan::agg::accumulator::deferred_views(deferred@);
    let mut accs: Vec<AggAccumulator> = Vec::new();
    let n: usize = specs.len();
    let mut i: usize = 0;
    while i < n
        invariant
            i <= n,
            n == specs@.len(),
            accs@.len() == i,
            forall|k: int|
                0 <= k < i ==> (#[trigger] accs@[k])@ == crate::scan::agg::aggregate::fresh_accs(
                    specs@,
                )[k],
        decreases n - i,
    {
        let acc = AggAccumulator::new_for(specs[i].agg_type, type_of_values(&specs[i]));
        accs.push(acc);
        i = i + 1;
    }
    let mut s: usize = 0;
    proof {
        assert(start + meta_ops(specs@, names, segments@, 0) =~= start);
    }
    while s < segments.len()
        invariant
            s <= segments@.len(),
            n == specs@.len(),
            names == text::views(col_names@),
            metadata_ok(specs@, names, segments@),
            accs@.len() == n,
            forall|k: int|
                0 <= k < n ==> (#[trigger] accs@[k])@ == meta_states(
                    specs@,
                    names,
                    segments@,
                    s as nat,
                )[k],
            crate::scan::agg::accumulator::deferred_views(deferred@) == start + meta_ops(
                specs@,
                names,
                segments@,
                s as nat,
            ),
        decreases segments@.len() - s,
    {
        let ghost before = meta_states(specs@, names, segments@, s as nat);
        let ghost after = meta_states(specs@, names, segments@, (s + 1) as nat);
        let ghost ops = crate::scan::agg::accumulator::deferred_views(deferred@);
        let mut j: usize = 0;
        proof {
            assert(ops + meta_segment_ops(before, specs@, names, segments@[s as int], 0) =~= ops);
        }
        while j < n
            invariant
                j <= n,
                n == specs@.len(),
                s < segments@.len(),
                names == text::views(col_names@),
                metadata_ok(specs@, names, segments@),
                before == meta_states(specs@, names, segments@, s as nat),
                after == meta_states(specs@, names, segments@, (s + 1) as nat),
                accs@.len() == n,
                forall|k: int|
                    0 <= k < n ==> (#[trigger] accs@[k])@ == if k < j {
                        after[k]
                    } else {
                        before[k]
                    },
                crate::scan::agg::accumulator::deferred_views(deferred@) == ops
                    + meta_segment_ops(before, specs@, names, segments@[s as int], j as nat),
            decreases n - j,
        {
            let ghost accs0 = accs@;
            proof {
                let seg = segments@[s as int];
                let spec = specs@[j as int];
                assert(stores(seg, spec, names));
                assert(accs@[j as int]@ == before[j as int]);
            }
            meta_step(&mut accs[j], j, &specs[j], &segments[s], col_names, deferred);
            proof {
                assert(accs@ =~= accs0.update(j as int, accs@[j as int]));
                assert(crate::scan::agg::accumulator::deferred_views(deferred@) =~= ops
                    + meta_segment_ops(before, specs@, names, segments@[s as int], (j + 1) as nat));
            }
            j = j + 1;
        }
        proof {
            assert(crate::scan::agg::accumulator::deferred_views(deferred@) =~= start + meta_ops(
                specs@,
                names,
                segments@,
                (s + 1) as nat,
            ));
        }
        s = s + 1;
    }
    assert(crate::scan::agg::aggregate::acc_views(accs@) =~= meta_states(
        specs@,
        names,
        segments@,
        segments@.len(),
    ));
    accs
}

// ---------------------------------------------------------------------------
// Laws
// ---------------------------------------------------------------------------

/// A query is answered without its rows only if it takes all of them into one group: neither group
/// expressions nor a WHERE clause nor HAVING filters. What is stored with every segment is asked
/// only if it can answer every aggregate, and of it only what some aggregate reads.
pub proof fn law_paths(plan: AggPlan, i: int)
    requires
        0 <= i < plan.agg_specs@.len(),
    ensures
        path_at_first(plan) is Catalog <==> plan.group_specs@.len() == 0 && plan.where_quals is None
            && plan.having_filters@.len() == 0,
        path_at_first(plan) is Catalog || path_at_first(plan) is Scan,
        path_from_there(plan) is Metadata || path_from_there(plan) is Scan,
        path_from_there(plan) is Metadata ==> path_at_first(plan) is Catalog && resolvable(
            plan.agg_specs@[i],
        ),
        path_at_first(plan) is Catalog && (forall|k: int|
            0 <= k < plan.agg_specs@.len() ==> resolvable(#[trigger] plan.agg_specs@[k]))
            ==> path_from_there(plan) is Metadata,
        path_from_there(plan) matches AnswerPath::Metadata { sums, minmax } ==> {
            let t = plan.agg_specs@[i].agg_type;
            &&& t is Sum || t is Avg || t is Count ==> sums
            &&& t is Min || t is Max ==> minmax
            &&& sums ==> exists|k: int|
                0 <= k < plan.agg_specs@.len() && {
                    let t = (#[trigger] plan.agg_specs@[k]).agg_type;
                    t is Sum || t is Avg || t is Count
                }
            &&& minmax ==> exists|k: int|
                0 <= k < plan.agg_specs@.len() && {
                    let t = (#[trigger] plan.agg_specs@[k]).agg_type;
                    t is Min || t is Max
                }
        },
{
    if path_from_there(plan) is Metadata {
        assert(resolvable(plan.agg_specs@[i]));
        let spec = plan.agg_specs@[i];
        assert(reads_sum(spec) ==> exists|k: int|
            0 <= k < plan.agg_specs@.len() && reads_sum(#[trigger] plan.agg_specs@[k]));
        assert(reads_minmax(spec) ==> exists|k: int|
            0 <= k < plan.agg_specs@.len() && reads_minmax(#[trigger] plan.agg_specs@[k]));
    }
}

/// What is stored with every segment answers `COUNT(*)`; sums of number columns, also with a
/// constant; counts and averages of number columns; and extrema of columns. It never answers
/// anything about lengths, nor the number of distinct values.
pub proof fn law_resolvable(spec: AggExecSpec)
    ensures
        ({
            let number = spec.col_type_oid == 20 || spec.col_type_oid == 21 || spec.col_type_oid
                == 23 || spec.col_type_oid == 700 || spec.col_type_oid == 701;
            let plain = spec.expr_kind is Column && spec.col_idx >= 0;
            &&& spec.agg_type is CountStar ==> resolvable(spec)
            &&& spec.agg_type is CountDistinct ==> !resolvable(spec)
            &&& spec.agg_type is Sum ==> (resolvable(spec) <==> number && spec.col_idx >= 0 && (
            spec.expr_kind is Column || spec.expr_kind is AddConst))
            &&& spec.agg_type is Avg || spec.agg_type is Count ==> (resolvable(spec) <==> number
                && plain)
            &&& spec.agg_type is Min || spec.agg_type is Max ==> (resolvable(spec) <==> plain)
        }),
{
}

/// A segment stores what an aggregate reads if it has the sum and count, or the extrema, of the
/// aggregate's column; `COUNT(*)` needs neither.
pub proof fn law_stored(seg: SegmentMeta, spec: AggExecSpec, names: Seq<Seq<char>>)
    ensures
        spec.agg_type is CountStar ==> stores(seg, spec, names),
        spec.agg_type is Sum || spec.agg_type is Avg || spec.agg_type is Count ==> (stores(
            seg,
            spec,
            names,
        ) <==> seg.col_sums@.contains_key(names[spec.col_idx as int])),
        spec.agg_type is Min || spec.agg_type is Max ==> (stores(seg, spec, names)
            <==> seg.col_minmax@.contains_key(names[spec.col_idx as int])),
{
}

/// The catalog answers `COUNT(*)` if it knows the row counts of all tables: one more table whose
/// count is known adds its rows, and one whose count is unknown leaves the query unanswered. Without
/// tables there are no rows.
pub proof fn law_catalog_counts(
    spec: AggExecSpec,
    counts: Seq<Option<i64>>,
    more: i64,
    ndistinct: Map<Seq<char>, i64>,
    names: Seq<Seq<char>>,
)
    requires
        spec.agg_type is CountStar,
        i64::MIN <= rows_total(counts, counts.len()) <= i64::MAX,
        i64::MIN <= rows_total(counts, counts.len()) + more <= i64::MAX,
    ensures
        catalog_answer(spec, Seq::empty(), ndistinct, names) matches Some(cell) && !cell.1
            && crate::scan::datum::signed(cell.0.word) == 0,
        catalog_answer(spec, counts.push(None), ndistinct, names) is None,
        ({
            let before = catalog_answer(spec, counts, ndistinct, names);
            let after = catalog_answer(spec, counts.push(Some(more)), ndistinct, names);
            &&& before is Some <==> after is Some
            &&& before matches Some(b) ==> after matches Some(a) && !a.1 && !b.1
                && crate::scan::datum::signed(a.0.word) == crate::scan::datum::signed(b.0.word)
                + more
        }),
{
    let none = counts.push(None);
    assert(none[counts.len() as int] is None);
    let some = counts.push(Some(more));
    assert(some[counts.len() as int] == Some(more));
    lemma_rows_total_prefix(counts, some, counts.len());
    assert forall|i: int| 0 <= i < counts.len() implies #[trigger] some[i] == counts[i] by {}
    if rows_known(some) {
        assert forall|i: int| 0 <= i < counts.len() implies #[trigger] counts[i] is Some by {
            assert(some[i] is Some);
        }
    }
}

/// The sum of the first row counts depends on these alone.
proof fn lemma_rows_total_prefix(a: Seq<Option<i64>>, b: Seq<Option<i64>>, n: nat)
    requires
        n <= a.len(),
        n <= b.len(),
        forall|i: int| 0 <= i < n ==> a[i] == b[i],
    ensures
        rows_total(a, n) == rows_total(b, n),
    decreases n,
{
    if n > 0 {
        lemma_rows_total_prefix(a, b, (n - 1) as nat);
    }
}

/// The catalog answers `COUNT(DISTINCT)` of a column, and only of the column itself, with the
/// number that is recorded for it, if there is a single table and a number is recorded. It answers
/// nothing else but `COUNT(*)`.
pub proof fn law_catalog_distinct(
    spec: AggExecSpec,
    counts: Seq<Option<i64>>,
    ndistinct: Map<Seq<char>, i64>,
    names: Seq<Seq<char>>,
)
    requires
        !(spec.agg_type is CountStar),
    ensures
        ({
            let known = spec.agg_type is CountDistinct && spec.expr_kind is Column && counts.len()
                == 1 && 0 <= spec.col_idx < names.len() && ndistinct.contains_key(
                names[spec.col_idx as int],
            );
            match catalog_answer(spec, counts, ndistinct, names) {
                Some(cell) => known && !cell.1 && crate::scan::datum::signed(cell.0.word)
                    == ndistinct[names[spec.col_idx as int]],
                None => !known,
            }
        }),
{
}

/// A stored sum of a floating-point column is handed to the executor once, with the constant of the
/// aggregate and the number of values, and that number is counted; a null sum and a segment without
/// rows change nothing.
pub proof fn law_stored_float_sum(
    bits: u64,
    count: int,
    slot: int,
    spec: AggExecSpec,
    seg: SegmentMeta,
    names: Seq<Seq<char>>,
)
    requires
        spec.agg_type is Sum || spec.agg_type is Avg,
    ensures
        ({
            let acc = AccModel::SumFloat { bits, count };
            let sum = seg.col_sums@[names[spec.col_idx as int]];
            let after = meta_stepped(acc, spec, seg, names);
            let ops = meta_deferred(acc, slot, spec, seg, names);
            if seg.row_count == 0 || sum.sum_null {
                after == acc && ops.len() == 0
            } else {
                &&& after == (AccModel::SumFloat { bits, count: count + sum.nonnull_count })
                &&& ops.len() == 1
                &&& ops[0] matches DeferredModel::AddStoredSum { slot: to, word, offset, count: n }
                    && to == slot && word == sum.sum_datum.word && n == sum.nonnull_count && offset
                    == if spec.expr_kind is AddConst {
                    spec.const_offset
                } else {
                    0
                }
            }
        }),
{
}

/// A stored extremum of a floating-point column is offered once, as a double-precision number,
/// unless it is null or the segment has no rows; the state waits for the executor. Integer
/// aggregates leave nothing to it.
pub proof fn law_stored_float_extremum(
    acc: AccModel,
    slot: int,
    spec: AggExecSpec,
    seg: SegmentMeta,
    names: Seq<Seq<char>>,
)
    ensures
        ({
            let ext = seg.col_minmax@[names[spec.col_idx as int]];
            let ops = meta_deferred(acc, slot, spec, seg, names);
            &&& spec.agg_type is Min && acc is MinFloat || spec.agg_type is Max && acc is MaxFloat
                ==> {
                let (datum, null) = if spec.agg_type is Min {
                    (ext.min_datum, ext.min_null)
                } else {
                    (ext.max_datum, ext.max_null)
                };
                &&& meta_stepped(acc, spec, seg, names) == acc
                &&& ops.len() == if seg.row_count == 0 || null {
                    0nat
                } else {
                    1nat
                }
                &&& ops.len() == 1 ==> (ops[0] matches DeferredModel::OfferDatum {
                    slot: to,
                    word,
                    type_oid,
                } && to == slot && word == datum.word && type_oid == 701)
            }
            &&& acc is SumInt || acc is Count || acc is MinInt || acc is MaxInt ==> ops.len() == 0
        }),
{
}

/// Row counts that are known and not negative can be added up exactly if their sum fits in 64 bits.
pub proof fn law_addable_counts(counts: Seq<Option<i64>>)
    requires
        forall|i: int| 0 <= i < counts.len() ==> (#[trigger] counts[i] matches Some(c) && c >= 0),
    ensures
        rows_fit(counts) <==> rows_total(counts, counts.len()) <= 0x7fff_ffff_ffff_ffff,
{
    assert(counts.take(counts.len() as int) =~= counts);
    assert(rows_known(counts));
    assert forall|n: nat| n <= counts.len() implies 0 <= #[trigger] rows_total(counts, n)
        <= rows_total(counts, counts.len()) by {
        lemma_rows_total_grows(counts, n, counts.len());
        lemma_rows_total_grows(counts, 0, n);
    }
}

/// More tables have no fewer rows.
proof fn lemma_rows_total_grows(counts: Seq<Option<i64>>, a: nat, b: nat)
    requires
        a <= b <= counts.len(),
        forall|i: int| 0 <= i < counts.len() ==> (#[trigger] counts[i] matches Some(c) && c >= 0),
    ensures
        rows_total(counts, a) <= rows_total(counts, b),
    decreases b,
{
    if a < b {
        lemma_rows_total_grows(counts, a, (b - 1) as nat);
        assert(counts[b - 1] matches Some(c) && c >= 0);
    }
}

} // verus!
