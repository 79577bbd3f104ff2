//! Aggregate accumulators.
//!
//! Integer, count, distinct and integer extremum aggregates are computed here. Floating-point
//! sums and extrema, and text extrema, depend on arithmetic and collation that the executor of a
//! query provides: a row appends the operation that is to be applied to the accumulator's slot,
//! and the outcome is handed back.

use crate::scan::datum::{datum_to_i128, is_float_type, is_text_type, Datum, INT4OID};
use std::collections::HashSet;
use vstd::hash_set::StringHashSet;
use vstd::prelude::*;

verus! {

broadcast use vstd::std_specs::hash::group_hash_axioms;

/// An aggregate function.
#[derive(Clone, Copy, PartialEq, Eq, Structural, Debug)]
pub enum AggType {
    Sum,
    Count,
    CountStar,
    Avg,
    CountDistinct,
    Min,
    Max,
}

/// What an aggregate is applied to.
#[derive(Clone, Copy, PartialEq, Eq, Structural, Debug)]
pub enum AggExpr {
    /// A column.
    Column,
    /// The length of a text column.
    LengthOf,
    /// A column plus an integer constant.
    AddConst,
}

/// One aggregate of a query.
#[derive(Clone, Copy, PartialEq, Eq, Structural, Debug)]
pub struct AggExecSpec {
    pub agg_type: AggType,
    /// The column, from zero; negative for `COUNT(*)`.
    pub col_idx: i32,
    /// The type of the column.
    pub col_type_oid: u32,
    pub expr_kind: AggExpr,
    /// The constant of `AddConst`.
    pub const_offset: i64,
}

/// The constant that is added to every value of an aggregate.
pub open spec fn offset_of(spec: AggExecSpec) -> int {
    if spec.expr_kind == AggExpr::AddConst {
        spec.const_offset as int
    } else {
        0
    }
}

/// Whether an aggregate compares or collects the values that it is applied to.
pub open spec fn collects(agg_type: AggType) -> bool {
    agg_type == AggType::CountDistinct || agg_type == AggType::Min || agg_type == AggType::Max
}

/// The type of the values that an aggregate takes in: that of its column, but lengths that are
/// compared or collected are integers.
pub open spec fn value_type(spec: AggExecSpec) -> u32 {
    if spec.expr_kind == AggExpr::LengthOf && collects(spec.agg_type) {
        INT4OID
    } else {
        spec.col_type_oid
    }
}

/// The type of the values that an aggregate takes in.
pub fn type_of_values(spec: &AggExecSpec) -> (type_oid: u32)
    ensures
        type_oid == value_type(*spec),
{
    match (spec.expr_kind, spec.agg_type) {
        (AggExpr::LengthOf, AggType::CountDistinct | AggType::Min | AggType::Max) => INT4OID,
        _ => spec.col_type_oid,
    }
}

/// The running state of one aggregate. Floating-point numbers are kept as their bits.
pub enum AggAccumulator {
    SumInt { sum: i128, count: i64 },
    SumFloat { bits: u64, count: i64 },
    Count { count: i64 },
    CountDistinctInt { seen: HashSet<i64> },
    CountDistinctStr { seen: StringHashSet },
    MinInt { val: Option<i64> },
    MaxInt { val: Option<i64> },
    MinFloat { bits: Option<u64> },
    MaxFloat { bits: Option<u64> },
    MinStr { val: Option<String> },
    MaxStr { val: Option<String> },
}

/// The state of an aggregate as a mathematical value.
pub enum AccModel {
    SumInt { sum: int, count: int },
    SumFloat { bits: u64, count: int },
    Count { count: int },
    DistinctInt { seen: Set<i64> },
    DistinctText { seen: Set<Seq<char>> },
    MinInt { val: Option<i64> },
    MaxInt { val: Option<i64> },
    MinFloat { bits: Option<u64> },
    MaxFloat { bits: Option<u64> },
    MinText { val: Option<Seq<char>> },
    MaxText { val: Option<Seq<char>> },
}

/// The text of an optional string.
pub open spec fn text_of(val: Option<String>) -> Option<Seq<char>> {
    match val {
        Some(s) => Some(s@),
        None => None,
    }
}

impl View for AggAccumulator {
    type V = AccModel;

    open spec fn view(&self) -> AccModel {
        match self {
            AggAccumulator::SumInt { sum, count } => AccModel::SumInt {
                sum: *sum as int,
                count: *count as int,
            },
            AggAccumulator::SumFloat { bits, count } => AccModel::SumFloat {
                bits: *bits,
                count: *count as int,
            },
            AggAccumulator::Count { count } => AccModel::Count { count: *count as int },
            AggAccumulator::CountDistinctInt { seen } => AccModel::DistinctInt { seen: seen@ },
            AggAccumulator::CountDistinctStr { seen } => AccModel::DistinctText { seen: seen@ },
            AggAccumulator::MinInt { val } => AccModel::MinInt { val: *val },
            AggAccumulator::MaxInt { val } => AccModel::MaxInt { val: *val },
            AggAccumulator::MinFloat { bits } => AccModel::MinFloat { bits: *bits },
            AggAccumulator::MaxFloat { bits } => AccModel::MaxFloat { bits: *bits },
            AggAccumulator::MinStr { val } => AccModel::MinText { val: text_of(*val) },
            AggAccumulator::MaxStr { val } => AccModel::MaxText { val: text_of(*val) },
        }
    }
}

/// The state before any row, by aggregate function and type of the values.
pub open spec fn initial(agg_type: AggType, col_type: u32) -> AccModel {
    let text = crate::scan::datum::is_text_oid(col_type);
    let float = crate::scan::datum::is_float_oid(col_type);
    match agg_type {
        AggType::Sum | AggType::Avg => if float {
            AccModel::SumFloat { bits: 0, count: 0 }
        } else {
            AccModel::SumInt { sum: 0, count: 0 }
        },
        AggType::Count | AggType::CountStar => AccModel::Count { count: 0 },
        AggType::CountDistinct => if text {
            AccModel::DistinctText { seen: Set::empty() }
        } else {
            AccModel::DistinctInt { seen: Set::empty() }
        },
        AggType::Min => if text {
            AccModel::MinText { val: None }
        } else if float {
            AccModel::MinFloat { bits: None }
        } else {
            AccModel::MinInt { val: None }
        },
        AggType::Max => if text {
            AccModel::MaxText { val: None }
        } else if float {
            AccModel::MaxFloat { bits: None }
        } else {
            AccModel::MaxInt { val: None }
        },
    }
}

/// The empty state of the same kind.
pub open spec fn emptied(acc: AccModel) -> AccModel {
    match acc {
        AccModel::SumInt { .. } => AccModel::SumInt { sum: 0, count: 0 },
        AccModel::SumFloat { .. } => AccModel::SumFloat { bits: 0, count: 0 },
        AccModel::Count { .. } => AccModel::Count { count: 0 },
        AccModel::DistinctInt { .. } => AccModel::DistinctInt { seen: Set::empty() },
        AccModel::DistinctText { .. } => AccModel::DistinctText { seen: Set::empty() },
        AccModel::MinInt { .. } => AccModel::MinInt { val: None },
        AccModel::MaxInt { .. } => AccModel::MaxInt { val: None },
        AccModel::MinFloat { .. } => AccModel::MinFloat { bits: None },
        AccModel::MaxFloat { .. } => AccModel::MaxFloat { bits: None },
        AccModel::MinText { .. } => AccModel::MinText { val: None },
        AccModel::MaxText { .. } => AccModel::MaxText { val: None },
    }
}

/// What a row offers to an aggregate.
#[derive(Clone, Copy)]
pub enum RowValue<'a> {
    /// The row counts whatever it holds.
    Row,
    /// Nothing: the value is null.
    Missing,
    /// A datum.
    Word(Datum),
    /// The length of a text.
    Length(usize),
    /// A text.
    Text(&'a str),
}

/// What a row offers to an aggregate, as a mathematical value.
pub enum RowModel {
    Row,
    Missing,
    Word(u64),
    Length(nat),
    Text(Seq<char>),
}

impl<'a> View for RowValue<'a> {
    type V = RowModel;

    open spec fn view(&self) -> RowModel {
        match self {
            RowValue::Row => RowModel::Row,
            RowValue::Missing => RowModel::Missing,
            RowValue::Word(d) => RowModel::Word(d.word),
            RowValue::Length(n) => RowModel::Length(*n as nat),
            RowValue::Text(s) => RowModel::Text(s@),
        }
    }
}

/// An operation that is left to the executor: the floating-point number of a datum is added to a
/// sum, with an integer constant if there is one; a length is added to a floating-point sum; the
/// numbers of many datums are added up, and each target sum gets that total and the product of
/// its constant and the count; the stored sum of a segment, a double-precision number, is added
/// with the product of a constant and a count; or a floating-point number or a text is offered to
/// an extremum.
pub enum Deferred {
    AddDatum { slot: usize, datum: Datum, type_oid: u32, offset: Option<i64> },
    AddLength { slot: usize, length: usize },
    AddTotals { terms: Vec<Datum>, type_oid: u32, count: i64, targets: Vec<(usize, i64)> },
    AddStoredSum { slot: usize, datum: Datum, offset: i64, count: i64 },
    OfferDatum { slot: usize, datum: Datum, type_oid: u32 },
    OfferText { slot: usize, text: String },
}

/// A deferred operation as a mathematical value.
pub enum DeferredModel {
    AddDatum { slot: int, word: u64, type_oid: u32, offset: Option<i64> },
    AddLength { slot: int, length: nat },
    AddTotals { terms: Seq<Datum>, type_oid: u32, count: int, targets: Seq<(usize, i64)> },
    AddStoredSum { slot: int, word: u64, offset: i64, count: i64 },
    OfferDatum { slot: int, word: u64, type_oid: u32 },
    OfferText { slot: int, text: Seq<char> },
}

impl View for Deferred {
    type V = DeferredModel;

    open spec fn view(&self) -> DeferredModel {
        match self {
            Deferred::AddDatum { slot, datum, type_oid, offset } => DeferredModel::AddDatum {
                slot: *slot as int,
                word: datum.word,
                type_oid: *type_oid,
                offset: *offset,
            },
            Deferred::AddLength { slot, length } => DeferredModel::AddLength {
                slot: *slot as int,
                length: *length as nat,
            },
            Deferred::AddTotals { terms, type_oid, count, targets } => DeferredModel::AddTotals {
                terms: terms@,
                type_oid: *type_oid,
                count: *count as int,
                targets: targets@,
            },
            Deferred::AddStoredSum {
                slot,
                datum,
                offset,
                count,
            } => DeferredModel::AddStoredSum {
                slot: *slot as int,
                word: datum.word,
                offset: *offset,
                count: *count,
            },
            Deferred::OfferDatum { slot, datum, type_oid } => DeferredModel::OfferDatum {
                slot: *slot as int,
                word: datum.word,
                type_oid: *type_oid,
            },
            Deferred::OfferText { slot, text } => DeferredModel::OfferText {
                slot: *slot as int,
                text: text@,
            },
        }
    }
}

/// The operations as mathematical values.
pub open spec fn deferred_views(ops: Seq<Deferred>) -> Seq<DeferredModel> {
    ops.map_values(|op: Deferred| op@)
}

/// The state after a row has offered a value.
pub open spec fn stepped(acc: AccModel, spec: AggExecSpec, value: RowModel) -> AccModel {
    match (spec.agg_type, acc, value) {
        (AggType::CountStar, AccModel::Count { count }, _) => AccModel::Count { count: count + 1 },
        (AggType::Count, AccModel::Count { count }, RowModel::Word(_)) => AccModel::Count {
            count: count + 1,
        },
        (
            AggType::Sum | AggType::Avg,
            AccModel::SumInt { sum, count },
            RowModel::Length(n),
        ) => AccModel::SumInt { sum: sum + n, count: count + 1 },
        (
            AggType::Sum | AggType::Avg,
            AccModel::SumInt { sum, count },
            RowModel::Word(w),
        ) => AccModel::SumInt {
            sum: sum + crate::scan::datum::integer_value(w, spec.col_type_oid) + offset_of(spec),
            count: count + 1,
        },
        (
            AggType::Sum | AggType::Avg,
            AccModel::SumFloat { bits, count },
            RowModel::Length(_) | RowModel::Word(_),
        ) => AccModel::SumFloat { bits, count: count + 1 },
        (
            AggType::CountDistinct,
            AccModel::DistinctInt { seen },
            RowModel::Word(w),
        ) => AccModel::DistinctInt { seen: seen.insert(crate::scan::datum::signed(w) as i64) },
        (
            AggType::CountDistinct,
            AccModel::DistinctText { seen },
            RowModel::Text(s),
        ) => AccModel::DistinctText { seen: seen.insert(s) },
        (AggType::Min, AccModel::MinInt { val }, RowModel::Word(w)) => {
            let v = crate::scan::datum::signed(w) as i64;
            AccModel::MinInt {
                val: if val is None || v < val->0 {
                    Some(v)
                } else {
                    val
                },
            }
        },
        (AggType::Max, AccModel::MaxInt { val }, RowModel::Word(w)) => {
            let v = crate::scan::datum::signed(w) as i64;
            AccModel::MaxInt {
                val: if val is None || v > val->0 {
                    Some(v)
                } else {
                    val
                },
            }
        },
        _ => acc,
    }
}

/// What is deferred when a row offers a value to the accumulator in `slot`.
pub open spec fn step_deferred(
    acc: AccModel,
    slot: int,
    spec: AggExecSpec,
    value: RowModel,
) -> Seq<DeferredModel> {
    match (spec.agg_type, acc, value) {
        (
            AggType::Sum | AggType::Avg,
            AccModel::SumFloat { .. },
            RowModel::Length(length),
        ) => seq![DeferredModel::AddLength { slot, length }],
        (
            AggType::Sum | AggType::Avg,
            AccModel::SumFloat { .. },
            RowModel::Word(word),
        ) => seq![
            DeferredModel::AddDatum {
                slot,
                word,
                type_oid: spec.col_type_oid,
                offset: if spec.expr_kind == AggExpr::AddConst {
                    Some(spec.const_offset)
                } else {
                    None
                },
            },
        ],
        (AggType::Min, AccModel::MinFloat { .. }, RowModel::Word(word)) => seq![
            DeferredModel::OfferDatum { slot, word, type_oid: spec.col_type_oid },
        ],
        (AggType::Max, AccModel::MaxFloat { .. }, RowModel::Word(word)) => seq![
            DeferredModel::OfferDatum { slot, word, type_oid: spec.col_type_oid },
        ],
        (AggType::Min, AccModel::MinText { .. }, RowModel::Text(text)) => seq![
            DeferredModel::OfferText { slot, text },
        ],
        (AggType::Max, AccModel::MaxText { .. }, RowModel::Text(text)) => seq![
            DeferredModel::OfferText { slot, text },
        ],
        _ => Seq::empty(),
    }
}

/// The most rows that a query aggregates; sums of that many values fit their accumulators.
pub const MAX_ROWS: u64 = 0x1000_0000_0000_0000;

/// The largest amount, either way, by which one row changes an integer sum.
pub const MAX_TERM: i128 = 0x2_0000_0000_0000_0000;

/// Whether a state is one that at most `rows` rows can lead to.
pub open spec fn within(acc: AccModel, rows: nat) -> bool {
    match acc {
        AccModel::SumInt { sum, count } => {
            &&& -(rows * MAX_TERM) <= sum <= rows * MAX_TERM
            &&& 0 <= count <= rows
        },
        AccModel::SumFloat { count, .. } => 0 <= count <= rows,
        AccModel::Count { count } => 0 <= count <= rows,
        _ => true,
    }
}

/// A state that some rows can lead to is one that more rows can lead to.
pub proof fn lemma_within_mono(acc: AccModel, rows: nat, more: nat)
    requires
        within(acc, rows),
        rows <= more,
    ensures
        within(acc, more),
{
    assert(rows * MAX_TERM <= more * MAX_TERM) by (nonlinear_arith)
        requires
            rows <= more,
    ;
}

/// A row leads from a state within some rows to one within one more.
pub proof fn lemma_step_within(acc: AccModel, spec: AggExecSpec, value: RowModel, rows: nat)
    requires
        within(acc, rows),
        value matches RowModel::Length(n) ==> n <= u64::MAX,
    ensures
        within(stepped(acc, spec, value), rows + 1),
{
    assert((rows + 1) * MAX_TERM == rows * MAX_TERM + MAX_TERM) by (nonlinear_arith);
    lemma_within_mono(acc, rows, rows + 1);
}

impl AggAccumulator {
    /// The state before any row.
    pub fn new_for(agg_type: AggType, col_type: u32) -> (acc: Self)
        ensures
            acc@ == initial(agg_type, col_type),
            within(acc@, 0),
    {
        match agg_type {
            AggType::Sum | AggType::Avg => if is_float_type(col_type) {
                AggAccumulator::SumFloat { bits: 0, count: 0 }
            } else {
                AggAccumulator::SumInt { sum: 0, count: 0 }
            },
            AggType::Count | AggType::CountStar => AggAccumulator::Count { count: 0 },
            AggType::CountDistinct => if is_text_type(col_type) {
                AggAccumulator::CountDistinctStr { seen: StringHashSet::new() }
            } else {
                AggAccumulator::CountDistinctInt { seen: HashSet::new() }
            },
            AggType::Min => if is_text_type(col_type) {
                AggAccumulator::MinStr { val: None }
            } else if is_float_type(col_type) {
                AggAccumulator::MinFloat { bits: None }
            } else {
                AggAccumulator::MinInt { val: None }
            },
            AggType::Max => if is_text_type(col_type) {
                AggAccumulator::MaxStr { val: None }
            } else if is_float_type(col_type) {
                AggAccumulator::MaxFloat { bits: None }
            } else {
                AggAccumulator::MaxInt { val: None }
            },
        }
    }

    /// An empty accumulator of the same kind.
    pub fn clone_fresh(&self) -> (acc: Self)
        ensures
            acc@ == emptied(self@),
            within(acc@, 0),
    {
        match self {
            AggAccumulator::SumInt { .. } => AggAccumulator::SumInt { sum: 0, count: 0 },
            AggAccumulator::SumFloat { .. } => AggAccumulator::SumFloat { bits: 0, count: 0 },
            AggAccumulator::Count { .. } => AggAccumulator::Count { count: 0 },
            AggAccumulator::CountDistinctInt { .. } => AggAccumulator::CountDistinctInt {
                seen: HashSet::new(),
            },
            AggAccumulator::CountDistinctStr { .. } => AggAccumulator::CountDistinctStr {
                seen: StringHashSet::new(),
            },
            AggAccumulator::MinInt { .. } => AggAccumulator::MinInt { val: None },
            AggAccumulator::MaxInt { .. } => AggAccumulator::MaxInt { val: None },
            AggAccumulator::MinFloat { .. } => AggAccumulator::MinFloat { bits: None },
            AggAccumulator::MaxFloat { .. } => AggAccumulator::MaxFloat { bits: None },
            AggAccumulator::MinStr { .. } => AggAccumulator::MinStr { val: None },
            AggAccumulator::MaxStr { .. } => AggAccumulator::MaxStr { val: None },
        }
    }

    /// Takes in what a row offers. What is left to the executor is appended to `deferred`, for
    /// the accumulator in `slot`.
    pub(crate) fn step(
        &mut self,
        slot: usize,
        spec: &AggExecSpec,
        value: RowValue,
        Ghost(rows): Ghost<nat>,
        deferred: &mut Vec<Deferred>,
    )
        requires
            within(old(self)@, rows),
            rows < MAX_ROWS,
        ensures
            final(self)@ == stepped(old(self)@, *spec, value@),
            within(final(self)@, rows + 1),
            deferred_views(final(deferred)@) == deferred_views(old(deferred)@) + step_deferred(
                old(self)@,
                slot as int,
                *spec,
                value@,
            ),
    {
        proof {
            lemma_step_within(self@, *spec, value@, rows);
            assert(rows * MAX_TERM <= MAX_ROWS * MAX_TERM) by (nonlinear_arith)
                requires
                    rows < MAX_ROWS,
            ;
        }
        let ghost before = deferred@;
        let ghost pre = self@;
        match spec.agg_type {
            AggType::CountStar => if let AggAccumulator::Count { count } = self {
                *count = *count + 1;
            },
            AggType::Count => if let RowValue::Word(_) = value {
                if let AggAccumulator::Count { count } = self {
                    *count = *count + 1;
                }
            },
            AggType::Sum | AggType::Avg => match value {
                RowValue::Length(n) => match self {
                    AggAccumulator::SumInt { sum, count } => {
                        *sum = *sum + n as i128;
                        *count = *count + 1;
                    },
                    AggAccumulator::SumFloat { count, .. } => {
                        deferred.push(Deferred::AddLength { slot, length: n });
                        *count = *count + 1;
                    },
                    _ => {},
                },
                RowValue::Word(d) => match self {
                    AggAccumulator::SumInt { sum, count } => {
                        let v: i128 = datum_to_i128(d, spec.col_type_oid);
                        if spec.expr_kind == AggExpr::AddConst {
                            *sum = *sum + (v + spec.const_offset as i128);
                        } else {
                            *sum = *sum + v;
                        }
                        *count = *count + 1;
                    },
                    AggAccumulator::SumFloat { count, .. } => {
                        let offset: Option<i64> = if spec.expr_kind == AggExpr::AddConst {
                            Some(spec.const_offset)
                        } else {
                            None
                        };
                        deferred.push(
                            Deferred::AddDatum {
                                slot,
                                datum: d,
                                type_oid: spec.col_type_oid,
                                offset,
                            },
                        );
                        *count = *count + 1;
                    },
                    _ => {},
                },
                _ => {},
            },
            AggType::CountDistinct => match value {
                RowValue::Word(d) => if let AggAccumulator::CountDistinctInt { seen } = self {
                    seen.insert(d.to_i64());
                },
                RowValue::Text(s) => if let AggAccumulator::CountDistinctStr { seen } = self {
                    seen.insert(s.to_string());
                },
                _ => {},
            },
            AggType::Min => match value {
                RowValue::Word(d) => match self {
                    AggAccumulator::MinInt { val } => {
                        let v: i64 = d.to_i64();
                        let better: bool = match *val {
                            None => true,
                            Some(cur) => v < cur,
                        };
                        if better {
                            *val = Some(v);
                        }
                    },
                    AggAccumulator::MinFloat { .. } => {
                        deferred.push(
                            Deferred::OfferDatum { slot, datum: d, type_oid: spec.col_type_oid },
                        );
                    },
                    _ => {},
                },
                RowValue::Text(s) => if let AggAccumulator::MinStr { .. } = self {
                    deferred.push(Deferred::OfferText { slot, text: s.to_string() });
                },
                _ => {},
            },
            AggType::Max => match value {
                RowValue::Word(d) => match self {
                    AggAccumulator::MaxInt { val } => {
                        let v: i64 = d.to_i64();
                        let better: bool = match *val {
                            None => true,
                            Some(cur) => v > cur,
                        };
                        if better {
                            *val = Some(v);
                        }
                    },
                    AggAccumulator::MaxFloat { .. } => {
                        deferred.push(
                            Deferred::OfferDatum { slot, datum: d, type_oid: spec.col_type_oid },
                        );
                    },
                    _ => {},
                },
                RowValue::Text(s) => if let AggAccumulator::MaxStr { .. } = self {
                    deferred.push(Deferred::OfferText { slot, text: s.to_string() });
                },
                _ => {},
            },
        }
        assert(deferred_views(deferred@) =~= deferred_views(before) + step_deferred(
            pre,
            slot as int,
            *spec,
            value@,
        ));
    }
}

// ---------------------------------------------------------------------------
// Laws
// ---------------------------------------------------------------------------

/// Aggregates take in values of the type of their column, except where they compare or collect
/// lengths, which are 32-bit integers.
pub proof fn law_value_types(spec: AggExecSpec)
    ensures
        !(spec.expr_kind is LengthOf) ==> value_type(spec) == spec.col_type_oid,
        spec.expr_kind is LengthOf && (spec.agg_type is Sum || spec.agg_type is Avg
            || spec.agg_type is Count || spec.agg_type is CountStar) ==> value_type(spec)
            == spec.col_type_oid,
        spec.expr_kind is LengthOf && (spec.agg_type is CountDistinct || spec.agg_type is Min
            || spec.agg_type is Max) ==> value_type(spec) == 23,
{
}

/// Every aggregate begins with nothing: a count or sum of zero over no values, no extremum, no value
/// seen; text and floating-point columns have states of their own.
pub proof fn law_initial_states(agg_type: AggType, col_type: u32)
    ensures
        ({
            let acc = initial(agg_type, col_type);
            let text = col_type == 25 || col_type == 1043 || col_type == 1042;
            let float = col_type == 700 || col_type == 701;
            match agg_type {
                AggType::Count | AggType::CountStar => acc matches AccModel::Count { count } && count
                    == 0,
                AggType::Sum | AggType::Avg => match acc {
                    AccModel::SumFloat { bits, count } => float && bits == 0 && count == 0,
                    AccModel::SumInt { sum, count } => !float && sum == 0 && count == 0,
                    _ => false,
                },
                AggType::CountDistinct => match acc {
                    AccModel::DistinctText { seen } => text && seen.is_empty(),
                    AccModel::DistinctInt { seen } => !text && seen.is_empty(),
                    _ => false,
                },
                AggType::Min => match acc {
                    AccModel::MinText { val } => text && val is None,
                    AccModel::MinFloat { bits } => float && bits is None,
                    AccModel::MinInt { val } => !text && !float && val is None,
                    _ => false,
                },
                AggType::Max => match acc {
                    AccModel::MaxText { val } => text && val is None,
                    AccModel::MaxFloat { bits } => float && bits is None,
                    AccModel::MaxInt { val } => !text && !float && val is None,
                    _ => false,
                },
            }
        }),
{
}

/// Each value that a floating-point sum counts is handed to the executor once, as it is and with the
/// constant that is to be added; each number or text offered to a floating-point or text extremum is
/// handed over once; and nothing else is.
pub proof fn law_deferred_once(acc: AccModel, slot: int, spec: AggExecSpec, value: RowModel)
    ensures
        ({
            let ops = step_deferred(acc, slot, spec, value);
            let sums = spec.agg_type is Sum || spec.agg_type is Avg;
            &&& sums && acc is SumFloat ==> stepped(acc, spec, value) == (AccModel::SumFloat {
                bits: acc->SumFloat_bits,
                count: acc->SumFloat_count + ops.len(),
            })
            &&& sums && acc is SumFloat && value is Word ==> {
                &&& ops.len() == 1
                &&& ops[0] matches DeferredModel::AddDatum { slot: to, word, type_oid, offset }
                    && to == slot && word == value->Word_0 && type_oid == spec.col_type_oid && (
                offset is Some <==> spec.expr_kind is AddConst) && (offset matches Some(c) ==> c
                    == spec.const_offset)
            }
            &&& sums && acc is SumFloat && value is Length ==> {
                &&& ops.len() == 1
                &&& ops[0] matches DeferredModel::AddLength { slot: to, length } && to == slot
                    && length == value->Length_0
            }
            &&& (spec.agg_type is Min && acc is MinFloat || spec.agg_type is Max && acc is MaxFloat)
                && value is Word ==> {
                &&& ops.len() == 1
                &&& ops[0] matches DeferredModel::OfferDatum { slot: to, word, type_oid } && to
                    == slot && word == value->Word_0 && type_oid == spec.col_type_oid
            }
            &&& (spec.agg_type is Min && acc is MinText || spec.agg_type is Max && acc is MaxText)
                && value is Text ==> {
                &&& ops.len() == 1
                &&& ops[0] matches DeferredModel::OfferText { slot: to, text } && to == slot && text
                    == value->Text_0
            }
            &&& value is Missing || value is Row ==> ops.len() == 0
            &&& acc is SumInt || acc is Count || acc is DistinctInt || acc is DistinctText
                || acc is MinInt || acc is MaxInt ==> ops.len() == 0
        }),
{
}

/// A null changes nothing but `COUNT(*)`, to which every row counts.
pub proof fn law_nulls_skipped(acc: AccModel, spec: AggExecSpec)
    ensures
        !(spec.agg_type is CountStar) ==> stepped(acc, spec, RowModel::Missing) == acc,
        spec.agg_type is CountStar && acc is Count ==> stepped(acc, spec, RowModel::Missing) == (
        AccModel::Count { count: acc->Count_count + 1 }),
{
}

} // verus!
