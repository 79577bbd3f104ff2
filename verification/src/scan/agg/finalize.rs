//! From the final state of an aggregate to its result.

use crate::decimal::to_decimal;
use crate::scan::agg::accumulator::{AggAccumulator, AggExecSpec, AggType};
use crate::scan::datum::{Datum, FLOAT4OID, INT8OID};
use vstd::prelude::*;

verus! {

/// The result of an aggregate or of a group expression, before it becomes a datum. What is not a
/// plain word is made by the executor.
pub enum FinalValue {
    /// Null.
    Null,
    /// The word itself.
    Word(Datum),
    /// An arbitrary-precision number.
    Numeric(i128),
    /// The exact quotient of two arbitrary-precision numbers.
    NumericQuotient { sum: i128, count: i64 },
    /// A double-precision number, given by its bits, narrowed to single precision.
    Narrowed(u64),
    /// A double-precision number, given by its bits, divided by a count.
    FloatQuotient { bits: u64, count: i64 },
    /// A text, in the input form of the column's type.
    Text(String),
}

/// A result as a mathematical value.
pub enum FinalModel {
    Null,
    Word(u64),
    Numeric(int),
    NumericQuotient { sum: int, count: int },
    Narrowed(u64),
    FloatQuotient { bits: u64, count: int },
    Text(Seq<char>),
}

impl View for FinalValue {
    type V = FinalModel;

    open spec fn view(&self) -> FinalModel {
        match self {
            FinalValue::Null => FinalModel::Null,
            FinalValue::Word(d) => FinalModel::Word(d.word),
            FinalValue::Numeric(v) => FinalModel::Numeric(*v as int),
            FinalValue::NumericQuotient { sum, count } => FinalModel::NumericQuotient {
                sum: *sum as int,
                count: *count as int,
            },
            FinalValue::Narrowed(bits) => FinalModel::Narrowed(*bits),
            FinalValue::FloatQuotient { bits, count } => FinalModel::FloatQuotient {
                bits: *bits,
                count: *count as int,
            },
            FinalValue::Text(s) => FinalModel::Text(s@),
        }
    }
}

/// The low 64 bits of an integer.
pub open spec fn low_word(v: int) -> u64 {
    (v % 0x1_0000_0000_0000_0000) as u64
}

/// The result of an aggregate. Sums, averages and extrema of no values are null; the sum of
/// `bigint` and every integer average are arbitrary-precision numbers; single-precision columns
/// have single-precision sums and extrema.
pub open spec fn finalized(
    acc: crate::scan::agg::accumulator::AccModel,
    spec: AggExecSpec,
) -> FinalModel {
    match acc {
        crate::scan::agg::accumulator::AccModel::SumInt { sum, count } => if count == 0 {
            FinalModel::Null
        } else if spec.agg_type == AggType::Avg {
            FinalModel::NumericQuotient { sum, count }
        } else if spec.agg_type == AggType::Sum && spec.col_type_oid == INT8OID {
            FinalModel::Numeric(sum)
        } else {
            FinalModel::Word(low_word(sum))
        },
        crate::scan::agg::accumulator::AccModel::SumFloat { bits, count } => if count == 0 {
            FinalModel::Null
        } else if spec.agg_type == AggType::Avg {
            FinalModel::FloatQuotient { bits, count }
        } else if spec.agg_type == AggType::Sum && spec.col_type_oid == FLOAT4OID {
            FinalModel::Narrowed(bits)
        } else {
            FinalModel::Word(bits)
        },
        crate::scan::agg::accumulator::AccModel::Count { count } => FinalModel::Word(
            crate::scan::datum::word_of(count),
        ),
        crate::scan::agg::accumulator::AccModel::DistinctInt { seen } => FinalModel::Word(
            seen.len() as u64,
        ),
        crate::scan::agg::accumulator::AccModel::DistinctText { seen } => FinalModel::Word(
            seen.len() as u64,
        ),
        crate::scan::agg::accumulator::AccModel::MinInt { val }
        | crate::scan::agg::accumulator::AccModel::MaxInt { val } => match val {
            Some(v) => FinalModel::Word(crate::scan::datum::word_of(v as int)),
            None => FinalModel::Null,
        },
        crate::scan::agg::accumulator::AccModel::MinFloat { bits }
        | crate::scan::agg::accumulator::AccModel::MaxFloat { bits } => match bits {
            Some(b) => if spec.col_type_oid == FLOAT4OID {
                FinalModel::Narrowed(b)
            } else {
                FinalModel::Word(b)
            },
            None => FinalModel::Null,
        },
        crate::scan::agg::accumulator::AccModel::MinText { val }
        | crate::scan::agg::accumulator::AccModel::MaxText { val } => match val {
            Some(s) => FinalModel::Text(s),
            None => FinalModel::Null,
        },
    }
}

/// The low 64 bits of `v`.
fn low_bits(v: i128) -> (d: Datum)
    ensures
        d.word == low_word(v as int),
{
    let w: u64 = v as u64;
    proof {
        let r: i128 = (v as int % 0x1_0000_0000_0000_0000) as i128;
        let q: i128 = (v as int / 0x1_0000_0000_0000_0000) as i128;
        assert(v == q * 0x1_0000_0000_0000_0000 + r);
        assert(w == r) by (bit_vector)
            requires
                v == q * 0x1_0000_0000_0000_0000 + r,
                0 <= r < 0x1_0000_0000_0000_0000,
                w == v as u64,
        ;
    }
    Datum { word: w }
}

/// Finishes an aggregate.
pub fn finalize_accumulator(acc: &AggAccumulator, spec: &AggExecSpec) -> (r: FinalValue)
    ensures
        r@ == finalized(acc@, *spec),
{
    match acc {
        AggAccumulator::SumInt { sum, count } => {
            if *count == 0 {
                return FinalValue::Null;
            }
            match spec.agg_type {
                AggType::Sum => if spec.col_type_oid == INT8OID {
                    FinalValue::Numeric(*sum)
                } else {
                    FinalValue::Word(low_bits(*sum))
                },
                AggType::Avg => FinalValue::NumericQuotient { sum: *sum, count: *count },
                _ => FinalValue::Word(low_bits(*sum)),
            }
        },
        AggAccumulator::SumFloat { bits, count } => {
            if *count == 0 {
                return FinalValue::Null;
            }
            match spec.agg_type {
                AggType::Sum => if spec.col_type_oid == FLOAT4OID {
                    FinalValue::Narrowed(*bits)
                } else {
                    FinalValue::Word(Datum { word: *bits })
                },
                AggType::Avg => FinalValue::FloatQuotient { bits: *bits, count: *count },
                _ => FinalValue::Word(Datum { word: *bits }),
            }
        },
        AggAccumulator::Count { count } => FinalValue::Word(Datum::from_i64(*count)),
        AggAccumulator::CountDistinctInt { seen } => {
            broadcast use vstd::std_specs::hash::group_hash_axioms;

            FinalValue::Word(Datum::from(seen.len()))
        },
        AggAccumulator::CountDistinctStr { seen } => FinalValue::Word(Datum::from(seen.len())),
        AggAccumulator::MinInt { val } | AggAccumulator::MaxInt { val } => match val {
            Some(v) => FinalValue::Word(Datum::from_i64(*v)),
            None => FinalValue::Null,
        },
        AggAccumulator::MinFloat { bits } | AggAccumulator::MaxFloat { bits } => match bits {
            Some(b) => if spec.col_type_oid == FLOAT4OID {
                FinalValue::Narrowed(*b)
            } else {
                FinalValue::Word(Datum { word: *b })
            },
            None => FinalValue::Null,
        },
        AggAccumulator::MinStr { val } | AggAccumulator::MaxStr { val } => match val {
            Some(s) => FinalValue::Text(s.clone()),
            None => FinalValue::Null,
        },
    }
}

/// How an integer is handed over to become an arbitrary-precision number: as a 64-bit integer
/// where it fits, otherwise as decimal text.
pub enum NumericInput {
    Int8(Datum),
    Text(String),
}

/// Whether an integer is handed over as it should be.
pub open spec fn is_handed_over(val: int, input: NumericInput) -> bool {
    match input {
        NumericInput::Int8(d) => i64::MIN <= val <= i64::MAX && d.word
            == crate::scan::datum::word_of(val),
        NumericInput::Text(s) => !(i64::MIN <= val <= i64::MAX) && s@ == crate::decimal::decimal(
            val,
        ),
    }
}

/// Chooses how an integer is handed over to become an arbitrary-precision number.
pub fn numeric_input(val: i128) -> (r: NumericInput)
    ensures
        is_handed_over(val as int, r),
{
    if val >= i64::MIN as i128 && val <= i64::MAX as i128 {
        NumericInput::Int8(Datum::from_i64(val as i64))
    } else {
        NumericInput::Text(to_decimal(val))
    }
}

/// However an integer is handed over, it is the integer: the word holds it, or the text denotes it.
pub proof fn law_numbers_handed_over(val: i128, input: NumericInput)
    requires
        is_handed_over(val as int, input),
    ensures
        match input {
            NumericInput::Int8(d) => crate::scan::datum::signed(d.word) == val,
            NumericInput::Text(s) => crate::decimal::parsed_i128(vstd::utf8::encode_utf8(s@))
                == Some(val as int),
        },
{
    crate::decimal::law_decimal_roundtrip(val as int);
}

} // verus!
