//! By what results are compared: as numbers of their own type, not as words.

use crate::scan::agg::accumulator::{type_of_values, AggExecSpec, AggType};
use crate::scan::agg::finalize::FinalValue;
use crate::scan::agg::plan::{GroupByColSpec, GroupByExpr};
use crate::scan::datum::{FLOAT4OID, FLOAT8OID};
use vstd::prelude::*;

verus! {

/// What a result is compared by.
#[derive(Clone, Copy, PartialEq, Eq, Structural, Debug)]
pub enum Measure {
    /// Null.
    Null,
    /// The exact quotient of a sum and a positive count; an integer has the count 1.
    Ratio { sum: i128, count: i64 },
    /// A double-precision number, given by its bits.
    Double(u64),
}

/// Whether a quotient has a positive count.
pub open spec fn sound(m: Measure) -> bool {
    m matches Measure::Ratio { count, .. } ==> count > 0
}

/// The place of a double-precision number among all of them. Sign and magnitude order them; both
/// zeros are equal, and what is not a number comes above all numbers.
pub open spec fn double_rank(bits: u64) -> int {
    let size = bits as int % 0x8000_0000_0000_0000;
    if size > 0x7ff0_0000_0000_0000 {
        0x7ff0_0000_0000_0001
    } else if bits >= 0x8000_0000_0000_0000 {
        -size
    } else {
        size
    }
}

/// The place of a double-precision number among all of them.
pub fn rank_double(bits: u64) -> (r: i64)
    ensures
        r == double_rank(bits),
{
    let size: u64 = bits % 0x8000_0000_0000_0000;
    if size > 0x7ff0_0000_0000_0000 {
        0x7ff0_0000_0000_0001
    } else if bits >= 0x8000_0000_0000_0000 {
        -(size as i64)
    } else {
        size as i64
    }
}

/// Whether a measure is below another one. Results of one column are of one kind; nulls are not
/// below anything, nor anything below them.
pub open spec fn below(a: Measure, b: Measure) -> bool {
    match (a, b) {
        (
            Measure::Ratio { sum: s1, count: c1 },
            Measure::Ratio { sum: s2, count: c2 },
        ) => s1 * c2 < s2 * c1,
        (Measure::Double(x), Measure::Double(y)) => double_rank(x) < double_rank(y),
        (Measure::Ratio { .. }, Measure::Double(_)) => true,
        _ => false,
    }
}

/// Quotients are ordered transitively.
proof fn lemma_ratio_trans(s1: int, c1: int, s2: int, c2: int, s3: int, c3: int)
    requires
        c1 > 0,
        c2 > 0,
        c3 > 0,
        s1 * c2 <= s2 * c1,
        s2 * c3 <= s3 * c2,
    ensures
        s1 * c3 <= s3 * c1,
        s1 * c2 < s2 * c1 || s2 * c3 < s3 * c2 ==> s1 * c3 < s3 * c1,
{
    let strict = s1 * c2 < s2 * c1 || s2 * c3 < s3 * c2;
    assert((s1 * c2) * c3 <= (s2 * c1) * c3 && (s1 * c2 < s2 * c1 ==> (s1 * c2) * c3 < (s2 * c1)
        * c3)) by (nonlinear_arith)
        requires
            s1 * c2 <= s2 * c1,
            c3 > 0,
    ;
    assert((s2 * c3) * c1 <= (s3 * c2) * c1 && (s2 * c3 < s3 * c2 ==> (s2 * c3) * c1 < (s3 * c2)
        * c1)) by (nonlinear_arith)
        requires
            s2 * c3 <= s3 * c2,
            c1 > 0,
    ;
    assert((s2 * c1) * c3 == (s2 * c3) * c1) by (nonlinear_arith);
    assert((s1 * c2) * c3 == (s1 * c3) * c2) by (nonlinear_arith);
    assert((s3 * c2) * c1 == (s3 * c1) * c2) by (nonlinear_arith);
    let x = s1 * c3;
    let y = s3 * c1;
    assert(x <= y && (strict ==> x < y)) by (nonlinear_arith)
        requires
            x * c2 <= y * c2,
            strict ==> x * c2 < y * c2,
            c2 > 0,
    ;
}

/// Being below is a strict order, and not being below is transitive.
pub proof fn lemma_below_order(a: Measure, b: Measure, c: Measure)
    requires
        sound(a),
        sound(b),
        sound(c),
        !(a is Null),
        !(b is Null),
        !(c is Null),
    ensures
        below(a, b) ==> !below(b, a),
        below(a, b) && !below(c, b) ==> below(a, c),
        !below(b, a) && below(b, c) ==> below(a, c),
        !below(b, a) && !below(c, b) ==> !below(c, a),
{
    if let Measure::Ratio { sum: s1, count: c1 } = a {
        if let Measure::Ratio { sum: s2, count: c2 } = b {
            if let Measure::Ratio { sum: s3, count: c3 } = c {
                if s1 * c2 <= s2 * c1 && s2 * c3 <= s3 * c2 {
                    lemma_ratio_trans(
                        s1 as int,
                        c1 as int,
                        s2 as int,
                        c2 as int,
                        s3 as int,
                        c3 as int,
                    );
                }
            }
        }
    }
}

/// Two quotients compare as their whole parts, or else as their remainders.
proof fn lemma_ratio_parts(
    s1: int,
    c1: int,
    q1: int,
    r1: int,
    s2: int,
    c2: int,
    q2: int,
    r2: int,
)
    requires
        c1 > 0,
        c2 > 0,
        s1 == q1 * c1 + r1,
        0 <= r1 < c1,
        s2 == q2 * c2 + r2,
        0 <= r2 < c2,
    ensures
        s1 * c2 < s2 * c1 <==> q1 < q2 || q1 == q2 && r1 * c2 < r2 * c1,
{
    let p = c1 * c2;
    assert(s1 * c2 == q1 * p + r1 * c2) by (nonlinear_arith)
        requires
            s1 == q1 * c1 + r1,
            p == c1 * c2,
    ;
    assert(s2 * c1 == q2 * p + r2 * c1) by (nonlinear_arith)
        requires
            s2 == q2 * c2 + r2,
            p == c1 * c2,
    ;
    assert(0 <= r1 * c2 < p) by (nonlinear_arith)
        requires
            0 <= r1 < c1,
            c2 > 0,
            p == c1 * c2,
    ;
    assert(0 <= r2 * c1 < p) by (nonlinear_arith)
        requires
            0 <= r2 < c2,
            c1 > 0,
            p == c1 * c2,
    ;
    if q1 < q2 {
        assert(q1 * p + p <= q2 * p) by (nonlinear_arith)
            requires
                q1 + 1 <= q2,
                p > 0,
        ;
    } else if q2 < q1 {
        assert(q2 * p + p <= q1 * p) by (nonlinear_arith)
            requires
                q2 + 1 <= q1,
                p > 0,
        ;
    }
}

/// The whole part and the remainder of a quotient.
fn whole_part(s: i128, c: i64) -> (r: (i128, i64))
    requires
        c > 0,
    ensures
        s == r.0 * c + r.1,
        0 <= r.1 < c,
{
    let d: i128 = c as i128;
    let ghost q = s as int / d as int;
    let ghost m = s as int % d as int;
    proof {
        assert(s == q * d + m && 0 <= m < d) by (nonlinear_arith)
            requires
                d > 0,
                q == s as int / d as int,
                m == s as int % d as int,
        ;
        assert(i128::MIN <= q <= i128::MAX) by (nonlinear_arith)
            requires
                s == q * d + m,
                0 <= m < d,
                i128::MIN <= s <= i128::MAX,
        ;
    }
    let whole: i128 = match s.checked_div_euclid(d) {
        Some(w) => w,
        None => 0,
    };
    let rest: i128 = match s.checked_rem_euclid(d) {
        Some(w) => w,
        None => 0,
    };
    (whole, rest as i64)
}

/// Whether a measure is below another one.
pub fn is_below(a: Measure, b: Measure) -> (r: bool)
    requires
        sound(a),
        sound(b),
    ensures
        r == below(a, b),
{
    match (a, b) {
        (Measure::Ratio { sum: s1, count: c1 }, Measure::Ratio { sum: s2, count: c2 }) => {
            let (q1, r1) = whole_part(s1, c1);
            let (q2, r2) = whole_part(s2, c2);
            proof {
                lemma_ratio_parts(
                    s1 as int,
                    c1 as int,
                    q1 as int,
                    r1 as int,
                    s2 as int,
                    c2 as int,
                    q2 as int,
                    r2 as int,
                );
                assert(0 <= r1 * c2 <= 0x4000_0000_0000_0000_0000_0000_0000_0000) by (nonlinear_arith)
                    requires
                        0 <= r1 <= 0x7fff_ffff_ffff_ffff,
                        0 < c2 <= 0x7fff_ffff_ffff_ffff,
                ;
                assert(0 <= r2 * c1 <= 0x4000_0000_0000_0000_0000_0000_0000_0000) by (nonlinear_arith)
                    requires
                        0 <= r2 <= 0x7fff_ffff_ffff_ffff,
                        0 < c1 <= 0x7fff_ffff_ffff_ffff,
                ;
            }
            q1 < q2 || (q1 == q2 && (r1 as i128) * (c2 as i128) < (r2 as i128) * (c1 as i128))
        },
        (Measure::Double(x), Measure::Double(y)) => rank_double(x) < rank_double(y),
        (Measure::Ratio { .. }, Measure::Double(_)) => true,
        _ => false,
    }
}

// ---------------------------------------------------------------------------
// The measures of results
// ---------------------------------------------------------------------------

/// What kind of number the word of a result is.
#[derive(Clone, Copy, PartialEq, Eq, Structural, Debug)]
pub enum ValueKind {
    /// An integer, or what is ordered as one.
    Integer,
    /// A single-precision number.
    Single,
    /// A double-precision number.
    Double,
}

/// The kind of a type.
pub open spec fn type_kind(type_oid: u32) -> ValueKind {
    if type_oid == FLOAT4OID {
        ValueKind::Single
    } else if type_oid == FLOAT8OID {
        ValueKind::Double
    } else {
        ValueKind::Integer
    }
}

/// The kind of an aggregate's result: counts are integers, and sums, averages and extrema are of
/// the kind of their values.
pub open spec fn agg_kind(spec: AggExecSpec) -> ValueKind {
    match spec.agg_type {
        AggType::Sum | AggType::Avg | AggType::Min | AggType::Max => type_kind(
            crate::scan::agg::accumulator::value_type(spec),
        ),
        _ => ValueKind::Integer,
    }
}

/// The kind of a group expression's value: that of its column, if it is one.
pub open spec fn group_kind(gs: GroupByColSpec) -> ValueKind {
    if gs.expr is Column {
        type_kind(gs.type_oid)
    } else {
        ValueKind::Integer
    }
}

/// The kind of a type.
fn kind_of_type(type_oid: u32) -> (k: ValueKind)
    ensures
        k == type_kind(type_oid),
{
    if type_oid == FLOAT4OID {
        ValueKind::Single
    } else if type_oid == FLOAT8OID {
        ValueKind::Double
    } else {
        ValueKind::Integer
    }
}

/// The kind of an aggregate's result.
pub fn kind_of_agg(spec: &AggExecSpec) -> (k: ValueKind)
    ensures
        k == agg_kind(*spec),
{
    match spec.agg_type {
        AggType::Sum | AggType::Avg | AggType::Min | AggType::Max => kind_of_type(
            type_of_values(spec),
        ),
        _ => ValueKind::Integer,
    }
}

/// The kind of a group expression's value.
pub fn kind_of_group(gs: &GroupByColSpec) -> (k: ValueKind)
    ensures
        k == group_kind(*gs),
{
    match &gs.expr {
        GroupByExpr::Column => kind_of_type(gs.type_oid),
        _ => ValueKind::Integer,
    }
}

/// An integer as a measure.
pub open spec fn whole(v: int) -> Measure {
    Measure::Ratio { sum: v as i128, count: 1 }
}

/// What a result is compared by. `outside` is what only the executor can tell: the double-precision
/// number of a result in floating point, by its bits, or the place of a text among the others.
pub open spec fn measured(value: FinalValue, kind: ValueKind, outside: u64) -> Measure {
    match value {
        FinalValue::Null => Measure::Null,
        FinalValue::Word(d) => match kind {
            ValueKind::Integer => whole(crate::scan::datum::signed(d.word)),
            ValueKind::Single => Measure::Double(outside),
            ValueKind::Double => Measure::Double(d.word),
        },
        FinalValue::Numeric(v) => whole(v as int),
        FinalValue::NumericQuotient { sum, count } => Measure::Ratio { sum, count },
        FinalValue::Narrowed(_) => Measure::Double(outside),
        FinalValue::FloatQuotient { .. } => Measure::Double(outside),
        FinalValue::Text(_) => whole(crate::scan::datum::signed(outside)),
    }
}

/// What a result is compared by.
pub fn measure(value: &FinalValue, kind: ValueKind, outside: u64) -> (m: Measure)
    requires
        value matches FinalValue::NumericQuotient { count, .. } ==> count > 0,
    ensures
        m == measured(*value, kind, outside),
        sound(m),
{
    match value {
        FinalValue::Null => Measure::Null,
        FinalValue::Word(d) => match kind {
            ValueKind::Integer => Measure::Ratio { sum: d.to_i64() as i128, count: 1 },
            ValueKind::Single => Measure::Double(outside),
            ValueKind::Double => Measure::Double(d.word),
        },
        FinalValue::Numeric(v) => Measure::Ratio { sum: *v, count: 1 },
        FinalValue::NumericQuotient { sum, count } => Measure::Ratio { sum: *sum, count: *count },
        FinalValue::Narrowed(_) => Measure::Double(outside),
        FinalValue::FloatQuotient { .. } => Measure::Double(outside),
        FinalValue::Text(_) => {
            let place = crate::scan::datum::Datum { word: outside };
            Measure::Ratio { sum: place.to_i64() as i128, count: 1 }
        },
    }
}

// ---------------------------------------------------------------------------
// Laws
// ---------------------------------------------------------------------------

/// Integers are ordered as they are, an average compares with a number as its sum does with the
/// number times the count, and a number in double precision is above another one of the same sign
/// if its magnitude is.
pub proof fn law_measures(v: i128, w: i128, sum: i128, count: i64, x: u64, y: u64)
    requires
        count > 0,
        x < y <= 0x7ff0_0000_0000_0000,
    ensures
        below(whole(v as int), whole(w as int)) <==> v < w,
        below(Measure::Ratio { sum, count }, whole(v as int)) <==> sum < v * count,
        below(whole(v as int), Measure::Ratio { sum, count }) <==> v * count < sum,
        below(Measure::Double(x), Measure::Double(y)),
        below(
            Measure::Double((y + 0x8000_0000_0000_0000) as u64),
            Measure::Double((x + 0x8000_0000_0000_0000) as u64),
        ),
{
}

/// Quotients with the same count compare as their sums, and multiplying sum and count changes
/// nothing.
pub proof fn law_quotients(a: Measure, b: Measure, c: Measure, factor: int)
    requires
        factor > 0,
        sound(a) && sound(b) && sound(c),
        a is Ratio && b is Ratio && c is Ratio,
        c->sum == a->sum * factor,
        c->count == a->count * factor,
    ensures
        a->count == b->count ==> (below(a, b) <==> a->sum < b->sum),
        below(a, b) <==> below(c, b),
        below(b, a) <==> below(b, c),
{
    let s1 = a->sum as int;
    let c1 = a->count as int;
    let s2 = b->sum as int;
    let c2 = b->count as int;
    if c1 == c2 {
        assert(s1 * c1 < s2 * c1 <==> s1 < s2) by (nonlinear_arith)
            requires
                c1 > 0,
        ;
    }
    let x = s1 * c2;
    let y = s2 * c1;
    assert((s1 * factor) * c2 == x * factor && s2 * (c1 * factor) == y * factor)
        by (nonlinear_arith)
        requires
            x == s1 * c2,
            y == s2 * c1,
    ;
    assert(x < y <==> x * factor < y * factor) by (nonlinear_arith)
        requires
            factor > 0,
    ;
    assert(y < x <==> y * factor < x * factor) by (nonlinear_arith)
        requires
            factor > 0,
    ;
}

/// Numbers in double precision: those below zero come before those above it, both zeros are equal,
/// changing the signs of two numbers turns their order round, and what is not a number comes after
/// all numbers and is equal to its like.
pub proof fn law_doubles(x: u64, y: u64, nan: u64, other: u64)
    requires
        x <= 0x7ff0_0000_0000_0000,
        y <= 0x7ff0_0000_0000_0000,
        0x7ff0_0000_0000_0000 < nan < 0x8000_0000_0000_0000 || nan > 0xfff0_0000_0000_0000,
        0x7ff0_0000_0000_0000 < other < 0x8000_0000_0000_0000 || other > 0xfff0_0000_0000_0000,
    ensures
        ({
            let minus_x = Measure::Double((x + 0x8000_0000_0000_0000) as u64);
            let minus_y = Measure::Double((y + 0x8000_0000_0000_0000) as u64);
            let plus_x = Measure::Double(x);
            let plus_y = Measure::Double(y);
            &&& below(plus_x, plus_y) <==> x < y
            &&& below(minus_y, minus_x) <==> x < y
            &&& below(minus_x, plus_y) <==> x > 0 || y > 0
            &&& !below(plus_x, minus_y)
            &&& below(plus_x, Measure::Double(nan))
            &&& below(minus_x, Measure::Double(nan))
            &&& !below(Measure::Double(nan), plus_x)
            &&& !below(Measure::Double(nan), minus_x)
            &&& !below(Measure::Double(nan), Measure::Double(other))
        }),
{
}

/// A null is neither below nor above anything.
pub proof fn law_null_measure(m: Measure)
    ensures
        !below(Measure::Null, m),
        !below(m, Measure::Null),
{
}

/// What a result is compared by: an integer result by its own number, a sum of any size by the sum,
/// an average of integers by its exact quotient, a double-precision number by its bits, and a
/// result that the executor computes in floating point or a text by what it says of them. Only a
/// null has no measure.
pub proof fn law_results_measured(
    v: i64,
    total: i128,
    count: i64,
    bits: u64,
    datum: crate::scan::datum::Datum,
    kind: ValueKind,
    outside: u64,
    value: FinalValue,
)
    ensures
        datum.word == crate::scan::datum::word_of(v as int) ==> {
            let m = measured(FinalValue::Word(datum), ValueKind::Integer, outside);
            &&& m is Ratio
            &&& m->count == 1
            &&& m->sum == v
        },
        measured(FinalValue::Word(datum), ValueKind::Double, outside) == Measure::Double(
            datum.word,
        ),
        measured(FinalValue::Word(datum), ValueKind::Single, outside) == Measure::Double(outside),
        ({
            let m = measured(FinalValue::Numeric(total), kind, outside);
            &&& m is Ratio
            &&& m->count == 1
            &&& m->sum == total
        }),
        ({
            let m = measured(FinalValue::NumericQuotient { sum: total, count }, kind, outside);
            &&& m is Ratio
            &&& m->count == count
            &&& m->sum == total
        }),
        measured(FinalValue::Narrowed(bits), kind, outside) == Measure::Double(outside),
        measured(FinalValue::FloatQuotient { bits, count }, kind, outside) == Measure::Double(
            outside,
        ),
        value is Text && outside == crate::scan::datum::word_of(v as int) ==> {
            let m = measured(value, kind, outside);
            &&& m is Ratio
            &&& m->count == 1
            &&& m->sum == v
        },
        measured(value, kind, outside) is Null <==> value is Null,
{
}

/// The results of counting are integers, whatever the column; those over double-precision columns
/// are compared in double precision, over single-precision ones as the executor widens them, and
/// over all others as integers. So are the values of a group column; what an expression computes
/// from one is an integer.
pub proof fn law_kinds(spec: AggExecSpec, gs: GroupByColSpec)
    ensures
        spec.agg_type is CountStar || spec.agg_type is Count || spec.agg_type is CountDistinct
            ==> agg_kind(spec) is Integer,
        spec.agg_type is Sum || spec.agg_type is Avg || spec.agg_type is Min || spec.agg_type is Max
            ==> {
            let t = crate::scan::agg::accumulator::value_type(spec);
            &&& agg_kind(spec) is Double <==> t == 701
            &&& agg_kind(spec) is Single <==> t == 700
        },
        gs.expr is Column ==> {
            &&& group_kind(gs) is Double <==> gs.type_oid == 701
            &&& group_kind(gs) is Single <==> gs.type_oid == 700
        },
        !(gs.expr is Column) ==> group_kind(gs) is Integer,
{
}

} // verus!
