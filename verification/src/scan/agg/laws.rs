//! What aggregation means: every group holds the aggregates of exactly its rows.

use crate::scan::agg::accumulator;
use crate::scan::agg::accumulator::{
    AccModel, AggExecSpec, AggExpr, AggType, DeferredModel, RowModel,
};
use crate::scan::agg::aggregate;
use crate::scan::agg::aggregate::{AggState, Source};
use crate::scan::agg::finalize;
use crate::scan::agg::finalize::FinalModel;
use crate::scan::agg::group::KeyPart;
use crate::scan::agg::metadata;
use crate::scan::agg::metadata::SegmentMeta;
use crate::scan::datum;
use vstd::prelude::*;

verus! {

/// The state of an aggregate after it has taken in values one after the other.
pub open spec fn folded(acc: AccModel, spec: AggExecSpec, values: Seq<RowModel>) -> AccModel
    decreases values.len(),
{
    if values.len() == 0 {
        acc
    } else {
        accumulator::stepped(folded(acc, spec, values.drop_last()), spec, values.last())
    }
}

/// What the first `n` rows of a segment offer to aggregate `j` of the group with a key: the values
/// of the selected rows that have that key.
pub open spec fn group_values(src: Source, key: Seq<KeyPart>, j: int, n: nat) -> Seq<RowModel>
    decreases n,
{
    if n == 0 {
        Seq::empty()
    } else {
        let before = group_values(src, key, j, (n - 1) as nat);
        if aggregate::selected(src.selection, n - 1) && aggregate::source_key(src, n - 1) == key {
            before.push(aggregate::values_at(src, n - 1)[j])
        } else {
            before
        }
    }
}

/// The state of aggregate `j` of the group with a key; the initial state if there is no such
/// group.
pub open spec fn group_acc(
    st: AggState,
    specs: Seq<AggExecSpec>,
    key: Seq<KeyPart>,
    j: int,
) -> AccModel {
    if st.keys.contains(key) {
        st.accs[st.keys.index_of(key) * specs.len() + j]
    } else {
        aggregate::fresh_accs(specs)[j]
    }
}

/// Whether each group has its own key and a state for each aggregate.
pub open spec fn state_ok(st: AggState, specs: Seq<AggExecSpec>) -> bool {
    &&& st.keys.no_duplicates()
    &&& st.accs.len() == st.keys.len() * specs.len()
}

/// A row keeps the groups apart, and changes only the states of its own group.
proof fn lemma_after_row(
    st: AggState,
    specs: Seq<AggExecSpec>,
    row_key: Seq<KeyPart>,
    values: Seq<RowModel>,
    key: Seq<KeyPart>,
    j: int,
)
    requires
        state_ok(st, specs),
        values.len() == specs.len(),
        0 <= j < specs.len(),
    ensures
        ({
            let after = aggregate::after_row(st, specs, row_key, values);
            &&& state_ok(after, specs)
            &&& after.keys.contains(key) <==> st.keys.contains(key) || key == row_key
            &&& group_acc(after, specs, key, j) == if key == row_key {
                accumulator::stepped(group_acc(st, specs, key, j), specs[j], values[j])
            } else {
                group_acc(st, specs, key, j)
            }
        }),
{
    let after = aggregate::after_row(st, specs, row_key, values);
    let wide = aggregate::with_group(st, specs, row_key);
    let n = specs.len() as int;
    let g = aggregate::group_of(st.keys, row_key);
    let base = g * n;
    assert((st.keys.len() + 1) * n == st.keys.len() * n + n) by (nonlinear_arith);
    assert(after.keys.no_duplicates()) by {
        if !st.keys.contains(row_key) {
            assert forall|a: int, b: int|
                0 <= a < after.keys.len() && 0 <= b < after.keys.len() && a
                    != b implies after.keys[a] != after.keys[b] by {
                if a < st.keys.len() && b == st.keys.len() {
                    assert(st.keys[a] == after.keys[a]);
                }
                if b < st.keys.len() && a == st.keys.len() {
                    assert(st.keys[b] == after.keys[b]);
                }
            }
        }
    }
    assert(after.keys[g] == row_key);
    assert(after.keys.contains(row_key));
    if st.keys.contains(key) {
        let k = st.keys.index_of(key);
        assert(after.keys[k] == key);
        assert(after.keys.index_of(key) == k);
        lemma_slots(k, g, n, j, st.keys.len() as int);
        assert(wide.accs[k * n + j] == st.accs[k * n + j]);
    } else if key == row_key {
        assert(after.keys.index_of(key) == g);
        lemma_slots(g, g, n, j, after.keys.len() as int);
        assert(wide.accs[base + j] == aggregate::fresh_accs(specs)[j]);
    } else {
        assert forall|a: int| 0 <= a < after.keys.len() implies after.keys[a] != key by {
            if a < st.keys.len() {
                assert(st.keys[a] == after.keys[a]);
            }
        }
    }
}

/// The states of different groups stand in different places.
proof fn lemma_slots(k: int, g: int, n: int, j: int, count: int)
    requires
        0 <= k < count,
        0 <= g,
        0 <= j < n,
    ensures
        0 <= k * n + j < count * n,
        g * n <= k * n + j < g * n + n <==> k == g,
        k == g ==> k * n + j - g * n == j,
{
    assert(k * n + n <= count * n) by (nonlinear_arith)
        requires
            k + 1 <= count,
            n > 0,
    ;
    assert(0 <= k * n) by (nonlinear_arith)
        requires
            0 <= k,
            n > 0,
    ;
    if k < g {
        assert(k * n + n <= g * n) by (nonlinear_arith)
            requires
                k + 1 <= g,
                n > 0,
        ;
    } else if g < k {
        assert(g * n + n <= k * n) by (nonlinear_arith)
            requires
                g + 1 <= k,
                n > 0,
        ;
    }
}

/// Every group holds the aggregates of exactly its rows: after some rows of a segment, the state
/// of an aggregate of a group is what it was before, with the values of the group's selected rows
/// taken in, in their order. Groups stay distinct, every selected row has a group, and no group
/// appears without a row.
pub proof fn law_groups_hold_their_rows(
    st: AggState,
    src: Source,
    n: nat,
    key: Seq<KeyPart>,
    j: int,
)
    requires
        state_ok(st, src.specs),
        0 <= j < src.specs.len(),
    ensures
        state_ok(aggregate::after_rows(st, src, n), src.specs),
        group_acc(aggregate::after_rows(st, src, n), src.specs, key, j) == folded(
            group_acc(st, src.specs, key, j),
            src.specs[j],
            group_values(src, key, j, n),
        ),
        aggregate::after_rows(st, src, n).keys.contains(key) <==> st.keys.contains(key)
            || group_values(src, key, j, n).len() > 0,
    decreases n,
{
    if n > 0 {
        let row = n - 1;
        law_groups_hold_their_rows(st, src, row as nat, key, j);
        let before = aggregate::after_rows(st, src, row as nat);
        if aggregate::selected(src.selection, row) {
            let row_key = aggregate::source_key(src, row);
            let values = aggregate::values_at(src, row);
            lemma_after_row(before, src.specs, row_key, values, key, j);
            if row_key == key {
                let earlier = group_values(src, key, j, row as nat);
                assert(earlier.push(values[j]).drop_last() =~= earlier);
            }
        }
    }
}

/// `COUNT(*)` of a group grows by the number of its rows.
pub proof fn law_count_star(spec: AggExecSpec, start: int, values: Seq<RowModel>)
    requires
        spec.agg_type == AggType::CountStar,
    ensures
        folded(AccModel::Count { count: start }, spec, values) == (AccModel::Count {
            count: start + values.len(),
        }),
    decreases values.len(),
{
    if values.len() > 0 {
        law_count_star(spec, start, values.drop_last());
    }
}

/// How many of the values are not null.
pub open spec fn present(values: Seq<RowModel>) -> int
    decreases values.len(),
{
    if values.len() == 0 {
        0
    } else {
        present(values.drop_last()) + if values.last() is Word {
            1int
        } else {
            0
        }
    }
}

/// The sum of the values that are not null, as integers of a type.
pub open spec fn total(values: Seq<RowModel>, type_oid: u32) -> int
    decreases values.len(),
{
    if values.len() == 0 {
        0
    } else {
        total(values.drop_last(), type_oid) + match values.last() {
            RowModel::Word(w) => datum::integer_value(w, type_oid),
            _ => 0,
        }
    }
}

/// `COUNT` of a column counts the values that are not null.
pub proof fn law_count(spec: AggExecSpec, start: int, values: Seq<RowModel>)
    requires
        spec.agg_type == AggType::Count,
    ensures
        folded(AccModel::Count { count: start }, spec, values) == (AccModel::Count {
            count: start + present(values),
        }),
    decreases values.len(),
{
    if values.len() > 0 {
        law_count(spec, start, values.drop_last());
    }
}

/// `SUM(col + C)` is `SUM(col)` and `C` times the number of values: a constant under a sum can be
/// taken out of it. The same state gives the average.
pub proof fn law_sum(spec: AggExecSpec, sum: int, count: int, values: Seq<RowModel>)
    requires
        spec.agg_type == AggType::Sum || spec.agg_type == AggType::Avg,
        forall|i: int| 0 <= i < values.len() ==> !(#[trigger] values[i] is Length),
    ensures
        folded(AccModel::SumInt { sum, count }, spec, values) == (AccModel::SumInt {
            sum: sum + total(values, spec.col_type_oid) + accumulator::offset_of(spec) * present(
                values,
            ),
            count: count + present(values),
        }),
    decreases values.len(),
{
    let c = accumulator::offset_of(spec);
    if values.len() > 0 {
        law_sum(spec, sum, count, values.drop_last());
        let k = present(values.drop_last());
        assert(c * (k + 1) == c * k + c) by (nonlinear_arith);
        assert(!(values[values.len() - 1] is Length));
    } else {
        assert(c * 0 == 0) by (nonlinear_arith);
    }
}

/// The sum of the lengths among the values.
pub open spec fn total_length(values: Seq<RowModel>) -> int
    decreases values.len(),
{
    if values.len() == 0 {
        0
    } else {
        total_length(values.drop_last()) + match values.last() {
            RowModel::Length(n) => n as int,
            _ => 0,
        }
    }
}

/// How many of the values are lengths.
pub open spec fn lengths_among(values: Seq<RowModel>) -> int
    decreases values.len(),
{
    if values.len() == 0 {
        0
    } else {
        lengths_among(values.drop_last()) + if values.last() is Length {
            1int
        } else {
            0
        }
    }
}

/// `SUM(length(col))` is the sum of the lengths of the strings that are not null, and the average
/// has their number.
pub proof fn law_sum_of_lengths(spec: AggExecSpec, sum: int, count: int, values: Seq<RowModel>)
    requires
        spec.agg_type == AggType::Sum || spec.agg_type == AggType::Avg,
        forall|i: int| 0 <= i < values.len() ==> !(#[trigger] values[i] is Word),
    ensures
        folded(AccModel::SumInt { sum, count }, spec, values) == (AccModel::SumInt {
            sum: sum + total_length(values),
            count: count + lengths_among(values),
        }),
    decreases values.len(),
{
    if values.len() > 0 {
        law_sum_of_lengths(spec, sum, count, values.drop_last());
        assert(!(values[values.len() - 1] is Word));
    }
}

/// A text adds its length to a sum whether the column is decompressed to lengths or to texts.
pub proof fn law_lengths_agree(acc: AccModel, spec: AggExecSpec, length: nat)
    requires
        spec.agg_type == AggType::Sum || spec.agg_type == AggType::Avg,
        spec.expr_kind == AggExpr::LengthOf,
        datum::is_text_oid(spec.col_type_oid),
        acc is SumInt,
        length <= u64::MAX,
    ensures
        accumulator::stepped(acc, spec, RowModel::Word(datum::word_of(length as int)))
            == accumulator::stepped(acc, spec, RowModel::Length(length)),
{
}

/// `MIN` of an integer column is null without values; otherwise it is one of the values, and none
/// is less.
pub proof fn law_min(spec: AggExecSpec, values: Seq<RowModel>)
    requires
        spec.agg_type == AggType::Min,
    ensures
        folded(AccModel::MinInt { val: None }, spec, values) matches AccModel::MinInt { val }
            && match val {
            None => present(values) == 0,
            Some(v) => {
                &&& exists|i: int|
                    0 <= i < values.len() && #[trigger] values[i] is Word && datum::signed(
                        values[i]->Word_0,
                    ) == v
                &&& forall|i: int|
                    0 <= i < values.len() && #[trigger] values[i] is Word ==> datum::signed(
                        values[i]->Word_0,
                    ) >= v
            },
        },
    decreases values.len(),
{
    if values.len() > 0 {
        let front = values.drop_last();
        let last = values.len() - 1;
        law_min(spec, front);
        assert forall|i: int| 0 <= i < last implies values[i] == front[i] by {}
        if let AccModel::MinInt { val } = folded(AccModel::MinInt { val: None }, spec, front) {
            if let Some(v) = val {
                let k = choose|i: int|
                    0 <= i < front.len() && #[trigger] front[i] is Word && datum::signed(
                        front[i]->Word_0,
                    ) == v;
                assert(values[k] is Word);
            } else {
                lemma_none_present(front);
            }
        }
        if values.last() is Word {
            datum::law_word_roundtrip(0, values.last()->Word_0);
            assert(values[last] is Word);
        }
        assert forall|i: int| 0 <= i < values.len() && #[trigger] values[i] is Word implies i == last
            || front[i] is Word by {}
    }
}

/// `MAX` of an integer column is null without values; otherwise it is one of the values, and none
/// is greater.
pub proof fn law_max(spec: AggExecSpec, values: Seq<RowModel>)
    requires
        spec.agg_type == AggType::Max,
    ensures
        folded(AccModel::MaxInt { val: None }, spec, values) matches AccModel::MaxInt { val }
            && match val {
            None => present(values) == 0,
            Some(v) => {
                &&& exists|i: int|
                    0 <= i < values.len() && #[trigger] values[i] is Word && datum::signed(
                        values[i]->Word_0,
                    ) == v
                &&& forall|i: int|
                    0 <= i < values.len() && #[trigger] values[i] is Word ==> datum::signed(
                        values[i]->Word_0,
                    ) <= v
            },
        },
    decreases values.len(),
{
    if values.len() > 0 {
        let front = values.drop_last();
        let last = values.len() - 1;
        law_max(spec, front);
        assert forall|i: int| 0 <= i < last implies values[i] == front[i] by {}
        if let AccModel::MaxInt { val } = folded(AccModel::MaxInt { val: None }, spec, front) {
            if let Some(v) = val {
                let k = choose|i: int|
                    0 <= i < front.len() && #[trigger] front[i] is Word && datum::signed(
                        front[i]->Word_0,
                    ) == v;
                assert(values[k] is Word);
            } else {
                lemma_none_present(front);
            }
        }
        if values.last() is Word {
            datum::law_word_roundtrip(0, values.last()->Word_0);
            assert(values[last] is Word);
        }
        assert forall|i: int| 0 <= i < values.len() && #[trigger] values[i] is Word implies i == last
            || front[i] is Word by {}
    }
}

/// Values among which none is present are all absent.
proof fn lemma_none_present(values: Seq<RowModel>)
    requires
        present(values) == 0,
    ensures
        forall|i: int| 0 <= i < values.len() ==> !(#[trigger] values[i] is Word),
    decreases values.len(),
{
    lemma_present_bound(values);
    if values.len() > 0 {
        lemma_present_bound(values.drop_last());
        lemma_none_present(values.drop_last());
        assert forall|i: int| 0 <= i < values.len() implies !(#[trigger] values[i] is Word) by {
            if i < values.len() - 1 {
                assert(values.drop_last()[i] == values[i]);
            }
        }
    }
}

/// The number of present values is not negative.
proof fn lemma_present_bound(values: Seq<RowModel>)
    ensures
        0 <= present(values) <= values.len(),
    decreases values.len(),
{
    if values.len() > 0 {
        lemma_present_bound(values.drop_last());
    }
}

/// `COUNT(DISTINCT)` of a column that is not text has seen exactly the values that are present.
pub proof fn law_count_distinct(spec: AggExecSpec, values: Seq<RowModel>, v: i64)
    requires
        spec.agg_type == AggType::CountDistinct,
    ensures
        folded(AccModel::DistinctInt { seen: Set::empty() }, spec, values) matches
            AccModel::DistinctInt { seen } && (seen.contains(v) <==> exists|i: int|
            0 <= i < values.len() && #[trigger] values[i] is Word && datum::signed(
                values[i]->Word_0,
            ) == v),
        folded(AccModel::DistinctInt { seen: Set::empty() }, spec, values) matches
            AccModel::DistinctInt { seen } && seen.finite(),
    decreases values.len(),
{
    if values.len() > 0 {
        let front = values.drop_last();
        let last = values.len() - 1;
        law_count_distinct(spec, front, v);
        if let AccModel::DistinctInt { seen } = folded(
            AccModel::DistinctInt { seen: Set::empty() },
            spec,
            front,
        ) {
            if seen.contains(v) {
                let k = choose|i: int|
                    0 <= i < front.len() && #[trigger] front[i] is Word && datum::signed(
                        front[i]->Word_0,
                    ) == v;
                assert(values[k] is Word);
            }
        }
        if values.last() is Word {
            datum::law_word_roundtrip(0, values.last()->Word_0);
            assert(values[last] is Word);
        }
        assert forall|i: int| 0 <= i < values.len() && #[trigger] values[i] is Word implies i == last
            || front[i] is Word by {}
    }
}

/// `COUNT(DISTINCT)` of a text column has seen exactly the texts that are present.
pub proof fn law_count_distinct_text(spec: AggExecSpec, values: Seq<RowModel>, t: Seq<char>)
    requires
        spec.agg_type == AggType::CountDistinct,
    ensures
        folded(AccModel::DistinctText { seen: Set::empty() }, spec, values) matches
            AccModel::DistinctText { seen } && seen.finite() && (seen.contains(t)
            <==> values.contains(RowModel::Text(t))),
    decreases values.len(),
{
    if values.len() > 0 {
        let front = values.drop_last();
        law_count_distinct_text(spec, front, t);
        assert(values =~= front.push(values.last()));
        assert(values.contains(RowModel::Text(t)) <==> front.contains(RowModel::Text(t))
            || values.last() == RowModel::Text(t)) by {
            if front.contains(RowModel::Text(t)) {
                let k = front.index_of(RowModel::Text(t));
                assert(values[k] == RowModel::Text(t));
            }
            if values.last() == RowModel::Text(t) {
                assert(values[values.len() - 1] == RowModel::Text(t));
            }
            if values.contains(RowModel::Text(t)) && values.last() != RowModel::Text(t) {
                let k = values.index_of(RowModel::Text(t));
                assert(front[k] == RowModel::Text(t));
            }
        }
    }
}

/// Whether every aggregate of a shared sum takes its numbers alike: the same type, and no constant
/// but that of `AddConst`.
pub open spec fn alike(specs: Seq<AggExecSpec>) -> bool {
    forall|i: int|
        0 <= i < specs.len() ==> {
            &&& (#[trigger] specs[i]).col_type_oid == specs[0].col_type_oid
            &&& specs[i].expr_kind == AggExpr::Column ==> specs[i].const_offset == 0
        }
}

/// Whether all states are sums, of floating-point numbers or of integers.
pub open spec fn all_sums(accs: Seq<AccModel>, float: bool) -> bool {
    forall|i: int|
        0 <= i < accs.len() ==> if float {
            #[trigger] accs[i] is SumFloat
        } else {
            accs[i] is SumInt
        }
}

/// Deriving all sums of a column from one gives what taking in row after row gives. Sums of
/// floating-point numbers leave different operations to the executor: one for all rows in place of
/// one for each.
pub proof fn law_shared_sum_agrees(st: AggState, src: Source)
    requires
        state_ok(st, src.specs),
        st.keys == seq![Seq::<KeyPart>::empty()],
        all_sums(st.accs, datum::is_float_oid(src.specs[0].col_type_oid)),
        aggregate::shares_sum(src),
        alike(src.specs),
        aggregate::source_ok(src),
    ensures
        ({
            let one = aggregate::after_shared_sum(st, src);
            let other = aggregate::after_rows(st, src, src.seg.row_count as nat);
            &&& one.keys == other.keys
            &&& one.accs == other.accs
            &&& one.rows == other.rows
            &&& !datum::is_float_oid(src.specs[0].col_type_oid) ==> one == other
        }),
{
    let n = src.seg.row_count as nat;
    assert(st.accs.len() == src.specs.len()) by (nonlinear_arith)
        requires
            st.accs.len() == st.keys.len() * src.specs.len(),
            st.keys.len() == 1,
    ;
    lemma_shared_prefix(st, src, n);
    let one = aggregate::after_shared_sum(st, src);
    let other = aggregate::after_rows(st, src, n);
    assert(one.accs =~= other.accs);
}

/// The same after the first `n` rows.
#[verifier::rlimit(30)]
proof fn lemma_shared_prefix(st: AggState, src: Source, n: nat)
    requires
        st.accs.len() == src.specs.len(),
        st.keys == seq![Seq::<KeyPart>::empty()],
        all_sums(st.accs, datum::is_float_oid(src.specs[0].col_type_oid)),
        aggregate::shares_sum(src),
        alike(src.specs),
        aggregate::source_ok(src),
        n <= src.seg.row_count,
    ensures
        ({
            let float = datum::is_float_oid(src.specs[0].col_type_oid);
            let after = aggregate::after_rows(st, src, n);
            &&& after.keys == st.keys
            &&& !float ==> after.ops == st.ops
            &&& after.rows == st.rows + aggregate::selected_count(src.selection, n)
            &&& after.accs.len() == st.accs.len()
            &&& forall|i: int|
                0 <= i < st.accs.len() ==> #[trigger] after.accs[i] == aggregate::with_total(
                    st.accs[i],
                    src.specs[i],
                    float,
                    aggregate::base_sum(src, n),
                    aggregate::base_terms(src, n).len() as int,
                )
        }),
    decreases n,
{
    let float = datum::is_float_oid(src.specs[0].col_type_oid);
    if n == 0 {
        assert forall|i: int| 0 <= i < st.accs.len() implies #[trigger] aggregate::after_rows(
            st,
            src,
            0,
        ).accs[i] == aggregate::with_total(st.accs[i], src.specs[i], float, 0, 0) by {
            assert(st.accs[i] is SumInt || st.accs[i] is SumFloat);
            assert(src.specs[i].const_offset * 0 == 0) by (nonlinear_arith);
        }
    } else {
        let row = n - 1;
        let m = row as nat;
        lemma_shared_prefix(st, src, m);
        let before = aggregate::after_rows(st, src, m);
        let after = aggregate::after_rows(st, src, n);
        if aggregate::selected(src.selection, row) {
            assert(aggregate::row_ok(src, row));
            let key = aggregate::source_key(src, row);
            assert(key =~= Seq::<KeyPart>::empty());
            assert(before.keys[0] == key);
            assert(before.keys.contains(key));
            assert(before.keys.index_of(key) == 0);
            let values = aggregate::values_at(src, row);
            let c = aggregate::base_terms(src, m).len() as int;
            let size = src.specs.len();
            assert(0 * size == 0) by (nonlinear_arith);
            assert forall|i: int| 0 <= i < st.accs.len() implies #[trigger] after.accs[i]
                == aggregate::with_total(
                st.accs[i],
                src.specs[i],
                float,
                aggregate::base_sum(src, n),
                aggregate::base_terms(src, n).len() as int,
            ) by {
                let spec = src.specs[i];
                assert(before.accs[i] == aggregate::with_total(
                    st.accs[i],
                    spec,
                    float,
                    aggregate::base_sum(src, m),
                    c,
                ));
                assert(if float {
                    st.accs[i] is SumFloat
                } else {
                    st.accs[i] is SumInt
                });
                assert(src.specs[0].col_idx == spec.col_idx && aggregate::is_column_sum(spec));
                assert(crate::scan::agg::segment::value_ok(src.seg, src.raw_cols, spec, row));
                assert(spec.const_offset * (c + 1) == spec.const_offset * c + spec.const_offset)
                    by (nonlinear_arith);
                assert(values[i] == crate::scan::agg::segment::cell_value(
                    src.seg,
                    spec.col_idx as int,
                    row,
                ));
                assert(accumulator::offset_of(spec) == spec.const_offset);
            }
            if !float {
                assert forall|i: int| 0 <= i < before.accs.len() implies #[trigger]
                    before.accs[i] is SumInt by {
                    assert(st.accs[i] is SumInt);
                }
                lemma_no_ops(before.accs, src.specs, values, size);
                assert(after.ops =~= before.ops);
            }
        }
    }
}

/// Integer sums leave nothing to the executor.
proof fn lemma_no_ops(
    accs: Seq<AccModel>,
    specs: Seq<AggExecSpec>,
    values: Seq<RowModel>,
    n: nat,
)
    requires
        n <= accs.len(),
        forall|i: int| 0 <= i < accs.len() ==> #[trigger] accs[i] is SumInt,
    ensures
        aggregate::stepped_ops(accs, 0, specs, values, n) == Seq::<
            accumulator::DeferredModel,
        >::empty(),
    decreases n,
{
    if n > 0 {
        lemma_no_ops(accs, specs, values, (n - 1) as nat);
        assert(accs[n - 1] is SumInt);
        assert(aggregate::stepped_ops(accs, 0, specs, values, n) =~= Seq::<
            accumulator::DeferredModel,
        >::empty());
    }
}

// ---------------------------------------------------------------------------
// Metadata
// ---------------------------------------------------------------------------

/// The lesser of an optional number and another.
pub open spec fn lesser(a: Option<i64>, b: Option<i64>) -> Option<i64> {
    match (a, b) {
        (Some(x), Some(y)) => Some(
            if x <= y {
                x
            } else {
                y
            },
        ),
        (Some(x), None) => Some(x),
        (None, b) => b,
    }
}

/// The greater of an optional number and another.
pub open spec fn greater(a: Option<i64>, b: Option<i64>) -> Option<i64> {
    match (a, b) {
        (Some(x), Some(y)) => Some(
            if x >= y {
                x
            } else {
                y
            },
        ),
        (Some(x), None) => Some(x),
        (None, b) => b,
    }
}

/// A minimum that goes on from another is the lesser of the two.
proof fn lemma_min_from(spec: AggExecSpec, start: Option<i64>, values: Seq<RowModel>)
    requires
        spec.agg_type == AggType::Min,
    ensures
        folded(AccModel::MinInt { val: None }, spec, values) is MinInt,
        folded(AccModel::MinInt { val: start }, spec, values) == (AccModel::MinInt {
            val: lesser(start, folded(AccModel::MinInt { val: None }, spec, values)->MinInt_val),
        }),
    decreases values.len(),
{
    if values.len() > 0 {
        lemma_min_from(spec, start, values.drop_last());
    }
}

/// A maximum that goes on from another is the greater of the two.
proof fn lemma_max_from(spec: AggExecSpec, start: Option<i64>, values: Seq<RowModel>)
    requires
        spec.agg_type == AggType::Max,
    ensures
        folded(AccModel::MaxInt { val: None }, spec, values) is MaxInt,
        folded(AccModel::MaxInt { val: start }, spec, values) == (AccModel::MaxInt {
            val: greater(start, folded(AccModel::MaxInt { val: None }, spec, values)->MaxInt_val),
        }),
    decreases values.len(),
{
    if values.len() > 0 {
        lemma_max_from(spec, start, values.drop_last());
    }
}

/// Whether a number is among the values.
pub open spec fn occurs(values: Seq<RowModel>, v: int) -> bool {
    exists|i: int|
        0 <= i < values.len() && #[trigger] values[i] is Word && datum::signed(values[i]->Word_0)
            == v
}

/// Whether what is stored with a segment is true of the values that its rows offer to an integer
/// aggregate.
pub open spec fn truthful(
    seg: SegmentMeta,
    spec: AggExecSpec,
    names: Seq<Seq<char>>,
    values: Seq<RowModel>,
) -> bool {
    let name = names[spec.col_idx as int];
    let sum = seg.col_sums@[name];
    let ext = seg.col_minmax@[name];
    &&& seg.row_count == values.len()
    &&& spec.agg_type == AggType::Sum || spec.agg_type == AggType::Avg || spec.agg_type
        == AggType::Count ==> sum.nonnull_count == present(values)
    &&& spec.agg_type == AggType::Sum || spec.agg_type == AggType::Avg ==> {
        &&& sum.sum_null <==> present(values) == 0
        &&& !sum.sum_null ==> crate::decimal::parsed_i128(
            vstd::utf8::encode_utf8(sum.sum_text@),
        ) == Some(total(values, spec.col_type_oid))
    }
    &&& spec.agg_type == AggType::Min ==> {
        &&& ext.min_null <==> present(values) == 0
        &&& !ext.min_null ==> {
            let v = datum::signed(ext.min_datum.word);
            &&& occurs(values, v)
            &&& forall|i: int|
                0 <= i < values.len() && #[trigger] values[i] is Word ==> datum::signed(
                    values[i]->Word_0,
                ) >= v
        }
    }
    &&& spec.agg_type == AggType::Max ==> {
        &&& ext.max_null <==> present(values) == 0
        &&& !ext.max_null ==> {
            let v = datum::signed(ext.max_datum.word);
            &&& occurs(values, v)
            &&& forall|i: int|
                0 <= i < values.len() && #[trigger] values[i] is Word ==> datum::signed(
                    values[i]->Word_0,
                ) <= v
        }
    }
}

/// Whether a state belongs to an aggregate over integers.
pub open spec fn integer_state(spec: AggExecSpec, acc: AccModel) -> bool {
    match spec.agg_type {
        AggType::CountStar | AggType::Count => acc is Count,
        AggType::Sum | AggType::Avg => acc is SumInt,
        AggType::Min => acc is MinInt,
        AggType::Max => acc is MaxInt,
        AggType::CountDistinct => false,
    }
}

/// Without present values an aggregate keeps its state, unless it counts rows.
proof fn lemma_nothing_present(acc: AccModel, spec: AggExecSpec, values: Seq<RowModel>)
    requires
        integer_state(spec, acc),
        spec.agg_type != AggType::CountStar,
        present(values) == 0,
        forall|i: int| 0 <= i < values.len() ==> !(#[trigger] values[i] is Length),
    ensures
        folded(acc, spec, values) == acc,
    decreases values.len(),
{
    if values.len() > 0 {
        lemma_none_present(values);
        lemma_present_bound(values.drop_last());
        lemma_nothing_present(acc, spec, values.drop_last());
        assert(!(values[values.len() - 1] is Length));
        assert(!(values[values.len() - 1] is Word));
    }
}

/// Taking in what is stored with a segment gives what taking in its rows gives, if what is stored
/// is true.
pub proof fn law_metadata_agrees(
    acc: AccModel,
    spec: AggExecSpec,
    seg: SegmentMeta,
    names: Seq<Seq<char>>,
    values: Seq<RowModel>,
)
    requires
        integer_state(spec, acc),
        truthful(seg, spec, names, values),
        forall|i: int| 0 <= i < values.len() ==> !(#[trigger] values[i] is Length),
    ensures
        metadata::meta_stepped(acc, spec, seg, names) == folded(acc, spec, values),
{
    let name = metadata::column_of(spec, names);
    let sum = seg.col_sums@[name];
    let ext = seg.col_minmax@[name];
    lemma_present_bound(values);
    match acc {
        AccModel::Count { count } => {
            if spec.agg_type == AggType::CountStar {
                law_count_star(spec, count, values);
            } else {
                law_count(spec, count, values);
            }
        },
        AccModel::SumInt { sum: s, count } => {
            law_sum(spec, s, count, values);
            if sum.sum_null {
                lemma_nothing_present(acc, spec, values);
            }
        },
        AccModel::MinInt { val } => {
            if ext.min_null {
                lemma_nothing_present(acc, spec, values);
            } else {
                law_min(spec, values);
                lemma_min_from(spec, val, values);
                datum::law_word_roundtrip(0, ext.min_datum.word);
                let v = datum::signed(ext.min_datum.word);
                let i = choose|i: int|
                    0 <= i < values.len() && #[trigger] values[i] is Word && datum::signed(
                        values[i]->Word_0,
                    ) == v;
                if present(values) == 0 {
                    lemma_none_present(values);
                }
            }
        },
        AccModel::MaxInt { val } => {
            if ext.max_null {
                lemma_nothing_present(acc, spec, values);
            } else {
                law_max(spec, values);
                lemma_max_from(spec, val, values);
                datum::law_word_roundtrip(0, ext.max_datum.word);
                let v = datum::signed(ext.max_datum.word);
                let i = choose|i: int|
                    0 <= i < values.len() && #[trigger] values[i] is Word && datum::signed(
                        values[i]->Word_0,
                    ) == v;
                if present(values) == 0 {
                    lemma_none_present(values);
                }
            }
        },
        _ => {},
    }
}

/// Values that are taken in one part after the other are taken in as one.
proof fn lemma_folded_parts(
    acc: AccModel,
    spec: AggExecSpec,
    a: Seq<RowModel>,
    b: Seq<RowModel>,
)
    ensures
        folded(acc, spec, a + b) == folded(folded(acc, spec, a), spec, b),
    decreases b.len(),
{
    if b.len() == 0 {
        assert(a + b =~= a);
    } else {
        lemma_folded_parts(acc, spec, a, b.drop_last());
        assert((a + b).drop_last() =~= a + b.drop_last());
    }
}

/// The values of the first `n` segments, one after the other.
pub open spec fn all_values(values: Seq<Seq<RowModel>>, n: nat) -> Seq<RowModel>
    decreases n,
{
    if n == 0 {
        Seq::empty()
    } else {
        all_values(values, (n - 1) as nat) + values[n - 1]
    }
}

/// Aggregating from what is stored with all segments gives what aggregating all their rows gives,
/// if what is stored is true. `values` are, per segment, what its rows offer to aggregate `j`.
pub proof fn law_metadata_answers(
    specs: Seq<AggExecSpec>,
    names: Seq<Seq<char>>,
    segments: Seq<SegmentMeta>,
    values: Seq<Seq<RowModel>>,
    j: int,
    n: nat,
)
    requires
        0 <= j < specs.len(),
        n <= segments.len(),
        values.len() == segments.len(),
        integer_state(specs[j], aggregate::fresh_accs(specs)[j]),
        forall|s: int|
            0 <= s < segments.len() ==> truthful(
                #[trigger] segments[s],
                specs[j],
                names,
                values[s],
            ),
        forall|s: int, i: int|
            0 <= s < values.len() && 0 <= i < values[s].len() ==> !(
            #[trigger] values[s][i] is Length),
    ensures
        metadata::meta_states(specs, names, segments, n)[j] == folded(
            aggregate::fresh_accs(specs)[j],
            specs[j],
            all_values(values, n),
        ),
        integer_state(specs[j], metadata::meta_states(specs, names, segments, n)[j]),
    decreases n,
{
    if n > 0 {
        let s = n - 1;
        law_metadata_answers(specs, names, segments, values, j, s as nat);
        let before = metadata::meta_states(specs, names, segments, s as nat)[j];
        assert(truthful(segments[s], specs[j], names, values[s]));
        law_metadata_agrees(before, specs[j], segments[s], names, values[s]);
        lemma_folded_parts(
            aggregate::fresh_accs(specs)[j],
            specs[j],
            all_values(values, s as nat),
            values[s],
        );
    }
}

// ---------------------------------------------------------------------------
// All segments of a query
// ---------------------------------------------------------------------------

/// The state after the first `n` segments of a query.
pub open spec fn after_segments(st: AggState, srcs: Seq<Source>, n: nat) -> AggState
    decreases n,
{
    if n == 0 {
        st
    } else {
        aggregate::after_segment(after_segments(st, srcs, (n - 1) as nat), srcs[n - 1])
    }
}

/// What the first `n` segments offer to aggregate `j` of the group with a key.
pub open spec fn query_values(
    srcs: Seq<Source>,
    key: Seq<KeyPart>,
    j: int,
    n: nat,
) -> Seq<RowModel>
    decreases n,
{
    if n == 0 {
        Seq::empty()
    } else {
        query_values(srcs, key, j, (n - 1) as nat) + group_values(
            srcs[n - 1],
            key,
            j,
            srcs[n - 1].seg.row_count as nat,
        )
    }
}

/// Whether segments are read for the same query, and sums that are derived from one take their
/// numbers alike.
pub open spec fn same_query(srcs: Seq<Source>, specs: Seq<AggExecSpec>, grouped: bool) -> bool {
    forall|i: int|
        0 <= i < srcs.len() ==> {
            &&& (#[trigger] srcs[i]).specs == specs
            &&& srcs[i].groups.len() > 0 <==> grouped
            &&& aggregate::shares_sum(srcs[i]) ==> alike(specs) && aggregate::source_ok(srcs[i])
        }
}

/// Rows without groups keep the single group, and sums stay such.
proof fn lemma_single_state(st: AggState, src: Source, n: nat)
    requires
        src.groups.len() == 0,
        st.keys == seq![Seq::<KeyPart>::empty()],
    ensures
        aggregate::after_rows(st, src, n).keys == st.keys,
        all_sums(st.accs, true) ==> all_sums(aggregate::after_rows(st, src, n).accs, true),
        all_sums(st.accs, false) ==> all_sums(aggregate::after_rows(st, src, n).accs, false),
    decreases n,
{
    crate::scan::agg::ready::lemma_keys_after(st, src, n);
    crate::scan::agg::ready::lemma_single_group(src, n);
    if n > 0 {
        let m = (n - 1) as nat;
        lemma_single_state(st, src, m);
        let before = aggregate::after_rows(st, src, m);
        let key = aggregate::source_key(src, n - 1);
        assert(key =~= before.keys[0]);
        assert(before.keys.contains(key));
        let after = aggregate::after_rows(st, src, n);
        if all_sums(st.accs, true) {
            assert forall|i: int|
                0 <= i < after.accs.len() implies #[trigger] after.accs[i] is SumFloat by {
                assert(before.accs[i] is SumFloat);
            }
        }
        if all_sums(st.accs, false) {
            assert forall|i: int|
                0 <= i < after.accs.len() implies #[trigger] after.accs[i] is SumInt by {
                assert(before.accs[i] is SumInt);
            }
        }
    }
}

/// Every group holds the aggregates of exactly its rows, over all segments of a query: the state
/// of an aggregate of a group is the initial one with the values of the group's selected rows
/// taken in, segment after segment, in their order. Groups stay distinct, every selected row has a
/// group, and no group appears without a row.
pub proof fn law_query_groups_hold_their_rows(
    specs: Seq<AggExecSpec>,
    grouped: bool,
    srcs: Seq<Source>,
    n: nat,
    key: Seq<KeyPart>,
    j: int,
)
    requires
        same_query(srcs, specs, grouped),
        n <= srcs.len(),
        0 <= j < specs.len(),
    ensures
        ({
            let st = after_segments(aggregate::start(specs, grouped), srcs, n);
            &&& state_ok(st, specs)
            &&& st.keys.contains(key) ==> group_acc(st, specs, key, j) == folded(
                aggregate::fresh_accs(specs)[j],
                specs[j],
                query_values(srcs, key, j, n),
            )
            &&& st.keys.contains(key) <==> !grouped && key.len() == 0 || query_values(
                srcs,
                key,
                j,
                n,
            ).len() > 0
        }),
{
    lemma_query(specs, grouped, srcs, n, key, j);
}

/// The same, with what holds of queries without groups.
proof fn lemma_query(
    specs: Seq<AggExecSpec>,
    grouped: bool,
    srcs: Seq<Source>,
    n: nat,
    key: Seq<KeyPart>,
    j: int,
)
    requires
        same_query(srcs, specs, grouped),
        n <= srcs.len(),
        0 <= j < specs.len(),
    ensures
        ({
            let st = after_segments(aggregate::start(specs, grouped), srcs, n);
            &&& state_ok(st, specs)
            &&& group_acc(st, specs, key, j) == folded(
                aggregate::fresh_accs(specs)[j],
                specs[j],
                query_values(srcs, key, j, n),
            )
            &&& st.keys.contains(key) <==> !grouped && key.len() == 0 || query_values(
                srcs,
                key,
                j,
                n,
            ).len() > 0
            &&& !grouped ==> st.keys == seq![Seq::<KeyPart>::empty()]
            &&& !grouped && aggregate::one_column_sums(specs) && alike(specs) ==> all_sums(
                st.accs,
                datum::is_float_oid(specs[0].col_type_oid),
            )
        }),
    decreases n,
{
    let start = aggregate::start(specs, grouped);
    if n == 0 {
        let size = specs.len() as int;
        assert(0 * size == 0 && 1 * size == size) by (nonlinear_arith);
        if !grouped {
            assert(start.keys[0] == Seq::<KeyPart>::empty());
            if key.len() == 0 {
                assert(key =~= start.keys[0]);
                assert(start.keys.contains(key));
                assert(start.keys.index_of(key) == 0);
            } else if start.keys.contains(key) {
                assert(start.keys[start.keys.index_of(key)] == key);
            }
            if aggregate::one_column_sums(specs) && alike(specs) {
                let float = datum::is_float_oid(specs[0].col_type_oid);
                assert forall|i: int| 0 <= i < start.accs.len() implies if float {
                    #[trigger] start.accs[i] is SumFloat
                } else {
                    start.accs[i] is SumInt
                } by {
                    assert(aggregate::is_column_sum(specs[i]));
                    assert(specs[i].col_type_oid == specs[0].col_type_oid);
                }
            }
        }
    } else {
        let m = (n - 1) as nat;
        lemma_query(specs, grouped, srcs, m, key, j);
        let before = after_segments(start, srcs, m);
        let src = srcs[n - 1];
        let rows = src.seg.row_count as nat;
        assert(src.specs == specs);
        if !grouped {
            lemma_single_state(before, src, rows);
        }
        if aggregate::shares_sum(src) {
            law_shared_sum_agrees(before, src);
        }
        let after = aggregate::after_segment(before, src);
        assert(after.keys == aggregate::after_rows(before, src, rows).keys);
        assert(after.accs == aggregate::after_rows(before, src, rows).accs);
        law_groups_hold_their_rows(before, src, rows, key, j);
        lemma_folded_parts(
            aggregate::fresh_accs(specs)[j],
            specs[j],
            query_values(srcs, key, j, m),
            group_values(src, key, j, rows),
        );
    }
}

// ---------------------------------------------------------------------------
// Results
// ---------------------------------------------------------------------------

/// The result of an aggregate over values, from its first state to the value that is returned.
pub open spec fn result_of(spec: AggExecSpec, values: Seq<RowModel>) -> FinalModel {
    finalize::finalized(
        folded(
            accumulator::initial(spec.agg_type, accumulator::value_type(spec)),
            spec,
            values,
        ),
        spec,
    )
}

/// The values that are numbers.
pub open spec fn words(values: Seq<RowModel>) -> Seq<RowModel> {
    values.filter(|v: RowModel| v is Word)
}

/// The values that are lengths.
pub open spec fn lengths(values: Seq<RowModel>) -> Seq<RowModel> {
    values.filter(|v: RowModel| v is Length)
}

/// Counting values is counting those that are left when the others are taken out.
proof fn lemma_counts(values: Seq<RowModel>)
    ensures
        present(values) == words(values).len(),
        lengths_among(values) == lengths(values).len(),
    decreases values.len(),
{
    reveal(Seq::filter);
    if values.len() > 0 {
        lemma_counts(values.drop_last());
    }
}

/// `COUNT(*)` returns the number of rows, and `COUNT` of a column the number of those that are not
/// null.
pub proof fn law_counts_returned(spec: AggExecSpec, values: Seq<RowModel>)
    requires
        values.len() <= i64::MAX,
    ensures
        spec.agg_type == AggType::CountStar ==> (result_of(spec, values) matches FinalModel::Word(w)
            && datum::signed(w) == values.len()),
        spec.agg_type == AggType::Count ==> (result_of(spec, values) matches FinalModel::Word(w)
            && datum::signed(w) == words(values).len()),
{
    lemma_counts(values);
    lemma_present_bound(values);
    if spec.agg_type == AggType::CountStar {
        law_count_star(spec, 0, values);
    }
    if spec.agg_type == AggType::Count {
        law_count(spec, 0, values);
    }
}

/// `SUM` of an integer column returns null where there is no value and otherwise the sum of all
/// values, each with the constant: of `bigint` whatever its size, of the smaller types as a 64-bit
/// number. `AVG` returns that sum over the number of values.
pub proof fn law_integer_sums_returned(spec: AggExecSpec, values: Seq<RowModel>)
    requires
        spec.agg_type == AggType::Sum || spec.agg_type == AggType::Avg,
        spec.col_type_oid != 700 && spec.col_type_oid != 701,
        forall|i: int| 0 <= i < values.len() ==> !(#[trigger] values[i] is Length),
    ensures
        ({
            let n = words(values).len();
            let constant = if spec.expr_kind == AggExpr::AddConst {
                spec.const_offset as int
            } else {
                0
            };
            let sum = total(values, spec.col_type_oid) + constant * n;
            let r = result_of(spec, values);
            &&& n == 0 <==> r is Null
            &&& n > 0 && spec.agg_type == AggType::Avg ==> r == (FinalModel::NumericQuotient {
                sum,
                count: n as int,
            })
            &&& n > 0 && spec.agg_type == AggType::Sum && spec.col_type_oid == 20 ==> r
                == FinalModel::Numeric(sum)
            &&& n > 0 && spec.agg_type == AggType::Sum && spec.col_type_oid != 20 && i64::MIN <= sum
                <= i64::MAX ==> (r matches FinalModel::Word(w) && datum::signed(w) == sum)
        }),
{
    lemma_counts(values);
    law_sum(spec, 0, 0, values);
    let n = words(values).len() as int;
    let sum = total(values, spec.col_type_oid) + accumulator::offset_of(spec) * n;
    assert(n * accumulator::offset_of(spec) == accumulator::offset_of(spec) * n)
        by (nonlinear_arith);
    if i64::MIN <= sum <= i64::MAX {
        lemma_low_word(sum);
    }
}

/// The low 64 bits of a number that fits in them hold it.
proof fn lemma_low_word(v: int)
    requires
        i64::MIN <= v <= i64::MAX,
    ensures
        datum::signed(finalize::low_word(v)) == v,
{
    if v >= 0 {
        assert(v % 0x1_0000_0000_0000_0000 == v);
    } else {
        assert(v % 0x1_0000_0000_0000_0000 == v + 0x1_0000_0000_0000_0000);
    }
}

/// `SUM(length(col))` returns the sum of the lengths, null where there are none, and
/// `AVG(length(col))` returns that sum over the number of the texts.
pub proof fn law_length_sums_returned(spec: AggExecSpec, values: Seq<RowModel>)
    requires
        spec.agg_type == AggType::Sum || spec.agg_type == AggType::Avg,
        spec.col_type_oid == 25 || spec.col_type_oid == 1043 || spec.col_type_oid == 1042,
        forall|i: int| 0 <= i < values.len() ==> !(#[trigger] values[i] is Word),
    ensures
        ({
            let n = lengths(values).len();
            let r = result_of(spec, values);
            &&& n == 0 <==> r is Null
            &&& n > 0 && spec.agg_type == AggType::Avg ==> r == (FinalModel::NumericQuotient {
                sum: total_length(values),
                count: n as int,
            })
            &&& n > 0 && spec.agg_type == AggType::Sum && total_length(values) <= i64::MAX ==> (
            r matches FinalModel::Word(w) && datum::signed(w) == total_length(values))
        }),
{
    lemma_counts(values);
    law_sum_of_lengths(spec, 0, 0, values);
    lemma_total_length(values);
    if total_length(values) <= i64::MAX {
        lemma_low_word(total_length(values));
    }
}

/// Lengths do not add up to a negative number.
proof fn lemma_total_length(values: Seq<RowModel>)
    ensures
        total_length(values) >= 0,
    decreases values.len(),
{
    if values.len() > 0 {
        lemma_total_length(values.drop_last());
    }
}

/// The state of a floating-point sum counts its values, and leaves the sum itself to the executor.
proof fn lemma_float_sum(spec: AggExecSpec, bits: u64, count: int, values: Seq<RowModel>)
    requires
        spec.agg_type == AggType::Sum || spec.agg_type == AggType::Avg,
    ensures
        folded(AccModel::SumFloat { bits, count }, spec, values) == (AccModel::SumFloat {
            bits,
            count: count + values.filter(|v: RowModel| v is Word || v is Length).len(),
        }),
    decreases values.len(),
{
    reveal(Seq::filter);
    if values.len() > 0 {
        lemma_float_sum(spec, bits, count, values.drop_last());
    }
}

/// `AVG` of a floating-point column returns null where there is no value and otherwise the quotient
/// of the sum, as the executor has made it, and the number of values; `SUM` returns the sum, narrowed
/// for a single-precision column.
pub proof fn law_float_sums_returned(spec: AggExecSpec, values: Seq<RowModel>, sum: u64)
    requires
        spec.agg_type == AggType::Sum || spec.agg_type == AggType::Avg,
        spec.col_type_oid == 700 || spec.col_type_oid == 701,
    ensures
        ({
            let n = values.filter(|v: RowModel| v is Word || v is Length).len();
            let state = folded(
                accumulator::initial(spec.agg_type, accumulator::value_type(spec)),
                spec,
                values,
            );
            let r = finalize::finalized(
                AccModel::SumFloat { bits: sum, count: state->SumFloat_count },
                spec,
            );
            &&& state is SumFloat
            &&& n == 0 <==> r is Null
            &&& n > 0 && spec.agg_type == AggType::Avg ==> r == (FinalModel::FloatQuotient {
                bits: sum,
                count: n as int,
            })
            &&& n > 0 && spec.agg_type == AggType::Sum && spec.col_type_oid == 701 ==> r
                == FinalModel::Word(sum)
            &&& n > 0 && spec.agg_type == AggType::Sum && spec.col_type_oid == 700 ==> r
                == FinalModel::Narrowed(sum)
        }),
{
    lemma_float_sum(spec, 0, 0, values);
}

/// `MIN` and `MAX` of a column that is neither text nor floating point return null where there is
/// no value, and otherwise the least or the greatest value.
pub proof fn law_extrema_returned(spec: AggExecSpec, values: Seq<RowModel>)
    requires
        spec.agg_type == AggType::Min || spec.agg_type == AggType::Max,
        !datum::is_float_oid(accumulator::value_type(spec)),
        !datum::is_text_oid(accumulator::value_type(spec)),
    ensures
        words(values).len() == 0 <==> result_of(spec, values) is Null,
        words(values).len() > 0 ==> {
            &&& result_of(spec, values) is Word
            &&& occurs(values, datum::signed(result_of(spec, values)->Word_0))
            &&& forall|v: int| #[trigger]
                occurs(values, v) ==> if spec.agg_type == AggType::Min {
                    datum::signed(result_of(spec, values)->Word_0) <= v
                } else {
                    datum::signed(result_of(spec, values)->Word_0) >= v
                }
        },
{
    lemma_counts(values);
    if spec.agg_type == AggType::Min {
        law_min(spec, values);
        let acc = folded(AccModel::MinInt { val: None }, spec, values);
        if let AccModel::MinInt { val: Some(v) } = acc {
            lemma_present(values, v as int);
        }
    } else {
        law_max(spec, values);
        let acc = folded(AccModel::MaxInt { val: None }, spec, values);
        if let AccModel::MaxInt { val: Some(v) } = acc {
            lemma_present(values, v as int);
        }
    }
}

/// A value that occurs is one that is present.
proof fn lemma_present(values: Seq<RowModel>, v: int)
    requires
        exists|i: int|
            0 <= i < values.len() && #[trigger] values[i] is Word && datum::signed(
                values[i]->Word_0,
            ) == v,
    ensures
        present(values) > 0,
        occurs(values, v),
{
    if present(values) == 0 {
        lemma_none_present(values);
    }
    lemma_present_bound(values);
}

/// `MIN` and `MAX` of text return the text that was kept, null without one; of floating point they
/// return the number that was kept, narrowed for a single-precision column.
pub proof fn law_other_extrema_returned(
    spec: AggExecSpec,
    text: Option<Seq<char>>,
    bits: Option<u64>,
)
    ensures
        ({
            let r = match text {
                Some(s) => FinalModel::Text(s),
                None => FinalModel::Null,
            };
            &&& finalize::finalized(AccModel::MinText { val: text }, spec) == r
            &&& finalize::finalized(AccModel::MaxText { val: text }, spec) == r
        }),
        ({
            let r = match bits {
                Some(b) => if spec.col_type_oid == 700 {
                    FinalModel::Narrowed(b)
                } else {
                    FinalModel::Word(b)
                },
                None => FinalModel::Null,
            };
            &&& finalize::finalized(AccModel::MinFloat { bits }, spec) == r
            &&& finalize::finalized(AccModel::MaxFloat { bits }, spec) == r
        }),
{
}

/// `COUNT(DISTINCT)` of a column that is not text returns the number of different values: as many
/// as `listed`, which holds each of them once.
pub proof fn law_distinct_returned(spec: AggExecSpec, values: Seq<RowModel>) -> (listed: Seq<int>)
    requires
        spec.agg_type == AggType::CountDistinct,
        !datum::is_text_oid(accumulator::value_type(spec)),
        values.len() <= u64::MAX,
    ensures
        listed.no_duplicates(),
        forall|v: int| listed.contains(v) <==> #[trigger] occurs(values, v),
        result_of(spec, values) matches FinalModel::Word(w) && w == listed.len(),
{
    lemma_distinct_listed(spec, values)
}

/// Whether a list holds what a set has seen, each number once.
spec fn lists(seen: Set<i64>, listed: Seq<int>) -> bool {
    &&& seen.finite()
    &&& seen.len() == listed.len()
    &&& listed.no_duplicates()
    &&& forall|v: i64| seen.contains(v) <==> #[trigger] listed.contains(v as int)
}

/// Lists the different values.
proof fn lemma_distinct_listed(spec: AggExecSpec, values: Seq<RowModel>) -> (listed: Seq<int>)
    requires
        spec.agg_type == AggType::CountDistinct,
    ensures
        folded(AccModel::DistinctInt { seen: Set::empty() }, spec, values) matches
            AccModel::DistinctInt { seen } && lists(seen, listed),
        forall|v: int| listed.contains(v) <==> #[trigger] occurs(values, v),
        listed.len() <= values.len(),
    decreases values.len(),
{
    if values.len() == 0 {
        let listed = Seq::<int>::empty();
        assert(forall|v: int| !#[trigger] occurs(values, v));
        listed
    } else {
        let front = values.drop_last();
        let before = lemma_distinct_listed(spec, front);
        let last = values.last();
        assert forall|v: int| #[trigger] occurs(values, v) <==> occurs(front, v) || last is Word
            && datum::signed(last->Word_0) == v by {
            if occurs(front, v) {
                let i = choose|i: int|
                    0 <= i < front.len() && #[trigger] front[i] is Word && datum::signed(
                        front[i]->Word_0,
                    ) == v;
                assert(values[i] is Word);
            }
            if occurs(values, v) {
                let i = choose|i: int|
                    0 <= i < values.len() && #[trigger] values[i] is Word && datum::signed(
                        values[i]->Word_0,
                    ) == v;
                if i < front.len() {
                    assert(front[i] is Word);
                }
            }
            if last is Word && datum::signed(last->Word_0) == v {
                assert(values[values.len() - 1] is Word);
            }
        }
        if last is Word && !before.contains(datum::signed(last->Word_0)) {
            let new = datum::signed(last->Word_0);
            datum::law_word_roundtrip(0, last->Word_0);
            let listed = before.push(new);
            assert forall|v: int| #[trigger] listed.contains(v) <==> before.contains(v) || v
                == new by {
                if before.contains(v) {
                    let i = before.index_of(v);
                    assert(listed[i] == v);
                }
                if v == new {
                    assert(listed[listed.len() - 1] == v);
                }
                if listed.contains(v) && v != new {
                    let i = listed.index_of(v);
                    assert(before[i] == v);
                }
            }
            assert(listed.no_duplicates()) by {
                assert forall|i: int, j: int|
                    0 <= i < listed.len() && 0 <= j < listed.len() && i != j implies listed[i]
                    != listed[j] by {
                    if i < before.len() && j == before.len() {
                        assert(before.contains(before[i]));
                    }
                    if j < before.len() && i == before.len() {
                        assert(before.contains(before[j]));
                    }
                }
            }
            listed
        } else {
            if last is Word {
                datum::law_word_roundtrip(0, last->Word_0);
                let acc = folded(AccModel::DistinctInt { seen: Set::empty() }, spec, front);
                let seen = acc->DistinctInt_seen;
                let v = datum::signed(last->Word_0) as i64;
                assert(before.contains(v as int));
                assert(seen.insert(v) =~= seen);
            }
            before
        }
    }
}

/// `COUNT(DISTINCT)` of a text column returns the number of different texts: as many as `listed`,
/// which holds each of them once.
pub proof fn law_distinct_texts_returned(spec: AggExecSpec, values: Seq<RowModel>) -> (listed: Seq<
    Seq<char>,
>)
    requires
        spec.agg_type == AggType::CountDistinct,
        datum::is_text_oid(accumulator::value_type(spec)),
        values.len() <= u64::MAX,
    ensures
        listed.no_duplicates(),
        forall|t: Seq<char>| #[trigger]
            listed.contains(t) <==> values.contains(RowModel::Text(t)),
        result_of(spec, values) matches FinalModel::Word(w) && w == listed.len(),
{
    lemma_distinct_texts_listed(spec, values)
}

/// Lists the different texts.
proof fn lemma_distinct_texts_listed(spec: AggExecSpec, values: Seq<RowModel>) -> (listed: Seq<
    Seq<char>,
>)
    requires
        spec.agg_type == AggType::CountDistinct,
    ensures
        folded(AccModel::DistinctText { seen: Set::empty() }, spec, values) matches
            AccModel::DistinctText { seen } && seen.finite() && seen.len() == listed.len()
            && forall|t: Seq<char>| #[trigger] listed.contains(t) <==> seen.contains(t),
        listed.no_duplicates(),
        forall|t: Seq<char>| #[trigger]
            listed.contains(t) <==> values.contains(RowModel::Text(t)),
        listed.len() <= values.len(),
    decreases values.len(),
{
    if values.len() == 0 {
        Seq::empty()
    } else {
        let front = values.drop_last();
        let before = lemma_distinct_texts_listed(spec, front);
        let last = values.last();
        assert forall|t: Seq<char>| #[trigger] values.contains(RowModel::Text(t))
            <==> front.contains(RowModel::Text(t)) || last == RowModel::Text(t) by {
            let v = RowModel::Text(t);
            if front.contains(v) {
                let i = front.index_of(v);
                assert(values[i] == v);
            }
            if values.contains(v) {
                let i = values.index_of(v);
                if i < front.len() {
                    assert(front[i] == v);
                }
            }
            if last == v {
                assert(values[values.len() - 1] == v);
            }
        }
        let acc = folded(AccModel::DistinctText { seen: Set::empty() }, spec, front);
        let seen = acc->DistinctText_seen;
        if last is Text && !before.contains(last->Text_0) {
            let new = last->Text_0;
            let listed = before.push(new);
            assert forall|t: Seq<char>| #[trigger] listed.contains(t) <==> before.contains(t) || t
                == new by {
                if before.contains(t) {
                    let i = before.index_of(t);
                    assert(listed[i] == t);
                }
                if t == new {
                    assert(listed[listed.len() - 1] == t);
                }
                if listed.contains(t) && t != new {
                    let i = listed.index_of(t);
                    assert(before[i] == t);
                }
            }
            assert(listed.no_duplicates()) by {
                assert forall|i: int, j: int|
                    0 <= i < listed.len() && 0 <= j < listed.len() && i != j implies listed[i]
                    != listed[j] by {
                    if i < before.len() && j == before.len() {
                        assert(before.contains(before[i]));
                    }
                    if j < before.len() && i == before.len() {
                        assert(before.contains(before[j]));
                    }
                }
            }
            listed
        } else {
            if last is Text {
                assert(before.contains(last->Text_0));
                assert(seen.insert(last->Text_0) =~= seen);
            }
            before
        }
    }
}

/// A state that is emptied, whatever it took in, is as the aggregate began.
pub proof fn law_emptied_is_initial(spec: AggExecSpec, col_type: u32, values: Seq<RowModel>)
    ensures
        accumulator::emptied(
            folded(accumulator::initial(spec.agg_type, col_type), spec, values),
        ) == accumulator::initial(spec.agg_type, col_type),
    decreases values.len(),
{
    if values.len() > 0 {
        law_emptied_is_initial(spec, col_type, values.drop_last());
    }
}

// ---------------------------------------------------------------------------
// Rows and states
// ---------------------------------------------------------------------------

/// Without a selection every row is selected; with one, a row is selected if it says so.
pub proof fn law_selected_rows(selection: Seq<bool>, row: int)
    ensures
        aggregate::selected(Seq::empty(), row),
        selection.len() > 0 ==> aggregate::selected(selection, row) == selection[row],
{
}

/// Before any row a query with groups has none, and one without has a single group with an empty
/// key, in which every aggregate is as it begins.
pub proof fn law_start(specs: Seq<AggExecSpec>, j: int)
    requires
        0 <= j < specs.len(),
    ensures
        aggregate::start(specs, true).keys.len() == 0,
        aggregate::start(specs, true).accs.len() == 0,
        aggregate::start(specs, false).keys.len() == 1,
        aggregate::start(specs, false).keys[0].len() == 0,
        aggregate::start(specs, false).accs.len() == specs.len(),
        aggregate::start(specs, false).accs[j] == accumulator::initial(
            specs[j].agg_type,
            accumulator::value_type(specs[j]),
        ),
        aggregate::start(specs, true).rows == 0 && aggregate::start(specs, false).rows == 0,
        aggregate::start(specs, true).ops.len() == 0 && aggregate::start(specs, false).ops.len()
            == 0,
{
}

/// The rows that are taken in are counted: all of a segment without a selection, otherwise those
/// that are selected.
pub proof fn law_rows_counted(st: AggState, src: Source, n: nat)
    requires
        src.selection.len() == 0 || n <= src.selection.len(),
    ensures
        src.selection.len() == 0 ==> aggregate::after_rows(st, src, n).rows == st.rows + n,
        src.selection.len() > 0 ==> aggregate::after_rows(st, src, n).rows == st.rows
            + src.selection.take(n as int).filter(|b: bool| b).len(),
        aggregate::after_rows(st, src, n).rows == st.rows + aggregate::selected_count(
            src.selection,
            n,
        ),
    decreases n,
{
    reveal(Seq::filter);
    if n > 0 {
        law_rows_counted(st, src, (n - 1) as nat);
        if src.selection.len() > 0 {
            assert(src.selection.take(n as int).drop_last() =~= src.selection.take(n - 1));
        }
    }
}

/// The offered numbers, one after the other; `beats` says whether one beats another.
pub open spec fn floats_offered(
    acc: AccModel,
    numbers: Seq<u64>,
    beats: spec_fn(u64, u64) -> bool,
) -> AccModel
    decreases numbers.len(),
{
    if numbers.len() == 0 {
        acc
    } else {
        let before = floats_offered(acc, numbers.drop_last(), beats);
        let current = match before {
            AccModel::MinFloat { bits } => bits,
            AccModel::MaxFloat { bits } => bits,
            _ => None,
        };
        aggregate::offered_float(
            before,
            numbers.last(),
            current is Some && beats(numbers.last(), current->0),
        )
    }
}

/// Of the numbers offered to a floating-point extremum, one is kept that no other beats.
pub proof fn law_float_extremum(
    acc: AccModel,
    numbers: Seq<u64>,
    beats: spec_fn(u64, u64) -> bool,
)
    requires
        acc == (AccModel::MinFloat { bits: None }) || acc == (AccModel::MaxFloat { bits: None }),
        forall|a: u64| !(#[trigger] beats(a, a)),
        forall|a: u64, b: u64, c: u64| #[trigger] beats(a, b) && #[trigger] beats(b, c) ==> beats(a, c),
    ensures
        ({
            let after = floats_offered(acc, numbers, beats);
            let kept = match after {
                AccModel::MinFloat { bits } => bits,
                AccModel::MaxFloat { bits } => bits,
                _ => None,
            };
            &&& after is MinFloat <==> acc is MinFloat
            &&& after is MaxFloat <==> acc is MaxFloat
            &&& kept is None <==> numbers.len() == 0
            &&& kept matches Some(k) ==> numbers.contains(k) && forall|i: int|
                0 <= i < numbers.len() ==> !beats(#[trigger] numbers[i], k)
        }),
    decreases numbers.len(),
{
    if numbers.len() > 0 {
        let front = numbers.drop_last();
        let last = numbers.last();
        law_float_extremum(acc, front, beats);
        let before = floats_offered(acc, front, beats);
        let kept = match before {
            AccModel::MinFloat { bits } => bits,
            AccModel::MaxFloat { bits } => bits,
            _ => None,
        };
        assert(numbers[numbers.len() - 1] == last);
        if let Some(k) = kept {
            let i = front.index_of(k);
            assert(numbers[i] == k);
            assert forall|i: int| 0 <= i < numbers.len() implies !beats(
                #[trigger] numbers[i],
                if beats(last, k) {
                    last
                } else {
                    k
                },
            ) by {
                if i < front.len() {
                    assert(numbers[i] == front[i]);
                }
            }
        }
    }
}

/// The offered texts, one after the other; `collate` says how one compares with another.
pub open spec fn texts_offered(
    acc: AccModel,
    texts: Seq<Seq<char>>,
    collate: spec_fn(Seq<char>, Seq<char>) -> i32,
) -> AccModel
    decreases texts.len(),
{
    if texts.len() == 0 {
        acc
    } else {
        let before = texts_offered(acc, texts.drop_last(), collate);
        let current = match before {
            AccModel::MinText { val } => val,
            AccModel::MaxText { val } => val,
            _ => None,
        };
        aggregate::offered_text(
            before,
            texts.last(),
            if current is Some {
                collate(texts.last(), current->0)
            } else {
                0
            },
        )
    }
}

/// Of the texts offered to `MIN`, one is kept that no other comes before; of those offered to `MAX`,
/// one that no other comes after.
pub proof fn law_text_extremum(
    acc: AccModel,
    texts: Seq<Seq<char>>,
    collate: spec_fn(Seq<char>, Seq<char>) -> i32,
)
    requires
        acc == (AccModel::MinText { val: None }) || acc == (AccModel::MaxText { val: None }),
        forall|a: Seq<char>| #[trigger] collate(a, a) == 0,
        forall|a: Seq<char>, b: Seq<char>, c: Seq<char>|
            #[trigger] collate(a, b) < 0 && #[trigger] collate(b, c) < 0 ==> collate(a, c) < 0,
        forall|a: Seq<char>, b: Seq<char>, c: Seq<char>|
            #[trigger] collate(a, b) > 0 && #[trigger] collate(b, c) > 0 ==> collate(a, c) > 0,
    ensures
        ({
            let after = texts_offered(acc, texts, collate);
            let kept = match after {
                AccModel::MinText { val } => val,
                AccModel::MaxText { val } => val,
                _ => None,
            };
            &&& after is MinText <==> acc is MinText
            &&& after is MaxText <==> acc is MaxText
            &&& kept is None <==> texts.len() == 0
            &&& kept matches Some(k) ==> texts.contains(k) && forall|i: int|
                0 <= i < texts.len() ==> if acc is MinText {
                    collate(#[trigger] texts[i], k) >= 0
                } else {
                    collate(texts[i], k) <= 0
                }
        }),
    decreases texts.len(),
{
    if texts.len() > 0 {
        let front = texts.drop_last();
        let last = texts.last();
        law_text_extremum(acc, front, collate);
        let before = texts_offered(acc, front, collate);
        let kept = match before {
            AccModel::MinText { val } => val,
            AccModel::MaxText { val } => val,
            _ => None,
        };
        assert(texts[texts.len() - 1] == last);
        assert(collate(last, last) == 0);
        if let Some(k) = kept {
            let i = front.index_of(k);
            assert(texts[i] == k);
            let new = if acc is MinText {
                collate(last, k) < 0
            } else {
                collate(last, k) > 0
            };
            let result = if new {
                last
            } else {
                k
            };
            assert forall|i: int| 0 <= i < texts.len() implies if acc is MinText {
                collate(#[trigger] texts[i], result) >= 0
            } else {
                collate(texts[i], result) <= 0
            } by {
                if i < front.len() {
                    assert(texts[i] == front[i]);
                }
            }
        } else {
            assert(front.len() == 0);
        }
    }
}

/// Where all sums of a floating-point column are derived from one, the executor gets one operation
/// for the segment: the numbers of the selected rows that are not null, in their order, and every
/// aggregate with its constant.
pub proof fn law_shared_float_operation(st: AggState, src: Source)
    requires
        st.accs.len() == src.specs.len(),
        st.accs.len() <= usize::MAX,
        src.specs[0].col_type_oid == 700 || src.specs[0].col_type_oid == 701,
        all_sums(st.accs, true),
        aggregate::shares_sum(src),
        aggregate::source_ok(src),
    ensures
        ({
            let ops = aggregate::after_shared_sum(st, src).ops;
            let values = words(group_values(src, Seq::empty(), 0, src.seg.row_count as nat));
            &&& ops.len() == st.ops.len() + 1
            &&& forall|i: int| 0 <= i < st.ops.len() ==> #[trigger] ops[i] == st.ops[i]
            &&& ops.last() matches accumulator::DeferredModel::AddTotals {
                terms,
                type_oid,
                count,
                targets,
            } && {
                &&& type_oid == src.specs[0].col_type_oid
                &&& count == values.len()
                &&& terms.len() == values.len()
                &&& forall|k: int|
                    0 <= k < values.len() ==> RowModel::Word((#[trigger] terms[k]).word)
                        == values[k]
                &&& targets.len() == src.specs.len()
                &&& forall|i: int|
                    0 <= i < targets.len() ==> (#[trigger] targets[i]).0 == i && targets[i].1
                        == src.specs[i].const_offset
            }
        }),
{
    lemma_shared_terms(src, src.seg.row_count as nat);
    lemma_float_targets(st.accs, src.specs, src.specs.len());
}

/// The terms of a shared sum are the numbers that the rows offer.
proof fn lemma_shared_terms(src: Source, n: nat)
    requires
        aggregate::shares_sum(src),
        aggregate::source_ok(src),
        n <= src.seg.row_count,
    ensures
        ({
            let values = words(group_values(src, Seq::empty(), 0, n));
            let terms = aggregate::base_terms(src, n);
            &&& terms.len() == values.len()
            &&& forall|k: int|
                0 <= k < values.len() ==> RowModel::Word((#[trigger] terms[k]).word) == values[k]
        }),
    decreases n,
{
    reveal(Seq::filter);
    if n > 0 {
        let m = (n - 1) as nat;
        lemma_shared_terms(src, m);
        let row = n - 1;
        let before = group_values(src, Seq::empty(), 0, m);
        let all = group_values(src, Seq::empty(), 0, n);
        if aggregate::selected(src.selection, row) {
            assert(aggregate::source_key(src, row) =~= Seq::<KeyPart>::empty());
            let v = aggregate::values_at(src, row)[0];
            assert(all.drop_last() =~= before);
            assert(aggregate::is_column_sum(src.specs[0]));
            assert(v == crate::scan::agg::segment::cell_value(
                src.seg,
                src.specs[0].col_idx as int,
                row,
            ));
        }
    }
}

/// All aggregates with their constants are targets, if all are floating-point sums.
proof fn lemma_float_targets(accs: Seq<AccModel>, specs: Seq<AggExecSpec>, n: nat)
    requires
        all_sums(accs, true),
        n <= accs.len() <= usize::MAX,
        n <= specs.len(),
    ensures
        ({
            let targets = aggregate::float_targets(accs, specs, n);
            &&& targets.len() == n
            &&& forall|i: int|
                0 <= i < n ==> (#[trigger] targets[i]).0 == i && targets[i].1
                    == specs[i].const_offset
        }),
    decreases n,
{
    if n > 0 {
        lemma_float_targets(accs, specs, (n - 1) as nat);
        assert(accs[n - 1] is SumFloat);
    }
}

/// The place of the state that an operation is for, if it is for a single one.
pub open spec fn slot_of(op: DeferredModel) -> Option<int> {
    match op {
        DeferredModel::AddDatum { slot, .. } => Some(slot),
        DeferredModel::AddLength { slot, .. } => Some(slot),
        DeferredModel::AddStoredSum { slot, .. } => Some(slot),
        DeferredModel::OfferDatum { slot, .. } => Some(slot),
        DeferredModel::OfferText { slot, .. } => Some(slot),
        DeferredModel::AddTotals { .. } => None,
    }
}

/// The operations for one state, in their order.
pub open spec fn ops_for(ops: Seq<DeferredModel>, slot: int) -> Seq<DeferredModel> {
    ops.filter(|op: DeferredModel| slot_of(op) == Some(slot))
}

/// Whether all operations are for states that there are.
pub open spec fn ops_within(st: AggState) -> bool {
    forall|i: int|
        0 <= i < st.ops.len() ==> (slot_of(#[trigger] st.ops[i]) matches Some(s) ==> 0 <= s
            < st.accs.len())
}

/// What values, taken in one after the other, leave to the executor.
pub open spec fn handed_over(
    acc: AccModel,
    slot: int,
    spec: AggExecSpec,
    values: Seq<RowModel>,
) -> Seq<DeferredModel>
    decreases values.len(),
{
    if values.len() == 0 {
        Seq::empty()
    } else {
        handed_over(acc, slot, spec, values.drop_last()) + accumulator::step_deferred(
            folded(acc, spec, values.drop_last()),
            slot,
            spec,
            values.last(),
        )
    }
}

/// The operations for a state beyond those that there are: none.
proof fn lemma_no_ops_beyond(st: AggState, slot: int)
    requires
        ops_within(st),
        slot >= st.accs.len(),
    ensures
        ops_for(st.ops, slot) == Seq::<DeferredModel>::empty(),
{
    let pred = |op: DeferredModel| slot_of(op) == Some(slot);
    st.ops.lemma_all_neg_filter_empty(pred);
    assert(ops_for(st.ops, slot) =~= Seq::<DeferredModel>::empty());
}

/// What a value leaves to the executor is for the state that took it in.
proof fn lemma_step_ops_for(
    acc: AccModel,
    slot: int,
    spec: AggExecSpec,
    value: RowModel,
    wanted: int,
)
    ensures
        ({
            let ops = accumulator::step_deferred(acc, slot, spec, value);
            &&& ops_for(ops, wanted) == if wanted == slot {
                ops
            } else {
                Seq::empty()
            }
            &&& forall|i: int| 0 <= i < ops.len() ==> slot_of(#[trigger] ops[i]) == Some(slot)
        }),
{
    let ops = accumulator::step_deferred(acc, slot, spec, value);
    let pred = |op: DeferredModel| slot_of(op) == Some(wanted);
    assert(ops.len() <= 1);
    assert forall|i: int| 0 <= i < ops.len() implies slot_of(#[trigger] ops[i]) == Some(slot) by {
        assert(i == 0);
    }
    if ops.len() == 0 {
        assert(ops_for(ops, wanted).len() == 0) by {
            reveal(Seq::filter);
        }
        assert(ops_for(ops, wanted) =~= Seq::<DeferredModel>::empty());
        assert(ops =~= Seq::<DeferredModel>::empty());
    } else if wanted != slot {
        assert forall|i: int| 0 <= i < ops.len() implies !pred(#[trigger] ops[i]) by {}
        ops.lemma_all_neg_filter_empty(pred);
        assert(ops_for(ops, wanted) =~= Seq::<DeferredModel>::empty());
    } else {
        let none = Seq::<DeferredModel>::empty();
        assert(ops =~= none.push(ops[0]));
        assert(pred(ops[0]));
        assert(none.filter(pred).len() == 0) by {
            reveal(Seq::filter);
        }
        none.lemma_filter_push(ops[0], pred);
        assert(ops.filter(pred) =~= ops);
    }
}

/// What the aggregates of a group leave to the executor is for their own states.
proof fn lemma_stepped_ops_for(
    accs: Seq<AccModel>,
    base: int,
    specs: Seq<AggExecSpec>,
    values: Seq<RowModel>,
    n: nat,
    slot: int,
)
    ensures
        ({
            let ops = aggregate::stepped_ops(accs, base, specs, values, n);
            &&& ops_for(ops, slot) == if base <= slot < base + n {
                accumulator::step_deferred(
                    accs[slot],
                    slot,
                    specs[slot - base],
                    values[slot - base],
                )
            } else {
                Seq::empty()
            }
            &&& forall|i: int|
                0 <= i < ops.len() ==> (slot_of(#[trigger] ops[i]) matches Some(s) && base <= s
                    < base + n)
        }),
    decreases n,
{
    let pred = |op: DeferredModel| slot_of(op) == Some(slot);
    let ops = aggregate::stepped_ops(accs, base, specs, values, n);
    if n == 0 {
        assert(ops.filter(pred).len() == 0) by {
            reveal(Seq::filter);
        }
        assert(ops_for(ops, slot) =~= Seq::<DeferredModel>::empty());
    } else {
        let j = n - 1;
        lemma_stepped_ops_for(accs, base, specs, values, j as nat, slot);
        let before = aggregate::stepped_ops(accs, base, specs, values, j as nat);
        let new = accumulator::step_deferred(accs[base + j], base + j, specs[j], values[j]);
        lemma_step_ops_for(accs[base + j], base + j, specs[j], values[j], slot);
        Seq::filter_distributes_over_add(before, new, pred);
        assert(ops == before + new);
        assert(ops_for(ops, slot) =~= ops_for(before, slot) + ops_for(new, slot));
        assert forall|i: int| 0 <= i < ops.len() implies (slot_of(#[trigger] ops[i]) matches Some(s)
            && base <= s < base + n) by {
            if i < before.len() {
                assert(ops[i] == before[i]);
            } else {
                assert(ops[i] == new[i - before.len()]);
            }
        }
    }
}

/// The executor gets, for every state, the operations of the values of its own group in the order of
/// the rows, and no others.
pub proof fn law_operations_of_groups(
    st: AggState,
    src: Source,
    n: nat,
    key: Seq<KeyPart>,
    j: int,
)
    requires
        state_ok(st, src.specs),
        ops_within(st),
        0 <= j < src.specs.len(),
    ensures
        ops_within(aggregate::after_rows(st, src, n)),
        st.accs.len() <= aggregate::after_rows(st, src, n).accs.len(),
        aggregate::after_rows(st, src, n).keys.contains(key) ==> {
            let after = aggregate::after_rows(st, src, n);
            let slot = after.keys.index_of(key) * src.specs.len() + j;
            ops_for(after.ops, slot) == ops_for(st.ops, slot) + handed_over(
                group_acc(st, src.specs, key, j),
                slot,
                src.specs[j],
                group_values(src, key, j, n),
            )
        },
    decreases n,
{
    let specs = src.specs;
    let size = specs.len() as int;
    let after = aggregate::after_rows(st, src, n);
    let slot = after.keys.index_of(key) * size + j;
    if n == 0 {
        assert(ops_for(st.ops, slot) =~= ops_for(st.ops, slot) + Seq::<DeferredModel>::empty());
    } else {
        let m = (n - 1) as nat;
        law_operations_of_groups(st, src, m, key, j);
        law_groups_hold_their_rows(st, src, m, key, j);
        let before = aggregate::after_rows(st, src, m);
        let row = n - 1;
        if aggregate::selected(src.selection, row) {
            let row_key = aggregate::source_key(src, row);
            let values = aggregate::values_at(src, row);
            lemma_after_row(before, specs, row_key, values, key, j);
            let wide = aggregate::with_group(before, specs, row_key);
            let g = aggregate::group_of(before.keys, row_key);
            let base = g * size;
            let new = aggregate::stepped_ops(wide.accs, base, specs, values, specs.len());
            let pred = |op: DeferredModel| slot_of(op) == Some(slot);
            lemma_stepped_ops_for(wide.accs, base, specs, values, specs.len(), slot);
            Seq::filter_distributes_over_add(before.ops, new, pred);
            assert((before.keys.len() + 1) * size == before.keys.len() * size + size)
                by (nonlinear_arith);
            lemma_slots(g, g, size, 0, after.keys.len() as int);
            assert(base + size <= after.accs.len()) by {
                lemma_slots(g, g, size, size - 1, after.keys.len() as int);
            }
            assert(ops_within(after)) by {
                assert forall|i: int| 0 <= i < after.ops.len() implies (slot_of(
                    #[trigger] after.ops[i],
                ) matches Some(s) ==> 0 <= s < after.accs.len()) by {
                    if i < before.ops.len() {
                        assert(after.ops[i] == before.ops[i]);
                    } else {
                        assert(after.ops[i] == new[i - before.ops.len()]);
                    }
                }
            }
            if after.keys.contains(key) {
                lemma_operations_of_row(st, src, m, key, j);
            }
        }
    }
}

/// One row adds the operations of its values.
proof fn lemma_operations_of_row(
    st: AggState,
    src: Source,
    m: nat,
    key: Seq<KeyPart>,
    j: int,
)
    requires
        state_ok(st, src.specs),
        ops_within(st),
        0 <= j < src.specs.len(),
        aggregate::selected(src.selection, m as int),
        aggregate::after_rows(st, src, m + 1).keys.contains(key),
        ops_within(aggregate::after_rows(st, src, m)),
        st.accs.len() <= aggregate::after_rows(st, src, m).accs.len(),
        aggregate::after_rows(st, src, m).keys.contains(key) ==> {
            let before = aggregate::after_rows(st, src, m);
            let slot = before.keys.index_of(key) * src.specs.len() + j;
            ops_for(before.ops, slot) == ops_for(st.ops, slot) + handed_over(
                group_acc(st, src.specs, key, j),
                slot,
                src.specs[j],
                group_values(src, key, j, m),
            )
        },
    ensures
        ({
            let after = aggregate::after_rows(st, src, m + 1);
            let slot = after.keys.index_of(key) * src.specs.len() + j;
            ops_for(after.ops, slot) == ops_for(st.ops, slot) + handed_over(
                group_acc(st, src.specs, key, j),
                slot,
                src.specs[j],
                group_values(src, key, j, m + 1),
            )
        }),
{
    let specs = src.specs;
    let size = specs.len() as int;
    let before = aggregate::after_rows(st, src, m);
    let after = aggregate::after_rows(st, src, m + 1);
    let slot = after.keys.index_of(key) * size + j;
    let row = m as int;
    let row_key = aggregate::source_key(src, row);
    let values = aggregate::values_at(src, row);
    law_groups_hold_their_rows(st, src, m, key, j);
    lemma_after_row(before, specs, row_key, values, key, j);
    let wide = aggregate::with_group(before, specs, row_key);
    let g = aggregate::group_of(before.keys, row_key);
    let base = g * size;
    let new = aggregate::stepped_ops(wide.accs, base, specs, values, specs.len());
    let pred = |op: DeferredModel| slot_of(op) == Some(slot);
    lemma_stepped_ops_for(wide.accs, base, specs, values, specs.len(), slot);
    Seq::filter_distributes_over_add(before.ops, new, pred);
    assert(after.ops == before.ops + new);
    assert((before.keys.len() + 1) * size == before.keys.len() * size + size) by (nonlinear_arith);
    let start = group_acc(st, specs, key, j);
    let earlier = group_values(src, key, j, m);
    let all = group_values(src, key, j, m + 1);
    if before.keys.contains(key) {
        let k = before.keys.index_of(key);
        assert(after.keys[k] == key);
        assert(after.keys.index_of(key) == k);
        lemma_slots(k, g, size, j, before.keys.len() as int);
        assert(wide.accs[slot] == before.accs[slot]);
        if row_key == key {
            assert(all.drop_last() =~= earlier);
            assert(wide.accs[slot] == folded(start, specs[j], earlier));
        }
        assert(ops_for(after.ops, slot) =~= ops_for(st.ops, slot) + handed_over(
            start,
            slot,
            specs[j],
            all,
        ));
    } else {
        assert(row_key == key);
        assert(after.keys[g] == key);
        assert(after.keys.index_of(key) == g);
        lemma_slots(g, g, size, j, after.keys.len() as int);
        assert(slot >= before.accs.len());
        lemma_no_ops_beyond(before, slot);
        lemma_no_ops_beyond(st, slot);
        assert(earlier.len() == 0);
        assert(earlier =~= Seq::<RowModel>::empty());
        assert(all.drop_last() =~= earlier);
        assert(wide.accs[slot] == aggregate::fresh_accs(specs)[j]);
        assert(handed_over(start, slot, specs[j], earlier) =~= Seq::<DeferredModel>::empty());
        assert(ops_for(after.ops, slot) =~= ops_for(st.ops, slot) + handed_over(
            start,
            slot,
            specs[j],
            all,
        ));
    }
}

/// What the metadata of the first `n` segments leaves to the executor for one aggregate.
pub open spec fn stored_over(
    specs: Seq<AggExecSpec>,
    names: Seq<Seq<char>>,
    segments: Seq<SegmentMeta>,
    j: int,
    n: nat,
) -> Seq<DeferredModel>
    decreases n,
{
    if n == 0 {
        Seq::empty()
    } else {
        stored_over(specs, names, segments, j, (n - 1) as nat) + metadata::meta_deferred(
            metadata::meta_states(specs, names, segments, (n - 1) as nat)[j],
            j,
            specs[j],
            segments[n - 1],
            names,
        )
    }
}

/// What one segment's metadata leaves to the executor for an aggregate is for its state.
proof fn lemma_meta_ops_for(
    acc: AccModel,
    slot: int,
    spec: AggExecSpec,
    seg: SegmentMeta,
    names: Seq<Seq<char>>,
    wanted: int,
)
    ensures
        ({
            let ops = metadata::meta_deferred(acc, slot, spec, seg, names);
            ops_for(ops, wanted) == if wanted == slot {
                ops
            } else {
                Seq::empty()
            }
        }),
{
    let ops = metadata::meta_deferred(acc, slot, spec, seg, names);
    let pred = |op: DeferredModel| slot_of(op) == Some(wanted);
    assert(ops.len() <= 1);
    if ops.len() == 0 {
        assert(ops_for(ops, wanted).len() == 0) by {
            reveal(Seq::filter);
        }
        assert(ops_for(ops, wanted) =~= Seq::<DeferredModel>::empty());
        assert(ops =~= Seq::<DeferredModel>::empty());
    } else if wanted != slot {
        assert(slot_of(ops[0]) == Some(slot));
        assert forall|i: int| 0 <= i < ops.len() implies !pred(#[trigger] ops[i]) by {
            assert(i == 0);
        }
        ops.lemma_all_neg_filter_empty(pred);
        assert(ops_for(ops, wanted) =~= Seq::<DeferredModel>::empty());
    } else {
        let none = Seq::<DeferredModel>::empty();
        assert(ops =~= none.push(ops[0]));
        assert(pred(ops[0]));
        assert(none.filter(pred).len() == 0) by {
            reveal(Seq::filter);
        }
        none.lemma_filter_push(ops[0], pred);
        assert(ops.filter(pred) =~= ops);
    }
}

/// What one segment's metadata leaves to the executor for the first aggregates.
proof fn lemma_meta_segment_ops_for(
    before: Seq<AccModel>,
    specs: Seq<AggExecSpec>,
    names: Seq<Seq<char>>,
    seg: SegmentMeta,
    n: nat,
    j: int,
)
    requires
        0 <= j,
    ensures
        ops_for(metadata::meta_segment_ops(before, specs, names, seg, n), j) == if j < n {
            metadata::meta_deferred(before[j], j, specs[j], seg, names)
        } else {
            Seq::empty()
        },
    decreases n,
{
    let pred = |op: DeferredModel| slot_of(op) == Some(j);
    let ops = metadata::meta_segment_ops(before, specs, names, seg, n);
    if n == 0 {
        assert(ops.filter(pred).len() == 0) by {
            reveal(Seq::filter);
        }
        assert(ops_for(ops, j) =~= Seq::<DeferredModel>::empty());
    } else {
        let k = n - 1;
        lemma_meta_segment_ops_for(before, specs, names, seg, k as nat, j);
        let earlier = metadata::meta_segment_ops(before, specs, names, seg, k as nat);
        let new = metadata::meta_deferred(before[k], k, specs[k], seg, names);
        lemma_meta_ops_for(before[k], k, specs[k], seg, names, j);
        Seq::filter_distributes_over_add(earlier, new, pred);
        assert(ops == earlier + new);
        assert(ops_for(ops, j) =~= ops_for(earlier, j) + ops_for(new, j));
    }
}

/// The executor gets, for every aggregate, what is stored for it with each segment, in the order of
/// the segments, and no other operations.
pub proof fn law_operations_of_metadata(
    specs: Seq<AggExecSpec>,
    names: Seq<Seq<char>>,
    segments: Seq<SegmentMeta>,
    j: int,
    n: nat,
)
    requires
        0 <= j < specs.len(),
    ensures
        ops_for(metadata::meta_ops(specs, names, segments, n), j) == stored_over(
            specs,
            names,
            segments,
            j,
            n,
        ),
    decreases n,
{
    let pred = |op: DeferredModel| slot_of(op) == Some(j);
    let ops = metadata::meta_ops(specs, names, segments, n);
    if n == 0 {
        assert(ops.filter(pred).len() == 0) by {
            reveal(Seq::filter);
        }
        assert(ops_for(ops, j) =~= Seq::<DeferredModel>::empty());
    } else {
        let m = (n - 1) as nat;
        law_operations_of_metadata(specs, names, segments, j, m);
        let earlier = metadata::meta_ops(specs, names, segments, m);
        let before = metadata::meta_states(specs, names, segments, m);
        let new = metadata::meta_segment_ops(before, specs, names, segments[n - 1], specs.len());
        lemma_meta_segment_ops_for(before, specs, names, segments[n - 1], specs.len(), j);
        Seq::filter_distributes_over_add(earlier, new, pred);
        assert(ops == earlier + new);
        assert(ops_for(ops, j) =~= ops_for(earlier, j) + ops_for(new, j));
    }
}

/// Groups fit as long as their number and the bytes of their texts are below two to the power of 32.
pub proof fn law_groups_that_fit(keys: Seq<Seq<KeyPart>>)
    ensures
        aggregate::groups_fit(keys) <==> keys.len() < 0x1_0000_0000
            && crate::scan::agg::group::keys_bytes(keys) < 0x1_0000_0000,
{
}

/// The result of an aggregate of a group is that of the aggregate over the values of the group's
/// selected rows in all segments. A floating-point average is the sum, as the executor has made it,
/// over the number of those values that are not null.
pub proof fn law_results_of_groups(
    specs: Seq<AggExecSpec>,
    grouped: bool,
    srcs: Seq<Source>,
    n: nat,
    key: Seq<KeyPart>,
    j: int,
    sum: u64,
)
    requires
        same_query(srcs, specs, grouped),
        n <= srcs.len(),
        0 <= j < specs.len(),
        after_segments(aggregate::start(specs, grouped), srcs, n).keys.contains(key),
    ensures
        ({
            let st = after_segments(aggregate::start(specs, grouped), srcs, n);
            let acc = st.accs[st.keys.index_of(key) * specs.len() + j];
            let values = query_values(srcs, key, j, n);
            let present = values.filter(|v: RowModel| v is Word || v is Length).len();
            let float = specs[j].col_type_oid == 700 || specs[j].col_type_oid == 701;
            &&& finalize::finalized(acc, specs[j]) == result_of(specs[j], values)
            &&& float && specs[j].agg_type == AggType::Avg && present > 0 ==> acc is SumFloat
                && finalize::finalized(
                AccModel::SumFloat { bits: sum, count: acc->SumFloat_count },
                specs[j],
            ) == (FinalModel::FloatQuotient { bits: sum, count: present as int })
        }),
{
    law_query_groups_hold_their_rows(specs, grouped, srcs, n, key, j);
    let spec = specs[j];
    let values = query_values(srcs, key, j, n);
    if (spec.agg_type == AggType::Sum || spec.agg_type == AggType::Avg) && (spec.col_type_oid == 700
        || spec.col_type_oid == 701) {
        law_float_sums_returned(spec, values, sum);
    }
}

} // verus!
