//! How an aggregation plan is written as an integer list, and that reading the list gives the plan.

use crate::scan::agg::accumulator::{AggExecSpec, AggExpr, AggType};
use crate::scan::agg::plan::{GroupExprModel, GroupSpecModel, PlanModel, TopN};
use crate::scan::agg::result::{HavingFilter, HavingOp, OutputEntry};
use vstd::prelude::*;
use vstd::utf8::*;

verus! {

/// The number of an aggregate function.
pub open spec fn agg_number(t: AggType) -> i32 {
    match t {
        AggType::Sum => 0,
        AggType::Count => 1,
        AggType::CountStar => 2,
        AggType::Avg => 3,
        AggType::CountDistinct => 4,
        AggType::Min => 5,
        AggType::Max => 6,
    }
}

/// The number of an expression kind.
pub open spec fn agg_expr_number(e: AggExpr) -> i32 {
    match e {
        AggExpr::Column => 0,
        AggExpr::LengthOf => 1,
        AggExpr::AddConst => 2,
    }
}

/// The items of an aggregate; the result type is written and not read.
pub open spec fn agg_items(spec: AggExecSpec, result_type: i32) -> Seq<i32> {
    let head = seq![
        agg_number(spec.agg_type),
        spec.col_idx,
        result_type,
        spec.col_type_oid as i32,
        agg_expr_number(spec.expr_kind),
    ];
    if spec.expr_kind == AggExpr::AddConst {
        head.push(spec.const_offset as i32)
    } else {
        head
    }
}

/// The items of aggregates.
pub open spec fn aggs_items(specs: Seq<AggExecSpec>, result_types: Seq<i32>) -> Seq<i32>
    decreases specs.len(),
{
    if specs.len() == 0 {
        Seq::empty()
    } else {
        aggs_items(specs.drop_last(), result_types) + agg_items(
            specs.last(),
            result_types[specs.len() - 1],
        )
    }
}

/// The items of bytes: their number and the bytes.
pub open spec fn bytes_items(bytes: Seq<u8>) -> Seq<i32> {
    seq![bytes.len() as i32] + bytes.map_values(|b: u8| b as i32)
}

/// The items of what a group expression needs, behind its kind.
pub open spec fn group_expr_items(expr: GroupExprModel) -> Seq<i32> {
    match expr {
        GroupExprModel::Column => seq![0i32],
        GroupExprModel::RegexpReplace { pattern, replacement, func_oid, collation } => seq![
            1i32,
            func_oid as i32,
            collation as i32,
        ] + bytes_items(encode_utf8(pattern)) + bytes_items(encode_utf8(replacement)),
        GroupExprModel::DateTrunc { unit, func_oid, .. } => seq![2i32, func_oid as i32]
            + bytes_items(encode_utf8(unit)),
        GroupExprModel::Extract { unit, func_oid } => seq![3i32, func_oid as i32] + bytes_items(
            encode_utf8(unit),
        ),
        GroupExprModel::AddConst { offset, op_oid } => seq![4i32, offset as i32, op_oid as i32],
    }
}

/// The items of a group expression.
pub open spec fn group_items(g: GroupSpecModel) -> Seq<i32> {
    seq![g.col_idx, g.type_oid as i32] + group_expr_items(g.expr)
}

/// The items of group expressions.
pub open spec fn groups_items(groups: Seq<GroupSpecModel>) -> Seq<i32>
    decreases groups.len(),
{
    if groups.len() == 0 {
        Seq::empty()
    } else {
        groups_items(groups.drop_last()) + group_items(groups.last())
    }
}

/// The items of output columns.
pub open spec fn outputs_items(output: Seq<OutputEntry>) -> Seq<i32> {
    Seq::new(
        2 * output.len(),
        |i: int|
            match output[i / 2] {
                OutputEntry::Agg(n) => if i % 2 == 0 {
                    0i32
                } else {
                    n as i32
                },
                OutputEntry::Group(n) => if i % 2 == 0 {
                    1i32
                } else {
                    n as i32
                },
            },
    )
}

/// The number of a comparison.
pub open spec fn having_number(op: HavingOp) -> i32 {
    match op {
        HavingOp::Gt => 0,
        HavingOp::Lt => 1,
        HavingOp::Ge => 2,
        HavingOp::Le => 3,
        HavingOp::Eq => 4,
        HavingOp::Ne => 5,
    }
}

/// The items of HAVING filters.
pub open spec fn having_items(filters: Seq<HavingFilter>) -> Seq<i32> {
    Seq::new(
        3 * filters.len(),
        |i: int|
            if i % 3 == 0 {
                filters[i / 3].agg_idx as i32
            } else if i % 3 == 1 {
                having_number(filters[i / 3].op)
            } else {
                filters[i / 3].const_val as i32
            },
    )
}

/// The items of a WHERE clause.
pub open spec fn where_items(quals: Option<Seq<u8>>) -> Seq<i32> {
    match quals {
        Some(bytes) => bytes_items(bytes),
        None => seq![0i32],
    }
}

/// The items of the top rows.
pub open spec fn topn_items(topn: TopN) -> Seq<i32> {
    if topn.limit > 0 {
        seq![
            topn.limit as i32,
            topn.sort_col as i32,
            if topn.ascending {
                1i32
            } else {
                0i32
            },
        ]
    } else {
        seq![0i32]
    }
}

/// The items of the companion tables.
pub open spec fn oids_items(oids: Seq<u32>) -> Seq<i32> {
    oids.map_values(|o: u32| o as i32).push((-1) as i32)
}

/// A plan as a list.
pub open spec fn plan_items(plan: PlanModel, result_types: Seq<i32>) -> Seq<i32> {
    oids_items(plan.companion_oids) + (seq![plan.agg_specs.len() as i32] + aggs_items(
        plan.agg_specs,
        result_types,
    )) + (seq![plan.group_specs.len() as i32] + groups_items(plan.group_specs)) + (seq![
        plan.output_map.len() as i32,
    ] + outputs_items(plan.output_map)) + (seq![plan.having_filters.len() as i32]
        + having_items(plan.having_filters)) + where_items(plan.where_quals) + topn_items(plan.topn)
}

/// Whether a number fits an item.
pub open spec fn small(v: int) -> bool {
    i32::MIN <= v <= i32::MAX
}

/// Whether an aggregate can be written: only a kind with a constant has one, and it fits an item.
pub open spec fn agg_writable(spec: AggExecSpec) -> bool {
    if spec.expr_kind == AggExpr::AddConst {
        small(spec.const_offset as int)
    } else {
        spec.const_offset == 0
    }
}

/// Whether a group expression can be written: lengths and constants fit an item, and the width of
/// `date_trunc` is that of its unit.
pub open spec fn group_writable(g: GroupSpecModel) -> bool {
    match g.expr {
        GroupExprModel::Column => true,
        GroupExprModel::RegexpReplace { pattern, replacement, .. } => small(
            encode_utf8(pattern).len() as int,
        ) && small(encode_utf8(replacement).len() as int),
        GroupExprModel::DateTrunc { unit, unit_usecs, .. } => small(encode_utf8(unit).len() as int)
            && unit_usecs == crate::scan::agg::time::unit_width(unit),
        GroupExprModel::Extract { unit, .. } => small(encode_utf8(unit).len() as int),
        GroupExprModel::AddConst { offset, .. } => small(offset as int),
    }
}

/// The plan with its output columns; where it names none, these are the aggregates and then the
/// group expressions, each in their order.
pub open spec fn with_output(plan: PlanModel) -> PlanModel {
    if plan.output_map.len() > 0 {
        plan
    } else {
        PlanModel {
            output_map: Seq::new(plan.agg_specs.len(), |i: int| OutputEntry::Agg(i as usize))
                + Seq::new(plan.group_specs.len(), |i: int| OutputEntry::Group(i as usize)),
            ..plan
        }
    }
}

/// The number in an output column.
pub open spec fn output_ref(e: OutputEntry) -> usize {
    match e {
        OutputEntry::Agg(n) => n,
        OutputEntry::Group(n) => n,
    }
}

/// Whether a plan can be written as a list: all numbers fit an item, and no table has the number
/// that ends the tables.
pub open spec fn writable(plan: PlanModel) -> bool {
    &&& forall|i: int|
        0 <= i < plan.companion_oids.len() ==> (#[trigger] plan.companion_oids[i]) != u32::MAX
    &&& small(plan.agg_specs.len() as int)
    &&& forall|i: int| 0 <= i < plan.agg_specs.len() ==> agg_writable(#[trigger] plan.agg_specs[i])
    &&& small(plan.group_specs.len() as int)
    &&& forall|i: int|
        0 <= i < plan.group_specs.len() ==> group_writable(#[trigger] plan.group_specs[i])
    &&& small(plan.output_map.len() as int)
    &&& forall|i: int|
        0 <= i < plan.output_map.len() ==> small(output_ref(#[trigger] plan.output_map[i]) as int)
    &&& small(plan.having_filters.len() as int)
    &&& forall|i: int|
        0 <= i < plan.having_filters.len() ==> small(
            (#[trigger] plan.having_filters[i]).agg_idx as int,
        ) && small(plan.having_filters[i].const_val as int)
    &&& plan.where_quals matches Some(bytes) ==> 0 < bytes.len() <= i32::MAX
    &&& if plan.topn.limit > 0 {
        small(plan.topn.limit as int) && small(plan.topn.sort_col as int)
    } else {
        plan.topn == crate::scan::agg::plan::no_limit()
    }
}

// ---------------------------------------------------------------------------
// Reading what was written
// ---------------------------------------------------------------------------

/// Whether the list has these items from `at` on.
#[verifier::opaque]
spec fn holds(list: Seq<i32>, at: int, items: Seq<i32>) -> bool {
    &&& 0 <= at
    &&& at + items.len() <= list.len()
    &&& forall|i: int| at <= i < at + items.len() ==> #[trigger] list[i] == items[i - at]
}

/// A list that has two runs of items has each of them.
proof fn lemma_split(list: Seq<i32>, at: int, a: Seq<i32>, b: Seq<i32>)
    requires
        holds(list, at, a + b),
    ensures
        holds(list, at, a),
        holds(list, at + a.len(), b),
{
    reveal(holds);
    assert forall|i: int| at <= i < at + a.len() implies #[trigger] list[i] == a[i - at] by {
        assert((a + b)[i - at] == a[i - at]);
    }
    assert forall|i: int| at + a.len() <= i < at + a.len() + b.len() implies #[trigger] list[i]
        == b[i - at - a.len()] by {
        assert((a + b)[i - at] == b[i - at - a.len()]);
    }
}

/// Numbers of tables, types and functions survive as items.
proof fn lemma_oid(oid: u32)
    ensures
        (oid as i32) as u32 == oid,
        oid != u32::MAX ==> oid as i32 != -1,
{
    let item = oid as i32;
    let back = item as u32;
    assert(back == oid && (oid != u32::MAX ==> item != -1)) by (bit_vector)
        requires
            item == oid as i32,
            back == item as u32,
    ;
}

/// A string survives as items.
proof fn lemma_string_at(list: Seq<i32>, at: int, s: Seq<char>)
    requires
        holds(list, at, bytes_items(encode_utf8(s))),
        small(encode_utf8(s).len() as int),
    ensures
        crate::scan::agg::plan::string_at(list, at) == Some(
            (s, at + bytes_items(encode_utf8(s)).len()),
        ),
{
    reveal(holds);
    let bytes = encode_utf8(s);
    lemma_bytes_at(list, at, bytes);
    encode_utf8_valid_utf8(s);
    encode_utf8_decode_utf8(s);
}

/// Bytes survive as items.
proof fn lemma_bytes_at(list: Seq<i32>, at: int, bytes: Seq<u8>)
    requires
        holds(list, at, bytes_items(bytes)),
        small(bytes.len() as int),
    ensures
        list[at] == bytes.len(),
        bytes_items(bytes).len() == bytes.len() + 1,
        crate::scan::agg::plan::bytes_at(list, at + 1, bytes.len() as int) == bytes,
{
    reveal(holds);
    let items = bytes_items(bytes);
    assert(items[0] == bytes.len() as i32);
    let read = crate::scan::agg::plan::bytes_at(list, at + 1, bytes.len() as int);
    assert forall|i: int| 0 <= i < bytes.len() implies read[i] == bytes[i] by {
        assert(list[at + 1 + i] == items[i + 1]);
        assert(items[i + 1] == bytes[i] as i32);
    }
    assert(read =~= bytes);
}

/// An aggregate survives as items.
proof fn lemma_agg_at(list: Seq<i32>, at: int, spec: AggExecSpec, result_type: i32)
    requires
        holds(list, at, agg_items(spec, result_type)),
        agg_writable(spec),
    ensures
        crate::scan::agg::plan::agg_at(list, at) == Some(
            (spec, at + agg_items(spec, result_type).len()),
        ),
{
    reveal(holds);
    let items = agg_items(spec, result_type);
    assert(list[at] == items[0]);
    assert(list[at + 1] == items[1]);
    assert(list[at + 3] == items[3]);
    assert(list[at + 4] == items[4]);
    if spec.expr_kind == AggExpr::AddConst {
        assert(list[at + 5] == items[5]);
    }
    lemma_oid(spec.col_type_oid);
}

/// Aggregates survive as items.
proof fn lemma_aggs_at(
    list: Seq<i32>,
    at: int,
    specs: Seq<AggExecSpec>,
    result_types: Seq<i32>,
)
    requires
        holds(list, at, aggs_items(specs, result_types)),
        forall|i: int| 0 <= i < specs.len() ==> agg_writable(#[trigger] specs[i]),
    ensures
        crate::scan::agg::plan::aggs_at(list, at, specs.len()) == Some(
            (specs, at + aggs_items(specs, result_types).len()),
        ),
    decreases specs.len(),
{
    reveal(holds);
    if specs.len() == 0 {
        assert(specs =~= Seq::<AggExecSpec>::empty());
    } else {
        let front = aggs_items(specs.drop_last(), result_types);
        let last = agg_items(specs.last(), result_types[specs.len() - 1]);
        lemma_split(list, at, front, last);
        assert forall|i: int| 0 <= i < specs.drop_last().len() implies agg_writable(
            #[trigger] specs.drop_last()[i],
        ) by {
            assert(specs.drop_last()[i] == specs[i]);
        }
        lemma_aggs_at(list, at, specs.drop_last(), result_types);
        assert(agg_writable(specs[specs.len() - 1]));
        lemma_agg_at(list, at + front.len(), specs.last(), result_types[specs.len() - 1]);
        assert(specs.drop_last().push(specs.last()) =~= specs);
    }
}

/// A group expression survives as items.
proof fn lemma_group_at(list: Seq<i32>, at: int, g: GroupSpecModel)
    requires
        holds(list, at, group_items(g)),
        group_writable(g),
    ensures
        crate::scan::agg::plan::group_at(list, at) == Some((g, at + group_items(g).len())),
{
    reveal(holds);
    let items = group_items(g);
    lemma_split(list, at, seq![g.col_idx, g.type_oid as i32], group_expr_items(g.expr));
    let own = group_expr_items(g.expr);
    assert(list[at] == items[0]);
    assert(list[at + 1] == items[1]);
    assert(list[at + 2] == own[0]);
    lemma_oid(g.type_oid);
    match g.expr {
        GroupExprModel::Column => {},
        GroupExprModel::RegexpReplace { pattern, replacement, func_oid, collation } => {
            let head = seq![1i32, func_oid as i32, collation as i32];
            let p = bytes_items(encode_utf8(pattern));
            let r = bytes_items(encode_utf8(replacement));
            lemma_split(list, at + 2, head + p, r);
            lemma_split(list, at + 2, head, p);
            assert(list[at + 3] == head[1]);
            assert(list[at + 4] == head[2]);
            lemma_oid(func_oid);
            lemma_oid(collation);
            lemma_string_at(list, at + 5, pattern);
            lemma_string_at(list, at + 5 + p.len(), replacement);
        },
        GroupExprModel::DateTrunc { unit, unit_usecs, func_oid } => {
            let head = seq![2i32, func_oid as i32];
            lemma_split(list, at + 2, head, bytes_items(encode_utf8(unit)));
            assert(list[at + 3] == head[1]);
            lemma_oid(func_oid);
            lemma_string_at(list, at + 4, unit);
        },
        GroupExprModel::Extract { unit, func_oid } => {
            let head = seq![3i32, func_oid as i32];
            lemma_split(list, at + 2, head, bytes_items(encode_utf8(unit)));
            assert(list[at + 3] == head[1]);
            lemma_oid(func_oid);
            lemma_string_at(list, at + 4, unit);
        },
        GroupExprModel::AddConst { offset, op_oid } => {
            assert(list[at + 3] == own[1]);
            assert(list[at + 4] == own[2]);
            lemma_oid(op_oid);
        },
    }
}

/// Group expressions survive as items.
proof fn lemma_groups_at(list: Seq<i32>, at: int, groups: Seq<GroupSpecModel>)
    requires
        holds(list, at, groups_items(groups)),
        forall|i: int| 0 <= i < groups.len() ==> group_writable(#[trigger] groups[i]),
    ensures
        crate::scan::agg::plan::groups_at(list, at, groups.len()) == Some(
            (groups, at + groups_items(groups).len()),
        ),
    decreases groups.len(),
{
    reveal(holds);
    if groups.len() == 0 {
        assert(groups =~= Seq::<GroupSpecModel>::empty());
    } else {
        let front = groups_items(groups.drop_last());
        lemma_split(list, at, front, group_items(groups.last()));
        assert forall|i: int| 0 <= i < groups.drop_last().len() implies group_writable(
            #[trigger] groups.drop_last()[i],
        ) by {
            assert(groups.drop_last()[i] == groups[i]);
        }
        lemma_groups_at(list, at, groups.drop_last());
        assert(group_writable(groups[groups.len() - 1]));
        lemma_group_at(list, at + front.len(), groups.last());
        assert(groups.drop_last().push(groups.last()) =~= groups);
    }
}

/// Output columns survive as items.
proof fn lemma_outputs(list: Seq<i32>, at: int, output: Seq<OutputEntry>)
    requires
        holds(list, at, seq![output.len() as i32] + outputs_items(output)),
        small(output.len() as int),
        forall|i: int| 0 <= i < output.len() ==> small(output_ref(#[trigger] output[i]) as int),
    ensures
        crate::scan::agg::plan::outputs_section(list, at) == Some(
            (output, at + 1 + outputs_items(output).len()),
        ),
{
    reveal(holds);
    let items = outputs_items(output);
    lemma_split(list, at, seq![output.len() as i32], items);
    assert(list[at] == seq![output.len() as i32][0]);
    let read = Seq::new(
        list[at] as nat,
        |k: int| crate::scan::agg::plan::output_at(list, at + 1 + 2 * k),
    );
    assert forall|k: int| 0 <= k < output.len() implies read[k] == output[k] by {
        assert(list[at + 1 + 2 * k] == items[2 * k]);
        assert(list[at + 1 + 2 * k + 1] == items[2 * k + 1]);
        assert((2 * k) / 2 == k && (2 * k + 1) / 2 == k && (2 * k) % 2 == 0 && (2 * k + 1) % 2 == 1);
        assert(small(output_ref(output[k]) as int));
    }
    assert(read =~= output);
}

/// HAVING filters survive as items.
proof fn lemma_having(list: Seq<i32>, at: int, filters: Seq<HavingFilter>)
    requires
        holds(list, at, seq![filters.len() as i32] + having_items(filters)),
        small(filters.len() as int),
        forall|i: int|
            0 <= i < filters.len() ==> small((#[trigger] filters[i]).agg_idx as int) && small(
                filters[i].const_val as int,
            ),
    ensures
        crate::scan::agg::plan::having_section(list, at) == Some(
            (filters, at + 1 + having_items(filters).len()),
        ),
{
    reveal(holds);
    let items = having_items(filters);
    lemma_split(list, at, seq![filters.len() as i32], items);
    assert(list[at] == seq![filters.len() as i32][0]);
    let read = Seq::new(
        list[at] as nat,
        |k: int| crate::scan::agg::plan::having_at(list, at + 1 + 3 * k),
    );
    assert forall|k: int| 0 <= k < filters.len() implies read[k] == filters[k] by {
        assert(list[at + 1 + 3 * k] == items[3 * k]);
        assert(list[at + 1 + 3 * k + 1] == items[3 * k + 1]);
        assert(list[at + 1 + 3 * k + 2] == items[3 * k + 2]);
        assert((3 * k) / 3 == k && (3 * k + 1) / 3 == k && (3 * k + 2) / 3 == k);
        assert((3 * k) % 3 == 0 && (3 * k + 1) % 3 == 1 && (3 * k + 2) % 3 == 2);
        assert(small(filters[k].agg_idx as int));
    }
    assert(read =~= filters);
}

/// A WHERE clause survives as items.
proof fn lemma_where(list: Seq<i32>, at: int, quals: Option<Seq<u8>>)
    requires
        holds(list, at, where_items(quals)),
        quals matches Some(bytes) ==> 0 < bytes.len() <= i32::MAX,
    ensures
        crate::scan::agg::plan::where_section(list, at) == Some(
            (quals, at + where_items(quals).len()),
        ),
{
    reveal(holds);
    match quals {
        Some(bytes) => {
            lemma_bytes_at(list, at, bytes);
        },
        None => {
            assert(list[at] == seq![0i32][0]);
        },
    }
}

/// The companion tables survive as items.
proof fn lemma_oids(list: Seq<i32>, oids: Seq<u32>)
    requires
        holds(list, 0, oids_items(oids)),
        forall|i: int| 0 <= i < oids.len() ==> (#[trigger] oids[i]) != u32::MAX,
    ensures
        crate::scan::agg::plan::oids_section(list) == (oids, oids.len() as int + 1),
{
    reveal(holds);
    let items = oids_items(oids);
    assert forall|i: int| 0 <= i < oids.len() implies #[trigger] list[i] != -1 && list[i] as u32
        == oids[i] by {
        lemma_oid(oids[i]);
        assert(items[i] == oids[i] as i32);
    }
    assert(list[oids.len() as int] == items[oids.len() as int]);
    lemma_sentinel(list, 0, oids.len() as int);
    assert(list.subrange(0, oids.len() as int).map_values(|v: i32| v as u32) =~= oids);
}

/// The mark that ends the companion tables is found.
proof fn lemma_sentinel(list: Seq<i32>, at: int, end: int)
    requires
        0 <= at <= end < list.len(),
        list[end] == -1,
        forall|i: int| at <= i < end ==> #[trigger] list[i] != -1,
    ensures
        crate::scan::agg::plan::sentinel(list, at) == end,
    decreases end - at,
{
    if at < end {
        lemma_sentinel(list, at + 1, end);
    }
}

/// The part of the aggregates survives as items.
proof fn lemma_aggs(list: Seq<i32>, at: int, specs: Seq<AggExecSpec>, result_types: Seq<i32>)
    requires
        holds(list, at, seq![specs.len() as i32] + aggs_items(specs, result_types)),
        small(specs.len() as int),
        forall|i: int| 0 <= i < specs.len() ==> agg_writable(#[trigger] specs[i]),
    ensures
        crate::scan::agg::plan::aggs_section(list, at) == Some(
            (specs, at + 1 + aggs_items(specs, result_types).len()),
        ),
{
    lemma_split(list, at, seq![specs.len() as i32], aggs_items(specs, result_types));
    lemma_aggs_at(list, at + 1, specs, result_types);
    reveal(holds);
    assert(list[at] == seq![specs.len() as i32][0]);
}

/// The part of the group expressions survives as items.
proof fn lemma_groups(list: Seq<i32>, at: int, groups: Seq<GroupSpecModel>)
    requires
        holds(list, at, seq![groups.len() as i32] + groups_items(groups)),
        small(groups.len() as int),
        forall|i: int| 0 <= i < groups.len() ==> group_writable(#[trigger] groups[i]),
    ensures
        crate::scan::agg::plan::groups_section(list, at) == Some(
            (groups, at + 1 + groups_items(groups).len()),
        ),
{
    lemma_split(list, at, seq![groups.len() as i32], groups_items(groups));
    lemma_groups_at(list, at + 1, groups);
    reveal(holds);
    assert(list[at] == seq![groups.len() as i32][0]);
}

/// The top rows survive as items.
proof fn lemma_topn(list: Seq<i32>, at: int, topn: TopN)
    requires
        holds(list, at, topn_items(topn)),
        topn.limit > 0 ==> small(topn.limit as int) && small(topn.sort_col as int),
        topn.limit <= 0 ==> topn == crate::scan::agg::plan::no_limit(),
    ensures
        crate::scan::agg::plan::topn_section(list, at) == Some(topn),
{
    reveal(holds);
    let items = topn_items(topn);
    assert(list[at] == items[0]);
    if topn.limit > 0 {
        assert(list[at + 1] == items[1]);
        assert(list[at + 2] == items[2]);
    }
}

/// A list of seven parts has each of them.
proof fn lemma_parts(
    a: Seq<i32>,
    b: Seq<i32>,
    c: Seq<i32>,
    d: Seq<i32>,
    e: Seq<i32>,
    f: Seq<i32>,
    g: Seq<i32>,
)
    ensures
        ({
            let list = a + b + c + d + e + f + g;
            let at1 = a.len() as int;
            let at2 = at1 + b.len();
            let at3 = at2 + c.len();
            let at4 = at3 + d.len();
            let at5 = at4 + e.len();
            &&& holds(list, 0, a)
            &&& holds(list, at1, b)
            &&& holds(list, at2, c)
            &&& holds(list, at3, d)
            &&& holds(list, at4, e)
            &&& holds(list, at5, f)
            &&& holds(list, at5 + f.len(), g)
        }),
{
    let list = a + b + c + d + e + f + g;
    assert(holds(list, 0, list)) by {
        reveal(holds);
    }
    lemma_split(list, 0, a + b + c + d + e + f, g);
    lemma_split(list, 0, a + b + c + d + e, f);
    lemma_split(list, 0, a + b + c + d, e);
    lemma_split(list, 0, a + b + c, d);
    lemma_split(list, 0, a + b, c);
    lemma_split(list, 0, a, b);
}

/// A list whose parts are those of a plan is read as the plan.
proof fn lemma_assembled(
    list: Seq<i32>,
    plan: PlanModel,
    at: (int, int, int, int, int, int),
)
    requires
        crate::scan::agg::plan::oids_section(list) == (plan.companion_oids, at.0),
        crate::scan::agg::plan::aggs_section(list, at.0) == Some((plan.agg_specs, at.1)),
        crate::scan::agg::plan::groups_section(list, at.1) == Some((plan.group_specs, at.2)),
        crate::scan::agg::plan::outputs_section(list, at.2) == Some((plan.output_map, at.3)),
        crate::scan::agg::plan::having_section(list, at.3) == Some((plan.having_filters, at.4)),
        crate::scan::agg::plan::where_section(list, at.4) == Some((plan.where_quals, at.5)),
        crate::scan::agg::plan::topn_section(list, at.5) == Some(plan.topn),
    ensures
        crate::scan::agg::plan::parsed_plan(list) == Some(with_output(plan)),
{
    if plan.output_map.len() == 0 {
        assert(crate::scan::agg::plan::default_output(
            plan.agg_specs.len(),
            plan.group_specs.len(),
        ) =~= with_output(plan).output_map);
    }
}

/// A list that has the parts of a plan one after the other is read as the plan.
proof fn lemma_read(list: Seq<i32>, plan: PlanModel, result_types: Seq<i32>)
    requires
        writable(plan),
        ({
            let aggs = seq![plan.agg_specs.len() as i32] + aggs_items(plan.agg_specs, result_types);
            let groups = seq![plan.group_specs.len() as i32] + groups_items(plan.group_specs);
            let outputs = seq![plan.output_map.len() as i32] + outputs_items(plan.output_map);
            let having = seq![plan.having_filters.len() as i32] + having_items(
                plan.having_filters,
            );
            let at1 = oids_items(plan.companion_oids).len() as int;
            let at2 = at1 + aggs.len();
            let at3 = at2 + groups.len();
            let at4 = at3 + outputs.len();
            let at5 = at4 + having.len();
            &&& holds(list, 0, oids_items(plan.companion_oids))
            &&& holds(list, at1, aggs)
            &&& holds(list, at2, groups)
            &&& holds(list, at3, outputs)
            &&& holds(list, at4, having)
            &&& holds(list, at5, where_items(plan.where_quals))
            &&& holds(
                list,
                at5 + where_items(plan.where_quals).len(),
                topn_items(plan.topn),
            )
        }),
    ensures
        crate::scan::agg::plan::parsed_plan(list) == Some(with_output(plan)),
{
    let at1 = oids_items(plan.companion_oids).len() as int;
    let at2 = at1 + 1 + aggs_items(plan.agg_specs, result_types).len();
    let at3 = at2 + 1 + groups_items(plan.group_specs).len();
    let at4 = at3 + 1 + outputs_items(plan.output_map).len();
    let at5 = at4 + 1 + having_items(plan.having_filters).len();
    let at6 = at5 + where_items(plan.where_quals).len();
    lemma_oids(list, plan.companion_oids);
    lemma_aggs(list, at1, plan.agg_specs, result_types);
    lemma_groups(list, at2, plan.group_specs);
    lemma_outputs(list, at3, plan.output_map);
    lemma_having(list, at4, plan.having_filters);
    lemma_where(list, at5, plan.where_quals);
    lemma_topn(list, at6, plan.topn);
    lemma_assembled(list, plan, (at1, at2, at3, at4, at5, at6));
}

/// Reading the list of a plan gives the plan; one that names no output columns puts out the
/// aggregates and then the group expressions.
pub proof fn law_plan_reads_back(plan: PlanModel, result_types: Seq<i32>)
    requires
        writable(plan),
        result_types.len() == plan.agg_specs.len(),
    ensures
        crate::scan::agg::plan::parsed_plan(plan_items(plan, result_types)) == Some(
            with_output(plan),
        ),
        plan.output_map.len() > 0 ==> crate::scan::agg::plan::parsed_plan(
            plan_items(plan, result_types),
        ) == Some(plan),
{
    lemma_parts(
        oids_items(plan.companion_oids),
        seq![plan.agg_specs.len() as i32] + aggs_items(plan.agg_specs, result_types),
        seq![plan.group_specs.len() as i32] + groups_items(plan.group_specs),
        seq![plan.output_map.len() as i32] + outputs_items(plan.output_map),
        seq![plan.having_filters.len() as i32] + having_items(plan.having_filters),
        where_items(plan.where_quals),
        topn_items(plan.topn),
    );
    lemma_read(plan_items(plan, result_types), plan, result_types);
}

} // verus!
