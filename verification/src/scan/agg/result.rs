//! Result rows: HAVING filters, the order of output columns, and the top rows.

use crate::scan::agg::finalize::FinalValue;
use crate::scan::agg::group::GroupKeyVal;
use crate::scan::agg::measure::{is_below, rank_double, Measure};
use crate::scan::datum::{new_null, Cell, Datum};
use vstd::prelude::*;

verus! {

/// How a HAVING filter compares.
#[derive(Clone, Copy, PartialEq, Eq, Structural, Debug)]
pub enum HavingOp {
    Gt,
    Lt,
    Ge,
    Le,
    Eq,
    Ne,
}

/// A HAVING filter: the result of an aggregate compared with a constant.
#[derive(Clone, Copy, PartialEq, Eq, Structural, Debug)]
pub struct HavingFilter {
    pub agg_idx: usize,
    pub op: HavingOp,
    pub const_val: i64,
}

/// Where an output column comes from.
#[derive(Clone, Copy, PartialEq, Eq, Structural, Debug)]
pub enum OutputEntry {
    /// An aggregate, by its number.
    Agg(usize),
    /// A group expression, by its number.
    Group(usize),
}

/// Whether a number compares with a constant as `op` says.
pub open spec fn compares(op: HavingOp, v: int, c: int) -> bool {
    match op {
        HavingOp::Gt => v > c,
        HavingOp::Lt => v < c,
        HavingOp::Ge => v >= c,
        HavingOp::Le => v <= c,
        HavingOp::Eq => v == c,
        HavingOp::Ne => v != c,
    }
}

/// A result with what it is compared by.
pub type ResultCell = (Cell, Measure);

/// Whether a result compares with the constant of a filter, given as a number and as the bits of
/// the same number in double precision; a null satisfies no filter.
pub open spec fn filter_holds(f: HavingFilter, double: u64, results: Seq<ResultCell>) -> bool {
    match results[f.agg_idx as int].1 {
        Measure::Null => false,
        Measure::Ratio { sum, count } => compares(f.op, sum as int, f.const_val * count),
        Measure::Double(bits) => compares(
            f.op,
            crate::scan::agg::measure::double_rank(bits),
            crate::scan::agg::measure::double_rank(double),
        ),
    }
}

/// Whether a group with these aggregate results satisfies every filter.
pub open spec fn passes(
    filters: Seq<HavingFilter>,
    doubles: Seq<u64>,
    results: Seq<ResultCell>,
) -> bool {
    forall|i: int|
        0 <= i < filters.len() ==> filter_holds(#[trigger] filters[i], doubles[i], results)
}

/// Whether a number compares with a constant as `op` says.
fn compare(op: HavingOp, v: i128, c: i128) -> (r: bool)
    ensures
        r == compares(op, v as int, c as int),
{
    match op {
        HavingOp::Gt => v > c,
        HavingOp::Lt => v < c,
        HavingOp::Ge => v >= c,
        HavingOp::Le => v <= c,
        HavingOp::Eq => v == c,
        HavingOp::Ne => v != c,
    }
}

/// Whether a group with these aggregate results satisfies every filter. The constants of the
/// filters are given in double precision, too.
pub fn having_passes(filters: &[HavingFilter], doubles: &[u64], results: &[ResultCell]) -> (r: bool)
    requires
        doubles@.len() == filters@.len(),
        forall|i: int| 0 <= i < filters@.len() ==> (#[trigger] filters@[i]).agg_idx < results@.len(),
    ensures
        r == passes(filters@, doubles@, results@),
{
    let mut i: usize = 0;
    while i < filters.len()
        invariant
            i <= filters@.len(),
            doubles@.len() == filters@.len(),
            forall|k: int|
                0 <= k < filters@.len() ==> (#[trigger] filters@[k]).agg_idx < results@.len(),
            forall|k: int|
                0 <= k < i ==> filter_holds(#[trigger] filters@[k], doubles@[k], results@),
        decreases filters@.len() - i,
    {
        let f: HavingFilter = filters[i];
        let pass: bool = match results[f.agg_idx].1 {
            Measure::Null => false,
            Measure::Ratio { sum, count } => {
                assert(-0x4000_0000_0000_0000_0000_0000_0000_0000 <= f.const_val * count
                    <= 0x4000_0000_0000_0000_0000_0000_0000_0000) by (nonlinear_arith)
                    requires
                        -0x8000_0000_0000_0000 <= f.const_val <= 0x7fff_ffff_ffff_ffff,
                        -0x8000_0000_0000_0000 <= count <= 0x7fff_ffff_ffff_ffff,
                ;
                compare(f.op, sum, (f.const_val as i128) * (count as i128))
            },
            Measure::Double(bits) => compare(
                f.op,
                rank_double(bits) as i128,
                rank_double(doubles[i]) as i128,
            ),
        };
        if !pass {
            assert(!filter_holds(filters@[i as int], doubles@[i as int], results@));
            return false;
        }
        i = i + 1;
    }
    true
}

/// Whether an output column has its source.
pub open spec fn entry_ok(e: OutputEntry, aggs: nat, groups: nat) -> bool {
    match e {
        OutputEntry::Agg(ai) => ai < aggs,
        OutputEntry::Group(gi) => gi < groups,
    }
}

/// Whether every output column has its source.
pub open spec fn map_ok(output: Seq<OutputEntry>, aggs: nat, groups: nat) -> bool {
    forall|i: int| 0 <= i < output.len() ==> entry_ok(#[trigger] output[i], aggs, groups)
}

/// The cell of an output column.
pub open spec fn output_cell(
    e: OutputEntry,
    aggs: Seq<ResultCell>,
    groups: Seq<ResultCell>,
) -> ResultCell {
    match e {
        OutputEntry::Agg(ai) => aggs[ai as int],
        OutputEntry::Group(gi) => groups[gi as int],
    }
}

/// The result row of a group.
pub fn output_row(output: &[OutputEntry], aggs: &[ResultCell], groups: &[ResultCell]) -> (row: Vec<
    ResultCell,
>)
    requires
        map_ok(output@, aggs@.len(), groups@.len()),
    ensures
        row@ == output@.map_values(|e: OutputEntry| output_cell(e, aggs@, groups@)),
{
    let mut row: Vec<ResultCell> = Vec::new();
    let mut i: usize = 0;
    while i < output.len()
        invariant
            i <= output@.len(),
            map_ok(output@, aggs@.len(), groups@.len()),
            row@.len() == i,
            forall|k: int| 0 <= k < i ==> row@[k] == output_cell(output@[k], aggs@, groups@),
        decreases output@.len() - i,
    {
        assert(entry_ok(output@[i as int], aggs@.len(), groups@.len()));
        match output[i] {
            OutputEntry::Agg(ai) => row.push(aggs[ai]),
            OutputEntry::Group(gi) => row.push(groups[gi]),
        }
        i = i + 1;
    }
    assert(row@ =~= output@.map_values(|e: OutputEntry| output_cell(e, aggs@, groups@)));
    row
}

/// The result rows of the first `n` groups: those that satisfy every filter, in the order of the
/// groups.
pub open spec fn rows_of_groups(
    aggs: Seq<Vec<ResultCell>>,
    groups: Seq<Vec<ResultCell>>,
    filters: Seq<HavingFilter>,
    doubles: Seq<u64>,
    output: Seq<OutputEntry>,
    n: nat,
) -> Seq<Seq<ResultCell>>
    decreases n,
{
    if n == 0 {
        Seq::empty()
    } else {
        let earlier = rows_of_groups(aggs, groups, filters, doubles, output, (n - 1) as nat);
        if passes(filters, doubles, aggs[n - 1]@) {
            earlier.push(
                output.map_values(
                    |e: OutputEntry| output_cell(e, aggs[n - 1]@, groups[n - 1]@),
                ),
            )
        } else {
            earlier
        }
    }
}

/// Whether the filters and the output columns have their sources in a group.
pub open spec fn group_ok(
    aggs: Seq<ResultCell>,
    groups: Seq<ResultCell>,
    filters: Seq<HavingFilter>,
    output: Seq<OutputEntry>,
) -> bool {
    &&& forall|i: int| 0 <= i < filters.len() ==> (#[trigger] filters[i]).agg_idx < aggs.len()
    &&& map_ok(output, aggs.len(), groups.len())
}

/// Makes the result rows from the results of the aggregates and the group expressions of every
/// group.
pub fn grouped_rows(
    aggs: &Vec<Vec<ResultCell>>,
    groups: &Vec<Vec<ResultCell>>,
    filters: &[HavingFilter],
    doubles: &[u64],
    output: &[OutputEntry],
) -> (rows: Vec<Vec<ResultCell>>)
    requires
        aggs@.len() == groups@.len(),
        doubles@.len() == filters@.len(),
        forall|g: int|
            0 <= g < aggs@.len() ==> group_ok(
                (#[trigger] aggs@[g])@,
                groups@[g]@,
                filters@,
                output@,
            ),
    ensures
        row_views(rows@) == rows_of_groups(
            aggs@,
            groups@,
            filters@,
            doubles@,
            output@,
            aggs@.len(),
        ),
{
    let mut rows: Vec<Vec<ResultCell>> = Vec::new();
    let mut g: usize = 0;
    assert(row_views(rows@) =~= Seq::<Seq<ResultCell>>::empty());
    while g < aggs.len()
        invariant
            g <= aggs@.len(),
            aggs@.len() == groups@.len(),
            doubles@.len() == filters@.len(),
            forall|k: int|
                0 <= k < aggs@.len() ==> group_ok(
                    (#[trigger] aggs@[k])@,
                    groups@[k]@,
                    filters@,
                    output@,
                ),
            row_views(rows@) == rows_of_groups(
                aggs@,
                groups@,
                filters@,
                doubles@,
                output@,
                g as nat,
            ),
        decreases aggs@.len() - g,
    {
        let ghost before = rows@;
        assert(group_ok(aggs@[g as int]@, groups@[g as int]@, filters@, output@));
        if having_passes(filters, doubles, aggs[g].as_slice()) {
            let row = output_row(output, aggs[g].as_slice(), groups[g].as_slice());
            rows.push(row);
            assert(row_views(rows@) =~= row_views(before).push(row@));
        }
        g = g + 1;
    }
    rows
}

/// Whether every output column that is an aggregate has its source.
pub open spec fn scalar_map_ok(output: Seq<OutputEntry>, aggs: nat) -> bool {
    forall|i: int|
        0 <= i < output.len() ==> (#[trigger] output[i] matches OutputEntry::Agg(ai) ==> ai < aggs)
}

/// The cell of an output column where there are no groups.
pub open spec fn scalar_cell(e: OutputEntry, aggs: Seq<Cell>) -> Cell {
    match e {
        OutputEntry::Agg(ai) => aggs[ai as int],
        OutputEntry::Group(_) => crate::scan::datum::null_cell(),
    }
}

/// The single result row of a query without groups; a group column is null.
pub fn scalar_row(output: &[OutputEntry], aggs: &[Cell]) -> (row: Vec<Cell>)
    requires
        scalar_map_ok(output@, aggs@.len()),
    ensures
        row@ == output@.map_values(|e: OutputEntry| scalar_cell(e, aggs@)),
{
    let mut row: Vec<Cell> = Vec::new();
    let mut i: usize = 0;
    while i < output.len()
        invariant
            i <= output@.len(),
            scalar_map_ok(output@, aggs@.len()),
            row@.len() == i,
            forall|k: int| 0 <= k < i ==> row@[k] == scalar_cell(output@[k], aggs@),
        decreases output@.len() - i,
    {
        match output[i] {
            OutputEntry::Agg(ai) => {
                assert(output@[i as int] == OutputEntry::Agg(ai));
                row.push(aggs[ai])
            },
            OutputEntry::Group(_) => row.push(new_null()),
        }
        i = i + 1;
    }
    assert(row@ =~= output@.map_values(|e: OutputEntry| scalar_cell(e, aggs@)));
    row
}

/// The value of a group key component in a result row: the number that `extract` gives is an
/// arbitrary-precision one, any other number is a word, and a string is text.
pub open spec fn group_final(
    part: crate::scan::agg::group::KeyPart,
    is_extract: bool,
) -> crate::scan::agg::finalize::FinalModel {
    match part {
        crate::scan::agg::group::KeyPart::Null => crate::scan::agg::finalize::FinalModel::Null,
        crate::scan::agg::group::KeyPart::Int(v) => if is_extract {
            crate::scan::agg::finalize::FinalModel::Numeric(v as int)
        } else {
            crate::scan::agg::finalize::FinalModel::Word(crate::scan::datum::word_of(v as int))
        },
        crate::scan::agg::group::KeyPart::Text(s) => crate::scan::agg::finalize::FinalModel::Text(s),
    }
}

/// The value of a group key component in a result row.
pub fn group_value(
    table: &crate::scan::agg::group::GroupTable,
    val: &GroupKeyVal,
    is_extract: bool,
) -> (r: FinalValue)
    requires
        crate::scan::agg::group::val_in(*val, table.arena_bytes()),
    ensures
        r@ == group_final(
            crate::scan::agg::group::val_part(*val, table.arena_bytes()),
            is_extract,
        ),
{
    match val {
        GroupKeyVal::Null => FinalValue::Null,
        GroupKeyVal::Int(v) => if is_extract {
            FinalValue::Numeric(*v as i128)
        } else {
            FinalValue::Word(Datum::from_i64(*v))
        },
        GroupKeyVal::Str(off, len) => FinalValue::Text(table.key_text(*off, *len).to_string()),
    }
}

// ---------------------------------------------------------------------------
// The top rows
// ---------------------------------------------------------------------------

/// Whether row `a` is put before row `b`: by what they are compared by, nulls last in both
/// directions, and in their given order where these are equal.
pub open spec fn row_before(keys: Seq<Measure>, ascending: bool, a: int, b: int) -> bool {
    if keys[a] is Null || keys[b] is Null {
        if keys[a] is Null && keys[b] is Null {
            a < b
        } else {
            keys[b] is Null
        }
    } else if crate::scan::agg::measure::below(keys[a], keys[b]) {
        ascending
    } else if crate::scan::agg::measure::below(keys[b], keys[a]) {
        !ascending
    } else {
        a < b
    }
}

/// Whether all quotients among the keys have positive counts.
pub open spec fn all_sound(keys: Seq<Measure>) -> bool {
    forall|i: int| 0 <= i < keys.len() ==> crate::scan::agg::measure::sound(#[trigger] keys[i])
}

/// Rows are put in a strict order.
proof fn lemma_before_order(keys: Seq<Measure>, ascending: bool, a: int, b: int, c: int)
    requires
        all_sound(keys),
        0 <= a < keys.len(),
        0 <= b < keys.len(),
        0 <= c < keys.len(),
    ensures
        row_before(keys, ascending, a, b) ==> !row_before(keys, ascending, b, a),
        a != b ==> row_before(keys, ascending, a, b) || row_before(keys, ascending, b, a),
        row_before(keys, ascending, a, b) && row_before(keys, ascending, b, c) ==> row_before(
            keys,
            ascending,
            a,
            c,
        ),
{
    let (x, y, z) = (keys[a], keys[b], keys[c]);
    if !(x is Null) && !(y is Null) {
        crate::scan::agg::measure::lemma_below_order(x, y, x);
        if !(z is Null) {
            crate::scan::agg::measure::lemma_below_order(x, y, z);
            crate::scan::agg::measure::lemma_below_order(z, y, x);
            crate::scan::agg::measure::lemma_below_order(x, z, x);
            crate::scan::agg::measure::lemma_below_order(y, z, y);
        }
    }
}

/// Whether `order` lists the rows from `lo` to `hi`, each once, as they are put.
pub open spec fn is_order(
    keys: Seq<Measure>,
    ascending: bool,
    lo: int,
    hi: int,
    order: Seq<usize>,
) -> bool {
    &&& order.len() == hi - lo
    &&& forall|i: int| 0 <= i < order.len() ==> lo <= #[trigger] order[i] < hi
    &&& forall|i: int, j: int|
        0 <= i < j < order.len() ==> row_before(
            keys,
            ascending,
            #[trigger] order[i] as int,
            #[trigger] order[j] as int,
        )
}

/// Whether row `a` is put before row `b`.
fn precedes(keys: &Vec<Measure>, ascending: bool, a: usize, b: usize) -> (r: bool)
    requires
        all_sound(keys@),
        a < keys@.len(),
        b < keys@.len(),
    ensures
        r == row_before(keys@, ascending, a as int, b as int),
{
    let (x, y): (Measure, Measure) = (keys[a], keys[b]);
    match (x, y) {
        (Measure::Null, Measure::Null) => a < b,
        (Measure::Null, _) => false,
        (_, Measure::Null) => true,
        _ => if is_below(x, y) {
            ascending
        } else if is_below(y, x) {
            !ascending
        } else {
            a < b
        },
    }
}

/// Merges two orders of adjacent ranges.
fn merge_orders(
    keys: &Vec<Measure>,
    ascending: bool,
    left: Vec<usize>,
    right: Vec<usize>,
    Ghost(lo): Ghost<int>,
    Ghost(mid): Ghost<int>,
    Ghost(hi): Ghost<int>,
) -> (order: Vec<usize>)
    requires
        0 <= lo <= mid <= hi <= keys@.len(),
        all_sound(keys@),
        is_order(keys@, ascending, lo, mid, left@),
        is_order(keys@, ascending, mid, hi, right@),
    ensures
        is_order(keys@, ascending, lo, hi, order@),
{
    let mut order: Vec<usize> = Vec::new();
    let mut i: usize = 0;
    let mut j: usize = 0;
    while i < left.len() || j < right.len()
        invariant
            0 <= lo <= mid <= hi <= keys@.len(),
            all_sound(keys@),
            is_order(keys@, ascending, lo, mid, left@),
            is_order(keys@, ascending, mid, hi, right@),
            i <= left@.len(),
            j <= right@.len(),
            order@.len() == i + j,
            forall|k: int| 0 <= k < order@.len() ==> lo <= #[trigger] order@[k] < hi,
            forall|k: int, l: int|
                0 <= k < l < order@.len() ==> row_before(
                    keys@,
                    ascending,
                    #[trigger] order@[k] as int,
                    #[trigger] order@[l] as int,
                ),
            forall|k: int, l: int|
                0 <= k < order@.len() && i <= l < left@.len() ==> row_before(
                    keys@,
                    ascending,
                    #[trigger] order@[k] as int,
                    #[trigger] left@[l] as int,
                ),
            forall|k: int, l: int|
                0 <= k < order@.len() && j <= l < right@.len() ==> row_before(
                    keys@,
                    ascending,
                    #[trigger] order@[k] as int,
                    #[trigger] right@[l] as int,
                ),
        decreases left@.len() - i + right@.len() - j,
    {
        if j == right.len() || (i < left.len() && precedes(keys, ascending, left[i], right[j])) {
            proof {
                assert forall|l: int| j <= l < right@.len() implies row_before(
                    keys@,
                    ascending,
                    left@[i as int] as int,
                    #[trigger] right@[l] as int,
                ) by {
                    assert(row_before(keys@, ascending, left@[i as int] as int, right@[j as int] as int));
                    if l > j {
                        assert(row_before(keys@, ascending, right@[j as int] as int, right@[l] as int));
                        lemma_before_order(
                            keys@,
                            ascending,
                            left@[i as int] as int,
                            right@[j as int] as int,
                            right@[l] as int,
                        );
                    }
                }
            }
            order.push(left[i]);
            i = i + 1;
        } else {
            proof {
                assert forall|l: int| i <= l < left@.len() implies row_before(
                    keys@,
                    ascending,
                    right@[j as int] as int,
                    #[trigger] left@[l] as int,
                ) by {
                    assert(left@[l] < mid <= right@[j as int]);
                    assert(!row_before(keys@, ascending, left@[i as int] as int, right@[j as int] as int));
                    lemma_before_order(
                        keys@,
                        ascending,
                        right@[j as int] as int,
                        left@[i as int] as int,
                        left@[l] as int,
                    );
                    if l > i {
                        assert(row_before(keys@, ascending, left@[i as int] as int, left@[l] as int));
                    }
                }
            }
            order.push(right[j]);
            j = j + 1;
        }
    }
    order
}

/// The rows from `lo` to `hi` in the order in which they are put.
fn order_rows(keys: &Vec<Measure>, ascending: bool, lo: usize, hi: usize) -> (order: Vec<usize>)
    requires
        all_sound(keys@),
        lo <= hi <= keys@.len(),
    ensures
        is_order(keys@, ascending, lo as int, hi as int, order@),
    decreases hi - lo,
{
    if hi - lo <= 1 {
        let mut order: Vec<usize> = Vec::new();
        if lo < hi {
            order.push(lo);
        }
        order
    } else {
        let mid: usize = lo + (hi - lo) / 2;
        let left = order_rows(keys, ascending, lo, mid);
        let right = order_rows(keys, ascending, mid, hi);
        merge_orders(
            keys,
            ascending,
            left,
            right,
            Ghost(lo as int),
            Ghost(mid as int),
            Ghost(hi as int),
        )
    }
}

/// The cells of all rows.
pub open spec fn row_views(rows: Seq<Vec<ResultCell>>) -> Seq<Seq<ResultCell>> {
    rows.map_values(|r: Vec<ResultCell>| r@)
}

/// What all rows are ordered by.
pub open spec fn sort_keys(rows: Seq<Seq<ResultCell>>, sort_col: int) -> Seq<Measure> {
    rows.map_values(|r: Seq<ResultCell>| r[sort_col].1)
}

/// The smaller of two numbers.
pub open spec fn min(a: int, b: int) -> int {
    if a <= b {
        a
    } else {
        b
    }
}

/// Whether `top` are the first `count` of `rows` in the given order.
pub open spec fn is_top(
    rows: Seq<Seq<ResultCell>>,
    count: int,
    sort_col: int,
    ascending: bool,
    top: Seq<Seq<ResultCell>>,
) -> bool {
    exists|order: Seq<usize>|
        {
            &&& #[trigger] is_order(
                sort_keys(rows, sort_col),
                ascending,
                0,
                rows.len() as int,
                order,
            )
            &&& top == Seq::new(count as nat, |i: int| rows[order[i] as int])
        }
}

/// Whether all rows have the sort column, and what is compared is sound.
pub open spec fn sortable(rows: Seq<Vec<ResultCell>>, sort_col: int) -> bool {
    forall|i: int|
        0 <= i < rows.len() ==> sort_col < (#[trigger] rows[i])@.len()
            && crate::scan::agg::measure::sound(rows[i]@[sort_col].1)
}

/// Puts the rows in the order of a column and keeps the first `limit` of them, if there is a limit;
/// otherwise keeps all rows as they are.
pub fn apply_topn(
    rows: Vec<Vec<ResultCell>>,
    limit: i64,
    sort_col: usize,
    ascending: bool,
) -> (top: Vec<Vec<ResultCell>>)
    requires
        limit > 0 ==> sortable(rows@, sort_col as int),
    ensures
        limit > 0 ==> is_top(
            row_views(rows@),
            min(limit as int, rows@.len() as int),
            sort_col as int,
            ascending,
            row_views(top@),
        ),
        limit <= 0 ==> top@ == rows@,
{
    if limit <= 0 {
        return rows;
    }
    let ghost views = row_views(rows@);
    let mut keys: Vec<Measure> = Vec::new();
    let mut i: usize = 0;
    while i < rows.len()
        invariant
            i <= rows@.len(),
            views == row_views(rows@),
            sortable(rows@, sort_col as int),
            keys@.len() == i,
            forall|k: int| 0 <= k < i ==> #[trigger] keys@[k] == sort_keys(
                views,
                sort_col as int,
            )[k],
            all_sound(keys@),
        decreases rows@.len() - i,
    {
        assert(views[i as int] == rows@[i as int]@);
        let key: Measure = rows[i][sort_col].1;
        keys.push(key);
        i = i + 1;
    }
    assert(keys@ =~= sort_keys(views, sort_col as int));
    let order = order_rows(&keys, ascending, 0, rows.len());
    let mut top: Vec<Vec<ResultCell>> = Vec::new();
    let count: usize = if rows.len() as i128 <= limit as i128 {
        rows.len()
    } else {
        limit as usize
    };
    let mut j: usize = 0;
    while j < count
        invariant
            j <= count <= rows@.len(),
            views == row_views(rows@),
            order@.len() == rows@.len(),
            forall|k: int| 0 <= k < order@.len() ==> #[trigger] order@[k] < rows@.len(),
            top@.len() == j,
            forall|k: int| 0 <= k < j ==> (#[trigger] top@[k])@ == views[order@[k] as int],
        decreases count - j,
    {
        let row = copy_row(&rows[order[j]]);
        assert(views[order@[j as int] as int] == rows@[order@[j as int] as int]@);
        top.push(row);
        j = j + 1;
    }
    proof {
        assert(row_views(top@) =~= Seq::new(count as nat, |k: int| views[order@[k] as int]));
        assert(is_order(
            sort_keys(views, sort_col as int),
            ascending,
            0,
            views.len() as int,
            order@,
        ));
    }
    top
}

/// A copy of a row.
fn copy_row(row: &Vec<ResultCell>) -> (copy: Vec<ResultCell>)
    ensures
        copy@ == row@,
{
    let mut copy: Vec<ResultCell> = Vec::new();
    let mut i: usize = 0;
    while i < row.len()
        invariant
            i <= row@.len(),
            copy@ == row@.take(i as int),
        decreases row@.len() - i,
    {
        copy.push(row[i]);
        i = i + 1;
        assert(copy@ =~= row@.take(i as int));
    }
    assert(copy@ =~= row@);
    copy
}

/// The cells of a row.
pub open spec fn plain_cells(row: Seq<ResultCell>) -> Seq<Cell> {
    row.map_values(|c: ResultCell| c.0)
}

/// The cells of a row.
pub fn strip_row(row: &Vec<ResultCell>) -> (cells: Vec<Cell>)
    ensures
        cells@ == plain_cells(row@),
{
    let mut cells: Vec<Cell> = Vec::new();
    let mut i: usize = 0;
    while i < row.len()
        invariant
            i <= row@.len(),
            cells@.len() == i,
            forall|k: int| 0 <= k < i ==> #[trigger] cells@[k] == row@[k].0,
        decreases row@.len() - i,
    {
        cells.push(row[i].0);
        i = i + 1;
    }
    assert(cells@ =~= plain_cells(row@));
    cells
}

// ---------------------------------------------------------------------------
// Laws
// ---------------------------------------------------------------------------

/// An order lists every row.
proof fn lemma_order_complete(
    keys: Seq<Measure>,
    ascending: bool,
    n: int,
    order: Seq<usize>,
    row: int,
)
    requires
        all_sound(keys),
        n <= keys.len(),
        is_order(keys, ascending, 0, n, order),
        0 <= row < n,
    ensures
        exists|k: int| 0 <= k < n && #[trigger] order[k] == row,
{
    let ints = order.map_values(|x: usize| x as int);
    assert forall|i: int, j: int|
        0 <= i < ints.len() && 0 <= j < ints.len() && i != j implies ints[i] != ints[j] by {
        lemma_before_order(
            keys,
            ascending,
            order[i] as int,
            order[j] as int,
            order[j] as int,
        );
        if i < j {
            assert(row_before(keys, ascending, order[i] as int, order[j] as int));
        } else {
            assert(row_before(keys, ascending, order[j] as int, order[i] as int));
        }
    }
    assert(ints.no_duplicates());
    ints.unique_seq_to_set();
    let range = vstd::set_lib::set_int_range(0, n);
    vstd::set_lib::lemma_int_range(0, n);
    assert(ints.to_set().subset_of(range)) by {
        assert forall|v: int| ints.to_set().contains(v) implies range.contains(v) by {
            let k = ints.index_of(v);
            assert(0 <= order[k] < n);
        }
    }
    vstd::set_lib::lemma_subset_equality(ints.to_set(), range);
    assert(ints.to_set().contains(row));
    let k = ints.index_of(row);
    assert(order[k] == row);
}

/// There is only one order, so that the top rows are determined.
pub proof fn law_order_unique(
    keys: Seq<Measure>,
    ascending: bool,
    n: int,
    one: Seq<usize>,
    other: Seq<usize>,
)
    requires
        0 <= n <= keys.len(),
        all_sound(keys),
        is_order(keys, ascending, 0, n, one),
        is_order(keys, ascending, 0, n, other),
    ensures
        one == other,
{
    assert forall|k: int| 0 <= k < n implies one[k] == other[k] by {
        lemma_order_agrees(keys, ascending, n, one, other, k);
    }
    assert(one =~= other);
}

/// Two orders agree in every place.
proof fn lemma_order_agrees(
    keys: Seq<Measure>,
    ascending: bool,
    n: int,
    one: Seq<usize>,
    other: Seq<usize>,
    k: int,
)
    requires
        0 <= k < n <= keys.len(),
        all_sound(keys),
        is_order(keys, ascending, 0, n, one),
        is_order(keys, ascending, 0, n, other),
    ensures
        one[k] == other[k],
    decreases k,
{
    assert forall|i: int| 0 <= i < k implies one[i] == other[i] by {
        lemma_order_agrees(keys, ascending, n, one, other, i);
    }
    if one[k] != other[k] {
        lemma_order_complete(keys, ascending, n, one, other[k] as int);
        let p = choose|p: int| 0 <= p < n && #[trigger] one[p] == other[k];
        if p < k {
            assert(row_before(keys, ascending, other[p] as int, other[k] as int));
        }
        assert(row_before(keys, ascending, one[k] as int, one[p] as int));
        lemma_order_complete(keys, ascending, n, other, one[k] as int);
        let q = choose|q: int| 0 <= q < n && #[trigger] other[q] == one[k];
        if q < k {
            assert(row_before(keys, ascending, one[q] as int, one[k] as int));
        }
        assert(row_before(keys, ascending, other[k] as int, other[q] as int));
        lemma_before_order(
            keys,
            ascending,
            one[k] as int,
            other[k] as int,
            other[k] as int,
        );
    }
}

/// Whether a row that is left out follows every row that is kept.
pub open spec fn follows_top(
    keys: Seq<Measure>,
    ascending: bool,
    order: Seq<usize>,
    limit: int,
    row: int,
) -> bool {
    forall|k: int|
        0 <= k < limit ==> row_before(keys, ascending, #[trigger] order[k] as int, row)
}

/// Whether a measure may stand before another one in a direction: nulls come last.
pub open spec fn in_direction(a: Measure, b: Measure, ascending: bool) -> bool {
    if b is Null {
        true
    } else if a is Null {
        false
    } else if ascending {
        !crate::scan::agg::measure::below(b, a)
    } else {
        !crate::scan::agg::measure::below(a, b)
    }
}

/// Whether neither of two measures comes before the other.
pub open spec fn same_place(a: Measure, b: Measure) -> bool {
    &&& a is Null <==> b is Null
    &&& !crate::scan::agg::measure::below(a, b)
    &&& !crate::scan::agg::measure::below(b, a)
}

/// The top rows come in the order of the column, nulls last; there are `limit` of them, or all rows
/// where there are no more; rows that the column does not tell apart keep their order; and every row
/// that is left out follows all of them.
pub proof fn law_topn(
    rows: Seq<Seq<ResultCell>>,
    limit: int,
    sort_col: int,
    ascending: bool,
    top: Seq<Seq<ResultCell>>,
)
    requires
        limit > 0,
        all_sound(sort_keys(rows, sort_col)),
        is_top(rows, min(limit, rows.len() as int), sort_col, ascending, top),
    ensures
        top.len() == if limit < rows.len() {
            limit
        } else {
            rows.len() as int
        },
        forall|i: int, j: int|
            #![trigger top[i], top[j]]
            0 <= i < j < top.len() ==> in_direction(
                top[i][sort_col].1,
                top[j][sort_col].1,
                ascending,
            ),
        exists|order: Seq<usize>|
            {
                &&& #[trigger] is_order(
                    sort_keys(rows, sort_col),
                    ascending,
                    0,
                    rows.len() as int,
                    order,
                )
                &&& top == Seq::new(top.len(), |i: int| rows[order[i] as int])
                &&& forall|i: int, j: int|
                    0 <= i < j < order.len() && same_place(
                        rows[order[i] as int][sort_col].1,
                        rows[order[j] as int][sort_col].1,
                    ) ==> #[trigger] order[i] < #[trigger] order[j]
                &&& forall|row: int|
                    0 <= row < rows.len() && !order.take(top.len() as int).contains(row as usize)
                        ==> #[trigger] follows_top(
                        sort_keys(rows, sort_col),
                        ascending,
                        order,
                        top.len() as int,
                        row,
                    )
            },
{
    let keys = sort_keys(rows, sort_col);
    let n = rows.len() as int;
    let count = min(limit, n);
    let order = choose|order: Seq<usize>|
        {
            &&& #[trigger] is_order(keys, ascending, 0, n, order)
            &&& top == Seq::new(count as nat, |i: int| rows[order[i] as int])
        };
    assert forall|i: int, j: int|
        #![trigger top[i], top[j]]
        0 <= i < j < top.len() implies in_direction(
        top[i][sort_col].1,
        top[j][sort_col].1,
        ascending,
    ) by {
        assert(row_before(keys, ascending, order[i] as int, order[j] as int));
        assert(keys[order[i] as int] == top[i][sort_col].1);
        assert(keys[order[j] as int] == top[j][sort_col].1);
        lemma_before_order(keys, ascending, order[i] as int, order[j] as int, order[j] as int);
    }
    assert forall|i: int, j: int|
        0 <= i < j < order.len() && same_place(
            rows[order[i] as int][sort_col].1,
            rows[order[j] as int][sort_col].1,
        ) implies #[trigger] order[i] < #[trigger] order[j] by {
        assert(row_before(keys, ascending, order[i] as int, order[j] as int));
        assert(keys[order[i] as int] == rows[order[i] as int][sort_col].1);
        assert(keys[order[j] as int] == rows[order[j] as int][sort_col].1);
    }
    assert forall|row: int|
        0 <= row < rows.len() && !order.take(count).contains(row as usize) implies #[trigger]
        follows_top(keys, ascending, order, count, row) by {
        lemma_order_complete(keys, ascending, n, order, row);
        let p = choose|p: int| 0 <= p < n && #[trigger] order[p] == row;
        if p < count {
            assert(order.take(count)[p] == row as usize);
        }
        assert forall|k: int| 0 <= k < count implies row_before(
            keys,
            ascending,
            #[trigger] order[k] as int,
            row,
        ) by {
            assert(row_before(keys, ascending, order[k] as int, order[p] as int));
        }
    }
}

/// Whether a group passes a single filter.
pub open spec fn passes_one(
    op: HavingOp,
    agg_idx: usize,
    const_val: i64,
    double: u64,
    results: Seq<ResultCell>,
) -> bool {
    passes(seq![HavingFilter { agg_idx, op, const_val }], seq![double], results)
}

/// HAVING comparisons agree with each other and with the order of the results. For a result that is
/// not null, `<` is being below the constant, `>` having the constant below, and `=` neither; `>=`
/// passes exactly if `<` does not, `<=` exactly if `>` does not, and `<>` exactly if `=` does not.
/// A null passes none of them.
pub proof fn law_having(
    agg_idx: usize,
    const_val: i64,
    double: u64,
    results: Seq<ResultCell>,
    op: HavingOp,
)
    requires
        agg_idx < results.len(),
        crate::scan::agg::measure::sound(results[agg_idx as int].1),
    ensures
        ({
            let m = results[agg_idx as int].1;
            let c = if m is Double {
                Measure::Double(double)
            } else {
                Measure::Ratio { sum: const_val as i128, count: 1 }
            };
            let lt = passes_one(HavingOp::Lt, agg_idx, const_val, double, results);
            let gt = passes_one(HavingOp::Gt, agg_idx, const_val, double, results);
            let le = passes_one(HavingOp::Le, agg_idx, const_val, double, results);
            let ge = passes_one(HavingOp::Ge, agg_idx, const_val, double, results);
            let eq = passes_one(HavingOp::Eq, agg_idx, const_val, double, results);
            let ne = passes_one(HavingOp::Ne, agg_idx, const_val, double, results);
            &&& !(m is Null) ==> {
                &&& lt <==> crate::scan::agg::measure::below(m, c)
                &&& gt <==> crate::scan::agg::measure::below(c, m)
                &&& eq <==> !crate::scan::agg::measure::below(m, c)
                    && !crate::scan::agg::measure::below(c, m)
                &&& ge <==> !lt
                &&& le <==> !gt
                &&& ne <==> !eq
            }
            &&& m is Null ==> !passes_one(op, agg_idx, const_val, double, results)
        }),
{
    lemma_passes_one(HavingOp::Lt, agg_idx, const_val, double, results);
    lemma_passes_one(HavingOp::Gt, agg_idx, const_val, double, results);
    lemma_passes_one(HavingOp::Le, agg_idx, const_val, double, results);
    lemma_passes_one(HavingOp::Ge, agg_idx, const_val, double, results);
    lemma_passes_one(HavingOp::Eq, agg_idx, const_val, double, results);
    lemma_passes_one(HavingOp::Ne, agg_idx, const_val, double, results);
    lemma_passes_one(op, agg_idx, const_val, double, results);
}

/// A group passes a single filter if the filter holds.
proof fn lemma_passes_one(
    op: HavingOp,
    agg_idx: usize,
    const_val: i64,
    double: u64,
    results: Seq<ResultCell>,
)
    ensures
        passes_one(op, agg_idx, const_val, double, results) == filter_holds(
            HavingFilter { agg_idx, op, const_val },
            double,
            results,
        ),
{
    let f = HavingFilter { agg_idx, op, const_val };
    let filters = seq![f];
    assert(filters[0] == f && seq![double][0] == double);
    if passes(filters, seq![double], results) {
        assert(filter_holds(filters[0], seq![double][0], results));
    }
}

/// A group passes a list of filters exactly if it passes each of them by itself.
pub proof fn law_having_all(
    filters: Seq<HavingFilter>,
    doubles: Seq<u64>,
    results: Seq<ResultCell>,
)
    requires
        doubles.len() == filters.len(),
    ensures
        passes(filters, doubles, results) <==> forall|i: int|
            #![trigger filters[i]]
            0 <= i < filters.len() ==> passes_one(
                filters[i].op,
                filters[i].agg_idx,
                filters[i].const_val,
                doubles[i],
                results,
            ),
{
    assert forall|i: int| 0 <= i < filters.len() implies passes_one(
        (#[trigger] filters[i]).op,
        filters[i].agg_idx,
        filters[i].const_val,
        doubles[i],
        results,
    ) == filter_holds(filters[i], doubles[i], results) by {
        let f = filters[i];
        lemma_passes_one(f.op, f.agg_idx, f.const_val, doubles[i], results);
    }
}

/// The result rows are those of the groups that pass the filters, in the order of the groups, and no
/// others: `kept` lists these groups. A column of a row is the result or the group value that the
/// output names.
pub proof fn law_result_rows(
    aggs: Seq<Vec<ResultCell>>,
    groups: Seq<Vec<ResultCell>>,
    filters: Seq<HavingFilter>,
    doubles: Seq<u64>,
    output: Seq<OutputEntry>,
    n: nat,
) -> (kept: Seq<int>)
    ensures
        ({
            let rows = rows_of_groups(aggs, groups, filters, doubles, output, n);
            &&& rows.len() == kept.len()
            &&& forall|k: int| 0 <= k < kept.len() ==> 0 <= #[trigger] kept[k] < n
            &&& forall|j: int, k: int|
                0 <= j < k < kept.len() ==> #[trigger] kept[j] < #[trigger] kept[k]
            &&& forall|g: int|
                0 <= g < n ==> (kept.contains(g) <==> passes(
                    filters,
                    doubles,
                    (#[trigger] aggs[g])@,
                ))
            &&& forall|k: int|
                0 <= k < kept.len() ==> (#[trigger] rows[k]).len() == output.len()
            &&& forall|k: int, c: int, i: usize|
                #![trigger rows[k][c], aggs[kept[k]]@[i as int]]
                0 <= k < kept.len() && 0 <= c < output.len() && output[c] == OutputEntry::Agg(i)
                    ==> rows[k][c] == aggs[kept[k]]@[i as int]
            &&& forall|k: int, c: int, i: usize|
                #![trigger rows[k][c], groups[kept[k]]@[i as int]]
                0 <= k < kept.len() && 0 <= c < output.len() && output[c] == OutputEntry::Group(i)
                    ==> rows[k][c] == groups[kept[k]]@[i as int]
        }),
    decreases n,
{
    if n == 0 {
        Seq::empty()
    } else {
        let earlier = law_result_rows(aggs, groups, filters, doubles, output, (n - 1) as nat);
        let before = rows_of_groups(aggs, groups, filters, doubles, output, (n - 1) as nat);
        let rows = rows_of_groups(aggs, groups, filters, doubles, output, n);
        if passes(filters, doubles, aggs[n - 1]@) {
            let kept = earlier.push(n - 1);
            assert forall|g: int| 0 <= g < n implies (kept.contains(g) <==> passes(
                filters,
                doubles,
                (#[trigger] aggs[g])@,
            )) by {
                if g == n - 1 {
                    assert(kept[kept.len() - 1] == g);
                } else if earlier.contains(g) {
                    let k = earlier.index_of(g);
                    assert(kept[k] == g);
                } else if kept.contains(g) {
                    let k = kept.index_of(g);
                    assert(earlier[k] == g);
                }
            }
            assert forall|k: int| 0 <= k < before.len() implies rows[k] == before[k] by {}
            kept
        } else {
            assert forall|g: int| 0 <= g < n implies (earlier.contains(g) <==> passes(
                filters,
                doubles,
                (#[trigger] aggs[g])@,
            )) by {
                if g == n - 1 && earlier.contains(g) {
                    let k = earlier.index_of(g);
                    assert(earlier[k] == g);
                }
            }
            earlier
        }
    }
}

/// Without groups, the single row holds the aggregates that the output names, and a null where it
/// names a group.
pub proof fn law_scalar_row(output: Seq<OutputEntry>, aggs: Seq<Cell>, c: int, i: usize)
    requires
        0 <= c < output.len(),
    ensures
        ({
            let row = output.map_values(|e: OutputEntry| scalar_cell(e, aggs));
            &&& row.len() == output.len()
            &&& output[c] == OutputEntry::Agg(i) ==> row[c] == aggs[i as int]
            &&& output[c] == OutputEntry::Group(i) ==> row[c].1
        }),
{
}

/// The value of a group in a result row is that of its key: a null for a null, the text for a text,
/// and for a number the number, as a word or, from `extract`, in arbitrary precision.
pub proof fn law_group_values(v: i64, s: Seq<char>, is_extract: bool)
    ensures
        group_final(crate::scan::agg::group::KeyPart::Null, is_extract) is Null,
        group_final(crate::scan::agg::group::KeyPart::Text(s), is_extract)
            == crate::scan::agg::finalize::FinalModel::Text(s),
        group_final(crate::scan::agg::group::KeyPart::Int(v), true)
            == crate::scan::agg::finalize::FinalModel::Numeric(v as int),
        group_final(
            crate::scan::agg::group::KeyPart::Int(v),
            false,
        ) matches crate::scan::agg::finalize::FinalModel::Word(w) && crate::scan::datum::signed(w)
            == v,
{
}

} // verus!
