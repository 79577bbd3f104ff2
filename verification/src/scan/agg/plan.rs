//! The aggregation plan, and how it is read from the integer list that a plan node carries.
//!
//! The list holds, one after the other:
//!
//! - the companion tables, up to a `-1`;
//! - the number of aggregates, and for each: function, column, result type, column type,
//!   expression kind, and the constant if the kind is 2;
//! - the number of group expressions, and for each: column, type, kind, and what the kind needs;
//! - the number of output columns, and for each: 0 for an aggregate or 1 for a group expression,
//!   and its number;
//! - the number of HAVING filters, and for each: aggregate, comparison, constant;
//! - the length of the serialized WHERE clause, and its bytes;
//! - the limit of the top rows, and, if it is positive, the sort column and whether it ascends.
//!
//! The list may end after any of these parts. A string is its length and its bytes.

use crate::scan::agg::accumulator::{AggExecSpec, AggExpr, AggType};
use crate::scan::agg::result::{HavingFilter, HavingOp, OutputEntry};
use crate::scan::agg::time::date_trunc_unit_to_usecs;
use crate::text;
use vstd::prelude::*;

verus! {

/// What rows are grouped by.
pub enum GroupByExpr {
    /// A column.
    Column,
    /// `regexp_replace` of a column.
    RegexpReplace { pattern: String, replacement: String, func_oid: u32, collation: u32 },
    /// `date_trunc` of a timestamp column.
    DateTrunc { unit: String, unit_usecs: i64, func_oid: u32 },
    /// `extract` from a timestamp column.
    Extract { unit: String, func_oid: u32 },
    /// A column plus a constant.
    AddConst { offset: i64, op_oid: u32 },
}

/// What rows are grouped by, as a mathematical value.
pub enum GroupExprModel {
    Column,
    RegexpReplace { pattern: Seq<char>, replacement: Seq<char>, func_oid: u32, collation: u32 },
    DateTrunc { unit: Seq<char>, unit_usecs: i64, func_oid: u32 },
    Extract { unit: Seq<char>, func_oid: u32 },
    AddConst { offset: i64, op_oid: u32 },
}

impl View for GroupByExpr {
    type V = GroupExprModel;

    open spec fn view(&self) -> GroupExprModel {
        match self {
            GroupByExpr::Column => GroupExprModel::Column,
            GroupByExpr::RegexpReplace {
                pattern,
                replacement,
                func_oid,
                collation,
            } => GroupExprModel::RegexpReplace {
                pattern: pattern@,
                replacement: replacement@,
                func_oid: *func_oid,
                collation: *collation,
            },
            GroupByExpr::DateTrunc { unit, unit_usecs, func_oid } => GroupExprModel::DateTrunc {
                unit: unit@,
                unit_usecs: *unit_usecs,
                func_oid: *func_oid,
            },
            GroupByExpr::Extract { unit, func_oid } => GroupExprModel::Extract {
                unit: unit@,
                func_oid: *func_oid,
            },
            GroupByExpr::AddConst { offset, op_oid } => GroupExprModel::AddConst {
                offset: *offset,
                op_oid: *op_oid,
            },
        }
    }
}

/// One group expression of a query.
pub struct GroupByColSpec {
    /// The column, from zero.
    pub col_idx: i32,
    pub type_oid: u32,
    pub expr: GroupByExpr,
}

/// One group expression, as a mathematical value.
pub struct GroupSpecModel {
    pub col_idx: i32,
    pub type_oid: u32,
    pub expr: GroupExprModel,
}

impl View for GroupByColSpec {
    type V = GroupSpecModel;

    open spec fn view(&self) -> GroupSpecModel {
        GroupSpecModel { col_idx: self.col_idx, type_oid: self.type_oid, expr: self.expr@ }
    }
}

/// The group expressions as mathematical values.
pub open spec fn group_views(specs: Seq<GroupByColSpec>) -> Seq<GroupSpecModel> {
    specs.map_values(|g: GroupByColSpec| g@)
}

/// The rows that are kept of the result: none are dropped without a limit.
#[derive(Clone, Copy, PartialEq, Eq, Structural, Debug)]
pub struct TopN {
    pub limit: i64,
    pub sort_col: usize,
    pub ascending: bool,
}

/// An aggregation plan.
pub struct AggPlan {
    pub companion_oids: Vec<u32>,
    pub agg_specs: Vec<AggExecSpec>,
    pub group_specs: Vec<GroupByColSpec>,
    pub output_map: Vec<OutputEntry>,
    pub having_filters: Vec<HavingFilter>,
    /// The bytes of the serialized WHERE clause, if there is one.
    pub where_quals: Option<Vec<u8>>,
    pub topn: TopN,
}

/// An aggregation plan as a mathematical value.
pub struct PlanModel {
    pub companion_oids: Seq<u32>,
    pub agg_specs: Seq<AggExecSpec>,
    pub group_specs: Seq<GroupSpecModel>,
    pub output_map: Seq<OutputEntry>,
    pub having_filters: Seq<HavingFilter>,
    pub where_quals: Option<Seq<u8>>,
    pub topn: TopN,
}

/// The bytes of an optional byte string.
pub open spec fn bytes_of(quals: Option<Vec<u8>>) -> Option<Seq<u8>> {
    match quals {
        Some(b) => Some(b@),
        None => None,
    }
}

impl View for AggPlan {
    type V = PlanModel;

    open spec fn view(&self) -> PlanModel {
        PlanModel {
            companion_oids: self.companion_oids@,
            agg_specs: self.agg_specs@,
            group_specs: group_views(self.group_specs@),
            output_map: self.output_map@,
            having_filters: self.having_filters@,
            where_quals: bytes_of(self.where_quals),
            topn: self.topn,
        }
    }
}

/// Why a list is no plan.
#[derive(Clone, Copy, PartialEq, Eq, Structural, Debug)]
pub enum PlanError {
    /// The list ends in the middle of a part, or holds a negative length.
    Truncated,
    /// There is no companion table.
    NoCompanions,
}

/// Whether the list has `n` items from `at` on.
pub open spec fn fits(list: Seq<i32>, at: int, n: int) -> bool {
    0 <= at && 0 <= n && at + n <= list.len()
}

// ---------------------------------------------------------------------------
// Companion tables
// ---------------------------------------------------------------------------

/// The position of the first `-1` at or after `at`, or the end of the list.
pub open spec fn sentinel(list: Seq<i32>, at: int) -> int
    decreases list.len() - at,
{
    if at >= list.len() || list[at] == -1 {
        at
    } else {
        sentinel(list, at + 1)
    }
}

/// The companion tables, and where the next part starts.
pub open spec fn oids_section(list: Seq<i32>) -> (Seq<u32>, int) {
    let end = sentinel(list, 0);
    (
        list.subrange(0, end).map_values(|v: i32| v as u32),
        if end < list.len() {
            end + 1
        } else {
            end
        },
    )
}

/// Reads the companion tables.
fn read_oids(list: &[i32]) -> (r: (Vec<u32>, usize))
    ensures
        oids_section(list@) == (r.0@, r.1 as int),
        r.1 <= list@.len(),
{
    let mut oids: Vec<u32> = Vec::new();
    let mut i: usize = 0;
    while i < list.len() && list[i] != -1
        invariant
            i <= list@.len(),
            sentinel(list@, 0) == sentinel(list@, i as int),
            oids@ == list@.subrange(0, i as int).map_values(|v: i32| v as u32),
        decreases list@.len() - i,
    {
        oids.push(list[i] as u32);
        i = i + 1;
        assert(oids@ =~= list@.subrange(0, i as int).map_values(|v: i32| v as u32));
    }
    if i < list.len() {
        (oids, i + 1)
    } else {
        (oids, i)
    }
}

// ---------------------------------------------------------------------------
// Aggregates
// ---------------------------------------------------------------------------

/// The aggregate function with a number.
pub open spec fn agg_type_of(v: i32) -> AggType {
    if v == 0 {
        AggType::Sum
    } else if v == 2 {
        AggType::CountStar
    } else if v == 3 {
        AggType::Avg
    } else if v == 4 {
        AggType::CountDistinct
    } else if v == 5 {
        AggType::Min
    } else if v == 6 {
        AggType::Max
    } else {
        AggType::Count
    }
}

/// The expression kind with a number.
pub open spec fn agg_expr_of(v: i32) -> AggExpr {
    if v == 1 {
        AggExpr::LengthOf
    } else if v == 2 {
        AggExpr::AddConst
    } else {
        AggExpr::Column
    }
}

/// The aggregate that stands at `at`, and where the next item stands.
pub open spec fn agg_at(list: Seq<i32>, at: int) -> Option<(AggExecSpec, int)> {
    if !fits(list, at, 5) || (list[at + 4] == 2 && !fits(list, at, 6)) {
        None
    } else {
        let with_const = list[at + 4] == 2;
        Some(
            (
                AggExecSpec {
                    agg_type: agg_type_of(list[at]),
                    col_idx: list[at + 1],
                    col_type_oid: list[at + 3] as u32,
                    expr_kind: agg_expr_of(list[at + 4]),
                    const_offset: if with_const {
                        list[at + 5] as i64
                    } else {
                        0
                    },
                },
                if with_const {
                    at + 6
                } else {
                    at + 5
                },
            ),
        )
    }
}

/// The first `n` aggregates from `at` on.
pub open spec fn aggs_at(list: Seq<i32>, at: int, n: nat) -> Option<(Seq<AggExecSpec>, int)>
    decreases n,
{
    if n == 0 {
        Some((Seq::empty(), at))
    } else {
        match aggs_at(list, at, (n - 1) as nat) {
            None => None,
            Some((specs, next)) => match agg_at(list, next) {
                None => None,
                Some((spec, end)) => Some((specs.push(spec), end)),
            },
        }
    }
}

/// The part of the aggregates; missing at the end of the list.
pub open spec fn aggs_section(list: Seq<i32>, at: int) -> Option<(Seq<AggExecSpec>, int)> {
    if at >= list.len() {
        Some((Seq::empty(), at))
    } else if list[at] < 0 {
        None
    } else {
        aggs_at(list, at + 1, list[at] as nat)
    }
}

/// Reads the aggregate that stands at `at`.
fn read_agg(list: &[i32], at: usize) -> (r: Option<(AggExecSpec, usize)>)
    requires
        at <= list@.len(),
    ensures
        match r {
            Some((spec, next)) => agg_at(list@, at as int) == Some((spec, next as int)) && next
                <= list@.len(),
            None => agg_at(list@, at as int) is None,
        },
{
    let len: usize = list.len();
    if len - at < 5 {
        return None;
    }
    let agg_type = match list[at] {
        0 => AggType::Sum,
        1 => AggType::Count,
        2 => AggType::CountStar,
        3 => AggType::Avg,
        4 => AggType::CountDistinct,
        5 => AggType::Min,
        6 => AggType::Max,
        _ => AggType::Count,
    };
    let col_idx: i32 = list[at + 1];
    let col_type_oid: u32 = list[at + 3] as u32;
    match list[at + 4] {
        1 => Some(
            (
                AggExecSpec {
                    agg_type,
                    col_idx,
                    col_type_oid,
                    expr_kind: AggExpr::LengthOf,
                    const_offset: 0,
                },
                at + 5,
            ),
        ),
        2 => {
            if len - at < 6 {
                return None;
            }
            Some(
                (
                    AggExecSpec {
                        agg_type,
                        col_idx,
                        col_type_oid,
                        expr_kind: AggExpr::AddConst,
                        const_offset: list[at + 5] as i64,
                    },
                    at + 6,
                ),
            )
        },
        _ => Some(
            (
                AggExecSpec {
                    agg_type,
                    col_idx,
                    col_type_oid,
                    expr_kind: AggExpr::Column,
                    const_offset: 0,
                },
                at + 5,
            ),
        ),
    }
}

/// Where fewer aggregates cannot be read, more cannot.
proof fn lemma_aggs_none(list: Seq<i32>, at: int, k: nat, n: nat)
    requires
        k <= n,
        aggs_at(list, at, k) is None,
    ensures
        aggs_at(list, at, n) is None,
    decreases n,
{
    if k < n {
        lemma_aggs_none(list, at, k, (n - 1) as nat);
    }
}

/// Reads the part of the aggregates.
fn read_aggs(list: &[i32], at: usize) -> (r: Option<(Vec<AggExecSpec>, usize)>)
    requires
        at <= list@.len(),
    ensures
        match r {
            Some((specs, next)) => aggs_section(list@, at as int) == Some((specs@, next as int))
                && next <= list@.len(),
            None => aggs_section(list@, at as int) is None,
        },
{
    let mut specs: Vec<AggExecSpec> = Vec::new();
    if at >= list.len() {
        return Some((specs, at));
    }
    if list[at] < 0 {
        return None;
    }
    let n: u32 = list[at] as u32;
    let mut next: usize = at + 1;
    let mut k: u32 = 0;
    while k < n
        invariant
            k <= n,
            n == list@[at as int],
            at < list@.len(),
            next <= list@.len(),
            aggs_at(list@, at + 1, k as nat) == Some((specs@, next as int)),
        decreases n - k,
    {
        match read_agg(list, next) {
            None => {
                proof {
                    lemma_aggs_none(list@, at + 1, (k + 1) as nat, n as nat);
                }
                return None;
            },
            Some((spec, end)) => {
                specs.push(spec);
                next = end;
            },
        }
        k = k + 1;
    }
    Some((specs, next))
}

// ---------------------------------------------------------------------------
// Strings
// ---------------------------------------------------------------------------

/// The bytes that `n` items from `at` on stand for.
pub open spec fn bytes_at(list: Seq<i32>, at: int, n: int) -> Seq<u8> {
    list.subrange(at, at + n).map_values(|v: i32| v as u8)
}

/// The string that stands at `at`, and where the next item stands.
pub open spec fn string_at(list: Seq<i32>, at: int) -> Option<(Seq<char>, int)> {
    if !fits(list, at, 1) || !fits(list, at + 1, list[at] as int) {
        None
    } else {
        Some((text::lossy_text(bytes_at(list, at + 1, list[at] as int)), at + 1 + list[at]))
    }
}

/// Reads `n` items from `at` on as bytes.
fn read_bytes(list: &[i32], at: usize, n: usize) -> (bytes: Vec<u8>)
    requires
        at + n <= list@.len(),
    ensures
        bytes@ == bytes_at(list@, at as int, n as int),
{
    let len: usize = list.len();
    let mut bytes: Vec<u8> = Vec::new();
    let mut i: usize = 0;
    while i < n
        invariant
            i <= n,
            at + n <= list@.len(),
            list@.len() == len,
            bytes@ == bytes_at(list@, at as int, i as int),
        decreases n - i,
    {
        bytes.push(list[at + i] as u8);
        i = i + 1;
        assert(bytes@ =~= bytes_at(list@, at as int, i as int));
    }
    bytes
}

/// Reads the string that stands at `at`.
fn read_string(list: &[i32], at: usize) -> (r: Option<(String, usize)>)
    requires
        at <= list@.len(),
    ensures
        match r {
            Some((s, next)) => string_at(list@, at as int) == Some((s@, next as int)) && next
                <= list@.len(),
            None => string_at(list@, at as int) is None,
        },
{
    let len: usize = list.len();
    if at == len || list[at] < 0 {
        return None;
    }
    let n: usize = list[at] as usize;
    if len - at - 1 < n {
        return None;
    }
    let bytes = read_bytes(list, at + 1, n);
    Some((text::from_utf8_lossy(bytes.as_slice()), at + 1 + n))
}

// ---------------------------------------------------------------------------
// Group expressions
// ---------------------------------------------------------------------------

/// What stands at `at` for a group expression of this kind, and where the next item stands.
pub open spec fn group_expr_at(list: Seq<i32>, tag: i32, at: int) -> Option<(GroupExprModel, int)> {
    if tag == 1 {
        if !fits(list, at, 2) {
            None
        } else {
            match string_at(list, at + 2) {
                None => None,
                Some((pattern, mid)) => match string_at(list, mid) {
                    None => None,
                    Some((replacement, end)) => Some(
                        (
                            GroupExprModel::RegexpReplace {
                                pattern,
                                replacement,
                                func_oid: list[at] as u32,
                                collation: list[at + 1] as u32,
                            },
                            end,
                        ),
                    ),
                },
            }
        }
    } else if tag == 2 {
        if !fits(list, at, 1) {
            None
        } else {
            match string_at(list, at + 1) {
                None => None,
                Some((unit, end)) => Some(
                    (
                        GroupExprModel::DateTrunc {
                            unit,
                            unit_usecs: crate::scan::agg::time::unit_width(unit),
                            func_oid: list[at] as u32,
                        },
                        end,
                    ),
                ),
            }
        }
    } else if tag == 3 {
        if !fits(list, at, 1) {
            None
        } else {
            match string_at(list, at + 1) {
                None => None,
                Some((unit, end)) => Some(
                    (GroupExprModel::Extract { unit, func_oid: list[at] as u32 }, end),
                ),
            }
        }
    } else if tag == 4 {
        if !fits(list, at, 2) {
            None
        } else {
            Some(
                (
                    GroupExprModel::AddConst {
                        offset: list[at] as i64,
                        op_oid: list[at + 1] as u32,
                    },
                    at + 2,
                ),
            )
        }
    } else {
        Some((GroupExprModel::Column, at))
    }
}

/// The group expression that stands at `at`, and where the next item stands.
pub open spec fn group_at(list: Seq<i32>, at: int) -> Option<(GroupSpecModel, int)> {
    if !fits(list, at, 3) {
        None
    } else {
        match group_expr_at(list, list[at + 2], at + 3) {
            None => None,
            Some((expr, end)) => Some(
                (
                    GroupSpecModel { col_idx: list[at], type_oid: list[at + 1] as u32, expr },
                    end,
                ),
            ),
        }
    }
}

/// The first `n` group expressions from `at` on.
pub open spec fn groups_at(list: Seq<i32>, at: int, n: nat) -> Option<(Seq<GroupSpecModel>, int)>
    decreases n,
{
    if n == 0 {
        Some((Seq::empty(), at))
    } else {
        match groups_at(list, at, (n - 1) as nat) {
            None => None,
            Some((specs, next)) => match group_at(list, next) {
                None => None,
                Some((spec, end)) => Some((specs.push(spec), end)),
            },
        }
    }
}

/// The part of the group expressions; missing at the end of the list.
pub open spec fn groups_section(list: Seq<i32>, at: int) -> Option<(Seq<GroupSpecModel>, int)> {
    if at >= list.len() {
        Some((Seq::empty(), at))
    } else if list[at] < 0 {
        None
    } else {
        groups_at(list, at + 1, list[at] as nat)
    }
}

/// Reads what stands at `at` for a group expression of this kind.
fn read_group_expr(list: &[i32], tag: i32, at: usize) -> (r: Option<(GroupByExpr, usize)>)
    requires
        at <= list@.len(),
    ensures
        match r {
            Some((expr, next)) => group_expr_at(list@, tag, at as int) == Some(
                (expr@, next as int),
            ) && next <= list@.len(),
            None => group_expr_at(list@, tag, at as int) is None,
        },
{
    let len: usize = list.len();
    if tag == 1 {
        if len - at < 2 {
            return None;
        }
        match read_string(list, at + 2) {
            None => None,
            Some((pattern, mid)) => match read_string(list, mid) {
                None => None,
                Some((replacement, end)) => Some(
                    (
                        GroupByExpr::RegexpReplace {
                            pattern,
                            replacement,
                            func_oid: list[at] as u32,
                            collation: list[at + 1] as u32,
                        },
                        end,
                    ),
                ),
            },
        }
    } else if tag == 2 {
        if len == at {
            return None;
        }
        match read_string(list, at + 1) {
            None => None,
            Some((unit, end)) => {
                let unit_usecs: i64 = date_trunc_unit_to_usecs(unit.as_str());
                Some((GroupByExpr::DateTrunc { unit, unit_usecs, func_oid: list[at] as u32 }, end))
            },
        }
    } else if tag == 3 {
        if len == at {
            return None;
        }
        match read_string(list, at + 1) {
            None => None,
            Some((unit, end)) => Some(
                (GroupByExpr::Extract { unit, func_oid: list[at] as u32 }, end),
            ),
        }
    } else if tag == 4 {
        if len - at < 2 {
            return None;
        }
        Some(
            (
                GroupByExpr::AddConst { offset: list[at] as i64, op_oid: list[at + 1] as u32 },
                at + 2,
            ),
        )
    } else {
        Some((GroupByExpr::Column, at))
    }
}

/// Reads the group expression that stands at `at`.
fn read_group(list: &[i32], at: usize) -> (r: Option<(GroupByColSpec, usize)>)
    requires
        at <= list@.len(),
    ensures
        match r {
            Some((spec, next)) => group_at(list@, at as int) == Some((spec@, next as int)) && next
                <= list@.len(),
            None => group_at(list@, at as int) is None,
        },
{
    let len: usize = list.len();
    if len - at < 3 {
        return None;
    }
    match read_group_expr(list, list[at + 2], at + 3) {
        None => None,
        Some((expr, end)) => Some(
            (GroupByColSpec { col_idx: list[at], type_oid: list[at + 1] as u32, expr }, end),
        ),
    }
}

/// Where fewer group expressions cannot be read, more cannot.
proof fn lemma_groups_none(list: Seq<i32>, at: int, k: nat, n: nat)
    requires
        k <= n,
        groups_at(list, at, k) is None,
    ensures
        groups_at(list, at, n) is None,
    decreases n,
{
    if k < n {
        lemma_groups_none(list, at, k, (n - 1) as nat);
    }
}

/// Reads the part of the group expressions.
fn read_groups(list: &[i32], at: usize) -> (r: Option<(Vec<GroupByColSpec>, usize)>)
    requires
        at <= list@.len(),
    ensures
        match r {
            Some((specs, next)) => groups_section(list@, at as int) == Some(
                (group_views(specs@), next as int),
            ) && next <= list@.len(),
            None => groups_section(list@, at as int) is None,
        },
{
    let mut specs: Vec<GroupByColSpec> = Vec::new();
    assert(group_views(specs@) =~= Seq::<GroupSpecModel>::empty());
    if at >= list.len() {
        return Some((specs, at));
    }
    if list[at] < 0 {
        return None;
    }
    let n: u32 = list[at] as u32;
    let mut next: usize = at + 1;
    let mut k: u32 = 0;
    while k < n
        invariant
            k <= n,
            n == list@[at as int],
            at < list@.len(),
            next <= list@.len(),
            groups_at(list@, at + 1, k as nat) == Some((group_views(specs@), next as int)),
        decreases n - k,
    {
        match read_group(list, next) {
            None => {
                proof {
                    lemma_groups_none(list@, at + 1, (k + 1) as nat, n as nat);
                }
                return None;
            },
            Some((spec, end)) => {
                let ghost before = group_views(specs@);
                specs.push(spec);
                assert(group_views(specs@) =~= before.push(spec@));
                next = end;
            },
        }
        k = k + 1;
    }
    Some((specs, next))
}

// ---------------------------------------------------------------------------
// Output columns
// ---------------------------------------------------------------------------

/// The output column that stands at `at`.
pub open spec fn output_at(list: Seq<i32>, at: int) -> OutputEntry {
    if list[at] == 0 {
        OutputEntry::Agg(list[at + 1] as usize)
    } else {
        OutputEntry::Group(list[at + 1] as usize)
    }
}

/// The part of the output columns; missing at the end of the list.
pub open spec fn outputs_section(list: Seq<i32>, at: int) -> Option<(Seq<OutputEntry>, int)> {
    if at >= list.len() {
        Some((Seq::empty(), at))
    } else if !fits(list, at + 1, 2 * list[at]) {
        None
    } else {
        Some(
            (
                Seq::new(list[at] as nat, |k: int| output_at(list, at + 1 + 2 * k)),
                at + 1 + 2 * list[at],
            ),
        )
    }
}

/// The output columns of a plan that names none: the aggregates, then the group expressions.
pub open spec fn default_output(aggs: nat, groups: nat) -> Seq<OutputEntry> {
    Seq::new(
        aggs + groups,
        |k: int|
            if k < aggs {
                OutputEntry::Agg(k as usize)
            } else {
                OutputEntry::Group((k - aggs) as usize)
            },
    )
}

/// Reads the part of the output columns.
fn read_outputs(list: &[i32], at: usize) -> (r: Option<(Vec<OutputEntry>, usize)>)
    requires
        at <= list@.len(),
    ensures
        match r {
            Some((output, next)) => outputs_section(list@, at as int) == Some(
                (output@, next as int),
            ) && next <= list@.len(),
            None => outputs_section(list@, at as int) is None,
        },
{
    let len: usize = list.len();
    let mut output: Vec<OutputEntry> = Vec::new();
    if at >= len {
        return Some((output, at));
    }
    if list[at] < 0 {
        return None;
    }
    let n: usize = list[at] as usize;
    if (len - at - 1) / 2 < n {
        return None;
    }
    let mut k: usize = 0;
    while k < n
        invariant
            k <= n,
            n == list@[at as int],
            list@.len() == len,
            at < len,
            at + 1 + 2 * n <= len,
            output@.len() == k,
            forall|j: int| 0 <= j < k ==> #[trigger] output@[j] == output_at(list@, at + 1 + 2 * j),
        decreases n - k,
    {
        let i: usize = at + 1 + 2 * k;
        let oref: usize = list[i + 1] as usize;
        if list[i] == 0 {
            output.push(OutputEntry::Agg(oref));
        } else {
            output.push(OutputEntry::Group(oref));
        }
        k = k + 1;
    }
    assert(output@ =~= Seq::new(
        list@[at as int] as nat,
        |k: int| output_at(list@, at + 1 + 2 * k),
    ));
    Some((output, at + 1 + 2 * n))
}

/// The output columns of a plan that names none.
fn make_default_output(aggs: usize, groups: usize) -> (output: Vec<OutputEntry>)
    ensures
        output@ == default_output(aggs as nat, groups as nat),
{
    let mut output: Vec<OutputEntry> = Vec::new();
    let mut i: usize = 0;
    while i < aggs
        invariant
            i <= aggs,
            output@ == default_output(i as nat, 0),
        decreases aggs - i,
    {
        output.push(OutputEntry::Agg(i));
        i = i + 1;
        assert(output@ =~= default_output(i as nat, 0));
    }
    let mut j: usize = 0;
    while j < groups
        invariant
            j <= groups,
            output@ == default_output(aggs as nat, j as nat),
        decreases groups - j,
    {
        output.push(OutputEntry::Group(j));
        j = j + 1;
        assert(output@ =~= default_output(aggs as nat, j as nat));
    }
    output
}

// ---------------------------------------------------------------------------
// Filters and the top rows
// ---------------------------------------------------------------------------

/// The comparison with a number.
pub open spec fn having_op_of(v: i32) -> HavingOp {
    if v == 1 {
        HavingOp::Lt
    } else if v == 2 {
        HavingOp::Ge
    } else if v == 3 {
        HavingOp::Le
    } else if v == 4 {
        HavingOp::Eq
    } else if v == 5 {
        HavingOp::Ne
    } else {
        HavingOp::Gt
    }
}

/// The HAVING filter that stands at `at`.
pub open spec fn having_at(list: Seq<i32>, at: int) -> HavingFilter {
    HavingFilter {
        agg_idx: list[at] as usize,
        op: having_op_of(list[at + 1]),
        const_val: list[at + 2] as i64,
    }
}

/// The part of the HAVING filters; missing at the end of the list.
pub open spec fn having_section(list: Seq<i32>, at: int) -> Option<(Seq<HavingFilter>, int)> {
    if at >= list.len() {
        Some((Seq::empty(), at))
    } else if !fits(list, at + 1, 3 * list[at]) {
        None
    } else {
        Some(
            (
                Seq::new(list[at] as nat, |k: int| having_at(list, at + 1 + 3 * k)),
                at + 1 + 3 * list[at],
            ),
        )
    }
}

/// The part of the WHERE clause; missing at the end of the list.
pub open spec fn where_section(list: Seq<i32>, at: int) -> Option<(Option<Seq<u8>>, int)> {
    if at >= list.len() {
        Some((None, at))
    } else if !fits(list, at + 1, list[at] as int) {
        None
    } else if list[at] == 0 {
        Some((None, at + 1))
    } else {
        Some((Some(bytes_at(list, at + 1, list[at] as int)), at + 1 + list[at]))
    }
}

/// No limit on the rows.
pub open spec fn no_limit() -> TopN {
    TopN { limit: 0, sort_col: 0, ascending: true }
}

/// The part of the top rows; missing at the end of the list.
pub open spec fn topn_section(list: Seq<i32>, at: int) -> Option<TopN> {
    if at >= list.len() || list[at] <= 0 {
        Some(no_limit())
    } else if !fits(list, at, 3) {
        None
    } else {
        Some(
            TopN {
                limit: list[at] as i64,
                sort_col: list[at + 1] as usize,
                ascending: list[at + 2] != 0,
            },
        )
    }
}

/// Reads the part of the HAVING filters.
fn read_having(list: &[i32], at: usize) -> (r: Option<(Vec<HavingFilter>, usize)>)
    requires
        at <= list@.len(),
    ensures
        match r {
            Some((filters, next)) => having_section(list@, at as int) == Some(
                (filters@, next as int),
            ) && next <= list@.len(),
            None => having_section(list@, at as int) is None,
        },
{
    let len: usize = list.len();
    let mut filters: Vec<HavingFilter> = Vec::new();
    if at >= len {
        return Some((filters, at));
    }
    if list[at] < 0 {
        return None;
    }
    let n: usize = list[at] as usize;
    if (len - at - 1) / 3 < n {
        return None;
    }
    let mut k: usize = 0;
    while k < n
        invariant
            k <= n,
            n == list@[at as int],
            list@.len() == len,
            at < len,
            at + 1 + 3 * n <= len,
            filters@.len() == k,
            forall|j: int|
                0 <= j < k ==> #[trigger] filters@[j] == having_at(list@, at + 1 + 3 * j),
        decreases n - k,
    {
        let i: usize = at + 1 + 3 * k;
        let op = match list[i + 1] {
            0 => HavingOp::Gt,
            1 => HavingOp::Lt,
            2 => HavingOp::Ge,
            3 => HavingOp::Le,
            4 => HavingOp::Eq,
            5 => HavingOp::Ne,
            _ => HavingOp::Gt,
        };
        filters.push(
            HavingFilter { agg_idx: list[i] as usize, op, const_val: list[i + 2] as i64 },
        );
        k = k + 1;
    }
    assert(filters@ =~= Seq::new(
        list@[at as int] as nat,
        |k: int| having_at(list@, at + 1 + 3 * k),
    ));
    Some((filters, at + 1 + 3 * n))
}

/// Reads the part of the WHERE clause.
fn read_where(list: &[i32], at: usize) -> (r: Option<(Option<Vec<u8>>, usize)>)
    requires
        at <= list@.len(),
    ensures
        match r {
            Some((quals, next)) => where_section(list@, at as int) == Some(
                (bytes_of(quals), next as int),
            ) && next <= list@.len(),
            None => where_section(list@, at as int) is None,
        },
{
    let len: usize = list.len();
    if at >= len {
        return Some((None, at));
    }
    if list[at] < 0 {
        return None;
    }
    let n: usize = list[at] as usize;
    if len - at - 1 < n {
        return None;
    }
    if n == 0 {
        Some((None, at + 1))
    } else {
        Some((Some(read_bytes(list, at + 1, n)), at + 1 + n))
    }
}

/// Reads the part of the top rows.
fn read_topn(list: &[i32], at: usize) -> (r: Option<TopN>)
    requires
        at <= list@.len(),
    ensures
        r == topn_section(list@, at as int),
{
    let len: usize = list.len();
    if at >= len || list[at] <= 0 {
        return Some(TopN { limit: 0, sort_col: 0, ascending: true });
    }
    if len - at < 3 {
        return None;
    }
    Some(
        TopN {
            limit: list[at] as i64,
            sort_col: list[at + 1] as usize,
            ascending: list[at + 2] != 0,
        },
    )
}

// ---------------------------------------------------------------------------
// The plan
// ---------------------------------------------------------------------------

/// The plan that a list holds, or `None` where it ends in the middle of a part.
pub open spec fn parsed_plan(list: Seq<i32>) -> Option<PlanModel> {
    let (companion_oids, at1) = oids_section(list);
    match aggs_section(list, at1) {
        None => None,
        Some((agg_specs, at2)) => match groups_section(list, at2) {
            None => None,
            Some((group_specs, at3)) => match outputs_section(list, at3) {
                None => None,
                Some((output, at4)) => match having_section(list, at4) {
                    None => None,
                    Some((having_filters, at5)) => match where_section(list, at5) {
                        None => None,
                        Some((where_quals, at6)) => match topn_section(list, at6) {
                            None => None,
                            Some(topn) => Some(
                                PlanModel {
                                    companion_oids,
                                    agg_specs,
                                    group_specs,
                                    output_map: if output.len() == 0 {
                                        default_output(agg_specs.len(), group_specs.len())
                                    } else {
                                        output
                                    },
                                    having_filters,
                                    where_quals,
                                    topn,
                                },
                            ),
                        },
                    },
                },
            },
        },
    }
}

/// Reads an aggregation plan.
pub fn parse_plan(list: &[i32]) -> (r: Result<AggPlan, PlanError>)
    ensures
        match r {
            Ok(plan) => parsed_plan(list@) == Some(plan@) && plan.companion_oids@.len() > 0,
            Err(PlanError::Truncated) => parsed_plan(list@) is None,
            Err(PlanError::NoCompanions) => parsed_plan(list@) is Some && (parsed_plan(
                list@,
            )->0).companion_oids.len() == 0,
        },
{
    let (companion_oids, at1) = read_oids(list);
    let (agg_specs, at2) = match read_aggs(list, at1) {
        Some(r) => r,
        None => return Err(PlanError::Truncated),
    };
    let (group_specs, at3) = match read_groups(list, at2) {
        Some(r) => r,
        None => return Err(PlanError::Truncated),
    };
    let (mut output_map, at4) = match read_outputs(list, at3) {
        Some(r) => r,
        None => return Err(PlanError::Truncated),
    };
    if output_map.is_empty() {
        output_map = make_default_output(agg_specs.len(), group_specs.len());
    }
    let (having_filters, at5) = match read_having(list, at4) {
        Some(r) => r,
        None => return Err(PlanError::Truncated),
    };
    let (where_quals, at6) = match read_where(list, at5) {
        Some(r) => r,
        None => return Err(PlanError::Truncated),
    };
    let topn = match read_topn(list, at6) {
        Some(r) => r,
        None => return Err(PlanError::Truncated),
    };
    let empty: bool = companion_oids.is_empty();
    let plan = AggPlan {
        companion_oids,
        agg_specs,
        group_specs,
        output_map,
        having_filters,
        where_quals,
        topn,
    };
    assert(parsed_plan(list@) == Some(plan@));
    if empty {
        return Err(PlanError::NoCompanions);
    }
    Ok(plan)
}

// ---------------------------------------------------------------------------
// Laws
// ---------------------------------------------------------------------------

/// Numbers that stand for nothing: an unknown aggregate counts, an unknown expression is a column,
/// an unknown comparison is `>`, and an unknown kind of group expression is a column.
pub proof fn law_unknown_numbers(v: i32, list: Seq<i32>, at: int)
    ensures
        v < 0 || v > 6 ==> agg_type_of(v) is Count,
        v < 0 || v > 2 ==> agg_expr_of(v) is Column,
        v < 0 || v > 5 ==> having_op_of(v) is Gt,
        v < 0 || v > 4 ==> (group_expr_at(list, v, at) matches Some((expr, end)) && expr is Column
            && end == at),
{
}

/// The parts that a list lacks at its end are empty: a list of tables alone is a plan without
/// aggregates, group expressions, filters, WHERE clause and limit.
pub proof fn law_missing_parts(list: Seq<i32>)
    requires
        forall|i: int| 0 <= i < list.len() ==> (#[trigger] list[i]) >= 0,
    ensures
        parsed_plan(list) matches Some(plan) && {
            &&& plan.companion_oids.len() == list.len()
            &&& forall|i: int| 0 <= i < list.len() ==> #[trigger] plan.companion_oids[i] == list[i]
            &&& plan.agg_specs.len() == 0
            &&& plan.group_specs.len() == 0
            &&& plan.output_map.len() == 0
            &&& plan.having_filters.len() == 0
            &&& plan.where_quals is None
            &&& plan.topn.limit == 0
        },
{
    lemma_no_sentinel(list, 0);
    assert(list.subrange(0, list.len() as int) =~= list);
    assert(default_output(0, 0).len() == 0);
}

/// A list without the mark has its sentinel at its end.
proof fn lemma_no_sentinel(list: Seq<i32>, at: int)
    requires
        0 <= at <= list.len(),
        forall|i: int| 0 <= i < list.len() ==> (#[trigger] list[i]) >= 0,
    ensures
        sentinel(list, at) == list.len(),
    decreases list.len() - at,
{
    if at < list.len() {
        lemma_no_sentinel(list, at + 1);
    }
}

/// A list that announces more than it holds is no plan: here, more aggregates than items that are
/// left, or a negative number of them.
pub proof fn law_truncated_lists(list: Seq<i32>, at: int, n: nat)
    requires
        0 <= at,
    ensures
        aggs_at(list, at, n) matches Some((specs, end)) ==> specs.len() == n && at + 5 * n <= end
            && (n > 0 ==> end <= list.len()),
        groups_at(list, at, n) matches Some((specs, end)) ==> specs.len() == n && at + 3 * n <= end
            && (n > 0 ==> end <= list.len()),
    decreases n,
{
    if n > 0 {
        law_truncated_lists(list, at, (n - 1) as nat);
    }
}

/// Output columns, filters and the WHERE clause are read only if the list holds as many items as
/// they announce; a limit that is not positive is none.
pub proof fn law_parts_held(list: Seq<i32>, at: int)
    requires
        0 <= at < list.len(),
    ensures
        outputs_section(list, at) is Some <==> list[at] >= 0 && at + 1 + 2 * list[at] <= list.len(),
        having_section(list, at) is Some <==> list[at] >= 0 && at + 1 + 3 * list[at] <= list.len(),
        where_section(list, at) is Some <==> list[at] >= 0 && at + 1 + list[at] <= list.len(),
        outputs_section(list, at) matches Some((output, end)) ==> output.len() == list[at] && end
            == at + 1 + 2 * list[at],
        having_section(list, at) matches Some((filters, end)) ==> filters.len() == list[at] && end
            == at + 1 + 3 * list[at],
        where_section(list, at) matches Some((quals, end)) ==> end == at + 1 + list[at] && (
        quals matches Some(bytes) ==> bytes.len() == list[at]) && (quals is None <==> list[at]
            == 0),
        list[at] <= 0 ==> (topn_section(list, at) matches Some(topn) && topn.limit == 0),
        list[at] > 0 ==> (topn_section(list, at) is Some <==> at + 3 <= list.len()),
        topn_section(list, at) matches Some(topn) ==> topn.limit <= 0 || topn.limit == list[at],
        list[at] < 0 ==> aggs_section(list, at) is None && groups_section(list, at) is None,
{
}

} // verus!
