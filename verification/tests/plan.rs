use pg_cocoon::scan::agg::accumulator::{AggExpr, AggType};
use pg_cocoon::scan::agg::plan::{parse_plan, GroupByExpr, PlanError};
use pg_cocoon::scan::agg::result::{HavingOp, OutputEntry};

fn bytes(s: &str) -> Vec<i32> {
    let mut v = vec![s.len() as i32];
    v.extend(s.bytes().map(|b| b as i32));
    v
}

#[test]
fn reads_a_full_plan() {
    // Two companion tables.
    let mut list = vec![1001, -2, -1];
    // SUM(col 2 + 7) and COUNT(*).
    list.extend([2, 0, 2, 20, 23, 2, 7, 2, -1, 20, 0, 0]);
    // Grouped by date_trunc('minute', col 0), regexp_replace(col 1) and col 3 - 1.
    list.extend([3, 0, 1184, 2, 2020]);
    list.extend(bytes("minute"));
    list.extend([1, 25, 1, 2285, 100]);
    list.extend(bytes("^x"));
    list.extend(bytes(""));
    list.extend([3, 23, 4, -1, 551]);
    // Output: the group, then the sum.
    list.extend([2, 1, 0, 0, 0]);
    // HAVING aggregate 1 >= 10.
    list.extend([1, 1, 2, 10]);
    // WHERE clause of three bytes.
    list.extend([3, 40, 41, 42]);
    // The ten largest by column 1.
    list.extend([10, 1, 0]);

    let plan = parse_plan(&list).ok().unwrap();
    assert_eq!(plan.companion_oids, vec![1001, u32::MAX - 1]);
    assert_eq!(plan.agg_specs.len(), 2);
    assert_eq!(plan.agg_specs[0].agg_type, AggType::Sum);
    assert_eq!(plan.agg_specs[0].col_idx, 2);
    assert_eq!(plan.agg_specs[0].col_type_oid, 23);
    assert_eq!(plan.agg_specs[0].expr_kind, AggExpr::AddConst);
    assert_eq!(plan.agg_specs[0].const_offset, 7);
    assert_eq!(plan.agg_specs[1].agg_type, AggType::CountStar);
    assert_eq!(plan.agg_specs[1].expr_kind, AggExpr::Column);
    assert_eq!(plan.group_specs.len(), 3);
    match &plan.group_specs[0].expr {
        GroupByExpr::DateTrunc { unit, unit_usecs, func_oid } => {
            assert_eq!(unit, "minute");
            assert_eq!(*unit_usecs, 60_000_000);
            assert_eq!(*func_oid, 2020);
        }
        _ => panic!("no date_trunc"),
    }
    match &plan.group_specs[1].expr {
        GroupByExpr::RegexpReplace { pattern, replacement, func_oid, collation } => {
            assert_eq!(pattern, "^x");
            assert_eq!(replacement, "");
            assert_eq!((*func_oid, *collation), (2285, 100));
        }
        _ => panic!("no regexp_replace"),
    }
    match &plan.group_specs[2].expr {
        GroupByExpr::AddConst { offset, op_oid } => assert_eq!((*offset, *op_oid), (-1, 551)),
        _ => panic!("no constant"),
    }
    assert_eq!(plan.output_map, vec![OutputEntry::Group(0), OutputEntry::Agg(0)]);
    assert_eq!(plan.having_filters.len(), 1);
    assert_eq!(plan.having_filters[0].agg_idx, 1);
    assert_eq!(plan.having_filters[0].op, HavingOp::Ge);
    assert_eq!(plan.having_filters[0].const_val, 10);
    assert_eq!(plan.where_quals, Some(vec![40, 41, 42]));
    assert_eq!((plan.topn.limit, plan.topn.sort_col, plan.topn.ascending), (10, 1, false));
}

#[test]
fn a_plan_may_end_early() {
    let plan = parse_plan(&[5, -1]).ok().unwrap();
    assert_eq!(plan.companion_oids, vec![5]);
    assert!(plan.agg_specs.is_empty() && plan.group_specs.is_empty());
    assert!(plan.output_map.is_empty() && plan.where_quals.is_none());
    assert_eq!((plan.topn.limit, plan.topn.sort_col, plan.topn.ascending), (0, 0, true));
}

#[test]
fn without_output_columns_aggregates_come_first() {
    // One COUNT, grouped by extract(hour) of column 4.
    let mut list = vec![5, -1, 1, 1, 3, 20, 23, 0, 1, 4, 1114, 3, 6203];
    list.extend(bytes("hour"));
    let plan = parse_plan(&list).ok().unwrap();
    assert_eq!(plan.output_map, vec![OutputEntry::Agg(0), OutputEntry::Group(0)]);
    match &plan.group_specs[0].expr {
        GroupByExpr::Extract { unit, func_oid } => {
            assert_eq!(unit, "hour");
            assert_eq!(*func_oid, 6203);
        }
        _ => panic!("no extract"),
    }
}

#[test]
fn unknown_numbers_have_defaults() {
    let plan = parse_plan(&[5, -1, 1, 99, 0, 0, 23, 9, 1, 0, 23, 9, 0, 1, 0, 99, 1]).ok().unwrap();
    assert_eq!(plan.agg_specs[0].agg_type, AggType::Count);
    assert_eq!(plan.agg_specs[0].expr_kind, AggExpr::Column);
    assert!(matches!(plan.group_specs[0].expr, GroupByExpr::Column));
    assert_eq!(plan.having_filters[0].op, HavingOp::Gt);
}

#[test]
fn a_list_without_companions_is_no_plan() {
    assert_eq!(parse_plan(&[]).err(), Some(PlanError::NoCompanions));
    assert_eq!(parse_plan(&[-1, 0, 0, 0]).err(), Some(PlanError::NoCompanions));
}

#[test]
fn a_list_that_ends_within_a_part_is_no_plan() {
    assert_eq!(parse_plan(&[5, -1, 1, 0, 2]).err(), Some(PlanError::Truncated));
    assert_eq!(parse_plan(&[5, -1, 1, 0, 2, 20, 23, 2]).err(), Some(PlanError::Truncated));
    assert_eq!(parse_plan(&[5, -1, -3]).err(), Some(PlanError::Truncated));
    assert_eq!(parse_plan(&[5, -1, 0, 1, 0, 1184, 2, 2020, 6, 109]).err(), Some(PlanError::Truncated));
    assert_eq!(parse_plan(&[5, -1, 0, 0, 2, 0, 0]).err(), Some(PlanError::Truncated));
    assert_eq!(parse_plan(&[5, -1, 0, 0, 0, 1, 0]).err(), Some(PlanError::Truncated));
    assert_eq!(parse_plan(&[5, -1, 0, 0, 0, 0, 4, 1]).err(), Some(PlanError::Truncated));
    assert_eq!(parse_plan(&[5, -1, 0, 0, 0, 0, 0, 3, 1]).err(), Some(PlanError::Truncated));
}

#[test]
fn ill_formed_strings_are_replaced() {
    let list = vec![5, -1, 0, 1, 0, 1184, 3, 6203, 2, 255, 104];
    let plan = parse_plan(&list).ok().unwrap();
    match &plan.group_specs[0].expr {
        GroupByExpr::Extract { unit, .. } => assert_eq!(unit, "\u{fffd}h"),
        _ => panic!("no extract"),
    }
}
