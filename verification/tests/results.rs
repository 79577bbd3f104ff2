use pg_cocoon::scan::agg::accumulator::{AggExecSpec, AggExpr, AggType};
use pg_cocoon::scan::agg::assemble::{
    assemble_segment, segment_by_column, text_sources, ColumnOutcome, TextSource,
};
use pg_cocoon::scan::agg::finalize::FinalValue;
use pg_cocoon::scan::agg::measure::{
    is_below, kind_of_agg, kind_of_group, measure, rank_double, Measure, ValueKind,
};
use pg_cocoon::scan::agg::plan::{GroupByColSpec, GroupByExpr, TopN};
use pg_cocoon::scan::agg::prepare::{
    column_routes, length_columns, merge_selection, needed_columns, raw_string_columns,
    segment_pruned, text_group_columns, text_value_columns, BatchCompareOp, BatchQual, ColumnRoute,
};
use pg_cocoon::scan::agg::result::{
    apply_topn, grouped_rows, having_passes, output_row, scalar_row, HavingFilter, HavingOp,
    OutputEntry, ResultCell,
};
use pg_cocoon::scan::agg::state::{AggScanState, ScanCounters};
use pg_cocoon::scan::datum::{new_null, Cell, Datum, FLOAT4OID, FLOAT8OID, INT4OID, TEXTOID};

fn cell(v: i64) -> Cell {
    (Datum::from_i64(v), false)
}

/// An integer result.
fn whole(v: i64) -> ResultCell {
    (cell(v), Measure::Ratio { sum: v as i128, count: 1 })
}

/// A null result.
fn null() -> ResultCell {
    (new_null(), Measure::Null)
}

/// A result in double precision.
fn double(v: f64) -> ResultCell {
    ((Datum { word: v.to_bits() }, false), Measure::Double(v.to_bits()))
}

/// The exact average of some numbers; its cell is made by the executor.
fn average(sum: i128, count: i64) -> ResultCell {
    (cell(0), Measure::Ratio { sum, count })
}

fn filter(agg_idx: usize, op: HavingOp, const_val: i64) -> HavingFilter {
    HavingFilter { agg_idx, op, const_val }
}

fn passes(filters: &[HavingFilter], results: &[ResultCell]) -> bool {
    let doubles: Vec<u64> = filters.iter().map(|f| (f.const_val as f64).to_bits()).collect();
    having_passes(filters, &doubles, results)
}

fn column(rows: &[Vec<ResultCell>], col: usize) -> Vec<Option<i64>> {
    rows.iter().map(|r| if r[col].0 .1 { None } else { Some(r[col].0 .0.to_i64()) }).collect()
}

#[test]
fn having_compares_signed_numbers() {
    let results = [whole(-3), null()];
    assert!(passes(&[], &results));
    assert!(passes(&[filter(0, HavingOp::Lt, 0)], &results));
    assert!(passes(&[filter(0, HavingOp::Le, -3), filter(0, HavingOp::Ge, -3)], &results));
    assert!(passes(&[filter(0, HavingOp::Eq, -3)], &results));
    assert!(!passes(&[filter(0, HavingOp::Ne, -3)], &results));
    assert!(!passes(&[filter(0, HavingOp::Gt, -3)], &results));
    assert!(!passes(&[filter(1, HavingOp::Ne, 0)], &results));
}

#[test]
fn having_compares_numbers_of_their_type() {
    // An average of 2.5, a sum above 64 bits, and a negative floating-point number.
    let results = [average(5, 2), (cell(0), Measure::Ratio { sum: 1 << 70, count: 1 }), double(-0.5)];
    assert!(passes(&[filter(0, HavingOp::Gt, 2), filter(0, HavingOp::Lt, 3)], &results));
    assert!(!passes(&[filter(0, HavingOp::Eq, 2)], &results));
    assert!(passes(&[filter(1, HavingOp::Gt, i64::MAX)], &results));
    assert!(passes(&[filter(2, HavingOp::Lt, 0), filter(2, HavingOp::Gt, -1)], &results));
    assert!(!passes(&[filter(2, HavingOp::Ge, 0)], &results));
    assert!(passes(&[filter(0, HavingOp::Eq, 0)], &[double(-0.0)]));
    assert!(passes(&[filter(0, HavingOp::Eq, -4)], &[average(-12, 3)]));
}

#[test]
fn output_columns_come_as_asked() {
    let output = [OutputEntry::Group(0), OutputEntry::Agg(1), OutputEntry::Agg(0)];
    let row = output_row(&output, &[whole(1), whole(2)], &[whole(9)]);
    assert_eq!(row, vec![whole(9), whole(2), whole(1)]);
    let row = scalar_row(&output, &[cell(1), cell(2)]);
    assert_eq!(row, vec![new_null(), cell(2), cell(1)]);
}

#[test]
fn groups_that_fail_a_filter_are_left_out() {
    let aggs = vec![vec![whole(1)], vec![whole(5)], vec![null()], vec![whole(7)]];
    let groups = vec![vec![whole(10)], vec![whole(20)], vec![whole(30)], vec![whole(40)]];
    let output = [OutputEntry::Group(0), OutputEntry::Agg(0)];
    let three = [3f64.to_bits()];
    let rows = grouped_rows(&aggs, &groups, &[filter(0, HavingOp::Gt, 3)], &three, &output);
    assert_eq!(rows, vec![vec![whole(20), whole(5)], vec![whole(40), whole(7)]]);
    assert_eq!(grouped_rows(&aggs, &groups, &[], &[], &output).len(), 4);
}

#[test]
fn the_top_rows() {
    let rows = || vec![vec![whole(3)], vec![null()], vec![whole(-1)], vec![whole(2)]];
    let top = apply_topn(rows(), 2, 0, true);
    assert_eq!(column(&top, 0), vec![Some(-1), Some(2)]);
    let top = apply_topn(rows(), 3, 0, false);
    assert_eq!(column(&top, 0), vec![Some(3), Some(2), Some(-1)]);
    // Nulls come last in ascending order too.
    let top = apply_topn(rows(), 3, 0, true);
    assert_eq!(column(&top, 0), vec![Some(-1), Some(2), Some(3)]);
    // A limit that is not reached still puts the rows in order.
    let ascending = vec![Some(-1), Some(2), Some(3), None];
    assert_eq!(column(&apply_topn(rows(), 4, 0, true), 0), ascending);
    assert_eq!(column(&apply_topn(rows(), i64::MAX, 0, true), 0), ascending);
    let descending = vec![Some(3), Some(2), Some(-1), None];
    assert_eq!(column(&apply_topn(rows(), 10, 0, false), 0), descending);
    // Without a limit, rows stay as they are.
    assert_eq!(apply_topn(rows(), 0, 0, true), rows());
    assert_eq!(apply_topn(rows(), -1, 7, true), rows());
    assert!(apply_topn(vec![], 3, 0, true).is_empty());
}

#[test]
fn the_top_rows_by_their_type() {
    let rows = vec![vec![double(-1.0)], vec![double(2.5)], vec![double(-7.0)], vec![double(f64::NAN)]];
    let top: Vec<Measure> = apply_topn(rows.clone(), 2, 0, true).iter().map(|r| r[0].1).collect();
    assert_eq!(top, vec![double(-7.0).1, double(-1.0).1]);
    let top: Vec<Measure> = apply_topn(rows, 2, 0, false).iter().map(|r| r[0].1).collect();
    assert_eq!(top, vec![double(f64::NAN).1, double(2.5).1]);
    let rows = vec![vec![average(10, 4)], vec![average(7, 3)], vec![average(-1, 9)]];
    let top: Vec<Measure> = apply_topn(rows, 5, 0, false).iter().map(|r| r[0].1).collect();
    assert_eq!(top, vec![average(10, 4).1, average(7, 3).1, average(-1, 9).1]);
    // Equal keys: the largest integer is not taken for a null.
    let rows = vec![vec![null()], vec![whole(i64::MAX)]];
    assert_eq!(column(&apply_topn(rows, 1, 0, true), 0), vec![Some(i64::MAX)]);
    let rows = vec![vec![null()], vec![whole(i64::MIN)]];
    assert_eq!(column(&apply_topn(rows, 1, 0, false), 0), vec![Some(i64::MIN)]);
}

#[test]
fn equal_rows_keep_their_order() {
    let rows: Vec<Vec<ResultCell>> = (0..50).map(|i| vec![whole(i % 3), whole(i)]).collect();
    let top = apply_topn(rows, 20, 0, true);
    let expected: Vec<Option<i64>> =
        (0..50).step_by(3).map(Some).chain([1, 4, 7].map(Some)).collect();
    assert_eq!(column(&top, 1), expected);
}

#[test]
fn floating_point_numbers_are_ranked_by_their_bits() {
    let ordered =
        [f64::NEG_INFINITY, -3.5, -1e-300, 0.0, 5e-324, 1.0, 1.5, f64::MAX, f64::INFINITY, f64::NAN];
    for pair in ordered.windows(2) {
        assert!(rank_double(pair[0].to_bits()) < rank_double(pair[1].to_bits()));
    }
    assert_eq!(rank_double((-0.0f64).to_bits()), rank_double(0.0f64.to_bits()));
    assert_eq!(rank_double((-f64::NAN).to_bits()), rank_double(f64::NAN.to_bits()));
}

#[test]
fn measures_of_results() {
    let of = |v: FinalValue, kind: ValueKind, outside: u64| measure(&v, kind, outside);
    let word = |v: i64| FinalValue::Word(Datum::from_i64(v));
    let exactly = |v: i128| Measure::Ratio { sum: v, count: 1 };
    assert_eq!(of(FinalValue::Null, ValueKind::Integer, 9), Measure::Null);
    assert_eq!(of(word(-4), ValueKind::Integer, 9), exactly(-4));
    assert_eq!(of(word(-4), ValueKind::Double, 9), Measure::Double(-4i64 as u64));
    assert_eq!(of(word(-4), ValueKind::Single, 9), Measure::Double(9));
    assert_eq!(of(FinalValue::Numeric(1 << 90), ValueKind::Integer, 9), exactly(1 << 90));
    let avg = FinalValue::NumericQuotient { sum: 7, count: 2 };
    assert_eq!(of(avg, ValueKind::Integer, 9), Measure::Ratio { sum: 7, count: 2 });
    assert_eq!(of(FinalValue::Narrowed(3), ValueKind::Single, 9), Measure::Double(9));
    let quotient = FinalValue::FloatQuotient { bits: 3, count: 2 };
    assert_eq!(of(quotient, ValueKind::Double, 9), Measure::Double(9));
    assert_eq!(of(FinalValue::Text("b".to_string()), ValueKind::Integer, 5), exactly(5));
    assert!(is_below(exactly(2), Measure::Ratio { sum: 7, count: 3 }));
    assert!(!is_below(Measure::Ratio { sum: 7, count: 3 }, exactly(2)));
    assert!(is_below(
        Measure::Ratio { sum: -7, count: 3 },
        Measure::Ratio { sum: -2, count: i64::MAX }
    ));
    assert!(!is_below(exactly(i128::MIN), Measure::Null));
    assert!(is_below(
        Measure::Ratio { sum: i128::MIN, count: 1 },
        Measure::Ratio { sum: i128::MIN, count: 2 }
    ));
}

#[test]
fn kinds_follow_the_types_of_columns() {
    let kind = |t: AggType, oid: u32| kind_of_agg(&agg(t, 0, oid, AggExpr::Column));
    assert_eq!(kind(AggType::Sum, INT4OID), ValueKind::Integer);
    assert_eq!(kind(AggType::Min, FLOAT8OID), ValueKind::Double);
    assert_eq!(kind(AggType::Max, FLOAT4OID), ValueKind::Single);
    assert_eq!(kind(AggType::Count, FLOAT8OID), ValueKind::Integer);
    assert_eq!(kind(AggType::CountDistinct, FLOAT8OID), ValueKind::Integer);
    assert_eq!(
        kind_of_agg(&agg(AggType::Min, 0, TEXTOID, AggExpr::LengthOf)),
        ValueKind::Integer
    );
    let by = |type_oid: u32, expr: GroupByExpr| {
        kind_of_group(&GroupByColSpec { col_idx: 0, type_oid, expr })
    };
    assert_eq!(by(FLOAT8OID, GroupByExpr::Column), ValueKind::Double);
    assert_eq!(by(FLOAT4OID, GroupByExpr::Column), ValueKind::Single);
    assert_eq!(by(INT4OID, GroupByExpr::Column), ValueKind::Integer);
    assert_eq!(by(FLOAT8OID, GroupByExpr::AddConst { offset: 1, op_oid: 0 }), ValueKind::Integer);
}

fn counters() -> ScanCounters {
    ScanCounters {
        total_segments: 3,
        total_rows_processed: 50,
        batch_quals_count: 2,
        where_quals_null: false,
        regex_cache_size: 7,
        regex_cache_calls: 8,
    }
}

#[test]
fn result_rows_are_given_out_once() {
    let topn = TopN { limit: 0, sort_col: 0, ascending: true };
    let mut state =
        AggScanState::new(vec![vec![whole(2)], vec![whole(1)]], true, topn, counters());
    assert_eq!(state.row_total(), 2);
    assert_eq!(state.next_row(), Some(&vec![cell(2)]));
    assert_eq!(state.next_row(), Some(&vec![cell(1)]));
    assert_eq!(state.next_row(), None);
    assert_eq!(state.next_row(), None);
    state.rescan();
    assert_eq!(state.next_row(), Some(&vec![cell(2)]));
}

#[test]
fn a_limited_result_reports_its_groups() {
    let topn = TopN { limit: 2, sort_col: 0, ascending: false };
    let rows = || vec![vec![whole(2)], vec![whole(9)], vec![whole(5)]];
    let mut state = AggScanState::new(rows(), true, topn, counters());
    assert_eq!(state.row_total(), 2);
    assert_eq!(state.pre_topn_groups(), 3);
    assert_eq!(state.topn(), topn);
    assert_eq!(state.counters(), counters());
    assert_eq!(state.next_row(), Some(&vec![cell(9)]));
    assert_eq!(state.next_row(), Some(&vec![cell(5)]));
    assert_eq!(state.next_row(), None);
    assert_eq!(state.pre_topn_groups(), 3);
    // A result without groups is not limited, and a limit below one is reported as none.
    let state = AggScanState::new(rows(), false, topn, counters());
    assert_eq!((state.row_total(), state.pre_topn_groups()), (3, 3));
    let none = TopN { limit: -5, sort_col: 4, ascending: false };
    let state = AggScanState::new(rows(), true, none, counters());
    assert_eq!(state.topn(), TopN { limit: 0, sort_col: 4, ascending: false });
    assert_eq!(state.row_total(), 3);
}

#[test]
fn an_answer_from_metadata_is_one_row() {
    let mut state = AggScanState::answered(vec![cell(4), cell(6)], 12);
    assert_eq!((state.row_total(), state.pre_topn_groups()), (1, 0));
    assert_eq!(state.topn(), TopN { limit: 0, sort_col: 0, ascending: true });
    let counters = state.counters();
    assert_eq!(counters.total_segments, 12);
    assert_eq!((counters.regex_cache_size, counters.regex_cache_calls), (0, 0));
    assert_eq!((counters.batch_quals_count, counters.total_rows_processed), (0, 0));
    assert!(counters.where_quals_null);
    assert_eq!(state.next_row(), Some(&vec![cell(4), cell(6)]));
    assert_eq!(state.next_row(), None);
}

fn agg(agg_type: AggType, col_idx: i32, oid: u32, expr_kind: AggExpr) -> AggExecSpec {
    AggExecSpec { agg_type, col_idx, col_type_oid: oid, expr_kind, const_offset: 0 }
}

fn qual(col_idx: usize, op: BatchCompareOp, text: Option<&str>) -> BatchQual {
    BatchQual { col_idx, op, text_const: text.map(|s| s.to_string()) }
}

fn replaced(col_idx: i32) -> GroupByColSpec {
    GroupByColSpec {
        col_idx,
        type_oid: TEXTOID,
        expr: GroupByExpr::RegexpReplace {
            pattern: "a".to_string(),
            replacement: "b".to_string(),
            func_oid: 1,
            collation: 2,
        },
    }
}

#[test]
fn columns_that_are_read() {
    let specs = vec![
        agg(AggType::Sum, 1, TEXTOID, AggExpr::LengthOf),
        agg(AggType::CountStar, -1, 0, AggExpr::Column),
        agg(AggType::Min, 3, TEXTOID, AggExpr::Column),
    ];
    let groups = vec![
        GroupByColSpec { col_idx: 4, type_oid: TEXTOID, expr: GroupByExpr::Column },
        GroupByColSpec { col_idx: 0, type_oid: INT4OID, expr: GroupByExpr::Column },
        replaced(5),
    ];
    let quals = vec![qual(6, BatchCompareOp::Eq, None), qual(99, BatchCompareOp::Eq, None)];
    assert_eq!(
        needed_columns(&specs, &groups, &quals, 8),
        vec![true, true, false, true, true, true, true, false]
    );
    let flag = |i: usize| (0..8).map(|c| c == i).collect::<Vec<bool>>();
    assert_eq!(length_columns(&specs, 8), flag(1));
    assert_eq!(raw_string_columns(&groups, 8), flag(5));
    assert_eq!(text_group_columns(&groups, 8), flag(4));
    let mut routes = vec![ColumnRoute::Plain(0); 8];
    routes[1] = ColumnRoute::Lengths(1, false);
    assert_eq!(text_value_columns(&specs, &routes), flag(3));
}

#[test]
fn a_length_and_a_value_need_the_text() {
    let specs = vec![
        agg(AggType::Sum, 0, TEXTOID, AggExpr::LengthOf),
        agg(AggType::Count, 0, TEXTOID, AggExpr::Column),
    ];
    assert_eq!(length_columns(&specs, 1), vec![false]);
    assert_eq!(text_value_columns(&specs, &vec![ColumnRoute::Plain(0)]), vec![true]);
    assert_eq!(text_value_columns(&specs, &vec![ColumnRoute::SegmentBy(0)]), vec![true]);
    assert_eq!(text_value_columns(&specs, &vec![ColumnRoute::Lengths(0, true)]), vec![false]);
    // A count needs no text, not even of a length.
    let specs = vec![agg(AggType::Count, 0, TEXTOID, AggExpr::LengthOf)];
    assert_eq!(text_value_columns(&specs, &vec![ColumnRoute::Plain(0)]), vec![false]);
    let specs = vec![agg(AggType::Max, 0, TEXTOID, AggExpr::LengthOf)];
    assert_eq!(text_value_columns(&specs, &vec![ColumnRoute::Plain(0)]), vec![true]);
    assert_eq!(text_value_columns(&specs, &vec![ColumnRoute::Lengths(0, false)]), vec![false]);
}

#[test]
fn segments_are_skipped() {
    let values = vec![Some("eu".to_string()), None];
    let none = (None, None);
    let wants = |i: usize, s: &str| vec![(i, s.to_string())];
    assert!(segment_pruned(0, &values, &vec![], none, none));
    assert!(!segment_pruned(5, &values, &vec![], none, none));
    assert!(!segment_pruned(5, &values, &wants(0, "eu"), none, none));
    assert!(segment_pruned(5, &values, &wants(0, "us"), none, none));
    assert!(segment_pruned(5, &values, &wants(1, ""), none, none));
    let seg = (Some(100), Some(200));
    assert!(!segment_pruned(5, &values, &vec![], seg, (Some(200), None)));
    assert!(segment_pruned(5, &values, &vec![], seg, (Some(201), None)));
    assert!(!segment_pruned(5, &values, &vec![], seg, (None, Some(100))));
    assert!(segment_pruned(5, &values, &vec![], seg, (None, Some(99))));
    assert!(!segment_pruned(5, &values, &vec![], (Some(100), None), (Some(201), None)));
}

#[test]
fn routes_of_columns() {
    let names: Vec<String> = ["a", "s", "b", "c", "d", "e"].iter().map(|s| s.to_string()).collect();
    let segment_by = vec!["s".to_string()];
    let needed = vec![false, true, true, true, true, true];
    let raw = vec![false, false, true, false, false, false];
    let lengths = vec![false, false, false, true, false, false];
    let quals = vec![
        qual(2, BatchCompareOp::Ne, Some("")),
        qual(4, BatchCompareOp::Eq, Some("x")),
        qual(4, BatchCompareOp::NotLike, Some("y")),
    ];
    let routes = column_routes(&names, &segment_by, &needed, &raw, &lengths, &quals);
    assert_eq!(
        routes,
        vec![
            ColumnRoute::Skip,
            ColumnRoute::SegmentBy(0),
            ColumnRoute::RawStrings(1, true),
            ColumnRoute::Lengths(2, false),
            ColumnRoute::Like(3, 2),
            ColumnRoute::Plain(4),
        ]
    );
    let quals = vec![qual(5, BatchCompareOp::Ne, Some("x"))];
    let routes = column_routes(&names, &segment_by, &needed, &raw, &lengths, &quals);
    assert_eq!(routes[5], ColumnRoute::TextEq(4, 0));
    let groups = vec![false, true, false, false, true, false];
    assert_eq!(
        text_sources(&names, &segment_by, &needed, &groups),
        vec![
            TextSource::Unused,
            TextSource::SegmentBy(0),
            TextSource::Unused,
            TextSource::Unused,
            TextSource::Blob(3),
            TextSource::Unused,
        ]
    );
}

#[test]
fn filters_narrow_the_selection() {
    assert_eq!(merge_selection(vec![], vec![true, false]), vec![true, false]);
    assert_eq!(merge_selection(vec![true, false], vec![]), vec![true, false]);
    let a = vec![true, true, false];
    let b = vec![true, false, true];
    assert_eq!(merge_selection(a.clone(), b.clone()), vec![true, false, false]);
    assert_eq!(merge_selection(a.clone(), b.clone()), merge_selection(b, a));
}

#[test]
fn columns_are_put_together() {
    let outcome = |v: i64, selection: Vec<bool>| ColumnOutcome {
        cells: vec![cell(v), cell(v + 1)],
        raw_strings: None,
        texts: None,
        selection,
    };
    let routes =
        vec![ColumnRoute::Plain(0), ColumnRoute::Lengths(1, false), ColumnRoute::SegmentBy(0)];
    let (seg, selection) = assemble_segment(
        2,
        &routes,
        vec![outcome(1, vec![true, true]), outcome(5, vec![]), outcome(7, vec![false, true])],
        vec![None, None, None],
    );
    assert_eq!(seg.row_count, 2);
    assert_eq!(seg.cells.len(), 3);
    assert_eq!(seg.cells[2], vec![cell(7), cell(8)]);
    assert!(seg.raw_strings.iter().all(|r| r.is_none()));
    assert_eq!(seg.lengths, vec![false, true, false]);
    assert_eq!(selection, vec![false, true]);
}

#[test]
fn segment_by_columns_repeat_their_value() {
    let value = Some("eu".to_string());
    let column = segment_by_column(cell(7), &value, 2, true, false);
    assert_eq!(column.cells, vec![cell(7), cell(7)]);
    assert_eq!(column.raw_strings, Some(vec![value.clone(), value.clone()]));
    assert_eq!(column.texts, None);
    assert!(column.selection.is_empty());
    let column = segment_by_column(new_null(), &None, 3, false, true);
    assert_eq!(column.cells, vec![new_null(); 3]);
    assert_eq!(column.raw_strings, None);
    assert_eq!(column.texts, Some(vec![None, None, None]));
    assert!(segment_by_column(cell(7), &value, -1, true, true).cells.is_empty());
}
