use pg_cocoon::scan::agg::accumulator::{AggAccumulator, AggExecSpec, AggExpr, AggType, Deferred};
use pg_cocoon::scan::agg::finalize::{finalize_accumulator, FinalValue};
use pg_cocoon::scan::agg::metadata::{
    accumulate_metadata, catalog_answers, first_path, metadata_available, metadata_fast_path,
    metadata_fits, path_without_catalog, row_counts_fit, whole_table, AnswerPath, ColumnMinMax,
    ColumnSum, DistinctCounts, SegmentMeta,
};
use pg_cocoon::scan::agg::plan::parse_plan;
use pg_cocoon::scan::datum::{Datum, FLOAT8OID, INT4OID, INT8OID, TEXTOID};

fn spec(agg_type: AggType, col_idx: i32, col_type_oid: u32) -> AggExecSpec {
    AggExecSpec { agg_type, col_idx, col_type_oid, expr_kind: AggExpr::Column, const_offset: 0 }
}

fn sum(text: &str, datum: u64, count: i64) -> ColumnSum {
    ColumnSum {
        sum_null: count == 0,
        sum_text: text.to_string(),
        sum_datum: Datum { word: datum },
        nonnull_count: count,
    }
}

fn minmax(min: i64, max: i64) -> ColumnMinMax {
    ColumnMinMax {
        min_datum: Datum::from_i64(min),
        min_null: false,
        max_datum: Datum::from_i64(max),
        max_null: false,
    }
}

fn names() -> Vec<String> {
    vec!["a".to_string(), "f".to_string()]
}

/// Two segments of column `a`: 1, 2, null and -5; and one without rows.
fn segments() -> Vec<SegmentMeta> {
    let mut one = SegmentMeta::new(3);
    one.add_sum("a".to_string(), sum("3", 0, 2));
    one.add_minmax("a".to_string(), minmax(1, 2));
    one.add_sum("f".to_string(), sum("", 1.5f64.to_bits(), 3));
    let mut two = SegmentMeta::new(1);
    two.add_sum("a".to_string(), sum("-5", 0, 1));
    two.add_minmax("a".to_string(), minmax(-5, -5));
    two.add_sum("f".to_string(), sum("", 0, 0));
    let mut none = SegmentMeta::new(0);
    none.add_sum("a".to_string(), sum("99", 0, 9));
    none.add_minmax("a".to_string(), minmax(-99, 99));
    none.add_sum("f".to_string(), sum("", 0, 0));
    vec![one, two, none]
}

#[test]
fn aggregates_from_metadata() {
    let mut shifted = spec(AggType::Sum, 0, INT4OID);
    shifted.expr_kind = AggExpr::AddConst;
    shifted.const_offset = 10;
    let specs = vec![
        spec(AggType::CountStar, -1, 0),
        spec(AggType::Count, 0, INT4OID),
        spec(AggType::Sum, 0, INT4OID),
        shifted,
        spec(AggType::Avg, 0, INT8OID),
        spec(AggType::Min, 0, INT4OID),
        spec(AggType::Max, 0, INT4OID),
    ];
    let mut ops = vec![];
    let accs = accumulate_metadata(&specs, &names(), &segments(), &mut ops);
    assert!(ops.is_empty());
    let words: Vec<i64> = [0, 1, 2, 3, 5, 6]
        .iter()
        .map(|&i| match finalize_accumulator(&accs[i], &specs[i]) {
            FinalValue::Word(d) => d.to_i64(),
            _ => panic!("no word"),
        })
        .collect();
    assert_eq!(words, vec![4, 3, -2, 28, -5, 2]);
    match finalize_accumulator(&accs[4], &specs[4]) {
        FinalValue::NumericQuotient { sum, count } => assert_eq!((sum, count), (-2, 3)),
        _ => panic!("no quotient"),
    }
}

#[test]
fn stored_floating_point_sums_are_left_to_the_executor() {
    let specs = vec![spec(AggType::Sum, 1, FLOAT8OID)];
    let mut ops = vec![];
    let accs = accumulate_metadata(&specs, &names(), &segments(), &mut ops);
    match &ops[..] {
        [Deferred::AddStoredSum { slot, datum, offset, count }] => {
            assert_eq!((*slot, *offset, *count), (0, 0, 3));
            assert_eq!(f64::from_bits(datum.value()), 1.5);
        }
        _ => panic!("other operations"),
    }
    match &accs[0] {
        AggAccumulator::SumFloat { count, .. } => assert_eq!(*count, 3),
        _ => panic!("no sum"),
    }
}

#[test]
fn a_sum_that_is_no_integer_adds_nothing() {
    let mut seg = SegmentMeta::new(2);
    seg.add_sum("a".to_string(), sum("1.5", 0, 2));
    let specs = vec![spec(AggType::Sum, 0, INT4OID)];
    let mut ops = vec![];
    let accs = accumulate_metadata(&specs, &names(), &vec![seg], &mut ops);
    assert!(matches!(finalize_accumulator(&accs[0], &specs[0]), FinalValue::Null));
}

#[test]
fn metadata_may_be_missing() {
    let specs = vec![spec(AggType::Min, 0, INT4OID)];
    assert!(metadata_available(&specs, &names(), &segments()));
    assert!(metadata_available(&specs, &names(), &vec![]));
    assert!(!metadata_available(&specs, &names(), &vec![SegmentMeta::new(1)]));
    let specs = vec![spec(AggType::Max, 1, FLOAT8OID)];
    assert!(!metadata_available(&specs, &names(), &segments()));
    let specs = vec![spec(AggType::CountStar, -1, 0)];
    assert!(metadata_available(&specs, &names(), &vec![SegmentMeta::new(1)]));
}

#[test]
fn which_plans_metadata_can_answer() {
    // SUM(int4 col 0 + 1), MIN(text col 1).
    let plan = parse_plan(&[1, -1, 2, 0, 0, 20, 23, 2, 1, 5, 1, 25, 25, 0]).ok().unwrap();
    assert!(whole_table(&plan));
    assert!(metadata_fast_path(&plan));
    // SUM(length(col)).
    let plan = parse_plan(&[1, -1, 1, 0, 0, 20, 25, 1]).ok().unwrap();
    assert!(!metadata_fast_path(&plan));
    // AVG(col + 1).
    let plan = parse_plan(&[1, -1, 1, 3, 0, 20, 23, 2, 1]).ok().unwrap();
    assert!(!metadata_fast_path(&plan));
    // COUNT(DISTINCT col).
    let plan = parse_plan(&[1, -1, 1, 4, 0, 20, 23, 0]).ok().unwrap();
    assert!(!metadata_fast_path(&plan));
    // COUNT(*) GROUP BY col 0.
    let plan = parse_plan(&[1, -1, 1, 2, -1, 20, 0, 0, 1, 0, 23, 0]).ok().unwrap();
    assert!(!whole_table(&plan));
    assert!(!metadata_fast_path(&plan));
}

#[test]
fn where_answers_are_looked_for() {
    // COUNT(*).
    let plan = parse_plan(&[1, -1, 1, 2, -1, 20, 0, 0]).ok().unwrap();
    assert_eq!(first_path(&plan), AnswerPath::Catalog);
    assert_eq!(
        path_without_catalog(&plan),
        AnswerPath::Metadata { sums: false, minmax: false }
    );
    // SUM(int4 col 0), MAX(int4 col 0).
    let plan = parse_plan(&[1, -1, 2, 0, 0, 20, 23, 0, 6, 0, 23, 23, 0]).ok().unwrap();
    assert_eq!(first_path(&plan), AnswerPath::Catalog);
    assert_eq!(path_without_catalog(&plan), AnswerPath::Metadata { sums: true, minmax: true });
    // COUNT(DISTINCT col 0).
    let plan = parse_plan(&[1, -1, 1, 4, 0, 20, 23, 0]).ok().unwrap();
    assert_eq!(first_path(&plan), AnswerPath::Catalog);
    assert_eq!(path_without_catalog(&plan), AnswerPath::Scan);
    // COUNT(*) with a WHERE clause.
    let plan = parse_plan(&[1, -1, 1, 2, -1, 20, 0, 0, 0, 0, 0, 1, 40]).ok().unwrap();
    assert_eq!(first_path(&plan), AnswerPath::Scan);
    assert_eq!(path_without_catalog(&plan), AnswerPath::Scan);
}

#[test]
fn the_catalog_answers_counts() {
    let mut distinct = DistinctCounts::new();
    distinct.add_column("f".to_string(), 12);
    let specs = vec![spec(AggType::CountStar, -1, 0), spec(AggType::CountDistinct, 1, TEXTOID)];
    let cells = catalog_answers(&specs, &[Some(40)], &distinct, &names()).unwrap();
    assert_eq!(cells, vec![(Datum::from_i64(40), false), (Datum::from_i64(12), false)]);
    let stars = vec![spec(AggType::CountStar, -1, 0)];
    let cells = catalog_answers(&stars, &[Some(40), Some(2)], &distinct, &names()).unwrap();
    assert_eq!(cells, vec![(Datum::from_i64(42), false)]);
}

#[test]
fn the_catalog_may_not_know() {
    let mut distinct = DistinctCounts::new();
    distinct.add_column("f".to_string(), 12);
    let stars = vec![spec(AggType::CountStar, -1, 0)];
    assert!(catalog_answers(&stars, &[Some(40), None], &distinct, &names()).is_none());
    let column = vec![spec(AggType::CountDistinct, 1, TEXTOID)];
    assert!(catalog_answers(&column, &[Some(1), Some(1)], &distinct, &names()).is_none());
    let other = vec![spec(AggType::CountDistinct, 0, TEXTOID)];
    assert!(catalog_answers(&other, &[Some(1)], &distinct, &names()).is_none());
    let missing = vec![spec(AggType::CountDistinct, 7, TEXTOID)];
    assert!(catalog_answers(&missing, &[Some(1)], &distinct, &names()).is_none());
    let sums = vec![spec(AggType::Sum, 0, INT4OID)];
    assert!(catalog_answers(&sums, &[Some(1)], &distinct, &names()).is_none());
}

#[test]
fn row_counts_matter_where_they_are_added_up() {
    let mut distinct = DistinctCounts::new();
    distinct.add_column("f".to_string(), 12);
    let star = spec(AggType::CountStar, -1, 0);
    let column = spec(AggType::CountDistinct, 1, TEXTOID);
    let large = [Some(i64::MAX), Some(1)];
    assert!(!row_counts_fit(&vec![star], &large, &distinct, &names()));
    assert!(row_counts_fit(&vec![star], &[Some(i64::MAX), Some(-1)], &distinct, &names()));
    // A count that is not known ends the sum.
    let unknown = [Some(i64::MAX), None, Some(1)];
    assert!(row_counts_fit(&vec![star], &unknown, &distinct, &names()));
    assert!(catalog_answers(&vec![star], &unknown, &distinct, &names()).is_none());
    // Nothing is added up where no COUNT(*) is asked for, or where none is reached.
    assert!(row_counts_fit(&vec![column], &large, &distinct, &names()));
    assert!(catalog_answers(&vec![column], &large, &distinct, &names()).is_none());
    assert!(row_counts_fit(&vec![column, star], &large, &distinct, &names()));
    assert!(catalog_answers(&vec![column, star], &large, &distinct, &names()).is_none());
}

#[test]
fn stored_numbers_may_not_fit() {
    let with_sum = |rows: i32, text: &str, count: i64| {
        let mut seg = SegmentMeta::new(rows);
        seg.add_sum("a".to_string(), sum(text, 0, count));
        seg
    };
    let fits = |s: AggExecSpec, segs: Vec<SegmentMeta>| metadata_fits(&vec![s], &names(), &segs);
    let all = vec![spec(AggType::Sum, 0, INT4OID), spec(AggType::Min, 0, INT4OID)];
    assert!(metadata_fits(&all, &names(), &segments()));
    assert!(metadata_fits(&all, &names(), &vec![]));
    let count = spec(AggType::Count, 0, INT4OID);
    assert!(fits(count, vec![with_sum(1, "0", i64::MAX), with_sum(1, "0", 0)]));
    assert!(!fits(count, vec![with_sum(1, "0", i64::MAX), with_sum(1, "0", 1)]));
    // A segment without rows adds nothing.
    assert!(fits(count, vec![with_sum(1, "0", i64::MAX), with_sum(0, "0", 1)]));
    let total = spec(AggType::Sum, 0, INT8OID);
    let large = "170141183460469231731687303715884105727";
    assert!(fits(total, vec![with_sum(1, large, 1)]));
    assert!(fits(total, vec![with_sum(1, large, 1), with_sum(1, "-1", 1)]));
    assert!(!fits(total, vec![with_sum(1, large, 1), with_sum(1, "1", 1)]));
    let plus = AggExecSpec { expr_kind: AggExpr::AddConst, const_offset: 1, ..total };
    assert!(!fits(plus, vec![with_sum(1, large, 1)]));
    // What is no number, and the sums of an aggregate that reads none, do not matter.
    assert!(fits(total, vec![with_sum(1, "x", i64::MAX), with_sum(1, "y", i64::MAX)]));
    let star = spec(AggType::CountStar, -1, 0);
    assert!(fits(star, vec![with_sum(1, large, i64::MAX), with_sum(1, large, i64::MAX)]));
}
