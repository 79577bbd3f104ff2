use pg_cocoon::scan::agg::accumulator::{AggExecSpec, AggExpr, AggType, Deferred};
use pg_cocoon::scan::agg::aggregate::Aggregation;
use pg_cocoon::scan::agg::assemble::{assemble_segment, segment_by_column};
use pg_cocoon::scan::agg::finalize::{numeric_input, FinalValue, NumericInput};
use pg_cocoon::scan::agg::plan::{GroupByColSpec, GroupByExpr};
use pg_cocoon::scan::agg::prepare::ColumnRoute;
use pg_cocoon::scan::agg::regex::{
    make_marker_cells, raw_dictionary_column, requests_readable, RegexCache, RegexCall,
};
use pg_cocoon::scan::agg::segment::SegmentColumns;
use pg_cocoon::scan::datum::{
    Cell, Datum, FLOAT4OID, FLOAT8OID, INT4OID, INT8OID, TEXTOID, TIMESTAMPTZOID,
};
use pg_cocoon::scan::text_col::SegTextColumn;

fn spec(agg_type: AggType, col_idx: i32, col_type_oid: u32) -> AggExecSpec {
    AggExecSpec { agg_type, col_idx, col_type_oid, expr_kind: AggExpr::Column, const_offset: 0 }
}

fn plus(agg_type: AggType, col_idx: i32, col_type_oid: u32, c: i64) -> AggExecSpec {
    AggExecSpec { agg_type, col_idx, col_type_oid, expr_kind: AggExpr::AddConst, const_offset: c }
}

fn by(col_idx: i32, type_oid: u32, expr: GroupByExpr) -> GroupByColSpec {
    GroupByColSpec { col_idx, type_oid, expr }
}

fn ints(values: &[Option<i64>]) -> Vec<Cell> {
    values
        .iter()
        .map(|v| match v {
            Some(v) => (Datum::from_i64(*v), false),
            None => (Datum::from_i64(0), true),
        })
        .collect()
}

fn segment(cells: Vec<Vec<Cell>>, row_count: usize) -> SegmentColumns {
    let columns = cells.len();
    SegmentColumns {
        row_count,
        cells,
        raw_strings: (0..columns).map(|_| None).collect(),
        texts: (0..columns).map(|_| None).collect(),
        lengths: vec![false; columns],
        seg_text: (0..columns).map(|_| None).collect(),
    }
}

fn word(v: &FinalValue) -> i64 {
    match v {
        FinalValue::Word(d) => d.to_i64(),
        _ => panic!("no word"),
    }
}

#[test]
fn aggregates_without_groups() {
    let specs = vec![
        spec(AggType::CountStar, -1, 0),
        spec(AggType::Count, 0, INT4OID),
        spec(AggType::Sum, 0, INT4OID),
        spec(AggType::Avg, 0, INT4OID),
        spec(AggType::CountDistinct, 0, INT4OID),
        spec(AggType::Min, 0, INT4OID),
        spec(AggType::Max, 0, INT4OID),
        plus(AggType::Sum, 0, INT8OID, 100),
    ];
    let mut agg = Aggregation::new(specs, vec![], vec![false]);
    let cache = RegexCache::new(1);
    let mut ops = vec![];
    let seg = segment(vec![ints(&[Some(3), None, Some(-5), Some(3)])], 4);
    agg.aggregate_segment(&seg, &cache, &[], &mut ops);
    assert!(ops.is_empty());
    assert_eq!(agg.rows(), 4);
    assert_eq!(agg.group_count(), 1);
    let r = agg.finalize_group(0);
    assert_eq!(word(&r[0]), 4);
    assert_eq!(word(&r[1]), 3);
    assert_eq!(word(&r[2]), 1);
    match r[3] {
        FinalValue::NumericQuotient { sum, count } => assert_eq!((sum, count), (1, 3)),
        _ => panic!("no quotient"),
    }
    assert_eq!(word(&r[4]), 2);
    assert_eq!(word(&r[5]), -5);
    assert_eq!(word(&r[6]), 3);
    match r[7] {
        FinalValue::Numeric(v) => assert_eq!(v, 301),
        _ => panic!("no numeric"),
    }
}

#[test]
fn aggregates_of_nothing_are_null() {
    let specs = vec![
        spec(AggType::CountStar, -1, 0),
        spec(AggType::Sum, 0, INT4OID),
        spec(AggType::Avg, 0, FLOAT8OID),
        spec(AggType::Min, 0, INT4OID),
        spec(AggType::Max, 0, TEXTOID),
        spec(AggType::Max, 0, FLOAT4OID),
        spec(AggType::CountDistinct, 0, TEXTOID),
    ];
    let agg = Aggregation::new(specs, vec![], vec![]);
    let r = agg.finalize_group(0);
    assert_eq!(word(&r[0]), 0);
    for i in 1..6 {
        assert!(matches!(r[i], FinalValue::Null));
    }
    assert_eq!(word(&r[6]), 0);
}

#[test]
fn selected_rows_only() {
    let mut agg = Aggregation::new(vec![spec(AggType::Sum, 0, INT4OID)], vec![], vec![false]);
    let cache = RegexCache::new(1);
    let mut ops = vec![];
    let seg = segment(vec![ints(&[Some(1), Some(2), Some(4)])], 3);
    agg.aggregate_segment(&seg, &cache, &[true, false, true], &mut ops);
    assert_eq!(agg.rows(), 2);
    assert_eq!(word(&agg.finalize_group(0)[0]), 5);
}

#[test]
fn many_sums_of_one_column_agree_with_single_ones() {
    let cells = ints(&[Some(10), None, Some(-3), Some(7)]);
    let cache = RegexCache::new(1);
    let mut many = Aggregation::new(
        vec![
            spec(AggType::Sum, 0, INT4OID),
            plus(AggType::Sum, 0, INT4OID, 5),
            plus(AggType::Avg, 0, INT4OID, -1),
        ],
        vec![],
        vec![false],
    );
    let mut ops = vec![];
    let selection = [true, true, true, false];
    many.aggregate_segment(&segment(vec![cells.clone()], 4), &cache, &selection, &mut ops);
    assert_eq!(many.rows(), 3);
    let r = many.finalize_group(0);
    assert_eq!(word(&r[0]), 7);
    assert_eq!(word(&r[1]), 17);
    match r[2] {
        FinalValue::NumericQuotient { sum, count } => assert_eq!((sum, count), (5, 2)),
        _ => panic!("no quotient"),
    }
    let mut single = Aggregation::new(vec![plus(AggType::Sum, 0, INT4OID, 5)], vec![], vec![false]);
    single.aggregate_segment(&segment(vec![cells], 4), &cache, &selection, &mut ops);
    assert_eq!(word(&single.finalize_group(0)[0]), 17);
}

#[test]
fn groups_hold_their_rows() {
    let specs = vec![spec(AggType::Sum, 1, INT4OID), spec(AggType::CountStar, -1, 0)];
    let groups = vec![by(0, INT4OID, GroupByExpr::Column)];
    let mut agg = Aggregation::new(specs, groups, vec![false, false]);
    let cache = RegexCache::new(1);
    let mut ops = vec![];
    let seg = segment(
        vec![
            ints(&[Some(7), None, Some(8), Some(7)]),
            ints(&[Some(1), Some(2), Some(4), Some(8)]),
        ],
        4,
    );
    agg.aggregate_segment(&seg, &cache, &[], &mut ops);
    agg.aggregate_segment(&seg, &cache, &[false, false, true, false], &mut ops);
    assert_eq!(agg.group_count(), 3);
    let sums: Vec<i64> = (0..3).map(|g| word(&agg.finalize_group(g)[0])).collect();
    let counts: Vec<i64> = (0..3).map(|g| word(&agg.finalize_group(g)[1])).collect();
    assert_eq!(sums, vec![9, 2, 8]);
    assert_eq!(counts, vec![2, 1, 2]);
    assert_eq!(word(&agg.group_values(0)[0]), 7);
    assert!(matches!(agg.group_values(1)[0], FinalValue::Null));
    assert_eq!(word(&agg.group_values(2)[0]), 8);
}

#[test]
fn groups_by_expressions() {
    let minute = 60_000_000;
    let groups = vec![
        by(
            0,
            TIMESTAMPTZOID,
            GroupByExpr::DateTrunc { unit: "minute".to_string(), unit_usecs: minute, func_oid: 0 },
        ),
        by(
            0,
            TIMESTAMPTZOID,
            GroupByExpr::Extract { unit: "second".to_string(), func_oid: 0 },
        ),
        by(1, INT4OID, GroupByExpr::AddConst { offset: -1, op_oid: 0 }),
        by(2, TEXTOID, GroupByExpr::Column),
    ];
    let mut agg =
        Aggregation::new(vec![spec(AggType::CountStar, -1, 0)], groups, vec![false; 3]);
    let cache = RegexCache::new(1);
    let mut seg = segment(
        vec![
            ints(&[Some(minute + 2_000_000), Some(-1), None]),
            ints(&[Some(10), Some(20), Some(30)]),
            ints(&[Some(0), Some(0), Some(0)]),
        ],
        3,
    );
    seg.seg_text[2] = Some(SegTextColumn::Dict {
        entries: vec!["x".to_string(), "y".to_string()],
        row_to_entry: vec![1, 0, u32::MAX],
    });
    let mut ops = vec![];
    agg.aggregate_segment(&seg, &cache, &[], &mut ops);
    assert_eq!(agg.group_count(), 3);
    let first = agg.group_values(0);
    assert_eq!(word(&first[0]), minute);
    assert!(matches!(first[1], FinalValue::Numeric(2)));
    assert_eq!(word(&first[2]), 9);
    match &first[3] {
        FinalValue::Text(s) => assert_eq!(s, "y"),
        _ => panic!("no text"),
    }
    let second = agg.group_values(1);
    assert_eq!(word(&second[0]), -minute);
    assert!(matches!(second[1], FinalValue::Numeric(59)));
    let third = agg.group_values(2);
    assert!(matches!(third[0], FinalValue::Null));
    assert!(matches!(third[3], FinalValue::Null));
    assert_eq!(word(&third[2]), 29);
}

#[test]
fn replaced_strings_are_asked_for_once() {
    let groups = vec![by(
        0,
        TEXTOID,
        GroupByExpr::RegexpReplace {
            pattern: "\\d".to_string(),
            replacement: "".to_string(),
            func_oid: 0,
            collation: 0,
        },
    )];
    let texts = ["a1", "b2", "a1", "a2"];
    let strings: Vec<Option<String>> =
        texts.iter().map(|s| Some(s.to_string())).chain([None]).collect();
    let mut seg = segment(vec![make_marker_cells(&strings)], 5);
    seg.raw_strings[0] = Some(strings);
    let mut cache = RegexCache::new(1);
    cache.record(0, "b2".to_string(), "b".to_string());
    let calls: Vec<RegexCall> = cache.calls_for_rows(&groups, &seg, &[]);
    let inputs: Vec<&str> = calls.iter().map(|c| c.input.as_str()).collect();
    assert_eq!(inputs, vec!["a1", "a2"]);
    assert!(calls.iter().all(|c| c.group == 0));
    for c in calls {
        let result = c.input[..1].to_string();
        cache.record(c.group, c.input, result);
    }
    assert_eq!((cache.calls(), cache.size()), (3, 3));
    assert!(cache.calls_for_rows(&groups, &seg, &[]).is_empty());
    let specs = vec![spec(AggType::CountStar, -1, 0), spec(AggType::Min, 0, TEXTOID), AggExecSpec {
        agg_type: AggType::Sum,
        col_idx: 0,
        col_type_oid: TEXTOID,
        expr_kind: AggExpr::LengthOf,
        const_offset: 0,
    }];
    let mut agg = Aggregation::new(specs, groups, vec![true]);
    let mut ops = vec![];
    agg.aggregate_segment(&seg, &cache, &[], &mut ops);
    assert_eq!(agg.group_count(), 3);
    let counts: Vec<i64> = (0..3).map(|g| word(&agg.finalize_group(g)[0])).collect();
    assert_eq!(counts, vec![3, 1, 1]);
    assert_eq!(word(&agg.finalize_group(0)[2]), 6);
    assert!(matches!(agg.finalize_group(2)[2], FinalValue::Null));
    // The minimum of texts is left to the executor, which offers them one by one.
    let offered: Vec<(usize, String)> = ops
        .into_iter()
        .map(|op| match op {
            Deferred::OfferText { slot, text } => (slot, text),
            _ => panic!("no text"),
        })
        .collect();
    assert_eq!(offered.len(), 4);
    assert_eq!(offered[0], (1, "a1".to_string()));
    assert_eq!(offered[1], (4, "b2".to_string()));
    for (slot, text) in offered {
        let collated = match agg.text_extremum(slot) {
            Some(cur) => text.as_str().cmp(cur) as i32,
            None => 0,
        };
        agg.offer_text(slot, text, collated);
    }
    match &agg.finalize_group(0)[1] {
        FinalValue::Text(s) => assert_eq!(s, "a1"),
        _ => panic!("no text"),
    }
}

#[test]
fn dictionary_entries_are_asked_for_once() {
    let groups = vec![
        by(3, TEXTOID, GroupByExpr::Column),
        by(
            3,
            TEXTOID,
            GroupByExpr::RegexpReplace {
                pattern: "x".to_string(),
                replacement: "".to_string(),
                func_oid: 0,
                collation: 0,
            },
        ),
    ];
    let mut cache = RegexCache::new(2);
    cache.record(1, "k".to_string(), "k".to_string());
    let calls = cache.calls_for_entries(&groups, 3, &vec!["a", "k", "a", "b"]);
    let asked: Vec<(usize, &str)> = calls.iter().map(|c| (c.group, c.input.as_str())).collect();
    assert_eq!(asked, vec![(1, "a"), (1, "b")]);
    assert!(cache.calls_for_entries(&groups, 2, &vec!["z"]).is_empty());
}

#[test]
fn raw_columns_from_a_dictionary() {
    let entries = vec!["", "a"];
    let col = raw_dictionary_column(&entries, &vec![1, 0], &[0b010], 3, true, vec![true, false]);
    assert_eq!(col.strings, vec![Some("a".to_string()), None, Some("".to_string())]);
    assert_eq!(col.selection, vec![true, false, false]);
    let nulls: Vec<bool> = col.cells.iter().map(|c| c.1).collect();
    assert_eq!(nulls, vec![false, true, false]);
    let col = raw_dictionary_column(&entries, &vec![1, 0], &[0b010], 3, true, vec![]);
    assert_eq!(col.selection, vec![true, false, true]);
    let col = raw_dictionary_column(&entries, &vec![1, 0], &[], 2, false, vec![]);
    assert_eq!(col.strings, vec![Some("a".to_string()), Some("".to_string())]);
    assert!(col.selection.is_empty());
}

#[test]
fn floating_point_work_is_left_to_the_executor() {
    let specs = vec![
        spec(AggType::Sum, 0, FLOAT8OID),
        spec(AggType::Min, 0, FLOAT8OID),
        spec(AggType::Max, 0, FLOAT4OID),
    ];
    let mut agg = Aggregation::new(specs, vec![], vec![false]);
    let cache = RegexCache::new(1);
    let mut ops = vec![];
    let cells: Vec<Cell> =
        [2.5f64, -1.0].iter().map(|v| (Datum { word: v.to_bits() }, false)).collect();
    agg.aggregate_segment(&segment(vec![cells], 2), &cache, &[], &mut ops);
    assert_eq!(ops.len(), 6);
    for op in ops {
        match op {
            Deferred::AddDatum { slot, datum, type_oid, offset } => {
                assert_eq!((slot, type_oid, offset), (0, FLOAT8OID, None));
                let sum = f64::from_bits(agg.float_sum(slot).unwrap());
                agg.set_float_sum(slot, (sum + f64::from_bits(datum.value())).to_bits());
            }
            Deferred::OfferDatum { slot, datum, .. } => {
                let v = f64::from_bits(datum.value());
                let beats = match agg.float_extremum(slot) {
                    Some(cur) if slot == 1 => v < f64::from_bits(cur),
                    Some(cur) => v > f64::from_bits(cur),
                    None => false,
                };
                agg.offer_float(slot, v.to_bits(), beats);
            }
            _ => panic!("another operation"),
        }
    }
    let r = agg.finalize_group(0);
    assert_eq!(f64::from_bits(word(&r[0]) as u64), 1.5);
    assert_eq!(f64::from_bits(word(&r[1]) as u64), -1.0);
    match r[2] {
        FinalValue::Narrowed(bits) => assert_eq!(f64::from_bits(bits), 2.5),
        _ => panic!("not narrowed"),
    }
}

#[test]
fn shared_floating_point_sums_are_one_operation() {
    let specs = vec![spec(AggType::Sum, 0, FLOAT8OID), plus(AggType::Avg, 0, FLOAT8OID, 3)];
    let mut agg = Aggregation::new(specs, vec![], vec![false]);
    let cache = RegexCache::new(1);
    let mut ops = vec![];
    let cells = vec![(Datum { word: 1.0f64.to_bits() }, false), (Datum { word: 0 }, true)];
    agg.aggregate_segment(&segment(vec![cells], 2), &cache, &[], &mut ops);
    match &ops[..] {
        [Deferred::AddTotals { terms, type_oid, count, targets }] => {
            assert_eq!(terms.len(), 1);
            assert_eq!((*type_oid, *count), (FLOAT8OID, 1));
            assert_eq!(targets, &vec![(0, 0), (1, 3)]);
        }
        _ => panic!("other operations"),
    }
    match agg.finalize_group(0)[1] {
        FinalValue::FloatQuotient { count, .. } => assert_eq!(count, 1),
        _ => panic!("no quotient"),
    }
}

#[test]
fn distinct_texts() {
    let mut agg =
        Aggregation::new(vec![spec(AggType::CountDistinct, 0, TEXTOID)], vec![], vec![false]);
    let cache = RegexCache::new(1);
    let mut seg = segment(vec![ints(&[Some(1), Some(2), Some(3), None])], 4);
    seg.texts[0] = Some(vec![
        Some("a".to_string()),
        Some("b".to_string()),
        Some("a".to_string()),
        None,
    ]);
    let mut ops = vec![];
    agg.aggregate_segment(&seg, &cache, &[], &mut ops);
    assert_eq!(word(&agg.finalize_group(0)[0]), 2);
}

#[test]
fn large_sums_become_decimal_text() {
    match numeric_input(-4) {
        NumericInput::Int8(d) => assert_eq!(d.to_i64(), -4),
        _ => panic!("no integer"),
    }
    match numeric_input(i64::MAX as i128 + 1) {
        NumericInput::Text(s) => assert_eq!(s, "9223372036854775808"),
        _ => panic!("no text"),
    }
}

#[test]
fn segments_that_lack_something_are_not_accepted() {
    let agg = Aggregation::new(vec![spec(AggType::Sum, 0, INT4OID)], vec![], vec![false]);
    let cache = RegexCache::new(1);
    let seg = segment(vec![ints(&[Some(1), Some(2)])], 2);
    assert!(agg.accepts(&seg, &cache, &[]));
    assert!(agg.accepts(&seg, &cache, &[true, false]));
    // Fewer selection flags than rows.
    assert!(!agg.accepts(&seg, &cache, &[true]));
    // Fewer cells than rows, unless the rows without them are not selected.
    let short = segment(vec![ints(&[Some(1)])], 2);
    assert!(!agg.accepts(&short, &cache, &[]));
    assert!(agg.accepts(&short, &cache, &[true, false]));
    // No such column.
    let agg = Aggregation::new(vec![spec(AggType::Sum, 1, INT4OID)], vec![], vec![false]);
    assert!(!agg.accepts(&seg, &cache, &[]));
}

#[test]
fn keys_out_of_range_are_not_accepted() {
    let cache = RegexCache::new(1);
    let count = spec(AggType::CountStar, -1, 0);
    let seg = segment(vec![ints(&[Some(i64::MIN)])], 1);
    let minute = GroupByExpr::DateTrunc {
        unit: "minute".to_string(),
        unit_usecs: 60_000_000,
        func_oid: 0,
    };
    let agg = Aggregation::new(vec![count], vec![by(0, TIMESTAMPTZOID, minute)], vec![false]);
    assert!(!agg.accepts(&seg, &cache, &[]));
    let before = GroupByExpr::AddConst { offset: -1, op_oid: 0 };
    let agg = Aggregation::new(vec![count], vec![by(0, INT8OID, before)], vec![false]);
    assert!(!agg.accepts(&seg, &cache, &[]));
    let plain = GroupByExpr::Column;
    let agg = Aggregation::new(vec![count], vec![by(0, INT8OID, plain)], vec![false]);
    assert!(agg.accepts(&seg, &cache, &[]));
}

#[test]
fn unknown_replacements_are_not_accepted() {
    let replace = GroupByExpr::RegexpReplace {
        pattern: "x".to_string(),
        replacement: "y".to_string(),
        func_oid: 1,
        collation: 2,
    };
    let agg = Aggregation::new(
        vec![spec(AggType::CountStar, -1, 0)],
        vec![by(0, TEXTOID, replace)],
        vec![true],
    );
    let strings = vec![Some("ax".to_string()), None];
    let mut seg = segment(vec![make_marker_cells(&strings)], 2);
    seg.raw_strings = vec![Some(strings)];
    let mut cache = RegexCache::new(1);
    assert!(!agg.accepts(&seg, &cache, &[]));
    cache.record(0, "ax".to_string(), "ay".to_string());
    assert!(agg.accepts(&seg, &cache, &[]));
}

fn replace(pattern: &str) -> GroupByExpr {
    GroupByExpr::RegexpReplace {
        pattern: pattern.to_string(),
        replacement: "".to_string(),
        func_oid: 1,
        collation: 2,
    }
}

#[test]
fn replacements_belong_to_their_expression() {
    let groups = || vec![by(0, TEXTOID, replace("a")), by(0, TEXTOID, replace("b"))];
    let mut cache = RegexCache::new(2);
    let calls = cache.calls_for_entries(&groups(), 0, &vec!["ab", "c"]);
    let asked: Vec<(usize, &str)> = calls.iter().map(|c| (c.group, c.input.as_str())).collect();
    assert_eq!(asked, vec![(0, "ab"), (0, "c"), (1, "ab"), (1, "c")]);
    cache.record(0, "ab".to_string(), "b".to_string());
    assert!(cache.contains(0, "ab"));
    assert!(!cache.contains(1, "ab"));
    assert_eq!(cache.get(1, "ab"), None);
    let strings = vec![Some("ab".to_string())];
    let mut seg = segment(vec![make_marker_cells(&strings)], 1);
    seg.raw_strings = vec![Some(strings)];
    let count = spec(AggType::CountStar, -1, 0);
    let mut agg = Aggregation::new(vec![count], groups(), vec![true]);
    assert!(!agg.accepts(&seg, &cache, &[]));
    cache.record(1, "ab".to_string(), "a".to_string());
    assert_eq!(cache.get(0, "ab"), Some("b"));
    assert_eq!(cache.get(1, "ab"), Some("a"));
    assert_eq!((cache.calls(), cache.size()), (2, 2));
    assert!(agg.accepts(&seg, &cache, &[]));
    agg.aggregate_segment(&seg, &cache, &[], &mut vec![]);
    let key = agg.group_values(0);
    assert!(matches!(&key[0], FinalValue::Text(s) if s == "b"));
    assert!(matches!(&key[1], FinalValue::Text(s) if s == "a"));
}

#[test]
fn segments_with_known_keys_are_accepted() {
    let text = "k".repeat(1000);
    let strings = SegTextColumn::Dict { entries: vec![text.clone()], row_to_entry: vec![0; 5000] };
    let mut seg = segment(vec![ints(&vec![Some(1); 5000])], 5000);
    seg.seg_text = vec![Some(strings)];
    let count = spec(AggType::CountStar, -1, 0);
    let groups = vec![by(0, TEXTOID, GroupByExpr::Column)];
    let mut agg = Aggregation::new(vec![count], groups, vec![false]);
    let cache = RegexCache::new(1);
    for round in 1..4 {
        assert!(agg.accepts(&seg, &cache, &[]));
        agg.aggregate_segment(&seg, &cache, &[], &mut vec![]);
        assert_eq!(agg.group_count(), 1);
        assert_eq!(word(&agg.finalize_group(0)[0]), 5000 * round);
    }
    assert_eq!(agg.rows(), 15_000);
}

#[test]
fn groups_hold_the_rows_of_all_segments() {
    let specs = vec![spec(AggType::CountStar, -1, 0), spec(AggType::Sum, 1, INT8OID)];
    let groups = vec![by(0, INT8OID, GroupByExpr::Column)];
    let mut agg = Aggregation::new(specs, groups, vec![false, false]);
    let cache = RegexCache::new(1);
    let first = segment(vec![ints(&[Some(1), Some(2)]), ints(&[Some(10), Some(20)])], 2);
    let second = segment(vec![ints(&[Some(2), None]), ints(&[Some(5), Some(7)])], 2);
    agg.aggregate_segment(&first, &cache, &[], &mut vec![]);
    agg.aggregate_segment(&second, &cache, &[], &mut vec![]);
    let results: Vec<(i64, FinalValue)> = (0..agg.group_count())
        .map(|g| {
            let mut r = agg.finalize_group(g);
            (word(&r[0]), r.remove(1))
        })
        .collect();
    assert_eq!(results.len(), 3);
    assert!(matches!(results[0], (1, FinalValue::Numeric(10))));
    assert!(matches!(results[1], (2, FinalValue::Numeric(25))));
    assert!(matches!(results[2], (1, FinalValue::Numeric(7))));
}

#[test]
fn strings_that_rows_ask_for() {
    let groups = vec![by(0, INT4OID, GroupByExpr::Column), by(1, TEXTOID, replace("a"))];
    let mut seg = segment(vec![ints(&[Some(1); 3]), ints(&[Some(1); 3])], 3);
    // No strings are held for the column.
    assert!(!requests_readable(&groups, &seg, &[]));
    assert!(requests_readable(&groups, &seg, &[false; 3]));
    seg.raw_strings[1] = Some(vec![Some("a".to_string()), None]);
    assert!(!requests_readable(&groups, &seg, &[]));
    assert!(requests_readable(&groups, &seg, &[true, true, false]));
    assert!(!requests_readable(&groups, &seg, &[false, false, true]));
    assert!(!requests_readable(&groups, &seg, &[true, true]));
    let missing = vec![by(2, TEXTOID, replace("a"))];
    assert!(!requests_readable(&missing, &seg, &[]));
    assert!(requests_readable(&missing, &seg, &[false, false, false]));
    assert!(requests_readable(&vec![], &seg, &[]));
}

fn length_of(agg_type: AggType) -> AggExecSpec {
    AggExecSpec {
        agg_type,
        col_idx: 0,
        col_type_oid: TEXTOID,
        expr_kind: AggExpr::LengthOf,
        const_offset: 0,
    }
}

/// The lengths of "abc", "", null and "\u{e9}t\u{e9}", aggregated in every way.
fn check_lengths(agg: &Aggregation) {
    let results = agg.finalize_group(0);
    assert_eq!(word(&results[0]), 6);
    assert!(matches!(results[1], FinalValue::NumericQuotient { sum: 6, count: 3 }));
    assert_eq!(word(&results[2]), 0);
    assert_eq!(word(&results[3]), 3);
    assert_eq!(word(&results[4]), 2);
    assert_eq!(word(&results[5]), 3);
}

fn length_specs() -> Vec<AggExecSpec> {
    vec![
        length_of(AggType::Sum),
        length_of(AggType::Avg),
        length_of(AggType::Min),
        length_of(AggType::Max),
        length_of(AggType::CountDistinct),
        length_of(AggType::Count),
    ]
}

fn measured() -> Vec<Option<String>> {
    vec![
        Some("abc".to_string()),
        Some("".to_string()),
        None,
        Some("\u{e9}t\u{e9}".to_string()),
    ]
}

#[test]
fn lengths_of_a_column_that_is_read_as_text() {
    // The cells are references to the strings; their words are of no account.
    let mut seg = segment(vec![ints(&[Some(7000), Some(8000), None, Some(9000)])], 4);
    let mut specs = length_specs();
    specs.push(spec(AggType::CountDistinct, 0, TEXTOID));
    let mut agg = Aggregation::new(specs, vec![], vec![false]);
    let cache = RegexCache::new(0);
    // The texts are needed for that.
    assert!(!agg.accepts(&seg, &cache, &[]));
    seg.texts[0] = Some(measured());
    assert!(agg.accepts(&seg, &cache, &[]));
    agg.aggregate_segment(&seg, &cache, &[], &mut vec![]);
    check_lengths(&agg);
    assert_eq!(word(&agg.finalize_group(0)[6]), 3);
}

#[test]
fn lengths_of_a_column_that_is_decoded_to_lengths() {
    let mut seg = segment(vec![ints(&[Some(3), Some(0), None, Some(3)])], 4);
    seg.lengths[0] = true;
    let mut agg = Aggregation::new(length_specs(), vec![], vec![false]);
    let cache = RegexCache::new(0);
    assert!(agg.accepts(&seg, &cache, &[]));
    agg.aggregate_segment(&seg, &cache, &[], &mut vec![]);
    check_lengths(&agg);
}

#[test]
fn lengths_of_raw_strings() {
    let strings = measured();
    let mut seg = segment(vec![make_marker_cells(&strings)], 4);
    seg.raw_strings[0] = Some(strings);
    let mut agg = Aggregation::new(length_specs(), vec![], vec![true]);
    let cache = RegexCache::new(0);
    agg.aggregate_segment(&seg, &cache, &[], &mut vec![]);
    check_lengths(&agg);
}

#[test]
fn segment_by_values_are_replaced() {
    let groups = || vec![by(0, TEXTOID, replace("u"))];
    let count = || vec![spec(AggType::CountStar, -1, 0), length_of(AggType::Sum)];
    let mut agg = Aggregation::new(count(), groups(), vec![true]);
    let mut cache = RegexCache::new(1);
    for value in ["eu", "us", "eu"] {
        let column = segment_by_column(
            (Datum::from_i64(7000), false),
            &Some(value.to_string()),
            2,
            true,
            false,
        );
        let routes = vec![ColumnRoute::SegmentBy(0)];
        let (seg, _) = assemble_segment(2, &routes, vec![column], vec![None]);
        for c in cache.calls_for_rows(&groups(), &seg, &[]) {
            let result = c.input.replace("u", "");
            cache.record(c.group, c.input, result);
        }
        assert!(agg.accepts(&seg, &cache, &[]));
        agg.aggregate_segment(&seg, &cache, &[], &mut vec![]);
    }
    assert_eq!(cache.calls(), 2);
    assert_eq!(agg.group_count(), 2);
    let key = |g: usize| match &agg.group_values(g)[0] {
        FinalValue::Text(s) => s.clone(),
        _ => panic!("no text"),
    };
    assert_eq!((key(0), word(&agg.finalize_group(0)[0])), ("e".to_string(), 4));
    assert_eq!((key(1), word(&agg.finalize_group(1)[0])), ("s".to_string(), 2));
    assert_eq!(word(&agg.finalize_group(0)[1]), 8);
    // Without its strings a row of the column is refused.
    let bare = segment(vec![ints(&[Some(7000)])], 1);
    assert!(!agg.accepts(&bare, &cache, &[]));
}
