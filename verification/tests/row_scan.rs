use pg_cocoon::scan::datum::{new_null, Cell, Datum, INT4OID, TEXTOID, TIMESTAMPTZOID};
use pg_cocoon::scan::exec::{
    build_segments_query, list_column_work, list_row_items, row_count_ordinal, scan_columns,
    segment_data, ColumnInfo, ColumnResult, ColumnWork, DecompressState, RowItem, ScanColumn,
    ScanStep, SegmentData,
};
use pg_cocoon::scan::path::{parse_private, plan_custom_path};

fn info(name: &str, udt: &str, typmod: Option<i32>) -> ColumnInfo {
    ColumnInfo { name: name.to_string(), udt_name: udt.to_string(), typmod }
}

/// A table of a time, a device that segments are formed by, a text and a number.
fn columns(needed: &[i32]) -> Vec<ScanColumn> {
    let infos = vec![
        info("ts", "timestamptz", None),
        info("device", "text", None),
        info("note", "bpchar", Some(8)),
        info("value", "int4", Some(-1)),
    ];
    scan_columns(&infos, &vec!["device".to_string()], needed)
}

fn cell(v: i64) -> Cell {
    (Datum::from_i64(v), false)
}

fn stored(row_count: i32) -> SegmentData {
    SegmentData { segment_values: vec![None], compressed_blobs: vec![vec![]; 3], row_count }
}

#[test]
fn a_plan_names_the_needed_columns() {
    // Attribute numbers are shifted by seven: 8 is the first column, 3 a system column.
    let list = plan_custom_path(4_000_000_000, &[3, 7, 8, 11]);
    assert_eq!(list, vec![-294_967_296, -1, 0, 3]);
    let plan = parse_private(&list).unwrap();
    assert_eq!(plan.companion_oid, 4_000_000_000);
    assert_eq!(plan.needed_indices, vec![0, 3]);
    let plan = parse_private(&plan_custom_path(17, &[])).unwrap();
    assert_eq!(plan.companion_oid, 17);
    assert!(plan.needed_indices.is_empty());
}

#[test]
fn indices_stand_after_the_mark() {
    assert!(parse_private(&[]).is_none());
    let plan = parse_private(&[5, 9, -1, 1, -1, 2]).unwrap();
    assert_eq!(plan.needed_indices, vec![1, 2]);
    assert!(parse_private(&[5, 9]).unwrap().needed_indices.is_empty());
}

#[test]
fn columns_from_the_catalog() {
    let cols = columns(&[0, 3, 77]);
    let needed: Vec<bool> = cols.iter().map(|c| c.needed).collect();
    assert_eq!(needed, vec![true, false, false, true]);
    let by: Vec<bool> = cols.iter().map(|c| c.segment_by).collect();
    assert_eq!(by, vec![false, true, false, false]);
    assert_eq!(cols[0].type_oid, TIMESTAMPTZOID);
    assert_eq!(cols[1].type_oid, TEXTOID);
    assert_eq!(cols[3].type_oid, INT4OID);
    assert_eq!(cols[0].typmod, -1);
    assert_eq!(cols[2].typmod, 8);
}

#[test]
fn without_indices_all_columns_are_read() {
    assert!(columns(&[]).iter().all(|c| c.needed));
}

#[test]
fn the_query_selects_what_is_read() {
    let cols = columns(&[0, 3]);
    let items = list_row_items(&cols);
    assert_eq!(items, vec![RowItem::SegmentValue(1), RowItem::Blob(0), RowItem::Blob(3)]);
    assert_eq!(row_count_ordinal(&items), 6);
    assert_eq!(
        build_segments_query(&cols, "metrics_p20250101", "ts"),
        "SELECT \"device\"::text, \"_ts_compressed\", \"_value_compressed\", _min_ts, _max_ts, \
         _row_count FROM \"_cocoon_compressed\".\"metrics_p20250101\""
    );
}

#[test]
fn columns_find_their_data() {
    let cols = columns(&[1, 3]);
    let seg = segment_data(
        &cols,
        vec![Some("d1".to_string())],
        vec![Some(vec![7, 7])],
        Some(2),
    );
    assert_eq!(seg.compressed_blobs, vec![vec![], vec![], vec![7, 7]]);
    assert_eq!(seg.row_count, 2);
    let work = list_column_work(&cols);
    assert_eq!(
        work,
        vec![ColumnWork::Skip, ColumnWork::Value(0), ColumnWork::Skip, ColumnWork::Blob(2)]
    );
    let seg = segment_data(&cols, vec![None], vec![None], None);
    assert_eq!(seg.compressed_blobs, vec![vec![], vec![], Vec::<u8>::new()]);
    assert_eq!(seg.row_count, 0);
    assert_eq!(seg.segment_values, vec![None]);
}

/// Runs a scan to its end; segment `i` holds the numbers `10 * i` and up.
fn run(state: &mut DecompressState) -> (Vec<usize>, Vec<Vec<Cell>>) {
    let mut loads = vec![];
    let mut rows = vec![];
    loop {
        match state.next() {
            ScanStep::Row(row) => rows.push(row),
            ScanStep::Load(i) => {
                loads.push(i);
                let n = state.segments()[i].row_count as i64;
                let base = 10 * i as i64;
                state.install(vec![
                    ColumnResult::Skipped,
                    ColumnResult::Value(Some(Datum::from_i64(base))),
                    ColumnResult::Skipped,
                    ColumnResult::Cells((0..n).map(|k| cell(base + k)).collect()),
                ]);
            }
            ScanStep::Done => return (loads, rows),
        }
    }
}

#[test]
fn a_scan_gives_out_every_row_once() {
    let mut state =
        DecompressState::new(columns(&[1, 3]), vec![stored(2), stored(0), stored(1)]);
    assert_eq!(state.columns().len(), 4);
    let (loads, rows) = run(&mut state);
    assert_eq!(loads, vec![0, 2]);
    let expected: Vec<Vec<Cell>> = [(0, 0), (0, 1), (20, 20)]
        .iter()
        .map(|&(d, v)| vec![new_null(), cell(d), new_null(), cell(v)])
        .collect();
    assert_eq!(rows, expected);
    assert!(matches!(state.next(), ScanStep::Done));
    state.rescan();
    assert_eq!(run(&mut state), (loads, expected));
}

#[test]
fn a_scan_can_start_again_midway() {
    let mut state = DecompressState::new(columns(&[1, 3]), vec![stored(3)]);
    assert!(matches!(state.next(), ScanStep::Load(0)));
    state.install(vec![
        ColumnResult::Skipped,
        ColumnResult::Value(None),
        ColumnResult::Skipped,
        ColumnResult::Cells(vec![cell(1), cell(2), cell(3)]),
    ]);
    match state.next() {
        ScanStep::Row(row) => assert_eq!(row, vec![new_null(), new_null(), new_null(), cell(1)]),
        _ => panic!("no row"),
    }
    state.rescan();
    assert_eq!(run(&mut state).1.len(), 3);
}

#[test]
fn a_scan_without_rows_is_done() {
    let mut state = DecompressState::new(columns(&[]), vec![]);
    assert!(matches!(state.next(), ScanStep::Done));
    let mut state = DecompressState::new(columns(&[]), vec![stored(0), stored(0)]);
    assert!(matches!(state.next(), ScanStep::Done));
}
