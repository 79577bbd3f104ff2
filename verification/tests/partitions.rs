use pg_cocoon::catalog::{
    found_hypertable, hypertable_row, managed_table, partition_rows, HypertableInfo, PartitionInfo,
};
use pg_cocoon::partition::create_table::{CreateAction, CreateEvent, CreateTable, Stage};
use pg_cocoon::partition::{
    align_to_interval, build_rows_query, convert_to_partitioned, create_default_partition,
    create_partition, fqn, future_windows, initial_windows, interval_computable, interval_to_usec,
    partition_date_query, partition_name, split_relation, validate_time_column,
    windows_computable, FutureRun, IntervalParts, PartitionError, Relation, Window, USEC_PER_DAY,
    USEC_PER_HOUR,
};

fn parts(days: i64, hours: i64, minutes: i64, seconds: i64) -> IntervalParts {
    IntervalParts {
        months: Some(0),
        days: Some(days),
        hours: Some(hours),
        minutes: Some(minutes),
        seconds: Some(seconds),
    }
}

fn message<T>(r: Result<T, PartitionError>) -> String {
    match r {
        Ok(_) => panic!("no error"),
        Err(e) => e.message(),
    }
}

#[test]
fn intervals_in_microseconds() {
    assert_eq!(interval_to_usec(&parts(1, 0, 0, 0)).ok(), Some(86_400_000_000));
    assert_eq!(interval_to_usec(&parts(0, 1, 2, 3)).ok(), Some(3_723_000_000));
    assert_eq!(interval_to_usec(&parts(1, -1, 0, 0)).ok(), Some(82_800_000_000));
    let unknown =
        IntervalParts { months: None, days: None, hours: Some(6), minutes: None, seconds: None };
    assert_eq!(interval_to_usec(&unknown).ok(), Some(21_600_000_000));
}

#[test]
fn months_are_refused() {
    let mut monthly = parts(1, 0, 0, 0);
    monthly.months = Some(1);
    assert_eq!(
        message(interval_to_usec(&monthly)),
        "pg_cocoon: monthly partition intervals are not supported; use days instead"
    );
}

#[test]
fn times_are_aligned_down() {
    assert_eq!(align_to_interval(7, 5), 5);
    assert_eq!(align_to_interval(5, 5), 5);
    assert_eq!(align_to_interval(-1, 5), -5);
    assert_eq!(align_to_interval(-5, 5), -5);
    assert_eq!(align_to_interval(0, 5), 0);
    assert_eq!(align_to_interval(-5, -3), -6);
    assert_eq!(align_to_interval(-1, -10), -10);
    assert_eq!(align_to_interval(-6, -3), -6);
    assert_eq!(align_to_interval(5, -3), 3);
    let day = align_to_interval(1_736_950_000_000_000, USEC_PER_DAY);
    assert_eq!(day, 1_736_899_200_000_000);
    assert_eq!(align_to_interval(day, USEC_PER_DAY), day);
}

#[test]
fn windows_of_a_new_table() {
    let now = 10 * USEC_PER_HOUR + 5;
    let windows = initial_windows(now, USEC_PER_HOUR, 3);
    assert_eq!(windows.len(), 5);
    assert_eq!(windows[0], Window { start: 9 * USEC_PER_HOUR, end: 10 * USEC_PER_HOUR });
    assert!(windows[1].start <= now && now < windows[1].end);
    for w in windows.windows(2) {
        assert_eq!(w[0].end, w[1].start);
    }
    assert_eq!(future_windows(now, USEC_PER_HOUR, 3), windows[1..].to_vec());
    assert_eq!(initial_windows(now, USEC_PER_HOUR, -1).len(), 1);
    assert!(initial_windows(now, USEC_PER_HOUR, -2).is_empty());
    assert!(future_windows(now, USEC_PER_HOUR, -1).is_empty());
}

#[test]
fn windows_listed_later_agree() {
    let early = initial_windows(10 * USEC_PER_HOUR, USEC_PER_HOUR, 3);
    let late = future_windows(12 * USEC_PER_HOUR + 1, USEC_PER_HOUR, 3);
    for a in &early {
        for b in &late {
            assert!(a == b || a.end <= b.start || b.end <= a.start);
        }
    }
    assert_eq!(late[0], early[3]);
}

#[test]
fn only_missing_partitions_are_created() {
    let windows = future_windows(0, USEC_PER_DAY, 2);
    let mut run = FutureRun::new(windows.clone());
    let mut made = vec![];
    for exists in [true, false, false] {
        let w = run.window().unwrap();
        if run.answer(exists) {
            made.push(w);
        }
    }
    assert_eq!(run.window(), None);
    assert_eq!(run.created(), 2);
    assert_eq!(made, windows[1..].to_vec());
}

#[test]
fn names_and_statements() {
    assert_eq!(fqn("public", "m"), "\"m\"");
    assert_eq!(fqn("iot", "m"), "\"iot\".\"m\"");
    assert_eq!(
        partition_date_query(USEC_PER_DAY),
        "SELECT to_char(to_timestamp($1), 'YYYYMMDD')"
    );
    assert_eq!(
        partition_date_query(USEC_PER_DAY - 1),
        "SELECT to_char(to_timestamp($1), 'YYYYMMDD_HH24MI')"
    );
    assert_eq!(partition_name("m", "20250101"), "m_p20250101");
    assert_eq!(
        create_partition("iot", "m", "m_p1", "2025-01-01", "2025-01-02"),
        "CREATE TABLE IF NOT EXISTS \"iot\".\"m_p1\" PARTITION OF \"iot\".\"m\" \
         FOR VALUES FROM ('2025-01-01') TO ('2025-01-02')"
    );
    assert_eq!(
        create_default_partition("public", "m"),
        "CREATE TABLE IF NOT EXISTS \"m_default\" PARTITION OF \"m\" DEFAULT"
    );
    assert_eq!(
        build_rows_query("public", "m"),
        "SELECT EXISTS (SELECT 1 FROM \"public\".\"m\" LIMIT 1)"
    );
    assert_eq!(
        convert_to_partitioned("public", "m", "ts"),
        vec![
            "ALTER TABLE \"m\" RENAME TO \"_cocoon_tmp_m\"",
            "CREATE TABLE \"m\" (LIKE \"_cocoon_tmp_m\" INCLUDING ALL) PARTITION BY RANGE (\"ts\")",
            "DROP TABLE \"_cocoon_tmp_m\"",
        ]
    );
}

#[test]
fn relation_names_are_split() {
    match split_relation("metrics") {
        Relation::Table(t) => assert_eq!(t, "metrics"),
        _ => panic!("no table"),
    }
    match split_relation("über.größe") {
        Relation::Qualified(s, t) => assert_eq!((s.as_str(), t.as_str()), ("über", "größe")),
        _ => panic!("not qualified"),
    }
    match split_relation(".x") {
        Relation::Qualified(s, t) => assert_eq!((s.as_str(), t.as_str()), ("", "x")),
        _ => panic!("not qualified"),
    }
    assert!(matches!(split_relation("a.b.c"), Relation::Invalid));
    assert!(matches!(split_relation(".."), Relation::Invalid));
}

#[test]
fn the_time_column_must_be_a_timestamp() {
    assert!(validate_time_column("s", "t", "c", Some("timestamp with time zone")).is_ok());
    assert!(validate_time_column("s", "t", "c", Some("timestamp without time zone")).is_ok());
    assert_eq!(
        message(validate_time_column("s", "t", "c", None)),
        "pg_cocoon: column 'c' not found in table s.t"
    );
    assert_eq!(
        message(validate_time_column("s", "t", "c", Some("date"))),
        "pg_cocoon: column 'c' has type 'date', expected a timestamp type"
    );
}

fn failure(action: CreateAction) -> String {
    match action {
        CreateAction::Fail(e) => e.message(),
        _ => panic!("no failure"),
    }
}

fn reply(action: CreateAction) -> String {
    match action {
        CreateAction::Reply(s) => s,
        _ => panic!("no reply"),
    }
}

#[test]
fn an_empty_table_is_converted() {
    let (mut c, first) = CreateTable::start("metrics", "ts");
    assert!(matches!(first, CreateAction::LookUpSchema));
    let found = c.handle(CreateEvent::Schema(Some("public".to_string())));
    assert!(matches!(found, CreateAction::FindHypertable));
    assert_eq!((c.schema(), c.table(), c.time_column()), ("public", "metrics", "ts"));
    assert!(matches!(c.handle(CreateEvent::Registered(false)), CreateAction::ReadColumnType));
    let timestamp = CreateEvent::ColumnType(Some("timestamp with time zone".to_string()));
    assert!(matches!(c.handle(timestamp), CreateAction::CheckPartitioned));
    assert!(matches!(c.handle(CreateEvent::Partitioned(None)), CreateAction::CheckRows));
    assert!(matches!(c.handle(CreateEvent::HasRows(Some(false))), CreateAction::Convert));
    assert!(matches!(c.handle(CreateEvent::Converted), CreateAction::Register));
    assert!(matches!(c.handle(CreateEvent::Entered), CreateAction::CreatePartitions));
    assert_eq!(
        reply(c.handle(CreateEvent::Partitions(5))),
        "Created cocoon table public.metrics with 5 partitions"
    );
    assert_eq!(c.stage(), Stage::Finished);
}

#[test]
fn a_partitioned_table_is_only_registered() {
    let (mut c, first) = CreateTable::start("iot.m", "ts");
    assert!(matches!(first, CreateAction::FindHypertable));
    c.handle(CreateEvent::Registered(false));
    c.handle(CreateEvent::ColumnType(Some("timestamp".to_string())));
    assert!(matches!(c.handle(CreateEvent::Partitioned(Some(true))), CreateAction::Register));
}

#[test]
fn a_managed_table_stays_as_it_is() {
    let (mut c, _) = CreateTable::start("iot.m", "ts");
    assert_eq!(
        reply(c.handle(CreateEvent::Registered(true))),
        "Table iot.m is already a cocoon table"
    );
    assert_eq!(c.stage(), Stage::Finished);
}

#[test]
fn what_stops_the_creation_of_a_table() {
    let (c, first) = CreateTable::start("a.b.c", "ts");
    assert_eq!(failure(first), "pg_cocoon: invalid relation name 'a.b.c'");
    assert_eq!(c.stage(), Stage::Finished);

    let (mut c, _) = CreateTable::start("nope", "ts");
    assert_eq!(failure(c.handle(CreateEvent::Schema(None))), "pg_cocoon: table 'nope' not found");

    let (mut c, _) = CreateTable::start("s.m", "ts");
    c.handle(CreateEvent::Registered(false));
    assert_eq!(
        failure(c.handle(CreateEvent::ColumnType(None))),
        "pg_cocoon: column 'ts' not found in table s.m"
    );

    let (mut c, _) = CreateTable::start("s.m", "ts");
    c.handle(CreateEvent::Registered(false));
    assert_eq!(
        failure(c.handle(CreateEvent::ColumnType(Some("integer".to_string())))),
        "pg_cocoon: column 'ts' has type 'integer', expected a timestamp type"
    );

    let (mut c, _) = CreateTable::start("s.m", "ts");
    c.handle(CreateEvent::Registered(false));
    c.handle(CreateEvent::ColumnType(Some("timestamp".to_string())));
    c.handle(CreateEvent::Partitioned(Some(false)));
    assert_eq!(
        failure(c.handle(CreateEvent::HasRows(Some(true)))),
        "pg_cocoon: table s.m is not empty. Only empty tables are supported."
    );
    assert_eq!(c.stage(), Stage::Finished);
}

fn hypertable(id: i32) -> HypertableInfo {
    HypertableInfo {
        id,
        schema_name: "s".to_string(),
        table_name: "m".to_string(),
        time_column: "ts".to_string(),
        partition_interval: parts(1, 0, 0, 0),
    }
}

#[test]
fn the_catalog_reports_tables_and_partitions() {
    assert!(found_hypertable(vec![]).is_none());
    let ht = found_hypertable(vec![hypertable(3), hypertable(4)]).unwrap();
    assert_eq!(ht.id, 3);
    let partition = |name: &str, compressed: Option<bool>| {
        PartitionInfo::from_row(1, 3, "s".to_string(), name.to_string(), 10, 20, compressed)
    };
    let partitions =
        vec![partition("m_p1", Some(true)), partition("m_p2", None), partition("m_p3", Some(false))];
    assert_eq!(
        partition_rows(&partitions),
        vec![
            ("m_p1".to_string(), 10, 20, true),
            ("m_p2".to_string(), 10, 20, false),
            ("m_p3".to_string(), 10, 20, false),
        ]
    );
    let row = hypertable_row(ht, &partitions);
    assert_eq!(
        row,
        ("s".to_string(), "m".to_string(), "ts".to_string(), parts(1, 0, 0, 0), 3)
    );
}

#[test]
fn a_table_may_not_be_managed() {
    assert_eq!(managed_table(Some(hypertable(3)), "s", "m").ok().map(|h| h.id), Some(3));
    assert_eq!(
        message(managed_table(None, "s", "m")),
        "pg_cocoon: table s.m is not a cocoon table"
    );
}

#[test]
fn times_at_the_end_of_the_range_are_aligned() {
    assert_eq!(align_to_interval(i64::MAX, i64::MIN), 0);
    assert_eq!(align_to_interval(-1, i64::MIN), i64::MIN);
    assert_eq!(align_to_interval(i64::MIN, 2), i64::MIN);
    assert_eq!(align_to_interval(i64::MIN, 1), i64::MIN);
}

#[test]
fn windows_that_cannot_be_computed() {
    assert!(windows_computable(0, USEC_PER_DAY, -1, 3));
    assert!(!windows_computable(0, 0, -1, 3));
    assert!(!windows_computable(i64::MIN, -1, 0, 0));
    // The boundary before the time is out of range.
    assert!(!windows_computable(i64::MIN, 7, 1, 1));
    // The last window ends out of range.
    assert!(windows_computable(i64::MAX - 1, 1, 0, 0));
    assert!(!windows_computable(i64::MAX - 1, 1, 0, 1));
    assert!(!windows_computable(i64::MIN, 1, -1, 0));
    assert!(windows_computable(i64::MIN, 1, 0, 0));
    assert_eq!(
        future_windows(i64::MAX - 1, 1, 0),
        vec![Window { start: i64::MAX - 1, end: i64::MAX }]
    );
    // No window is asked for.
    assert!(windows_computable(i64::MAX, 1, 0, -1));
    assert!(windows_computable(0, i64::MAX, 0, 0));
    assert!(!windows_computable(0, i64::MAX, 0, 1));
}

/// Runs over windows whose partitions have these names, and registers those that it creates.
fn run_over(windows: &[Window], names: &[&str], registered: &mut Vec<String>) -> (Vec<String>, i32) {
    let mut run = FutureRun::new(windows.to_vec());
    let mut made = vec![];
    let mut i = 0;
    while let Some(w) = run.window() {
        assert_eq!(w, windows[i]);
        let name = names[i].to_string();
        if run.answer(registered.contains(&name)) {
            made.push(name.clone());
            registered.push(name);
        }
        i += 1;
    }
    assert_eq!(i, windows.len());
    (made, run.created())
}

#[test]
fn a_second_run_creates_nothing() {
    let windows = future_windows(0, USEC_PER_DAY, 4);
    let names = ["p0", "p1", "p2", "p3", "p4"];
    let mut registered = vec!["p1".to_string(), "old".to_string()];
    let (made, count) = run_over(&windows, &names, &mut registered);
    assert_eq!(made, vec!["p0", "p2", "p3", "p4"]);
    assert_eq!(count, 4);
    assert!(names.iter().all(|n| registered.iter().any(|r| r == n)));
    assert_eq!(registered.len(), 6);
    let (made, count) = run_over(&windows, &names, &mut registered);
    assert!(made.is_empty());
    assert_eq!(count, 0);
    assert_eq!(registered.len(), 6);
}

#[test]
fn windows_with_one_name_get_one_partition() {
    let windows = future_windows(0, 1_000_000, 2);
    let mut registered = vec![];
    let (made, count) = run_over(&windows, &["a", "a", "b"], &mut registered);
    assert_eq!(made, vec!["a", "b"]);
    assert_eq!(count, 2);
}

#[test]
fn intervals_that_are_too_long() {
    assert!(interval_computable(&parts(1, 2, 3, 4)));
    assert!(interval_computable(&parts(106_751_991, 4, 0, 0)));
    assert!(!interval_computable(&parts(106_751_991, 4, 60, 0)));
    assert!(!interval_computable(&parts(106_751_992, 0, 0, 0)));
    assert!(!interval_computable(&parts(0, 0, 0, i64::MAX)));
    // An interval with months is refused, however long it is.
    let monthly = IntervalParts { months: Some(12), ..parts(i64::MAX, 0, 0, 0) };
    assert!(interval_computable(&monthly));
    assert!(interval_to_usec(&monthly).is_err());
}
