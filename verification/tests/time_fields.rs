use pg_cocoon::scan::agg::time::{
    date_trunc, date_trunc_unit_to_usecs, extract_field_from_usecs, floor_div, floor_mod,
};

/// 2000-01-02 13:45:06.789012.
const SOME_TIME: i64 = 86_400_000_000 + 13 * 3_600_000_000 + 45 * 60_000_000 + 6_789_012;

#[test]
fn unit_widths() {
    assert_eq!(date_trunc_unit_to_usecs("microseconds"), 1);
    assert_eq!(date_trunc_unit_to_usecs("us"), 1);
    assert_eq!(date_trunc_unit_to_usecs("ms"), 1_000);
    assert_eq!(date_trunc_unit_to_usecs("second"), 1_000_000);
    assert_eq!(date_trunc_unit_to_usecs("minute"), 60_000_000);
    assert_eq!(date_trunc_unit_to_usecs("hours"), 3_600_000_000);
    assert_eq!(date_trunc_unit_to_usecs("day"), 86_400_000_000);
    assert_eq!(date_trunc_unit_to_usecs("month"), 1);
}

#[test]
fn truncation_rounds_down() {
    assert_eq!(date_trunc(SOME_TIME, 60_000_000), SOME_TIME - 6_789_012);
    assert_eq!(date_trunc(-1, 86_400_000_000), -86_400_000_000);
    assert_eq!(date_trunc(0, 3_600_000_000), 0);
    let t = date_trunc(SOME_TIME, 3_600_000_000);
    assert_eq!(date_trunc(t, 3_600_000_000), t);
}

#[test]
fn floor_division() {
    assert_eq!(floor_div(-7, 2), -4);
    assert_eq!(floor_mod(-7, 2), 1);
    assert_eq!(floor_div(7, 2), 3);
    assert_eq!(floor_mod(i64::MIN, i64::MAX), i64::MAX - 1);
}

#[test]
fn extracts_fields() {
    assert_eq!(extract_field_from_usecs(SOME_TIME, "microseconds"), 6_789_012);
    assert_eq!(extract_field_from_usecs(SOME_TIME, "milliseconds"), 6_789);
    assert_eq!(extract_field_from_usecs(SOME_TIME, "second"), 6);
    assert_eq!(extract_field_from_usecs(SOME_TIME, "minute"), 45);
    assert_eq!(extract_field_from_usecs(SOME_TIME, "hour"), 13);
    // 2000-01-02 was a Sunday.
    assert_eq!(extract_field_from_usecs(SOME_TIME, "dow"), 0);
    assert_eq!(extract_field_from_usecs(0, "dow"), 6);
    assert_eq!(extract_field_from_usecs(0, "epoch"), 946_684_800);
    assert_eq!(extract_field_from_usecs(SOME_TIME, "century"), 0);
}

#[test]
fn extracts_fields_before_the_epoch() {
    // 1999-12-31 23:59:59.5, a Friday.
    let t = -500_000;
    assert_eq!(extract_field_from_usecs(t, "hour"), 23);
    assert_eq!(extract_field_from_usecs(t, "minute"), 59);
    assert_eq!(extract_field_from_usecs(t, "second"), 59);
    assert_eq!(extract_field_from_usecs(t, "milliseconds"), 59_500);
    assert_eq!(extract_field_from_usecs(t, "dow"), 5);
    assert_eq!(extract_field_from_usecs(t, "epoch"), 946_684_800);
}

#[test]
fn fields_make_up_the_time_of_day() {
    for t in [SOME_TIME, -SOME_TIME, 0, -1] {
        let day = floor_div(t, 86_400_000_000) * 86_400_000_000;
        let rebuilt = day
            + extract_field_from_usecs(t, "hour") * 3_600_000_000
            + extract_field_from_usecs(t, "minute") * 60_000_000
            + extract_field_from_usecs(t, "microseconds");
        assert_eq!(rebuilt, t);
    }
}
