//! Time arithmetic on PostgreSQL timestamps: microseconds since 2000-01-01 00:00:00 UTC.

use crate::scan::datum::USEC_PER_DAY;
use crate::text;
use vstd::prelude::*;

verus! {

/// Seconds between the Unix epoch and the PostgreSQL epoch.
pub const PG_EPOCH_OFFSET_SEC: i64 = 946_684_800;

/// Microseconds in a minute.
pub const USEC_PER_MINUTE: i64 = 60_000_000;

/// Microseconds in an hour.
pub const USEC_PER_HOUR: i64 = 3_600_000_000;

/// The quotient rounded towards zero.
pub open spec fn quotient(a: int, b: int) -> int
    recommends
        b > 0,
{
    if a >= 0 {
        a / b
    } else {
        -((-a) / b)
    }
}

/// The quotient rounded down, for a positive divisor.
pub fn floor_div(a: i64, b: i64) -> (r: i64)
    requires
        b > 0,
    ensures
        r == a as int / b as int,
{
    proof {
        lemma_floor_div_bounds(a as int, b as int);
    }
    match a.checked_div_euclid(b) {
        Some(r) => r,
        None => 0,
    }
}

/// The non-negative remainder, for a positive divisor.
pub fn floor_mod(a: i64, b: i64) -> (r: i64)
    requires
        b > 0,
    ensures
        r == a as int % b as int,
        0 <= r < b,
{
    assert(0 <= a as int % b as int && (a as int % b as int) < b) by (nonlinear_arith)
        requires
            b > 0,
    ;
    match a.checked_rem_euclid(b) {
        Some(r) => r,
        None => 0,
    }
}

/// Rounding a quotient down keeps it within the bounds of the dividend's type.
proof fn lemma_floor_div_bounds(a: int, b: int)
    requires
        b > 0,
        i64::MIN <= a <= i64::MAX,
    ensures
        i64::MIN <= a / b <= i64::MAX,
{
    assert(i64::MIN <= a / b <= i64::MAX) by (nonlinear_arith)
        requires
            b > 0,
            i64::MIN <= a <= i64::MAX,
    ;
}

/// The width in microseconds of a truncation unit; unknown units truncate nothing.
pub open spec fn unit_width(unit: Seq<char>) -> i64 {
    if unit == "microsecond"@ || unit == "microseconds"@ || unit == "us"@ {
        1
    } else if unit == "millisecond"@ || unit == "milliseconds"@ || unit == "ms"@ {
        1_000
    } else if unit == "second"@ || unit == "seconds"@ {
        1_000_000
    } else if unit == "minute"@ || unit == "minutes"@ {
        USEC_PER_MINUTE
    } else if unit == "hour"@ || unit == "hours"@ {
        USEC_PER_HOUR
    } else if unit == "day"@ || unit == "days"@ {
        USEC_PER_DAY
    } else {
        1
    }
}

/// Converts a truncation unit to microseconds. Units of a day and less are supported, for which
/// integer arithmetic is exact.
pub fn date_trunc_unit_to_usecs(unit: &str) -> (width: i64)
    ensures
        width == unit_width(unit@),
        0 < width <= USEC_PER_DAY,
{
    if text::str_eq(unit, "microsecond") || text::str_eq(unit, "microseconds") || text::str_eq(
        unit,
        "us",
    ) {
        1
    } else if text::str_eq(unit, "millisecond") || text::str_eq(unit, "milliseconds")
        || text::str_eq(unit, "ms") {
        1_000
    } else if text::str_eq(unit, "second") || text::str_eq(unit, "seconds") {
        1_000_000
    } else if text::str_eq(unit, "minute") || text::str_eq(unit, "minutes") {
        USEC_PER_MINUTE
    } else if text::str_eq(unit, "hour") || text::str_eq(unit, "hours") {
        USEC_PER_HOUR
    } else if text::str_eq(unit, "day") || text::str_eq(unit, "days") {
        USEC_PER_DAY
    } else {
        1
    }
}

/// A timestamp truncated to a multiple of `width` microseconds.
pub open spec fn truncated(pg_usec: int, width: int) -> int {
    pg_usec - pg_usec % width
}

/// Truncates a timestamp to a multiple of `width` microseconds.
pub fn date_trunc(pg_usec: i64, width: i64) -> (r: i64)
    requires
        width > 0,
        truncated(pg_usec as int, width as int) >= i64::MIN,
    ensures
        r == truncated(pg_usec as int, width as int),
{
    let rem: i64 = floor_mod(pg_usec, width);
    pg_usec - rem
}

/// A truncated timestamp is a multiple of the unit, not after the timestamp and less than one
/// unit before it; truncating it again changes nothing.
pub proof fn law_date_trunc(pg_usec: int, width: int)
    requires
        width > 0,
    ensures
        truncated(pg_usec, width) % width == 0,
        truncated(pg_usec, width) <= pg_usec < truncated(pg_usec, width) + width,
        truncated(truncated(pg_usec, width), width) == truncated(pg_usec, width),
{
    assert(0 <= pg_usec % width < width) by (nonlinear_arith)
        requires
            width > 0,
    ;
    assert((pg_usec - pg_usec % width) % width == 0) by {
        vstd::arithmetic::div_mod::lemma_sub_mod_noop(pg_usec, pg_usec % width, width);
        vstd::arithmetic::div_mod::lemma_mod_twice(pg_usec, width);
        vstd::arithmetic::div_mod::lemma_mod_self_0(width);
        assert((pg_usec % width - pg_usec % width % width) % width == 0int % width);
        vstd::arithmetic::div_mod::lemma_small_mod(0, width as nat);
    }
}

/// A time field of a timestamp: seconds with their fraction for the units below a minute, the
/// field itself above, the day of the week from Sunday, or the seconds since the Unix epoch.
/// Unknown fields are zero.
pub open spec fn time_field(pg_usec: int, unit: Seq<char>) -> int {
    if unit == "microsecond"@ || unit == "microseconds"@ {
        pg_usec % USEC_PER_MINUTE as int
    } else if unit == "millisecond"@ || unit == "milliseconds"@ {
        pg_usec % USEC_PER_MINUTE as int / 1_000
    } else if unit == "second"@ || unit == "seconds"@ {
        pg_usec % USEC_PER_MINUTE as int / 1_000_000
    } else if unit == "minute"@ || unit == "minutes"@ {
        pg_usec % USEC_PER_HOUR as int / USEC_PER_MINUTE as int
    } else if unit == "hour"@ || unit == "hours"@ {
        pg_usec % USEC_PER_DAY as int / USEC_PER_HOUR as int
    } else if unit == "dow"@ {
        // 2000-01-01 was a Saturday, day 6.
        (pg_usec / USEC_PER_DAY as int + 6) % 7
    } else if unit == "epoch"@ {
        quotient(pg_usec, 1_000_000) + PG_EPOCH_OFFSET_SEC
    } else {
        0
    }
}

/// How the day's microseconds split into the seconds of the minute and their fraction.
proof fn lemma_second_split(pg_usec: int)
    ensures
        ({
            let day = pg_usec % USEC_PER_DAY as int;
            let sec = day / 1_000_000 % 60;
            &&& sec * 1_000_000 + day % 1_000_000 == pg_usec % USEC_PER_MINUTE as int
            &&& sec == pg_usec % USEC_PER_MINUTE as int / 1_000_000
            &&& sec * 1_000 + day % 1_000_000 / 1_000 == pg_usec % USEC_PER_MINUTE as int / 1_000
            &&& 0 <= sec < 60
        }),
{
    let day = pg_usec % USEC_PER_DAY as int;
    let sec = day / 1_000_000 % 60;
    let frac = day % 1_000_000;
    vstd::arithmetic::div_mod::lemma_mod_mod(pg_usec, 60_000_000, 1_440);
    vstd::arithmetic::div_mod::lemma_mod_breakdown(day, 1_000_000, 60);
    assert(day % 60_000_000 == 1_000_000 * sec + frac);
    assert((1_000_000 * sec + frac) / 1_000_000 == sec);
    assert((1_000_000 * sec + frac) / 1_000 == 1_000 * sec + frac / 1_000);
}

/// How the day's microseconds give the minute of the hour.
proof fn lemma_minute_split(pg_usec: int)
    ensures
        ({
            let day = pg_usec % USEC_PER_DAY as int;
            &&& day / USEC_PER_MINUTE as int % 60 == pg_usec % USEC_PER_HOUR as int
                / USEC_PER_MINUTE as int
            &&& 0 <= day / USEC_PER_MINUTE as int % 60 < 60
        }),
{
    let day = pg_usec % USEC_PER_DAY as int;
    let minute = day / 60_000_000 % 60;
    let rest = day % 60_000_000;
    vstd::arithmetic::div_mod::lemma_mod_mod(pg_usec, 3_600_000_000, 24);
    vstd::arithmetic::div_mod::lemma_mod_breakdown(day, 60_000_000, 60);
    assert(day % 3_600_000_000 == 60_000_000 * minute + rest);
    assert((60_000_000 * minute + rest) / 60_000_000 == minute);
}

/// Extracts a time field from a timestamp.
pub fn extract_field_from_usecs(pg_usec: i64, unit: &str) -> (v: i64)
    ensures
        v == time_field(pg_usec as int, unit@),
{
    let usec_in_day: i64 = floor_mod(pg_usec, USEC_PER_DAY);
    if text::str_eq(unit, "microsecond") || text::str_eq(unit, "microseconds") {
        proof {
            lemma_second_split(pg_usec as int);
        }
        let sec_of_min: i64 = (usec_in_day / 1_000_000) % 60;
        let frac_usec: i64 = usec_in_day % 1_000_000;
        sec_of_min * 1_000_000 + frac_usec
    } else if text::str_eq(unit, "millisecond") || text::str_eq(unit, "milliseconds") {
        proof {
            lemma_second_split(pg_usec as int);
        }
        let sec_of_min: i64 = (usec_in_day / 1_000_000) % 60;
        let frac_ms: i64 = usec_in_day % 1_000_000 / 1_000;
        sec_of_min * 1_000 + frac_ms
    } else if text::str_eq(unit, "second") || text::str_eq(unit, "seconds") {
        proof {
            lemma_second_split(pg_usec as int);
        }
        (usec_in_day / 1_000_000) % 60
    } else if text::str_eq(unit, "minute") || text::str_eq(unit, "minutes") {
        proof {
            lemma_minute_split(pg_usec as int);
        }
        (usec_in_day / USEC_PER_MINUTE) % 60
    } else if text::str_eq(unit, "hour") || text::str_eq(unit, "hours") {
        usec_in_day / USEC_PER_HOUR
    } else if text::str_eq(unit, "dow") {
        let days: i64 = floor_div(pg_usec, USEC_PER_DAY);
        floor_mod(days + 6, 7)
    } else if text::str_eq(unit, "epoch") {
        seconds_since_unix_epoch(pg_usec)
    } else {
        0
    }
}

/// The whole seconds of a timestamp, counted from the Unix epoch.
fn seconds_since_unix_epoch(pg_usec: i64) -> (v: i64)
    ensures
        v == quotient(pg_usec as int, 1_000_000) + PG_EPOCH_OFFSET_SEC,
{
    (pg_usec / 1_000_000) + PG_EPOCH_OFFSET_SEC
}

/// The fields by name.
proof fn lemma_fields_by_name(pg_usec: int)
    ensures
        time_field(pg_usec, "microsecond"@) == pg_usec % USEC_PER_MINUTE as int,
        time_field(pg_usec, "millisecond"@) == pg_usec % USEC_PER_MINUTE as int / 1_000,
        time_field(pg_usec, "second"@) == pg_usec % USEC_PER_MINUTE as int / 1_000_000,
        time_field(pg_usec, "minute"@) == pg_usec % USEC_PER_HOUR as int / USEC_PER_MINUTE as int,
        time_field(pg_usec, "hour"@) == pg_usec % USEC_PER_DAY as int / USEC_PER_HOUR as int,
        time_field(pg_usec, "dow"@) == (pg_usec / USEC_PER_DAY as int + 6) % 7,
{
    reveal_strlit("microsecond");
    reveal_strlit("microseconds");
    reveal_strlit("millisecond");
    reveal_strlit("milliseconds");
    reveal_strlit("second");
    reveal_strlit("seconds");
    reveal_strlit("minute");
    reveal_strlit("minutes");
    reveal_strlit("hour");
    reveal_strlit("hours");
    reveal_strlit("dow");
    reveal_strlit("epoch");
    assert("microsecond"@[2] == 'c' && "millisecond"@[2] == 'l');
    assert("microseconds"@[2] == 'c' && "milliseconds"@[2] == 'l');
    assert("second"@[0] == 's' && "minute"@[0] == 'm');
    assert("seconds"@[0] == 's' && "minutes"@[0] == 'm');
    assert("hours"@[0] == 'h' && "epoch"@[0] == 'e');
    assert("dow"@.len() == 3 && "hour"@.len() == 4 && "hours"@.len() == 5 && "epoch"@.len() == 5);
    assert("second"@.len() == 6 && "minute"@.len() == 6);
    assert("seconds"@.len() == 7 && "minutes"@.len() == 7);
    assert("microsecond"@.len() == 11 && "millisecond"@.len() == 11);
    assert("microseconds"@.len() == 12 && "milliseconds"@.len() == 12);
}

/// Every field lies in its range.
pub proof fn law_time_field_ranges(pg_usec: int)
    ensures
        0 <= time_field(pg_usec, "microsecond"@) < 60_000_000,
        0 <= time_field(pg_usec, "millisecond"@) < 60_000,
        0 <= time_field(pg_usec, "second"@) < 60,
        0 <= time_field(pg_usec, "minute"@) < 60,
        0 <= time_field(pg_usec, "hour"@) < 24,
        0 <= time_field(pg_usec, "dow"@) < 7,
{
    lemma_fields_by_name(pg_usec);
    lemma_second_split(pg_usec);
    lemma_minute_split(pg_usec);
}

/// A whole minute, hour, day or week later the smaller fields are the same.
pub proof fn law_time_field_periods(pg_usec: int)
    ensures
        time_field(pg_usec + USEC_PER_MINUTE, "second"@) == time_field(pg_usec, "second"@),
        time_field(pg_usec + USEC_PER_HOUR, "minute"@) == time_field(pg_usec, "minute"@),
        time_field(pg_usec + USEC_PER_DAY, "hour"@) == time_field(pg_usec, "hour"@),
        time_field(pg_usec + 7 * USEC_PER_DAY, "dow"@) == time_field(pg_usec, "dow"@),
{
    lemma_fields_by_name(pg_usec);
    lemma_fields_by_name(pg_usec + USEC_PER_MINUTE);
    lemma_fields_by_name(pg_usec + USEC_PER_HOUR);
    lemma_fields_by_name(pg_usec + USEC_PER_DAY);
    lemma_fields_by_name(pg_usec + 7 * USEC_PER_DAY);
    vstd::arithmetic::div_mod::lemma_mod_add_multiples_vanish(pg_usec, USEC_PER_MINUTE as int);
    vstd::arithmetic::div_mod::lemma_mod_add_multiples_vanish(pg_usec, USEC_PER_HOUR as int);
    vstd::arithmetic::div_mod::lemma_mod_add_multiples_vanish(pg_usec, USEC_PER_DAY as int);
    vstd::arithmetic::div_mod::lemma_hoist_over_denominator(pg_usec, 7, USEC_PER_DAY as nat);
    vstd::arithmetic::div_mod::lemma_mod_add_multiples_vanish(
        pg_usec / USEC_PER_DAY as int + 6,
        7,
    );
}

/// The timestamp is its days, hours, minutes and microseconds of the minute put together: the
/// fields lose nothing.
pub proof fn law_time_fields_complete(pg_usec: int)
    ensures
        pg_usec == pg_usec / USEC_PER_DAY as int * USEC_PER_DAY + time_field(pg_usec, "hour"@)
            * USEC_PER_HOUR + time_field(pg_usec, "minute"@) * USEC_PER_MINUTE + time_field(
            pg_usec,
            "microsecond"@,
        ),
{
    lemma_fields_by_name(pg_usec);
    let day = pg_usec % USEC_PER_DAY as int;
    vstd::arithmetic::div_mod::lemma_mod_mod(pg_usec, 3_600_000_000, 24);
    vstd::arithmetic::div_mod::lemma_mod_mod(pg_usec, 60_000_000, 60);
    let hour = pg_usec % USEC_PER_HOUR as int;
    assert(day == day / 3_600_000_000 * 3_600_000_000 + hour);
    assert(hour == hour / 60_000_000 * 60_000_000 + hour % 60_000_000);
}

/// The widths of the units by name.
proof fn lemma_widths_by_name()
    ensures
        unit_width("microsecond"@) == 1 && unit_width("microseconds"@) == 1,
        unit_width("us"@) == 1,
        unit_width("millisecond"@) == 1_000 && unit_width("milliseconds"@) == 1_000,
        unit_width("ms"@) == 1_000,
        unit_width("second"@) == 1_000_000 && unit_width("seconds"@) == 1_000_000,
        unit_width("minute"@) == 60_000_000 && unit_width("minutes"@) == 60_000_000,
        unit_width("hour"@) == 3_600_000_000 && unit_width("hours"@) == 3_600_000_000,
        unit_width("day"@) == 86_400_000_000 && unit_width("days"@) == 86_400_000_000,
{
    reveal_strlit("microsecond");
    reveal_strlit("microseconds");
    reveal_strlit("us");
    reveal_strlit("millisecond");
    reveal_strlit("milliseconds");
    reveal_strlit("ms");
    reveal_strlit("second");
    reveal_strlit("seconds");
    reveal_strlit("minute");
    reveal_strlit("minutes");
    reveal_strlit("hour");
    reveal_strlit("hours");
    reveal_strlit("day");
    reveal_strlit("days");
    assert("us"@.len() == 2 && "ms"@.len() == 2 && "us"@[0] == 'u' && "ms"@[0] == 'm');
    assert("microsecond"@[2] == 'c' && "millisecond"@[2] == 'l');
    assert("microseconds"@[2] == 'c' && "milliseconds"@[2] == 'l');
    assert("second"@[0] == 's' && "minute"@[0] == 'm');
    assert("seconds"@[0] == 's' && "minutes"@[0] == 'm');
    assert("hour"@[0] == 'h' && "days"@[0] == 'd');
    assert("day"@.len() == 3 && "days"@.len() == 4 && "hour"@.len() == 4 && "hours"@.len() == 5);
    assert("second"@.len() == 6 && "minute"@.len() == 6);
    assert("seconds"@.len() == 7 && "minutes"@.len() == 7);
    assert("microsecond"@.len() == 11 && "millisecond"@.len() == 11);
    assert("microseconds"@.len() == 12 && "milliseconds"@.len() == 12);
}

/// Whether these are the parts of a time: hour, minute, second and microsecond of a day.
pub open spec fn is_clock(hour: int, minute: int, second: int, usec: int) -> bool {
    &&& 0 <= hour < 24
    &&& 0 <= minute < 60
    &&& 0 <= second < 60
    &&& 0 <= usec < 1_000_000
}

/// Truncating keeps the parts of a time down to the unit and makes all smaller ones zero, for
/// every unit under each of its names.
pub proof fn law_truncation_keeps_larger_parts(
    day: int,
    hour: int,
    minute: int,
    second: int,
    usec: int,
)
    requires
        is_clock(hour, minute, second, usec),
    ensures
        ({
            let d = day * 86_400_000_000;
            let h = d + hour * 3_600_000_000;
            let m = h + minute * 60_000_000;
            let s = m + second * 1_000_000;
            let t = s + usec;
            &&& truncated(t, unit_width("day"@) as int) == d
            &&& truncated(t, unit_width("days"@) as int) == d
            &&& truncated(t, unit_width("hour"@) as int) == h
            &&& truncated(t, unit_width("hours"@) as int) == h
            &&& truncated(t, unit_width("minute"@) as int) == m
            &&& truncated(t, unit_width("minutes"@) as int) == m
            &&& truncated(t, unit_width("second"@) as int) == s
            &&& truncated(t, unit_width("seconds"@) as int) == s
            &&& truncated(t, unit_width("millisecond"@) as int) == s + usec / 1_000 * 1_000
            &&& truncated(t, unit_width("milliseconds"@) as int) == s + usec / 1_000 * 1_000
            &&& truncated(t, unit_width("ms"@) as int) == s + usec / 1_000 * 1_000
            &&& truncated(t, unit_width("microsecond"@) as int) == t
            &&& truncated(t, unit_width("microseconds"@) as int) == t
            &&& truncated(t, unit_width("us"@) as int) == t
        }),
{
    lemma_widths_by_name();
    let d = day * 86_400_000_000;
    let h = d + hour * 3_600_000_000;
    let m = h + minute * 60_000_000;
    let s = m + second * 1_000_000;
    let t = s + usec;
    let hours = day * 24 + hour;
    let minutes = hours * 60 + minute;
    let seconds = minutes * 60 + second;
    assert(h == hours * 3_600_000_000 && m == minutes * 60_000_000);
    assert(s == seconds * 1_000_000);
    lemma_truncated(day, 86_400_000_000, t - d);
    lemma_truncated(hours, 3_600_000_000, t - h);
    lemma_truncated(minutes, 60_000_000, t - m);
    lemma_truncated(seconds, 1_000_000, usec);
    lemma_truncated(seconds * 1_000 + usec / 1_000, 1_000, usec % 1_000);
    lemma_truncated(t, 1, 0);
}

/// Truncating takes away what is left beyond a multiple of the width.
proof fn lemma_truncated(times: int, width: int, rest: int)
    requires
        0 <= rest < width,
    ensures
        truncated(times * width + rest, width) == times * width,
{
    vstd::arithmetic::div_mod::lemma_fundamental_div_mod_converse(
        times * width + rest,
        width,
        times,
        rest,
    );
}

/// A truncated time has the fields of the time down to the unit and zeros below it, for every
/// unit under each of its names.
pub proof fn law_truncation_keeps_larger_fields(pg_usec: int, unit: Seq<char>)
    ensures
        unit == "day"@ || unit == "days"@ || unit == "hour"@ || unit == "hours"@ || unit
            == "minute"@ || unit == "minutes"@ || unit == "second"@ || unit == "seconds"@ || unit
            == "millisecond"@ || unit == "milliseconds"@ || unit == "ms"@ ==> {
            let t = truncated(pg_usec, unit_width(unit) as int);
            &&& t / 86_400_000_000 == pg_usec / 86_400_000_000
            &&& time_field(t, "hour"@) == if unit == "day"@ || unit == "days"@ {
                0
            } else {
                time_field(pg_usec, "hour"@)
            }
            &&& unit == "day"@ || unit == "days"@ || unit == "hour"@ || unit == "hours"@
                ==> time_field(t, "minute"@) == 0
            &&& unit == "minute"@ || unit == "minutes"@ || unit == "second"@ || unit == "seconds"@
                || unit == "millisecond"@ || unit == "milliseconds"@ || unit == "ms"@
                ==> time_field(t, "minute"@) == time_field(pg_usec, "minute"@)
            &&& unit == "second"@ || unit == "seconds"@ || unit == "millisecond"@ || unit
                == "milliseconds"@ || unit == "ms"@ ==> time_field(t, "second"@) == time_field(
                pg_usec,
                "second"@,
            )
            &&& unit == "millisecond"@ || unit == "milliseconds"@ || unit == "ms"@ ==> time_field(
                t,
                "millisecond"@,
            ) == time_field(pg_usec, "millisecond"@)
            &&& unit == "day"@ || unit == "days"@ || unit == "hour"@ || unit == "hours"@ || unit
                == "minute"@ || unit == "minutes"@ ==> time_field(t, "microsecond"@) == 0
            &&& unit == "second"@ || unit == "seconds"@ ==> time_field(t, "microsecond"@)
                == time_field(pg_usec, "second"@) * 1_000_000
            &&& unit == "millisecond"@ || unit == "milliseconds"@ || unit == "ms"@ ==> time_field(
                t,
                "microsecond"@,
            ) == time_field(pg_usec, "millisecond"@) * 1_000
        },
{
    let day = pg_usec / 86_400_000_000;
    let hour = pg_usec % 86_400_000_000 / 3_600_000_000;
    let minute = pg_usec % 3_600_000_000 / 60_000_000;
    let second = pg_usec % 60_000_000 / 1_000_000;
    let usec = pg_usec % 1_000_000;
    vstd::arithmetic::div_mod::lemma_mod_mod(pg_usec, 3_600_000_000, 24);
    vstd::arithmetic::div_mod::lemma_mod_mod(pg_usec, 60_000_000, 60);
    vstd::arithmetic::div_mod::lemma_mod_mod(pg_usec, 1_000_000, 60);
    let h = day * 86_400_000_000 + hour * 3_600_000_000;
    let m = h + minute * 60_000_000;
    let s = m + second * 1_000_000;
    assert(pg_usec == s + usec);
    law_truncation_keeps_larger_parts(day, hour, minute, second, usec);
    law_fields_of_parts(day, hour, minute, second, usec);
    law_fields_of_parts(day, 0, 0, 0, 0);
    law_fields_of_parts(day, hour, 0, 0, 0);
    law_fields_of_parts(day, hour, minute, 0, 0);
    law_fields_of_parts(day, hour, minute, second, 0);
    law_fields_of_parts(day, hour, minute, second, usec / 1_000 * 1_000);
    lemma_widths_by_name();
}

/// The fields of a time are its parts, under each of their names: seconds with their fraction for
/// the units below a minute. The day of the week advances by one each day from Saturday, the day
/// of the PostgreSQL epoch; the epoch counts the seconds since 1970, thirty years of which seven
/// are leap years before.
pub proof fn law_fields_of_parts(day: int, hour: int, minute: int, second: int, usec: int)
    requires
        is_clock(hour, minute, second, usec),
    ensures
        ({
            let t = day * 86_400_000_000 + hour * 3_600_000_000 + minute * 60_000_000 + second
                * 1_000_000 + usec;
            &&& t / 86_400_000_000 == day
            &&& time_field(t, "hour"@) == hour
            &&& time_field(t, "hours"@) == hour
            &&& time_field(t, "minute"@) == minute
            &&& time_field(t, "minutes"@) == minute
            &&& time_field(t, "second"@) == second
            &&& time_field(t, "seconds"@) == second
            &&& time_field(t, "millisecond"@) == second * 1_000 + usec / 1_000
            &&& time_field(t, "milliseconds"@) == second * 1_000 + usec / 1_000
            &&& time_field(t, "microsecond"@) == second * 1_000_000 + usec
            &&& time_field(t, "microseconds"@) == second * 1_000_000 + usec
            &&& day == 0 ==> time_field(t, "dow"@) == 6
            &&& time_field(t + 86_400_000_000, "dow"@) == (time_field(t, "dow"@) + 1) % 7
            &&& day >= 0 || usec == 0 ==> time_field(t, "epoch"@) == (day + 30 * 365 + 7) * 86_400
                + hour * 3_600 + minute * 60 + second
            &&& day < 0 && usec > 0 ==> time_field(t, "epoch"@) == (day + 30 * 365 + 7) * 86_400
                + hour * 3_600 + minute * 60 + second + 1
        }),
{
    let m = day * 86_400_000_000 + hour * 3_600_000_000 + minute * 60_000_000;
    let t = m + second * 1_000_000 + usec;
    lemma_fields_by_name(t);
    lemma_fields_by_name(t + 86_400_000_000);
    lemma_fields_by_other_name(t);
    lemma_days_and_hours(day, hour, t - day * 86_400_000_000 - hour * 3_600_000_000);
    lemma_minutes(day * 24 + hour, minute, second * 1_000_000 + usec);
    lemma_seconds((day * 24 + hour) * 60 + minute, second, usec);
    lemma_next_day_of_week(day);
    let secs = day * 86_400 + hour * 3_600 + minute * 60 + second;
    assert(t == secs * 1_000_000 + usec);
    lemma_whole_seconds(secs, usec);
}

/// The day and the hour of a time.
proof fn lemma_days_and_hours(day: int, hour: int, rest: int)
    requires
        0 <= hour < 24,
        0 <= rest < 3_600_000_000,
    ensures
        ({
            let t = day * 86_400_000_000 + hour * 3_600_000_000 + rest;
            &&& t / 86_400_000_000 == day
            &&& (t + 86_400_000_000) / 86_400_000_000 == day + 1
            &&& t % 86_400_000_000 / 3_600_000_000 == hour
        }),
{
    let t = day * 86_400_000_000 + hour * 3_600_000_000 + rest;
    assert(t % 86_400_000_000 == hour * 3_600_000_000 + rest);
}

/// The minute of a time.
proof fn lemma_minutes(hours: int, minute: int, rest: int)
    requires
        0 <= minute < 60,
        0 <= rest < 60_000_000,
    ensures
        (hours * 3_600_000_000 + minute * 60_000_000 + rest) % 3_600_000_000 / 60_000_000 == minute,
{
    let t = hours * 3_600_000_000 + minute * 60_000_000 + rest;
    assert(t % 3_600_000_000 == minute * 60_000_000 + rest);
}

/// The second of a time and its fraction.
proof fn lemma_seconds(minutes: int, second: int, usec: int)
    requires
        0 <= second < 60,
        0 <= usec < 1_000_000,
    ensures
        ({
            let in_minute = (minutes * 60_000_000 + second * 1_000_000 + usec) % 60_000_000;
            &&& in_minute == second * 1_000_000 + usec
            &&& in_minute / 1_000_000 == second
            &&& in_minute / 1_000 == second * 1_000 + usec / 1_000
        }),
{
}

/// The day of the week advances by one each day.
proof fn lemma_next_day_of_week(day: int)
    ensures
        (day + 1 + 6) % 7 == ((day + 6) % 7 + 1) % 7,
{
}

/// The quotient of a time in microseconds is its whole seconds, or one more where a fraction is
/// rounded up to zero.
proof fn lemma_whole_seconds(secs: int, usec: int)
    requires
        0 <= usec < 1_000_000,
    ensures
        quotient(secs * 1_000_000 + usec, 1_000_000) == if secs < 0 && usec > 0 {
            secs + 1
        } else {
            secs
        },
{
}

/// The fields by their names in the plural, and the seconds since the Unix epoch.
proof fn lemma_fields_by_other_name(pg_usec: int)
    ensures
        time_field(pg_usec, "microseconds"@) == time_field(pg_usec, "microsecond"@),
        time_field(pg_usec, "milliseconds"@) == time_field(pg_usec, "millisecond"@),
        time_field(pg_usec, "seconds"@) == time_field(pg_usec, "second"@),
        time_field(pg_usec, "minutes"@) == time_field(pg_usec, "minute"@),
        time_field(pg_usec, "hours"@) == time_field(pg_usec, "hour"@),
        time_field(pg_usec, "epoch"@) == quotient(pg_usec, 1_000_000) + 946_684_800,
{
    reveal_strlit("microsecond");
    reveal_strlit("microseconds");
    reveal_strlit("millisecond");
    reveal_strlit("milliseconds");
    reveal_strlit("second");
    reveal_strlit("seconds");
    reveal_strlit("minute");
    reveal_strlit("minutes");
    reveal_strlit("hour");
    reveal_strlit("hours");
    reveal_strlit("dow");
    reveal_strlit("epoch");
    assert("microsecond"@[2] == 'c' && "millisecond"@[2] == 'l');
    assert("microseconds"@[2] == 'c' && "milliseconds"@[2] == 'l');
    assert("second"@[0] == 's' && "minute"@[0] == 'm');
    assert("seconds"@[0] == 's' && "minutes"@[0] == 'm');
    assert("hours"@[0] == 'h' && "epoch"@[0] == 'e');
    assert("dow"@.len() == 3 && "hour"@.len() == 4 && "hours"@.len() == 5 && "epoch"@.len() == 5);
    assert("second"@.len() == 6 && "minute"@.len() == 6);
    assert("seconds"@.len() == 7 && "minutes"@.len() == 7);
    assert("microsecond"@.len() == 11 && "millisecond"@.len() == 11);
    assert("microseconds"@.len() == 12 && "milliseconds"@.len() == 12);
}

/// Units and fields that have no name here truncate nothing and are zero.
pub proof fn law_unknown_units(pg_usec: int, unit: Seq<char>)
    requires
        unit != "microsecond"@ && unit != "microseconds"@ && unit != "us"@,
        unit != "millisecond"@ && unit != "milliseconds"@ && unit != "ms"@,
        unit != "second"@ && unit != "seconds"@ && unit != "minute"@ && unit != "minutes"@,
        unit != "hour"@ && unit != "hours"@ && unit != "day"@ && unit != "days"@,
    ensures
        truncated(pg_usec, unit_width(unit) as int) == pg_usec,
        unit != "dow"@ && unit != "epoch"@ ==> time_field(pg_usec, unit) == 0,
{
    assert(pg_usec % 1 == 0);
}

} // verus!
