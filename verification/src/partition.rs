//! Time-range partitions of a table: how wide they are, where they lie, and the statements that
//! create them.

use crate::text;
use vstd::prelude::*;
use vstd::string::*;

pub mod create_table;

verus! {

/// Microseconds in a second.
pub const USEC_PER_SEC: i64 = 1_000_000;

/// Microseconds in a minute.
pub const USEC_PER_MIN: i64 = 60_000_000;

/// Microseconds in an hour.
pub const USEC_PER_HOUR: i64 = 3_600_000_000;

/// Microseconds in a day.
pub const USEC_PER_DAY: i64 = 86_400_000_000;

/// Why a table cannot be partitioned or described.
pub enum PartitionError {
    /// The interval has months, whose length varies.
    MonthlyInterval,
    /// There is no table of this name.
    TableNotFound { relation: String },
    /// The name has more than two parts.
    InvalidRelation { relation: String },
    /// The table has no column of this name.
    ColumnNotFound { column: String, schema: String, table: String },
    /// The column is not of a timestamp type.
    NotATimestamp { column: String, data_type: String },
    /// The table holds rows.
    NotEmpty { schema: String, table: String },
    /// The table is not a managed one.
    NotManaged { schema: String, table: String },
}

/// The reason as a mathematical value.
pub enum ErrorModel {
    MonthlyInterval,
    TableNotFound { relation: Seq<char> },
    InvalidRelation { relation: Seq<char> },
    ColumnNotFound { column: Seq<char>, schema: Seq<char>, table: Seq<char> },
    NotATimestamp { column: Seq<char>, data_type: Seq<char> },
    NotEmpty { schema: Seq<char>, table: Seq<char> },
    NotManaged { schema: Seq<char>, table: Seq<char> },
}

impl View for PartitionError {
    type V = ErrorModel;

    open spec fn view(&self) -> ErrorModel {
        match *self {
            PartitionError::MonthlyInterval => ErrorModel::MonthlyInterval,
            PartitionError::TableNotFound { relation } => ErrorModel::TableNotFound {
                relation: relation@,
            },
            PartitionError::InvalidRelation { relation } => ErrorModel::InvalidRelation {
                relation: relation@,
            },
            PartitionError::ColumnNotFound { column, schema, table } => {
                ErrorModel::ColumnNotFound { column: column@, schema: schema@, table: table@ }
            },
            PartitionError::NotATimestamp { column, data_type } => ErrorModel::NotATimestamp {
                column: column@,
                data_type: data_type@,
            },
            PartitionError::NotEmpty { schema, table } => ErrorModel::NotEmpty {
                schema: schema@,
                table: table@,
            },
            PartitionError::NotManaged { schema, table } => ErrorModel::NotManaged {
                schema: schema@,
                table: table@,
            },
        }
    }
}

/// What is reported.
pub open spec fn error_text(e: ErrorModel) -> Seq<char> {
    match e {
        ErrorModel::MonthlyInterval => {
            "pg_cocoon: monthly partition intervals are not supported; use days instead"@
        },
        ErrorModel::TableNotFound { relation } => {
            "pg_cocoon: table '"@ + relation + "' not found"@
        },
        ErrorModel::InvalidRelation { relation } => {
            "pg_cocoon: invalid relation name '"@ + relation + "'"@
        },
        ErrorModel::ColumnNotFound { column, schema, table } => {
            "pg_cocoon: column '"@ + column + "' not found in table "@ + schema + "."@ + table
        },
        ErrorModel::NotATimestamp { column, data_type } => {
            "pg_cocoon: column '"@ + column + "' has type '"@ + data_type
                + "', expected a timestamp type"@
        },
        ErrorModel::NotEmpty { schema, table } => {
            "pg_cocoon: table "@ + schema + "."@ + table
                + " is not empty. Only empty tables are supported."@
        },
        ErrorModel::NotManaged { schema, table } => {
            "pg_cocoon: table "@ + schema + "."@ + table + " is not a cocoon table"@
        },
    }
}

impl PartitionError {
    /// What is reported.
    pub fn message(&self) -> (s: String)
        ensures
            s@ == error_text(self@),
    {
        match self {
            PartitionError::MonthlyInterval => {
                "pg_cocoon: monthly partition intervals are not supported; use days instead"
                    .to_string()
            },
            PartitionError::TableNotFound { relation } => {
                let mut s: String = "pg_cocoon: table '".to_string();
                s.append(relation.as_str());
                s.append("' not found");
                s
            },
            PartitionError::InvalidRelation { relation } => {
                let mut s: String = "pg_cocoon: invalid relation name '".to_string();
                s.append(relation.as_str());
                s.append("'");
                s
            },
            PartitionError::ColumnNotFound { column, schema, table } => {
                let mut s: String = "pg_cocoon: column '".to_string();
                s.append(column.as_str());
                s.append("' not found in table ");
                s.append(schema.as_str());
                s.append(".");
                s.append(table.as_str());
                s
            },
            PartitionError::NotATimestamp { column, data_type } => {
                let mut s: String = "pg_cocoon: column '".to_string();
                s.append(column.as_str());
                s.append("' has type '");
                s.append(data_type.as_str());
                s.append("', expected a timestamp type");
                s
            },
            PartitionError::NotEmpty { schema, table } => {
                let mut s: String = "pg_cocoon: table ".to_string();
                s.append(schema.as_str());
                s.append(".");
                s.append(table.as_str());
                s.append(" is not empty. Only empty tables are supported.");
                s
            },
            PartitionError::NotManaged { schema, table } => {
                let mut s: String = "pg_cocoon: table ".to_string();
                s.append(schema.as_str());
                s.append(".");
                s.append(table.as_str());
                s.append(" is not a cocoon table");
                s
            },
        }
    }
}

// ---------------------------------------------------------------------------
// Intervals
// ---------------------------------------------------------------------------

/// The parts of an interval, as far as they are known.
#[derive(Clone, Copy, PartialEq, Eq, Debug)]
pub struct IntervalParts {
    pub months: Option<i32>,
    pub days: Option<i64>,
    pub hours: Option<i64>,
    pub minutes: Option<i64>,
    pub seconds: Option<i64>,
}

/// A part, zero if it is not known.
pub open spec fn part(p: Option<i64>) -> int {
    match p {
        Some(v) => v as int,
        None => 0,
    }
}

/// Whether an interval has months.
pub open spec fn has_months(interval: IntervalParts) -> bool {
    interval.months is Some && interval.months->0 != 0
}

/// The length of an interval without months, in microseconds.
pub open spec fn interval_length(interval: IntervalParts) -> int {
    part(interval.days) * USEC_PER_DAY + part(interval.hours) * USEC_PER_HOUR + part(
        interval.minutes,
    ) * USEC_PER_MIN + part(interval.seconds) * USEC_PER_SEC
}

/// Whether a number fits in 64 bits.
pub open spec fn fits(v: int) -> bool {
    i64::MIN <= v <= i64::MAX
}

/// Whether the length of an interval can be added up in 64 bits.
pub open spec fn length_fits(interval: IntervalParts) -> bool {
    let days = part(interval.days) * USEC_PER_DAY;
    let hours = part(interval.hours) * USEC_PER_HOUR;
    let minutes = part(interval.minutes) * USEC_PER_MIN;
    let seconds = part(interval.seconds) * USEC_PER_SEC;
    &&& fits(days) && fits(hours) && fits(minutes) && fits(seconds)
    &&& fits(days + hours) && fits(days + hours + minutes) && fits(
        days + hours + minutes + seconds,
    )
}

/// A part, zero if it is not known.
fn part_or_zero(p: Option<i64>) -> (v: i64)
    ensures
        v == part(p),
{
    match p {
        Some(v) => v,
        None => 0,
    }
}

/// Checks whether the length of an interval can be added up in 64 bits, where it is: an interval
/// with months is refused before.
pub fn interval_computable(interval: &IntervalParts) -> (b: bool)
    ensures
        b == (!has_months(*interval) ==> length_fits(*interval)),
{
    if let Some(months) = interval.months {
        if months != 0 {
            return true;
        }
    }
    let days = part_or_zero(interval.days).checked_mul(USEC_PER_DAY);
    let hours = part_or_zero(interval.hours).checked_mul(USEC_PER_HOUR);
    let minutes = part_or_zero(interval.minutes).checked_mul(USEC_PER_MIN);
    let seconds = part_or_zero(interval.seconds).checked_mul(USEC_PER_SEC);
    match (days, hours, minutes, seconds) {
        (Some(d), Some(h), Some(m), Some(s)) => match d.checked_add(h) {
            Some(dh) => match dh.checked_add(m) {
                Some(dhm) => dhm.checked_add(s).is_some(),
                None => false,
            },
            None => false,
        },
        _ => false,
    }
}

/// Converts an interval to microseconds. Months are refused.
pub fn interval_to_usec(interval: &IntervalParts) -> (r: Result<i64, PartitionError>)
    requires
        !has_months(*interval) ==> length_fits(*interval),
    ensures
        match r {
            Ok(v) => !has_months(*interval) && v == interval_length(*interval),
            Err(e) => has_months(*interval) && e is MonthlyInterval,
        },
{
    if let Some(months) = interval.months {
        if months != 0 {
            return Err(PartitionError::MonthlyInterval);
        }
    }
    let days: i64 = part_or_zero(interval.days);
    let hours: i64 = part_or_zero(interval.hours);
    let minutes: i64 = part_or_zero(interval.minutes);
    let seconds: i64 = part_or_zero(interval.seconds);
    Ok(
        days * USEC_PER_DAY + hours * USEC_PER_HOUR + minutes * USEC_PER_MIN + seconds
            * USEC_PER_SEC,
    )
}

// ---------------------------------------------------------------------------
// Windows
// ---------------------------------------------------------------------------

/// The boundary at or before a time. The boundaries are the multiples of the width, whatever its
/// sign.
pub open spec fn aligned(ts: int, width: int) -> int {
    ts - ts % width
}

/// The quotient and the remainder of a division are the only ones.
proof fn lemma_division_unique(a: int, w: int, k: int, e: int)
    requires
        w != 0,
        a == w * k + e,
        0 <= e,
        e < w || e < -w,
    ensures
        a / w == k,
        a % w == e,
{
    let q = a / w;
    let m = a % w;
    assert(a == w * q + m && 0 <= m && (m < w || m < -w)) by (nonlinear_arith)
        requires
            w != 0,
            q == a / w,
            m == a % w,
    ;
    assert(q == k) by (nonlinear_arith)
        requires
            w != 0,
            w * k + e == w * q + m,
            0 <= e,
            e < w || e < -w,
            0 <= m,
            m < w || m < -w,
    ;
}

/// The distance from a time before the epoch down to its boundary, from the distance of the
/// opposite time.
proof fn lemma_before_epoch(ts: int, w: int)
    requires
        w != 0,
        ts < 0,
    ensures
        0 <= (-ts) % w <= -ts,
        (-ts) % w == 0 ==> ts % w == 0,
        (-ts) % w != 0 && w > 0 ==> ts % w == w - (-ts) % w,
        (-ts) % w != 0 && w < 0 ==> ts % w == -w - (-ts) % w,
{
    let q = (-ts) / w;
    let m = (-ts) % w;
    assert(-ts == w * q + m && 0 <= m && (m < w || m < -w)) by (nonlinear_arith)
        requires
            w != 0,
            q == (-ts) / w,
            m == (-ts) % w,
    ;
    assert(w * q >= 0) by (nonlinear_arith)
        requires
            w * q + m > 0,
            0 <= m,
            m < w || m < -w,
    ;
    if m == 0 {
        assert(ts == w * (-q)) by (nonlinear_arith)
            requires
                -ts == w * q,
        ;
        lemma_division_unique(ts, w, -q, 0);
    } else if w > 0 {
        assert(ts == w * (-q - 1) + (w - m)) by (nonlinear_arith)
            requires
                -ts == w * q + m,
        ;
        lemma_division_unique(ts, w, -q - 1, w - m);
    } else {
        assert(ts == w * (-q + 1) + (-w - m)) by (nonlinear_arith)
            requires
                -ts == w * q + m,
        ;
        lemma_division_unique(ts, w, -q + 1, -w - m);
    }
}

/// Aligns a time down to the nearest boundary of intervals of the given width.
pub fn align_to_interval(ts_usec: i64, interval_usec: i64) -> (r: i64)
    requires
        interval_usec != 0,
        fits(aligned(ts_usec as int, interval_usec as int)),
        !(ts_usec == i64::MIN && interval_usec == -1),
    ensures
        r == aligned(ts_usec as int, interval_usec as int),
{
    let r: i64 = ts_usec % interval_usec;
    proof {
        let ts = ts_usec as int;
        let w = interval_usec as int;
        if ts < 0 {
            lemma_before_epoch(ts, w);
            assert(r == -((-ts) % w));
        } else {
            assert(0 <= ts % w <= ts) by (nonlinear_arith)
                requires
                    w != 0,
                    ts >= 0,
            ;
            assert(r == ts % w);
        }
    }
    if r >= 0 {
        ts_usec - r
    } else if interval_usec > 0 {
        ts_usec - r - interval_usec
    } else {
        ts_usec - r + interval_usec
    }
}

/// The time range of a partition: from `start` to just before `end`, in microseconds since the
/// Unix epoch.
#[derive(Clone, Copy, PartialEq, Eq, Structural, Debug)]
pub struct Window {
    pub start: i64,
    pub end: i64,
}

/// Where the window `i` windows after the one at `base` starts.
pub open spec fn window_start(base: int, width: int, i: int) -> int {
    base + i * width
}

/// Whether a window and its distance from the one at `base` lie within 64 bits.
pub open spec fn window_fits(base: int, width: int, i: int) -> bool {
    &&& fits(i * width)
    &&& fits(window_start(base, width, i))
    &&& fits(window_start(base, width, i) + width)
}

/// Whether the windows from number `from` to number `last` lie within 64 bits.
pub open spec fn windows_fit(base: int, width: int, from: int, last: int) -> bool {
    forall|i: int| from <= i <= last ==> #[trigger] window_fits(base, width, i)
}

/// Whether the windows from number `from` to number `last` around a time can be computed.
pub open spec fn windows_defined(now: i64, width: i64, from: int, last: int) -> bool {
    &&& width != 0
    &&& !(now == i64::MIN && width == -1)
    &&& fits(aligned(now as int, width as int))
    &&& windows_fit(aligned(now as int, width as int), width as int, from, last)
}

/// A multiple that lies between two others does so by its factor.
proof fn lemma_between(width: int, from: int, i: int, last: int)
    requires
        from <= i <= last,
    ensures
        from * width <= i * width <= last * width || last * width <= i * width <= from * width,
{
    assert(from * width <= i * width <= last * width || last * width <= i * width <= from * width)
        by (nonlinear_arith)
        requires
            from <= i <= last,
    ;
}

/// Whether a window lies within 64 bits.
fn window_in_range(base: i64, width: i64, i: i32) -> (b: bool)
    ensures
        b == window_fits(base as int, width as int, i as int),
{
    assert(-0x8000_0000_0000_0000_0000_0000 <= i * width <= 0x8000_0000_0000_0000_0000_0000)
        by (nonlinear_arith)
        requires
            -0x8000_0000 <= i <= 0x7fff_ffff,
            -0x8000_0000_0000_0000 <= width <= 0x7fff_ffff_ffff_ffff,
    ;
    let offset: i128 = i as i128 * width as i128;
    let start: i128 = base as i128 + offset;
    let end: i128 = start + width as i128;
    let low: i128 = i64::MIN as i128;
    let high: i128 = i64::MAX as i128;
    low <= offset && offset <= high && low <= start && start <= high && low <= end && end <= high
}

/// Checks whether the windows from number `from` to number `last` around a time can be computed.
pub fn windows_computable(now: i64, width: i64, from: i32, last: i32) -> (b: bool)
    ensures
        b == windows_defined(now, width, from as int, last as int),
{
    if width == 0 || now == i64::MIN && width == -1 {
        return false;
    }
    let ghost m = now as int % width as int;
    assert(0 <= m && (m < width || m < -width)) by (nonlinear_arith)
        requires
            width != 0,
            m == now as int % width as int,
    ;
    let r: i64 = now % width;
    proof {
        if now < 0 {
            lemma_before_epoch(now as int, width as int);
            assert(r == -((-now) % width as int));
        } else {
            assert(0 <= m <= now) by (nonlinear_arith)
                requires
                    width != 0,
                    now >= 0,
                    m == now as int % width as int,
            ;
            assert(r == m);
        }
    }
    let below: i128 = if r >= 0 {
        r as i128
    } else if width > 0 {
        r as i128 + width as i128
    } else {
        r as i128 - width as i128
    };
    assert(below == m);
    if now as i128 - below < i64::MIN as i128 {
        return false;
    }
    let base: i64 = align_to_interval(now, width);
    if from > last {
        return true;
    }
    let first_in_range = window_in_range(base, width, from);
    let last_in_range = window_in_range(base, width, last);
    proof {
        let w = width as int;
        if first_in_range && last_in_range {
            assert forall|i: int| from <= i <= last implies #[trigger] window_fits(
                base as int,
                w,
                i,
            ) by {
                lemma_between(w, from as int, i, last as int);
            }
        } else {
            assert(!(window_fits(base as int, w, from as int) && window_fits(
                base as int,
                w,
                last as int,
            )));
        }
    }
    first_in_range && last_in_range
}

/// The windows from number `from` to number `last`.
pub open spec fn window_list(base: int, width: int, from: int, last: int) -> Seq<Window> {
    Seq::new(
        if last < from {
            0
        } else {
            (last - from + 1) as nat
        },
        |k: int|
            Window {
                start: window_start(base, width, from + k) as i64,
                end: (window_start(base, width, from + k) + width) as i64,
            },
    )
}

/// Lists the windows from number `from` to number `last`.
fn list_windows(base: i64, width: i64, from: i32, last: i32) -> (windows: Vec<Window>)
    requires
        windows_fit(base as int, width as int, from as int, last as int),
    ensures
        windows@ == window_list(base as int, width as int, from as int, last as int),
{
    let ghost all = window_list(base as int, width as int, from as int, last as int);
    let mut windows: Vec<Window> = Vec::new();
    let mut i: i64 = from as i64;
    while i <= last as i64
        invariant
            from <= i,
            i <= last + 1 || last < from && i == from,
            windows_fit(base as int, width as int, from as int, last as int),
            all == window_list(base as int, width as int, from as int, last as int),
            windows@.len() == i - from,
            forall|k: int| 0 <= k < windows@.len() ==> #[trigger] windows@[k] == all[k],
        decreases last - i + 1,
    {
        assert(window_fits(base as int, width as int, i as int));
        let start: i64 = base + i * width;
        let end: i64 = start + width;
        windows.push(Window { start, end });
        i = i + 1;
    }
    assert(windows@ =~= all);
    windows
}

/// The windows that a new table gets: from the one before the current time to the one `premake`
/// windows after it.
pub open spec fn first_windows(now: int, width: int, premake: int) -> Seq<Window> {
    window_list(aligned(now, width), width, -1, premake)
}

/// The windows that a table should have: from the one with the current time to the one `premake`
/// windows after it.
pub open spec fn coming_windows(now: int, width: int, premake: int) -> Seq<Window> {
    window_list(aligned(now, width), width, 0, premake)
}

/// The windows that a new table gets: from the one before the current time to the one `premake`
/// windows after it.
pub fn initial_windows(now_usec: i64, interval_usec: i64, premake: i32) -> (windows: Vec<Window>)
    requires
        windows_defined(now_usec, interval_usec, -1, premake as int),
    ensures
        windows@ == first_windows(now_usec as int, interval_usec as int, premake as int),
{
    list_windows(align_to_interval(now_usec, interval_usec), interval_usec, -1, premake)
}

/// The windows that a table should have: from the one with the current time to the one `premake`
/// windows after it.
pub fn future_windows(now_usec: i64, interval_usec: i64, premake: i32) -> (windows: Vec<Window>)
    requires
        windows_defined(now_usec, interval_usec, 0, premake as int),
    ensures
        windows@ == coming_windows(now_usec as int, interval_usec as int, premake as int),
{
    list_windows(align_to_interval(now_usec, interval_usec), interval_usec, 0, premake)
}

/// Aligning rounds down to a multiple of the width, and leaves multiples as they are. The sign of
/// the width makes no difference.
pub proof fn law_align(ts: int, width: int)
    requires
        width != 0,
    ensures
        aligned(ts, width) <= ts,
        ts < aligned(ts, width) + width || ts < aligned(ts, width) - width,
        aligned(ts, width) % width == 0,
        aligned(aligned(ts, width), width) == aligned(ts, width),
        aligned(ts, -width) == aligned(ts, width),
{
    let q = ts / width;
    let m = ts % width;
    assert(ts == width * q + m && 0 <= m && (m < width || m < -width)) by (nonlinear_arith)
        requires
            width != 0,
            q == ts / width,
            m == ts % width,
    ;
    lemma_division_unique(ts - m, width, q, 0);
    assert(ts == (-width) * (-q) + m) by (nonlinear_arith)
        requires
            ts == width * q + m,
    ;
    lemma_division_unique(ts, -width, -q, m);
}

/// The windows of a table follow one another without gap or overlap, all have the width of the
/// interval and start at its multiples, and the current time lies in window number zero.
pub proof fn law_windows(now: int, width: int, from: int, premake: int)
    requires
        width > 0,
        from <= 0 <= premake,
        windows_fit(aligned(now, width), width, from, premake),
    ensures
        ({
            let windows = window_list(aligned(now, width), width, from, premake);
            &&& windows.len() == premake - from + 1
            &&& forall|k: int|
                0 <= k < windows.len() ==> {
                    &&& (#[trigger] windows[k]).end == windows[k].start + width
                    &&& windows[k].start as int % width == 0
                }
            &&& forall|k: int|
                0 <= k < windows.len() - 1 ==> (#[trigger] windows[k]).end == windows[k + 1].start
            &&& windows[-from].start <= now < windows[-from].end
        }),
{
    let base = aligned(now, width);
    let windows = window_list(base, width, from, premake);
    law_align(now, width);
    assert forall|k: int| 0 <= k < windows.len() implies {
        &&& (#[trigger] windows[k]).end == windows[k].start + width
        &&& windows[k].start as int % width == 0
    } by {
        assert(window_fits(base, width, from + k));
        let q = base / width;
        assert(base == width * q) by (nonlinear_arith)
            requires
                width > 0,
                q == base / width,
                base % width == 0,
        ;
        let i = from + k;
        assert(base + i * width == width * (q + i)) by (nonlinear_arith)
            requires
                base == width * q,
        ;
        lemma_division_unique(base + i * width, width, q + i, 0);
    }
    assert forall|k: int| 0 <= k < windows.len() - 1 implies (#[trigger] windows[k]).end
        == windows[k + 1].start by {
        let i = from + k;
        assert(window_fits(base, width, i));
        assert(window_fits(base, width, i + 1));
        assert((i + 1) * width == i * width + width) by (nonlinear_arith);
    }
    assert(window_fits(base, width, 0));
    assert(0 * width == 0) by (nonlinear_arith);
}

/// Windows of the same width that were listed at different times are the same or do not overlap.
pub proof fn law_windows_agree(
    now: int,
    later: int,
    width: int,
    premake: int,
    k: int,
    j: int,
)
    requires
        width > 0,
        premake >= 0,
        windows_fit(aligned(now, width), width, -1, premake),
        windows_fit(aligned(later, width), width, 0, premake),
        0 <= k < premake + 2,
        0 <= j < premake + 1,
    ensures
        ({
            let a = window_list(aligned(now, width), width, -1, premake)[k];
            let b = window_list(aligned(later, width), width, 0, premake)[j];
            a == b || a.end <= b.start || b.end <= a.start
        }),
{
    let a = window_list(aligned(now, width), width, -1, premake)[k];
    let b = window_list(aligned(later, width), width, 0, premake)[j];
    law_windows(now, width, -1, premake);
    law_windows(later, width, 0, premake);
    let p = a.start as int / width;
    let q = b.start as int / width;
    assert(a.start == width * p) by (nonlinear_arith)
        requires
            width > 0,
            p == a.start as int / width,
            a.start as int % width == 0,
    ;
    assert(b.start == width * q) by (nonlinear_arith)
        requires
            width > 0,
            q == b.start as int / width,
            b.start as int % width == 0,
    ;
    assert(p == q || a.start + width <= b.start || b.start + width <= a.start)
        by (nonlinear_arith)
        requires
            width > 0,
            a.start == width * p,
            b.start == width * q,
    ;
}

/// A run that creates the partitions which a table should have and lacks.
pub struct FutureRun {
    windows: Vec<Window>,
    next: usize,
    created: i32,
}

impl FutureRun {
    /// The windows that are still to be looked at.
    pub closed spec fn remaining(&self) -> Seq<Window> {
        self.windows@.skip(self.next as int)
    }

    /// How many partitions were missing so far.
    pub closed spec fn created_count(&self) -> int {
        self.created as int
    }

    /// Whether the run stands at one of its windows or at their end.
    pub closed spec fn wf(&self) -> bool {
        self.next <= self.windows@.len()
    }

    /// Whether a run is at the start of a list of windows.
    pub open spec fn starts(self, windows: Seq<Window>) -> bool {
        &&& self.wf()
        &&& self.remaining() == windows
        &&& self.created_count() == 0
    }

    /// Whether a run is one window further than another, given whether the partition of that
    /// window was to be created.
    pub open spec fn follows(self, before: FutureRun, create: bool) -> bool {
        &&& self.wf()
        &&& self.remaining() == before.remaining().skip(1)
        &&& self.created_count() == before.created_count() + if create {
            1int
        } else {
            0int
        }
    }

    /// Starts a run over the windows that a table should have.
    pub fn new(windows: Vec<Window>) -> (r: Self)
        ensures
            r.starts(windows@),
    {
        let r = FutureRun { windows, next: 0, created: 0 };
        assert(r.remaining() =~= windows@);
        r
    }

    /// The window to look at next.
    pub fn window(&self) -> (w: Option<Window>)
        requires
            self.wf(),
        ensures
            w == if self.remaining().len() > 0 {
                Some(self.remaining()[0])
            } else {
                None
            },
    {
        if self.next < self.windows.len() {
            Some(self.windows[self.next])
        } else {
            None
        }
    }

    /// Goes on to the next window, given whether the partition of this one is registered. Says
    /// whether it is to be created.
    pub fn answer(&mut self, exists_already: bool) -> (create: bool)
        requires
            old(self).wf(),
            old(self).remaining().len() > 0,
            exists_already || old(self).created_count() < i32::MAX,
        ensures
            create == !exists_already,
            final(self).follows(*old(self), create),
    {
        assert(self.next < self.windows.len());
        self.next = self.next + 1;
        assert(self.remaining() =~= old(self).remaining().skip(1));
        if !exists_already {
            self.created = self.created + 1;
        }
        !exists_already
    }

    /// How many partitions were missing.
    pub fn created(&self) -> (n: i32)
        ensures
            n == self.created_count(),
    {
        self.created
    }
}

/// The names of the partitions that are registered once a run has looked at its first `n`
/// windows: each that it finds missing is created and registered before it goes on.
pub open spec fn registered_after(
    names: Seq<Seq<char>>,
    registered: Set<Seq<char>>,
    n: nat,
) -> Set<Seq<char>>
    decreases n,
{
    if n == 0 {
        registered
    } else {
        let before = registered_after(names, registered, (n - 1) as nat);
        if before.contains(names[n - 1]) {
            before
        } else {
            before.insert(names[n - 1])
        }
    }
}

/// Whether the partition of a window is missing: its name is not registered, and no earlier window
/// has the same.
pub open spec fn is_missing(
    names: Seq<Seq<char>>,
    registered: Set<Seq<char>>,
    i: int,
) -> bool {
    &&& !registered.contains(names[i])
    &&& forall|j: int| 0 <= j < i ==> #[trigger] names[j] != names[i]
}

/// How many partitions of the first `n` windows are missing.
pub open spec fn missing_count(
    names: Seq<Seq<char>>,
    registered: Set<Seq<char>>,
    n: nat,
) -> nat
    decreases n,
{
    if n == 0 {
        0
    } else {
        missing_count(names, registered, (n - 1) as nat) + if is_missing(
            names,
            registered,
            n - 1,
        ) {
            1nat
        } else {
            0nat
        }
    }
}

/// What is registered during a run is what was before, and the partitions of the windows that the
/// run has looked at.
proof fn lemma_registered_after(names: Seq<Seq<char>>, registered: Set<Seq<char>>, n: nat)
    requires
        n <= names.len(),
    ensures
        forall|name: Seq<char>| #[trigger]
            registered_after(names, registered, n).contains(name) <==> registered.contains(name)
                || names.take(n as int).contains(name),
    decreases n,
{
    if n > 0 {
        lemma_registered_after(names, registered, (n - 1) as nat);
        let shorter = names.take(n - 1);
        let longer = names.take(n as int);
        assert(longer =~= shorter.push(names[n - 1]));
        assert forall|name: Seq<char>| longer.contains(name) <==> shorter.contains(name) || name
            == names[n - 1] by {
            if shorter.contains(name) {
                let k = choose|k: int| 0 <= k < shorter.len() && shorter[k] == name;
                assert(longer[k] == name);
            }
            if name == names[n - 1] {
                assert(longer[n - 1] == name);
            }
            if longer.contains(name) {
                let k = choose|k: int| 0 <= k < longer.len() && longer[k] == name;
                if k < n - 1 {
                    assert(shorter[k] == name);
                }
            }
        }
        let before = registered_after(names, registered, (n - 1) as nat);
        assert forall|name: Seq<char>| #[trigger]
            registered_after(names, registered, n).contains(name) <==> registered.contains(name)
                || longer.contains(name) by {
            assert(before.contains(name) <==> registered.contains(name) || shorter.contains(name));
        }
    } else {
        assert(names.take(0).len() == 0);
    }
}

/// Whether the states of a run over windows follow one another, where every answer says whether the
/// partition of the window is registered by then.
pub open spec fn is_run(
    runs: Seq<FutureRun>,
    windows: Seq<Window>,
    names: Seq<Seq<char>>,
    registered: Set<Seq<char>>,
) -> bool {
    &&& names.len() == windows.len()
    &&& runs.len() == windows.len() + 1
    &&& runs[0].starts(windows)
    &&& forall|i: int|
        0 <= i < windows.len() ==> (#[trigger] runs[i + 1]).follows(
            runs[i],
            !registered_after(names, registered, i as nat).contains(names[i]),
        )
}

/// A whole run looks at every window once, in their order. It creates the partitions that are
/// missing and no others, and counts them; where the names differ, those are the windows whose name
/// was not registered. Afterwards the partitions of all windows are registered, and nothing else
/// that was not before.
pub proof fn law_future_run(
    runs: Seq<FutureRun>,
    windows: Seq<Window>,
    names: Seq<Seq<char>>,
    registered: Set<Seq<char>>,
)
    requires
        is_run(runs, windows, names, registered),
    ensures
        runs.last().remaining().len() == 0,
        runs.last().created_count() == missing_count(names, registered, names.len()),
        forall|i: int|
            0 <= i < windows.len() ==> (#[trigger] runs[i]).remaining().len() > 0
                && runs[i].remaining()[0] == windows[i],
        forall|i: int|
            0 <= i < names.len() ==> registered_after(names, registered, i as nat).contains(
                #[trigger] names[i],
            ) == !is_missing(names, registered, i),
        names.no_duplicates() ==> forall|i: int|
            0 <= i < names.len() ==> is_missing(names, registered, i) == !registered.contains(
                #[trigger] names[i],
            ),
        registered_after(names, registered, names.len()) =~= registered.union(names.to_set()),
{
    lemma_run_upto(runs, windows, names, registered, names.len());
    assert forall|i: int| 0 <= i < windows.len() implies (#[trigger] runs[i]).remaining().len() > 0
        && runs[i].remaining()[0] == windows[i] by {
        lemma_run_upto(runs, windows, names, registered, i as nat);
    }
    assert forall|i: int| 0 <= i < names.len() implies registered_after(
        names,
        registered,
        i as nat,
    ).contains(#[trigger] names[i]) == !is_missing(names, registered, i) by {
        lemma_missing(names, registered, i);
    }
    lemma_registered_after(names, registered, names.len());
    assert(names.take(names.len() as int) =~= names);
}

/// A run over the windows that a table should have from now on: it looks at the ranges from the
/// one with the current time to the one `premake` ranges later, creates the partitions that are
/// missing among them and counts them, and leaves all of them registered. A second run at the same
/// time creates nothing.
pub proof fn law_future_partitions(
    now: i64,
    width: i64,
    premake: i32,
    runs: Seq<FutureRun>,
    again: Seq<FutureRun>,
    names: Seq<Seq<char>>,
    registered: Set<Seq<char>>,
)
    requires
        width > 0,
        premake >= 0,
        windows_defined(now, width, 0, premake as int),
        ({
            let base = aligned(now as int, width as int);
            let windows = window_list(base, width as int, 0, premake as int);
            &&& is_run(runs, windows, names, registered)
            &&& is_run(
                again,
                windows,
                names,
                registered_after(names, registered, names.len()),
            )
        }),
    ensures
        ({
            let base = aligned(now as int, width as int);
            &&& names.len() == premake + 1
            &&& base <= now < base + width
            &&& forall|i: int|
                0 <= i <= premake ==> {
                    let w = (#[trigger] runs[i]).remaining()[0];
                    w.start == base + i * width && w.end == base + (i + 1) * width
                }
            &&& runs.last().created_count() == missing_count(names, registered, names.len())
            &&& forall|i: int|
                0 <= i <= premake ==> registered_after(names, registered, names.len()).contains(
                    #[trigger] names[i],
                )
            &&& again.last().created_count() == 0
        }),
{
    let base = aligned(now as int, width as int);
    let windows = window_list(base, width as int, 0, premake as int);
    law_align(now as int, width as int);
    law_future_run(runs, windows, names, registered);
    law_second_run(names, registered);
    law_future_run(again, windows, names, registered_after(names, registered, names.len()));
    assert forall|i: int| 0 <= i <= premake implies {
        let w = (#[trigger] runs[i]).remaining()[0];
        w.start == base + i * width && w.end == base + (i + 1) * width
    } by {
        assert(window_fits(base, width as int, i));
        assert((i + 1) * width == i * width + width) by (nonlinear_arith);
        assert(runs[i].remaining()[0] == windows[i]);
    }
}

/// A partition is missing when the run comes to its window unless it is registered by then.
proof fn lemma_missing(names: Seq<Seq<char>>, registered: Set<Seq<char>>, i: int)
    requires
        0 <= i < names.len(),
    ensures
        registered_after(names, registered, i as nat).contains(names[i]) == !is_missing(
            names,
            registered,
            i,
        ),
{
    lemma_registered_after(names, registered, i as nat);
    let before = names.take(i);
    if before.contains(names[i]) {
        let k = choose|k: int| 0 <= k < before.len() && before[k] == names[i];
        assert(names[k] == names[i]);
    } else {
        assert forall|j: int| 0 <= j < i implies #[trigger] names[j] != names[i] by {
            assert(before[j] == names[j]);
        }
    }
}

/// What a run has left and has counted after the first `n` windows.
proof fn lemma_run_upto(
    runs: Seq<FutureRun>,
    windows: Seq<Window>,
    names: Seq<Seq<char>>,
    registered: Set<Seq<char>>,
    n: nat,
)
    requires
        n <= windows.len(),
        is_run(runs, windows, names, registered),
    ensures
        runs[n as int].remaining() == windows.skip(n as int),
        runs[n as int].created_count() == missing_count(names, registered, n),
    decreases n,
{
    if n == 0 {
        assert(windows.skip(0) =~= windows);
    } else {
        lemma_run_upto(runs, windows, names, registered, (n - 1) as nat);
        lemma_missing(names, registered, n - 1);
        assert(runs[(n - 1) + 1].follows(
            runs[n - 1],
            !registered_after(names, registered, (n - 1) as nat).contains(names[n - 1]),
        ));
        assert(windows.skip(n - 1).skip(1) =~= windows.skip(n as int));
    }
}

/// Once a run has ended, a second one over the same windows finds nothing missing.
pub proof fn law_second_run(names: Seq<Seq<char>>, registered: Set<Seq<char>>)
    ensures
        ({
            let after = registered_after(names, registered, names.len());
            &&& missing_count(names, after, names.len()) == 0
            &&& forall|i: int| 0 <= i < names.len() ==> after.contains(#[trigger] names[i])
            &&& registered_after(names, after, names.len()) =~= after
        }),
{
    let after = registered_after(names, registered, names.len());
    lemma_registered_after(names, registered, names.len());
    assert(names.take(names.len() as int) =~= names);
    assert forall|i: int| 0 <= i < names.len() implies after.contains(#[trigger] names[i]) by {
        assert(names.contains(names[i]));
    }
    lemma_none_missing(names, after, names.len());
    lemma_registered_after(names, after, names.len());
    assert forall|name: Seq<char>| names.contains(name) implies after.contains(name) by {
        let k = choose|k: int| 0 <= k < names.len() && names[k] == name;
        assert(after.contains(names[k]));
    }
}

/// Where the partitions of all windows are registered, none is missing.
proof fn lemma_none_missing(names: Seq<Seq<char>>, registered: Set<Seq<char>>, n: nat)
    requires
        n <= names.len(),
        forall|i: int| 0 <= i < names.len() ==> registered.contains(#[trigger] names[i]),
    ensures
        missing_count(names, registered, n) == 0,
    decreases n,
{
    if n > 0 {
        lemma_none_missing(names, registered, (n - 1) as nat);
        assert(registered.contains(names[n - 1]));
    }
}

// ---------------------------------------------------------------------------
// Names and statements
// ---------------------------------------------------------------------------

/// A table name in quotes, with its schema unless that is `public`.
pub open spec fn qualified_name(schema: Seq<char>, table: Seq<char>) -> Seq<char> {
    if schema == "public"@ {
        "\""@ + table + "\""@
    } else {
        "\""@ + schema + "\".\""@ + table + "\""@
    }
}

/// Formats a table name in quotes, with its schema unless that is `public`.
pub fn fqn(schema: &str, table: &str) -> (s: String)
    ensures
        s@ == qualified_name(schema@, table@),
{
    let mut s: String = "\"".to_string();
    if !text::str_eq(schema, "public") {
        s.append(schema);
        s.append("\".\"");
    }
    s.append(table);
    s.append("\"");
    s
}

/// The query that formats the start of a partition for its name: to the day, or to the minute for
/// partitions shorter than a day.
pub open spec fn date_part_query(interval_usec: int) -> Seq<char> {
    if interval_usec >= USEC_PER_DAY {
        "SELECT to_char(to_timestamp($1), 'YYYYMMDD')"@
    } else {
        "SELECT to_char(to_timestamp($1), 'YYYYMMDD_HH24MI')"@
    }
}

/// Chooses the query that formats the start of a partition for its name.
pub fn partition_date_query(interval_usec: i64) -> (q: &'static str)
    ensures
        q@ == date_part_query(interval_usec as int),
{
    if interval_usec >= USEC_PER_DAY {
        "SELECT to_char(to_timestamp($1), 'YYYYMMDD')"
    } else {
        "SELECT to_char(to_timestamp($1), 'YYYYMMDD_HH24MI')"
    }
}

/// The name of a partition, from that of its table and the formatted start of its range.
pub open spec fn name_of_partition(table: Seq<char>, date_part: Seq<char>) -> Seq<char> {
    table + "_p"@ + date_part
}

/// The name of a partition, from that of its table and the formatted start of its range.
pub fn partition_name(table_name: &str, date_part: &str) -> (s: String)
    ensures
        s@ == name_of_partition(table_name@, date_part@),
{
    let mut s: String = table_name.to_string();
    s.append("_p");
    s.append(date_part);
    s
}

/// The statement that creates a partition.
pub open spec fn partition_statement(
    schema: Seq<char>,
    table: Seq<char>,
    part_name: Seq<char>,
    range_start: Seq<char>,
    range_end: Seq<char>,
) -> Seq<char> {
    "CREATE TABLE IF NOT EXISTS "@ + qualified_name(schema, part_name) + " PARTITION OF "@
        + qualified_name(schema, table) + " FOR VALUES FROM ('"@ + range_start + "') TO ('"@
        + range_end + "')"@
}

/// Writes the statement that creates a partition.
pub fn create_partition(
    schema_name: &str,
    table_name: &str,
    part_name: &str,
    range_start: &str,
    range_end: &str,
) -> (s: String)
    ensures
        s@ == partition_statement(
            schema_name@,
            table_name@,
            part_name@,
            range_start@,
            range_end@,
        ),
{
    let parent = fqn(schema_name, table_name);
    let child = fqn(schema_name, part_name);
    let mut s: String = "CREATE TABLE IF NOT EXISTS ".to_string();
    s.append(child.as_str());
    s.append(" PARTITION OF ");
    s.append(parent.as_str());
    s.append(" FOR VALUES FROM ('");
    s.append(range_start);
    s.append("') TO ('");
    s.append(range_end);
    s.append("')");
    s
}

/// The statement that creates the partition for all times outside the windows.
pub open spec fn default_statement(schema: Seq<char>, table: Seq<char>) -> Seq<char> {
    "CREATE TABLE IF NOT EXISTS "@ + qualified_name(schema, table + "_default"@)
        + " PARTITION OF "@ + qualified_name(schema, table) + " DEFAULT"@
}

/// Writes the statement that creates the partition for all times outside the windows.
pub fn create_default_partition(schema_name: &str, table_name: &str) -> (s: String)
    ensures
        s@ == default_statement(schema_name@, table_name@),
{
    let mut default_name: String = table_name.to_string();
    default_name.append("_default");
    let parent = fqn(schema_name, table_name);
    let child = fqn(schema_name, default_name.as_str());
    let mut s: String = "CREATE TABLE IF NOT EXISTS ".to_string();
    s.append(child.as_str());
    s.append(" PARTITION OF ");
    s.append(parent.as_str());
    s.append(" DEFAULT");
    s
}

/// The query that asks whether a table holds rows.
pub open spec fn rows_query(schema: Seq<char>, table: Seq<char>) -> Seq<char> {
    "SELECT EXISTS (SELECT 1 FROM \""@ + schema + "\".\""@ + table + "\" LIMIT 1)"@
}

/// Writes the query that asks whether a table holds rows.
pub fn build_rows_query(schema: &str, table: &str) -> (s: String)
    ensures
        s@ == rows_query(schema@, table@),
{
    let mut s: String = "SELECT EXISTS (SELECT 1 FROM \"".to_string();
    s.append(schema);
    s.append("\".\"");
    s.append(table);
    s.append("\" LIMIT 1)");
    s
}

/// The statements that turn an empty table into a partitioned one: it is set aside, created again
/// with the same structure, and dropped.
pub open spec fn convert_statements(
    schema: Seq<char>,
    table: Seq<char>,
    time_column: Seq<char>,
) -> Seq<Seq<char>> {
    let tmp_name = "_cocoon_tmp_"@ + table;
    seq![
        "ALTER TABLE "@ + qualified_name(schema, table) + " RENAME TO \""@ + tmp_name + "\""@,
        "CREATE TABLE "@ + qualified_name(schema, table) + " (LIKE "@ + qualified_name(
            schema,
            tmp_name,
        ) + " INCLUDING ALL) PARTITION BY RANGE (\""@ + time_column + "\")"@,
        "DROP TABLE "@ + qualified_name(schema, tmp_name),
    ]
}

/// Writes the statements that turn an empty table into a partitioned one.
pub fn convert_to_partitioned(schema: &str, table: &str, time_column: &str) -> (statements: Vec<
    String,
>)
    ensures
        text::views(statements@) == convert_statements(schema@, table@, time_column@),
{
    let table_fqn = fqn(schema, table);
    let mut tmp_name: String = "_cocoon_tmp_".to_string();
    tmp_name.append(table);
    let tmp_fqn = fqn(schema, tmp_name.as_str());

    let mut rename: String = "ALTER TABLE ".to_string();
    rename.append(table_fqn.as_str());
    rename.append(" RENAME TO \"");
    rename.append(tmp_name.as_str());
    rename.append("\"");

    let mut create: String = "CREATE TABLE ".to_string();
    create.append(table_fqn.as_str());
    create.append(" (LIKE ");
    create.append(tmp_fqn.as_str());
    create.append(" INCLUDING ALL) PARTITION BY RANGE (\"");
    create.append(time_column);
    create.append("\")");

    let mut drop_tmp: String = "DROP TABLE ".to_string();
    drop_tmp.append(tmp_fqn.as_str());

    let mut statements: Vec<String> = Vec::new();
    statements.push(rename);
    statements.push(create);
    statements.push(drop_tmp);
    assert(text::views(statements@) =~= convert_statements(schema@, table@, time_column@));
    statements
}

/// A relation name, split at its dot.
pub enum Relation {
    /// A table without a schema.
    Table(String),
    /// A schema and a table.
    Qualified(String, String),
    /// More than two parts.
    Invalid,
}

/// Splits a relation name into schema and table.
pub fn split_relation(relation: &str) -> (r: Relation)
    ensures
        match r {
            Relation::Table(table) => table@ == relation@ && !relation@.contains('.'),
            Relation::Qualified(schema, table) => {
                &&& relation@ == schema@ + seq!['.'] + table@
                &&& !schema@.contains('.')
                &&& !table@.contains('.')
            },
            Relation::Invalid => exists|i: int, j: int|
                0 <= i < j < relation@.len() && #[trigger] relation@[i] == '.'
                    && #[trigger] relation@[j] == '.',
        },
{
    let len: usize = relation.unicode_len();
    let mut dot: Option<usize> = None;
    let mut i: usize = 0;
    while i < len
        invariant
            i <= len,
            len == relation@.len(),
            match dot {
                Some(d) => {
                    &&& d < i
                    &&& relation@[d as int] == '.'
                    &&& forall|k: int| 0 <= k < i && k != d ==> #[trigger] relation@[k] != '.'
                },
                None => forall|k: int| 0 <= k < i ==> #[trigger] relation@[k] != '.',
            },
        decreases len - i,
    {
        if relation.get_char(i) == '.' {
            if dot.is_some() {
                return Relation::Invalid;
            }
            dot = Some(i);
        }
        i = i + 1;
    }
    match dot {
        Some(d) => {
            let schema = relation.substring_char(0, d);
            let table = relation.substring_char(d + 1, len);
            assert(relation@ =~= schema@ + seq!['.'] + table@);
            Relation::Qualified(schema.to_string(), table.to_string())
        },
        None => Relation::Table(relation.to_string()),
    }
}

/// Checks the type of the time column, as far as the table has one of that name.
pub fn validate_time_column(
    schema: &str,
    table: &str,
    time_column: &str,
    data_type: Option<&str>,
) -> (r: Result<(), PartitionError>)
    ensures
        match r {
            Ok(_) => data_type is Some && text::contains_text(data_type->0@, "timestamp"@),
            Err(e) => e@ == match data_type {
                None => ErrorModel::ColumnNotFound {
                    column: time_column@,
                    schema: schema@,
                    table: table@,
                },
                Some(dt) => ErrorModel::NotATimestamp { column: time_column@, data_type: dt@ },
            } && (data_type is Some ==> !text::contains_text(data_type->0@, "timestamp"@)),
        },
{
    match data_type {
        None => Err(
            PartitionError::ColumnNotFound {
                column: time_column.to_string(),
                schema: schema.to_string(),
                table: table.to_string(),
            },
        ),
        Some(dt) => {
            if text::contains(dt, "timestamp") {
                Ok(())
            } else {
                Err(
                    PartitionError::NotATimestamp {
                        column: time_column.to_string(),
                        data_type: dt.to_string(),
                    },
                )
            }
        },
    }
}

// ---------------------------------------------------------------------------
// Laws of lengths and names
// ---------------------------------------------------------------------------

/// The length of an interval is that of its parts: a day has 24 hours, an hour 60 minutes, a minute
/// 60 seconds and a second a million microseconds, and a part that is not known has none. Months
/// count only if there are any.
pub proof fn law_interval_length(interval: IntervalParts, n: i64)
    ensures
        interval_length(
            IntervalParts { months: None, days: None, hours: None, minutes: None, seconds: None },
        ) == 0,
        interval_length(IntervalParts { seconds: Some(n), ..interval }) == interval_length(
            IntervalParts { seconds: None, ..interval },
        ) + n * 1_000_000,
        interval_length(IntervalParts { minutes: Some(n), ..interval }) == interval_length(
            IntervalParts { minutes: None, ..interval },
        ) + n * 60 * 1_000_000,
        interval_length(IntervalParts { hours: Some(n), ..interval }) == interval_length(
            IntervalParts { hours: None, ..interval },
        ) + n * 60 * 60 * 1_000_000,
        interval_length(IntervalParts { days: Some(n), ..interval }) == interval_length(
            IntervalParts { days: None, ..interval },
        ) + n * 24 * 60 * 60 * 1_000_000,
        interval.months is None || interval.months == Some(0i32) <==> !has_months(interval),
{
}

/// The names of two tables of a schema differ if the tables do, and only tables of `public` are named
/// without their schema.
pub proof fn law_qualified_names(
    schema: Seq<char>,
    other_schema: Seq<char>,
    table: Seq<char>,
    other: Seq<char>,
)
    ensures
        qualified_name(schema, table) == qualified_name(schema, other) ==> table == other,
        schema != "public"@ && other_schema != "public"@ && qualified_name(schema, table)
            == qualified_name(other_schema, table) ==> schema == other_schema,
        qualified_name("public"@, table).len() == table.len() + 2,
        schema != "public"@ ==> qualified_name(schema, table).len() == schema.len() + table.len()
            + 5,
        schema != "public"@ ==> qualified_name(schema, table).subrange(
            1,
            1 + schema.len() as int,
        ) == schema,
        ({
            let name = qualified_name(schema, table);
            &&& name[0] == '"' && name.last() == '"'
            &&& name.subrange(name.len() - 1 - table.len(), name.len() - 1) == table
        }),
{
    reveal_strlit("\"");
    reveal_strlit("\".\"");
    let a = qualified_name(schema, table);
    let b = qualified_name(schema, other);
    assert(a.subrange(a.len() - 1 - table.len(), a.len() - 1) =~= table);
    assert(b.subrange(b.len() - 1 - other.len(), b.len() - 1) =~= other);
    if a == b {
        assert(table.len() == other.len());
    }
    if schema != "public"@ {
        assert(a.subrange(1, 1 + schema.len() as int) =~= schema);
    }
    let c = qualified_name(other_schema, table);
    if schema != "public"@ && other_schema != "public"@ && a == c {
        assert(c.subrange(1, 1 + other_schema.len() as int) =~= other_schema);
        assert(schema.len() == other_schema.len());
    }
}

/// Partitions of a day or more are named by the day, and shorter ones, of which a day has several, by
/// the minute as well.
pub proof fn law_partition_dates(width: int)
    ensures
        width >= 86_400_000_000 ==> date_part_query(width)
            == "SELECT to_char(to_timestamp($1), 'YYYYMMDD')"@,
        width < 86_400_000_000 ==> date_part_query(width)
            == "SELECT to_char(to_timestamp($1), 'YYYYMMDD_HH24MI')"@,
{
}

/// What is reported of an error names what it is about.
pub proof fn law_errors_name_their_subject(
    column: Seq<char>,
    schema: Seq<char>,
    table: Seq<char>,
    data_type: Seq<char>,
)
    ensures
        text::contains_text(error_text(ErrorModel::TableNotFound { relation: table }), table),
        text::contains_text(error_text(ErrorModel::InvalidRelation { relation: table }), table),
        text::contains_text(
            error_text(ErrorModel::ColumnNotFound { column, schema, table }),
            column,
        ),
        text::ends_with_text(
            error_text(ErrorModel::ColumnNotFound { column, schema, table }),
            schema + "."@ + table,
        ),
        text::contains_text(error_text(ErrorModel::NotATimestamp { column, data_type }), column),
        text::contains_text(
            error_text(ErrorModel::NotATimestamp { column, data_type }),
            data_type,
        ),
        text::contains_text(
            error_text(ErrorModel::NotEmpty { schema, table }),
            schema + "."@ + table,
        ),
        text::contains_text(
            error_text(ErrorModel::NotManaged { schema, table }),
            schema + "."@ + table,
        ),
{
    let full = schema + "."@ + table;
    let e1 = error_text(ErrorModel::TableNotFound { relation: table });
    assert(e1 == "pg_cocoon: table '"@ + table + "' not found"@);
    text::law_substrings(e1, table);
    let e2 = error_text(ErrorModel::InvalidRelation { relation: table });
    assert(e2 == "pg_cocoon: invalid relation name '"@ + table + "'"@);
    text::law_substrings(e2, table);
    let e3 = error_text(ErrorModel::ColumnNotFound { column, schema, table });
    let tail3 = "' not found in table "@ + full;
    assert(e3 =~= "pg_cocoon: column '"@ + column + tail3);
    text::law_substrings(e3, column);
    let head3 = "pg_cocoon: column '"@ + column + "' not found in table "@;
    assert(e3 =~= head3 + full);
    text::law_substrings(e3, full);
    let e4 = error_text(ErrorModel::NotATimestamp { column, data_type });
    let tail4 = "' has type '"@ + data_type + "', expected a timestamp type"@;
    assert(e4 =~= "pg_cocoon: column '"@ + column + tail4);
    text::law_substrings(e4, column);
    let head4 = "pg_cocoon: column '"@ + column + "' has type '"@;
    assert(e4 =~= head4 + data_type + "', expected a timestamp type"@);
    text::law_substrings(e4, data_type);
    let e5 = error_text(ErrorModel::NotEmpty { schema, table });
    assert(e5 =~= "pg_cocoon: table "@ + full
        + " is not empty. Only empty tables are supported."@);
    text::law_substrings(e5, full);
    let e6 = error_text(ErrorModel::NotManaged { schema, table });
    assert(e6 =~= "pg_cocoon: table "@ + full + " is not a cocoon table"@);
    text::law_substrings(e6, full);
}

/// The length of an interval without negative parts can be computed exactly if it fits in 64 bits.
pub proof fn law_computable_lengths(interval: IntervalParts)
    requires
        interval.days matches Some(n) ==> n >= 0,
        interval.hours matches Some(n) ==> n >= 0,
        interval.minutes matches Some(n) ==> n >= 0,
        interval.seconds matches Some(n) ==> n >= 0,
    ensures
        length_fits(interval) <==> interval_length(interval) <= 0x7fff_ffff_ffff_ffff,
{
}

/// Windows can be computed around every time and for every positive width as long as they end in
/// 64 bits.
pub proof fn law_computable_windows(now: i64, width: i64, from: int, last: int)
    requires
        width > 0,
        from <= 0 <= last,
        -0x8000_0000_0000_0000 <= from * width,
        (last + 1) * width <= 0x7fff_ffff_ffff_ffff,
        -0x8000_0000_0000_0000 <= now - width + from * width,
        now + (last + 1) * width <= 0x7fff_ffff_ffff_ffff,
    ensures
        windows_defined(now, width, from, last),
{
    law_align(now as int, width as int);
    let base = aligned(now as int, width as int);
    assert(now - width < base <= now);
    assert(from * width <= 0 && 0 <= last * width) by (nonlinear_arith)
        requires
            from <= 0 <= last,
            width > 0,
    ;
    assert((last + 1) * width == last * width + width) by (nonlinear_arith);
    assert forall|i: int| from <= i <= last implies #[trigger] window_fits(base, width as int, i) by {
        assert(from * width <= i * width && i * width <= last * width) by (nonlinear_arith)
            requires
                from <= i <= last,
                width > 0,
        ;
    }
}

/// A new table gets the window with the current time, the one before it and `premake` after it; later
/// a table should have the window with the current time and `premake` after it.
pub proof fn law_windows_around_now(now: int, width: int, premake: int)
    requires
        width > 0,
        premake >= 0,
        windows_fit(aligned(now, width), width, -1, premake),
    ensures
        ({
            let first = first_windows(now, width, premake);
            let coming = coming_windows(now, width, premake);
            &&& first.len() == premake + 2
            &&& first[1].start <= now < first[1].end
            &&& first[0].end == first[1].start
            &&& coming.len() == premake + 1
            &&& coming[0].start <= now < coming[0].end
            &&& forall|k: int| 0 <= k < coming.len() ==> #[trigger] coming[k] == first[k + 1]
        }),
{
    assert forall|i: int| 0 <= i <= premake implies #[trigger] window_fits(
        aligned(now, width),
        width,
        i,
    ) by {}
    law_windows(now, width, -1, premake);
    law_windows(now, width, 0, premake);
}

/// Partitions of a table that start at different times have different names, each with the name of
/// the table in front and the time at the end.
pub proof fn law_partition_names(table: Seq<char>, date_part: Seq<char>, other: Seq<char>)
    ensures
        name_of_partition(table, date_part) == name_of_partition(table, other) ==> date_part
            == other,
        name_of_partition(table, date_part).take(table.len() as int) == table,
        name_of_partition(table, date_part).skip(table.len() as int + 2) == date_part,
        name_of_partition(table, date_part).len() == table.len() + 2 + date_part.len(),
{
    reveal_strlit("_p");
    assert(name_of_partition(table, date_part).take(table.len() as int) =~= table);
    assert(name_of_partition(table, date_part).skip(table.len() as int + 2) =~= date_part);
    assert(name_of_partition(table, other).skip(table.len() as int + 2) =~= other);
}

/// The statement for a partition creates the partition, under its own name, as one of its table, for
/// the times from the start of its range up to its end; that for the default partition creates a
/// table named after its table, for all other times.
pub proof fn law_partition_statements(
    schema: Seq<char>,
    table: Seq<char>,
    part_name: Seq<char>,
    range_start: Seq<char>,
    range_end: Seq<char>,
)
    ensures
        ({
            let s = partition_statement(schema, table, part_name, range_start, range_end);
            &&& text::starts_with_text(
                s,
                "CREATE TABLE IF NOT EXISTS "@ + qualified_name(schema, part_name)
                    + " PARTITION OF "@ + qualified_name(schema, table),
            )
            &&& text::ends_with_text(
                s,
                " FOR VALUES FROM ('"@ + range_start + "') TO ('"@ + range_end + "')"@,
            )
        }),
        ({
            let s = default_statement(schema, table);
            &&& text::starts_with_text(
                s,
                "CREATE TABLE IF NOT EXISTS "@ + qualified_name(schema, table + "_default"@),
            )
            &&& text::ends_with_text(
                s,
                " PARTITION OF "@ + qualified_name(schema, table) + " DEFAULT"@,
            )
        }),
{
    let s = partition_statement(schema, table, part_name, range_start, range_end);
    let head = "CREATE TABLE IF NOT EXISTS "@ + qualified_name(schema, part_name)
        + " PARTITION OF "@ + qualified_name(schema, table);
    let tail = " FOR VALUES FROM ('"@ + range_start + "') TO ('"@ + range_end + "')"@;
    assert(s =~= head + tail);
    text::law_substrings(s, head);
    text::law_substrings(s, tail);
    let d = default_statement(schema, table);
    let first = "CREATE TABLE IF NOT EXISTS "@ + qualified_name(schema, table + "_default"@);
    let last = " PARTITION OF "@ + qualified_name(schema, table) + " DEFAULT"@;
    assert(d =~= first + last);
    text::law_substrings(d, first);
    text::law_substrings(d, last);
}

/// An empty table is converted in three steps: it gets another name, a table with its own name is
/// made in its likeness and partitioned by the time column, and the one that was set aside, and no
/// other, is dropped.
pub proof fn law_conversion(schema: Seq<char>, table: Seq<char>, time_column: Seq<char>)
    ensures
        ({
            let s = convert_statements(schema, table, time_column);
            let aside = "_cocoon_tmp_"@ + table;
            &&& s.len() == 3
            &&& text::starts_with_text(s[0], "ALTER TABLE "@ + qualified_name(schema, table))
            &&& text::ends_with_text(s[0], " RENAME TO \""@ + aside + "\""@)
            &&& text::starts_with_text(
                s[1],
                "CREATE TABLE "@ + qualified_name(schema, table) + " (LIKE "@ + qualified_name(
                    schema,
                    aside,
                ),
            )
            &&& text::ends_with_text(s[1], " PARTITION BY RANGE (\""@ + time_column + "\")"@)
            &&& s[2] == "DROP TABLE "@ + qualified_name(schema, aside)
            &&& aside != table
        }),
{
    let s = convert_statements(schema, table, time_column);
    let aside = "_cocoon_tmp_"@ + table;
    reveal_strlit("_cocoon_tmp_");
    assert(aside.len() == table.len() + 12);
    let a1 = "ALTER TABLE "@ + qualified_name(schema, table);
    let a2 = " RENAME TO \""@ + aside + "\""@;
    assert(s[0] =~= a1 + a2);
    text::law_substrings(s[0], a1);
    text::law_substrings(s[0], a2);
    let b1 = "CREATE TABLE "@ + qualified_name(schema, table) + " (LIKE "@ + qualified_name(
        schema,
        aside,
    );
    let b2 = " INCLUDING ALL) PARTITION BY RANGE (\""@ + time_column + "\")"@;
    assert(s[1] =~= b1 + b2);
    text::law_substrings(s[1], b1);
    let b3 = " PARTITION BY RANGE (\""@ + time_column + "\")"@;
    reveal_strlit(" INCLUDING ALL) PARTITION BY RANGE (\"");
    reveal_strlit(" INCLUDING ALL)");
    reveal_strlit(" PARTITION BY RANGE (\"");
    assert(" INCLUDING ALL) PARTITION BY RANGE (\""@ =~= " INCLUDING ALL)"@
        + " PARTITION BY RANGE (\""@);
    assert(s[1] =~= (b1 + " INCLUDING ALL)"@) + b3);
    text::law_substrings(s[1], b3);
}

} // verus!
