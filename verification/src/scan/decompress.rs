//! From decoded column values to datums.
//!
//! Numbers are stored in the datum itself; a text is built outside and referred to by its datum.

use crate::compression::{CompressedColumn, CompressionType};
use crate::scan::datum::{
    Cell, Datum, DATEOID, FLOAT4OID, INT2OID, INT4OID, INT8OID, PG_EPOCH_OFFSET_DAYS,
    PG_EPOCH_OFFSET_USEC, TIMESTAMPOID, TIMESTAMPTZOID, USEC_PER_DAY,
};
use crate::scan::nulls::reinsert_nulls_datum;
use crate::text;
use vstd::prelude::*;

verus! {

/// Which decoder reads the data of a column.
#[derive(Clone, Copy, PartialEq, Eq, Structural, Debug)]
pub enum Codec {
    /// Microseconds since the Unix epoch.
    Timestamps,
    /// 32-bit floating-point numbers.
    Floats32,
    /// 64-bit floating-point numbers.
    Floats64,
    /// 32-bit integers.
    Integers32,
    /// 64-bit integers.
    Integers64,
    /// Strings.
    Texts,
    /// Truth values.
    Booleans,
}

/// The decoded values of the non-null rows of a column. Floating-point numbers stand as their
/// bits, texts as the datums that refer to them.
pub enum Decoded {
    Timestamps(Vec<i64>),
    Floats32(Vec<u32>),
    Floats64(Vec<u64>),
    Integers32(Vec<i32>),
    Integers64(Vec<i64>),
    Texts(Vec<Datum>),
    Booleans(Vec<bool>),
}

/// Whether the values come from the decoder.
pub open spec fn comes_from(decoded: Decoded, codec: Codec) -> bool {
    match decoded {
        Decoded::Timestamps(_) => codec == Codec::Timestamps,
        Decoded::Floats32(_) => codec == Codec::Floats32,
        Decoded::Floats64(_) => codec == Codec::Floats64,
        Decoded::Integers32(_) => codec == Codec::Integers32,
        Decoded::Integers64(_) => codec == Codec::Integers64,
        Decoded::Texts(_) => codec == Codec::Texts,
        Decoded::Booleans(_) => codec == Codec::Booleans,
    }
}

/// The number of decoded values.
pub open spec fn value_count(decoded: Decoded) -> nat {
    match decoded {
        Decoded::Timestamps(v) => v@.len(),
        Decoded::Floats32(v) => v@.len(),
        Decoded::Floats64(v) => v@.len(),
        Decoded::Integers32(v) => v@.len(),
        Decoded::Integers64(v) => v@.len(),
        Decoded::Texts(v) => v@.len(),
        Decoded::Booleans(v) => v@.len(),
    }
}

/// The decoder for a column, by its compression and the lower-case name of its type.
pub open spec fn codec_of(tag: CompressionType, data_type: Seq<char>) -> Codec {
    match tag {
        CompressionType::Gorilla => if text::contains_text(data_type, "timestamp"@) || data_type
            == "date"@ {
            Codec::Timestamps
        } else if data_type == "real"@ || text::contains_text(data_type, "float4"@) {
            Codec::Floats32
        } else {
            Codec::Floats64
        },
        CompressionType::DeltaVarint => if data_type == "integer"@ || text::contains_text(
            data_type,
            "int4"@,
        ) || data_type == "smallint"@ {
            Codec::Integers32
        } else {
            Codec::Integers64
        },
        CompressionType::BooleanBitmap => Codec::Booleans,
        _ => Codec::Texts,
    }
}

/// The days from the PostgreSQL epoch to a time; times before the Unix epoch are rounded towards
/// it.
pub open spec fn pg_days(usec: int) -> int {
    let days = if usec >= 0 {
        usec / (USEC_PER_DAY as int)
    } else {
        -((-usec) / (USEC_PER_DAY as int))
    };
    days - PG_EPOCH_OFFSET_DAYS
}

/// The number that the low 16 bits of an integer hold.
pub open spec fn low16(v: int) -> int {
    let low = v % 0x1_0000;
    if low < 0x8000 {
        low
    } else {
        low - 0x1_0000
    }
}

/// The word of a decoded time, by the lower-case name of the type.
pub open spec fn time_word(usec: i64, data_type: Seq<char>) -> u64 {
    if data_type == "date"@ {
        crate::scan::datum::word_of(pg_days(usec as int))
    } else {
        crate::scan::datum::word_of(usec - PG_EPOCH_OFFSET_USEC)
    }
}

/// The word of a decoded 32-bit integer, by the lower-case name of the type.
pub open spec fn integer_word(v: i32, data_type: Seq<char>) -> u64 {
    if data_type == "smallint"@ {
        crate::scan::datum::word_of(low16(v as int))
    } else {
        crate::scan::datum::word_of(v as int)
    }
}

/// The datums of decoded values, by the lower-case name of the type.
pub open spec fn datums_of(decoded: Decoded, data_type: Seq<char>) -> Seq<Datum> {
    match decoded {
        Decoded::Timestamps(v) => v@.map_values(
            |u: i64| Datum { word: time_word(u, data_type) },
        ),
        Decoded::Floats32(v) => v@.map_values(|b: u32| Datum { word: b as u64 }),
        Decoded::Floats64(v) => v@.map_values(|b: u64| Datum { word: b }),
        Decoded::Integers32(v) => v@.map_values(
            |i: i32| Datum { word: integer_word(i, data_type) },
        ),
        Decoded::Integers64(v) => v@.map_values(
            |i: i64| Datum { word: crate::scan::datum::word_of(i as int) },
        ),
        Decoded::Texts(v) => v@,
        Decoded::Booleans(v) => v@.map_values(
            |b: bool|
                Datum {
                    word: if b {
                        1
                    } else {
                        0
                    },
                },
        ),
    }
}

/// Whether all decoded times can be counted from the PostgreSQL epoch, by the lower-case name of
/// the type. Days always can.
pub open spec fn times_fit(decoded: Decoded, data_type: Seq<char>) -> bool {
    data_type != "date"@ ==> (decoded matches Decoded::Timestamps(v) ==> forall|i: int|
        0 <= i < v@.len() ==> (#[trigger] v@[i]) - PG_EPOCH_OFFSET_USEC >= i64::MIN)
}

/// The cells of a column, given the decoded values of its non-null rows.
pub open spec fn column_cells(
    column: CompressedColumn,
    data_type: Seq<char>,
    decoded: Decoded,
) -> Seq<Cell> {
    crate::scan::nulls::expanded_cells(
        datums_of(decoded, text::lower_text(data_type)),
        column.null_bitmap@,
        column.row_count as nat,
    )
}

/// The decoder for a column, by its compression and the name of its type in any case.
pub open spec fn codec_for(tag: CompressionType, data_type: Seq<char>) -> Codec {
    codec_of(tag, text::lower_text(data_type))
}

/// The decoder for a column, by its compression and the name of its type in any case.
pub fn column_codec(tag: CompressionType, data_type: &str) -> (codec: Codec)
    ensures
        codec == codec_for(tag, data_type@),
{
    let dt = text::to_lowercase(data_type);
    let dt = dt.as_str();
    match tag {
        CompressionType::Gorilla => {
            if text::contains(dt, "timestamp") || text::str_eq(dt, "date") {
                Codec::Timestamps
            } else if text::str_eq(dt, "real") || text::contains(dt, "float4") {
                Codec::Floats32
            } else {
                Codec::Floats64
            }
        },
        CompressionType::DeltaVarint => {
            if text::str_eq(dt, "integer") || text::contains(dt, "int4") || text::str_eq(
                dt,
                "smallint",
            ) {
                Codec::Integers32
            } else {
                Codec::Integers64
            }
        },
        CompressionType::BooleanBitmap => Codec::Booleans,
        CompressionType::Dictionary
        | CompressionType::DictionaryLz4
        | CompressionType::Lz4
        | CompressionType::Lz4Blocked => Codec::Texts,
    }
}

/// The datum of a decoded time.
fn time_datum(usec: i64, is_date: bool) -> (d: Datum)
    requires
        is_date || usec - PG_EPOCH_OFFSET_USEC >= i64::MIN,
    ensures
        d.word == if is_date {
            crate::scan::datum::word_of(pg_days(usec as int))
        } else {
            crate::scan::datum::word_of(usec - PG_EPOCH_OFFSET_USEC)
        },
{
    if is_date {
        let days: i64 = usec / USEC_PER_DAY;
        Datum::from_i64(days - PG_EPOCH_OFFSET_DAYS as i64)
    } else {
        Datum::from_i64(usec - PG_EPOCH_OFFSET_USEC)
    }
}

/// The datum of a decoded 32-bit integer.
fn integer_datum(v: i32, is_small: bool) -> (d: Datum)
    ensures
        d.word == if is_small {
            crate::scan::datum::word_of(low16(v as int))
        } else {
            crate::scan::datum::word_of(v as int)
        },
{
    if is_small {
        let s: i16 = v as i16;
        assert(v as int % 0x1_0000 < 0x8000 ==> s == v as int % 0x1_0000) by (bit_vector)
            requires
                s == v as i16,
        ;
        assert(v as int % 0x1_0000 >= 0x8000 ==> s == v as int % 0x1_0000 - 0x1_0000)
            by (bit_vector)
            requires
                s == v as i16,
        ;
        Datum::from_i64(s as i64)
    } else {
        Datum::from_i64(v as i64)
    }
}

/// Converts decoded values to datums, by the lower-case name of the type.
fn to_datums(decoded: Decoded, data_type: &str) -> (datums: Vec<Datum>)
    requires
        times_fit(decoded, data_type@),
    ensures
        datums@ == datums_of(decoded, data_type@),
{
    let is_date = text::str_eq(data_type, "date");
    let is_small = text::str_eq(data_type, "smallint");
    let ghost all = datums_of(decoded, data_type@);
    let mut datums: Vec<Datum> = Vec::new();
    match decoded {
        Decoded::Timestamps(v) => {
            let mut i: usize = 0;
            while i < v.len()
                invariant
                    i <= v@.len(),
                    is_date == (data_type@ == "date"@),
                    all == datums_of(Decoded::Timestamps(v), data_type@),
                    times_fit(Decoded::Timestamps(v), data_type@),
                    datums@ == all.take(i as int),
                decreases v@.len() - i,
            {
                datums.push(time_datum(v[i], is_date));
                assert(datums@ =~= all.take(i + 1));
                i = i + 1;
            }
        },
        Decoded::Floats32(v) => {
            let mut i: usize = 0;
            while i < v.len()
                invariant
                    i <= v@.len(),
                    all == datums_of(Decoded::Floats32(v), data_type@),
                    datums@ == all.take(i as int),
                decreases v@.len() - i,
            {
                datums.push(Datum { word: v[i] as u64 });
                assert(datums@ =~= all.take(i + 1));
                i = i + 1;
            }
        },
        Decoded::Floats64(v) => {
            let mut i: usize = 0;
            while i < v.len()
                invariant
                    i <= v@.len(),
                    all == datums_of(Decoded::Floats64(v), data_type@),
                    datums@ == all.take(i as int),
                decreases v@.len() - i,
            {
                datums.push(Datum { word: v[i] });
                assert(datums@ =~= all.take(i + 1));
                i = i + 1;
            }
        },
        Decoded::Integers32(v) => {
            let mut i: usize = 0;
            while i < v.len()
                invariant
                    i <= v@.len(),
                    is_small == (data_type@ == "smallint"@),
                    all == datums_of(Decoded::Integers32(v), data_type@),
                    datums@ == all.take(i as int),
                decreases v@.len() - i,
            {
                datums.push(integer_datum(v[i], is_small));
                assert(datums@ =~= all.take(i + 1));
                i = i + 1;
            }
        },
        Decoded::Integers64(v) => {
            let mut i: usize = 0;
            while i < v.len()
                invariant
                    i <= v@.len(),
                    all == datums_of(Decoded::Integers64(v), data_type@),
                    datums@ == all.take(i as int),
                decreases v@.len() - i,
            {
                datums.push(Datum::from_i64(v[i]));
                assert(datums@ =~= all.take(i + 1));
                i = i + 1;
            }
        },
        Decoded::Texts(v) => {
            datums = v;
        },
        Decoded::Booleans(v) => {
            let mut i: usize = 0;
            while i < v.len()
                invariant
                    i <= v@.len(),
                    all == datums_of(Decoded::Booleans(v), data_type@),
                    datums@ == all.take(i as int),
                decreases v@.len() - i,
            {
                datums.push(
                    Datum {
                        word: if v[i] {
                            1
                        } else {
                            0
                        },
                    },
                );
                assert(datums@ =~= all.take(i + 1));
                i = i + 1;
            }
        },
    }
    assert(datums@ =~= all);
    datums
}

/// The cells of a column: the decoded values of its non-null rows as datums, with nulls where
/// the bitmap has them. A column without data has no cells.
pub fn decompress_blob_to_datums(
    column: Option<&CompressedColumn>,
    data_type: &str,
    decoded: Decoded,
) -> (cells: Vec<Cell>)
    requires
        column matches Some(c) ==> {
            &&& comes_from(decoded, codec_of(c.type_tag, text::lower_text(data_type@)))
            &&& times_fit(decoded, text::lower_text(data_type@))
            &&& crate::scan::nulls::covers(c.null_bitmap@, c.row_count as nat)
            &&& c.null_bitmap@.len() > 0 ==> crate::scan::nulls::non_null(
                c.null_bitmap@,
                c.row_count as nat,
            ) <= value_count(decoded)
        },
    ensures
        cells@ == match column {
            Some(c) => column_cells(*c, data_type@, decoded),
            None => Seq::empty(),
        },
{
    match column {
        None => Vec::new(),
        Some(c) => {
            let dt = text::to_lowercase(data_type);
            let datums = to_datums(decoded, dt.as_str());
            reinsert_nulls_datum(
                datums.as_slice(),
                c.null_bitmap.as_slice(),
                c.row_count as usize,
            )
        },
    }
}

/// The type of a column decides how its numbers are decoded: dates and timestamps as times, 32-bit
/// numbers in 32 bits, all others in 64.
pub proof fn law_codec_by_type(type_oid: u32)
    ensures
        ({
            let data_type = text::lower_text(crate::scan::datum::codec_name(type_oid));
            &&& data_type == crate::scan::datum::codec_name(type_oid)
            &&& codec_of(CompressionType::Gorilla, data_type) == if type_oid == TIMESTAMPTZOID
                || type_oid == TIMESTAMPOID || type_oid == DATEOID {
                Codec::Timestamps
            } else if type_oid == FLOAT4OID {
                Codec::Floats32
            } else {
                Codec::Floats64
            }
            &&& codec_of(CompressionType::DeltaVarint, data_type) == if type_oid == INT4OID
                || type_oid == INT2OID {
                Codec::Integers32
            } else {
                Codec::Integers64
            }
        }),
{
    let name = crate::scan::datum::codec_name(type_oid);
    reveal_strlit("timestamp with time zone");
    reveal_strlit("double precision");
    reveal_strlit("real");
    reveal_strlit("smallint");
    reveal_strlit("integer");
    reveal_strlit("bigint");
    reveal_strlit("date");
    reveal_strlit("boolean");
    reveal_strlit("text");
    reveal_strlit("timestamp");
    reveal_strlit("float4");
    reveal_strlit("int4");
    text::lemma_lower_text_fixed(name);
    text::lemma_lacks_character(name, "float4"@, 5);
    text::lemma_lacks_character(name, "int4"@, 3);
    if name == "timestamp with time zone"@ {
        assert(name.take(9) =~= "timestamp"@);
        text::lemma_has_prefix(name, "timestamp"@);
    } else if name != "integer"@ && name != "smallint"@ && name != "bigint"@ && name != "date"@ {
        text::lemma_lacks_character(name, "timestamp"@, 7);
    } else {
        text::lemma_lacks_character(name, "timestamp"@, 8);
    }
    assert("date"@.len() == 4 && "real"@.len() == 4 && "text"@.len() == 4);
    assert("date"@[0] == 'd' && "real"@[0] == 'r' && "text"@[0] == 't');
    assert("integer"@.len() == 7 && "boolean"@.len() == 7);
    assert("integer"@[0] == 'i' && "boolean"@[0] == 'b');
    assert("smallint"@.len() == 8 && "bigint"@.len() == 6);
}

/// A decoded integer reads back as itself, in the width of its type.
pub proof fn law_integers_read_back(small: i16, v: i32, big: i64)
    ensures
        crate::scan::datum::integer_value(integer_word(small as i32, "smallint"@), INT2OID)
            == small,
        crate::scan::datum::integer_value(integer_word(v, "integer"@), INT4OID) == v,
        crate::scan::datum::integer_value(crate::scan::datum::word_of(big as int), INT8OID) == big,
{
    reveal_strlit("smallint");
    reveal_strlit("integer");
    assert("smallint"@.len() != "integer"@.len());
}

/// A decoded time is counted from the PostgreSQL epoch: a timestamp in microseconds, the midnight
/// of a date in days.
pub proof fn law_times_from_epoch(usec: i64, days: int)
    requires
        usec - PG_EPOCH_OFFSET_USEC >= i64::MIN,
        i64::MIN <= days * USEC_PER_DAY <= i64::MAX,
    ensures
        crate::scan::datum::signed(time_word(usec, "timestamp with time zone"@)) == usec
            - PG_EPOCH_OFFSET_USEC,
        crate::scan::datum::signed(time_word((days * USEC_PER_DAY) as i64, "date"@)) == days
            - PG_EPOCH_OFFSET_DAYS,
        PG_EPOCH_OFFSET_USEC == PG_EPOCH_OFFSET_DAYS * USEC_PER_DAY,
{
    reveal_strlit("timestamp with time zone");
    reveal_strlit("date");
    assert("timestamp with time zone"@.len() != "date"@.len());
}

/// A date is the number of days between 2000-01-01 and the day of the decoded time, which is that of
/// its midnight; before 1970 a time within a day counts as the end of the day. Any other time is the
/// number of microseconds since 2000-01-01.
pub proof fn law_dates_and_times(days: int, usec: int, data_type: Seq<char>)
    requires
        0 <= usec < 86_400_000_000,
        i64::MIN <= days * 86_400_000_000 + usec <= i64::MAX,
        days * 86_400_000_000 + usec - 946_684_800_000_000 >= i64::MIN,
    ensures
        ({
            let t = (days * 86_400_000_000 + usec) as i64;
            &&& crate::scan::datum::signed(time_word(t, "date"@)) == if days < 0 && usec > 0 {
                days + 1 - 10_957
            } else {
                days - 10_957
            }
            &&& data_type != "date"@ ==> crate::scan::datum::signed(time_word(t, data_type)) == t
                - 946_684_800_000_000
        }),
{
    let t = days * 86_400_000_000 + usec;
    lemma_pg_days(days, usec);
}

/// The days of a time.
proof fn lemma_pg_days(days: int, usec: int)
    requires
        0 <= usec < 86_400_000_000,
    ensures
        pg_days(days * 86_400_000_000 + usec) == if days < 0 && usec > 0 {
            days + 1 - 10_957
        } else {
            days - 10_957
        },
{
    let t = days * 86_400_000_000 + usec;
    if t >= 0 {
        assert(t / 86_400_000_000 == days);
    } else if usec == 0 {
        assert((-t) / 86_400_000_000 == -days);
    } else {
        assert((-t) / 86_400_000_000 == -days - 1);
    }
}

/// Every decoded value has its datum, in the same place: floating-point numbers their bits, texts
/// the datum that refers to them, truth values zero or one, 64-bit integers the number, and 32-bit
/// integers the number, or for `smallint` the number that its low 16 bits hold.
pub proof fn law_datums(decoded: Decoded, data_type: Seq<char>, i: int)
    requires
        0 <= i < value_count(decoded),
    ensures
        datums_of(decoded, data_type).len() == value_count(decoded),
        ({
            let word = datums_of(decoded, data_type)[i].word;
            match decoded {
                Decoded::Timestamps(v) => word == time_word(v@[i], data_type),
                Decoded::Floats32(v) => word == v@[i],
                Decoded::Floats64(v) => word == v@[i],
                Decoded::Texts(v) => datums_of(decoded, data_type)[i] == v@[i],
                Decoded::Booleans(v) => word == if v@[i] {
                    1u64
                } else {
                    0u64
                },
                Decoded::Integers64(v) => crate::scan::datum::signed(word) == v@[i],
                Decoded::Integers32(v) => {
                    let n = crate::scan::datum::signed(word);
                    &&& data_type != "smallint"@ ==> n == v@[i]
                    &&& data_type == "smallint"@ ==> i16::MIN <= n <= i16::MAX && (v@[i] - n)
                        % 0x1_0000 == 0
                },
            }
        }),
{
}

/// Truth values and texts are decoded as such, whatever the name of the type.
pub proof fn law_codec_by_tag(tag: CompressionType, data_type: Seq<char>)
    ensures
        tag is BooleanBitmap <==> codec_of(tag, data_type) is Booleans,
        !(tag is BooleanBitmap) && !(tag is Gorilla) && !(tag is DeltaVarint) <==> codec_of(
            tag,
            data_type,
        ) is Texts,
        tag is DeltaVarint <==> codec_of(tag, data_type) is Integers32 || codec_of(
            tag,
            data_type,
        ) is Integers64,
        tag is Gorilla <==> codec_of(tag, data_type) is Timestamps || codec_of(
            tag,
            data_type,
        ) is Floats32 || codec_of(tag, data_type) is Floats64,
{
}

/// Times can be counted from 2000-01-01 unless one lies too far before it; the days of dates always
/// can.
pub proof fn law_countable_times(decoded: Decoded, data_type: Seq<char>)
    ensures
        data_type == "date"@ ==> times_fit(decoded, data_type),
        !(decoded is Timestamps) ==> times_fit(decoded, data_type),
        data_type != "date"@ ==> (decoded matches Decoded::Timestamps(v) ==> (times_fit(
            decoded,
            data_type,
        ) <==> forall|i: int|
            0 <= i < v@.len() ==> (#[trigger] v@[i]) >= -0x8000_0000_0000_0000
                + 946_684_800_000_000)),
{
}

/// Whether two texts of ASCII characters differ in the case of letters only.
pub open spec fn same_but_case(a: Seq<char>, b: Seq<char>) -> bool {
    &&& vstd::utf8::is_ascii_chars(a) && vstd::utf8::is_ascii_chars(b)
    &&& a.len() == b.len()
    &&& forall|i: int|
        0 <= i < a.len() ==> {
            let x = #[trigger] a[i] as int;
            let y = b[i] as int;
            x == y || 65 <= x <= 90 && y == x + 32 || 65 <= y <= 90 && x == y + 32
        }
}

/// The case of a type's name makes no difference to how its columns are decoded, nor to their cells.
pub proof fn law_case_of_type_names(
    tag: CompressionType,
    a: Seq<char>,
    b: Seq<char>,
    column: CompressedColumn,
    decoded: Decoded,
)
    requires
        same_but_case(a, b),
    ensures
        codec_for(tag, a) == codec_for(tag, b),
        column_cells(column, a, decoded) == column_cells(column, b, decoded),
{
    let x = text::lower_text(a);
    let y = text::lower_text(b);
    assert forall|i: int| 0 <= i < x.len() implies x[i] == y[i] by {
        assert(x[i] == text::ascii_lower(a[i]));
    }
    assert(x =~= y);
}

/// Types by their names: what holds `timestamp` in its name, or is `date`, is a time; what is `real`
/// or holds `float4` is a single-precision number; what is `integer` or `smallint` or holds `int4` is
/// a 32-bit integer. All other numbers have 64 bits.
pub proof fn law_codec_by_name(front: Seq<char>, rest: Seq<char>, data_type: Seq<char>)
    ensures
        codec_of(CompressionType::Gorilla, front + "timestamp"@ + rest) is Timestamps,
        codec_of(CompressionType::Gorilla, "date"@) is Timestamps,
        codec_of(CompressionType::DeltaVarint, front + "int4"@ + rest) is Integers32,
        codec_of(CompressionType::DeltaVarint, "integer"@) is Integers32,
        codec_of(CompressionType::DeltaVarint, "smallint"@) is Integers32,
        codec_of(CompressionType::Gorilla, front + "float4"@ + rest) is Floats32 || codec_of(
            CompressionType::Gorilla,
            front + "float4"@ + rest,
        ) is Timestamps,
        codec_of(CompressionType::Gorilla, data_type) is Floats32 ==> data_type == "real"@
            || text::contains_text(data_type, "float4"@),
        codec_of(CompressionType::Gorilla, data_type) is Timestamps ==> data_type == "date"@
            || text::contains_text(data_type, "timestamp"@),
        codec_of(CompressionType::DeltaVarint, data_type) is Integers32 ==> data_type == "integer"@
            || data_type == "smallint"@ || text::contains_text(data_type, "int4"@),
{
    text::law_substrings(front + "timestamp"@ + rest, "timestamp"@);
    text::law_substrings(front + "int4"@ + rest, "int4"@);
    text::law_substrings(front + "float4"@ + rest, "float4"@);
}

} // verus!
