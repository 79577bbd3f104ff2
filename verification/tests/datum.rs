use pg_cocoon::compression::{CompressedColumn, CompressionType};
use pg_cocoon::scan::datum::{
    datum_to_i128, new_null, pg_type_name, pg_type_oid, Datum, BOOLOID, BPCHAROID, DATEOID,
    FLOAT4OID, FLOAT8OID, INT2OID, INT4OID, INT8OID, PG_EPOCH_OFFSET_DAYS, PG_EPOCH_OFFSET_USEC,
    TEXTOID, TIMESTAMPOID, TIMESTAMPTZOID, USEC_PER_DAY, VARCHAROID,
};
use pg_cocoon::scan::decompress::{column_codec, decompress_blob_to_datums, Codec, Decoded};

fn column(type_tag: CompressionType, row_count: u32, null_bitmap: Vec<u8>) -> CompressedColumn {
    CompressedColumn { type_tag, row_count, null_bitmap, data: vec![] }
}

#[test]
fn words_hold_signed_numbers() {
    assert_eq!(Datum::from_i64(-1).value(), u64::MAX);
    assert_eq!(Datum::from_i64(-1).to_i64(), -1);
    assert_eq!(Datum::from_i64(i64::MIN).to_i64(), i64::MIN);
    assert_eq!(Datum::from(7usize).to_i64(), 7);
    assert_eq!(new_null(), (Datum::from(0usize), true));
}

#[test]
fn integers_are_read_in_their_width() {
    assert_eq!(datum_to_i128(Datum::from_i64(-3), INT2OID), -3);
    assert_eq!(datum_to_i128(Datum::from(0xffff_fffeusize), INT4OID), -2);
    assert_eq!(datum_to_i128(Datum::from_i64(i64::MIN), INT8OID), i64::MIN as i128);
    assert_eq!(datum_to_i128(Datum::from_i64(-1), DATEOID), u64::MAX as i128);
    assert_eq!(datum_to_i128(Datum::from(0x1_8000usize), INT2OID), -32768);
}

#[test]
fn type_names() {
    assert_eq!(pg_type_oid("timestamptz"), TIMESTAMPTZOID);
    assert_eq!(pg_type_oid("timestamp"), TIMESTAMPOID);
    assert_eq!(pg_type_oid("float8"), FLOAT8OID);
    assert_eq!(pg_type_oid("float4"), FLOAT4OID);
    assert_eq!(pg_type_oid("int2"), INT2OID);
    assert_eq!(pg_type_oid("int4"), INT4OID);
    assert_eq!(pg_type_oid("int8"), INT8OID);
    assert_eq!(pg_type_oid("date"), DATEOID);
    assert_eq!(pg_type_oid("bpchar"), BPCHAROID);
    assert_eq!(pg_type_oid("bool"), BOOLOID);
    assert_eq!(pg_type_oid("text"), TEXTOID);
    assert_eq!(pg_type_oid("varchar"), VARCHAROID);
    assert_eq!(pg_type_oid("jsonb"), TEXTOID);
    assert_eq!(pg_type_name(TIMESTAMPOID), "timestamp with time zone");
    assert_eq!(pg_type_name(FLOAT8OID), "double precision");
    assert_eq!(pg_type_name(FLOAT4OID), "real");
    assert_eq!(pg_type_name(INT2OID), "smallint");
    assert_eq!(pg_type_name(INT4OID), "integer");
    assert_eq!(pg_type_name(INT8OID), "bigint");
    assert_eq!(pg_type_name(DATEOID), "date");
    assert_eq!(pg_type_name(BOOLOID), "boolean");
    assert_eq!(pg_type_name(VARCHAROID), "text");
}

#[test]
fn the_type_decides_the_codec() {
    let gorilla = CompressionType::Gorilla;
    assert_eq!(column_codec(gorilla, &pg_type_name(TIMESTAMPTZOID)), Codec::Timestamps);
    assert_eq!(column_codec(gorilla, &pg_type_name(DATEOID)), Codec::Timestamps);
    assert_eq!(column_codec(gorilla, &pg_type_name(FLOAT4OID)), Codec::Floats32);
    assert_eq!(column_codec(gorilla, "FLOAT4"), Codec::Floats32);
    assert_eq!(column_codec(gorilla, &pg_type_name(FLOAT8OID)), Codec::Floats64);
    let delta = CompressionType::DeltaVarint;
    assert_eq!(column_codec(delta, &pg_type_name(INT2OID)), Codec::Integers32);
    assert_eq!(column_codec(delta, &pg_type_name(INT4OID)), Codec::Integers32);
    assert_eq!(column_codec(delta, "Int4"), Codec::Integers32);
    assert_eq!(column_codec(delta, &pg_type_name(INT8OID)), Codec::Integers64);
    assert_eq!(column_codec(CompressionType::Dictionary, "text"), Codec::Texts);
    assert_eq!(column_codec(CompressionType::Lz4, "text"), Codec::Texts);
    assert_eq!(column_codec(CompressionType::BooleanBitmap, "boolean"), Codec::Booleans);
}

#[test]
fn the_epochs_agree() {
    assert_eq!(PG_EPOCH_OFFSET_USEC, PG_EPOCH_OFFSET_DAYS as i64 * USEC_PER_DAY);
}

#[test]
fn dates_count_days_from_the_epoch() {
    // 1970-01-01, 2000-01-01, 2025-01-15 and 1969-12-31.
    let usec = vec![0, 10957 * USEC_PER_DAY, 20103 * USEC_PER_DAY, -USEC_PER_DAY];
    let col = column(CompressionType::Gorilla, 4, vec![]);
    let cells = decompress_blob_to_datums(Some(&col), "date", Decoded::Timestamps(usec));
    let days: Vec<i64> = cells.iter().map(|c| c.0.to_i64()).collect();
    assert_eq!(days, vec![-10957, 0, 9146, -10958]);
    assert!(cells.iter().all(|c| !c.1));
}

#[test]
fn the_earliest_times_are_dates() {
    let col = column(CompressionType::Gorilla, 1, vec![]);
    let cells =
        decompress_blob_to_datums(Some(&col), "date", Decoded::Timestamps(vec![i64::MIN]));
    assert_eq!(cells[0].0.to_i64(), -106_751_991 - 10_957);
}

#[test]
fn timestamps_count_microseconds_from_the_epoch() {
    // 1970-01-01, 2000-01-01, 1969-12-31 23:59:59 and 2025-01-15.
    let usec = vec![0, 946_684_800_000_000, -1_000_000, 1_736_899_200_000_000];
    let col = column(CompressionType::Gorilla, 4, vec![]);
    let cells = decompress_blob_to_datums(
        Some(&col),
        "timestamp with time zone",
        Decoded::Timestamps(usec),
    );
    let got: Vec<i64> = cells.iter().map(|c| c.0.to_i64()).collect();
    assert_eq!(got, vec![-946_684_800_000_000, 0, -946_684_801_000_000, 790_214_400_000_000]);
}

#[test]
fn floats_keep_their_bits() {
    let values = [0.0f64, -0.0, 1.0, -1.0, std::f64::consts::PI, 1e308, f64::MIN_POSITIVE];
    let bits: Vec<u64> = values.iter().map(|v| v.to_bits()).collect();
    let col = column(CompressionType::Gorilla, 7, vec![]);
    let cells = decompress_blob_to_datums(Some(&col), "double precision", Decoded::Floats64(bits));
    for (v, c) in values.iter().zip(cells.iter()) {
        assert_eq!(f64::from_bits(c.0.value()).to_bits(), v.to_bits());
    }
    let col = column(CompressionType::Gorilla, 1, vec![]);
    let cells =
        decompress_blob_to_datums(Some(&col), "real", Decoded::Floats32(vec![(-1.5f32).to_bits()]));
    assert_eq!(cells[0].0.value(), (-1.5f32).to_bits() as u64);
}

#[test]
fn integers_are_sign_extended() {
    let col = column(CompressionType::DeltaVarint, 3, vec![0b010]);
    let cells = decompress_blob_to_datums(Some(&col), "integer", Decoded::Integers32(vec![-5, 6]));
    assert_eq!(cells[0], (Datum::from_i64(-5), false));
    assert_eq!(cells[1], (Datum::from(0usize), true));
    assert_eq!(cells[2], (Datum::from_i64(6), false));
    let col = column(CompressionType::DeltaVarint, 2, vec![]);
    let cells =
        decompress_blob_to_datums(Some(&col), "SMALLINT", Decoded::Integers32(vec![-5, 0x1_8000]));
    assert_eq!(cells[0].0.to_i64(), -5);
    assert_eq!(cells[1].0.to_i64(), -32768);
    let cells =
        decompress_blob_to_datums(Some(&col), "bigint", Decoded::Integers64(vec![i64::MIN, 1]));
    assert_eq!(cells[0].0.to_i64(), i64::MIN);
}

#[test]
fn texts_and_booleans() {
    let col = column(CompressionType::Dictionary, 2, vec![0b01]);
    let cells =
        decompress_blob_to_datums(Some(&col), "text", Decoded::Texts(vec![Datum::from(99usize)]));
    assert!(cells[0].1);
    assert_eq!(cells[1], (Datum::from(99usize), false));
    let col = column(CompressionType::BooleanBitmap, 2, vec![]);
    let cells =
        decompress_blob_to_datums(Some(&col), "boolean", Decoded::Booleans(vec![true, false]));
    assert_eq!(cells[0].0.value(), 1);
    assert_eq!(cells[1].0.value(), 0);
}

#[test]
fn a_column_without_data_has_no_cells() {
    assert!(decompress_blob_to_datums(None, "integer", Decoded::Integers32(vec![1])).is_empty());
}
