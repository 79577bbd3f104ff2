use pg_cocoon::decimal::{parse_i128, to_decimal};
use pg_cocoon::text::{
    compare_bytes, contains, contains_name, ends_with, from_utf8, from_utf8_lossy,
    from_utf8_or_empty, starts_with, str_eq, to_lowercase,
};
use std::cmp::Ordering;

#[test]
fn decodes_well_formed_bytes() {
    assert_eq!(from_utf8("héllo".as_bytes()), Some("héllo"));
    assert_eq!(from_utf8(&[0xff, 0x41]), None);
    assert_eq!(from_utf8_or_empty("日本".as_bytes()), "日本");
    assert_eq!(from_utf8_or_empty(&[0xc3]), "");
}

#[test]
fn replaces_ill_formed_bytes() {
    assert_eq!(from_utf8_lossy("wörld".as_bytes()), "wörld");
    assert_eq!(from_utf8_lossy(&[b'a', 0xff, b'b']), "a\u{fffd}b");
}

#[test]
fn lower_case_of_ascii_and_other_letters() {
    assert_eq!(to_lowercase("Double PRECISION 8"), "double precision 8");
    assert_eq!(to_lowercase("ÄÖ"), "äö");
    assert_eq!(to_lowercase("date"), "date");
}

#[test]
fn searches_substrings() {
    assert!(contains("timestamp with time zone", "timestamp"));
    assert!(contains("abc", ""));
    assert!(!contains("ab", "abc"));
    assert!(contains("xxay", "ay"));
    assert!(starts_with("device-1", "dev"));
    assert!(!starts_with("dev", "device"));
    assert!(ends_with("device-1", "-1"));
    assert!(!ends_with("1", "-1"));
    assert!(str_eq("é", "é"));
    assert!(!str_eq("é", "e"));
}

#[test]
fn compares_bytes() {
    assert_eq!(compare_bytes(b"ab", b"ab"), Ordering::Equal);
    assert_eq!(compare_bytes(b"ab", b"abc"), Ordering::Less);
    assert_eq!(compare_bytes(b"b", b"abc"), Ordering::Greater);
    assert_eq!(compare_bytes(&[0x80], &[0x7f]), Ordering::Greater);
}

#[test]
fn finds_names() {
    let names = vec!["a".to_string(), "b".to_string()];
    assert!(contains_name(&names, "b"));
    assert!(!contains_name(&names, "c"));
}

#[test]
fn decimal_texts() {
    assert_eq!(to_decimal(0), "0");
    assert_eq!(to_decimal(-120), "-120");
    assert_eq!(to_decimal(i128::MAX), "170141183460469231731687303715884105727");
    assert_eq!(to_decimal(i128::MIN), "-170141183460469231731687303715884105728");
}

#[test]
fn parses_integers() {
    assert_eq!(parse_i128("0"), Some(0));
    assert_eq!(parse_i128("+17"), Some(17));
    assert_eq!(parse_i128("-170141183460469231731687303715884105728"), Some(i128::MIN));
    assert_eq!(parse_i128("170141183460469231731687303715884105728"), None);
    assert_eq!(parse_i128(""), None);
    assert_eq!(parse_i128("-"), None);
    assert_eq!(parse_i128("1.5"), None);
    assert_eq!(parse_i128("NaN"), None);
}

#[test]
fn parsing_undoes_formatting() {
    for v in [0i128, 9, 10, -1, -999, i64::MAX as i128 + 1, i128::MIN, i128::MAX] {
        assert_eq!(parse_i128(&to_decimal(v)), Some(v));
    }
}
