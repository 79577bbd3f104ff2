use pg_cocoon::compression::dictionary::encode;
use pg_cocoon::compression::{CompressedColumn, CompressionType};
use pg_cocoon::scan::text_col::{
    apply_text_eq_filter, apply_text_like_filter, decompress_text_to_seg_col, nul_terminated,
    strcoll_cmp, LikeStrategy, SegTextColumn, Unpacked,
};
use std::cmp::Ordering;

/// Rows `apple`, null, `banana`, `apple`.
fn fruit() -> SegTextColumn {
    let column = CompressedColumn {
        type_tag: CompressionType::Dictionary,
        row_count: 4,
        null_bitmap: vec![0b0010],
        data: encode(&["apple", "banana", "apple"]),
    };
    decompress_text_to_seg_col(Some(&column), Unpacked::Nothing).unwrap()
}

#[test]
fn dictionary_columns_read_back() {
    let col = fruit();
    assert_eq!(col.get_str(0), Some("apple"));
    assert_eq!(col.get_str(1), None);
    assert_eq!(col.get_str(2), Some("banana"));
    assert_eq!(col.get_str(3), Some("apple"));
}

#[test]
fn packed_dictionary_columns_read_back() {
    let column = CompressedColumn {
        type_tag: CompressionType::DictionaryLz4,
        row_count: 2,
        null_bitmap: vec![],
        data: vec![1, 2, 3],
    };
    let plain = encode(&["x", "yy"]);
    let col = decompress_text_to_seg_col(Some(&column), Unpacked::Dictionary(plain)).unwrap();
    assert_eq!(col.get_str(0), Some("x"));
    assert_eq!(col.get_str(1), Some("yy"));
}

#[test]
fn buffer_columns_read_back() {
    let column = CompressedColumn {
        type_tag: CompressionType::Lz4Blocked,
        row_count: 3,
        null_bitmap: vec![0b100],
        data: vec![],
    };
    let unpacked = Unpacked::Ranges(b"ab\xff".to_vec(), vec![(0, 2), (2, 1)]);
    let col = decompress_text_to_seg_col(Some(&column), unpacked).unwrap();
    assert_eq!(col.get_str(0), Some("ab"));
    assert_eq!(col.get_str(1), Some(""));
    assert_eq!(col.get_str(2), None);
}

#[test]
fn other_columns_are_no_text() {
    assert!(decompress_text_to_seg_col(None, Unpacked::Nothing).is_none());
    let column = CompressedColumn {
        type_tag: CompressionType::DeltaVarint,
        row_count: 0,
        null_bitmap: vec![],
        data: vec![],
    };
    assert!(decompress_text_to_seg_col(Some(&column), Unpacked::Nothing).is_none());
}

#[test]
fn shared_values_fill_all_rows() {
    let col = SegTextColumn::SegBy(Some("s".to_string()));
    assert_eq!(col.get_str(17), Some("s"));
    assert_eq!(SegTextColumn::SegBy(None).get_str(0), None);
}

#[test]
fn equality_filters() {
    let col = fruit();
    assert_eq!(apply_text_eq_filter(&col, "apple", false, 4), vec![true, false, false, true]);
    assert_eq!(apply_text_eq_filter(&col, "apple", true, 4), vec![false, false, true, false]);
    assert_eq!(apply_text_eq_filter(&col, "x", false, 4), vec![false; 4]);
}

#[test]
fn like_filters() {
    let col = fruit();
    let run = |s: LikeStrategy, negate: bool| apply_text_like_filter(&col, &s, negate, 4, &[]);
    assert_eq!(
        run(LikeStrategy::Contains("nan".to_string()), false),
        vec![false, false, true, false]
    );
    assert_eq!(
        run(LikeStrategy::StartsWith("app".to_string()), false),
        vec![true, false, false, true]
    );
    assert_eq!(
        run(LikeStrategy::EndsWith("e".to_string()), true),
        vec![false, false, true, false]
    );
    assert_eq!(
        run(LikeStrategy::Exact("banana".to_string()), false),
        vec![false, false, true, false]
    );
    let general = LikeStrategy::General("a%e".to_string());
    assert_eq!(
        apply_text_like_filter(&col, &general, false, 4, &[true, true, false, true]),
        vec![true, false, false, true]
    );
}

#[test]
fn a_filter_and_its_negation_split_the_rows_that_are_not_null() {
    let col = fruit();
    let eq = apply_text_eq_filter(&col, "banana", false, 4);
    let ne = apply_text_eq_filter(&col, "banana", true, 4);
    for row in 0..4 {
        assert_eq!(eq[row] ^ ne[row], col.get_str(row).is_some());
    }
}

#[test]
fn collation_ties_are_broken_by_bytes() {
    assert_eq!(strcoll_cmp("a", "b", -7), Ordering::Less);
    assert_eq!(strcoll_cmp("a", "b", 7), Ordering::Greater);
    assert_eq!(strcoll_cmp("a", "b", 0), Ordering::Less);
    assert_eq!(strcoll_cmp("b", "a", 0), Ordering::Greater);
    assert_eq!(strcoll_cmp("a", "a", 3), Ordering::Equal);
    assert_eq!(nul_terminated("ab"), vec![b'a', b'b', 0]);
}

#[test]
fn rows_without_a_string_are_not_readable() {
    let col = SegTextColumn::Dict {
        entries: vec!["a".to_string()],
        row_to_entry: vec![0, u32::MAX, 1],
    };
    assert!(col.is_readable(0));
    assert!(col.is_readable(1));
    assert!(!col.is_readable(2));
    assert!(!col.is_readable(3));
    let col = SegTextColumn::Lz4 {
        buf: b"abc".to_vec(),
        row_to_range: vec![(1, 2), (2, 2), (u32::MAX, 0)],
    };
    assert!(col.is_readable(0));
    assert!(!col.is_readable(1));
    assert!(col.is_readable(2));
    assert!(!col.is_readable(3));
    assert!(SegTextColumn::SegBy(None).is_readable(7));
}
