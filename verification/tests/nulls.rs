use pg_cocoon::scan::datum::Datum;
use pg_cocoon::scan::nulls::{count_non_null, expand, reinsert_nulls_datum};

#[test]
fn test_reinsert_nulls_datum() {
    // No nulls: empty bitmap
    let datums = vec![Datum::from(1usize), Datum::from(2usize), Datum::from(3usize)];
    let result = reinsert_nulls_datum(&datums, &[], 3);
    assert_eq!(result.len(), 3);
    assert!(!result[0].1);
    assert!(!result[1].1);
    assert!(!result[2].1);

    // All nulls
    let bitmap = vec![0b11111111u8];
    let result = reinsert_nulls_datum(&[], &bitmap, 4);
    assert_eq!(result.len(), 4);
    for (_, is_null) in &result {
        assert!(is_null, "expected null");
    }

    // Alternating: null at 0, 2 (bits 0 and 2 set)
    let bitmap = vec![0b00000101u8];
    let datums = vec![Datum::from(10usize), Datum::from(30usize)];
    let result = reinsert_nulls_datum(&datums, &bitmap, 4);
    assert_eq!(result.len(), 4);
    assert!(result[0].1); // null
    assert!(!result[1].1); // 10
    assert!(result[2].1); // null
    assert!(!result[3].1); // 30
    assert_eq!(result[1].0, Datum::from(10usize));
    assert_eq!(result[3].0, Datum::from(30usize));

    // Sparse: only position 5 is null in 8 values
    let bitmap = vec![0b00100000u8];
    let datums: Vec<Datum> = (0..7).map(|i| Datum::from(i as usize)).collect();
    let result = reinsert_nulls_datum(&datums, &bitmap, 8);
    assert_eq!(result.len(), 8);
    for i in 0..8 {
        if i == 5 {
            assert!(result[i].1, "position 5 should be null");
        } else {
            assert!(!result[i].1, "position {} should not be null", i);
        }
    }
}

#[test]
fn counts_rows_that_are_not_null() {
    assert_eq!(count_non_null(&[], 5), 5);
    assert_eq!(count_non_null(&[0b00000101], 4), 2);
    assert_eq!(count_non_null(&[0xff, 0b1], 9), 0);
    assert_eq!(count_non_null(&[0, 0b10], 10), 9);
}

#[test]
fn expands_over_byte_boundaries() {
    // Rows 7 and 8 are null.
    let values: Vec<u32> = (0..8).collect();
    let all = expand(&values, &[0b10000000, 0b1], 10, u32::MAX);
    assert_eq!(all, vec![0, 1, 2, 3, 4, 5, 6, u32::MAX, u32::MAX, 7]);
}

#[test]
fn expansion_keeps_every_value_once_in_order() {
    let datums: Vec<Datum> = (1..4).map(|i| Datum::from(i as usize)).collect();
    let cells = reinsert_nulls_datum(&datums, &[0b00001001], 5);
    let kept: Vec<Datum> = cells.iter().filter(|c| !c.1).map(|c| c.0).collect();
    assert_eq!(kept, datums);
    assert_eq!(cells[0].0, Datum::from(0usize));
}
