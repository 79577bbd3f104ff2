use pg_cocoon::compression::dictionary::{
    decode, decode_dict_and_indices, decode_to_slices, encode, is_resolvable, is_well_formed,
    read_varint, should_use_dictionary, write_varint,
};

#[test]
fn test_roundtrip_basic() {
    let values = vec!["hello", "world", "hello", "world", "hello"];
    let encoded = encode(&values);
    let decoded = decode(&encoded, values.len());
    let expected: Vec<String> = values.iter().map(|s| s.to_string()).collect();
    assert_eq!(decoded, expected);
}

#[test]
fn test_roundtrip_empty() {
    let encoded = encode(&[]);
    let decoded = decode(&encoded, 0);
    assert!(decoded.is_empty());
}

#[test]
fn test_roundtrip_single() {
    let values = vec!["test"];
    let encoded = encode(&values);
    let decoded = decode(&encoded, 1);
    assert_eq!(decoded, vec!["test".to_string()]);
}

#[test]
fn test_compression_ratio() {
    // Low cardinality: 10 device IDs repeated 1000 times
    let devices: Vec<String> = (0..10).map(|i| format!("device-{:04}", i)).collect();
    let values: Vec<&str> = (0..10000).map(|i| devices[i % 10].as_str()).collect();

    let raw_size: usize = values.iter().map(|s| s.len()).sum();
    let encoded = encode(&values);
    let decoded = decode(&encoded, values.len());

    let expected: Vec<String> = values.iter().map(|s| s.to_string()).collect();
    assert_eq!(decoded, expected);

    let ratio = raw_size as f64 / encoded.len() as f64;
    assert!(ratio > 5.0, "low-cardinality text should compress >5x, got {:.1}x", ratio);
}

#[test]
fn test_should_use_dictionary() {
    // Low cardinality
    let values: Vec<&str> = vec!["a", "b", "c", "a", "b", "c", "a", "b", "c", "a", "b"];
    assert!(should_use_dictionary(&values));

    // High cardinality — every value unique
    let strings: Vec<String> = (0..100).map(|i| format!("unique-{}", i)).collect();
    let values: Vec<&str> = strings.iter().map(|s| s.as_str()).collect();
    assert!(!should_use_dictionary(&values));
}

#[test]
fn test_utf8_strings() {
    let values = vec!["héllo", "wörld", "日本語", "🎉"];
    let encoded = encode(&values);
    let decoded = decode(&encoded, values.len());
    let expected: Vec<String> = values.iter().map(|s| s.to_string()).collect();
    assert_eq!(decoded, expected);
}

#[test]
fn encoded_bytes_are_dictionary_then_indices() {
    let encoded = encode(&["ab", "c", "ab"]);
    // Two entries, each with its length in four bytes, then three indices.
    let expected: Vec<u8> = vec![
        2, 0, 0, 0, 2, 0, 0, 0, b'a', b'b', 1, 0, 0, 0, b'c', 0, 1, 0,
    ];
    assert_eq!(encoded, expected);
}

#[test]
fn entries_come_in_order_of_first_occurrence() {
    let encoded = encode(&["x", "y", "x", "z"]);
    let (entries, indices) = decode_dict_and_indices(&encoded, 4);
    assert_eq!(entries, vec!["x", "y", "z"]);
    assert_eq!(indices, vec![0, 1, 0, 2]);
    assert_eq!(decode_to_slices(&encoded, 4), vec!["x", "y", "x", "z"]);
}

#[test]
fn readings_agree() {
    let values = ["", "a", "", "é"];
    let encoded = encode(&values);
    let owned = decode(&encoded, 4);
    let slices = decode_to_slices(&encoded, 4);
    let (entries, indices) = decode_dict_and_indices(&encoded, 4);
    for i in 0..4 {
        assert_eq!(owned[i], slices[i]);
        assert_eq!(owned[i], entries[indices[i] as usize]);
    }
}

#[test]
fn varints_take_seven_bits_per_byte() {
    let mut buf: Vec<u8> = Vec::new();
    write_varint(&mut buf, 127);
    assert_eq!(buf, vec![127]);
    let mut buf: Vec<u8> = Vec::new();
    write_varint(&mut buf, 300);
    assert_eq!(buf, vec![0xac, 0x02]);
    let mut buf: Vec<u8> = Vec::new();
    write_varint(&mut buf, u32::MAX);
    assert_eq!(buf, vec![0xff, 0xff, 0xff, 0xff, 0x0f]);
}

#[test]
fn varint_roundtrip() {
    for v in [0u32, 1, 127, 128, 16383, 16384, 1 << 28, u32::MAX] {
        let mut buf: Vec<u8> = vec![];
        write_varint(&mut buf, v);
        let len = buf.len();
        buf.push(0x55);
        assert_eq!(read_varint(&buf), (v, len));
    }
}

#[test]
fn many_entries_need_longer_indices() {
    let strings: Vec<String> = (0..300).map(|i| format!("v{}", i)).collect();
    let values: Vec<&str> = strings.iter().map(|s| s.as_str()).collect();
    let encoded = encode(&values);
    assert_eq!(decode(&encoded, 300), strings);
}

#[test]
fn half_distinct_values_still_use_a_dictionary() {
    assert!(should_use_dictionary(&[]));
    assert!(should_use_dictionary(&["a", "a"]));
    assert!(!should_use_dictionary(&["a", "b"]));
    assert!(!should_use_dictionary(&["a", "b", "c", "a"]));
}

#[test]
fn malformed_data_is_recognised() {
    let data = encode(&["a", "bc", "a"]);
    assert!(is_resolvable(&data, 3));
    assert!(is_resolvable(&data, 0));
    assert!(is_resolvable(&[], 0));
    assert!(!is_resolvable(&[], 1));
    assert!(!is_resolvable(&data[..3], 1));
    // An entry runs past the end.
    assert!(!is_resolvable(&[1, 0, 0, 0, 2, 0, 0, 0, b'a'], 1));
    assert!(!is_resolvable(&[1, 0, 0, 0, 2, 0], 1));
    // An entry is not UTF-8.
    assert!(!is_resolvable(&[1, 0, 0, 0, 1, 0, 0, 0, 0xFF, 0], 1));
    // An index has no entry.
    assert!(!is_resolvable(&[1, 0, 0, 0, 1, 0, 0, 0, b'a', 1], 1));
    // An index takes six bytes.
    assert!(!is_resolvable(&[1, 0, 0, 0, 1, 0, 0, 0, b'a', 128, 128, 128, 128, 128, 0], 1));
    assert!(is_resolvable(&[1, 0, 0, 0, 1, 0, 0, 0, b'a', 128, 128, 128, 128, 0], 1));
}

#[test]
fn indices_can_be_read_without_their_entries() {
    let data = [1, 0, 0, 0, 1, 0, 0, 0, b'a', 1, 0];
    assert!(is_well_formed(&data, 2));
    assert!(!is_resolvable(&data, 2));
    let (dict, indices) = decode_dict_and_indices(&data, 2);
    assert_eq!(dict, vec!["a"]);
    assert_eq!(indices, vec![1, 0]);
    assert!(is_well_formed(&[], 0));
    assert!(!is_well_formed(&[], 1));
    assert!(!is_well_formed(&[1, 0, 0, 0, 2, 0, 0, 0, b'a'], 1));
    assert!(!is_well_formed(&[1, 0, 0, 0, 1, 0, 0, 0, b'a', 128, 128, 128, 128, 128, 0], 1));
}

#[test]
fn the_first_values_can_be_read_alone() {
    let values = ["b", "a", "b", "c"];
    let data = encode(&values);
    for count in 0..=values.len() {
        assert!(is_resolvable(&data, count));
        assert_eq!(decode(&data, count), values[..count].to_vec());
    }
    assert_eq!(decode_dict_and_indices(&data, 1), (vec!["b", "a", "c"], vec![0]));
}
