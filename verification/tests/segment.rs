use exchange::segment::{bytes_lt, segment_file_name, segment_index_of_stem, wal_segment_names};

#[test]
fn segment_names_are_zero_padded_indices() {
    assert_eq!(segment_file_name(1), b"0000000001.wal".to_vec());
    assert_eq!(segment_file_name(0), b"0000000000.wal".to_vec());
    assert_eq!(segment_file_name(12345678901), b"12345678901.wal".to_vec());
    assert_eq!(segment_file_name(u64::MAX), b"18446744073709551615.wal".to_vec());
    assert_eq!(segment_file_name(42), format!("{:010}.wal", 42u64).into_bytes());
}

#[test]
fn stems_parse_as_u64() {
    assert_eq!(segment_index_of_stem(b"0000000001"), Some(1));
    assert_eq!(segment_index_of_stem(b"+5"), Some(5));
    assert_eq!(segment_index_of_stem(b"18446744073709551615"), Some(u64::MAX));
    assert_eq!(segment_index_of_stem(b"18446744073709551616"), None);
    assert_eq!(segment_index_of_stem(b"+"), None);
    assert_eq!(segment_index_of_stem(b""), None);
    assert_eq!(segment_index_of_stem(b"-1"), None);
    assert_eq!(segment_index_of_stem(b"12a"), None);
    for s in ["7", "+0", "00", "99999999999999999999", "1x", "+-1"] {
        assert_eq!(segment_index_of_stem(s.as_bytes()), s.parse::<u64>().ok());
    }
}

#[test]
fn name_of_index_reads_back() {
    for idx in [0u64, 9, 10, 1234567890, 9999999999, u64::MAX] {
        let name = segment_file_name(idx);
        assert_eq!(segment_index_of_stem(&name[..name.len() - 4]), Some(idx));
    }
}

#[test]
fn listing_keeps_wal_files_in_byte_order() {
    let names: Vec<Vec<u8>> = ["0000000003.wal", "notes.txt", "0000000001.wal", ".wal", "0000000002.wal", "x.wal.bak"]
        .iter()
        .map(|s| s.as_bytes().to_vec())
        .collect();
    let got = wal_segment_names(names);
    let want: Vec<Vec<u8>> = ["0000000001.wal", "0000000002.wal", "0000000003.wal"]
        .iter()
        .map(|s| s.as_bytes().to_vec())
        .collect();
    assert_eq!(got, want);
}

#[test]
fn byte_order_puts_prefixes_first() {
    assert!(bytes_lt(b"ab", b"abc"));
    assert!(!bytes_lt(b"abc", b"ab"));
    assert!(bytes_lt(b"a", b"b"));
    assert!(!bytes_lt(b"b", b"b"));
    assert!(bytes_lt(b"12345678901.wal", b"2345678901.wal"));
}
