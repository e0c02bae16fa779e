use exchange::wal::{scan_segment, RecordType, WalError, WalRecord};
use exchange::writer::{next_segment_index, AppendActions, FsyncPolicy, WriterState, SEGMENT_SIZE};

#[test]
fn encode_decode_roundtrip() {
    let rec = WalRecord::new(42, 1_000_000, RecordType::Command, b"hello".to_vec());
    let bytes = rec.encode();
    let (dec, consumed) = WalRecord::decode(&bytes).unwrap();
    assert_eq!(consumed, bytes.len());
    assert_eq!(dec.seq, 42);
    assert_eq!(dec.ts, 1_000_000);
    assert_eq!(dec.rec_type, RecordType::Command);
    assert_eq!(dec.payload, b"hello");
}

#[test]
fn crc_mismatch_detected() {
    let rec = WalRecord::new(1, 0, RecordType::Event, vec![1, 2, 3]);
    let mut bytes = rec.encode();
    bytes[5] ^= 0xFF;
    assert!(matches!(WalRecord::decode(&bytes), Err(WalError::Crc { .. })));
}

#[test]
fn truncated_detected() {
    let rec = WalRecord::new(1, 0, RecordType::Event, vec![0; 100]);
    let bytes = rec.encode();
    assert!(matches!(WalRecord::decode(&bytes[..10]), Err(WalError::Truncated(_))));
}

fn segment(records: &[WalRecord]) -> Vec<u8> {
    let mut data = Vec::new();
    for r in records {
        data.extend_from_slice(&r.encode());
    }
    data
}

#[test]
fn write_then_replay() {
    let recs: Vec<WalRecord> = (1u64..=10)
        .map(|i| WalRecord::new(i, i * 100, RecordType::Command, format!("cmd{}", i).into_bytes()))
        .collect();
    let data = segment(&recs);
    let (replayed, last, err) = scan_segment(&data, 0, 0);
    assert!(err.is_none());
    assert_eq!(replayed.iter().map(|r| r.seq).collect::<Vec<_>>(), (1u64..=10).collect::<Vec<_>>());
    assert_eq!(last, 10);
    assert_eq!(replayed[3].payload, b"cmd4");
    assert_eq!(replayed[3].ts, 400);
}

#[test]
fn replay_after_seq_skips_earlier() {
    let recs: Vec<WalRecord> = (1u64..=10).map(|i| WalRecord::new(i, 0, RecordType::Command, vec![])).collect();
    let data = segment(&recs);
    let (replayed, last, err) = scan_segment(&data, 5, 5);
    assert!(err.is_none());
    assert_eq!(replayed.iter().map(|r| r.seq).collect::<Vec<_>>(), vec![6u64, 7, 8, 9, 10]);
    assert_eq!(last, 10);
}

#[test]
fn header_layout_is_little_endian() {
    let rec = WalRecord::new(0x0102030405060708, 9, RecordType::Snap, vec![0xAA]);
    let bytes = rec.encode();
    assert_eq!(bytes.len(), 4 + 4 + 8 + 8 + 1 + 1);
    assert_eq!(&bytes[0..4], &[18, 0, 0, 0]);
    assert_eq!(&bytes[8..16], &[8, 7, 6, 5, 4, 3, 2, 1]);
    assert_eq!(bytes[24], RecordType::Snap.code());
    assert_eq!(bytes[25], 0xAA);
}

#[test]
fn torn_tail_is_ignored() {
    let recs: Vec<WalRecord> = (1u64..=3).map(|i| WalRecord::new(i, 0, RecordType::Command, vec![7; 5])).collect();
    let mut data = segment(&recs);
    data.truncate(data.len() - 7);
    let (replayed, last, err) = scan_segment(&data, 0, 0);
    assert!(err.is_none());
    assert_eq!(replayed.iter().map(|r| r.seq).collect::<Vec<_>>(), vec![1u64, 2]);
    assert_eq!(last, 2);
}

#[test]
fn corrupt_record_stops_scan_with_error() {
    let recs: Vec<WalRecord> = (1u64..=3).map(|i| WalRecord::new(i, 0, RecordType::Command, vec![1, 2])).collect();
    let mut data = segment(&recs);
    let second = recs[0].encode().len();
    data[second + 20] ^= 0x01;
    let (replayed, last, err) = scan_segment(&data, 0, 0);
    assert_eq!(replayed.iter().map(|r| r.seq).collect::<Vec<_>>(), vec![1u64]);
    assert_eq!(last, 1);
    assert!(matches!(err, Some(WalError::Crc { .. })));
}

#[test]
fn unknown_record_type_is_an_error() {
    let rec = WalRecord::new(1, 2, RecordType::Command, vec![]);
    let mut bytes = rec.encode();
    bytes[24] = 9;
    let crc = crc32fast::hash(&bytes[8..]);
    bytes[4..8].copy_from_slice(&crc.to_le_bytes());
    match WalRecord::decode(&bytes) {
        Err(WalError::Serialise(msg)) => assert!(msg.contains('9')),
        other => panic!("unexpected {:?}", other),
    }
}

#[test]
fn record_type_codes() {
    assert_eq!(RecordType::from_u8(0), None);
    assert_eq!(RecordType::from_u8(1), Some(RecordType::Command));
    assert_eq!(RecordType::from_u8(2), Some(RecordType::Event));
    assert_eq!(RecordType::from_u8(3), Some(RecordType::Snap));
    assert_eq!(RecordType::from_u8(4), None);
    assert_eq!(RecordType::Event.code(), 2);
}

#[test]
fn writer_state_rolls_and_syncs() {
    let mut st = WriterState { seg_idx: 3, seg_bytes: SEGMENT_SIZE - 10, write_count: 1 };
    let a = st.on_append(FsyncPolicy::Every(2), 4);
    assert_eq!(a, AppendActions { sync: true, roll: false });
    assert_eq!(st, WriterState { seg_idx: 3, seg_bytes: SEGMENT_SIZE - 6, write_count: 2 });
    let a = st.on_append(FsyncPolicy::Every(2), 6);
    assert_eq!(a, AppendActions { sync: false, roll: true });
    assert_eq!(st, WriterState { seg_idx: 4, seg_bytes: 0, write_count: 3 });
    let a = st.on_append(FsyncPolicy::PerRecord, 1);
    assert_eq!(a, AppendActions { sync: true, roll: false });
    let a = st.on_append(FsyncPolicy::Off, 1);
    assert_eq!(a, AppendActions { sync: false, roll: false });
    assert_eq!(st.seg_bytes, 2);
}

#[test]
fn next_segment_after_highest() {
    assert_eq!(next_segment_index(None), Some(1));
    assert_eq!(next_segment_index(Some(7)), Some(8));
    assert_eq!(next_segment_index(Some(u64::MAX)), None);
}

#[test]
fn checksum_is_crc32_ieee_of_the_body() {
    let bytes = WalRecord::new(1, 2, RecordType::Command, b"hello".to_vec()).encode();
    assert_eq!(&bytes[0..4], &22u32.to_le_bytes());
    assert_eq!(&bytes[4..8], &0x650193b3u32.to_le_bytes());
}

#[test]
fn unknown_tag_is_reported_by_number() {
    let mut bytes = WalRecord::new(1, 2, RecordType::Command, b"hello".to_vec()).encode();
    bytes[24] = 9;
    let crc = crc32fast::hash(&bytes[8..]);
    bytes[4..8].copy_from_slice(&crc.to_le_bytes());
    assert!(matches!(WalRecord::decode(&bytes), Err(WalError::Serialise(m)) if m == "unknown rec_type 9"));
}
