use anchor_db::memtable::MemTableEntry;
use anchor_db::record::{decode_record, encode_delete, encode_put};
use anchor_db::wal::{WALIter, WAL};

fn put_entry(key: &[u8], value: &[u8], timestamp: u128) -> MemTableEntry {
    MemTableEntry { key: key.to_vec(), value: Some(value.to_vec()), timestamp, deleted: false }
}

fn tombstone(key: &[u8], timestamp: u128) -> MemTableEntry {
    MemTableEntry { key: key.to_vec(), value: None, timestamp, deleted: true }
}

fn replay_all_of(bytes: &[u8]) -> Vec<MemTableEntry> {
    let mut iter = WALIter::new(bytes);
    let mut out = Vec::new();
    while let Some(entry) = iter.next() {
        out.push(entry.data);
    }
    out
}

#[test]
fn put_record_has_the_documented_layout() {
    let bytes = encode_put(b"a", b"1", 5);
    let mut expected: Vec<u8> = Vec::new();
    expected.extend_from_slice(&[1, 0, 0, 0, 0, 0, 0, 0]);
    expected.push(0);
    expected.extend_from_slice(&[1, 0, 0, 0, 0, 0, 0, 0]);
    expected.push(b'a');
    expected.push(b'1');
    expected.extend_from_slice(&[5, 0, 0, 0, 0, 0, 0, 0, 0, 0, 0, 0, 0, 0, 0, 0]);
    assert_eq!(bytes, expected);
    assert_eq!(bytes.len(), 35);
}

#[test]
fn delete_record_has_the_documented_layout() {
    let bytes = encode_delete(b"a", 7);
    let mut expected: Vec<u8> = Vec::new();
    expected.extend_from_slice(&[1, 0, 0, 0, 0, 0, 0, 0]);
    expected.push(1);
    expected.push(b'a');
    expected.extend_from_slice(&[7, 0, 0, 0, 0, 0, 0, 0, 0, 0, 0, 0, 0, 0, 0, 0]);
    assert_eq!(bytes, expected);
    assert_eq!(bytes.len(), 26);
}

#[test]
fn integers_are_little_endian() {
    let key = vec![9u8; 258];
    let bytes = encode_put(&key, b"", 0x0102_0304_0506_0708_090a_0b0c_0d0e_0f10);
    assert_eq!(&bytes[0..8], &[2, 1, 0, 0, 0, 0, 0, 0]);
    assert_eq!(bytes[8], 0);
    assert_eq!(&bytes[9..17], &[0, 0, 0, 0, 0, 0, 0, 0]);
    let stamp = &bytes[bytes.len() - 16..];
    assert_eq!(
        stamp,
        &[0x10, 0x0f, 0x0e, 0x0d, 0x0c, 0x0b, 0x0a, 0x09, 0x08, 0x07, 0x06, 0x05, 0x04, 0x03, 0x02, 0x01]
    );
    assert_eq!(bytes.len(), 258 + 33);
}

#[test]
fn put_record_round_trips() {
    let bytes = encode_put(b"key", b"value", 1_700_000_000_000_000);
    let (entry, used) = decode_record(&bytes).unwrap();
    assert_eq!(entry, put_entry(b"key", b"value", 1_700_000_000_000_000));
    assert_eq!(used, bytes.len());
}

#[test]
fn delete_record_round_trips() {
    let bytes = encode_delete(b"key", u128::MAX);
    let (entry, used) = decode_record(&bytes).unwrap();
    assert_eq!(entry, tombstone(b"key", u128::MAX));
    assert_eq!(used, bytes.len());
}

#[test]
fn empty_key_and_value_round_trip() {
    let bytes = encode_put(b"", b"", 0);
    assert_eq!(bytes.len(), 33);
    let (entry, used) = decode_record(&bytes).unwrap();
    assert_eq!(entry, put_entry(b"", b"", 0));
    assert_eq!(used, 33);
}

#[test]
fn decode_ignores_what_follows_the_record() {
    let mut bytes = encode_put(b"k", b"v", 3);
    let len = bytes.len();
    bytes.extend_from_slice(&[0xff, 0xff, 0xff]);
    let (entry, used) = decode_record(&bytes).unwrap();
    assert_eq!(entry, put_entry(b"k", b"v", 3));
    assert_eq!(used, len);
}

#[test]
fn every_truncation_of_a_put_record_decodes_to_nothing() {
    let bytes = encode_put(b"hello", b"world", 42);
    for cut in 0..bytes.len() {
        assert!(decode_record(&bytes[..cut]).is_none());
    }
    assert!(decode_record(&bytes).is_some());
}

#[test]
fn every_truncation_of_a_delete_record_decodes_to_nothing() {
    let bytes = encode_delete(b"hello", 42);
    for cut in 0..bytes.len() {
        assert!(decode_record(&bytes[..cut]).is_none());
    }
    assert!(decode_record(&bytes).is_some());
}

#[test]
fn any_nonzero_flag_marks_a_tombstone() {
    let mut bytes = encode_delete(b"k", 9);
    bytes[8] = 0x80;
    let (entry, used) = decode_record(&bytes).unwrap();
    assert_eq!(entry, tombstone(b"k", 9));
    assert_eq!(used, bytes.len());
}

#[test]
fn a_length_past_the_end_of_the_bytes_decodes_to_nothing() {
    let mut bytes = encode_put(b"k", b"v", 1);
    bytes[0..8].copy_from_slice(&u64::MAX.to_le_bytes());
    assert!(decode_record(&bytes).is_none());
    let mut bytes = encode_put(b"k", b"v", 1);
    bytes[9..17].copy_from_slice(&u64::MAX.to_le_bytes());
    assert!(decode_record(&bytes).is_none());
    let mut bytes = encode_delete(b"k", 1);
    bytes[0..8].copy_from_slice(&(u64::MAX - 8).to_le_bytes());
    assert!(decode_record(&bytes).is_none());
}

#[test]
fn a_stream_replays_to_its_entries_in_order() {
    let mut wal = WAL::new();
    wal.set(b"a", b"1", 1);
    wal.delete(b"b", 2);
    wal.set(b"c", b"333", 3);
    let entries = replay_all_of(wal.as_bytes());
    assert_eq!(
        entries,
        vec![put_entry(b"a", b"1", 1), tombstone(b"b", 2), put_entry(b"c", b"333", 3)]
    );
}

#[test]
fn a_stream_cut_inside_a_record_replays_to_the_records_before_it() {
    let records = vec![
        encode_put(b"a", b"1", 1),
        encode_delete(b"b", 2),
        encode_put(b"c", b"333", 3),
    ];
    let entries = vec![put_entry(b"a", b"1", 1), tombstone(b"b", 2), put_entry(b"c", b"333", 3)];
    let stream: Vec<u8> = records.concat();
    let mut start = 0;
    for (k, record) in records.iter().enumerate() {
        for n in 0..record.len() {
            let replayed = replay_all_of(&stream[..start + n]);
            assert_eq!(replayed, entries[..k].to_vec());
        }
        start += record.len();
    }
    assert_eq!(replay_all_of(&stream), entries);
}

#[test]
fn an_empty_stream_replays_to_nothing() {
    assert_eq!(replay_all_of(&[]), Vec::<MemTableEntry>::new());
}

#[test]
fn an_exhausted_cursor_stays_exhausted() {
    let bytes = encode_put(b"a", b"1", 1);
    let mut iter = WALIter::new(&bytes);
    assert!(iter.next().is_some());
    assert!(iter.next().is_none());
    assert!(iter.next().is_none());
}
