use anchor_db::memtable::{MemTable, MemTableEntry};
use anchor_db::record::{encode_delete, encode_put};
use anchor_db::wal::{replay_into, WALEntry, WALIter, WAL};

fn entries_of(table: &MemTable) -> Vec<MemTableEntry> {
    table.entries().to_vec()
}

#[test]
fn a_new_segment_is_empty() {
    let wal = WAL::new();
    assert!(wal.as_bytes().is_empty());
    assert!(wal.iter().next().is_none());
}

#[test]
fn set_and_delete_append_records() {
    let mut wal = WAL::new();
    wal.set(b"k", b"v", 1);
    assert_eq!(wal.as_bytes(), &encode_put(b"k", b"v", 1)[..]);
    wal.delete(b"k", 2);
    let mut expected = encode_put(b"k", b"v", 1);
    expected.extend_from_slice(&encode_delete(b"k", 2));
    assert_eq!(wal.as_bytes(), &expected[..]);
}

#[test]
fn clear_empties_the_segment() {
    let mut wal = WAL::new();
    wal.set(b"k", b"v", 1);
    wal.clear();
    assert!(wal.as_bytes().is_empty());
    wal.delete(b"k", 2);
    assert_eq!(wal.as_bytes(), &encode_delete(b"k", 2)[..]);
}

#[test]
fn iter_replays_what_was_appended() {
    let mut wal = WAL::new();
    wal.set(b"k", b"v", 1);
    wal.delete(b"k", 2);
    let mut iter = wal.iter();
    assert_eq!(
        iter.next(),
        Some(WALEntry {
            data: MemTableEntry {
                key: b"k".to_vec(),
                value: Some(b"v".to_vec()),
                timestamp: 1,
                deleted: false
            }
        })
    );
    assert_eq!(
        iter.next(),
        Some(WALEntry {
            data: MemTableEntry { key: b"k".to_vec(), value: None, timestamp: 2, deleted: true }
        })
    );
    assert_eq!(iter.next(), None);
}

#[test]
fn recovery_of_no_segments_gives_an_empty_table_and_segment() {
    let (wal, table) = WAL::load_dir(&[]);
    assert!(wal.as_bytes().is_empty());
    assert_eq!(table.len(), 0);
    assert_eq!(table.size(), 0);
}

#[test]
fn recovery_folds_segments_in_the_given_order() {
    let mut first = encode_put(b"a", b"1", 1);
    first.extend_from_slice(&encode_put(b"b", b"2", 2));
    let mut second = encode_put(b"a", b"3", 3);
    second.extend_from_slice(&encode_delete(b"b", 4));
    second.extend_from_slice(&encode_put(b"c", b"5", 5));
    let (wal, table) = WAL::load_dir(&[first.clone(), second.clone()]);
    let mut all = first;
    all.extend_from_slice(&second);
    assert_eq!(wal.as_bytes(), &all[..]);
    assert_eq!(
        entries_of(&table),
        vec![
            MemTableEntry { key: b"a".to_vec(), value: Some(b"3".to_vec()), timestamp: 3, deleted: false },
            MemTableEntry { key: b"b".to_vec(), value: None, timestamp: 4, deleted: true },
            MemTableEntry { key: b"c".to_vec(), value: Some(b"5".to_vec()), timestamp: 5, deleted: false },
        ]
    );
    assert_eq!(table.size(), (1 + 1 + 17) + (1 + 17) + (1 + 1 + 17));
}

#[test]
fn the_later_segment_wins_whatever_the_timestamps_say() {
    let first = encode_put(b"k", b"new-by-time", 900);
    let second = encode_put(b"k", b"new-by-position", 100);
    let (_, table) = WAL::load_dir(&[first, second]);
    let entry = table.get(b"k").unwrap();
    assert_eq!(entry.value, Some(b"new-by-position".to_vec()));
    assert_eq!(entry.timestamp, 100);
}

#[test]
fn recovery_equals_applying_the_writes_to_an_empty_table() {
    let mut direct = MemTable::new();
    direct.insert(b"x", b"1", 1);
    direct.delete(b"y", 2);
    direct.insert(b"x", b"22", 3);
    direct.insert(b"y", b"4", 4);
    direct.delete(b"x", 5);
    let mut first = encode_put(b"x", b"1", 1);
    first.extend_from_slice(&encode_delete(b"y", 2));
    let second = encode_put(b"x", b"22", 3);
    let mut third = encode_put(b"y", b"4", 4);
    third.extend_from_slice(&encode_delete(b"x", 5));
    let (_, recovered) = WAL::load_dir(&[first, second, third]);
    assert_eq!(entries_of(&recovered), entries_of(&direct));
    assert_eq!(recovered.size(), direct.size());
}

#[test]
fn a_put_cut_short_by_a_crash_is_discarded() {
    let record = encode_put(b"x", b"hello", 1);
    let segment = record[..record.len() / 2].to_vec();
    let (wal, table) = WAL::load_dir(&[segment]);
    assert!(table.get(b"x").is_none());
    assert_eq!(table.len(), 0);
    assert!(wal.as_bytes().is_empty());
    assert!(wal.iter().next().is_none());
}

#[test]
fn a_cut_record_ends_the_replay_of_its_segment_only() {
    let mut first = encode_put(b"a", b"1", 1);
    let cut = encode_put(b"b", b"2", 2);
    first.extend_from_slice(&cut[..cut.len() - 1]);
    let second = encode_put(b"c", b"3", 3);
    let (wal, table) = WAL::load_dir(&[first, second]);
    assert!(table.get(b"a").is_some());
    assert!(table.get(b"b").is_none());
    assert!(table.get(b"c").is_some());
    let mut expected = encode_put(b"a", b"1", 1);
    expected.extend_from_slice(&encode_put(b"c", b"3", 3));
    assert_eq!(wal.as_bytes(), &expected[..]);
}

#[test]
fn a_delete_in_a_newer_segment_leaves_a_tombstone() {
    let seg1 = encode_put(b"k", b"v1", 1);
    let seg2 = encode_delete(b"k", 2);
    let (wal, table) = WAL::load_dir(&[seg1.clone(), seg2.clone()]);
    let entry = table.get(b"k").unwrap();
    assert!(entry.deleted);
    assert_eq!(entry.value, None);
    assert_eq!(entry.timestamp, 2);
    let mut expected = seg1;
    expected.extend_from_slice(&seg2);
    assert_eq!(wal.as_bytes(), &expected[..]);
}

#[test]
fn recovery_writes_tombstones_with_the_flag_one() {
    let mut segment = encode_delete(b"k", 2);
    segment[8] = 0x2a;
    let (wal, table) = WAL::load_dir(&[segment]);
    assert!(table.get(b"k").unwrap().deleted);
    assert_eq!(wal.as_bytes(), &encode_delete(b"k", 2)[..]);
}

#[test]
fn recovery_twice_gives_the_same_table_and_segment() {
    let mut first = encode_put(b"a", b"1", 1);
    first.extend_from_slice(&encode_delete(b"b", 2));
    let cut = encode_put(b"zz", b"lost", 3);
    first.extend_from_slice(&cut[..10]);
    let second = encode_put(b"a", b"3", 4);
    let (wal1, table1) = WAL::load_dir(&[first, second]);
    let (wal2, table2) = WAL::load_dir(&[wal1.as_bytes().to_vec()]);
    assert_eq!(wal2.as_bytes(), wal1.as_bytes());
    assert_eq!(entries_of(&table2), entries_of(&table1));
    assert_eq!(table2.size(), table1.size());
    let (wal3, table3) = WAL::load_dir(&[wal2.as_bytes().to_vec()]);
    assert_eq!(wal3.as_bytes(), wal1.as_bytes());
    assert_eq!(entries_of(&table3), entries_of(&table1));
}

#[test]
fn replay_into_applies_a_segment_to_a_table() {
    let mut table = MemTable::new();
    table.insert(b"a", b"old", 1);
    table.insert(b"z", b"kept", 2);
    let mut segment = encode_put(b"a", b"new", 3);
    segment.extend_from_slice(&encode_delete(b"m", 4));
    segment.extend_from_slice(&[1, 2, 3]);
    let count = replay_into(&mut table, &segment);
    assert_eq!(count, 2);
    assert_eq!(table.get(b"a").unwrap().value, Some(b"new".to_vec()));
    assert!(table.get(b"m").unwrap().deleted);
    assert_eq!(table.get(b"z").unwrap().value, Some(b"kept".to_vec()));
    assert_eq!(table.len(), 3);
}

#[test]
fn a_cursor_walks_a_segment_once() {
    let mut segment = encode_put(b"a", b"1", 1);
    segment.extend_from_slice(&encode_put(b"b", b"2", 2));
    let mut iter = WALIter::new(&segment);
    assert_eq!(iter.next().unwrap().data.key, b"a".to_vec());
    assert_eq!(iter.next().unwrap().data.key, b"b".to_vec());
    assert!(iter.next().is_none());
}
