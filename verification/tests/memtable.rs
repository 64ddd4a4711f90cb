use anchor_db::memtable::{MemTable, MemTableEntry};

fn keys_of(table: &MemTable) -> Vec<Vec<u8>> {
    table.entries().iter().map(|e| e.key.clone()).collect()
}

#[test]
fn a_new_table_is_empty() {
    let table = MemTable::new();
    assert_eq!(table.len(), 0);
    assert_eq!(table.size(), 0);
    assert!(table.get(b"a").is_none());
    assert!(table.entries().is_empty());
}

#[test]
fn get_returns_the_inserted_entry() {
    let mut table = MemTable::new();
    table.insert(b"k", b"v", 11);
    let entry = table.get(b"k").unwrap();
    assert_eq!(
        *entry,
        MemTableEntry { key: b"k".to_vec(), value: Some(b"v".to_vec()), timestamp: 11, deleted: false }
    );
    assert!(table.get(b"j").is_none());
    assert!(table.get(b"kk").is_none());
    assert!(table.get(b"").is_none());
}

#[test]
fn keys_are_kept_in_strictly_ascending_order() {
    let mut table = MemTable::new();
    for key in [&b"m"[..], b"a", b"z", b"ab", b"", b"m", b"aa", b"\xff", b"a\x00", b"z"] {
        table.insert(key, b"v", 1);
    }
    let keys = keys_of(&table);
    let expected: Vec<Vec<u8>> = vec![
        b"".to_vec(),
        b"a".to_vec(),
        b"a\x00".to_vec(),
        b"aa".to_vec(),
        b"ab".to_vec(),
        b"m".to_vec(),
        b"z".to_vec(),
        b"\xff".to_vec(),
    ];
    assert_eq!(keys, expected);
    for pair in keys.windows(2) {
        assert!(pair[0] < pair[1]);
    }
}

#[test]
fn get_key_index_finds_keys_and_insertion_points() {
    let mut table = MemTable::new();
    table.insert(b"b", b"1", 1);
    table.insert(b"d", b"2", 2);
    table.insert(b"f", b"3", 3);
    assert_eq!(table.get_key_index(b"b"), Ok(0));
    assert_eq!(table.get_key_index(b"d"), Ok(1));
    assert_eq!(table.get_key_index(b"f"), Ok(2));
    assert_eq!(table.get_key_index(b"a"), Err(0));
    assert_eq!(table.get_key_index(b"c"), Err(1));
    assert_eq!(table.get_key_index(b"e"), Err(2));
    assert_eq!(table.get_key_index(b"g"), Err(3));
    assert_eq!(MemTable::new().get_key_index(b"a"), Err(0));
}

#[test]
fn insert_overwrites_value_and_timestamp_in_place() {
    let mut table = MemTable::new();
    table.insert(b"a", b"1", 1);
    table.insert(b"b", b"x", 2);
    table.insert(b"a", b"22", 3);
    assert_eq!(table.len(), 2);
    let entry = table.get(b"a").unwrap();
    assert_eq!(entry.value, Some(b"22".to_vec()));
    assert_eq!(entry.timestamp, 3);
    assert!(!entry.deleted);
}

#[test]
fn size_counts_key_value_and_seventeen_per_entry() {
    let mut table = MemTable::new();
    table.insert(b"ab", b"xyz", 1);
    assert_eq!(table.size(), 2 + 3 + 17);
    table.insert(b"c", b"", 2);
    assert_eq!(table.size(), 22 + 1 + 17);
}

#[test]
fn size_follows_the_change_of_the_value_length() {
    let mut table = MemTable::new();
    table.insert(b"ab", b"xyz", 1);
    table.insert(b"ab", b"x", 2);
    assert_eq!(table.size(), 2 + 1 + 17);
    table.insert(b"ab", b"xxxxxxxx", 3);
    assert_eq!(table.size(), 2 + 8 + 17);
    table.insert(b"ab", b"xxxxxxxx", 4);
    assert_eq!(table.size(), 2 + 8 + 17);
}

#[test]
fn delete_of_a_present_key_keeps_the_entry_as_a_tombstone() {
    let mut table = MemTable::new();
    table.insert(b"ab", b"xyz", 1);
    table.delete(b"ab", 2);
    assert_eq!(table.len(), 1);
    assert_eq!(table.size(), 2 + 17);
    let entry = table.get(b"ab").unwrap();
    assert_eq!(
        *entry,
        MemTableEntry { key: b"ab".to_vec(), value: None, timestamp: 2, deleted: true }
    );
}

#[test]
fn delete_of_an_absent_key_adds_a_tombstone() {
    let mut table = MemTable::new();
    table.insert(b"b", b"1", 1);
    table.delete(b"a", 2);
    assert_eq!(table.len(), 2);
    assert_eq!(table.size(), (1 + 1 + 17) + (1 + 17));
    assert_eq!(keys_of(&table), vec![b"a".to_vec(), b"b".to_vec()]);
    assert!(table.get(b"a").unwrap().deleted);
}

#[test]
fn insert_over_a_tombstone_accounts_for_the_new_value() {
    let mut table = MemTable::new();
    table.insert(b"ab", b"xyz", 1);
    table.delete(b"ab", 2);
    table.insert(b"ab", b"hello", 3);
    assert_eq!(table.size(), 2 + 5 + 17);
    let entry = table.get(b"ab").unwrap();
    assert_eq!(entry.value, Some(b"hello".to_vec()));
    assert!(!entry.deleted);
}

#[test]
fn delete_twice_changes_only_the_timestamp() {
    let mut table = MemTable::new();
    table.delete(b"k", 1);
    table.delete(b"k", 2);
    assert_eq!(table.len(), 1);
    assert_eq!(table.size(), 1 + 17);
    assert_eq!(table.get(b"k").unwrap().timestamp, 2);
}

#[test]
fn size_is_the_sum_over_the_entries_after_mixed_operations() {
    let mut table = MemTable::new();
    let ops: Vec<(&[u8], Option<&[u8]>)> = vec![
        (b"k1", Some(b"aaaa")),
        (b"k2", Some(b"b")),
        (b"k1", None),
        (b"k3", None),
        (b"k2", Some(b"cccccc")),
        (b"k1", Some(b"dd")),
        (b"k3", Some(b"")),
        (b"k4", Some(b"e")),
        (b"k4", None),
    ];
    for (i, (key, value)) in ops.iter().enumerate() {
        match value {
            Some(v) => table.insert(key, v, i as u128),
            None => table.delete(key, i as u128),
        }
        let sum: usize = table
            .entries()
            .iter()
            .map(|e| e.key.len() + e.value.as_ref().map_or(0, |v| v.len()) + 17)
            .sum();
        assert_eq!(table.size(), sum);
    }
    assert_eq!(table.size(), (2 + 2 + 17) + (2 + 6 + 17) + (2 + 17) + (2 + 17));
}

#[test]
fn every_entry_is_a_value_or_a_tombstone() {
    let mut table = MemTable::new();
    table.insert(b"a", b"1", 1);
    table.delete(b"b", 2);
    table.delete(b"a", 3);
    table.insert(b"b", b"2", 4);
    for entry in table.entries() {
        assert_eq!(entry.deleted, entry.value.is_none());
    }
}
