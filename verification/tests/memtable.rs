use lsm::memtable::{
    LookupResult, MemTable, MemTableEntry, MemTableError, ENTRY_BUDGET_BYTES, MAX_KEY_SIZE_BYTES,
    MEMTABLE_CAPACITY_BYTES, METADATA_OVERHEAD_BYTES,
};
use lsm::entry::{max_value_size_bytes_for_key, validate_key};

fn fixed_string(byte_len: usize, fill: char) -> String {
    std::iter::repeat(fill).take(byte_len).collect()
}

#[test]
fn empty_memtable_returns_not_found() {
    let memtable = MemTable::new();

    assert_eq!(memtable.get("missing"), LookupResult::NotFound);
    assert_eq!(memtable.used_bytes(), 0);
    assert_eq!(memtable.remaining_bytes(), MEMTABLE_CAPACITY_BYTES);
    assert!(memtable.is_empty());
}

#[test]
fn put_get_delete_round_trip_works() {
    let mut memtable = MemTable::new();

    memtable.put("alpha".into(), "value".into()).unwrap();
    assert_eq!(memtable.get("alpha"), LookupResult::Value("value".into()));

    memtable.delete("alpha".into()).unwrap();
    assert_eq!(memtable.get("alpha"), LookupResult::NotFound);
    assert_eq!(memtable.len(), 1);
}

#[test]
fn exact_boundary_sizes_pass_and_one_byte_over_fails() {
    let mut memtable = MemTable::new();

    let max_key = fixed_string(MAX_KEY_SIZE_BYTES, 'k');
    let max_value_size = ENTRY_BUDGET_BYTES - METADATA_OVERHEAD_BYTES - max_key.len();
    let max_value = fixed_string(max_value_size, 'v');

    memtable.put(max_key.clone(), max_value).unwrap();

    let oversized_key = fixed_string(MAX_KEY_SIZE_BYTES + 1, 'k');
    assert_eq!(
        memtable.put(oversized_key, "value".into()).unwrap_err(),
        MemTableError::KeyTooLarge {
            actual: MAX_KEY_SIZE_BYTES + 1,
            max: MAX_KEY_SIZE_BYTES,
        }
    );

    let oversized_value = fixed_string(max_value_size + 1, 'v');
    assert_eq!(
        memtable.put(max_key, oversized_value).unwrap_err(),
        MemTableError::ValueTooLarge {
            actual: max_value_size + 1,
            max: max_value_size,
        }
    );
}

#[test]
fn overwrite_replaces_accounting_instead_of_double_counting() {
    let mut memtable = MemTable::new();
    let key = "accounted";

    memtable.put(key.into(), "one".into()).unwrap();
    let first_size = memtable.used_bytes();

    memtable.put(key.into(), "longer-value".into()).unwrap();
    let second_size = memtable.used_bytes();

    assert_eq!(memtable.len(), 1);
    assert!(second_size > first_size);
    assert_eq!(
        second_size,
        key.len() + "longer-value".len() + METADATA_OVERHEAD_BYTES
    );
}

#[test]
fn capacity_exhaustion_returns_memtable_full() {
    let mut memtable = MemTable::new();
    let value = fixed_string(ENTRY_BUDGET_BYTES - METADATA_OVERHEAD_BYTES - 8, 'v');

    for index in 0..(MEMTABLE_CAPACITY_BYTES / ENTRY_BUDGET_BYTES) {
        let key = format!("k{index:07}");
        memtable.put(key, value.clone()).unwrap();
    }

    let error = memtable.put("z0000000".into(), value).unwrap_err();
    assert_eq!(
        error,
        MemTableError::MemTableFull {
            requested: ENTRY_BUDGET_BYTES,
            remaining: 0,
            capacity: MEMTABLE_CAPACITY_BYTES,
        }
    );
}

#[test]
fn entries_snapshot_is_sorted_and_preserves_tombstones() {
    let mut memtable = MemTable::new();

    memtable.put("beta".into(), "two".into()).unwrap();
    memtable.put("alpha".into(), "one".into()).unwrap();
    memtable.delete("beta".into()).unwrap();

    let snapshot = memtable.entries_snapshot();

    assert_eq!(snapshot.len(), 2);
    assert_eq!(snapshot[0].0, "alpha");
    assert_eq!(
        snapshot[0].1.to_lookup_result(),
        LookupResult::Value("one".into())
    );
    assert_eq!(snapshot[1].0, "beta");
    assert!(snapshot[1].1.is_tombstone);
    assert_eq!(snapshot[1].1.to_lookup_result(), LookupResult::NotFound);
}

#[test]
fn refused_writes_leave_the_memtable_unchanged() {
    let mut memtable = MemTable::new();
    memtable.put("alpha".into(), "one".into()).unwrap();
    let before = memtable.entries_snapshot();
    let used = memtable.used_bytes();

    assert_eq!(
        memtable.put("".into(), "value".into()).unwrap_err(),
        MemTableError::EmptyKey
    );
    assert_eq!(memtable.delete("".into()).unwrap_err(), MemTableError::EmptyKey);
    let long_key = fixed_string(MAX_KEY_SIZE_BYTES + 1, 'k');
    assert_eq!(
        memtable.delete(long_key).unwrap_err(),
        MemTableError::KeyTooLarge { actual: 1025, max: 1024 }
    );
    assert_eq!(
        memtable.put("alpha".into(), fixed_string(4032, 'v')).unwrap_err(),
        MemTableError::ValueTooLarge { actual: 4032, max: 4031 }
    );

    assert_eq!(memtable.entries_snapshot(), before);
    assert_eq!(memtable.used_bytes(), used);
}

#[test]
fn a_full_memtable_still_takes_smaller_writes_in_place() {
    let mut memtable = MemTable::new();
    let value = fixed_string(ENTRY_BUDGET_BYTES - METADATA_OVERHEAD_BYTES - 8, 'v');
    for index in 0..(MEMTABLE_CAPACITY_BYTES / ENTRY_BUDGET_BYTES) {
        memtable.put(format!("k{index:07}"), value.clone()).unwrap();
    }
    assert_eq!(memtable.remaining_bytes(), 0);

    memtable.put("k0000000".into(), value.clone()).unwrap();
    assert_eq!(memtable.remaining_bytes(), 0);

    memtable.delete("k0000001".into()).unwrap();
    assert_eq!(memtable.remaining_bytes(), value.len());
    assert_eq!(memtable.len(), 1024);

    let error = memtable.put("z0000000".into(), value).unwrap_err();
    assert_eq!(
        error,
        MemTableError::MemTableFull {
            requested: 4096,
            remaining: 4028,
            capacity: 4194304,
        }
    );
}

#[test]
fn a_tombstone_takes_its_key_and_metadata() {
    let mut memtable = MemTable::new();
    memtable.delete("alpha".into()).unwrap();
    assert_eq!(memtable.used_bytes(), 65);
    assert_eq!(
        memtable.get_entry("alpha"),
        Some(MemTableEntry {
            value: None,
            key_size_bytes: 5,
            value_size_bytes: 0,
            entry_size_bytes: 65,
            is_tombstone: true,
        })
    );
    assert_eq!(memtable.get_entry("beta"), None);
}

#[test]
fn sizes_are_counted_in_bytes() {
    let mut memtable = MemTable::new();
    memtable.put("clé".into(), "värde".into()).unwrap();
    let entry = memtable.get_entry("clé").unwrap();
    assert_eq!(entry.key_size_bytes, 4);
    assert_eq!(entry.value_size_bytes, 6);
    assert_eq!(entry.entry_size_bytes, 70);
    assert!(!entry.is_tombstone);
    assert_eq!(memtable.used_bytes(), 70);
}

#[test]
fn writes_to_one_key_leave_the_others_alone() {
    let mut memtable = MemTable::default();
    memtable.put("alpha".into(), "one".into()).unwrap();
    memtable.put("beta".into(), "two".into()).unwrap();
    assert!(!memtable.is_empty());

    memtable.put("alpha".into(), "".into()).unwrap();
    assert_eq!(memtable.get("alpha"), LookupResult::Value("".into()));
    assert_eq!(memtable.get("beta"), LookupResult::Value("two".into()));

    memtable.delete("beta".into()).unwrap();
    memtable.put("beta".into(), "again".into()).unwrap();
    assert_eq!(memtable.get("alpha"), LookupResult::Value("".into()));
    assert_eq!(memtable.get("beta"), LookupResult::Value("again".into()));
    assert_eq!(memtable.len(), 2);
}

#[test]
fn a_snapshot_lists_keys_in_byte_order() {
    let mut memtable = MemTable::new();
    for key in ["b", "ab", "é", "a", "B", "a\u{0}", "z"] {
        memtable.put(key.into(), key.into()).unwrap();
    }
    let keys: Vec<String> = memtable.entries_snapshot().into_iter().map(|item| item.0).collect();
    assert_eq!(keys, vec!["B", "a", "a\u{0}", "ab", "b", "z", "é"]);
}

#[test]
fn entries_are_built_with_their_sizes() {
    assert_eq!(
        MemTableEntry::new_value("alpha", "one".into()),
        Ok(MemTableEntry {
            value: Some("one".into()),
            key_size_bytes: 5,
            value_size_bytes: 3,
            entry_size_bytes: 68,
            is_tombstone: false,
        })
    );
    assert_eq!(MemTableEntry::new_tombstone(""), Err(MemTableError::EmptyKey));
    assert_eq!(
        MemTableEntry::build("alpha", None),
        MemTableEntry::new_tombstone("alpha")
    );
    let entry = MemTableEntry::new_value("alpha", "one".into()).unwrap();
    assert_eq!(entry.clone(), entry);
}

#[test]
fn no_entry_within_its_value_limit_is_over_its_budget() {
    for key_size in [1usize, 2, 500, MAX_KEY_SIZE_BYTES] {
        let key = fixed_string(key_size, 'k');
        let limit = max_value_size_bytes_for_key(key_size);
        let entry = MemTableEntry::new_value(&key, fixed_string(limit, 'v')).unwrap();
        assert_eq!(entry.entry_size_bytes, ENTRY_BUDGET_BYTES);
        assert_eq!(
            MemTableEntry::new_value(&key, fixed_string(limit + 1, 'v')).unwrap_err(),
            MemTableError::ValueTooLarge { actual: limit + 1, max: limit }
        );
    }
    assert_eq!(max_value_size_bytes_for_key(8), 4028);
    assert_eq!(max_value_size_bytes_for_key(4036), 0);
    assert_eq!(max_value_size_bytes_for_key(5000), 0);
}

#[test]
fn keys_are_validated() {
    assert_eq!(validate_key("k"), Ok(()));
    assert_eq!(validate_key(&fixed_string(1024, 'k')), Ok(()));
    assert_eq!(validate_key(""), Err(MemTableError::EmptyKey));
    assert_eq!(
        validate_key(&fixed_string(513, 'é')),
        Err(MemTableError::KeyTooLarge { actual: 1026, max: 1024 })
    );
}
