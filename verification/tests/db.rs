use lsm::memtable::{
    MemTableError, ENTRY_BUDGET_BYTES, MEMTABLE_CAPACITY_BYTES, METADATA_OVERHEAD_BYTES,
};
use lsm::{Db, DbError, LookupResult};

fn fixed_string(byte_len: usize, fill: char) -> String {
    std::iter::repeat(fill).take(byte_len).collect()
}

#[test]
fn open_put_get_delete_close_round_trip_works() {
    let mut db = Db::open();

    assert!(db.is_empty().unwrap());
    db.put("alpha".into(), "value".into()).unwrap();
    assert_eq!(db.len().unwrap(), 1);
    assert!(db.used_bytes().unwrap() > 0);
    assert!(db.remaining_bytes().unwrap() < MEMTABLE_CAPACITY_BYTES);
    assert_eq!(
        db.get("alpha").unwrap(),
        LookupResult::Value("value".into())
    );

    db.delete("alpha".into()).unwrap();
    assert_eq!(db.get("alpha").unwrap(), LookupResult::NotFound);

    db.close().unwrap();
}

#[test]
fn operations_fail_after_close() {
    let mut db = Db::open();
    db.close().unwrap();

    assert_eq!(db.get("alpha").unwrap_err(), DbError::Closed);
    assert_eq!(
        db.put("alpha".into(), "value".into()).unwrap_err(),
        DbError::Closed
    );
    assert_eq!(db.delete("alpha".into()).unwrap_err(), DbError::Closed);
    assert_eq!(db.len().unwrap_err(), DbError::Closed);
    assert_eq!(db.close().unwrap_err(), DbError::Closed);
}

#[test]
fn validation_errors_bubble_up_through_db() {
    let mut db = Db::open();

    assert_eq!(
        db.put("".into(), "value".into()).unwrap_err(),
        DbError::MemTable(MemTableError::EmptyKey)
    );
}

#[test]
fn deleting_a_non_existent_key_creates_a_tombstone_and_returns_not_found() {
    let mut db = Db::open();

    db.delete("missing".into()).unwrap();

    assert_eq!(db.get("missing").unwrap(), LookupResult::NotFound);
    assert_eq!(db.len().unwrap(), 1);
}

#[test]
fn full_writable_memtable_rotates_without_losing_reads() {
    let mut db = Db::open();
    let value = fixed_string(ENTRY_BUDGET_BYTES - METADATA_OVERHEAD_BYTES - 8, 'v');

    for index in 0..(MEMTABLE_CAPACITY_BYTES / ENTRY_BUDGET_BYTES) {
        db.put(format!("k{index:07}"), value.clone()).unwrap();
    }

    assert_eq!(db.immutable_memtable_count().unwrap(), 0);

    db.put("z0000000".into(), value.clone()).unwrap();

    assert_eq!(db.immutable_memtable_count().unwrap(), 1);
    assert_eq!(
        db.get("k0000000").unwrap(),
        LookupResult::Value(value.clone())
    );
    assert_eq!(db.get("z0000000").unwrap(), LookupResult::Value(value));
    assert_eq!(
        db.remaining_bytes().unwrap(),
        MEMTABLE_CAPACITY_BYTES - ENTRY_BUDGET_BYTES
    );
}

#[test]
fn newer_tombstone_hides_older_value_across_memtables() {
    let mut db = Db::open();

    db.put("alpha".into(), "value".into()).unwrap();
    assert!(db.rotate_writable_memtable().is_some());

    db.delete("alpha".into()).unwrap();

    assert_eq!(db.get("alpha").unwrap(), LookupResult::NotFound);
    assert_eq!(db.len().unwrap(), 2);
    assert_eq!(db.immutable_memtable_count().unwrap(), 1);
}

#[test]
fn immutable_memtables_are_popped_oldest_first_for_future_flushes() {
    let mut db = Db::open();

    db.put("alpha".into(), "one".into()).unwrap();
    db.rotate_writable_memtable().unwrap();
    db.put("beta".into(), "two".into()).unwrap();
    db.rotate_writable_memtable().unwrap();

    let oldest = db.pop_oldest_immutable_memtable().unwrap().unwrap();
    let next = db.pop_oldest_immutable_memtable().unwrap().unwrap();

    assert_eq!(
        oldest.entries_snapshot(),
        vec![("alpha".into(), oldest.get_entry("alpha").unwrap(),)]
    );
    assert_eq!(
        next.entries_snapshot(),
        vec![("beta".into(), next.get_entry("beta").unwrap(),)]
    );
    assert!(db.pop_oldest_immutable_memtable().unwrap().is_none());
}

#[test]
fn every_request_fails_after_close() {
    let mut db = Db::default();
    db.put("alpha".into(), "value".into()).unwrap();
    db.rotate_writable_memtable().unwrap();
    db.close().unwrap();

    assert_eq!(db.is_empty().unwrap_err(), DbError::Closed);
    assert_eq!(db.used_bytes().unwrap_err(), DbError::Closed);
    assert_eq!(db.remaining_bytes().unwrap_err(), DbError::Closed);
    assert_eq!(db.immutable_memtable_count().unwrap_err(), DbError::Closed);
    assert_eq!(
        db.pop_oldest_immutable_memtable().unwrap_err(),
        DbError::Closed
    );
}

#[test]
fn reads_see_the_newest_of_several_memtables() {
    let mut db = Db::open();
    db.put("alpha".into(), "one".into()).unwrap();
    db.put("beta".into(), "one".into()).unwrap();
    db.put("gamma".into(), "one".into()).unwrap();
    db.rotate_writable_memtable().unwrap();
    db.put("alpha".into(), "two".into()).unwrap();
    db.delete("beta".into()).unwrap();
    db.rotate_writable_memtable().unwrap();
    db.put("alpha".into(), "three".into()).unwrap();

    assert_eq!(db.get("alpha").unwrap(), LookupResult::Value("three".into()));
    assert_eq!(db.get("beta").unwrap(), LookupResult::NotFound);
    assert_eq!(db.get("gamma").unwrap(), LookupResult::Value("one".into()));
    assert_eq!(db.get("delta").unwrap(), LookupResult::NotFound);
    assert_eq!(db.len().unwrap(), 6);
    assert_eq!(db.used_bytes().unwrap(), 68 + 67 + 68 + 68 + 64 + 70);
    assert_eq!(db.remaining_bytes().unwrap(), 4194304 - 70);
    assert!(!db.is_empty().unwrap());
}

#[test]
fn an_empty_writable_memtable_is_not_rotated() {
    let mut db = Db::open();
    assert!(db.rotate_writable_memtable().is_none());
    assert_eq!(db.immutable_memtable_count().unwrap(), 0);
    assert!(db.pop_oldest_immutable_memtable().unwrap().is_none());

    db.put("alpha".into(), "one".into()).unwrap();
    let rotated = db.rotate_writable_memtable().unwrap();
    assert_eq!(rotated.get("alpha"), LookupResult::Value("one".into()));
    assert!(db.rotate_writable_memtable().is_none());
    assert_eq!(db.immutable_memtable_count().unwrap(), 1);
}

#[test]
fn a_full_memtable_takes_overwrites_without_rotation() {
    let mut db = Db::open();
    let value = fixed_string(ENTRY_BUDGET_BYTES - METADATA_OVERHEAD_BYTES - 8, 'v');
    for index in 0..(MEMTABLE_CAPACITY_BYTES / ENTRY_BUDGET_BYTES) {
        db.put(format!("k{index:07}"), value.clone()).unwrap();
    }
    db.put("k0000000".into(), "short".into()).unwrap();
    assert_eq!(db.immutable_memtable_count().unwrap(), 0);
    assert_eq!(db.len().unwrap(), 1024);

    db.delete("zz".into()).unwrap();
    assert_eq!(db.immutable_memtable_count().unwrap(), 0);

    db.put("z0000000".into(), value.clone()).unwrap();
    db.delete("k0000001".into()).unwrap();
    assert_eq!(db.immutable_memtable_count().unwrap(), 1);
    assert_eq!(db.get("k0000000").unwrap(), LookupResult::Value("short".into()));
    assert_eq!(db.get("k0000001").unwrap(), LookupResult::NotFound);
    assert_eq!(db.get("k0000002").unwrap(), LookupResult::Value(value));
}

#[test]
fn refused_writes_leave_the_database_unchanged() {
    let mut db = Db::open();
    db.put("alpha".into(), "one".into()).unwrap();
    assert_eq!(
        db.put("alpha".into(), fixed_string(4032, 'v')).unwrap_err(),
        DbError::MemTable(MemTableError::ValueTooLarge { actual: 4032, max: 4031 })
    );
    assert_eq!(
        db.delete(fixed_string(1025, 'k')).unwrap_err(),
        DbError::MemTable(MemTableError::KeyTooLarge { actual: 1025, max: 1024 })
    );
    assert_eq!(db.get("alpha").unwrap(), LookupResult::Value("one".into()));
    assert_eq!(db.len().unwrap(), 1);
    assert_eq!(db.used_bytes().unwrap(), 68);
    assert_eq!(db.immutable_memtable_count().unwrap(), 0);
}

#[test]
fn nothing_reopens_a_closed_database() {
    let mut db = Db::open();
    db.put("alpha".into(), "one".into()).unwrap();
    db.close().unwrap();

    assert!(db.rotate_writable_memtable().is_some());
    assert!(db.rotate_writable_memtable().is_none());
    assert_eq!(db.close().unwrap_err(), DbError::Closed);
    assert_eq!(db.put("".into(), "value".into()).unwrap_err(), DbError::Closed);
    assert_eq!(db.delete("".into()).unwrap_err(), DbError::Closed);
    assert_eq!(db.get("alpha").unwrap_err(), DbError::Closed);
    assert_eq!(
        db.pop_oldest_immutable_memtable().unwrap_err(),
        DbError::Closed
    );
}

#[test]
fn requests_other_than_closing_leave_the_database_open() {
    let mut db = Db::open();
    db.put("".into(), "value".into()).unwrap_err();
    db.put("alpha".into(), "one".into()).unwrap();
    db.rotate_writable_memtable().unwrap();
    db.pop_oldest_immutable_memtable().unwrap();
    assert_eq!(db.len(), Ok(0));
    assert_eq!(db.close(), Ok(()));
}

#[test]
fn rotation_keeps_reads_and_totals() {
    let mut db = Db::open();
    db.put("alpha".into(), "one".into()).unwrap();
    db.delete("beta".into()).unwrap();
    assert_eq!(db.len(), Ok(2));
    assert_eq!(db.used_bytes(), Ok(132));

    db.rotate_writable_memtable().unwrap();
    assert!(db.rotate_writable_memtable().is_none());

    assert_eq!(db.immutable_memtable_count(), Ok(1));
    assert_eq!(db.len(), Ok(2));
    assert_eq!(db.used_bytes(), Ok(132));
    assert_eq!(db.get("alpha"), Ok(LookupResult::Value("one".into())));
    assert_eq!(db.get("beta"), Ok(LookupResult::NotFound));
}

#[test]
fn one_generation_is_set_aside_once() {
    let mut db = Db::open();
    db.put("alpha".into(), "one".into()).unwrap();
    let generation = db.generation();
    for _ in 0..3 {
        db.rotate_writable_memtable_if_current(generation);
        assert_eq!(db.immutable_memtable_count(), Ok(1));
        assert_eq!(db.get("alpha"), Ok(LookupResult::Value("one".into())));
        assert_eq!(db.len(), Ok(1));
        assert_eq!(db.used_bytes(), Ok(68));
    }
    assert_ne!(db.generation(), generation);

    db.put("beta".into(), "two".into()).unwrap();
    db.rotate_writable_memtable_if_current(generation);
    assert_eq!(db.immutable_memtable_count(), Ok(1));
    db.rotate_writable_memtable_if_current(db.generation());
    assert_eq!(db.immutable_memtable_count(), Ok(2));
}

#[test]
fn only_a_close_makes_the_database_closed() {
    let mut db = Db::open();
    assert_eq!(db.ensure_open(), Ok(()));
    db.put("alpha".into(), "one".into()).unwrap();
    db.rotate_writable_memtable_if_current(db.generation());
    assert_eq!(db.ensure_open(), Ok(()));
    db.close().unwrap();
    assert_eq!(db.ensure_open(), Err(DbError::Closed));
    db.rotate_writable_memtable_if_current(db.generation());
    assert_eq!(db.ensure_open(), Err(DbError::Closed));
}
