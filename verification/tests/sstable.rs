use lsm::db::{Db, ReadError};
use lsm::buffer::{read_u16_le, read_u32_le};
use lsm::memtable::{LookupResult, MemTable, MemTableEntry};
use lsm::order::{compare_bytes, Precedence};
use lsm::sstable::{
    describe_table, SstRecord, SstableError, SstableMeta, SstableReader, SstableWriter,
    HEADER_SIZE, MAGIC, VERSION,
};

fn write_entry(key: &str, value: Option<&str>) -> (String, MemTableEntry) {
    let is_tombstone = value.is_none();
    let value_owned = value.map(|v| v.to_owned());
    let key_size_bytes = key.len();
    let value_size_bytes = value_owned.as_ref().map_or(0, |v| v.len());
    let entry = MemTableEntry {
        value: value_owned,
        key_size_bytes,
        value_size_bytes,
        entry_size_bytes: key_size_bytes + value_size_bytes + 60,
        is_tombstone,
    };
    (key.to_owned(), entry)
}

/// Writes the entries as a file would receive them.
fn write_table(entries: &[(String, MemTableEntry)]) -> (SstableMeta, Vec<u8>) {
    let (mut writer, mut file) = SstableWriter::create();
    for (key, entry) in entries {
        file.extend(writer.write_entry(key, entry).unwrap());
    }
    let (meta, header) = writer.finish();
    file[..HEADER_SIZE].copy_from_slice(&header);
    (meta, file)
}

fn put_u32(file: &mut [u8], at: usize, n: u32) {
    file[at..at + 4].copy_from_slice(&n.to_le_bytes());
}

fn corrupt(what: &str) -> SstableError {
    SstableError::Corrupt(what.into())
}

/// A table with these bytes as its entries, and the checksum that `checksum` is.
fn raw_table(entry_count: u32, entries: &[u8], checksum: u32) -> Vec<u8> {
    let (_, mut file) = describe_table(entry_count, None, None, checksum);
    file.extend_from_slice(entries);
    file
}

#[test]
fn round_trip_values_and_tombstones() {
    let (meta, file) = write_table(&[
        write_entry("alpha", Some("one")),
        write_entry("beta", None),
        write_entry("gamma", Some("three")),
    ]);

    assert_eq!(meta.entry_count, 3);
    assert_eq!(meta.smallest_key, "alpha");
    assert_eq!(meta.largest_key, "gamma");

    let reader = SstableReader::open(file).unwrap();
    assert_eq!(reader.entry_count(), 3);
    assert_eq!(
        reader.get("alpha").unwrap().unwrap().to_lookup_result(),
        LookupResult::Value("one".into())
    );
    assert_eq!(
        reader.get("beta").unwrap().unwrap().to_lookup_result(),
        LookupResult::NotFound
    );
    assert_eq!(
        reader.get("gamma").unwrap().unwrap().to_lookup_result(),
        LookupResult::Value("three".into())
    );
    assert!(reader.get("missing").unwrap().is_none());
}

#[test]
fn short_circuits_past_target_key() {
    let (_, file) = write_table(&[
        write_entry("alpha", Some("a")),
        write_entry("delta", Some("d")),
        write_entry("zulu", Some("z")),
    ]);

    let reader = SstableReader::open(file).unwrap();
    assert!(reader.get("bravo").unwrap().is_none());
    assert!(reader.get("charlie").unwrap().is_none());
}

#[test]
fn corrupt_crc_is_detected() {
    let (_, mut bytes) = write_table(&[write_entry("alpha", Some("one"))]);

    let last = bytes.len() - 1;
    bytes[last] ^= 0xFF;

    let err = SstableReader::open(bytes).unwrap_err();
    assert!(matches!(err, SstableError::Corrupt(_)));
}

#[test]
fn a_table_has_these_bytes() {
    let (meta, file) = write_table(&[write_entry("alpha", Some("one")), write_entry("beta", None)]);
    let mut expected: Vec<u8> = Vec::new();
    expected.extend_from_slice(b"LSMSS001");
    expected.extend_from_slice(&[1, 0, 0, 0]);
    expected.extend_from_slice(&[2, 0, 0, 0]);
    expected.extend_from_slice(&[0xB9, 0xB9, 0xC5, 0x15]);
    expected.extend_from_slice(&[0; 12]);
    expected.extend_from_slice(&[5, 0, 3, 0, 0, 0, 0]);
    expected.extend_from_slice(b"alphaone");
    expected.extend_from_slice(&[4, 0, 0, 0, 0, 0, 1]);
    expected.extend_from_slice(b"beta");
    assert_eq!(file, expected);
    assert_eq!(meta.data_crc32, 0x15C5_B9B9);
    assert_eq!(MAGIC, *b"LSMSS001");
    assert_eq!(VERSION, 1);
}

#[test]
fn an_empty_table_can_be_read() {
    let (meta, file) = write_table(&[]);
    assert_eq!(meta.entry_count, 0);
    assert_eq!(meta.smallest_key, "");
    assert_eq!(meta.largest_key, "");
    assert_eq!(meta.data_crc32, 0);
    assert_eq!(file.len(), HEADER_SIZE);

    let reader = SstableReader::open(file).unwrap();
    assert_eq!(reader.entry_count(), 0);
    assert_eq!(reader.get("alpha"), Ok(None));
}

#[test]
fn the_header_is_reserved_with_zeros() {
    let (_, reserved) = SstableWriter::create();
    assert_eq!(reserved, vec![0u8; 32]);
}

#[test]
fn a_key_must_fit_its_length_field() {
    let (mut writer, _) = SstableWriter::create();
    let long: String = std::iter::repeat('k').take(65535).collect();
    let (key, entry) = write_entry(&long, Some("v"));
    let bytes = writer.write_entry(&key, &entry).unwrap();
    assert_eq!(bytes.len(), 7 + 65535 + 1);
    assert_eq!(&bytes[..7], &[0xFF, 0xFF, 1, 0, 0, 0, 0]);

    let longer: String = std::iter::repeat('k').take(65536).collect();
    let (key, entry) = write_entry(&longer, Some("v"));
    assert_eq!(
        writer.write_entry(&key, &entry).unwrap_err(),
        corrupt("key length exceeds u16")
    );

    let (meta, _) = writer.finish();
    assert_eq!(meta.entry_count, 1);
    assert_eq!(meta.largest_key, long);
}

#[test]
fn bad_headers_are_refused() {
    let (_, file) = write_table(&[write_entry("alpha", Some("one"))]);

    assert_eq!(
        SstableReader::open(file[..31].to_vec()).unwrap_err(),
        corrupt("file smaller than header")
    );
    assert_eq!(
        SstableReader::open(Vec::new()).unwrap_err(),
        corrupt("file smaller than header")
    );

    let mut other_magic = file.clone();
    other_magic[7] = b'2';
    assert_eq!(
        SstableReader::open(other_magic).unwrap_err(),
        corrupt("magic bytes mismatch")
    );

    let mut other_version = file.clone();
    put_u32(&mut other_version, 8, 0x01020304);
    assert_eq!(
        SstableReader::open(other_version).unwrap_err(),
        SstableError::UnsupportedVersion(0x01020304)
    );

    let mut other_checksum = file.clone();
    other_checksum[19] ^= 1;
    assert_eq!(
        SstableReader::open(other_checksum).unwrap_err(),
        corrupt("CRC32 checksum mismatch")
    );

    let mut other_reserved = file;
    other_reserved[31] = 1;
    assert!(SstableReader::open(other_reserved).is_ok());
}

#[test]
fn the_checksum_is_crc_32() {
    let file = raw_table(0, b"123456789", 0xCBF4_3926);
    assert!(SstableReader::open(file).is_ok());
    let file = raw_table(0, b"123456789", 0xCBF4_3927);
    assert_eq!(
        SstableReader::open(file).unwrap_err(),
        corrupt("CRC32 checksum mismatch")
    );
}

#[test]
fn bad_entries_are_found_by_the_search() {
    let search = |entry_count: u32, entries: &[u8], key: &str| {
        let reader = SstableReader::open_with_checksum(raw_table(entry_count, entries, 7), 7);
        reader.unwrap().get(key)
    };
    assert_eq!(
        search(1, &[1, 0, 0, 0, 0, 0], "k"),
        Err(corrupt("truncated entry header"))
    );
    assert_eq!(search(1, &[], "k"), Err(corrupt("truncated entry header")));
    assert_eq!(
        search(1, &[1, 0, 0, 0, 0, 0, 0], "k"),
        Err(corrupt("truncated entry body"))
    );
    assert_eq!(
        search(1, &[1, 0, 0xFF, 0xFF, 0xFF, 0xFF, 0, b'k'], "k"),
        Err(corrupt("truncated entry body"))
    );
    assert_eq!(
        search(1, &[1, 0, 0, 0, 0, 0, 0, 0xFF], "k"),
        Err(corrupt("non-UTF-8 key"))
    );
    assert_eq!(
        search(1, &[1, 0, 1, 0, 0, 0, 0, b'k', 0xFF], "k"),
        Err(corrupt("non-UTF-8 value"))
    );
    // A value that the search does not return is not looked at.
    assert_eq!(search(1, &[1, 0, 1, 0, 0, 0, 0, b'k', 0xFF], "l"), Ok(None));
    assert_eq!(
        search(1, &[1, 0, 1, 0, 0, 0, 1, b'k', 0xFF], "k"),
        Ok(Some(SstRecord { key: "k".into(), value: None }))
    );
    // Only the lowest bit of the flags counts.
    assert_eq!(
        search(1, &[1, 0, 1, 0, 0, 0, 0xFE, b'k', b'v'], "k"),
        Ok(Some(SstRecord { key: "k".into(), value: Some("v".into()) }))
    );
    assert_eq!(
        search(2, &[1, 0, 0, 0, 0, 0, 0, b'k'], "l"),
        Err(corrupt("truncated entry header"))
    );
    assert_eq!(search(2, &[1, 0, 0, 0, 0, 0, 0, b'k'], "j"), Ok(None));
    // Entries beyond the count are not read.
    assert_eq!(search(0, &[1, 0, 0, 0, 0, 0, 0, b'k'], "k"), Ok(None));
}

#[test]
fn the_checksum_is_compared_with_the_one_given() {
    let file = raw_table(0, &[], 7);
    assert!(SstableReader::open_with_checksum(file.clone(), 7).is_ok());
    assert_eq!(
        SstableReader::open_with_checksum(file.clone(), 8).unwrap_err(),
        corrupt("CRC32 checksum mismatch")
    );
    assert_eq!(
        SstableReader::open_with_checksum(file[..4].to_vec(), 7).unwrap_err(),
        corrupt("file smaller than header")
    );
}

#[test]
fn tables_are_described() {
    let (meta, header) = describe_table(3, Some("a".into()), Some("z".into()), 0x0403_0201);
    assert_eq!(meta.entry_count, 3);
    assert_eq!(meta.smallest_key, "a");
    assert_eq!(meta.largest_key, "z");
    assert_eq!(meta.data_crc32, 0x0403_0201);
    assert_eq!(header.len(), 32);
    assert_eq!(&header[8..], &[
        1, 0, 0, 0, 3, 0, 0, 0, 1, 2, 3, 4, 0, 0, 0, 0, 0, 0, 0, 0, 0, 0, 0, 0,
    ]);
}

#[test]
fn a_written_memtable_is_read_back() {
    let mut memtable = MemTable::new();
    memtable.put("beta".into(), "two".into()).unwrap();
    memtable.put("été".into(), "chaud".into()).unwrap();
    memtable.put("alpha".into(), "".into()).unwrap();
    memtable.put("gamma".into(), "three".into()).unwrap();
    memtable.delete("beta".into()).unwrap();

    let (meta, file) = write_table(&memtable.entries_snapshot());
    assert_eq!(meta.entry_count, 4);
    assert_eq!(meta.smallest_key, "alpha");
    assert_eq!(meta.largest_key, "été");

    let reader = SstableReader::open(file).unwrap();
    for key in ["alpha", "beta", "gamma", "été", "a", "zeta", "ête"] {
        let expected = memtable
            .get_entry(key)
            .map(|entry| SstRecord { key: key.into(), value: entry.value });
        assert_eq!(reader.get(key), Ok(expected));
    }
}

#[test]
fn flushing_the_oldest_memtable_keeps_reads() {
    let mut db = Db::open();
    db.put("alpha".into(), "one".into()).unwrap();
    db.put("beta".into(), "one".into()).unwrap();
    db.delete("gamma".into()).unwrap();
    db.put("hidden".into(), "one".into()).unwrap();
    db.rotate_writable_memtable().unwrap();
    db.put("beta".into(), "two".into()).unwrap();
    db.delete("hidden".into()).unwrap();
    let keys = ["alpha", "beta", "gamma", "delta", "hidden"];
    let before: Vec<LookupResult> = keys.iter().map(|key| db.get(key).unwrap()).collect();
    assert_eq!(before[4], LookupResult::NotFound);

    let oldest = db.pop_oldest_immutable_memtable().unwrap().unwrap();
    let (_, file) = write_table(&oldest.entries_snapshot());
    let level0 = vec![SstableReader::open(file).unwrap()];

    for (key, expected) in keys.iter().zip(before) {
        assert_eq!(db.get_with_level0(key, &level0), Ok(expected));
    }
}

#[test]
fn integers_are_little_endian() {
    assert_eq!(read_u16_le(&[9, 1, 2], 1), 0x0201);
    assert_eq!(read_u32_le(&[9, 1, 2, 3, 0xFF], 1), 0xFF03_0201);
}

#[test]
fn byte_strings_compare_lexicographically() {
    assert_eq!(compare_bytes(b"", b""), Precedence::Same);
    assert_eq!(compare_bytes(b"", b"a"), Precedence::Before);
    assert_eq!(compare_bytes(b"ab", b"a"), Precedence::After);
    assert_eq!(compare_bytes(b"ab", b"b"), Precedence::Before);
    assert_eq!(compare_bytes(&[0xFF], &[0x7F]), Precedence::After);
    assert_eq!(compare_bytes(b"abc", b"abc"), Precedence::Same);
}

#[test]
fn every_changed_byte_of_the_entries_is_detected() {
    let (_, file) = write_table(&[write_entry("alpha", Some("one")), write_entry("beta", None)]);
    for at in HEADER_SIZE..file.len() {
        for change in [0x01, 0x80, 0xFF] {
            let mut changed = file.clone();
            changed[at] ^= change;
            assert_eq!(
                SstableReader::open(changed).unwrap_err(),
                corrupt("CRC32 checksum mismatch")
            );
        }
    }
}

#[test]
fn tables_of_several_memtables_answer_newest_first() {
    let mut db = Db::open();
    db.put("alpha".into(), "one".into()).unwrap();
    db.put("beta".into(), "one".into()).unwrap();
    db.put("gamma".into(), "one".into()).unwrap();
    db.rotate_writable_memtable().unwrap();
    db.put("alpha".into(), "two".into()).unwrap();
    db.delete("beta".into()).unwrap();
    db.rotate_writable_memtable().unwrap();

    let mut level0: Vec<SstableReader> = Vec::new();
    while let Some(oldest) = db.pop_oldest_immutable_memtable().unwrap() {
        let (_, file) = write_table(&oldest.entries_snapshot());
        level0.insert(0, SstableReader::open(file).unwrap());
    }
    assert_eq!(level0.len(), 2);

    let read = |key: &str| db.get_with_level0(key, &level0).unwrap();
    assert_eq!(read("alpha"), LookupResult::Value("two".into()));
    assert_eq!(read("beta"), LookupResult::NotFound);
    assert_eq!(read("gamma"), LookupResult::Value("one".into()));
    assert_eq!(read("delta"), LookupResult::NotFound);

    db.delete("gamma".into()).unwrap();
    db.put("beta".into(), "three".into()).unwrap();
    let read = |key: &str| db.get_with_level0(key, &level0).unwrap();
    assert_eq!(read("alpha"), LookupResult::Value("two".into()));
    assert_eq!(read("beta"), LookupResult::Value("three".into()));
    assert_eq!(read("gamma"), LookupResult::NotFound);
}

#[test]
fn reads_hand_on_the_fault_of_a_table() {
    let (_, sound) = write_table(&[write_entry("alpha", Some("one"))]);
    let faulty = SstableReader::open_with_checksum(raw_table(1, &[], 7), 7).unwrap();
    let mut level0 = vec![SstableReader::open(sound).unwrap(), faulty];
    let mut db = Db::open();
    db.put("beta".into(), "two".into()).unwrap();

    // Tables behind the one that holds the key are not asked, nor any where a memtable holds it.
    assert_eq!(
        db.get_with_level0("alpha", &level0),
        Ok(LookupResult::Value("one".into()))
    );
    assert_eq!(
        db.get_with_level0("beta", &level0),
        Ok(LookupResult::Value("two".into()))
    );
    assert_eq!(
        db.get_with_level0("gamma", &level0),
        Err(ReadError::Sstable(corrupt("truncated entry header")))
    );
    level0.reverse();
    assert_eq!(
        db.get_with_level0("alpha", &level0),
        Err(ReadError::Sstable(corrupt("truncated entry header")))
    );

    db.close().unwrap();
    assert_eq!(
        db.get_with_level0("beta", &level0),
        Err(ReadError::Closed)
    );
}

#[test]
fn without_tables_reads_are_those_of_the_memtables() {
    let mut db = Db::open();
    db.put("alpha".into(), "one".into()).unwrap();
    db.delete("beta".into()).unwrap();
    for key in ["alpha", "beta", "gamma", ""] {
        assert_eq!(db.get_with_level0(key, &Vec::new()).ok(), db.get(key).ok());
    }
}
