//! What is written to a table is read back from it.

use vstd::prelude::*;
use vstd::utf8::*;

use crate::buffer::{le_u16, le_u32, little_endian_round_trip, u16_at, u32_at};
use crate::checksum::{a_changed_byte_changes_the_checksum, crc32};
use crate::db::{newest, newest_in_all, newest_with_older, DbState};
use crate::entry::{byte_len, write_error, MemTableEntry};
use crate::format::{
    encode_header, encode_record, encode_records, encode_table, entry_at, header_fault, read_value,
    search, Fault, RawEntry, Record, FLAG_TOMBSTONE, HEADER_SIZE, MAGIC, VERSION,
};
use crate::memtable::{is_listing, is_snapshot, len_is_at_most_total_size, valid_table, Table};
use crate::order::{
    bytes_lt_irreflexive, encoding_is_injective, key_lt, key_order_is_strict_and_total,
};
use crate::sstable::{describes_table, has_room, record_of, Image, SstableMeta};

verus! {

/// Whether the keys of `records` ascend.
pub open spec fn ascending(records: Seq<Record>) -> bool {
    forall|i: int, j: int|
        0 <= i < j < records.len() ==> key_lt(#[trigger] records[i].key, #[trigger] records[j].key)
}

/// Whether the lengths in `records` fit their fields.
pub open spec fn all_fit_fields(records: Seq<Record>) -> bool {
    forall|i: int| 0 <= i < records.len() ==> (#[trigger] records[i]).fits_fields()
}

/// The table of `records` in memory.
pub open spec fn image_of(records: Seq<Record>) -> Image {
    Image { data: encode_table(records), entry_count: records.len() as u32 }
}

/// The bytes of a table's entries are those of its first entries followed by those of the rest.
proof fn encoding_splits(records: Seq<Record>, i: int)
    requires
        0 <= i <= records.len(),
    ensures
        encode_records(records) == encode_records(records.take(i)) + encode_records(
            records.skip(i),
        ),
    decreases records.len(),
{
    if i == records.len() {
        assert(records.take(i) =~= records);
        assert(encode_records(records.skip(i)) =~= Seq::<u8>::empty());
        assert(encode_records(records) =~= encode_records(records) + Seq::<u8>::empty());
    } else {
        encoding_splits(records.drop_last(), i);
        assert(records.drop_last().take(i) =~= records.take(i));
        assert(records.drop_last().skip(i) =~= records.skip(i).drop_last());
        assert(encode_records(records) =~= encode_records(records.take(i)) + encode_records(
            records.skip(i),
        ));
    }
}

/// The bytes of a table's entries from one on start with the bytes of that entry.
proof fn encoding_starts_with(records: Seq<Record>, i: int)
    requires
        0 <= i < records.len(),
    ensures
        encode_records(records.skip(i)) == encode_record(records[i]) + encode_records(
            records.skip(i + 1),
        ),
        encode_records(records.take(i + 1)).len() == encode_records(records.take(i)).len()
            + encode_record(records[i]).len(),
{
    encoding_splits(records.skip(i), 1);
    let first = records.skip(i).take(1);
    assert(first.drop_last() =~= Seq::<Record>::empty());
    assert(encode_records(first.drop_last()) =~= Seq::<u8>::empty());
    assert(encode_records(first) =~= encode_record(records[i]));
    assert(records.skip(i).skip(1) =~= records.skip(i + 1));
    assert(records.take(i + 1).drop_last() =~= records.take(i));
}

/// An entry is read back from between other bytes as it was written.
proof fn entry_is_read_back(before: Seq<u8>, record: Record, after: Seq<u8>)
    requires
        record.fits_fields(),
    ensures
        entry_at(before + encode_record(record) + after, before.len() as int) == Ok::<_, Fault>(
            RawEntry {
                flags: if record.tombstone {
                    FLAG_TOMBSTONE
                } else {
                    0
                },
                key: encode_utf8(record.key),
                value: encode_utf8(record.value),
                end: (before.len() + encode_record(record).len()) as int,
            },
        ),
{
    let data = before + encode_record(record) + after;
    let at = before.len() as int;
    let key_len = byte_len(record.key) as u16;
    let value_len = byte_len(record.value) as u32;
    little_endian_round_trip(key_len, value_len);
    assert(data.subrange(at, at + 2) =~= le_u16(key_len));
    assert(data.subrange(at + 2, at + 6) =~= le_u32(value_len));
    assert(u16_at(data, at) == u16_at(data.subrange(at, at + 2), 0));
    assert(u32_at(data, at + 2) == u32_at(data.subrange(at + 2, at + 6), 0));
    assert(data.subrange(at + 7, at + 7 + key_len) =~= encode_utf8(record.key));
    assert(data.subrange(at + 7 + key_len, at + 7 + key_len + value_len) =~= encode_utf8(
        record.value,
    ));
}

/// Where the `i`th entry of a table starts.
spec fn offset(header: Seq<u8>, records: Seq<Record>, i: int) -> int {
    (header.len() + encode_records(records.take(i)).len()) as int
}

/// Each entry of a table is read back from where it starts.
proof fn entries_are_read_back(header: Seq<u8>, records: Seq<Record>, i: int)
    requires
        0 <= i < records.len(),
        records[i].fits_fields(),
    ensures
        entry_at(header + encode_records(records), offset(header, records, i)) == Ok::<_, Fault>(
            RawEntry {
                flags: if records[i].tombstone {
                    FLAG_TOMBSTONE
                } else {
                    0
                },
                key: encode_utf8(records[i].key),
                value: encode_utf8(records[i].value),
                end: offset(header, records, i + 1),
            },
        ),
{
    let before = header + encode_records(records.take(i));
    let after = encode_records(records.skip(i + 1));
    encoding_splits(records, i);
    encoding_starts_with(records, i);
    assert(header + encode_records(records) =~= before + encode_record(records[i]) + after);
    entry_is_read_back(before, records[i], after);
}

/// A search that ends at the entry of a record finds the record.
proof fn value_is_read_back(record: Record, end: int)
    ensures
        read_value(
            RawEntry {
                flags: if record.tombstone {
                    FLAG_TOMBSTONE
                } else {
                    0
                },
                key: encode_utf8(record.key),
                value: encode_utf8(record.value),
                end,
            },
            record.key,
        ) == Ok::<_, Fault>(Some(record.found())),
{
    encode_utf8_valid_utf8(record.value);
    encode_utf8_decode_utf8(record.value);
    assert(1u8 & 1u8 == 1u8 && 0u8 & 1u8 == 0u8) by (bit_vector);
}

/// A search goes on past an entry whose key comes before the one looked for, and ends at any
/// other.
proof fn search_step(data: Seq<u8>, at: int, count: nat, target: Seq<char>, key: Seq<char>)
    requires
        count > 0,
        entry_at(data, at) is Ok,
        entry_at(data, at)->Ok_0.key == encode_utf8(key),
    ensures
        search(data, at, count, target) == (if key_lt(key, target) {
            search(data, entry_at(data, at)->Ok_0.end, (count - 1) as nat, target)
        } else if key == target {
            read_value(entry_at(data, at)->Ok_0, target)
        } else {
            Ok(None)
        }),
{
    encode_utf8_valid_utf8(key);
    bytes_lt_irreflexive(encode_utf8(target));
    if encode_utf8(key) == encode_utf8(target) {
        encoding_is_injective(key, target);
    }
}

/// What a search for `target` among `records` from the `i`th on finds.
spec fn search_records(records: Seq<Record>, i: int, target: Seq<char>) -> Option<
    (Seq<char>, Option<Seq<char>>),
>
    decreases records.len() - i,
{
    if i >= records.len() {
        None
    } else if key_lt(records[i].key, target) {
        search_records(records, i + 1, target)
    } else if records[i].key == target {
        Some(records[i].found())
    } else {
        None
    }
}

/// A search of the bytes of a table is a search of its records.
proof fn search_reads_records(header: Seq<u8>, records: Seq<Record>, i: int, target: Seq<char>)
    requires
        0 <= i <= records.len(),
        all_fit_fields(records),
    ensures
        search(
            header + encode_records(records),
            offset(header, records, i),
            (records.len() - i) as nat,
            target,
        ) == Ok::<_, Fault>(search_records(records, i, target)),
    decreases records.len() - i,
{
    if i < records.len() {
        let data = header + encode_records(records);
        let at = offset(header, records, i);
        let key = records[i].key;
        entries_are_read_back(header, records, i);
        search_step(data, at, (records.len() - i) as nat, target, key);
        if key_lt(key, target) {
            search_reads_records(header, records, i + 1, target);
        } else if key == target {
            value_is_read_back(records[i], offset(header, records, i + 1));
        }
    }
}

/// A search among records whose keys ascend finds the record under its key.
proof fn search_finds_record(records: Seq<Record>, i: int, k: int)
    requires
        0 <= i <= k < records.len(),
        ascending(records),
    ensures
        search_records(records, i, records[k].key) == Some(records[k].found()),
    decreases k - i,
{
    if i < k {
        assert(key_lt(records[i].key, records[k].key));
        search_finds_record(records, i + 1, k);
    } else {
        bytes_lt_irreflexive(encode_utf8(records[k].key));
    }
}

/// A search finds nothing under a key that no record has.
proof fn search_finds_nothing(records: Seq<Record>, i: int, target: Seq<char>)
    requires
        0 <= i <= records.len(),
        forall|k: int| i <= k < records.len() ==> (#[trigger] records[k]).key != target,
    ensures
        search_records(records, i, target) is None,
    decreases records.len() - i,
{
    if i < records.len() {
        search_finds_nothing(records, i + 1, target);
    }
}

/// A table that was written can be opened, and its header counts its records.
pub proof fn written_table_opens(records: Seq<Record>)
    requires
        records.len() <= u32::MAX,
    ensures
        header_fault(encode_table(records)) is None,
        u32_at(encode_table(records), 12) == records.len(),
{
    let data = encode_table(records);
    let count = records.len() as u32;
    let checksum = crc32(encode_records(records));
    little_endian_round_trip(0, VERSION);
    little_endian_round_trip(0, count);
    little_endian_round_trip(0, checksum);
    assert(data.take(8) =~= MAGIC@);
    assert(data.subrange(8, 12) =~= le_u32(VERSION));
    assert(data.subrange(12, 16) =~= le_u32(count));
    assert(data.subrange(16, 20) =~= le_u32(checksum));
    assert(u32_at(data, 8) == u32_at(data.subrange(8, 12), 0));
    assert(u32_at(data, 12) == u32_at(data.subrange(12, 16), 0));
    assert(u32_at(data, 16) == u32_at(data.subrange(16, 20), 0));
    assert(data.skip(HEADER_SIZE as int) =~= encode_records(records));
}

/// Every record of a table whose keys ascend is found under its key, and nothing is found
/// under any other key.
pub proof fn written_records_are_found(records: Seq<Record>, target: Seq<char>)
    requires
        records.len() <= u32::MAX,
        ascending(records),
        all_fit_fields(records),
    ensures
        forall|i: int|
            0 <= i < records.len() && (#[trigger] records[i]).key == target ==> image_of(
                records,
            ).lookup(target) == Ok::<_, Fault>(Some(records[i].found())),
        (forall|i: int| 0 <= i < records.len() ==> (#[trigger] records[i]).key != target)
            ==> image_of(records).lookup(target) == Ok::<
            Option<(Seq<char>, Option<Seq<char>>)>,
            Fault,
        >(None),
{
    let header = encode_header(records.len() as u32, crc32(encode_records(records)));
    assert(encode_records(records.take(0)) =~= Seq::<u8>::empty());
    assert(header.len() == HEADER_SIZE);
    search_reads_records(header, records, 0, target);
    assert forall|i: int|
        0 <= i < records.len() && (#[trigger] records[i]).key == target implies search_records(
        records,
        0,
        target,
    ) == Some(records[i].found()) by {
        search_finds_record(records, 0, i);
    }
    if forall|i: int| 0 <= i < records.len() ==> (#[trigger] records[i]).key != target {
        search_finds_nothing(records, 0, target);
    }
}

/// The first and the last key of a table whose keys ascend bound the others.
pub proof fn described_keys_bound_the_table(meta: SstableMeta, records: Seq<Record>, i: int)
    requires
        describes_table(meta, records),
        ascending(records),
        0 <= i < records.len(),
    ensures
        !key_lt(records[i].key, meta.smallest_key@),
        !key_lt(meta.largest_key@, records[i].key),
{
    let last = records.len() - 1;
    bytes_lt_irreflexive(encode_utf8(records[i].key));
    if 0 < i {
        key_order_is_strict_and_total(records[0].key, records[i].key, records[0].key);
    }
    if i < last {
        key_order_is_strict_and_total(records[i].key, records[last].key, records[i].key);
    }
}

/// The records that store the entries of a memtable.
pub open spec fn records_of(entries: Seq<(String, MemTableEntry)>) -> Seq<Record> {
    entries.map_values(|item: (String, MemTableEntry)| record_of(item.0@, item.1))
}

/// A listing of a table is no longer than the table has keys.
proof fn listing_len(listing: Seq<(Seq<char>, Option<Seq<char>>)>, table: Table)
    requires
        table.dom().finite(),
        is_listing(listing, table),
    ensures
        listing.len() <= table.dom().len(),
{
    let keys = listing.map_values(|item: (Seq<char>, Option<Seq<char>>)| item.0);
    assert forall|i: int, j: int| 0 <= i < j < keys.len() implies keys[i] != keys[j] by {
        assert(key_lt(listing[i].0, listing[j].0));
        bytes_lt_irreflexive(encode_utf8(listing[i].0));
    }
    assert(keys.no_duplicates());
    keys.unique_seq_to_set();
    assert forall|key: Seq<char>| keys.to_set().contains(key) implies table.dom().contains(
        key,
    ) by {
        let i = choose|i: int| 0 <= i < keys.len() && keys[i] == key;
        assert(table.contains_key(listing[i].0));
    }
    vstd::set_lib::lemma_len_subset(keys.to_set(), table.dom());
}

/// The records of a snapshot are short.
proof fn snapshot_record_len(entries: Seq<(String, MemTableEntry)>, table: Table, i: int)
    requires
        valid_table(table),
        is_snapshot(entries, table),
        0 <= i < entries.len(),
    ensures
        records_of(entries)[i].fits_fields(),
        records_of(entries)[i].found() == (entries[i].0@, table[entries[i].0@]),
        table.contains_key(entries[i].0@),
        encode_record(records_of(entries)[i]).len() <= 8192,
{
    let listing = entries.map_values(|item: (String, MemTableEntry)| (item.0@, item.1.text()));
    let (key, entry) = entries[i];
    assert(listing[i].0 == key@);
    assert(table.contains_key(key@) && table[key@] == entry.text());
    assert(write_error(key@, table[key@]) is None);
    assert(entry.describes(key@));
    assert(encode_utf8(Seq::<char>::empty()) =~= Seq::<u8>::empty());
}

/// The bytes of short records are not many.
proof fn short_records_len(records: Seq<Record>)
    requires
        forall|i: int|
            0 <= i < records.len() ==> encode_record(#[trigger] records[i]).len() <= 8192,
    ensures
        encode_records(records).len() <= 8192 * records.len(),
    decreases records.len(),
{
    if records.len() > 0 {
        let rest = records.drop_last();
        assert forall|i: int| 0 <= i < rest.len() implies encode_record(
            #[trigger] rest[i],
        ).len() <= 8192 by {
            assert(rest[i] == records[i]);
        }
        short_records_len(rest);
        assert(encode_record(records[records.len() - 1]).len() <= 8192);
    }
}

/// The entries of a memtable can be written to a table one after another: there is room for
/// each when the ones before it are written.
pub proof fn snapshot_can_be_written(
    entries: Seq<(String, MemTableEntry)>,
    table: Table,
    i: int,
)
    requires
        valid_table(table),
        is_snapshot(entries, table),
        0 <= i < entries.len(),
    ensures
        byte_len(entries[i].0@) <= u16::MAX,
        has_room(records_of(entries).take(i), records_of(entries)[i]),
{
    let listing = entries.map_values(|item: (String, MemTableEntry)| (item.0@, item.1.text()));
    listing_len(listing, table);
    len_is_at_most_total_size(table);
    let records = records_of(entries);
    let before = records.take(i);
    assert forall|k: int| 0 <= k < before.len() implies encode_record(
        #[trigger] before[k],
    ).len() <= 8192 by {
        snapshot_record_len(entries, table, k);
        assert(before[k] == records[k]);
    }
    short_records_len(before);
    snapshot_record_len(entries, table, i);
}

/// The table to which the entries of a memtable are written answers every search as the
/// memtable does: with the same value, or with a tombstone where the memtable has one, and with
/// nothing where it has nothing.
pub proof fn written_memtable_is_read_back(
    entries: Seq<(String, MemTableEntry)>,
    table: Table,
    target: Seq<char>,
)
    requires
        valid_table(table),
        is_snapshot(entries, table),
    ensures
        header_fault(encode_table(records_of(entries))) is None,
        u32_at(encode_table(records_of(entries)), 12) == records_of(entries).len(),
        image_of(records_of(entries)).lookup(target) == Ok::<_, Fault>(
            if table.contains_key(target) {
                Some((target, table[target]))
            } else {
                None
            },
        ),
{
    let listing = entries.map_values(|item: (String, MemTableEntry)| (item.0@, item.1.text()));
    listing_len(listing, table);
    len_is_at_most_total_size(table);
    let records = records_of(entries);
    written_table_opens(records);
    assert forall|i: int| 0 <= i < records.len() implies (#[trigger] records[i]).fits_fields() by {
        snapshot_record_len(entries, table, i);
    }
    assert forall|i: int, j: int| 0 <= i < j < records.len() implies key_lt(
        #[trigger] records[i].key,
        #[trigger] records[j].key,
    ) by {
        assert(key_lt(listing[i].0, listing[j].0));
    }
    written_records_are_found(records, target);
    if table.contains_key(target) {
        let i = choose|i: int| 0 <= i < listing.len() && #[trigger] listing[i].0 == target;
        snapshot_record_len(entries, table, i);
        assert(records[i].key == target);
    } else {
        assert forall|i: int| 0 <= i < records.len() implies (#[trigger] records[i]).key
            != target by {
            snapshot_record_len(entries, table, i);
        }
    }
}

/// A database loses nothing when its oldest memtable is taken out and written to a table: what
/// the remaining memtables do not hold, the table holds as the memtable did, a tombstone as a
/// tombstone.
pub proof fn flushing_keeps_reads(
    db: DbState,
    entries: Seq<(String, MemTableEntry)>,
    key: Seq<char>,
)
    requires
        db.valid(),
        db.immutable.len() > 0,
        is_snapshot(entries, db.immutable.last()),
    ensures
        image_of(records_of(entries)).lookup(key) is Ok,
        newest(db.tables(), key) == (match newest(db.popped().tables(), key) {
            Some(value) => Some(value),
            None => match image_of(records_of(entries)).lookup(key)->Ok_0 {
                Some(found) => Some(found.1),
                None => None,
            },
        }),
{
    let oldest = db.immutable.last();
    let rest = db.popped();
    assert(valid_table(db.immutable[db.immutable.len() - 1]));
    written_memtable_is_read_back(entries, oldest, key);
    assert(db.tables() =~= rest.tables().push(oldest));
    newest_with_older(rest.tables(), oldest, key);
}

/// Reads over the memtables and all tables stay the same when the oldest memtable is taken out
/// and written to a table that goes in front of the others, so any number of memtables can be
/// written one after another.
pub proof fn flushing_keeps_reads_over_all_tables(
    db: DbState,
    entries: Seq<(String, MemTableEntry)>,
    level0: Seq<Image>,
    key: Seq<char>,
)
    requires
        db.valid(),
        db.immutable.len() > 0,
        is_snapshot(entries, db.immutable.last()),
    ensures
        db.popped().valid(),
        newest_in_all(
            db.popped(),
            seq![image_of(records_of(entries))] + level0,
            key,
        ) == newest_in_all(db, level0, key),
{
    let images = seq![image_of(records_of(entries))] + level0;
    flushing_keeps_reads(db, entries, key);
    assert(images.drop_first() =~= level0);
}

/// The bytes of a table are its header and, in the order in which they were written, the bytes
/// of its records.
pub proof fn records_are_appended(records: Seq<Record>, record: Record)
    ensures
        encode_records(Seq::<Record>::empty()) == Seq::<u8>::empty(),
        encode_records(records.push(record)) == encode_records(records) + encode_record(record),
        encode_table(records).skip(HEADER_SIZE as int) == encode_records(records),
{
    assert(records.push(record).drop_last() =~= records);
    assert(encode_table(records).skip(HEADER_SIZE as int) =~= encode_records(records));
}

/// A table whose entries were changed after it was written is refused, unless the change keeps
/// their checksum.
pub proof fn changed_entries_are_refused(data: Seq<u8>, changed: Seq<u8>)
    requires
        header_fault(data) is None,
        changed.len() >= HEADER_SIZE,
        changed.take(HEADER_SIZE as int) == data.take(HEADER_SIZE as int),
        crc32(changed.skip(HEADER_SIZE as int)) != crc32(data.skip(HEADER_SIZE as int)),
    ensures
        header_fault(changed) == Some(Fault::Corrupt("CRC32 checksum mismatch"@)),
{
    assert(changed.take(8) =~= changed.take(HEADER_SIZE as int).take(8));
    assert(data.take(8) =~= data.take(HEADER_SIZE as int).take(8));
    assert forall|i: int| 0 <= i < HEADER_SIZE implies changed[i] == data[i] by {
        assert(changed[i] == changed.take(HEADER_SIZE as int)[i]);
        assert(data[i] == data.take(HEADER_SIZE as int)[i]);
    }
}

/// A table of which one byte of the entries was changed after it was written is refused.
pub proof fn a_changed_byte_is_refused(data: Seq<u8>, at: int, byte: u8)
    requires
        header_fault(data) is None,
        HEADER_SIZE <= at < data.len(),
        byte != data[at],
    ensures
        header_fault(data.update(at, byte)) == Some(Fault::Corrupt("CRC32 checksum mismatch"@)),
{
    let changed = data.update(at, byte);
    let entries = data.skip(HEADER_SIZE as int);
    a_changed_byte_changes_the_checksum(entries, at - HEADER_SIZE, byte);
    assert(changed.skip(HEADER_SIZE as int) =~= entries.update(at - HEADER_SIZE, byte));
    assert(changed.take(HEADER_SIZE as int) =~= data.take(HEADER_SIZE as int));
    changed_entries_are_refused(data, changed);
}

} // verus!
