//! The layout of a sorted table in a file.
//!
//! ```text
//! HEADER (32 bytes, little-endian):
//!   magic:       [u8; 8]  = b"LSMSS001"
//!   version:     u32
//!   entry_count: u32
//!   data_crc32:  u32      (CRC-32 of the entries, the header excluded)
//!   reserved:    [u8; 12] (zero)
//!
//! ENTRIES (sorted by key):
//!   key_len:   u16
//!   value_len: u32
//!   flags:     u8         (bit 0: tombstone)
//!   key:       [u8; key_len]
//!   value:     [u8; value_len]
//! ```

use vstd::prelude::*;
use vstd::utf8::*;

use crate::buffer::{
    integers_are_read_lowest_byte_first, integers_are_written_lowest_byte_first, le_u16, le_u32,
    u16_at, u32_at,
};
use crate::checksum::crc32;
use crate::entry::byte_len;
use crate::order::{bytes_lt, bytes_lt_irreflexive, bytes_lt_transitive};

verus! {

/// The bytes that a table starts with: `LSMSS001` in ASCII.
pub const MAGIC: [u8; 8] = [0x4C, 0x53, 0x4D, 0x53, 0x53, 0x30, 0x30, 0x31];

/// The version of the layout.
pub const VERSION: u32 = 1;

/// The length of the header.
pub const HEADER_SIZE: usize = 32;

/// The flag of a tombstone.
pub const FLAG_TOMBSTONE: u8 = 0x01;

/// The length of what stands before the key of an entry.
pub const ENTRY_HEADER_SIZE: usize = 7;

/// One entry as it is written.
pub struct Record {
    pub key: Seq<char>,
    pub value: Seq<char>,
    pub tombstone: bool,
}

impl Record {
    /// What a reader finds under the key: its value, `None` for a tombstone.
    pub open spec fn found(self) -> (Seq<char>, Option<Seq<char>>) {
        (
            self.key,
            if self.tombstone {
                None
            } else {
                Some(self.value)
            },
        )
    }

    /// Whether the lengths of the key and of the value fit their fields.
    pub open spec fn fits_fields(self) -> bool {
        byte_len(self.key) <= u16::MAX && byte_len(self.value) <= u32::MAX
    }
}

/// The bytes of one entry.
pub open spec fn encode_record(record: Record) -> Seq<u8> {
    le_u16(byte_len(record.key) as u16) + le_u32(byte_len(record.value) as u32) + seq![
        if record.tombstone {
            FLAG_TOMBSTONE
        } else {
            0
        },
    ] + encode_utf8(record.key) + encode_utf8(record.value)
}

/// The bytes of entries one after another.
pub open spec fn encode_records(records: Seq<Record>) -> Seq<u8>
    decreases records.len(),
{
    if records.len() == 0 {
        Seq::empty()
    } else {
        encode_records(records.drop_last()) + encode_record(records.last())
    }
}

/// The header of a table of `entry_count` entries whose bytes have the checksum `data_crc32`.
pub open spec fn encode_header(entry_count: u32, data_crc32: u32) -> Seq<u8> {
    MAGIC@ + le_u32(VERSION) + le_u32(entry_count) + le_u32(data_crc32) + Seq::new(
        12,
        |i: int| 0u8,
    )
}

/// The bytes of a whole table.
pub open spec fn encode_table(records: Seq<Record>) -> Seq<u8> {
    encode_header(records.len() as u32, crc32(encode_records(records))) + encode_records(records)
}

/// Why bytes are not a table that can be read.
pub enum Fault {
    /// They break the layout, in this way.
    Corrupt(Seq<char>),
    /// They follow the layout of another version.
    UnsupportedVersion(u32),
}

/// What is wrong with the header of `data`, whose entries have the checksum `data_crc32`.
pub open spec fn header_fault_given(data: Seq<u8>, data_crc32: u32) -> Option<Fault> {
    if data.len() < HEADER_SIZE {
        Some(Fault::Corrupt("file smaller than header"@))
    } else if data.take(8) != MAGIC@ {
        Some(Fault::Corrupt("magic bytes mismatch"@))
    } else if u32_at(data, 8) != VERSION {
        Some(Fault::UnsupportedVersion(u32_at(data, 8)))
    } else if u32_at(data, 16) != data_crc32 {
        Some(Fault::Corrupt("CRC32 checksum mismatch"@))
    } else {
        None
    }
}

/// What is wrong with the header of `data`.
pub open spec fn header_fault(data: Seq<u8>) -> Option<Fault> {
    header_fault_given(data, crc32(data.skip(HEADER_SIZE as int)))
}

/// The parts of one entry.
pub struct RawEntry {
    pub flags: u8,
    pub key: Seq<u8>,
    pub value: Seq<u8>,
    /// Where the next entry starts.
    pub end: int,
}

/// The entry that starts at `at`.
pub open spec fn entry_at(data: Seq<u8>, at: int) -> Result<RawEntry, Fault> {
    let body = at + ENTRY_HEADER_SIZE;
    let key_end = body + u16_at(data, at);
    let value_end = key_end + u32_at(data, at + 2);
    if body > data.len() {
        Err(Fault::Corrupt("truncated entry header"@))
    } else if value_end > data.len() {
        Err(Fault::Corrupt("truncated entry body"@))
    } else {
        Ok(
            RawEntry {
                flags: data[at + 6],
                key: data.subrange(body, key_end),
                value: data.subrange(key_end, value_end),
                end: value_end,
            },
        )
    }
}

/// What the entry at which a search for `target` ends gives.
pub open spec fn read_value(entry: RawEntry, target: Seq<char>) -> Result<
    Option<(Seq<char>, Option<Seq<char>>)>,
    Fault,
> {
    if entry.flags & FLAG_TOMBSTONE != 0 {
        Ok(Some((target, None)))
    } else if valid_utf8(entry.value) {
        Ok(Some((target, Some(decode_utf8(entry.value)))))
    } else {
        Err(Fault::Corrupt("non-UTF-8 value"@))
    }
}

/// What a search for `target` among `count` entries, the first of which starts at `at`, gives.
/// The entries are read in turn up to the first whose key does not come before `target`.
pub open spec fn search(data: Seq<u8>, at: int, count: nat, target: Seq<char>) -> Result<
    Option<(Seq<char>, Option<Seq<char>>)>,
    Fault,
>
    decreases count,
{
    if count == 0 {
        Ok(None)
    } else {
        match entry_at(data, at) {
            Err(fault) => Err(fault),
            Ok(entry) => if !valid_utf8(entry.key) {
                Err(Fault::Corrupt("non-UTF-8 key"@))
            } else if bytes_lt(entry.key, encode_utf8(target)) {
                search(data, entry.end, (count - 1) as nat, target)
            } else if entry.key == encode_utf8(target) {
                read_value(entry, target)
            } else {
                Ok(None)
            },
        }
    }
}

/// The bytes of a record are, in this order: the length of its key in two bytes and of its value
/// in four, lowest first, one byte of flags, its key and its value.
pub proof fn a_record_is_laid_out(record: Record)
    requires
        encode_utf8(record.key).len() <= 0xFFFF,
        encode_utf8(record.value).len() <= 0xFFFF_FFFF,
    ensures
        ({
            let bytes = encode_record(record);
            let key = encode_utf8(record.key);
            let value = encode_utf8(record.value);
            &&& bytes.len() == 7 + key.len() + value.len()
            &&& key.len() == bytes[0] + bytes[1] * 0x100
            &&& value.len() == bytes[2] + bytes[3] * 0x100 + bytes[4] * 0x1_0000 + bytes[5]
                * 0x100_0000
            &&& bytes[6] == (if record.tombstone {
                1
            } else {
                0int
            })
            &&& bytes.subrange(7, (7 + key.len()) as int) == key
            &&& bytes.skip((7 + key.len()) as int) == value
        }),
        record.fits_fields(),
        record.found().0 == record.key,
        record.tombstone ==> record.found().1 is None,
        !record.tombstone ==> record.found().1 == Some(record.value),
{
    let bytes = encode_record(record);
    let key = encode_utf8(record.key);
    integers_are_written_lowest_byte_first(
        byte_len(record.key) as u16,
        byte_len(record.value) as u32,
    );
    assert(bytes.subrange(7, (7 + key.len()) as int) =~= key);
    assert(bytes.skip((7 + key.len()) as int) =~= encode_utf8(record.value));
}

/// A header has 32 bytes: eight that name the format, then the version, the number of entries and
/// the checksum, each in four bytes with the lowest first, then twelve zeros.
pub proof fn a_header_is_laid_out(entry_count: u32, data_crc32: u32)
    ensures
        ({
            let bytes = encode_header(entry_count, data_crc32);
            &&& bytes.len() == 32
            &&& bytes.take(8) == seq![0x4Cu8, 0x53, 0x4D, 0x53, 0x53, 0x30, 0x30, 0x31]
            &&& bytes[8] + bytes[9] * 0x100 + bytes[10] * 0x1_0000 + bytes[11] * 0x100_0000 == 1
            &&& bytes[12] + bytes[13] * 0x100 + bytes[14] * 0x1_0000 + bytes[15] * 0x100_0000
                == entry_count
            &&& bytes[16] + bytes[17] * 0x100 + bytes[18] * 0x1_0000 + bytes[19] * 0x100_0000
                == data_crc32
            &&& forall|i: int| 20 <= i < 32 ==> #[trigger] bytes[i] == 0
        }),
{
    integers_are_written_lowest_byte_first(0, VERSION);
    integers_are_written_lowest_byte_first(0, entry_count);
    integers_are_written_lowest_byte_first(0, data_crc32);
    assert(encode_header(entry_count, data_crc32).take(8) =~= MAGIC@);
    assert(MAGIC@ =~= seq![0x4Cu8, 0x53, 0x4D, 0x53, 0x53, 0x30, 0x30, 0x31]);
}

/// A table is its header, with the number of its records and the checksum of their bytes, and then
/// the bytes of its records.
pub proof fn a_table_is_laid_out(records: Seq<Record>)
    requires
        records.len() <= 0xFFFF_FFFF,
    ensures
        ({
            let bytes = encode_table(records);
            &&& bytes.len() == 32 + encode_records(records).len()
            &&& bytes.take(8) == seq![0x4Cu8, 0x53, 0x4D, 0x53, 0x53, 0x30, 0x30, 0x31]
            &&& bytes[8] + bytes[9] * 0x100 + bytes[10] * 0x1_0000 + bytes[11] * 0x100_0000 == 1
            &&& bytes[12] + bytes[13] * 0x100 + bytes[14] * 0x1_0000 + bytes[15] * 0x100_0000
                == records.len()
            &&& bytes[16] + bytes[17] * 0x100 + bytes[18] * 0x1_0000 + bytes[19] * 0x100_0000
                == crc32(bytes.skip(32))
            &&& bytes.skip(32) == encode_records(records)
        }),
{
    let header = encode_header(records.len() as u32, crc32(encode_records(records)));
    let bytes = encode_table(records);
    a_header_is_laid_out(records.len() as u32, crc32(encode_records(records)));
    assert(bytes.take(8) =~= header.take(8));
    assert(bytes.skip(32) =~= encode_records(records));
    assert forall|i: int| 0 <= i < 32 implies bytes[i] == header[i] by {}
}

/// A table can be read exactly where it has a whole header, the header starts with the bytes that
/// name the format and gives the version 1, and the checksum in it is that of all bytes behind it.
/// The first of these that fails is the fault.
pub proof fn headers_are_checked_in_turn(data: Seq<u8>, data_crc32: u32)
    ensures
        ({
            let magic = seq![0x4Cu8, 0x53, 0x4D, 0x53, 0x53, 0x30, 0x30, 0x31];
            let version = data[8] + data[9] * 0x100 + data[10] * 0x1_0000 + data[11] * 0x100_0000;
            let stored = data[16] + data[17] * 0x100 + data[18] * 0x1_0000 + data[19] * 0x100_0000;
            let fault = header_fault_given(data, data_crc32);
            &&& data.len() < 32 ==> fault == Some(Fault::Corrupt("file smaller than header"@))
            &&& data.len() >= 32 && data.take(8) != magic ==> fault == Some(
                Fault::Corrupt("magic bytes mismatch"@),
            )
            &&& data.len() >= 32 && data.take(8) == magic && version != 1 ==> fault == Some(
                Fault::UnsupportedVersion(version as u32),
            )
            &&& data.len() >= 32 && data.take(8) == magic && version == 1 && stored != data_crc32
                ==> fault == Some(Fault::Corrupt("CRC32 checksum mismatch"@))
            &&& data.len() >= 32 && data.take(8) == magic && version == 1 && stored == data_crc32
                ==> fault is None
        }),
        header_fault(data) == header_fault_given(data, crc32(data.skip(32))),
{
    integers_are_read_lowest_byte_first(data, 8);
    integers_are_read_lowest_byte_first(data, 16);
    assert(MAGIC@ =~= seq![0x4Cu8, 0x53, 0x4D, 0x53, 0x53, 0x30, 0x30, 0x31]);
}

/// A search of no entries finds nothing. A search of more reads the entry where it starts: its key
/// of as many bytes as the first two say, lowest first, and behind that its value of as many as
/// the next four say. Past a key that comes before the one looked for, the search goes on behind
/// the entry, with one entry less.
pub proof fn a_search_passes_smaller_keys(data: Seq<u8>, at: int, count: nat, target: Seq<char>)
    requires
        0 <= at,
    ensures
        search(data, at, 0, target) == Ok::<Option<(Seq<char>, Option<Seq<char>>)>, Fault>(None),
        ({
            let key_len = data[at] + data[at + 1] * 0x100;
            let value_len = data[at + 2] + data[at + 3] * 0x100 + data[at + 4] * 0x1_0000 + data[at
                + 5] * 0x100_0000;
            let end = at + 7 + key_len + value_len;
            let key = data.subrange(at + 7, at + 7 + key_len);
            count > 0 && end <= data.len() && valid_utf8(key) && bytes_lt(
                key,
                encode_utf8(target),
            ) ==> search(data, at, count, target) == search(data, end, (count - 1) as nat, target)
        }),
{
    integers_are_read_lowest_byte_first(data, at);
    integers_are_read_lowest_byte_first(data, at + 2);
}

/// A search ends at an entry whose key is the one looked for or comes after it. In the second case
/// nothing is found. In the first a tombstone is found where the lowest bit of the flags is set,
/// and otherwise the text of the value, which must be well-formed.
pub proof fn a_search_ends_at_the_key(data: Seq<u8>, at: int, count: nat, target: Seq<char>)
    requires
        0 <= at,
        count > 0,
        at + 7 <= data.len(),
    ensures
        ({
            let key_len = data[at] + data[at + 1] * 0x100;
            let value_len = data[at + 2] + data[at + 3] * 0x100 + data[at + 4] * 0x1_0000 + data[at
                + 5] * 0x100_0000;
            let end = at + 7 + key_len + value_len;
            let key = data.subrange(at + 7, at + 7 + key_len);
            let value = data.subrange(at + 7 + key_len, end);
            let result = search(data, at, count, target);
            end <= data.len() ==> {
                &&& valid_utf8(key) && bytes_lt(encode_utf8(target), key) ==> result == Ok::<
                    Option<(Seq<char>, Option<Seq<char>>)>,
                    Fault,
                >(None)
                &&& key == encode_utf8(target) && data[at + 6] % 2 == 1 ==> result == Ok::<
                    Option<(Seq<char>, Option<Seq<char>>)>,
                    Fault,
                >(Some((target, None)))
                &&& key == encode_utf8(target) && data[at + 6] % 2 == 0 && !valid_utf8(value)
                    ==> result == Err::<Option<(Seq<char>, Option<Seq<char>>)>, Fault>(
                    Fault::Corrupt("non-UTF-8 value"@),
                )
                &&& key == encode_utf8(target) && data[at + 6] % 2 == 0 && valid_utf8(value) ==> {
                    &&& result matches Ok(Some(record))
                    &&& record.0 == target
                    &&& record.1 matches Some(text)
                    &&& encode_utf8(text) == value
                }
            }
        }),
{
    let key_len = data[at] + data[at + 1] * 0x100;
    let value_len = data[at + 2] + data[at + 3] * 0x100 + data[at + 4] * 0x1_0000 + data[at + 5]
        * 0x100_0000;
    let end = at + 7 + key_len + value_len;
    let key = data.subrange(at + 7, at + 7 + key_len);
    let value = data.subrange(at + 7 + key_len, end);
    let flags = data[at + 6];
    integers_are_read_lowest_byte_first(data, at);
    integers_are_read_lowest_byte_first(data, at + 2);
    assert((flags & 1u8 != 0) == (flags % 2 == 1)) by (bit_vector);
    encode_utf8_valid_utf8(target);
    bytes_lt_irreflexive(encode_utf8(target));
    if bytes_lt(encode_utf8(target), key) && bytes_lt(key, encode_utf8(target)) {
        bytes_lt_transitive(key, encode_utf8(target), key);
        bytes_lt_irreflexive(key);
    }
    if valid_utf8(value) {
        decode_utf8_encode_utf8(value);
    }
}

/// A search that has entries left fails at one that the data do not hold to its end, and at a key
/// that is no text.
pub proof fn a_search_fails_at_a_bad_entry(data: Seq<u8>, at: int, count: nat, target: Seq<char>)
    requires
        0 <= at,
        count > 0,
    ensures
        ({
            let key_len = data[at] + data[at + 1] * 0x100;
            let value_len = data[at + 2] + data[at + 3] * 0x100 + data[at + 4] * 0x1_0000 + data[at
                + 5] * 0x100_0000;
            let end = at + 7 + key_len + value_len;
            let key = data.subrange(at + 7, at + 7 + key_len);
            let result = search(data, at, count, target);
            &&& at + 7 > data.len() ==> result == Err::<
                Option<(Seq<char>, Option<Seq<char>>)>,
                Fault,
            >(Fault::Corrupt("truncated entry header"@))
            &&& at + 7 <= data.len() < end ==> result == Err::<
                Option<(Seq<char>, Option<Seq<char>>)>,
                Fault,
            >(Fault::Corrupt("truncated entry body"@))
            &&& end <= data.len() && !valid_utf8(key) ==> result == Err::<
                Option<(Seq<char>, Option<Seq<char>>)>,
                Fault,
            >(Fault::Corrupt("non-UTF-8 key"@))
        }),
{
    integers_are_read_lowest_byte_first(data, at);
    integers_are_read_lowest_byte_first(data, at + 2);
}

} // verus!
