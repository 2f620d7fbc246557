//! Writing and reading sorted tables.

use crc32fast::Hasher;
use vstd::prelude::*;
use vstd::slice::slice_subrange;
use vstd::utf8::*;

pub use crate::format::{HEADER_SIZE, MAGIC, VERSION};
use crate::buffer;
use crate::buffer::u32_at;
use crate::checksum;
use crate::checksum::crc32;
use crate::entry::{byte_len, text_of, LookupResult, MemTableEntry};
use crate::format::{
    a_header_is_laid_out, encode_header, encode_record, encode_records, header_fault,
    header_fault_given, search, Fault, Record, ENTRY_HEADER_SIZE, FLAG_TOMBSTONE,
};
use crate::order::{compare_bytes, Precedence};
use crate::text;

verus! {

/// A record read from a table. It shadows any older one under its key, and without a value is
/// a tombstone.
#[derive(Debug, Clone, PartialEq, Eq)]
pub struct SstRecord {
    pub key: String,
    pub value: Option<String>,
}

impl View for SstRecord {
    type V = (Seq<char>, Option<Seq<char>>);

    open spec fn view(&self) -> (Seq<char>, Option<Seq<char>>) {
        (self.key@, text_of(self.value))
    }
}

impl SstRecord {
    /// What a lookup that ends at this record finds.
    pub fn to_lookup_result(&self) -> (result: LookupResult)
        ensures
            result@ == self@.1,
    {
        match &self.value {
            Some(value) => LookupResult::Value(value.clone()),
            None => LookupResult::NotFound,
        }
    }
}

/// Why a table could not be written or read.
#[derive(Debug, Clone, PartialEq, Eq)]
pub enum SstableError {
    Corrupt(String),
    UnsupportedVersion(u32),
}

impl View for SstableError {
    type V = Fault;

    open spec fn view(&self) -> Fault {
        match self {
            SstableError::Corrupt(what) => Fault::Corrupt(what@),
            SstableError::UnsupportedVersion(version) => Fault::UnsupportedVersion(*version),
        }
    }
}

/// What a catalog keeps of a table once it is written.
#[derive(Debug, Clone)]
pub struct SstableMeta {
    pub entry_count: u32,
    pub smallest_key: String,
    pub largest_key: String,
    pub data_crc32: u32,
}

/// Whether `meta` describes the table of `records`.
pub open spec fn describes_table(meta: SstableMeta, records: Seq<Record>) -> bool {
    &&& meta.entry_count == records.len()
    &&& meta.smallest_key@ == (if records.len() == 0 {
        Seq::empty()
    } else {
        records.first().key
    })
    &&& meta.largest_key@ == (if records.len() == 0 {
        Seq::empty()
    } else {
        records.last().key
    })
    &&& meta.data_crc32 == crc32(encode_records(records))
}

/// The record that stores `entry` under `key`.
pub open spec fn record_of(key: Seq<char>, entry: MemTableEntry) -> Record {
    Record {
        key,
        value: match entry.text() {
            Some(value) => value,
            None => Seq::empty(),
        },
        tombstone: entry.is_tombstone,
    }
}

/// Whether a table of `records` can take `record`: the length of the value and the count of the
/// entries fit their fields, the bytes of the record fit a buffer, and the hasher can count all
/// bytes.
pub open spec fn has_room(records: Seq<Record>, record: Record) -> bool {
    &&& byte_len(record.value) <= u32::MAX
    &&& records.len() < u32::MAX
    &&& encode_record(record).len() <= isize::MAX
    &&& encode_records(records).len() + encode_record(record).len() <= u64::MAX
}

/// Turns entries into the bytes of a table, one entry at a time.
///
/// It hands out bytes for the file: those that reserve the header, then those of each entry,
/// and in the end the header, which goes over the reserved bytes.
pub struct SstableWriter {
    hasher: Hasher,
    entry_count: u32,
    smallest_key: Option<String>,
    largest_key: Option<String>,
    records: Ghost<Seq<Record>>,
}

impl View for SstableWriter {
    type V = Seq<Record>;

    /// The records written so far.
    closed spec fn view(&self) -> Seq<Record> {
        self.records@
    }
}

impl SstableWriter {
    /// The hasher was fed the bytes of the records, the count is theirs, and the keys kept are
    /// those of the first and of the last.
    pub closed spec fn wf(&self) -> bool {
        &&& checksum::inputs(self.hasher).contains(encode_records(self@))
        &&& self.entry_count == self@.len()
        &&& (self.smallest_key is Some) == (self@.len() > 0)
        &&& (self.largest_key is Some) == (self@.len() > 0)
        &&& self@.len() > 0 ==> self.smallest_key->0@ == self@.first().key
        &&& self@.len() > 0 ==> self.largest_key->0@ == self@.last().key
    }

    /// A writer that has written no record, and the bytes that reserve the header.
    pub fn create() -> (result: (Self, Vec<u8>))
        ensures
            result.0.wf(),
            result.0@ == Seq::<Record>::empty(),
            result.1@ == Seq::new(HEADER_SIZE as nat, |i: int| 0u8),
    {
        let writer = Self {
            hasher: checksum::new_hasher(),
            entry_count: 0,
            smallest_key: None,
            largest_key: None,
            records: Ghost(Seq::empty()),
        };
        (writer, zeros(HEADER_SIZE))
    }

    /// Writes one record and returns its bytes. Keys must come in ascending order, as those of
    /// a memtable's snapshot do.
    pub fn write_entry(&mut self, key: &str, entry: &MemTableEntry) -> (result: Result<
        Vec<u8>,
        SstableError,
    >)
        requires
            old(self).wf(),
            byte_len(key@) <= u16::MAX ==> has_room(old(self)@, record_of(key@, *entry)),
        ensures
            final(self).wf(),
            match result {
                Ok(bytes) => {
                    &&& byte_len(key@) <= u16::MAX
                    &&& bytes@ == encode_record(record_of(key@, *entry))
                    &&& final(self)@ == old(self)@.push(record_of(key@, *entry))
                },
                Err(error) => {
                    &&& byte_len(key@) > u16::MAX
                    &&& error@ == Fault::Corrupt("key length exceeds u16"@)
                    &&& final(self)@ == old(self)@
                },
            },
    {
        let key_bytes: &[u8] = key.as_bytes();
        let value_bytes: &[u8] = match &entry.value {
            Some(value) => value.as_str().as_bytes(),
            None => "".as_bytes(),
        };
        let ghost record = record_of(key@, *entry);
        proof {
            reveal_strlit("");
            assert(""@ =~= Seq::<char>::empty());
            assert(value_bytes@ == encode_utf8(record.value));
        }

        if key_bytes.len() > u16::MAX as usize {
            return Err(SstableError::Corrupt("key length exceeds u16".to_owned()));
        }

        let flags: u8 = if entry.is_tombstone {
            FLAG_TOMBSTONE
        } else {
            0
        };

        let mut bytes: Vec<u8> = Vec::with_capacity(
            ENTRY_HEADER_SIZE + key_bytes.len() + value_bytes.len(),
        );
        buffer::put_u16_le(&mut bytes, key_bytes.len() as u16);
        buffer::put_u32_le(&mut bytes, value_bytes.len() as u32);
        buffer::put_u8(&mut bytes, flags);
        buffer::put_slice(&mut bytes, key_bytes);
        buffer::put_slice(&mut bytes, value_bytes);
        assert(bytes@ =~= encode_record(record));

        proof {
            let all = self@.push(record);
            assert(all.drop_last() =~= self@);
            assert(encode_records(all) == encode_records(self@) + bytes@);
        }
        checksum::update(&mut self.hasher, bytes.as_slice());

        self.entry_count += 1;
        if self.smallest_key.is_none() {
            self.smallest_key = Some(key.to_owned());
        }
        self.largest_key = Some(key.to_owned());
        self.records = Ghost(self.records@.push(record));

        Ok(bytes)
    }

    /// Ends the table. Returns what describes it and the header to write over the reserved
    /// bytes.
    pub fn finish(self) -> (result: (SstableMeta, Vec<u8>))
        requires
            self.wf(),
        ensures
            describes_table(result.0, self@),
            result.1@ == encode_header(self@.len() as u32, crc32(encode_records(self@))),
            result.0.entry_count == self@.len(),
            result.0.data_crc32 == crc32(encode_records(self@)),
            self@.len() > 0 ==> result.0.smallest_key@ == self@[0].key && result.0.largest_key@
                == self@[self@.len() - 1].key,
    {
        let SstableWriter { hasher, entry_count, smallest_key, largest_key, .. } = self;
        let data_crc32: u32 = checksum::finalize(hasher);
        describe_table(entry_count, smallest_key, largest_key, data_crc32)
    }
}

/// What describes a table of `entry_count` entries with the checksum `data_crc32`, of which the
/// first and the last have these keys, and the header of the table.
pub fn describe_table(
    entry_count: u32,
    smallest_key: Option<String>,
    largest_key: Option<String>,
    data_crc32: u32,
) -> (result: (SstableMeta, Vec<u8>))
    ensures
        result.0.entry_count == entry_count,
        result.0.smallest_key@ == (match smallest_key {
            Some(key) => key@,
            None => Seq::empty(),
        }),
        result.0.largest_key@ == (match largest_key {
            Some(key) => key@,
            None => Seq::empty(),
        }),
        result.0.data_crc32 == data_crc32,
        result.1@ == encode_header(entry_count, data_crc32),
{
    let mut header: Vec<u8> = Vec::with_capacity(HEADER_SIZE);
    buffer::put_slice(&mut header, &MAGIC);
    buffer::put_u32_le(&mut header, VERSION);
    buffer::put_u32_le(&mut header, entry_count);
    buffer::put_u32_le(&mut header, data_crc32);
    buffer::put_slice(&mut header, zeros(12).as_slice());

    let meta = SstableMeta {
        entry_count,
        smallest_key: match smallest_key {
            Some(key) => key,
            None => String::new(),
        },
        largest_key: match largest_key {
            Some(key) => key,
            None => String::new(),
        },
        data_crc32,
    };
    (meta, header)
}

/// The content of a table.
pub struct Image {
    /// All of its bytes, the header included.
    pub data: Seq<u8>,
    /// The number of its entries according to the header.
    pub entry_count: u32,
}

impl Image {
    /// What a search for `target` gives.
    pub open spec fn lookup(self, target: Seq<char>) -> Result<
        Option<(Seq<char>, Option<Seq<char>>)>,
        Fault,
    > {
        search(self.data, HEADER_SIZE as int, self.entry_count as nat, target)
    }
}

/// What a table has under `key`, `None` where it does not hold the key.
pub open spec fn stored(image: Image, key: Seq<char>) -> Result<Option<Option<Seq<char>>>, Fault> {
    match image.lookup(key) {
        Ok(Some(found)) => Ok(Some(found.1)),
        Ok(None) => Ok(None),
        Err(fault) => Err(fault),
    }
}

/// What the first of `images` that holds `key` has under it. The tables are asked in turn, up to
/// the first that holds the key or cannot be read.
pub open spec fn newest_stored(images: Seq<Image>, key: Seq<char>) -> Result<
    Option<Option<Seq<char>>>,
    Fault,
>
    decreases images.len(),
{
    if images.len() == 0 {
        Ok(None)
    } else if stored(images.first(), key) == Ok::<Option<Option<Seq<char>>>, Fault>(None) {
        newest_stored(images.drop_first(), key)
    } else {
        stored(images.first(), key)
    }
}

/// A table in memory, ready to be searched.
#[derive(Debug)]
pub struct SstableReader {
    data: Vec<u8>,
    entry_count: u32,
}

impl View for SstableReader {
    type V = Image;

    closed spec fn view(&self) -> Image {
        Image { data: self.data@, entry_count: self.entry_count }
    }
}

/// The contents of tables.
pub open spec fn images(tables: Seq<SstableReader>) -> Seq<Image> {
    tables.map_values(|table: SstableReader| table@)
}

impl SstableReader {
    /// Takes the bytes of a table. Their header and their checksum are checked, their entries
    /// only when they are searched.
    pub fn open(data: Vec<u8>) -> (result: Result<Self, SstableError>)
        ensures
            match result {
                Ok(reader) => {
                    &&& header_fault(data@) is None
                    &&& reader@.data == data@
                    &&& reader@.entry_count == u32_at(data@, 12)
                },
                Err(error) => header_fault(data@) == Some(error@),
            },
    {
        if data.len() < HEADER_SIZE {
            return Err(SstableError::Corrupt("file smaller than header".to_owned()));
        }
        let entries: &[u8] = slice_subrange(data.as_slice(), HEADER_SIZE, data.len());
        let mut hasher = checksum::new_hasher();
        assert(Seq::<u8>::empty() + entries@ =~= data@.skip(HEADER_SIZE as int));
        checksum::update(&mut hasher, entries);
        let data_crc32: u32 = checksum::finalize(hasher);
        Self::open_with_checksum(data, data_crc32)
    }

    /// Takes the bytes of a table whose entries have the checksum `data_crc32`, and checks their
    /// header.
    pub fn open_with_checksum(data: Vec<u8>, data_crc32: u32) -> (result: Result<
        Self,
        SstableError,
    >)
        ensures
            match result {
                Ok(reader) => {
                    &&& header_fault_given(data@, data_crc32) is None
                    &&& reader@.data == data@
                    &&& reader@.entry_count == u32_at(data@, 12)
                },
                Err(error) => header_fault_given(data@, data_crc32) == Some(error@),
            },
    {
        if data.len() < HEADER_SIZE {
            return Err(SstableError::Corrupt("file smaller than header".to_owned()));
        }
        assert(data@.take(8) =~= data@.subrange(0, 8));
        match compare_bytes(slice_subrange(data.as_slice(), 0, 8), &MAGIC) {
            Precedence::Same => {},
            _ => return Err(SstableError::Corrupt("magic bytes mismatch".to_owned())),
        }

        let version: u32 = buffer::read_u32_le(data.as_slice(), 8);
        if version != VERSION {
            return Err(SstableError::UnsupportedVersion(version));
        }

        let entry_count: u32 = buffer::read_u32_le(data.as_slice(), 12);
        let stored_crc32: u32 = buffer::read_u32_le(data.as_slice(), 16);
        if data_crc32 != stored_crc32 {
            return Err(SstableError::Corrupt("CRC32 checksum mismatch".to_owned()));
        }

        Ok(Self { data, entry_count })
    }

    /// The number of entries according to the header.
    pub fn entry_count(&self) -> (result: u32)
        ensures
            result == self@.entry_count,
    {
        self.entry_count
    }

    /// The record under `target_key`. The entries are read in turn, and the search ends at the
    /// first whose key does not come before `target_key`.
    pub fn get(&self, target_key: &str) -> (result: Result<Option<SstRecord>, SstableError>)
        ensures
            match result {
                Ok(Some(record)) => self@.lookup(target_key@) == Ok::<_, Fault>(Some(record@)),
                Ok(None) => self@.lookup(target_key@) == Ok::<
                    Option<(Seq<char>, Option<Seq<char>>)>,
                    Fault,
                >(None),
                Err(error) => self@.lookup(target_key@) == Err::<
                    Option<(Seq<char>, Option<Seq<char>>)>,
                    Fault,
                >(error@),
            },
    {
        let data: &[u8] = self.data.as_slice();
        let target_bytes: &[u8] = target_key.as_bytes();
        let mut cursor: usize = HEADER_SIZE;
        let mut left: u32 = self.entry_count;

        while left > 0
            invariant
                data@ == self@.data,
                target_bytes@ == encode_utf8(target_key@),
                cursor == HEADER_SIZE || cursor <= data@.len(),
                self@.lookup(target_key@) == search(data@, cursor as int, left as nat, target_key@),
            decreases left,
        {
            if cursor > data.len() || data.len() - cursor < ENTRY_HEADER_SIZE {
                return Err(SstableError::Corrupt("truncated entry header".to_owned()));
            }

            let key_len: usize = buffer::read_u16_le(data, cursor) as usize;
            let value_len: usize = buffer::read_u32_le(data, cursor + 2) as usize;
            let flags: u8 = data[cursor + 6];
            let body: usize = cursor + ENTRY_HEADER_SIZE;

            if key_len > data.len() - body || value_len > data.len() - body - key_len {
                return Err(SstableError::Corrupt("truncated entry body".to_owned()));
            }

            let key_end: usize = body + key_len;
            let value_end: usize = key_end + value_len;
            let key_bytes: &[u8] = slice_subrange(data, body, key_end);
            let value_bytes: &[u8] = slice_subrange(data, key_end, value_end);

            let key: &str = match text::from_utf8(key_bytes) {
                Some(key) => key,
                None => return Err(SstableError::Corrupt("non-UTF-8 key".to_owned())),
            };

            match compare_bytes(key_bytes, target_bytes) {
                Precedence::Before => {},
                Precedence::After => return Ok(None),
                Precedence::Same => {
                    proof {
                        crate::order::bytes_lt_irreflexive(target_bytes@);
                        crate::order::encoding_is_injective(key@, target_key@);
                    }
                    let is_tombstone = flags & FLAG_TOMBSTONE != 0;
                    let value: Option<String> = if is_tombstone {
                        None
                    } else {
                        match text::from_utf8(value_bytes) {
                            Some(value) => {
                                proof {
                                    encode_utf8_decode_utf8(value@);
                                }
                                Some(value.to_owned())
                            },
                            None => return Err(
                                SstableError::Corrupt("non-UTF-8 value".to_owned()),
                            ),
                        }
                    };
                    return Ok(Some(SstRecord { key: key.to_owned(), value }));
                },
            }
            cursor = value_end;
            left -= 1;
        }

        Ok(None)
    }
}

/// A run of zero bytes.
fn zeros(count: usize) -> (bytes: Vec<u8>)
    ensures
        bytes@ == Seq::new(count as nat, |i: int| 0u8),
{
    let mut bytes: Vec<u8> = Vec::with_capacity(count);
    while bytes.len() < count
        invariant
            bytes@.len() <= count,
            bytes@ == Seq::new(bytes@.len(), |i: int| 0u8),
        decreases count - bytes@.len(),
    {
        bytes.push(0);
    }
    bytes
}

/// What describes a table says how many records it has, what checksum their bytes have, and which
/// keys the first and the last record have, both empty where there are none.
pub proof fn a_description_is_of_its_table(meta: SstableMeta, records: Seq<Record>)
    ensures
        describes_table(meta, records) <==> {
            &&& meta.entry_count == records.len()
            &&& meta.data_crc32 == crc32(encode_records(records))
            &&& records.len() > 0 ==> meta.smallest_key@ == records[0].key && meta.largest_key@
                == records[records.len() - 1].key
            &&& records.len() == 0 ==> meta.smallest_key@.len() == 0 && meta.largest_key@.len()
                == 0
        },
{
    if records.len() == 0 {
        assert(meta.smallest_key@.len() == 0 ==> meta.smallest_key@ =~= Seq::empty());
        assert(meta.largest_key@.len() == 0 ==> meta.largest_key@ =~= Seq::empty());
    }
}

/// The description and the header of a table agree.
pub proof fn a_description_agrees_with_the_header(meta: SstableMeta, records: Seq<Record>)
    requires
        describes_table(meta, records),
    ensures
        ({
            let header = encode_header(records.len() as u32, crc32(encode_records(records)));
            &&& header.len() == 32
            &&& meta.entry_count == header[12] + header[13] * 0x100 + header[14] * 0x1_0000
                + header[15] * 0x100_0000
            &&& meta.data_crc32 == header[16] + header[17] * 0x100 + header[18] * 0x1_0000
                + header[19] * 0x100_0000
        }),
{
    a_header_is_laid_out(records.len() as u32, crc32(encode_records(records)));
}

/// The record of an entry has the key it is stored under and the text of the entry's value, none
/// where there is no value, and is a tombstone where the entry is.
pub proof fn a_record_is_of_its_entry(key: Seq<char>, entry: MemTableEntry)
    ensures
        record_of(key, entry).key == key,
        entry.value matches Some(value) ==> record_of(key, entry).value == value@,
        entry.value is None ==> record_of(key, entry).value.len() == 0,
        record_of(key, entry).tombstone == entry.is_tombstone,
{
}

/// A record read from a table shows its key and the text of its value, and an error shows what it
/// says.
pub proof fn records_and_errors_show_what_they_hold(
    record: SstRecord,
    what: String,
    version: u32,
)
    ensures
        record@.0 == record.key@,
        record.value matches Some(value) ==> record@.1 == Some(value@),
        record.value is None ==> record@.1 is None,
        SstableError::Corrupt(what)@ == Fault::Corrupt(what@),
        SstableError::UnsupportedVersion(version)@ == Fault::UnsupportedVersion(version),
{
}

/// A lookup in a table searches all its entries, from behind the header.
pub proof fn a_lookup_searches_all_entries(image: Image, key: Seq<char>)
    ensures
        image.lookup(key) == search(image.data, 32, image.entry_count as nat, key),
{
}

/// The contents of tables are those of each table in turn.
pub proof fn images_are_those_of_the_tables(tables: Seq<SstableReader>)
    ensures
        images(tables).len() == tables.len(),
        forall|i: int| 0 <= i < tables.len() ==> #[trigger] images(tables)[i] == tables[i]@,
{
}

/// Of several tables the first that does not answer with nothing decides, wherever it stands: with
/// what it has under the key, or with its fault. Where all answer with nothing, nothing is found.
pub proof fn the_first_answer_of_tables_decides(tables: Seq<Image>, key: Seq<char>, i: int)
    requires
        0 <= i <= tables.len(),
        forall|j: int|
            0 <= j < i ==> (#[trigger] tables[j]).lookup(key) == Ok::<
                Option<(Seq<char>, Option<Seq<char>>)>,
                Fault,
            >(None),
    ensures
        i == tables.len() ==> newest_stored(tables, key) == Ok::<
            Option<Option<Seq<char>>>,
            Fault,
        >(None),
        i < tables.len() ==> (tables[i].lookup(key) matches Ok(Some(record)) ==> newest_stored(
            tables,
            key,
        ) == Ok::<Option<Option<Seq<char>>>, Fault>(Some(record.1))),
        i < tables.len() ==> (tables[i].lookup(key) matches Err(fault) ==> newest_stored(
            tables,
            key,
        ) == Err::<Option<Option<Seq<char>>>, Fault>(fault)),
    decreases i,
{
    if i > 0 {
        let rest = tables.drop_first();
        assert forall|j: int| 0 <= j < i - 1 implies (#[trigger] rest[j]).lookup(key) == Ok::<
            Option<(Seq<char>, Option<Seq<char>>)>,
            Fault,
        >(None) by {
            assert(rest[j] == tables[j + 1]);
        }
        assert(tables[0].lookup(key) is Ok);
        the_first_answer_of_tables_decides(rest, key, i - 1);
        if i < tables.len() {
            assert(rest[i - 1] == tables[i]);
        }
    }
}

} // verus!
