//! What a memtable stores under a key, and the size limits an entry keeps to.

use vstd::prelude::*;
use vstd::utf8::*;

verus! {

/// How many bytes of entries one memtable may hold.
pub const MEMTABLE_CAPACITY_BYTES: usize = 4 * 1024 * 1024;

/// The longest key, in bytes.
pub const MAX_KEY_SIZE_BYTES: usize = 1024;

/// How many bytes one entry may take: its key, its value and its metadata.
pub const ENTRY_BUDGET_BYTES: usize = 4096;

/// What every entry is charged on top of its key and its value.
pub const METADATA_OVERHEAD_BYTES: usize = 60;

/// What a lookup finds under a key.
#[derive(Debug, Clone, PartialEq, Eq)]
pub enum LookupResult {
    /// The key has this value.
    Value(String),
    /// The key was never written, or was deleted.
    NotFound,
}

impl View for LookupResult {
    type V = Option<Seq<char>>;

    open spec fn view(&self) -> Option<Seq<char>> {
        match self {
            LookupResult::Value(value) => Some(value@),
            LookupResult::NotFound => None,
        }
    }
}

/// Why a memtable refused a write.
#[derive(Debug, Clone, PartialEq, Eq)]
pub enum MemTableError {
    /// The key is empty.
    EmptyKey,
    /// The key is longer than any key may be.
    KeyTooLarge { actual: usize, max: usize },
    /// The value is longer than a value under this key may be.
    ValueTooLarge { actual: usize, max: usize },
    /// The entry as a whole is over its budget.
    EntryTooLarge { actual: usize, max: usize },
    /// The memtable has no room for the entry.
    MemTableFull { requested: usize, remaining: usize, capacity: usize },
}

/// One write to a key: a value, or a tombstone that records a deletion.
#[derive(Debug, PartialEq, Eq)]
pub struct MemTableEntry {
    pub value: Option<String>,
    pub key_size_bytes: usize,
    pub value_size_bytes: usize,
    pub entry_size_bytes: usize,
    pub is_tombstone: bool,
}

/// What a write stores as its value, `None` for a tombstone.
pub open spec fn text_of(value: Option<String>) -> Option<Seq<char>> {
    match value {
        Some(value) => Some(value@),
        None => None,
    }
}

/// The length of a text in bytes.
pub open spec fn byte_len(text: Seq<char>) -> nat {
    encode_utf8(text).len()
}

/// The length in bytes of what a write stores as its value. A tombstone stores nothing.
pub open spec fn value_len(value: Option<Seq<char>>) -> nat {
    match value {
        Some(text) => byte_len(text),
        None => 0,
    }
}

/// How many bytes a memtable charges for a write of `value`, or of a tombstone, under `key`.
pub open spec fn entry_size(key: Seq<char>, value: Option<Seq<char>>) -> nat {
    byte_len(key) + value_len(value) + METADATA_OVERHEAD_BYTES as nat
}

/// The length in bytes of the longest value that a key of `key_size` bytes may have.
pub open spec fn max_value_len(key_size: nat) -> nat {
    if METADATA_OVERHEAD_BYTES + key_size <= ENTRY_BUDGET_BYTES {
        (ENTRY_BUDGET_BYTES - METADATA_OVERHEAD_BYTES - key_size) as nat
    } else {
        0
    }
}

/// Why `key` is no key, if it is none.
pub open spec fn key_error(key: Seq<char>) -> Option<MemTableError> {
    if key.len() == 0 {
        Some(MemTableError::EmptyKey)
    } else if byte_len(key) > MAX_KEY_SIZE_BYTES {
        Some(
            MemTableError::KeyTooLarge { actual: byte_len(key) as usize, max: MAX_KEY_SIZE_BYTES },
        )
    } else {
        None
    }
}

/// Why `value`, or a tombstone, cannot be written under `key`, if it cannot.
pub open spec fn write_error(key: Seq<char>, value: Option<Seq<char>>) -> Option<MemTableError> {
    if key_error(key) is Some {
        key_error(key)
    } else if value_len(value) > max_value_len(byte_len(key)) {
        Some(
            MemTableError::ValueTooLarge {
                actual: value_len(value) as usize,
                max: max_value_len(byte_len(key)) as usize,
            },
        )
    } else {
        None
    }
}

impl MemTableEntry {
    /// The text of the value, `None` for a tombstone.
    pub open spec fn text(&self) -> Option<Seq<char>> {
        text_of(self.value)
    }

    /// Whether the entry is one that a write under `key` stores.
    pub open spec fn describes(&self, key: Seq<char>) -> bool {
        &&& self.key_size_bytes == byte_len(key)
        &&& self.value_size_bytes == value_len(self.text())
        &&& self.entry_size_bytes == entry_size(key, self.text())
        &&& self.is_tombstone == (self.value is None)
    }

    /// The entry that stores `value` under `key`.
    pub fn new_value(key: &str, value: String) -> (result: Result<Self, MemTableError>)
        ensures
            match result {
                Ok(entry) => write_error(key@, Some(value@)) is None && entry.describes(key@)
                    && entry.text() == Some(value@),
                Err(error) => write_error(key@, Some(value@)) == Some(error),
            },
    {
        Self::build(key, Some(value))
    }

    /// The entry that records the deletion of `key`.
    pub fn new_tombstone(key: &str) -> (result: Result<Self, MemTableError>)
        ensures
            match result {
                Ok(entry) => write_error(key@, None) is None && entry.describes(key@)
                    && entry.text() is None,
                Err(error) => write_error(key@, None) == Some(error),
            },
    {
        Self::build(key, None)
    }

    /// The entry for a write under `key`, with its sizes.
    pub fn build(key: &str, value: Option<String>) -> (result: Result<Self, MemTableError>)
        ensures
            match result {
                Ok(entry) => write_error(key@, text_of(value)) is None && entry.describes(key@)
                    && entry.text() == text_of(value),
                Err(error) => write_error(key@, text_of(value)) == Some(error),
            },
    {
        match validate_key(key) {
            Ok(()) => {},
            Err(error) => return Err(error),
        }

        let key_size_bytes: usize = size_in_bytes(key);
        let value_size_bytes: usize = match &value {
            Some(value) => size_in_bytes(value.as_str()),
            None => 0,
        };
        let max_value_size_bytes: usize = max_value_size_bytes_for_key(key_size_bytes);

        if value_size_bytes > max_value_size_bytes {
            return Err(
                MemTableError::ValueTooLarge {
                    actual: value_size_bytes,
                    max: max_value_size_bytes,
                },
            );
        }

        let entry_size_bytes: usize = key_size_bytes + value_size_bytes + METADATA_OVERHEAD_BYTES;
        if entry_size_bytes > ENTRY_BUDGET_BYTES {
            return Err(
                MemTableError::EntryTooLarge { actual: entry_size_bytes, max: ENTRY_BUDGET_BYTES },
            );
        }
        let is_tombstone = value.is_none();

        Ok(Self { value, key_size_bytes, value_size_bytes, entry_size_bytes, is_tombstone })
    }

    /// What a lookup that ends at this entry finds.
    pub fn to_lookup_result(&self) -> (result: LookupResult)
        ensures
            result@ == self.text(),
    {
        match &self.value {
            Some(value) => LookupResult::Value(value.clone()),
            None => LookupResult::NotFound,
        }
    }
}

impl Clone for MemTableEntry {
    fn clone(&self) -> (result: Self)
        ensures
            result == *self,
    {
        MemTableEntry {
            value: match &self.value {
                Some(value) => Some(value.clone()),
                None => None,
            },
            key_size_bytes: self.key_size_bytes,
            value_size_bytes: self.value_size_bytes,
            entry_size_bytes: self.entry_size_bytes,
            is_tombstone: self.is_tombstone,
        }
    }
}

/// Refuses a key that is empty or too long.
pub fn validate_key(key: &str) -> (result: Result<(), MemTableError>)
    ensures
        match result {
            Ok(()) => key_error(key@) is None,
            Err(error) => key_error(key@) == Some(error),
        },
{
    if key.is_empty() {
        return Err(MemTableError::EmptyKey);
    }

    let key_size_bytes: usize = size_in_bytes(key);
    if key_size_bytes > MAX_KEY_SIZE_BYTES {
        return Err(
            MemTableError::KeyTooLarge { actual: key_size_bytes, max: MAX_KEY_SIZE_BYTES },
        );
    }

    Ok(())
}

/// The length in bytes of the longest value that a key of `key_size_bytes` bytes may have.
pub fn max_value_size_bytes_for_key(key_size_bytes: usize) -> (result: usize)
    requires
        METADATA_OVERHEAD_BYTES + key_size_bytes <= usize::MAX,
    ensures
        result == max_value_len(key_size_bytes as nat),
{
    ENTRY_BUDGET_BYTES.saturating_sub(METADATA_OVERHEAD_BYTES + key_size_bytes)
}

/// The length of a text in bytes.
pub fn size_in_bytes(text: &str) -> (result: usize)
    ensures
        result == byte_len(text@),
{
    text.as_bytes().len()
}

/// What may be written keeps to the entry budget, so no write is refused for the size of its
/// entry as a whole.
pub proof fn writes_keep_to_the_entry_budget(key: Seq<char>, value: Option<Seq<char>>)
    ensures
        write_error(key, value) is None ==> entry_size(key, value) <= ENTRY_BUDGET_BYTES,
        !(write_error(key, value) matches Some(MemTableError::EntryTooLarge { .. })),
{
}

/// A deletion takes as much room as its key and the metadata. Every key that may be written may
/// be deleted.
pub proof fn a_deletion_takes_its_key_and_metadata(key: Seq<char>)
    ensures
        entry_size(key, None) == byte_len(key) + METADATA_OVERHEAD_BYTES,
        write_error(key, None) == key_error(key),
{
}

/// An entry is charged for each byte of its key and of its value, and for its metadata.
pub proof fn an_entry_is_charged_its_bytes(key: Seq<char>, text: Seq<char>)
    ensures
        entry_size(key, Some(text)) == encode_utf8(key).len() + encode_utf8(text).len() + 60,
        entry_size(key, None) == encode_utf8(key).len() + 60,
        value_len(Some(text)) == encode_utf8(text).len(),
        value_len(None) == 0,
        byte_len(key) == encode_utf8(key).len(),
{
}

/// A value may be written under a key exactly where the key has from one to 1024 bytes and key,
/// value and metadata together have at most 4096. A key that is empty or too long is refused for
/// that alone, and a value that is too long is told how long it may be.
pub proof fn writes_are_checked_by_size(key: Seq<char>, text: Seq<char>)
    ensures
        write_error(key, Some(text)) is None <==> {
            &&& 1 <= encode_utf8(key).len() <= 1024
            &&& encode_utf8(key).len() + encode_utf8(text).len() + 60 <= 4096
        },
        write_error(key, None) is None <==> 1 <= encode_utf8(key).len() <= 1024,
        forall|value: Option<Seq<char>>|
            encode_utf8(key).len() == 0 ==> #[trigger] write_error(key, value) == Some(
                MemTableError::EmptyKey,
            ),
        forall|value: Option<Seq<char>>|
            encode_utf8(key).len() > 1024 ==> #[trigger] write_error(key, value) == Some(
                MemTableError::KeyTooLarge { actual: encode_utf8(key).len() as usize, max: 1024 },
            ),
        1 <= encode_utf8(key).len() <= 1024 && encode_utf8(key).len() + encode_utf8(text).len()
            + 60 > 4096 ==> write_error(key, Some(text)) == Some(
            MemTableError::ValueTooLarge {
                actual: encode_utf8(text).len() as usize,
                max: (4096 - 60 - encode_utf8(key).len()) as usize,
            },
        ),
        key_error(key) == write_error(key, None),
{
    if key.len() > 0 {
        encode_utf8_first_scalar(key);
        if encode_utf8(key).len() == 0 {
            encode_utf8_decode_utf8(key);
            encode_utf8_decode_utf8(Seq::<char>::empty());
            assert(encode_utf8(Seq::<char>::empty()) =~= encode_utf8(key));
        }
    } else {
        assert(encode_utf8(key) =~= Seq::<u8>::empty());
    }
}

/// The longest value of a key fills the entry budget, and where the key leaves no room for a
/// value there is none.
pub proof fn the_longest_value_fills_the_budget(key_size: nat)
    ensures
        key_size + 60 <= 4096 ==> max_value_len(key_size) + key_size + 60 == 4096,
        key_size + 60 > 4096 ==> max_value_len(key_size) == 0,
{
}

/// An entry that a write under `key` stores counts the bytes of its key and of its value, and is a
/// tombstone where it has no value.
pub proof fn an_entry_counts_its_bytes(entry: MemTableEntry, key: Seq<char>)
    requires
        entry.describes(key),
    ensures
        entry.key_size_bytes == encode_utf8(key).len(),
        entry.is_tombstone <==> entry.value is None,
        entry.value matches Some(value) ==> entry.value_size_bytes == encode_utf8(value@).len(),
        entry.value is None ==> entry.value_size_bytes == 0,
        entry.entry_size_bytes == entry.key_size_bytes + entry.value_size_bytes + 60,
{
}

/// The text of an entry is that of its value, and a lookup finds the text that it returns.
pub proof fn texts_are_those_of_the_values(entry: MemTableEntry, value: String)
    ensures
        entry.value matches Some(value) ==> entry.text() == Some(value@),
        entry.value is None ==> entry.text() is None,
        text_of(Some(value)) == Some(value@),
        text_of(None) is None,
        LookupResult::Value(value)@ == Some(value@),
        LookupResult::NotFound@ is None,
{
}

} // verus!
