//! The in-memory write buffer: an ordered table of the latest write to each key.

use crossbeam_skiplist::SkipMap;
use vstd::prelude::*;
use vstd::utf8::*;

pub use crate::entry::{
    LookupResult, MemTableEntry, MemTableError, ENTRY_BUDGET_BYTES, MAX_KEY_SIZE_BYTES,
    MEMTABLE_CAPACITY_BYTES, METADATA_OVERHEAD_BYTES,
};
use crate::skiplist;
use crate::entry::{entry_size, write_error};
use crate::order::{bytes_lt, key_lt, key_order_is_strict_and_total};

verus! {

/// What a memtable holds: under each written key the value of its latest write, `None` where
/// that was a deletion.
pub type Table = Map<Seq<char>, Option<Seq<char>>>;

/// How many bytes the entries of `table` take together.
pub open spec fn total_size(table: Table) -> nat
    decreases table.dom().len(),
    when table.dom().finite()
{
    if table.dom().len() == 0 {
        0
    } else {
        let key = table.dom().choose();
        entry_size(key, table[key]) + total_size(table.remove(key))
    }
}

/// How many bytes the entry under `key` takes, zero where there is none.
pub open spec fn replaced_size(table: Table, key: Seq<char>) -> nat {
    if table.contains_key(key) {
        entry_size(key, table[key])
    } else {
        0
    }
}

/// How many bytes an entry under `key` may take: all that the other entries leave.
pub open spec fn room_for(table: Table, key: Seq<char>) -> int {
    MEMTABLE_CAPACITY_BYTES - (total_size(table) - replaced_size(table, key))
}

/// Whether `table` has room for a write under `key`.
pub open spec fn fits(table: Table, key: Seq<char>, value: Option<Seq<char>>) -> bool {
    entry_size(key, value) <= room_for(table, key)
}

/// Whether a memtable can come to hold `table`: it has finitely many entries, each of which
/// may be written, and they fit.
pub open spec fn valid_table(table: Table) -> bool {
    &&& table.dom().finite()
    &&& total_size(table) <= MEMTABLE_CAPACITY_BYTES
    &&& forall|key: Seq<char>| #[trigger]
        table.contains_key(key) ==> write_error(key, table[key]) is None
}

/// The size of a table does not depend on the order in which its entries are counted.
pub proof fn total_size_remove(table: Table, key: Seq<char>)
    requires
        table.dom().finite(),
        table.contains_key(key),
    ensures
        total_size(table) == entry_size(key, table[key]) + total_size(table.remove(key)),
    decreases table.dom().len(),
{
    let first = table.dom().choose();
    if first != key {
        total_size_remove(table.remove(first), key);
        total_size_remove(table.remove(key), first);
        assert(table.remove(first).remove(key) =~= table.remove(key).remove(first));
    }
}

/// Writing a key charges the new entry and releases the one it replaces.
pub proof fn total_size_insert(table: Table, key: Seq<char>, value: Option<Seq<char>>)
    requires
        table.dom().finite(),
    ensures
        total_size(table.insert(key, value)) == total_size(table) - replaced_size(table, key)
            + entry_size(key, value),
{
    total_size_remove(table.insert(key, value), key);
    if table.contains_key(key) {
        total_size_remove(table, key);
        assert(table.insert(key, value).remove(key) =~= table.remove(key));
    } else {
        assert(table.insert(key, value).remove(key) =~= table);
    }
}

/// A table takes at least one byte for each of its keys.
pub proof fn len_is_at_most_total_size(table: Table)
    requires
        table.dom().finite(),
    ensures
        table.dom().len() <= total_size(table),
    decreases table.dom().len(),
{
    if table.dom().len() > 0 {
        len_is_at_most_total_size(table.remove(table.dom().choose()));
    }
}

/// Why a memtable that holds `table` refuses a write under `key`, if it does.
pub open spec fn refusal(table: Table, key: Seq<char>, value: Option<Seq<char>>) -> Option<
    MemTableError,
> {
    if write_error(key, value) is Some {
        write_error(key, value)
    } else if !fits(table, key, value) {
        Some(
            MemTableError::MemTableFull {
                requested: entry_size(key, value) as usize,
                remaining: room_for(table, key) as usize,
                capacity: MEMTABLE_CAPACITY_BYTES,
            },
        )
    } else {
        None
    }
}

/// What a lookup of `key` finds in `table`.
pub open spec fn lookup(table: Table, key: Seq<char>) -> Option<Seq<char>> {
    if table.contains_key(key) {
        table[key]
    } else {
        None
    }
}

/// Whether `listing` holds the keys of `table` with their writes, each once, in ascending
/// order.
pub open spec fn is_listing(
    listing: Seq<(Seq<char>, Option<Seq<char>>)>,
    table: Table,
) -> bool {
    &&& forall|i: int, j: int|
        0 <= i < j < listing.len() ==> key_lt(#[trigger] listing[i].0, #[trigger] listing[j].0)
    &&& forall|i: int|
        0 <= i < listing.len() ==> table.contains_key(#[trigger] listing[i].0)
            && table[listing[i].0] == listing[i].1
    &&& forall|key: Seq<char>| #[trigger]
        table.contains_key(key) ==> exists|i: int|
            0 <= i < listing.len() && #[trigger] listing[i].0 == key
}

/// Whether `entries` is what a memtable that holds `table` gives as its snapshot: its listing,
/// with the sizes of every entry.
pub open spec fn is_snapshot(entries: Seq<(String, MemTableEntry)>, table: Table) -> bool {
    &&& is_listing(
        entries.map_values(|item: (String, MemTableEntry)| (item.0@, item.1.text())),
        table,
    )
    &&& forall|i: int|
        0 <= i < entries.len() ==> (#[trigger] entries[i]).1.describes(entries[i].0@)
}

/// A write is found under its key, and the other keys keep what they had. After a deletion
/// nothing is found, as under a key that was never written.
pub proof fn a_write_is_found(
    table: Table,
    key: Seq<char>,
    value: Option<Seq<char>>,
    other: Seq<char>,
)
    ensures
        lookup(table.insert(key, value), key) == value,
        other != key ==> lookup(table.insert(key, value), other) == lookup(table, other),
{
}

/// A write for which there is room leaves the table within its capacity.
pub proof fn writes_keep_a_table_valid(table: Table, key: Seq<char>, value: Option<Seq<char>>)
    requires
        valid_table(table),
        refusal(table, key, value) is None,
    ensures
        valid_table(table.insert(key, value)),
{
    total_size_insert(table, key, value);
}

/// A write in place of another adds no key, every other write adds one.
pub proof fn a_write_adds_at_most_one_key(
    table: Table,
    key: Seq<char>,
    value: Option<Seq<char>>,
)
    requires
        table.dom().finite(),
    ensures
        table.insert(key, value).dom().len() == table.dom().len() + (if table.contains_key(key) {
            0nat
        } else {
            1nat
        }),
{
    assert(table.insert(key, value).dom() =~= table.dom().insert(key));
}

/// A table has only one listing.
pub proof fn a_table_has_one_listing(
    a: Seq<(Seq<char>, Option<Seq<char>>)>,
    b: Seq<(Seq<char>, Option<Seq<char>>)>,
    table: Table,
)
    requires
        is_listing(a, table),
        is_listing(b, table),
    ensures
        a == b,
{
    if a.len() <= b.len() {
        listings_agree(a, b, table, a.len() as int);
        if a.len() < b.len() {
            let next = b[a.len() as int].0;
            let i = choose|i: int| 0 <= i < a.len() && #[trigger] a[i].0 == next;
            assert(b[i].0 == next);
            key_order_is_strict_and_total(next, next, next);
        }
    } else {
        listings_agree(b, a, table, b.len() as int);
        let next = a[b.len() as int].0;
        let i = choose|i: int| 0 <= i < b.len() && #[trigger] b[i].0 == next;
        assert(a[i].0 == next);
        key_order_is_strict_and_total(next, next, next);
    }
    assert(a =~= b);
}

/// Two listings of a table agree on their first `n` items.
proof fn listings_agree(
    a: Seq<(Seq<char>, Option<Seq<char>>)>,
    b: Seq<(Seq<char>, Option<Seq<char>>)>,
    table: Table,
    n: int,
)
    requires
        is_listing(a, table),
        is_listing(b, table),
        0 <= n <= a.len(),
        n <= b.len(),
    ensures
        forall|i: int| 0 <= i < n ==> a[i] == b[i],
    decreases n,
{
    if n > 0 {
        let last = n - 1;
        listings_agree(a, b, table, last);
        let (x, y) = (a[last].0, b[last].0);
        // Each of the two keys stands in the other listing, and not before `last`.
        let i = choose|i: int| 0 <= i < b.len() && #[trigger] b[i].0 == x;
        let j = choose|j: int| 0 <= j < a.len() && #[trigger] a[j].0 == y;
        key_order_is_strict_and_total(x, y, x);
        key_order_is_strict_and_total(y, x, y);
        if i < last {
            assert(a[i].0 == x);
        }
        if j < last {
            assert(b[j].0 == y);
        }
        if x != y {
            assert(key_lt(y, x));
            assert(key_lt(x, y));
        }
        assert(a[last] == b[last]);
    }
}

/// A bounded, ordered buffer of writes.
#[derive(Debug)]
pub struct MemTable {
    entries: SkipMap<String, MemTableEntry>,
    used_bytes: usize,
}

impl View for MemTable {
    type V = Table;

    closed spec fn view(&self) -> Table {
        skiplist::contents(self.entries).map_values(|entry: MemTableEntry| entry.text())
    }
}

impl MemTable {
    /// The table is one that writes can lead to, every entry has its sizes right, and the
    /// bytes in use are those of the entries.
    pub closed spec fn wf(&self) -> bool {
        &&& valid_table(self@)
        &&& self.used_bytes == total_size(self@)
        &&& forall|key: Seq<char>| #[trigger]
            skiplist::contents(self.entries).contains_key(key) ==> skiplist::contents(
                self.entries,
            )[key].describes(key)
    }

    /// A memtable never holds more than it has room for, nor an entry that may not be written.
    pub proof fn holds_a_valid_table(&self)
        requires
            self.wf(),
        ensures
            valid_table(self@),
    {
    }

    /// An empty memtable.
    pub fn new() -> (table: Self)
        ensures
            table.wf(),
            table@ == Map::<Seq<char>, Option<Seq<char>>>::empty(),
    {
        let table = Self { entries: skiplist::new_map(), used_bytes: 0 };
        assert(table@ =~= Map::<Seq<char>, Option<Seq<char>>>::empty());
        table
    }

    /// Stores `value` under `key`.
    pub fn put(&mut self, key: String, value: String) -> (result: Result<(), MemTableError>)
        requires
            old(self).wf(),
        ensures
            final(self).wf(),
            match result {
                Ok(()) => refusal(old(self)@, key@, Some(value@)) is None && final(self)@ == old(
                    self,
                )@.insert(key@, Some(value@)),
                Err(error) => refusal(old(self)@, key@, Some(value@)) == Some(error)
                    && final(self)@ == old(self)@,
            },
    {
        match MemTableEntry::new_value(key.as_str(), value) {
            Ok(entry) => self.upsert_entry(key, entry),
            Err(error) => Err(error),
        }
    }

    /// The value under `key`.
    pub fn get(&self, key: &str) -> (result: LookupResult)
        requires
            self.wf(),
        ensures
            result@ == lookup(self@, key@),
    {
        match self.get_entry(key) {
            Some(entry) => entry.to_lookup_result(),
            None => LookupResult::NotFound,
        }
    }

    /// Records that `key` is deleted. The tombstone stays in the table, and takes room in it.
    pub fn delete(&mut self, key: String) -> (result: Result<(), MemTableError>)
        requires
            old(self).wf(),
        ensures
            final(self).wf(),
            match result {
                Ok(()) => refusal(old(self)@, key@, None) is None && final(self)@ == old(
                    self,
                )@.insert(key@, None),
                Err(error) => refusal(old(self)@, key@, None) == Some(error) && final(self)@
                    == old(self)@,
            },
    {
        match MemTableEntry::new_tombstone(key.as_str()) {
            Ok(entry) => self.upsert_entry(key, entry),
            Err(error) => Err(error),
        }
    }

    /// The number of keys written, deleted ones among them.
    pub fn len(&self) -> (result: usize)
        requires
            self.wf(),
        ensures
            result == self@.dom().len(),
    {
        proof {
            self.entries_are_countable();
        }
        skiplist::len(&self.entries)
    }

    /// Whether no key was written.
    pub fn is_empty(&self) -> (result: bool)
        requires
            self.wf(),
        ensures
            result == (self@ == Map::<Seq<char>, Option<Seq<char>>>::empty()),
    {
        proof {
            self.entries_are_countable();
            if self@.dom().len() == 0 {
                assert(self@ =~= Map::<Seq<char>, Option<Seq<char>>>::empty());
            }
        }
        skiplist::is_empty(&self.entries)
    }

    /// How many bytes the entries take.
    pub fn used_bytes(&self) -> (result: usize)
        requires
            self.wf(),
        ensures
            result == total_size(self@),
    {
        self.used_bytes
    }

    /// How many bytes are left for further entries.
    pub fn remaining_bytes(&self) -> (result: usize)
        requires
            self.wf(),
        ensures
            result == MEMTABLE_CAPACITY_BYTES - total_size(self@),
    {
        MEMTABLE_CAPACITY_BYTES.saturating_sub(self.used_bytes())
    }

    /// The entry under `key`, a tombstone included.
    pub fn get_entry(&self, key: &str) -> (result: Option<MemTableEntry>)
        requires
            self.wf(),
        ensures
            match result {
                Some(entry) => self@.contains_key(key@) && entry.describes(key@) && entry.text()
                    == self@[key@],
                None => !self@.contains_key(key@),
            },
    {
        skiplist::get(&self.entries, key)
    }

    /// All entries with their keys, in ascending order of keys.
    pub fn entries_snapshot(&self) -> (result: Vec<(String, MemTableEntry)>)
        requires
            self.wf(),
        ensures
            is_snapshot(result@, self@),
    {
        let result = skiplist::entries(&self.entries);
        proof {
            let listing = result@.map_values(
                |item: (String, MemTableEntry)| (item.0@, item.1.text()),
            );
            assert forall|i: int| 0 <= i < listing.len() implies self@.contains_key(
                #[trigger] listing[i].0,
            ) && self@[listing[i].0] == listing[i].1 by {
                assert(listing[i].0 == result@[i].0@);
            }
            assert forall|key: Seq<char>| #[trigger] self@.contains_key(key) implies exists|i: int|
                0 <= i < listing.len() && #[trigger] listing[i].0 == key by {
                assert(skiplist::contents(self.entries).contains_key(key));
                let i = choose|i: int| 0 <= i < result@.len() && #[trigger] result@[i].0@ == key;
                assert(listing[i].0 == key);
            }
            assert forall|i: int| 0 <= i < result@.len() implies (
            #[trigger] result@[i]).1.describes(result@[i].0@) by {
                assert(skiplist::contents(self.entries).contains_key(result@[i].0@));
            }
        }
        result
    }

    /// The entries are as many as the table has keys, which can be counted.
    proof fn entries_are_countable(&self)
        requires
            self.wf(),
        ensures
            skiplist::contents(self.entries).dom() == self@.dom(),
            self@.dom().finite(),
            self@.dom().len() <= isize::MAX,
    {
        len_is_at_most_total_size(self@);
        assert(skiplist::contents(self.entries).dom() =~= self@.dom());
    }

    /// Stores `entry` under `key`, in place of the entry there, if that leaves the table within
    /// its capacity.
    fn upsert_entry(&mut self, key: String, entry: MemTableEntry) -> (result: Result<
        (),
        MemTableError,
    >)
        requires
            old(self).wf(),
            entry.describes(key@),
            write_error(key@, entry.text()) is None,
        ensures
            final(self).wf(),
            match result {
                Ok(()) => refusal(old(self)@, key@, entry.text()) is None && final(self)@ == old(
                    self,
                )@.insert(key@, entry.text()),
                Err(error) => refusal(old(self)@, key@, entry.text()) == Some(error)
                    && final(self)@ == old(self)@,
            },
    {
        let current_used_bytes: usize = self.used_bytes;
        let replaced_bytes: usize = match self.get_entry(key.as_str()) {
            Some(existing) => existing.entry_size_bytes,
            None => 0,
        };
        proof {
            if self@.contains_key(key@) {
                total_size_remove(self@, key@);
            }
        }

        let remaining_bytes: usize = MEMTABLE_CAPACITY_BYTES.saturating_sub(
            current_used_bytes.saturating_sub(replaced_bytes),
        );

        if entry.entry_size_bytes > remaining_bytes {
            return Err(
                MemTableError::MemTableFull {
                    requested: entry.entry_size_bytes,
                    remaining: remaining_bytes,
                    capacity: MEMTABLE_CAPACITY_BYTES,
                },
            );
        }

        let updated_used_bytes: usize = current_used_bytes - replaced_bytes
            + entry.entry_size_bytes;
        let ghost text = entry.text();
        skiplist::insert(&mut self.entries, key, entry);
        self.used_bytes = updated_used_bytes;
        proof {
            total_size_insert(old(self)@, key@, text);
            assert(self@ =~= old(self)@.insert(key@, text));
        }
        Ok(())
    }
}

impl Default for MemTable {
    fn default() -> (table: Self)
        ensures
            table.wf(),
            table@ == Map::<Seq<char>, Option<Seq<char>>>::empty(),
    {
        Self::new()
    }
}

/// A lookup finds what the table has under the key, and nothing where it does not hold the key.
pub proof fn a_lookup_finds_the_latest_write(table: Table, key: Seq<char>)
    ensures
        table.contains_key(key) ==> lookup(table, key) == table[key],
        !table.contains_key(key) ==> lookup(table, key) is None,
{
}

/// An empty table takes no bytes. A new entry adds the bytes of its key and of its value and 60
/// more, a new tombstone those of its key and 60 more, and what an entry took is free once it is
/// gone.
pub proof fn each_entry_takes_its_bytes(table: Table, key: Seq<char>, text: Seq<char>)
    requires
        table.dom().finite(),
    ensures
        total_size(Map::<Seq<char>, Option<Seq<char>>>::empty()) == 0,
        total_size(table.insert(key, Some(text))) == total_size(table.remove(key)) + encode_utf8(
            key,
        ).len() + encode_utf8(text).len() + 60,
        total_size(table.insert(key, None)) == total_size(table.remove(key)) + encode_utf8(
            key,
        ).len() + 60,
        table.insert(key, Some(text)).remove(key) == table.remove(key),
        !table.contains_key(key) ==> table.remove(key) == table,
{
    assert(table.insert(key, Some(text)).remove(key) =~= table.remove(key));
    assert(table.insert(key, None).remove(key) =~= table.remove(key));
    if !table.contains_key(key) {
        assert(table.remove(key) =~= table);
    }
    total_size_remove(table.insert(key, Some(text)), key);
    total_size_remove(table.insert(key, None), key);
}

/// The bytes of `keys` and of the values that `table` has under them.
pub open spec fn content_size(table: Table, keys: Seq<Seq<char>>) -> nat
    decreases keys.len(),
{
    if keys.len() == 0 {
        0
    } else {
        content_size(table, keys.drop_last()) + encode_utf8(keys.last()).len() + (
        match table[keys.last()] {
            Some(text) => encode_utf8(text).len(),
            None => 0,
        })
    }
}

/// A table is charged all bytes of its keys and values, and 60 for each entry. What a memtable
/// holds therefore never comes to more than its capacity.
pub proof fn a_table_is_charged_all_its_bytes(table: Table, keys: Seq<Seq<char>>)
    requires
        table.dom().finite(),
        keys.no_duplicates(),
        forall|key: Seq<char>| keys.contains(key) <==> #[trigger] table.contains_key(key),
    ensures
        total_size(table) == content_size(table, keys) + 60 * keys.len(),
        valid_table(table) ==> content_size(table, keys) + 60 * keys.len() <= 4194304,
{
    let all = keys.to_set();
    assert(table.restrict(all) =~= table);
    chosen_entries_take_their_bytes(table, keys);
}

proof fn chosen_entries_take_their_bytes(table: Table, keys: Seq<Seq<char>>)
    requires
        table.dom().finite(),
        keys.no_duplicates(),
        forall|i: int| 0 <= i < keys.len() ==> table.contains_key(#[trigger] keys[i]),
    ensures
        table.restrict(keys.to_set()).dom().finite(),
        total_size(table.restrict(keys.to_set())) == content_size(table, keys) + 60 * keys.len(),
    decreases keys.len(),
{
    let part = table.restrict(keys.to_set());
    assert(part.dom() =~= table.dom().intersect(keys.to_set()));
    if keys.len() == 0 {
        assert(part =~= Map::<Seq<char>, Option<Seq<char>>>::empty());
    } else {
        let rest = keys.drop_last();
        let last = keys.last();
        chosen_entries_take_their_bytes(table, rest);
        assert(keys[keys.len() - 1] == last);
        assert(keys.to_set().contains(last));
        assert(part.remove(last) =~= table.restrict(rest.to_set())) by {
            assert forall|key: Seq<char>| #[trigger] rest.to_set().contains(key) <==> (
            keys.to_set().contains(key) && key != last) by {
                if rest.to_set().contains(key) {
                    let i = choose|i: int| 0 <= i < rest.len() && rest[i] == key;
                    assert(keys[i] == key);
                }
                if keys.to_set().contains(key) && key != last {
                    let i = choose|i: int| 0 <= i < keys.len() && keys[i] == key;
                    assert(rest[i] == key);
                }
            }
        }
        total_size_remove(part, last);
    }
}

/// A write that may be made at all is refused exactly where the table with it would be over its
/// capacity of 4194304 bytes. The refusal tells the bytes of the entry, and how many the other
/// entries leave.
pub proof fn a_write_is_refused_where_it_does_not_fit(
    table: Table,
    key: Seq<char>,
    value: Option<Seq<char>>,
)
    requires
        table.dom().finite(),
    ensures
        write_error(key, value) is Some ==> refusal(table, key, value) == write_error(key, value),
        write_error(key, value) is None && total_size(table.insert(key, value)) <= 4194304
            ==> refusal(table, key, value) is None,
        write_error(key, value) is None && total_size(table.insert(key, value)) > 4194304
            ==> refusal(table, key, value) == Some(
            MemTableError::MemTableFull {
                requested: (total_size(table.insert(key, value)) - total_size(
                    table.remove(key),
                )) as usize,
                remaining: (4194304 - total_size(table.remove(key))) as usize,
                capacity: 4194304,
            },
        ),
        fits(table, key, value) <==> total_size(table.insert(key, value)) <= 4194304,
{
    total_size_insert(table, key, value);
    if table.contains_key(key) {
        total_size_remove(table, key);
    } else {
        assert(table.remove(key) =~= table);
    }
}

/// A table that a memtable can hold has finitely many entries, takes at most 4194304 bytes, and
/// each of its entries may be written. Every such table is one.
pub proof fn valid_tables_keep_the_limits(table: Table)
    ensures
        valid_table(table) <==> {
            &&& table.dom().finite()
            &&& total_size(table) <= 4194304
            &&& forall|key: Seq<char>| #[trigger]
                table.contains_key(key) ==> write_error(key, table[key]) is None
        },
{
}

/// A snapshot holds every entry of the table once, in the ascending order of the keys' bytes, with
/// its value and its sizes.
pub proof fn a_snapshot_holds_every_entry_once(
    entries: Seq<(String, MemTableEntry)>,
    table: Table,
    key: Seq<char>,
)
    requires
        table.dom().finite(),
        is_snapshot(entries, table),
    ensures
        entries.len() == table.dom().len(),
        forall|i: int, j: int|
            0 <= i < j < entries.len() ==> bytes_lt(
                encode_utf8(#[trigger] entries[i].0@),
                encode_utf8(#[trigger] entries[j].0@),
            ),
        table.contains_key(key) <==> exists|i: int|
            0 <= i < entries.len() && #[trigger] entries[i].0@ == key,
        forall|i: int|
            0 <= i < entries.len() ==> {
                let (stored_key, entry) = #[trigger] entries[i];
                &&& table[stored_key@] == (match entry.value {
                    Some(value) => Some(value@),
                    None => None,
                })
                &&& entry.is_tombstone == (entry.value is None)
                &&& entry.key_size_bytes == encode_utf8(stored_key@).len()
                &&& entry.value_size_bytes == (match entry.value {
                    Some(value) => encode_utf8(value@).len(),
                    None => 0,
                })
                &&& entry.entry_size_bytes == entry.key_size_bytes + entry.value_size_bytes + 60
            },
{
    let listing = entries.map_values(|item: (String, MemTableEntry)| (item.0@, item.1.text()));
    assert forall|i: int| 0 <= i < entries.len() implies listing[i].0 == #[trigger] entries[i].0@
        && listing[i].1 == entries[i].1.text() by {}
    assert forall|i: int, j: int| 0 <= i < j < entries.len() implies bytes_lt(
        encode_utf8(#[trigger] entries[i].0@),
        encode_utf8(#[trigger] entries[j].0@),
    ) by {
        assert(key_lt(listing[i].0, listing[j].0));
    }
    if table.contains_key(key) {
        let i = choose|i: int| 0 <= i < listing.len() && #[trigger] listing[i].0 == key;
        assert(entries[i].0@ == key);
    }
    if exists|i: int| 0 <= i < entries.len() && #[trigger] entries[i].0@ == key {
        let i = choose|i: int| 0 <= i < entries.len() && #[trigger] entries[i].0@ == key;
        assert(table.contains_key(listing[i].0));
    }
    assert forall|i: int| 0 <= i < entries.len() implies ({
        let (stored_key, entry) = #[trigger] entries[i];
        table[stored_key@] == (match entry.value {
            Some(value) => Some(value@),
            None => None,
        })
    }) by {
        assert(table[listing[i].0] == listing[i].1);
    }
    let keys = entries.map_values(|item: (String, MemTableEntry)| item.0@);
    assert forall|i: int, j: int| 0 <= i < j < keys.len() implies keys[i] != keys[j] by {
        assert(key_lt(listing[i].0, listing[j].0));
        key_order_is_strict_and_total(keys[i], keys[j], keys[i]);
    }
    assert(keys.no_duplicates());
    keys.unique_seq_to_set();
    assert(keys.to_set() =~= table.dom()) by {
        assert forall|other: Seq<char>| keys.to_set().contains(other) <==> table.dom().contains(
            other,
        ) by {
            if keys.to_set().contains(other) {
                let i = choose|i: int| 0 <= i < keys.len() && keys[i] == other;
                assert(table.contains_key(listing[i].0));
            }
            if table.contains_key(other) {
                let i = choose|i: int| 0 <= i < listing.len() && #[trigger] listing[i].0 == other;
                assert(keys[i] == other);
            }
        }
    }
}

} // verus!
