//! The database: one memtable that takes writes, and the full ones before it.

use std::collections::VecDeque;
use std::sync::Arc;

use vstd::prelude::*;
use vstd::utf8::*;

use crate::entry::{entry_size, text_of, write_error, writes_are_checked_by_size};
use crate::entry::{LookupResult, MemTableEntry, MemTableError, MEMTABLE_CAPACITY_BYTES};
use crate::format::Fault;
use crate::memtable::{
    a_write_is_refused_where_it_does_not_fit, fits, len_is_at_most_total_size, replaced_size,
    total_size, total_size_insert, valid_table, writes_keep_a_table_valid, MemTable, Table,
};
use crate::sstable::{
    images, newest_stored, the_first_answer_of_tables_decides, Image, SstableError, SstableReader,
};

verus! {

/// Why the database refused a request.
#[derive(Debug, Clone, PartialEq, Eq)]
pub enum DbError {
    /// The database is closed.
    Closed,
    /// A memtable refused the write.
    MemTable(MemTableError),
}

/// Why a read over memtables and tables failed.
#[derive(Debug, Clone, PartialEq, Eq)]
pub enum ReadError {
    /// The database is closed.
    Closed,
    /// A table could not be read.
    Sstable(SstableError),
}

impl From<MemTableError> for DbError {
    fn from(error: MemTableError) -> (result: Self) {
        DbError::MemTable(error)
    }
}

impl vstd::std_specs::convert::FromSpecImpl<MemTableError> for DbError {
    open spec fn obeys_from_spec() -> bool {
        true
    }

    open spec fn from_spec(error: MemTableError) -> DbError {
        DbError::MemTable(error)
    }
}

/// What can be asked of a database.
pub enum Request {
    /// `put`, or `delete` where there is no value.
    Write { key: Seq<char>, value: Option<Seq<char>> },
    /// Any that changes nothing: `get`, `get_with_level0`, `len`, `is_empty`, `used_bytes`,
    /// `remaining_bytes`, `immutable_memtable_count` or `ensure_open`.
    Read,
    /// `pop_oldest_immutable_memtable`.
    PopOldest,
    /// `rotate_writable_memtable`.
    Rotate,
    /// `rotate_writable_memtable_if_current`.
    RotateIfCurrent { generation: u64 },
    /// `close`.
    Close,
}

/// The error of a request, `None` where it succeeded.
pub open spec fn error_of<T>(result: Result<T, DbError>) -> Option<DbError> {
    match result {
        Ok(_) => None,
        Err(error) => Some(error),
    }
}

/// The content of a database.
pub struct DbState {
    pub is_open: bool,
    /// The table that takes writes.
    pub writable: Table,
    /// The tables that no longer do, newest first.
    pub immutable: Seq<Table>,
    /// Which table takes writes: a number that changes when it is replaced.
    pub generation: u64,
}

impl DbState {
    /// All tables, newest first.
    pub open spec fn tables(self) -> Seq<Table> {
        seq![self.writable] + self.immutable
    }

    /// The content once the writable table is set aside and an empty one takes its place.
    pub open spec fn rotated(self) -> DbState {
        DbState {
            writable: Map::empty(),
            immutable: seq![self.writable] + self.immutable,
            generation: if self.generation == u64::MAX {
                0
            } else {
                (self.generation + 1) as u64
            },
            ..self
        }
    }

    /// The content once a write under `key` went to the writable table, or to a new one where
    /// that has no room.
    pub open spec fn written(self, key: Seq<char>, value: Option<Seq<char>>) -> DbState {
        let base = if fits(self.writable, key, value) {
            self
        } else {
            self.rotated()
        };
        DbState { writable: base.writable.insert(key, value), ..base }
    }

    /// The content once the writable table is set aside if it is the one of this generation.
    pub open spec fn rotated_if_current(self, generation: u64) -> DbState {
        if self.generation == generation {
            self.rotated()
        } else {
            self
        }
    }

    /// The content once that was done so many times for one generation.
    pub open spec fn rotated_if_current_times(self, generation: u64, times: nat) -> DbState
        decreases times,
    {
        if times == 0 {
            self
        } else {
            self.rotated_if_current_times(generation, (times - 1) as nat).rotated_if_current(
                generation,
            )
        }
    }

    /// The content once the table that was set aside first is taken out.
    pub open spec fn popped(self) -> DbState {
        DbState { immutable: self.immutable.drop_last(), ..self }
    }

    /// Why a request is refused, if it is. Want of room is no reason.
    pub open spec fn refuses(self, request: Request) -> Option<DbError> {
        if request is Rotate || request is RotateIfCurrent {
            None
        } else if !self.is_open {
            Some(DbError::Closed)
        } else {
            match request {
                Request::Write { key, value } => match write_error(key, value) {
                    Some(error) => Some(DbError::MemTable(error)),
                    None => None,
                },
                _ => None,
            }
        }
    }

    /// The content after a request.
    pub open spec fn after(self, request: Request) -> DbState {
        if self.refuses(request) is Some {
            self
        } else {
            match request {
                Request::Write { key, value } => self.written(key, value),
                Request::Read => self,
                Request::PopOldest => if self.immutable.len() == 0 {
                    self
                } else {
                    self.popped()
                },
                Request::Rotate => if self.writable == Map::<
                    Seq<char>,
                    Option<Seq<char>>,
                >::empty() {
                    self
                } else {
                    self.rotated()
                },
                Request::RotateIfCurrent { generation } => self.rotated_if_current(generation),
                Request::Close => DbState { is_open: false, ..self },
            }
        }
    }

    /// The content after requests one after another.
    pub open spec fn after_all(self, requests: Seq<Request>) -> DbState
        decreases requests.len(),
    {
        if requests.len() == 0 {
            self
        } else {
            self.after_all(requests.drop_last()).after(requests.last())
        }
    }

    /// What a lookup of `key` finds: what the newest table that holds the key has under it.
    pub open spec fn read(self, key: Seq<char>) -> Option<Seq<char>> {
        found(newest(self.tables(), key))
    }

    /// How many of the requests replace the writable table.
    pub open spec fn rotations(self, requests: Seq<Request>) -> nat
        decreases requests.len(),
    {
        if requests.len() == 0 {
            0
        } else {
            let before = self.after_all(requests.drop_last());
            self.rotations(requests.drop_last()) + (if before.after(requests.last()).generation
                != before.generation {
                1nat
            } else {
                0nat
            })
        }
    }

    /// The number of keys in all tables, a key in several of them counted in each.
    pub open spec fn len(self) -> nat {
        self.writable.dom().len() + total_len(self.immutable)
    }

    /// How many bytes the entries of all tables take.
    pub open spec fn used(self) -> nat {
        total_size(self.writable) + total_used(self.immutable)
    }

    /// Whether every table is one that a memtable can hold.
    pub open spec fn valid(self) -> bool {
        &&& valid_table(self.writable)
        &&& forall|i: int|
            0 <= i < self.immutable.len() ==> valid_table(#[trigger] self.immutable[i])
    }
}

/// What a lookup that ends at a write finds: its value. Nothing is found under a key that was
/// deleted, as under one that was never written.
pub open spec fn found(write: Option<Option<Seq<char>>>) -> Option<Seq<char>> {
    match write {
        Some(value) => value,
        None => None,
    }
}

/// The write that the first of `tables` that holds `key` has under it, `None` where none of
/// them holds the key.
pub open spec fn newest(tables: Seq<Table>, key: Seq<char>) -> Option<Option<Seq<char>>>
    decreases tables.len(),
{
    if tables.len() == 0 {
        None
    } else if tables.first().contains_key(key) {
        Some(tables.first()[key])
    } else {
        newest(tables.drop_first(), key)
    }
}

/// The newest write to `key` in the memtables of a database and then in the tables written from
/// older ones, newest first.
pub open spec fn newest_in_all(db: DbState, level0: Seq<Image>, key: Seq<char>) -> Result<
    Option<Option<Seq<char>>>,
    Fault,
> {
    match newest(db.tables(), key) {
        Some(value) => Ok(Some(value)),
        None => newest_stored(level0, key),
    }
}

/// The number of keys in `tables`, a key in several of them counted in each.
pub open spec fn total_len(tables: Seq<Table>) -> nat
    decreases tables.len(),
{
    if tables.len() == 0 {
        0
    } else {
        total_len(tables.drop_last()) + tables.last().dom().len()
    }
}

/// How many bytes the entries of `tables` take together.
pub open spec fn total_used(tables: Seq<Table>) -> nat
    decreases tables.len(),
{
    if tables.len() == 0 {
        0
    } else {
        total_used(tables.drop_last()) + total_size(tables.last())
    }
}

/// A key-value store in memory.
#[derive(Debug)]
pub struct Db {
    writable_memtable: MemTable,
    immutable_memtables: VecDeque<Arc<MemTable>>,
    generation: u64,
    is_open: bool,
}

impl View for Db {
    type V = DbState;

    closed spec fn view(&self) -> DbState {
        DbState {
            is_open: self.is_open,
            writable: self.writable_memtable@,
            immutable: self.immutable_memtables@.map_values(|table: Arc<MemTable>| table@),
            generation: self.generation,
        }
    }
}

impl Db {
    /// Every memtable is well-formed.
    pub closed spec fn wf(&self) -> bool {
        &&& self.writable_memtable.wf()
        &&& forall|i: int|
            0 <= i < self.immutable_memtables@.len() ==> (
            #[trigger] self.immutable_memtables@[i]).wf()
    }

    /// No table holds more than it has room for, nor an entry that may not be written.
    pub proof fn holds_valid_tables(&self)
        requires
            self.wf(),
        ensures
            self@.valid(),
    {
        self.writable_memtable.holds_a_valid_table();
        assert forall|i: int| 0 <= i < self@.immutable.len() implies valid_table(
            #[trigger] self@.immutable[i],
        ) by {
            self.immutable_memtables@[i].holds_a_valid_table();
        }
    }

    /// An open database without entries.
    pub fn open() -> (db: Self)
        ensures
            db.wf(),
            db@.is_open,
            db@.writable == Map::<Seq<char>, Option<Seq<char>>>::empty(),
            db@.immutable == Seq::<Table>::empty(),
            db@.generation == 0,
    {
        let db = Self {
            writable_memtable: MemTable::new(),
            immutable_memtables: VecDeque::new(),
            generation: 0,
            is_open: true,
        };
        assert(db@.immutable =~= Seq::<Table>::empty());
        db
    }

    /// Refuses where the database is closed.
    pub fn ensure_open(&self) -> (result: Result<(), DbError>)
        ensures
            error_of(result) == self@.refuses(Request::Read),
    {
        if self.is_open {
            Ok(())
        } else {
            Err(DbError::Closed)
        }
    }

    /// Closes the database, for good.
    pub fn close(&mut self) -> (result: Result<(), DbError>)
        requires
            old(self).wf(),
        ensures
            final(self).wf(),
            error_of(result) == old(self)@.refuses(Request::Close),
            final(self)@ == old(self)@.after(Request::Close),
    {
        match self.ensure_open() {
            Ok(()) => {},
            Err(error) => return Err(error),
        }
        self.is_open = false;
        Ok(())
    }

    /// Stores `value` under `key`.
    pub fn put(&mut self, key: String, value: String) -> (result: Result<(), DbError>)
        requires
            old(self).wf(),
        ensures
            final(self).wf(),
            error_of(result) == old(self)@.refuses(
                Request::Write { key: key@, value: Some(value@) },
            ),
            final(self)@ == old(self)@.after(Request::Write { key: key@, value: Some(value@) }),
            result is Ok ==> {
                &&& final(self)@.writable.contains_key(key@)
                &&& final(self)@.writable[key@] == Some(value@)
                &&& final(self)@.read(key@) == Some(value@)
                &&& forall|other: Seq<char>|
                    other != key@ ==> #[trigger] final(self)@.read(other) == old(self)@.read(other)
            },
            result is Err ==> final(self)@ == old(self)@,
    {
        proof {
            if self@.refuses(Request::Write { key: key@, value: Some(value@) }) is None {
                assert forall|other: Seq<char>| other != key@ implies #[trigger] self@.after(
                    Request::Write { key: key@, value: Some(value@) },
                ).read(other) == self@.read(other) by {
                    an_accepted_write_is_read_back(self@, key@, Some(value@), other);
                }
                an_accepted_write_is_read_back(self@, key@, Some(value@), key@);
            }
        }
        match self.ensure_open() {
            Ok(()) => self.write_with_rotation(key, Some(value)),
            Err(error) => Err(error),
        }
    }

    /// The value under `key`.
    pub fn get(&self, key: &str) -> (result: Result<LookupResult, DbError>)
        requires
            self.wf(),
        ensures
            error_of(result) == self@.refuses(Request::Read),
            result matches Ok(found) ==> found@ == self@.read(key@),
    {
        match self.ensure_open() {
            Ok(()) => {},
            Err(error) => return Err(error),
        }
        match self.newest_entry(key) {
            Some(entry) => Ok(entry.to_lookup_result()),
            None => Ok(LookupResult::NotFound),
        }
    }

    /// The value under `key` in the memtables or, where none of them holds the key, in the tables
    /// of level 0, which are asked newest first.
    pub fn get_with_level0(&self, key: &str, level0: &Vec<SstableReader>) -> (result: Result<
        LookupResult,
        ReadError,
    >)
        requires
            self.wf(),
        ensures
            match result {
                Ok(value) => {
                    let write = newest_in_all(self@, images(level0@), key@);
                    self@.is_open && write is Ok && value@ == found(write->Ok_0)
                },
                Err(ReadError::Closed) => !self@.is_open,
                Err(ReadError::Sstable(error)) => {
                    let write = newest_in_all(self@, images(level0@), key@);
                    self@.is_open && write is Err && error@ == write->Err_0
                },
            },
    {
        match self.ensure_open() {
            Ok(()) => {},
            Err(_) => return Err(ReadError::Closed),
        }
        match self.newest_entry(key) {
            Some(entry) => return Ok(entry.to_lookup_result()),
            None => {},
        }

        let ghost tables = images(level0@);
        assert(tables.skip(0) =~= tables);
        let mut i: usize = 0;
        while i < level0.len()
            invariant
                self@.is_open,
                i <= level0@.len(),
                tables == images(level0@),
                newest_in_all(self@, tables, key@) == newest_stored(tables.skip(i as int), key@),
            decreases level0@.len() - i,
        {
            let ghost rest = tables.skip(i as int);
            assert(rest.drop_first() =~= tables.skip(i + 1));
            match level0[i].get(key) {
                Ok(Some(record)) => return Ok(record.to_lookup_result()),
                Ok(None) => {},
                Err(error) => return Err(ReadError::Sstable(error)),
            }
            i += 1;
        }
        Ok(LookupResult::NotFound)
    }

    /// The entry that the newest memtable that holds `key` has under it, a tombstone included.
    fn newest_entry(&self, key: &str) -> (result: Option<MemTableEntry>)
        requires
            self.wf(),
        ensures
            newest(self@.tables(), key@) == (match result {
                Some(entry) => Some(entry.text()),
                None => None,
            }),
    {
        let (writable_memtable, immutable_memtables) = self.memtable_snapshot();
        let ghost tables = self@.tables();

        match writable_memtable.get_entry(key) {
            Some(entry) => return Some(entry),
            None => {},
        }

        assert(tables.drop_first() =~= self@.immutable);
        assert(self@.immutable.skip(0) =~= self@.immutable);
        let mut i: usize = 0;
        while i < immutable_memtables.len()
            invariant
                self.wf(),
                i <= immutable_memtables@.len(),
                immutable_memtables@ == self.immutable_memtables@,
                newest(self@.tables(), key@) == newest(self@.immutable.skip(i as int), key@),
            decreases immutable_memtables@.len() - i,
        {
            assert(immutable_memtables@[i as int].wf());
            let ghost rest = self@.immutable.skip(i as int);
            assert(rest.drop_first() =~= self@.immutable.skip(i + 1));
            match immutable_memtables[i].get_entry(key) {
                Some(entry) => return Some(entry),
                None => {},
            }
            i += 1;
        }

        None
    }

    /// Records that `key` is deleted, whether or not it has a value.
    pub fn delete(&mut self, key: String) -> (result: Result<(), DbError>)
        requires
            old(self).wf(),
        ensures
            final(self).wf(),
            error_of(result) == old(self)@.refuses(
                Request::Write { key: key@, value: None },
            ),
            final(self)@ == old(self)@.after(Request::Write { key: key@, value: None }),
            result is Ok ==> {
                &&& final(self)@.writable.contains_key(key@)
                &&& final(self)@.writable[key@] == None::<Seq<char>>
                &&& final(self)@.read(key@) == None::<Seq<char>>
                &&& forall|other: Seq<char>|
                    other != key@ ==> #[trigger] final(self)@.read(other) == old(self)@.read(other)
            },
            result is Err ==> final(self)@ == old(self)@,
    {
        proof {
            if self@.refuses(Request::Write { key: key@, value: None }) is None {
                assert forall|other: Seq<char>| other != key@ implies #[trigger] self@.after(
                    Request::Write { key: key@, value: None },
                ).read(other) == self@.read(other) by {
                    an_accepted_write_is_read_back(self@, key@, None, other);
                }
                an_accepted_write_is_read_back(self@, key@, None, key@);
            }
        }
        match self.ensure_open() {
            Ok(()) => self.write_with_rotation(key, None),
            Err(error) => Err(error),
        }
    }

    /// The number of keys in all memtables, a key in several of them counted in each. It must
    /// fit the result; `totals_are_bounded` bounds it by the number of memtables.
    pub fn len(&self) -> (result: Result<usize, DbError>)
        requires
            self.wf(),
            self@.is_open ==> self@.len() <= usize::MAX,
        ensures
            error_of(result) == self@.refuses(Request::Read),
            result matches Ok(count) ==> count == self@.len(),
    {
        match self.ensure_open() {
            Ok(()) => {},
            Err(error) => return Err(error),
        }
        let (writable_memtable, immutable_memtables) = self.memtable_snapshot();
        let ghost tables = self@.immutable;

        let mut count: usize = writable_memtable.len();
        let mut i: usize = 0;
        while i < immutable_memtables.len()
            invariant
                self.wf(),
                tables == self@.immutable,
                i <= immutable_memtables@.len(),
                immutable_memtables@ == self.immutable_memtables@,
                count == self@.writable.dom().len() + total_len(tables.take(i as int)),
                self@.len() <= usize::MAX,
            decreases immutable_memtables@.len() - i,
        {
            assert(immutable_memtables@[i as int].wf());
            proof {
                assert(tables.take(i + 1).drop_last() =~= tables.take(i as int));
                total_len_take(tables, i + 1);
            }
            count += immutable_memtables[i].len();
            i += 1;
        }
        assert(tables.take(i as int) =~= tables);
        Ok(count)
    }

    /// Whether no memtable holds a key.
    pub fn is_empty(&self) -> (result: Result<bool, DbError>)
        requires
            self.wf(),
            self@.is_open ==> self@.len() <= usize::MAX,
        ensures
            error_of(result) == self@.refuses(Request::Read),
            result matches Ok(empty) ==> empty == (self@.len() == 0),
    {
        match self.len() {
            Ok(count) => Ok(count == 0),
            Err(error) => Err(error),
        }
    }

    /// How many bytes the entries of all memtables take. They must fit the result;
    /// `totals_are_bounded` bounds them by the number of memtables.
    pub fn used_bytes(&self) -> (result: Result<usize, DbError>)
        requires
            self.wf(),
            self@.is_open ==> self@.used() <= usize::MAX,
        ensures
            error_of(result) == self@.refuses(Request::Read),
            result matches Ok(bytes) ==> bytes == self@.used(),
    {
        match self.ensure_open() {
            Ok(()) => {},
            Err(error) => return Err(error),
        }
        let (writable_memtable, immutable_memtables) = self.memtable_snapshot();
        let ghost tables = self@.immutable;

        let mut bytes: usize = writable_memtable.used_bytes();
        let mut i: usize = 0;
        while i < immutable_memtables.len()
            invariant
                self.wf(),
                tables == self@.immutable,
                i <= immutable_memtables@.len(),
                immutable_memtables@ == self.immutable_memtables@,
                bytes == total_size(self@.writable) + total_used(tables.take(i as int)),
                self@.used() <= usize::MAX,
            decreases immutable_memtables@.len() - i,
        {
            assert(immutable_memtables@[i as int].wf());
            proof {
                assert(tables.take(i + 1).drop_last() =~= tables.take(i as int));
                total_used_take(tables, i + 1);
            }
            bytes += immutable_memtables[i].used_bytes();
            i += 1;
        }
        assert(tables.take(i as int) =~= tables);
        Ok(bytes)
    }

    /// How many bytes the writable memtable has left.
    pub fn remaining_bytes(&self) -> (result: Result<usize, DbError>)
        requires
            self.wf(),
        ensures
            error_of(result) == self@.refuses(Request::Read),
            result matches Ok(bytes) ==> bytes == MEMTABLE_CAPACITY_BYTES - total_size(
                self@.writable,
            ),
    {
        match self.ensure_open() {
            Ok(()) => Ok(self.current_writable_memtable().remaining_bytes()),
            Err(error) => Err(error),
        }
    }

    /// The number of memtables that no longer take writes.
    pub fn immutable_memtable_count(&self) -> (result: Result<usize, DbError>)
        requires
            self.wf(),
        ensures
            error_of(result) == self@.refuses(Request::Read),
            result matches Ok(count) ==> count == self@.immutable.len(),
    {
        match self.ensure_open() {
            Ok(()) => Ok(self.immutable_memtables.len()),
            Err(error) => Err(error),
        }
    }

    /// Takes out the memtable that has been immutable for longest.
    pub fn pop_oldest_immutable_memtable(&mut self) -> (result: Result<
        Option<Arc<MemTable>>,
        DbError,
    >)
        requires
            old(self).wf(),
        ensures
            final(self).wf(),
            error_of(result) == old(self)@.refuses(Request::PopOldest),
            final(self)@ == old(self)@.after(Request::PopOldest),
            result matches Ok(popped) ==> match popped {
                Some(table) => {
                    &&& old(self)@.immutable.len() > 0
                    &&& table.wf()
                    &&& table@ == old(self)@.immutable.last()
                    &&& final(self)@.immutable == old(self)@.immutable.drop_last()
                    &&& final(self)@.writable == old(self)@.writable
                },
                None => old(self)@.immutable.len() == 0 && final(self)@ == old(self)@,
            },
    {
        match self.ensure_open() {
            Ok(()) => {},
            Err(error) => return Err(error),
        }
        let popped = self.immutable_memtables.pop_back();
        proof {
            if popped is Some {
                assert(self@.immutable =~= old(self)@.immutable.drop_last());
            }
        }
        Ok(popped)
    }

    /// Makes one write, in a new memtable where the writable one has no room.
    fn write_with_rotation(&mut self, key: String, value: Option<String>) -> (result: Result<
        (),
        DbError,
    >)
        requires
            old(self).wf(),
            old(self)@.is_open,
        ensures
            final(self).wf(),
            error_of(result) == old(self)@.refuses(
                Request::Write { key: key@, value: text_of(value) },
            ),
            final(self)@ == old(self)@.after(Request::Write { key: key@, value: text_of(value) }),
    {
        let ghost text = text_of(value);
        let ghost mut attempts_left: int = 2;
        loop
            invariant
                self.wf(),
                old(self)@.is_open,
                text == text_of(value),
                0 <= attempts_left <= 2,
                attempts_left == 2 ==> self@ == old(self)@,
                attempts_left < 2 ==> self@ == old(self)@.rotated() && write_error(key@, text)
                    is None && !fits(old(self)@.writable, key@, text),
                attempts_left == 0 ==> false,
            decreases attempts_left,
        {
            let generation: u64 = self.generation;
            let ghost before = self@;
            let attempt = match &value {
                Some(value) => self.writable_memtable.put(key.clone(), value.clone()),
                None => self.writable_memtable.delete(key.clone()),
            };
            assert(self@.immutable =~= before.immutable);
            match attempt {
                Ok(()) => return Ok(()),
                Err(MemTableError::MemTableFull { requested, remaining, capacity }) => {
                    proof {
                        if attempts_left < 2 {
                            empty_table_fits(key@, text);
                        }
                        attempts_left = attempts_left - 1;
                    }
                    self.rotate_writable_memtable_if_current(generation);
                },
                Err(error) => return Err(DbError::from(error)),
            }
        }
    }

    /// The memtable that takes writes.
    fn current_writable_memtable(&self) -> (result: &MemTable)
        ensures
            result@ == self@.writable,
            self.wf() ==> result.wf(),
    {
        &self.writable_memtable
    }

    /// The writable memtable, and the immutable ones newest first.
    fn memtable_snapshot(&self) -> (result: (&MemTable, Vec<Arc<MemTable>>))
        ensures
            *result.0 == self.writable_memtable,
            result.1@ == self.immutable_memtables@,
    {
        let mut immutable_memtables: Vec<Arc<MemTable>> = Vec::new();
        let mut i: usize = 0;
        while i < self.immutable_memtables.len()
            invariant
                i <= self.immutable_memtables@.len(),
                immutable_memtables@ == self.immutable_memtables@.take(i as int),
            decreases self.immutable_memtables@.len() - i,
        {
            immutable_memtables.push(Arc::clone(&self.immutable_memtables[i]));
            assert(immutable_memtables@ =~= self.immutable_memtables@.take(i + 1));
            i += 1;
        }
        assert(self.immutable_memtables@.take(i as int) =~= self.immutable_memtables@);
        (&self.writable_memtable, immutable_memtables)
    }

    /// Which memtable takes writes: a number that changes when it is replaced.
    pub fn generation(&self) -> (result: u64)
        ensures
            result == self@.generation,
    {
        self.generation
    }

    /// Sets the writable memtable aside if it is still the one of this generation.
    pub fn rotate_writable_memtable_if_current(&mut self, generation: u64)
        requires
            old(self).wf(),
        ensures
            final(self).wf(),
            final(self)@ == old(self)@.rotated_if_current(generation),
            final(self)@ == old(self)@.after(Request::RotateIfCurrent { generation }),
    {
        if self.generation != generation {
            return;
        }
        let _ = self.replace_writable_memtable();
    }

    /// Sets the writable memtable aside if it holds anything, and returns it.
    pub fn rotate_writable_memtable(&mut self) -> (result: Option<Arc<MemTable>>)
        requires
            old(self).wf(),
        ensures
            final(self).wf(),
            final(self)@ == old(self)@.after(Request::Rotate),
            match result {
                Some(table) => {
                    &&& old(self)@.writable != Map::<Seq<char>, Option<Seq<char>>>::empty()
                    &&& table.wf()
                    &&& table@ == old(self)@.writable
                },
                None => old(self)@.writable == Map::<Seq<char>, Option<Seq<char>>>::empty(),
            },
    {
        if self.writable_memtable.is_empty() {
            return None;
        }
        Some(self.replace_writable_memtable())
    }

    /// Sets the writable memtable aside, in front of those set aside before, and returns it.
    fn replace_writable_memtable(&mut self) -> (result: Arc<MemTable>)
        requires
            old(self).wf(),
        ensures
            final(self).wf(),
            result.wf(),
            result@ == old(self)@.writable,
            final(self)@ == old(self)@.rotated(),
    {
        let mut memtable = MemTable::new();
        std::mem::swap(&mut memtable, &mut self.writable_memtable);
        let frozen_memtable = Arc::new(memtable);
        self.immutable_memtables.push_front(Arc::clone(&frozen_memtable));
        self.generation = self.generation.wrapping_add(1);
        assert(self@.immutable =~= old(self)@.rotated().immutable);
        frozen_memtable
    }
}

impl Default for Db {
    fn default() -> (db: Self)
        ensures
            db.wf(),
            db@.is_open,
            db@.writable == Map::<Seq<char>, Option<Seq<char>>>::empty(),
            db@.immutable == Seq::<Table>::empty(),
            db@.generation == 0,
    {
        Self::open()
    }
}

/// An empty memtable has room for every entry that may be written.
pub proof fn empty_table_fits(key: Seq<char>, value: Option<Seq<char>>)
    requires
        write_error(key, value) is None,
    ensures
        fits(Map::empty(), key, value),
{
}

/// Some of the tables hold no more keys than all of them.
proof fn total_len_take(tables: Seq<Table>, i: int)
    requires
        0 <= i <= tables.len(),
    ensures
        total_len(tables.take(i)) <= total_len(tables),
    decreases tables.len(),
{
    if i < tables.len() {
        total_len_take(tables.drop_last(), i);
        assert(tables.drop_last().take(i) =~= tables.take(i));
    } else {
        assert(tables.take(i) =~= tables);
    }
}

/// Some of the tables take no more bytes than all of them.
proof fn total_used_take(tables: Seq<Table>, i: int)
    requires
        0 <= i <= tables.len(),
    ensures
        total_used(tables.take(i)) <= total_used(tables),
    decreases tables.len(),
{
    if i < tables.len() {
        total_used_take(tables.drop_last(), i);
        assert(tables.drop_last().take(i) =~= tables.take(i));
    } else {
        assert(tables.take(i) =~= tables);
    }
}

/// A write is read back, and the other keys keep what they had, whether or not the write went
/// to a new table. A deletion so hides the values of the key in all older tables.
pub proof fn a_write_is_read_back(
    db: DbState,
    key: Seq<char>,
    value: Option<Seq<char>>,
    other: Seq<char>,
)
    ensures
        newest(db.written(key, value).tables(), key) == Some(value),
        db.written(key, value).read(key) == value,
        other != key ==> newest(db.written(key, value).tables(), other) == newest(
            db.tables(),
            other,
        ),
        other != key ==> db.written(key, value).read(other) == db.read(other),
{
    let after = db.written(key, value);
    assert(after.tables().drop_first() =~= after.immutable);
    if fits(db.writable, key, value) {
        assert(db.tables().drop_first() =~= db.immutable);
    } else {
        assert(after.immutable =~= db.tables());
    }
}

/// Setting the writable table aside changes no read.
pub proof fn rotation_keeps_reads(db: DbState, key: Seq<char>)
    ensures
        newest(db.rotated().tables(), key) == newest(db.tables(), key),
        db.rotated().read(key) == db.read(key),
{
    assert(db.rotated().tables().drop_first() =~= db.tables());
}

/// Setting the writable table aside changes neither the number of keys nor the bytes in use.
pub proof fn rotation_keeps_totals(db: DbState)
    ensures
        db.rotated().len() == db.len(),
        db.rotated().used() == db.used(),
{
    totals_with_front(db.writable, db.immutable);
}

/// However often the table of one generation is to be set aside, it is once: one more table is
/// immutable where that generation was current, and nothing changes where it was not. Reads and
/// totals stay the same.
pub proof fn a_generation_is_set_aside_once(
    db: DbState,
    generation: u64,
    times: nat,
    key: Seq<char>,
)
    requires
        times > 0,
    ensures
        db.rotated_if_current_times(generation, times) == db.rotated_if_current(generation),
        db.rotated_if_current(generation).immutable.len() == db.immutable.len() + (if db.generation
            == generation {
            1nat
        } else {
            0nat
        }),
        newest(db.rotated_if_current(generation).tables(), key) == newest(db.tables(), key),
        db.rotated_if_current(generation).read(key) == db.read(key),
        db.rotated_if_current(generation).len() == db.len(),
        db.rotated_if_current(generation).used() == db.used(),
    decreases times,
{
    rotation_keeps_reads(db, key);
    rotation_keeps_totals(db);
    if times > 1 {
        a_generation_is_set_aside_once(db, generation, (times - 1) as nat, key);
    } else {
        assert(db.rotated_if_current_times(generation, 0) == db);
    }
}

/// A generation does not come back before all others were there: where the generation is the same
/// after some requests as before them, none of them replaced the writable table.
pub proof fn a_generation_stands_for_one_table(db: DbState, requests: Seq<Request>)
    requires
        requests.len() <= u64::MAX,
    ensures
        db.after_all(requests).generation == db.generation ==> db.rotations(requests) == 0,
{
    generations_count_rotations(db, requests);
}

proof fn generations_count_rotations(db: DbState, requests: Seq<Request>)
    requires
        requests.len() <= u64::MAX,
    ensures
        db.rotations(requests) <= requests.len(),
        db.after_all(requests).generation == (if db.generation + db.rotations(requests)
            <= u64::MAX {
            db.generation + db.rotations(requests)
        } else {
            db.generation + db.rotations(requests) - u64::MAX - 1
        }),
    decreases requests.len(),
{
    if requests.len() > 0 {
        generations_count_rotations(db, requests.drop_last());
    }
}

/// Tables are taken out in the order in which they were set aside: a table that is set aside
/// waits behind all that were before it, which keep their order.
pub proof fn tables_leave_oldest_first(db: DbState)
    ensures
        db.rotated().immutable.last() == (if db.immutable.len() == 0 {
            db.writable
        } else {
            db.immutable.last()
        }),
        db.immutable.len() > 0 ==> db.rotated().popped() == db.popped().rotated(),
{
    if db.immutable.len() > 0 {
        assert(db.rotated().immutable.drop_last() =~= seq![db.writable]
            + db.immutable.drop_last());
    }
}

/// A write that is not refused leaves every table within its capacity, and sets aside at most
/// one table.
pub proof fn writes_keep_tables_valid(db: DbState, key: Seq<char>, value: Option<Seq<char>>)
    requires
        db.valid(),
        write_error(key, value) is None,
    ensures
        db.written(key, value).valid(),
        db.written(key, value).immutable.len() <= db.immutable.len() + 1,
{
    let after = db.written(key, value);
    if fits(db.writable, key, value) {
        writes_keep_a_table_valid(db.writable, key, value);
    } else {
        empty_table_fits(key, value);
        writes_keep_a_table_valid(Map::empty(), key, value);
        assert forall|i: int| 0 <= i < after.immutable.len() implies valid_table(
            #[trigger] after.immutable[i],
        ) by {
            if i > 0 {
                assert(after.immutable[i] == db.immutable[i - 1]);
            }
        }
    }
}

/// A write adds one key, unless it replaces one in the table it goes to, and charges its entry
/// less the one it replaces there.
pub proof fn a_write_is_counted(db: DbState, key: Seq<char>, value: Option<Seq<char>>)
    requires
        db.valid(),
    ensures
        db.written(key, value).len() == db.len() + (if fits(db.writable, key, value)
            && db.writable.contains_key(key) {
            0nat
        } else {
            1nat
        }),
        db.written(key, value).used() == db.used() + entry_size(key, value) - (if fits(
            db.writable,
            key,
            value,
        ) {
            replaced_size(db.writable, key)
        } else {
            0nat
        }),
{
    if fits(db.writable, key, value) {
        total_size_insert(db.writable, key, value);
    } else {
        total_size_insert(Map::empty(), key, value);
        totals_with_front(db.writable, db.immutable);
    }
}

/// The keys are no more than the bytes, and these no more than the tables have room for.
pub proof fn totals_are_bounded(db: DbState)
    requires
        db.valid(),
    ensures
        db.len() <= db.used(),
        db.used() <= MEMTABLE_CAPACITY_BYTES * (db.immutable.len() + 1),
{
    len_is_at_most_total_size(db.writable);
    totals_of_valid_tables(db.immutable);
    capacity_of_one_more(db.immutable.len() as int);
}

/// A closed database stays closed, whatever is asked of it, and answers every request but a
/// rotation with `Closed` and without a change.
pub proof fn closing_is_for_good(db: DbState, requests: Seq<Request>, request: Request)
    requires
        !db.is_open,
    ensures
        !db.after_all(requests).is_open,
        !(request is Rotate || request is RotateIfCurrent) ==> {
            &&& db.after_all(requests).refuses(request) == Some(DbError::Closed)
            &&& db.after_all(requests).after(request) == db.after_all(requests)
        },
    decreases requests.len(),
{
    if requests.len() > 0 {
        closing_is_for_good(db, requests.drop_last(), requests.last());
    }
}

/// An open database is closed after some requests exactly where one of them closed it.
pub proof fn only_closing_closes(db: DbState, requests: Seq<Request>)
    requires
        db.is_open,
    ensures
        !db.after_all(requests).is_open <==> exists|i: int|
            0 <= i < requests.len() && (#[trigger] requests[i]) is Close && db.after_all(
                requests.take(i),
            ).refuses(Request::Close) is None,
    decreases requests.len(),
{
    if requests.len() > 0 {
        let rest = requests.drop_last();
        let last = requests.len() - 1;
        only_closing_closes(db, rest);
        assert(requests.take(last) =~= rest);
        assert forall|i: int| 0 <= i < last implies requests.take(i) == #[trigger] rest.take(i) by {
            assert(requests.take(i) =~= rest.take(i));
        }
        if !db.after_all(rest).is_open {
            let i = choose|i: int|
                0 <= i < rest.len() && (#[trigger] rest[i]) is Close && db.after_all(
                    rest.take(i),
                ).refuses(Request::Close) is None;
            assert(rest.take(i) == requests.take(i));
            assert(requests[i] is Close);
            closing_is_for_good(db.after_all(rest), seq![], Request::Read);
        } else {
            if requests.last() is Close {
                assert(requests[last] is Close);
            }
            assert forall|i: int| 0 <= i < last && (#[trigger] requests[i]) is Close implies
                db.after_all(requests.take(i)).refuses(Request::Close) is Some by {
                assert(rest.take(i) == requests.take(i));
                assert(rest[i] is Close);
            }
        }
    }
}

proof fn totals_of_valid_tables(tables: Seq<Table>)
    requires
        forall|i: int| 0 <= i < tables.len() ==> valid_table(#[trigger] tables[i]),
    ensures
        total_len(tables) <= total_used(tables),
        total_used(tables) <= MEMTABLE_CAPACITY_BYTES * tables.len(),
    decreases tables.len(),
{
    if tables.len() > 0 {
        totals_of_valid_tables(tables.drop_last());
        assert(valid_table(tables[tables.len() - 1]));
        len_is_at_most_total_size(tables.last());
        capacity_of_one_more(tables.len() - 1);
    }
}

proof fn capacity_of_one_more(n: int)
    ensures
        MEMTABLE_CAPACITY_BYTES * (n + 1) == MEMTABLE_CAPACITY_BYTES * n + MEMTABLE_CAPACITY_BYTES,
{
    let capacity = MEMTABLE_CAPACITY_BYTES as int;
    assert(capacity * (n + 1) == capacity * n + capacity) by (nonlinear_arith);
}

/// A table counts the same in front as behind.
proof fn totals_with_front(table: Table, tables: Seq<Table>)
    ensures
        total_len(seq![table] + tables) == table.dom().len() + total_len(tables),
        total_used(seq![table] + tables) == total_size(table) + total_used(tables),
    decreases tables.len(),
{
    let all = seq![table] + tables;
    if tables.len() == 0 {
        assert(all.drop_last() =~= Seq::<Table>::empty());
        assert(total_len(all.drop_last()) == 0);
        assert(total_used(all.drop_last()) == 0);
    } else {
        totals_with_front(table, tables.drop_last());
        assert(all.drop_last() =~= seq![table] + tables.drop_last());
        assert(all.last() == tables.last());
    }
}

/// The tables of a database are the writable one and then the immutable ones in their order.
pub proof fn the_writable_table_is_the_newest(db: DbState, i: int)
    requires
        0 <= i < db.immutable.len(),
    ensures
        db.tables().len() == db.immutable.len() + 1,
        db.tables()[0] == db.writable,
        db.tables()[i + 1] == db.immutable[i],
{
}

/// Of several tables the first that holds the key decides, wherever it stands.
pub proof fn the_first_holder_decides(tables: Seq<Table>, key: Seq<char>, i: int)
    requires
        0 <= i <= tables.len(),
        forall|j: int| 0 <= j < i ==> !(#[trigger] tables[j]).contains_key(key),
    ensures
        i == tables.len() ==> newest(tables, key) is None,
        i < tables.len() && tables[i].contains_key(key) ==> newest(tables, key) == Some(
            tables[i][key],
        ),
    decreases i,
{
    if i > 0 {
        let rest = tables.drop_first();
        assert(!tables[0].contains_key(key));
        assert forall|j: int| 0 <= j < i - 1 implies !(#[trigger] rest[j]).contains_key(key) by {
            assert(rest[j] == tables[j + 1]);
        }
        the_first_holder_decides(rest, key, i - 1);
        if i < tables.len() {
            assert(rest[i - 1] == tables[i]);
        }
    }
}

/// A read gives what the writable table has under the key, else what the newest immutable table
/// that holds the key has, however many there are, and nothing where none holds it. Under a
/// tombstone nothing is found.
pub proof fn a_read_gives_the_newest_write(db: DbState, key: Seq<char>, i: int)
    requires
        0 <= i <= db.immutable.len(),
        forall|j: int| 0 <= j < i ==> !(#[trigger] db.immutable[j]).contains_key(key),
    ensures
        db.writable.contains_key(key) ==> db.read(key) == db.writable[key],
        !db.writable.contains_key(key) && i < db.immutable.len() && db.immutable[i].contains_key(
            key,
        ) ==> db.read(key) == db.immutable[i][key],
        !db.writable.contains_key(key) && i == db.immutable.len() ==> db.read(key) is None,
{
    let tables = db.tables();
    if db.writable.contains_key(key) {
        the_first_holder_decides(tables, key, 0);
    } else {
        assert forall|j: int| 0 <= j < i + 1 implies !(#[trigger] tables[j]).contains_key(key) by {
            if j > 0 {
                assert(tables[j] == db.immutable[j - 1]);
            }
        }
        the_first_holder_decides(tables, key, i + 1);
    }
}

/// A read over memtables and tables gives the write of the newest memtable that holds the key,
/// whatever the tables hold. Without tables it is the read of the memtables.
pub proof fn memtables_are_read_before_tables(
    db: DbState,
    level0: Seq<Image>,
    key: Seq<char>,
    i: int,
)
    requires
        0 <= i <= db.immutable.len(),
        forall|j: int| 0 <= j < i ==> !(#[trigger] db.immutable[j]).contains_key(key),
    ensures
        db.writable.contains_key(key) ==> newest_in_all(db, level0, key) == Ok::<
            Option<Option<Seq<char>>>,
            Fault,
        >(Some(db.writable[key])),
        !db.writable.contains_key(key) && i < db.immutable.len() && db.immutable[i].contains_key(
            key,
        ) ==> newest_in_all(db, level0, key) == Ok::<Option<Option<Seq<char>>>, Fault>(
            Some(db.immutable[i][key]),
        ),
        newest_in_all(db, Seq::empty(), key) matches Ok(write) && found(write) == db.read(key),
{
    let tables = db.tables();
    if db.writable.contains_key(key) {
        the_first_holder_decides(tables, key, 0);
    } else {
        assert forall|j: int| 0 <= j < i + 1 implies !(#[trigger] tables[j]).contains_key(key) by {
            if j > 0 {
                assert(tables[j] == db.immutable[j - 1]);
            }
        }
        the_first_holder_decides(tables, key, i + 1);
    }
    the_first_answer_of_tables_decides(Seq::<Image>::empty(), key, 0);
}

/// Where no memtable holds the key, a read over memtables and tables gives the answer of the first
/// table that does not answer with nothing, wherever it stands: what it has under the key, or its
/// fault. Where all answer with nothing, nothing is found.
pub proof fn tables_are_read_newest_first(
    db: DbState,
    level0: Seq<Image>,
    key: Seq<char>,
    i: int,
)
    requires
        !db.writable.contains_key(key),
        forall|j: int| 0 <= j < db.immutable.len() ==> !(#[trigger] db.immutable[j]).contains_key(
            key,
        ),
        0 <= i <= level0.len(),
        forall|j: int|
            0 <= j < i ==> (#[trigger] level0[j]).lookup(key) == Ok::<
                Option<(Seq<char>, Option<Seq<char>>)>,
                Fault,
            >(None),
    ensures
        i < level0.len() ==> (level0[i].lookup(key) matches Ok(Some(record)) ==> newest_in_all(
            db,
            level0,
            key,
        ) == Ok::<Option<Option<Seq<char>>>, Fault>(Some(record.1)) && found(
            Some(record.1),
        ) == record.1),
        i < level0.len() ==> (level0[i].lookup(key) matches Err(fault) ==> newest_in_all(
            db,
            level0,
            key,
        ) == Err::<Option<Option<Seq<char>>>, Fault>(fault)),
        i == level0.len() ==> newest_in_all(db, level0, key) == Ok::<
            Option<Option<Seq<char>>>,
            Fault,
        >(None) && found(None) is None,
{
    let tables = db.tables();
    assert forall|j: int| 0 <= j < tables.len() implies !(#[trigger] tables[j]).contains_key(
        key,
    ) by {
        if j > 0 {
            assert(tables[j] == db.immutable[j - 1]);
        }
    }
    the_first_holder_decides(tables, key, tables.len() as int);
    the_first_answer_of_tables_decides(level0, key, i);
}

/// A lookup finds the value of a write, and nothing where there is no write or it is a deletion.
pub proof fn a_lookup_finds_the_value_of_a_write(value: Option<Seq<char>>)
    ensures
        found(Some(value)) == value,
        found(None) is None,
{
}

/// A write that is not refused is read back, and the other keys keep what they had, whatever the
/// key had before.
pub proof fn an_accepted_write_is_read_back(
    db: DbState,
    key: Seq<char>,
    value: Option<Seq<char>>,
    other: Seq<char>,
)
    requires
        db.refuses(Request::Write { key, value }) is None,
    ensures
        ({
            let after = db.after(Request::Write { key, value });
            &&& after.read(key) == value
            &&& newest(after.tables(), key) == Some(value)
            &&& after.writable.contains_key(key)
            &&& after.writable[key] == value
            &&& other != key ==> after.read(other) == db.read(other)
            &&& other != key ==> newest(after.tables(), other) == newest(db.tables(), other)
            &&& after.is_open == db.is_open
        }),
{
    a_write_is_read_back(db, key, value, other);
}

/// A write that is not refused goes to the writable table where that keeps to its capacity of
/// 4194304 bytes. Otherwise it is the only entry of a new writable table, and the one before it
/// becomes the newest immutable table, as it was. Nothing else changes.
pub proof fn an_accepted_write_goes_to_one_table(
    db: DbState,
    key: Seq<char>,
    value: Option<Seq<char>>,
)
    requires
        db.writable.dom().finite(),
        db.refuses(Request::Write { key, value }) is None,
    ensures
        ({
            let after = db.after(Request::Write { key, value });
            if total_size(db.writable.insert(key, value)) <= 4194304 {
                &&& after.writable == db.writable.insert(key, value)
                &&& after.immutable == db.immutable
                &&& after.generation == db.generation
            } else {
                &&& after.writable == Map::<Seq<char>, Option<Seq<char>>>::empty().insert(
                    key,
                    value,
                )
                &&& after.immutable == seq![db.writable] + db.immutable
                &&& after.generation != db.generation
            }
        }),
        db.after(Request::Write { key, value }).is_open == db.is_open,
{
    a_write_is_refused_where_it_does_not_fit(db.writable, key, value);
}

/// A write is refused exactly where the database is closed or the sizes of key and value break the
/// limits, and then changes nothing.
pub proof fn writes_are_refused_for_closing_or_size(db: DbState, key: Seq<char>, text: Seq<char>)
    ensures
        db.refuses(Request::Write { key, value: Some(text) }) is None <==> {
            &&& db.is_open
            &&& 1 <= encode_utf8(key).len() <= 1024
            &&& encode_utf8(key).len() + encode_utf8(text).len() + 60 <= 4096
        },
        db.refuses(Request::Write { key, value: None }) is None <==> {
            &&& db.is_open
            &&& 1 <= encode_utf8(key).len() <= 1024
        },
        forall|value: Option<Seq<char>>|
            !db.is_open ==> #[trigger] db.refuses(Request::Write { key, value }) == Some(
                DbError::Closed,
            ),
        forall|value: Option<Seq<char>>|
            db.is_open && (#[trigger] db.refuses(Request::Write { key, value })) is Some
                ==> write_error(key, value) is Some && db.refuses(Request::Write { key, value })
                == Some(DbError::MemTable(write_error(key, value)->0)),
{
    writes_are_checked_by_size(key, text);
}

/// Requests other than writes and rotations are refused exactly where the database is closed.
/// Rotations never are. A refused request changes nothing, nor does a read.
pub proof fn other_requests_are_refused_for_closing(db: DbState, request: Request)
    ensures
        request is Read || request is PopOldest || request is Close ==> db.refuses(request) == (
        if db.is_open {
            None
        } else {
            Some(DbError::Closed)
        }),
        request is Rotate || request is RotateIfCurrent ==> db.refuses(request) is None,
        db.refuses(request) is Some ==> db.after(request) == db,
        request is Read ==> db.after(request) == db,
{
}

/// Closing an open database closes it and changes nothing else.
pub proof fn closing_changes_nothing_else(db: DbState)
    ensures
        !db.after(Request::Close).is_open,
        db.after(Request::Close).writable == db.writable,
        db.after(Request::Close).immutable == db.immutable,
        db.after(Request::Close).generation == db.generation,
{
}

/// Popping takes out one table of an open database, the one that has been immutable for longest.
/// The others stay in their order, and so does the writable one. What the remaining tables do not
/// answer, the popped one does.
pub proof fn popping_takes_out_one_table(db: DbState, key: Seq<char>)
    requires
        db.is_open,
        db.immutable.len() > 0,
    ensures
        ({
            let after = db.after(Request::PopOldest);
            let popped = db.immutable[db.immutable.len() - 1];
            &&& after.immutable.len() == db.immutable.len() - 1
            &&& forall|i: int|
                0 <= i < after.immutable.len() ==> #[trigger] after.immutable[i]
                    == db.immutable[i]
            &&& after.writable == db.writable
            &&& after.generation == db.generation
            &&& after.is_open
            &&& newest(db.tables(), key) == (if newest(after.tables(), key) is Some {
                newest(after.tables(), key)
            } else if popped.contains_key(key) {
                Some(popped[key])
            } else {
                None
            })
        }),
{
    let after = db.after(Request::PopOldest);
    let popped = db.immutable.last();
    assert(db.tables() =~= after.tables().push(popped));
    newest_with_older(after.tables(), popped, key);
}

/// Where no table is immutable, popping changes nothing.
pub proof fn popping_nothing_changes_nothing(db: DbState)
    requires
        db.immutable.len() == 0,
    ensures
        db.after(Request::PopOldest) == db,
{
}

/// An older table answers only for the keys that the newer ones do not hold.
pub proof fn newest_with_older(tables: Seq<Table>, older: Table, key: Seq<char>)
    ensures
        newest(tables.push(older), key) == (if newest(tables, key) is Some {
            newest(tables, key)
        } else if older.contains_key(key) {
            Some(older[key])
        } else {
            None
        }),
    decreases tables.len(),
{
    let all = tables.push(older);
    if tables.len() == 0 {
        assert(all.drop_first() =~= Seq::<Table>::empty());
        assert(newest(all.drop_first(), key) is None);
    } else {
        newest_with_older(tables.drop_first(), older, key);
        assert(all.drop_first() =~= tables.drop_first().push(older));
    }
}

/// A rotation sets the writable table aside, as it is, in front of those set aside before, and an
/// empty one takes its place. Asked for without a condition, it does so where the writable table
/// holds anything. Asked for a generation, it does so where that is the current one. Otherwise
/// nothing changes.
pub proof fn a_rotation_sets_one_table_aside(db: DbState, generation: u64)
    ensures
        ({
            let empty = Map::<Seq<char>, Option<Seq<char>>>::empty();
            let after = db.after(Request::Rotate);
            &&& db.writable == empty ==> after == db
            &&& db.writable != empty ==> {
                &&& after.writable == empty
                &&& after.immutable == seq![db.writable] + db.immutable
                &&& after.is_open == db.is_open
                &&& after.generation != db.generation
            }
        }),
        ({
            let empty = Map::<Seq<char>, Option<Seq<char>>>::empty();
            let after = db.after(Request::RotateIfCurrent { generation });
            &&& db.generation != generation ==> after == db
            &&& db.generation == generation ==> {
                &&& after.writable == empty
                &&& after.immutable == seq![db.writable] + db.immutable
                &&& after.is_open == db.is_open
                &&& after.generation != db.generation
            }
            &&& after == db.rotated_if_current(generation)
        }),
{
}

/// Requests one after another have the effect of the last after that of those before it.
pub proof fn requests_take_effect_in_turn(db: DbState, requests: Seq<Request>, request: Request)
    ensures
        db.after_all(Seq::<Request>::empty()) == db,
        db.after_all(requests.push(request)) == db.after_all(requests).after(request),
{
    assert(requests.push(request).drop_last() =~= requests);
}

/// The keys of a database are those of its writable table and of each immutable one, and so are
/// the bytes in use, however many tables there are.
pub proof fn totals_count_every_table(db: DbState, tables: Seq<Table>, table: Table)
    ensures
        db.immutable == Seq::<Table>::empty() ==> db.len() == db.writable.dom().len() && db.used()
            == total_size(db.writable),
        db.immutable == tables.push(table) ==> {
            let rest = DbState { immutable: tables, ..db };
            &&& db.len() == rest.len() + table.dom().len()
            &&& db.used() == rest.used() + total_size(table)
        },
{
    assert(tables.push(table).drop_last() =~= tables);
}

/// A database is valid exactly where each of its tables is.
pub proof fn every_table_of_a_valid_database_is_valid(db: DbState)
    ensures
        db.valid() <==> {
            &&& valid_table(db.writable)
            &&& forall|i: int| 0 <= i < db.immutable.len() ==> valid_table(
                #[trigger] db.immutable[i],
            )
        },
{
}

/// The error of a request is the one that it returns.
pub proof fn the_error_is_the_one_returned<T>(value: T, error: DbError, cause: MemTableError)
    ensures
        error_of(Ok::<T, DbError>(value)) is None,
        error_of(Err::<T, DbError>(error)) == Some(error),
        <DbError as vstd::std_specs::convert::FromSpec<MemTableError>>::from_spec(cause)
            == DbError::MemTable(cause),
{
}

} // verus!
