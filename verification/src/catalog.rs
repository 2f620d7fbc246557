//! The list of tables that a database has on disk.

use vstd::prelude::*;

verus! {

/// The version of the catalog's file.
pub const CATALOG_VERSION: u32 = 1;

/// A table on disk.
#[derive(Debug, PartialEq, Eq)]
pub struct CatalogEntry {
    pub id: u64,
    /// Where the table's file is, relative to the directory of the database, such as
    /// `sst/00000001.sst`.
    pub path: String,
    pub entry_count: u32,
    pub smallest_key: String,
    pub largest_key: String,
    pub data_crc32: u32,
}

impl Clone for CatalogEntry {
    fn clone(&self) -> (result: Self)
        ensures
            result == *self,
    {
        CatalogEntry {
            id: self.id,
            path: self.path.clone(),
            entry_count: self.entry_count,
            smallest_key: self.smallest_key.clone(),
            largest_key: self.largest_key.clone(),
            data_crc32: self.data_crc32,
        }
    }
}

/// What the catalog's file says.
#[derive(Debug, PartialEq, Eq)]
pub struct CatalogFile {
    pub version: u32,
    /// The tables of level 0, newest first.
    pub level0: Vec<CatalogEntry>,
}

/// Why a catalog could not be loaded.
#[derive(Debug, Clone, PartialEq, Eq)]
pub enum CatalogError {
    UnsupportedVersion(u32),
}

/// The highest id of `entries`, zero where there are none.
pub open spec fn max_id(entries: Seq<CatalogEntry>) -> u64
    decreases entries.len(),
{
    if entries.len() == 0 {
        0
    } else if entries.last().id > max_id(entries.drop_last()) {
        entries.last().id
    } else {
        max_id(entries.drop_last())
    }
}

/// Whether every id of `entries` is below `bound`.
pub open spec fn ids_below(entries: Seq<CatalogEntry>, bound: int) -> bool {
    forall|i: int| 0 <= i < entries.len() ==> (#[trigger] entries[i]).id < bound
}

/// Whether the ids of `entries` descend.
pub open spec fn newest_first(entries: Seq<CatalogEntry>) -> bool {
    forall|i: int, j: int|
        0 <= i < j < entries.len() ==> (#[trigger] entries[i]).id > (#[trigger] entries[j]).id
}

/// The content of a catalog.
pub struct CatalogState {
    /// The tables of level 0, in the order in which reads must ask them.
    pub level0: Seq<CatalogEntry>,
    /// The id of the next table.
    pub next_id: int,
}

/// What a catalog holds that is loaded from a file with `level0`.
pub open spec fn loaded(level0: Seq<CatalogEntry>) -> CatalogState {
    CatalogState { level0, next_id: max_id(level0) + 1 }
}

/// The tables of a database, and the ids given to them.
#[derive(Debug)]
pub struct Catalog {
    level0: Vec<CatalogEntry>,
    next_id: u64,
}

impl View for Catalog {
    type V = CatalogState;

    closed spec fn view(&self) -> CatalogState {
        CatalogState { level0: self.level0@, next_id: self.next_id as int }
    }
}

impl Catalog {
    /// The catalog that `file` describes, an empty one where there is no file yet.
    pub fn load_or_create(file: Option<CatalogFile>) -> (result: Result<Self, CatalogError>)
        requires
            file is Some && file->0.version == CATALOG_VERSION ==> ids_below(
                file->0.level0@,
                u64::MAX as int,
            ),
        ensures
            match file {
                None => result is Ok && result->Ok_0@ == loaded(Seq::empty()),
                Some(file) => if file.version == CATALOG_VERSION {
                    result is Ok && result->Ok_0@ == loaded(file.level0@)
                } else {
                    result == Err::<Self, CatalogError>(
                        CatalogError::UnsupportedVersion(file.version),
                    )
                },
            },
    {
        let level0: Vec<CatalogEntry> = match file {
            Some(parsed) => {
                if parsed.version != CATALOG_VERSION {
                    return Err(CatalogError::UnsupportedVersion(parsed.version));
                }
                parsed.level0
            },
            None => Vec::new(),
        };
        let mut highest: u64 = 0;
        let mut i: usize = 0;
        while i < level0.len()
            invariant
                i <= level0@.len(),
                highest == max_id(level0@.take(i as int)),
                highest < u64::MAX,
                ids_below(level0@, u64::MAX as int),
            decreases level0@.len() - i,
        {
            assert(level0@.take(i + 1).drop_last() =~= level0@.take(i as int));
            if level0[i].id > highest {
                highest = level0[i].id;
            }
            i += 1;
        }
        assert(level0@.take(i as int) =~= level0@);
        assert(file is None ==> level0@ =~= Seq::empty());
        Ok(Self { level0, next_id: highest + 1 })
    }

    /// The id that the next table will get.
    pub fn next_sst_id(&self) -> (result: u64)
        ensures
            result == self@.next_id,
    {
        self.next_id
    }

    /// Takes the next id. The caller writes the table to `sst/{id:08}.sst` and registers it with
    /// `add_level0`.
    pub fn allocate_sst_id(&mut self) -> (result: u64)
        requires
            old(self)@.next_id < u64::MAX,
        ensures
            result == old(self)@.next_id,
            final(self)@ == (CatalogState { next_id: old(self)@.next_id + 1, ..old(self)@ }),
    {
        let id: u64 = self.next_id;
        self.next_id += 1;
        id
    }

    /// Registers a table of level 0. It goes to the front, where reads look first. Returns what
    /// the catalog's file has to say from now on.
    pub fn add_level0(&mut self, entry: CatalogEntry) -> (result: CatalogFile)
        ensures
            final(self)@ == (CatalogState {
                level0: seq![entry] + old(self)@.level0,
                ..old(self)@
            }),
            result.version == CATALOG_VERSION,
            result.level0@ == final(self)@.level0,
    {
        self.level0.insert(0, entry);
        assert(self.level0@ =~= seq![entry] + old(self).level0@);
        self.persist()
    }

    /// The tables of level 0 in the order in which reads must ask them: newest first.
    pub fn level0_entries(&self) -> (result: &[CatalogEntry])
        ensures
            result@ == self@.level0,
    {
        self.level0.as_slice()
    }

    /// What the catalog's file has to say.
    pub fn persist(&self) -> (result: CatalogFile)
        ensures
            result.version == CATALOG_VERSION,
            result.level0@ == self@.level0,
    {
        let mut level0: Vec<CatalogEntry> = Vec::new();
        let mut i: usize = 0;
        while i < self.level0.len()
            invariant
                i <= self.level0@.len(),
                level0@ == self.level0@.take(i as int),
            decreases self.level0@.len() - i,
        {
            level0.push(self.level0[i].clone());
            assert(level0@ =~= self.level0@.take(i + 1));
            i += 1;
        }
        assert(self.level0@.take(i as int) =~= self.level0@);
        CatalogFile { version: CATALOG_VERSION, level0 }
    }
}

/// No entry has an id above the highest, and where there are entries one of them has it.
pub proof fn max_id_is_the_highest(entries: Seq<CatalogEntry>)
    ensures
        ids_below(entries, max_id(entries) + 1),
        entries.len() > 0 ==> exists|i: int|
            0 <= i < entries.len() && (#[trigger] entries[i]).id == max_id(entries),
    decreases entries.len(),
{
    if entries.len() > 0 {
        let rest = entries.drop_last();
        max_id_is_the_highest(rest);
        assert forall|i: int| 0 <= i < entries.len() implies (#[trigger] entries[i]).id < max_id(
            entries,
        ) + 1 by {
            if i < rest.len() {
                assert(rest[i].id < max_id(rest) + 1);
            }
        }
        if entries.last().id > max_id(rest) {
            assert(entries[entries.len() - 1].id == max_id(entries));
        } else if rest.len() > 0 {
            let i = choose|i: int| 0 <= i < rest.len() && (#[trigger] rest[i]).id == max_id(rest);
            assert(entries[i].id == max_id(entries));
        } else {
            assert(entries[0].id == max_id(entries));
        }
    }
}

/// A loaded catalog gives out ids above those of all its tables, whatever is in its file.
pub proof fn loaded_catalog_gives_new_ids(level0: Seq<CatalogEntry>)
    ensures
        ids_below(loaded(level0).level0, loaded(level0).next_id),
        loaded(level0).next_id >= 1,
{
    max_id_is_the_highest(level0);
}

/// Registering a table under an id that was taken, above those registered before it, keeps all
/// ids below the next one and the tables in the order newest first. So ids can be taken ahead, as
/// long as their tables are registered in the order in which the ids were taken.
pub proof fn registering_keeps_newest_first(catalog: CatalogState, entry: CatalogEntry)
    requires
        newest_first(catalog.level0),
        ids_below(catalog.level0, entry.id as int),
        entry.id < catalog.next_id,
    ensures
        ids_below(seq![entry] + catalog.level0, catalog.next_id),
        newest_first(seq![entry] + catalog.level0),
{
    let after = seq![entry] + catalog.level0;
    assert forall|i: int| 0 <= i < after.len() implies (#[trigger] after[i]).id
        < catalog.next_id by {
        if i > 0 {
            assert(after[i] == catalog.level0[i - 1]);
        }
    }
    assert forall|i: int, j: int| 0 <= i < j < after.len() implies (#[trigger] after[i]).id > (
    #[trigger] after[j]).id by {
        assert(after[j] == catalog.level0[j - 1]);
        if i > 0 {
            assert(after[i] == catalog.level0[i - 1]);
        }
    }
}

/// A catalog that is loaded from the file of another lists the same tables in the same order.
/// It continues after the newest registered id, and so never gives out an id that the other
/// has registered.
pub proof fn reloading_keeps_tables_and_ids(catalog: CatalogState)
    requires
        ids_below(catalog.level0, catalog.next_id),
        newest_first(catalog.level0),
        catalog.next_id >= 1,
    ensures
        loaded(catalog.level0).level0 == catalog.level0,
        loaded(catalog.level0).next_id <= catalog.next_id,
        ids_below(catalog.level0, loaded(catalog.level0).next_id),
        catalog.level0.len() > 0 ==> loaded(catalog.level0).next_id == catalog.level0.first().id
            + 1,
{
    max_id_is_the_highest(catalog.level0);
}

/// A catalog that is loaded from a file lists the tables of the file in their order. Its next id is
/// one above the id of some table and above all of them, and one where there are no tables.
pub proof fn a_loaded_catalog_continues_the_file(level0: Seq<CatalogEntry>)
    ensures
        loaded(level0).level0 == level0,
        forall|i: int| 0 <= i < level0.len() ==> (#[trigger] level0[i]).id < loaded(level0).next_id,
        level0.len() > 0 ==> exists|i: int|
            0 <= i < level0.len() && (#[trigger] level0[i]).id + 1 == loaded(level0).next_id,
        level0.len() == 0 ==> loaded(level0).next_id == 1,
{
    max_id_is_the_highest(level0);
}

/// That ids are below a bound, or descend, is said of each of them.
pub proof fn ids_are_compared_one_by_one(entries: Seq<CatalogEntry>, bound: int)
    ensures
        ids_below(entries, bound) <==> forall|i: int|
            0 <= i < entries.len() ==> (#[trigger] entries[i]).id < bound,
        newest_first(entries) <==> forall|i: int, j: int|
            0 <= i < j < entries.len() ==> (#[trigger] entries[i]).id > (#[trigger] entries[j]).id,
{
}

} // verus!
