//! The ordered map behind a memtable: `crossbeam_skiplist::SkipMap`.
//!
//! The map can be changed through a shared reference. Here it is changed only through an
//! exclusive one, so what a shared reference reads stays what it is.

use crossbeam_skiplist::SkipMap;
use vstd::prelude::*;

use crate::entry::MemTableEntry;
use crate::order::key_lt;

verus! {

#[verifier::external_type_specification]
#[verifier::external_body]
#[verifier::reject_recursive_types(K)]
#[verifier::reject_recursive_types(V)]
pub struct ExSkipMap<K, V>(SkipMap<K, V>);

/// The entries that a map holds, by key.
pub uninterp spec fn contents(map: SkipMap<String, MemTableEntry>) -> Map<Seq<char>, MemTableEntry>;

/// `SkipMap::new`: the map holds nothing.
#[verifier::external_body]
pub(crate) fn new_map() -> (map: SkipMap<String, MemTableEntry>)
    ensures
        contents(map).dom() == Set::<Seq<char>>::empty(),
{
    SkipMap::new()
}

/// `SkipMap::insert`: the map holds `entry` under `key`, in place of what it held there, and
/// is otherwise unchanged.
#[verifier::external_body]
pub(crate) fn insert(map: &mut SkipMap<String, MemTableEntry>, key: String, entry: MemTableEntry)
    ensures
        contents(*final(map)) == contents(*old(map)).insert(key@, entry),
{
    map.insert(key, entry);
}

/// `SkipMap::get`: a copy of the entry under `key`, `None` where there is none.
#[verifier::external_body]
pub(crate) fn get(map: &SkipMap<String, MemTableEntry>, key: &str) -> (found: Option<MemTableEntry>)
    ensures
        match found {
            Some(entry) => contents(*map).contains_key(key@) && entry == contents(*map)[key@],
            None => !contents(*map).contains_key(key@),
        },
{
    map.get(key).map(|entry| entry.value().clone())
}

/// `SkipMap::len`: the number of keys. The map keeps a counter and reports one over
/// `isize::MAX` as zero.
#[verifier::external_body]
pub(crate) fn len(map: &SkipMap<String, MemTableEntry>) -> (count: usize)
    requires
        contents(*map).dom().finite(),
        contents(*map).dom().len() <= isize::MAX,
    ensures
        count == contents(*map).dom().len(),
{
    map.len()
}

/// `SkipMap::is_empty`: whether the number of keys that `SkipMap::len` reports is zero.
#[verifier::external_body]
pub(crate) fn is_empty(map: &SkipMap<String, MemTableEntry>) -> (empty: bool)
    requires
        contents(*map).dom().finite(),
        contents(*map).dom().len() <= isize::MAX,
    ensures
        empty == (contents(*map).dom().len() == 0),
{
    map.is_empty()
}

/// `SkipMap::iter`: copies of all entries with their keys, in the order of `String`, which
/// compares bytes.
#[verifier::external_body]
pub(crate) fn entries(map: &SkipMap<String, MemTableEntry>) -> (entries: Vec<
    (String, MemTableEntry),
>)
    ensures
        forall|i: int, j: int|
            0 <= i < j < entries@.len() ==> key_lt(
                #[trigger] entries@[i].0@,
                #[trigger] entries@[j].0@,
            ),
        forall|i: int|
            0 <= i < entries@.len() ==> contents(*map).contains_key(#[trigger] entries@[i].0@)
                && entries@[i].1 == contents(*map)[entries@[i].0@],
        forall|key: Seq<char>| #[trigger]
            contents(*map).contains_key(key) ==> exists|i: int|
                0 <= i < entries@.len() && #[trigger] entries@[i].0@ == key,
{
    map.iter().map(|entry| (entry.key().clone(), entry.value().clone())).collect()
}

} // verus!
