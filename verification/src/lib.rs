//! The core of an embedded key-value store built as a log-structured merge tree.

pub mod buffer;
pub mod catalog;
pub mod checksum;
pub mod db;
pub mod entry;
pub mod format;
pub mod memtable;
pub mod order;
pub mod round_trip;
pub mod skiplist;
pub mod sstable;
pub mod text;

pub use db::{Db, DbError};
pub use memtable::LookupResult;
