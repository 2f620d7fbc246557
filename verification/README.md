# lsm

The core of an embedded key-value store built as a log-structured merge tree, verified with
Verus.

- `src/entry.rs`: what a write stores, and the limits on its size
- `src/memtable.rs`: the bounded, ordered table of the latest writes
- `src/db.rs`: the memtable that takes writes and the full ones before it, and reads over them and
  the tables of level 0
- `src/format.rs`, `src/sstable.rs`: the layout of a sorted table, its writer and its reader
- `src/round_trip.rs`: what is written to a table is read back from it
- `src/catalog.rs`: the list of tables on disk and the ids given to them
- `src/order.rs`: the order of keys
- `src/skiplist.rs`, `src/checksum.rs`, `src/buffer.rs`, `src/text.rs`: the calls into
  `crossbeam-skiplist`, `crc32fast`, `bytes` and `std` whose contracts are not proved
- `app/`: the same types behind locks and on files

The verified types are changed through exclusive references. `app/` puts them behind
`parking_lot` locks for use by several threads, and reads and writes the files.

```rust
use lsm::{Db, LookupResult};

let mut db = Db::open();
db.put("user:1".into(), "Alice".into())?;
assert_eq!(db.get("user:1")?, LookupResult::Value("Alice".into()));
db.delete("user:1".into())?;
db.close()?;
```
