# hadar

A revision-indexed key-value store with a write-ahead log, over a pluggable
transactional storage backend. The library in `src/` is written in Verus: its
functions carry contracts, and Verus proves them.

## Layout

- `src/storage_api/` — the contract a storage backend meets (`StorageEngine`,
  `ReadTxn`, `WriteTxn`), key ranges (`Bounds`), an in-memory backend
  (`MemEngine`) proved to meet the contract, and the conformance cases
  (`conform`), each proved to pass against any engine that meets it.
- `src/mvcc/` — the store. `Revision` and its order-preserving encoding, the
  in-memory `Index` of every key's history, the backend record formats, and
  `KvStore`: reads at any revision, batches of mutations, compaction, and
  reopening from the backend. `rebuild` states what replaying the backend
  rebuilds.
- `src/wal/` — the write-ahead log: CRC-framed records, segments and their
  names, the group-commit decisions of the writer (`writer`: which writes
  share a flush, when a batch is retired and applied, when the log
  checkpoints), recovery, checkpoints, and injectable faults.
- `src/config.rs` — command-line configuration.
- `src/bytes.rs`, `src/sorted_map.rs`, `src/text.rs` — big-endian integers,
  byte order, the sorted map the index and the in-memory backend are built on,
  and decimal numbers in error reports.
- `app/` — the program: the redb backend, the log's files, the writer
  thread that performs what `wal::writer` decides, the async front, and
  `main`. The redb backend is not verified: it cannot state the keyspace it
  holds, so it keeps the engine traits' default (empty) views, and nothing
  proved of a store carries over to a store over redb.
- `tests/` — tests of the library.

## What is proved

Beyond each function's contract, the library proves, among others: that
revision encodings round-trip and order as revisions do; that a write never
changes what a read at an earlier revision sees; that compaction at a
watermark leaves every later read, its keys, observations and values,
unchanged; that writes keep the backend's records replaying to exactly the
history the store holds, so a reopened store holds what the store held; that
the backend records the compaction watermark with the revision then current,
so a reopened store refuses the reads the store refused and does not fall back
behind that revision; that framed log
records round-trip and that every cut-short record reads as truncated; and that
recovery replays exactly the logged records the store had not applied, in
order, leaving the backend holding exactly their records, values included;
and that the log applies a batch only once it is appended and flushed.

The one trusted item is the CRC32 checksum, computed by `crc32fast`; its
contract states the IEEE CRC-32 the crate documents, bit by bit.
