# kv_database

An in-memory key-value database with Redis-like sorted sets, a checksummed
write-ahead log and snapshots. The logic lives in `src/` and is verified with
Verus; `app/` holds the servers (TCP line protocol and HTTP API), file I/O and
the load generator.

## Layout

- `src/lru_cache.rs` — LRU cache over an arena-backed doubly linked list.
  Modelled as a sequence of entries, most recently used first.
- `src/store.rs` — `HashMapWrapper` (map + LRU cache + hit/miss counters)
  and `Db`.
- `src/order.rs` — the order of sorted-set entries: scores ordered as
  `OrderedFloat<f64>` orders them (on their bit patterns), then members by
  their UTF-8 bytes.
- `src/sorted_set.rs` — skip list with spans (rank queries), modelled as the
  ascending sequence of (member, score) entries.
- `src/sorted_set_store.rs` — sorted sets by key: `ZADD`, `ZSCORE`, `ZREM`,
  `ZRANGE`.
- `src/text.rs`, `src/protocol.rs` — reading request lines into commands.
- `src/wal.rs` — log record format for every write (`SET`, `DEL`, `CLEAR`,
  `ZADD`, `ZREM`), decoding, and replay of a log into a database.
- `src/snapshot.rs` — snapshot writing and loading (a checksummed image
  that reads back to the database it was taken of), and the law that a
  restart — snapshot, then log — gives back every acknowledged write.
- `src/dispatch.rs` — applying a command to the database, which record is
  logged first (a write that could not be logged is not applied), and the
  text of answers and errors.
- `src/bench.rs` — the request lines of the load generator.

Scores are carried as the bit patterns of IEEE-754 doubles (`u64`); parsing
and printing doubles is done by closures that `app/` supplies.

## Running

`app/main.rs` starts the TCP server on `127.0.0.1:7878` and the HTTP API on
`127.0.0.1:8080`; with the argument `bench` it runs the load generator.
