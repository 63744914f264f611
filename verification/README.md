# Rudurru

A key-value store that speaks the etcd v3 protocol and keeps its changes in a write-ahead log.
The store itself is verified with Verus; what touches files, sockets and clocks is ordinary Rust
around it.

## Layout

| Path | What it holds |
|------|---------------|
| `src/bytes.rs`, `src/text.rs`, `src/sorted_map.rs` | byte strings and their order, decimal text, a map kept in the order of its keys |
| `src/storage/` | the log format, the state in memory, queries now and in the past, puts, deletions, transactions, leases, replay and compaction |
| `src/server/` | what watches are told and answered, maintenance, the cluster of one |
| `src/tools/` | reading, migrating and recovering logs |
| `tests/` | tests of the library |
| `app/` | the server, its services, and the command-line tools |

## How a change is made

A put or a deletion takes two steps. `Store::put` decides and gives the bytes to log; once they
have been appended, `Store::finish_put` makes the change in memory, or reports that it could not
be logged. A query of an earlier revision that memory cannot answer hands out a scan, which
`Store::finish_range` completes with the contents of the log.

## What is proved

Each function states what it returns and what it changes. On top of that, the proof functions
whose names begin with `law_` state what holds of several together:

- `storage/log.rs`, `storage/legacy.rs`: what is written is read back; a torn tail is dropped; a
  changed byte is seen.
- `storage/durability.rs`: replaying the log gives back the keys that were in memory; a compact log
  gives back those that are alive, with their values, revisions, versions and leases.
- `storage/history.rs`: a query of a revision finds what was there at that revision.
- `storage/txn.rs`: a transaction as a whole, and compare and swap.
- `storage/laws.rs`: puts, deletions, revisions, counters, leases and hashes.
- `server/laws.rs`: watches are answered before they are told of anything, miss nothing and are
  told nothing twice.

Reading key-value messages rests on `prost`, and the hash of the store on `xxhash-rust`; what is
relied on is stated at the functions that call them.

## Running

The server listens on `RUDURRU_LISTEN` (`[::]:2379`) and keeps its log at `RUDURRU_WAL`
(`/tmp/rudurru.wal`). The same binary holds the tools: `bench`, `stress`, `wipe-stress`,
`concurrent-put`, `compact`, `migrate`, `wal-migrate`, `waldoctor`, `walrecover`, `walverify`,
`walverify-new` and `probe`.
