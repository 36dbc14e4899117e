# fluent31

An embedded key-value engine: a log-structured tree with snapshots and optimistic
transactions, large values in a value log, forks, a journal to rebuild from,
edge replicas, and WebAssembly modules run by triggers.

`src/` is the engine's logic, verified with Verus. It works on values and bytes;
nothing in it touches a file or a thread. `app/` is the engine on disk: file
access, background threads and WebAssembly guests around the verified core.

## What is proved

- Formats: every encoder is given back by its decoder (batches, log frames, value
  log records, blocks, tables, manifests, trigger records, journals, archive
  descriptions), and decoders say exactly which bytes they accept.
- Reads: a read finds the newest version at or below its seqno, through memtables,
  tables, filters and merges; a scan gives exactly the visible pairs, in either
  direction.
- Writes: batches are atomic, a published write is read back, and a snapshot sees
  nothing of later ones (`engine.rs`, `tree.rs`, `commit.rs`).
- Moves: rotating, flushing and merging change no value that anyone may read
  (`engine.rs`, `maintain.rs`, `compaction.rs`).
- Damage: a block that fails its checksum fails only the reads whose path it is
  on; writes, flushes and merges beside it keep every other read as it was
  (`version.rs`, `lookup.rs`), and a scan delivers what comes before the damaged
  block (`range.rs`).
- Restarts: what was logged and written out is there again (`durability.rs`,
  `reopen.rs`, `restart.rs`).
- Transactions: a commit that validates has seen no change of what it depends on.

## Layout

| | |
|---|---|
| `types`, `order`, `coding`, `text`, `counts`, `error` | keys, byte order, primitive codings |
| `batch`, `wal`, `vlog`, `block`, `bloom`, `table`, `manifest`, `identity` | formats |
| `memtable`, `iter`, `mvcc`, `version`, `range`, `gather`, `scan`, `cache` | reading |
| `commit`, `group`, `txn`, `db`, `events` | writing |
| `shape`, `compaction`, `install`, `gc`, `splice`, `tree`, `lookup` | the tree's upkeep |
| `engine`, `maintain` | the store as a whole |
| `recovery`, `reopen`, `restart`, `durability` | opening |
| `fork`, `checkpoint`, `journal`, `stream`, `edge`, `trigger`, `wasm`, `config` | around it |

Calls into other crates (`crc32fast`, `sha2`, `crossbeam-skiplist`, `wasmtime`)
stand in small functions marked `external_body`; the comment above each says what
is claimed of the call.
