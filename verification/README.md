# Cairn

A persistent, write-optimized key-value store built on a Log-Structured Merge
tree, written in Rust and verified with Verus.

Cairn stores opaque byte strings under opaque byte strings. Writes go to a log and
to a sorted table in memory; that table is flushed to immutable, sorted files, and
those are merged from time to time.

## Layout

- `src/` is the library, verified throughout: the log, the memtable, the table
  format with its sparse index and Bloom filter, the merge, and the engine that
  decides when to flush, where to look and what to keep.
- `app/` puts the library on a disk: it reads and writes files, runs compactions on
  a thread, and computes filter sizes, which takes floating point.
- `tests/` run the library over a directory that is held in memory.

## What is proved

`src/durability.rs` states what a user relies on:

- a read sees the last write of its key, and other keys as before;
- a flush and a compaction change nothing that a reader can see, and a flush that
  fails loses nothing;
- opening a directory brings the same contents back, also after a crash in the
  middle of an append, of a flush or of a compaction, and what is written from then
  on is there the next time;
- a table that a crash left behind cannot bring a deleted key back;
- over any history of these, the store holds what an in-memory store holds that was
  given the same operations.

The other modules state what these rest on: a log replays to what was appended to
it, a torn record costs only itself, a table that was written opens and yields its
entries, a lookup reads no more than one block, a filter never hides a key, and the
order in which tables are merged does not matter.

What is taken on trust are the contracts of the functions that call `bincode`
(`src/codec.rs`) and `rayon` (`src/compaction.rs`).
