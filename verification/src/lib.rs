//! Cairn: a write-optimized, persistent key-value store built on a
//! Log-Structured Merge tree.
//!
//! - [`api`]: the data model; [`store`]: the storage interface, and an in-memory
//!   backend.
//! - [`wal`]: the write-ahead log, replayed on startup.
//! - [`memtable`]: the sorted write buffer that is flushed to tables.
//! - [`sstable`]: immutable, sorted tables with a sparse index; [`bloom`]: the filter
//!   that lets a read skip a table.
//! - [`compaction`]: merges tables, keeping the newest version of each key.
//! - [`engine`]: ties these together; [`layers`], [`durability`]: what that comes to,
//!   crashes included.
//! - [`record`], [`codec`], [`le`], [`names`]: how all of it looks on disk; [`order`],
//!   [`run`]: keys in order.
pub mod api;
pub mod bloom;
pub mod codec;
pub mod compaction;
pub mod durability;
pub mod engine;
pub mod error;
pub mod layers;
pub mod le;
pub mod memtable;
pub mod names;
pub mod order;
pub mod record;
pub mod run;
pub mod sstable;
pub mod store;
pub mod wal;

pub use api::{Entry, EntryKind, Key, Request, Response, Value};
pub use bloom::Bloom;
pub use engine::Engine;
pub use memtable::MemTable;
pub use sstable::SsTable;
pub use store::{MemStore, Store};
pub use wal::Wal;
