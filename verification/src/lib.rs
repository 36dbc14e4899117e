//! Embedded log-structured key-value engine: formats, ordering and decisions.

pub mod batch;
pub mod block;
pub mod bloom;
pub mod cache;
pub mod checkpoint;
pub mod coding;
pub mod commit;
pub mod compaction;
pub mod config;
pub mod counts;
pub mod db;
pub mod durability;
pub mod edge;
pub mod effects;
pub mod engine;
pub mod error;
pub mod events;
pub mod feeds;
pub mod fork;
pub mod gather;
pub mod gc;
pub mod group;
pub mod guests;
pub mod identity;
pub mod install;
pub mod integrity;
pub mod iter;
pub mod journal;
pub mod lookup;
pub mod maintain;
pub mod manifest;
pub mod memtable;
pub mod mvcc;
pub mod opening;
pub mod order;
pub mod range;
pub mod ranges;
pub mod recovery;
pub mod reopen;
pub mod replica;
pub mod restart;
pub mod scan;
pub mod shape;
pub mod splice;
pub mod stream;
pub mod table;
pub mod text;
pub mod tree;
pub mod trigger;
pub mod txn;
pub mod types;
pub mod version;
pub mod vlog;
pub mod wal;
pub mod wasm;
