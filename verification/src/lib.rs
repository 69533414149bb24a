//! A durable key/value document store: the storage engine's core.
//!
//! The engine orders writes through a single writer, records each one in a
//! segmented write-ahead log before it touches the in-memory index, and
//! checkpoints the index so that recovery replays only the log's suffix.
//! Everything here works on plain values; files, timers and tasks belong to
//! the caller.

pub mod config;
pub mod db;
pub mod event;
pub mod json;
pub mod kv;
pub mod lsn;
pub mod names;
pub mod reactivity;
pub mod replay;
pub mod segment;
mod sequence;
pub mod snapshot;
pub mod wal;
pub mod writer;
