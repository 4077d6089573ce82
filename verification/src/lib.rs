//! An in-memory write path for an embedded key-value store: a sorted,
//! versioned table (the memtable) fed by an atomically-encoded mutation
//! log (the batch format), exposed through a small database facade.

pub mod kv;
pub mod batch;
pub mod memtable;
pub mod db;
