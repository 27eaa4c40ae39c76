//! Durable-write core of an embedded key-value store: a sorted in-memory
//! table with tombstones, a binary write-ahead log codec, and the replay
//! logic that consolidates log segments on startup.
use vstd::prelude::*;

pub mod bytes;
pub mod clock;
pub mod codec;
pub mod mem_table;
pub mod recovery;
pub mod wal;
