//! Persistence: snapshots, the write-ahead log, and recovery.

pub mod bytes;
pub mod collection;
pub mod error;
pub mod header;
pub mod recovery;
pub mod snapshot;
pub mod wal;
