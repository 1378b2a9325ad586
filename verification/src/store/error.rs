//! Persistence errors.
//!
//! A snapshot or a log is an untrusted file: a damaged one gives an error that tells "not ours"
//! apart from "ours and damaged".

use vstd::prelude::*;

use crate::error::{IndexError, VectorError};

verus! {

/// A snapshot cannot be read or written.
#[derive(Clone, Copy, Debug, PartialEq, Eq)]
pub enum SnapshotError {
    /// Fewer bytes than the header takes.
    TooShort { needed: usize, got: usize },
    /// The file does not start with the snapshot magic.
    BadMagic { found: [u8; 4] },
    /// Another format version.
    UnsupportedVersion { found: u32, supported: u32 },
    /// The header's bytes do not hash to the checksum stored with them.
    HeaderChecksumMismatch { stored: u32, computed: u32 },
    /// The body's bytes do not hash to the checksum in the header.
    BodyChecksumMismatch { stored: u32, computed: u32 },
    /// A metric that this build does not know.
    UnknownMetric { tag: u8 },
    /// Flags that this build does not know describe a graph that it cannot reason about.
    UnknownFlags { bits: u32 },
    /// The dimension is zero or above the maximum.
    InvalidDim { dim: u32 },
    /// More live vectors than vectors.
    LiveCountAboveCount { live_count: u32, count: u32 },
    /// The entry point is not in the collection.
    EntryPointOutOfRange { entry_point: u32, count: u32 },
    /// There are vectors but no entry point.
    MissingEntryPoint { count: u32 },
    /// `M` is zero, or layer 0 has less room than the layers above it.
    InvalidDegrees { m: u16, max_degree0: u16 },
    /// `ef_construction` is zero.
    InvalidEfConstruction,
    /// A section starts before the previous one.
    SectionsOutOfOrder { section: &'static str, offset: u64, previous: u64 },
    /// A section starts at an offset that words cannot be read from.
    SectionMisaligned { section: &'static str, offset: u64, align: usize },
    /// A section starts past the body.
    SectionOutOfRange { section: &'static str, offset: u64, body_len: u64 },
    /// The file ends before the body that the header describes.
    BodyTruncated { file_len: u64, body_len: u64, header_len: usize },
    /// A section does not have the size that the header calls for.
    SectionSizeMismatch { section: &'static str, found: usize, expected: usize },
    /// The vectors were rejected.
    Vector(VectorError),
    /// The graph was rejected.
    Index(IndexError),
    /// A parameter that the header has no room for.
    ParameterTooLarge { parameter: &'static str, value: usize, limit: usize },
}

/// A write-ahead log cannot be written or read. A log that merely stops partway through a record
/// is not an error: see [`crate::store::wal::Torn`].
#[derive(Clone, Copy, Debug, PartialEq, Eq)]
pub enum WalError {
    /// Fewer bytes than the log header takes.
    TooShort { needed: usize, got: usize },
    /// The file does not start with the log magic.
    BadMagic { found: [u8; 4] },
    /// Another format version.
    UnsupportedVersion { found: u32, supported: u32 },
    /// An intact record of an operation that this build does not know.
    UnknownOp { seq: u64, op: u8 },
    /// Intact bytes that do not parse.
    MalformedPayload { seq: u64, op: u8, reason: &'static str },
    /// A record that is too large to be written.
    RecordTooLarge { bytes: usize, limit: usize },
    /// A record assigns a level above the index's guard.
    LevelOutOfRange { seq: u64, level: u8 },
    /// A vector was rejected.
    Vector(VectorError),
    /// The index rejected a record.
    Index(IndexError),
}

/// A step of a durable write.
#[derive(Clone, Copy, Debug, PartialEq, Eq, Structural)]
pub enum Step {
    /// Making the record of an insert.
    Prepare,
    /// Taking note that the record of an insert is in the log.
    Append,
    /// Updating the index.
    Insert,
    /// Making a checkpoint.
    Checkpoint,
    /// Taking note that the record of a checkpoint is in the log.
    Mark,
    /// Starting a fresh log.
    Restart,
}

/// A collection cannot be brought back up to date, or goes ahead of its log. The files are
/// reported, not repaired.
#[derive(Clone, Copy, Debug, PartialEq, Eq)]
pub enum RecoveryError {
    Snapshot(SnapshotError),
    Wal(WalError),
    /// The log starts after the point that the snapshot reaches.
    MissingRecords { contains: u64, found: u64 },
    /// A delete, which this build cannot replay.
    CannotReplayDelete { seq: u64 },
    /// A step of a durable write before the one that has to come first.
    OutOfOrder { step: Step },
}

} // verus!
