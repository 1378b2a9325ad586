//! The write-ahead log: format, encoding, and the appending writer.
//!
//! ```text
//! [ header 16B ]  magic "AWAL" | format_version u32 | reserved 8B
//!
//! then a stream of records:
//! [ len u32 ][ crc32 u32 ][ seq u64 ][ op u8 ][ payload ]
//!   len   = byte count of (seq ++ op ++ payload), excluding len and crc32
//!   crc32 = crc32(seq ++ op ++ payload), excluding len
//!
//! 0x01 INSERT      ext_id u64 + level u8 + dim x f32 + meta_len u32 + meta
//! 0x02 DELETE      ext_id u64
//! 0x03 CHECKPOINT  snapshot_wal_seq u64
//! ```
//!
//! A record can fail to read for two very different reasons. The log may stop partway through a
//! record, because the process died mid-write: that is [`Next::Torn`], and the tail is cut off.
//! Or the bytes are intact but say something that this build does not understand: that is a
//! [`WalError`], because dropping them would lose committed records.

use vstd::prelude::*;

use crate::store::bytes::{
    self, crc32, crc32_of, le32, le64, push_bytes, push_u32, push_u64, push_words, read_u32,
    read_u64, read_words, value32, value64, word_bytes, words_of,
};
use crate::store::error::WalError;
use crate::vector_store::MAX_DIM;
use crate::ExternalId;

verus! {

/// The first bytes of a log: "AWAL".
pub const MAGIC: [u8; 4] = [65, 87, 65, 76];

pub const FORMAT_VERSION: u32 = 1;

pub const HEADER_BYTES: usize = 16;

/// `len` and `crc32`, which sit outside what `len` counts.
pub const FRAME_BYTES: usize = 8;

/// What `len` counts before the payload: `seq` and `op`.
pub const PREFIX_BYTES: usize = 9;

/// Sanity bound on one record.
pub const MAX_RECORD_BYTES: usize = 0x100_0000;

pub const OP_INSERT: u8 = 1;

pub const OP_DELETE: u8 = 2;

pub const OP_CHECKPOINT: u8 = 3;

/// One logged operation.
#[derive(Clone, Debug, PartialEq, Eq)]
pub enum Record {
    Insert {
        external_id: ExternalId,
        /// The level the writer assigned. Replay uses it rather than drawing its own.
        level: u8,
        vector: Vec<u32>,
        metadata: Vec<u8>,
    },
    Delete { external_id: ExternalId },
    /// Marks that a snapshot containing everything up to `snapshot_wal_seq` is on disk.
    Checkpoint { snapshot_wal_seq: u64 },
}

/// What a record says.
pub enum Operation {
    Insert { external_id: ExternalId, level: u8, vector: Seq<u32>, metadata: Seq<u8> },
    Delete { external_id: ExternalId },
    Checkpoint { snapshot_wal_seq: u64 },
}

impl View for Record {
    type V = Operation;

    open spec fn view(&self) -> Operation {
        match *self {
            Record::Insert { external_id, level, vector, metadata } => Operation::Insert {
                external_id,
                level,
                vector: vector@,
                metadata: metadata@,
            },
            Record::Delete { external_id } => Operation::Delete { external_id },
            Record::Checkpoint { snapshot_wal_seq } => Operation::Checkpoint { snapshot_wal_seq },
        }
    }
}

pub open spec fn op_of(r: Operation) -> u8 {
    match r {
        Operation::Insert { .. } => OP_INSERT,
        Operation::Delete { .. } => OP_DELETE,
        Operation::Checkpoint { .. } => OP_CHECKPOINT,
    }
}

pub open spec fn payload_of(r: Operation) -> Seq<u8> {
    match r {
        Operation::Insert { external_id, level, vector, metadata } => le64(external_id) + seq![
            level,
        ] + word_bytes(vector) + le32(metadata.len() as u32) + metadata,
        Operation::Delete { external_id } => le64(external_id),
        Operation::Checkpoint { snapshot_wal_seq } => le64(snapshot_wal_seq),
    }
}

pub open spec fn payload_size(r: Operation) -> nat {
    match r {
        Operation::Insert { external_id, level, vector, metadata } => 13 + 4 * vector.len()
            + metadata.len(),
        _ => 8,
    }
}

/// What the checksum of a record covers.
pub open spec fn body_of(seq: u64, r: Operation) -> Seq<u8> {
    le64(seq) + seq![op_of(r)] + payload_of(r)
}

/// A record as the log holds it.
pub open spec fn record_bytes(seq: u64, r: Operation) -> Seq<u8> {
    le32(body_of(seq, r).len() as u32) + le32(crc32_of(body_of(seq, r))) + body_of(seq, r)
}

/// The size of a record in the log, framing included.
pub open spec fn record_size(r: Operation) -> nat {
    17 + payload_size(r)
}

pub proof fn lemma_record_size(seq: u64, r: Operation)
    ensures
        payload_of(r).len() == payload_size(r),
        body_of(seq, r).len() == 9 + payload_size(r),
        record_bytes(seq, r).len() == record_size(r),
{
    bytes::lemma_le64(seq, Seq::empty());
    bytes::lemma_le32(body_of(seq, r).len() as u32, Seq::empty());
    bytes::lemma_le32(crc32_of(body_of(seq, r)), Seq::empty());
    match r {
        Operation::Insert { external_id, level, vector, metadata } => {
            bytes::lemma_le64(external_id, Seq::empty());
            bytes::lemma_le32(metadata.len() as u32, Seq::empty());
            bytes::lemma_words_round_trip(vector);
        },
        Operation::Delete { external_id } => {
            bytes::lemma_le64(external_id, Seq::empty());
        },
        Operation::Checkpoint { snapshot_wal_seq } => {
            bytes::lemma_le64(snapshot_wal_seq, Seq::empty());
        },
    }
}

impl Record {
    fn op(&self) -> (r: u8)
        ensures
            r == op_of(self@),
    {
        match self {
            Record::Insert { .. } => OP_INSERT,
            Record::Delete { .. } => OP_DELETE,
            Record::Checkpoint { .. } => OP_CHECKPOINT,
        }
    }

    fn payload_len(&self) -> (r: usize)
        requires
            record_size(self@) <= usize::MAX,
        ensures
            r == payload_size(self@),
    {
        match self {
            Record::Insert { vector, metadata, .. } => 8 + 1 + vector.len() * 4 + 4
                + metadata.len(),
            Record::Delete { .. } => 8,
            Record::Checkpoint { .. } => 8,
        }
    }

    fn write_payload(&self, out: &mut Vec<u8>)
        requires
            record_size(self@) <= MAX_RECORD_BYTES,
        ensures
            final(out)@ == old(out)@ + payload_of(self@),
    {
        let ghost before = out@;
        match self {
            Record::Insert { external_id, level, vector, metadata } => {
                push_u64(out, *external_id);
                out.push(*level);
                push_words(out, vector.as_slice());
                push_u32(out, metadata.len() as u32);
                push_bytes(out, metadata.as_slice());
            },
            Record::Delete { external_id } => {
                push_u64(out, *external_id);
            },
            Record::Checkpoint { snapshot_wal_seq } => {
                push_u64(out, *snapshot_wal_seq);
            },
        }
        proof {
            assert(out@ =~= before + payload_of(self@));
        }
    }

    /// Bytes this record occupies on disk, framing included.
    pub fn encoded_len(&self) -> (r: usize)
        requires
            record_size(self@) <= usize::MAX,
        ensures
            r == record_size(self@),
            forall|seq: u64| r == (#[trigger] record_bytes(seq, self@)).len(),
    {
        proof {
            assert forall|seq: u64| record_size(self@) == (#[trigger] record_bytes(
                seq,
                self@,
            )).len() by {
                lemma_record_size(seq, self@);
            }
        }
        FRAME_BYTES + PREFIX_BYTES + self.payload_len()
    }
}

/// A number of records, at least one.
#[derive(Clone, Copy, Debug, PartialEq, Eq, Structural)]
pub struct Interval {
    count: u32,
}

impl Interval {
    #[verifier::type_invariant]
    spec fn positive(self) -> bool {
        self.count >= 1
    }

    pub closed spec fn length(&self) -> u32 {
        self.count
    }

    /// The interval of this many records.
    pub closed spec fn of(count: u32) -> Interval {
        Interval { count }
    }

    /// An interval is told by its length.
    pub proof fn lemma_length(interval: Interval, count: u32)
        ensures
            Interval::of(count).length() == count,
            interval == Interval::of(interval.length()),
    {
    }

    /// An interval of `count` records; none for zero.
    pub fn new(count: u32) -> (r: Option<Interval>)
        ensures
            r == if count >= 1 {
                Some(Interval::of(count))
            } else {
                None
            },
            r matches Some(interval) ==> interval.length() == count,
    {
        if count >= 1 {
            Some(Interval { count })
        } else {
            None
        }
    }

    pub fn get(&self) -> (r: u32)
        ensures
            r == self.length(),
            r >= 1,
    {
        proof {
            use_type_invariant(self);
        }
        self.count
    }
}

/// When the log is forced to disk.
#[derive(Clone, Copy, Debug, PartialEq, Eq, Structural)]
pub enum SyncPolicy {
    /// After every record: the only policy under which no acknowledged record is lost.
    Always,
    /// After every so many records: a power cut loses at most that many.
    EveryN(Interval),
    /// Never: a process crash loses nothing, a power cut whatever was not flushed.
    Never,
}

impl Default for SyncPolicy {
    fn default() -> (r: Self)
        ensures
            r == SyncPolicy::Always,
    {
        SyncPolicy::Always
    }
}

/// The bytes of a log that holds no records.
pub open spec fn log_header() -> Seq<u8> {
    MAGIC@ + le32(FORMAT_VERSION) + le64(0)
}

/// What became of an append.
#[derive(Clone, Copy, Debug, PartialEq, Eq, Structural)]
pub struct Appended {
    /// The sequence number the record was given.
    pub seq: u64,
    /// Whether the policy calls for the log to be forced to disk now.
    pub sync: bool,
}

/// The state of a log that is being appended to.
///
/// Writing a record takes three steps: [`Self::prepare`] makes its bytes, they are written to the
/// file in one piece, and [`Self::append`] takes note of that. An index is only updated after
/// these, so that nothing it can return has failed to be logged.
#[derive(Debug)]
pub struct WalWriter {
    next_seq: u64,
    policy: SyncPolicy,
    unsynced: u32,
    len: u64,
    owed: bool,
}

impl WalWriter {
    /// The sequence number the next record gets.
    pub closed spec fn upcoming(&self) -> u64 {
        self.next_seq
    }

    /// Bytes the log occupies.
    pub closed spec fn size(&self) -> u64 {
        self.len
    }

    pub closed spec fn rule(&self) -> SyncPolicy {
        self.policy
    }

    /// Records appended since the log was last forced to disk, as far as the policy counts them.
    pub closed spec fn pending(&self) -> u32 {
        self.unsynced
    }

    /// A record was appended that the policy calls for a sync after, and none was noted since.
    pub closed spec fn owes(&self) -> bool {
        self.owed
    }

    /// What the policy promises: unless a sync is due, fewer records than its interval are not on
    /// disk.
    pub open spec fn covered(&self) -> bool {
        match self.rule() {
            SyncPolicy::EveryN(n) => self.owes() || self.pending() < n.length(),
            _ => true,
        }
    }

    /// Starts a fresh log, whose file holds the bytes that come with it.
    pub fn create(policy: SyncPolicy, first_seq: u64) -> (r: (Self, Vec<u8>))
        ensures
            r.0.upcoming() == first_seq,
            r.0.size() == HEADER_BYTES,
            r.0.rule() == policy,
            r.0.pending() == 0,
            !r.0.owes(),
            r.0.covered(),
            r.1@ == log_header(),
            r.1@.len() == HEADER_BYTES,
    {
        if let SyncPolicy::EveryN(n) = policy {
            proof {
                use_type_invariant(&n);
            }
        }
        let mut header: Vec<u8> = Vec::with_capacity(HEADER_BYTES);
        push_bytes(&mut header, &MAGIC);
        push_u32(&mut header, FORMAT_VERSION);
        push_u64(&mut header, 0);
        proof {
            bytes::lemma_le32(FORMAT_VERSION, Seq::empty());
            bytes::lemma_le64(0, Seq::empty());
            assert(header@ =~= log_header());
        }
        (WalWriter { next_seq: first_seq, policy, unsynced: 0, len: 16, owed: false }, header)
    }

    /// Continues an existing log, of which only the first `valid_bytes` are kept.
    pub fn reopen(policy: SyncPolicy, next_seq: u64, valid_bytes: u64) -> (r: Self)
        ensures
            r.upcoming() == next_seq,
            r.size() == valid_bytes,
            r.rule() == policy,
            r.pending() == 0,
            !r.owes(),
            r.covered(),
    {
        if let SyncPolicy::EveryN(n) = policy {
            proof {
                use_type_invariant(&n);
            }
        }
        WalWriter { next_seq, policy, unsynced: 0, len: valid_bytes, owed: false }
    }

    /// The sequence number the next record gets.
    pub fn next_seq(&self) -> (r: u64)
        ensures
            r == self.upcoming(),
    {
        self.next_seq
    }

    /// Bytes the log occupies.
    pub fn len(&self) -> (r: u64)
        ensures
            r == self.size(),
    {
        self.len
    }

    pub fn is_empty(&self) -> (r: bool)
        ensures
            r == (self.size() <= HEADER_BYTES),
    {
        self.len <= 16
    }

    pub fn policy(&self) -> (r: SyncPolicy)
        ensures
            r == self.rule(),
    {
        self.policy
    }

    /// Whether a sync that the policy calls for has not been noted yet.
    pub fn sync_owed(&self) -> (r: bool)
        ensures
            r == self.owes(),
    {
        self.owed
    }

    /// The bytes that append `record` to the log, under the next sequence number. A record above
    /// the limit is refused.
    pub fn prepare(&self, record: &Record) -> (r: Result<Vec<u8>, WalError>)
        requires
            record_size(record@) <= usize::MAX,
        ensures
            match r {
                Ok(bytes) => {
                    &&& record_size(record@) <= MAX_RECORD_BYTES
                    &&& bytes@ == record_bytes(self.upcoming(), record@)
                    &&& bytes@.len() == record_size(record@)
                },
                Err(e) => {
                    &&& record_size(record@) > MAX_RECORD_BYTES
                    &&& e == (WalError::RecordTooLarge {
                        bytes: record_size(record@) as usize,
                        limit: MAX_RECORD_BYTES,
                    })
                },
            },
    {
        let encoded: usize = record.encoded_len();
        if encoded > MAX_RECORD_BYTES {
            return Err(WalError::RecordTooLarge { bytes: encoded, limit: MAX_RECORD_BYTES });
        }
        let ghost r = record@;
        let mut body: Vec<u8> = Vec::with_capacity(encoded);
        push_u64(&mut body, self.next_seq);
        body.push(record.op());
        record.write_payload(&mut body);
        proof {
            lemma_record_size(self.next_seq, r);
            assert(body@ =~= body_of(self.next_seq, r));
        }
        let checksum: u32 = crc32(body.as_slice());
        let mut out: Vec<u8> = Vec::with_capacity(encoded);
        push_u32(&mut out, body.len() as u32);
        push_u32(&mut out, checksum);
        push_bytes(&mut out, body.as_slice());
        proof {
            assert(out@ =~= record_bytes(self.next_seq, r));
        }
        Ok(out)
    }

    /// Takes note that the `written` bytes of a prepared record are in the file.
    pub fn append(&mut self, written: usize) -> (r: Appended)
        requires
            old(self).upcoming() < u64::MAX,
            old(self).size() + written <= u64::MAX,
        ensures
            r.seq == old(self).upcoming(),
            final(self).upcoming() == old(self).upcoming() + 1,
            final(self).size() == old(self).size() + written,
            final(self).rule() == old(self).rule(),
            final(self).pending() == match old(self).rule() {
                SyncPolicy::EveryN(n) => if old(self).pending() < u32::MAX {
                    (old(self).pending() + 1) as u32
                } else {
                    u32::MAX
                },
                _ => old(self).pending(),
            },
            r.sync == match old(self).rule() {
                SyncPolicy::Always => true,
                SyncPolicy::EveryN(n) => final(self).pending() >= n.length(),
                SyncPolicy::Never => false,
            },
            final(self).owes() == (old(self).owes() || r.sync),
            final(self).covered(),
    {
        let seq: u64 = self.next_seq;
        self.len = self.len + written as u64;
        self.next_seq = self.next_seq + 1;
        let sync = self.after_append();
        self.owed = self.owed || sync;
        Appended { seq, sync }
    }

    /// Counts one more record, and tells whether the policy calls for a sync.
    fn after_append(&mut self) -> (sync: bool)
        ensures
            final(self).next_seq == old(self).next_seq,
            final(self).len == old(self).len,
            final(self).policy == old(self).policy,
            final(self).owed == old(self).owed,
            final(self).unsynced == match old(self).policy {
                SyncPolicy::EveryN(n) => if old(self).unsynced < u32::MAX {
                    (old(self).unsynced + 1) as u32
                } else {
                    u32::MAX
                },
                _ => old(self).unsynced,
            },
            sync == match old(self).policy {
                SyncPolicy::Always => true,
                SyncPolicy::EveryN(n) => final(self).unsynced >= n.length(),
                SyncPolicy::Never => false,
            },
    {
        match self.policy {
            SyncPolicy::Always => true,
            SyncPolicy::EveryN(n) => {
                self.unsynced = self.unsynced.saturating_add(1);
                self.unsynced >= n.get()
            },
            SyncPolicy::Never => false,
        }
    }

    /// Takes note that everything written so far has been forced to disk.
    pub fn sync(&mut self)
        ensures
            final(self).pending() == 0,
            final(self).upcoming() == old(self).upcoming(),
            final(self).size() == old(self).size(),
            final(self).rule() == old(self).rule(),
            !final(self).owes(),
            final(self).covered(),
    {
        if let SyncPolicy::EveryN(n) = self.policy {
            proof {
                use_type_invariant(&n);
            }
        }
        self.owed = false;
        self.unsynced = 0;
    }
}

/// A record read back off the log.
#[derive(Clone, Debug, PartialEq, Eq)]
pub struct Framed {
    pub seq: u64,
    pub record: Record,
    /// Bytes this record occupied, framing included.
    pub bytes: usize,
}

/// Why the log stops here.
#[derive(Clone, Copy, Debug, PartialEq, Eq, Structural)]
pub enum Torn {
    /// Fewer than the framing bytes remain.
    ShortFrame { remaining: usize },
    /// A length that no writer could have produced.
    ImpossibleLength { len: usize },
    /// The length promises more bytes than there are.
    ShortPayload { needed: usize, remaining: usize },
    /// Everything is present and hashes to something else.
    BadChecksum { stored: u32, computed: u32 },
}

/// What reading one record produced.
#[derive(Clone, Debug, PartialEq, Eq)]
pub enum Next {
    Record(Framed),
    /// The log ends here, cleanly. Everything from this offset on is discarded.
    Torn(Torn),
}

/// What is at the front of a log.
pub enum Entry {
    Record { seq: u64, op: Operation, bytes: nat },
    Torn(Torn),
}

impl View for Next {
    type V = Entry;

    open spec fn view(&self) -> Entry {
        match *self {
            Next::Record(framed) => Entry::Record {
                seq: framed.seq,
                op: framed.record@,
                bytes: framed.bytes as nat,
            },
            Next::Torn(torn) => Entry::Torn(torn),
        }
    }
}

/// Whether bytes start with a log header.
pub open spec fn log_header_error(s: Seq<u8>) -> Option<WalError> {
    if s.len() < HEADER_BYTES {
        Some(WalError::TooShort { needed: HEADER_BYTES, got: s.len() as usize })
    } else if s.take(4) != MAGIC@ {
        Some(WalError::BadMagic { found: [s[0], s[1], s[2], s[3]] })
    } else if value32(s.subrange(4, 8)) != FORMAT_VERSION {
        Some(
            WalError::UnsupportedVersion {
                found: value32(s.subrange(4, 8)),
                supported: FORMAT_VERSION,
            },
        )
    } else {
        None
    }
}

/// Validates a log header and returns the offset the first record starts at.
pub fn read_header(bytes: &[u8]) -> (r: Result<usize, WalError>)
    ensures
        match r {
            Ok(at) => log_header_error(bytes@) is None && at == HEADER_BYTES,
            Err(e) => log_header_error(bytes@) == Some(e),
        },
{
    if bytes.len() < HEADER_BYTES {
        return Err(WalError::TooShort { needed: HEADER_BYTES, got: bytes.len() });
    }
    let ghost s = bytes@;
    if bytes[0] != MAGIC[0] || bytes[1] != MAGIC[1] || bytes[2] != MAGIC[2] || bytes[3]
        != MAGIC[3] {
        proof {
            if s.take(4) == MAGIC@ {
                assert(s.take(4)[0] == s[0] && s.take(4)[1] == s[1] && s.take(4)[2] == s[2]
                    && s.take(4)[3] == s[3]);
            }
        }
        return Err(WalError::BadMagic { found: [bytes[0], bytes[1], bytes[2], bytes[3]] });
    }
    proof {
        assert(s.take(4) =~= MAGIC@);
    }
    let version: u32 = read_u32(bytes, 4);
    if version != FORMAT_VERSION {
        return Err(WalError::UnsupportedVersion { found: version, supported: FORMAT_VERSION });
    }
    Ok(HEADER_BYTES)
}

/// What an insert's payload says, at the given dimension.
pub open spec fn insert_payload(seq: u64, p: Seq<u8>, dim: int) -> Result<Operation, WalError> {
    let meta_at = 9 + 4 * dim;
    if dim == 0 || dim > MAX_DIM {
        Err(
            WalError::MalformedPayload {
                seq,
                op: OP_INSERT,
                reason: "the collection's dimension is out of range",
            },
        )
    } else if p.len() < meta_at + 4 {
        Err(
            WalError::MalformedPayload {
                seq,
                op: OP_INSERT,
                reason: "payload is shorter than one vector at the collection's dimension",
            },
        )
    } else if p.len() - (meta_at + 4) != value32(p.subrange(meta_at, meta_at + 4)) {
        Err(
            WalError::MalformedPayload {
                seq,
                op: OP_INSERT,
                reason: "metadata length disagrees with the bytes that follow it",
            },
        )
    } else {
        Ok(
            Operation::Insert {
                external_id: value64(p.take(8)),
                level: p[8],
                vector: words_of(p.subrange(9, meta_at)),
                metadata: p.skip(meta_at + 4),
            },
        )
    }
}

/// A payload that is one 8-byte number.
pub open spec fn number_payload(seq: u64, op: u8, p: Seq<u8>) -> Result<u64, WalError> {
    if p.len() != 8 {
        Err(
            WalError::MalformedPayload {
                seq,
                op,
                reason: "payload is not exactly one 8-byte identifier",
            },
        )
    } else {
        Ok(value64(p))
    }
}

/// What an intact record body says.
pub open spec fn body_says(body: Seq<u8>, dim: int) -> Result<Operation, WalError> {
    let seq = value64(body.take(8));
    let op = body[8];
    let payload = body.skip(9);
    if op == OP_INSERT {
        insert_payload(seq, payload, dim)
    } else if op == OP_DELETE {
        match number_payload(seq, op, payload) {
            Ok(external_id) => Ok(Operation::Delete { external_id }),
            Err(e) => Err(e),
        }
    } else if op == OP_CHECKPOINT {
        match number_payload(seq, op, payload) {
            Ok(snapshot_wal_seq) => Ok(Operation::Checkpoint { snapshot_wal_seq }),
            Err(e) => Err(e),
        }
    } else {
        Err(WalError::UnknownOp { seq, op })
    }
}

/// What is at the front of a log. Framing that is short, impossible or does not match its
/// checksum ends the log; an intact body that does not parse is an error.
pub open spec fn front(s: Seq<u8>, dim: int) -> Result<Entry, WalError> {
    if s.len() < FRAME_BYTES {
        Ok(Entry::Torn(Torn::ShortFrame { remaining: s.len() as usize }))
    } else {
        let len = value32(s.take(4)) as nat;
        let stored = value32(s.subrange(4, 8));
        let body = s.subrange(8, 8 + len as int);
        if len < PREFIX_BYTES || len > MAX_RECORD_BYTES {
            Ok(Entry::Torn(Torn::ImpossibleLength { len: len as usize }))
        } else if s.len() - 8 < len {
            Ok(
                Entry::Torn(
                    Torn::ShortPayload { needed: len as usize, remaining: (s.len() - 8) as usize },
                ),
            )
        } else if crc32_of(body) != stored {
            Ok(Entry::Torn(Torn::BadChecksum { stored, computed: crc32_of(body) }))
        } else {
            match body_says(body, dim) {
                Ok(op) => Ok(Entry::Record { seq: value64(body.take(8)), op, bytes: 8 + len }),
                Err(e) => Err(e),
            }
        }
    }
}

/// The view of a result of [`read_record`].
pub open spec fn entry_of(r: Result<Next, WalError>) -> Result<Entry, WalError> {
    match r {
        Ok(next) => Ok(next@),
        Err(e) => Err(e),
    }
}

/// Reads the record starting at the front of `bytes`, whose vector has `dim` components.
pub fn read_record(bytes: &[u8], dim: usize) -> (r: Result<Next, WalError>)
    ensures
        entry_of(r) == front(bytes@, dim as int),
{
    if bytes.len() < FRAME_BYTES {
        return Ok(Next::Torn(Torn::ShortFrame { remaining: bytes.len() }));
    }
    let ghost s = bytes@;
    proof {
        assert(s.subrange(0, 4) =~= s.take(4));
    }
    let len: usize = read_u32(bytes, 0) as usize;
    let stored: u32 = read_u32(bytes, 4);
    if len < PREFIX_BYTES || len > MAX_RECORD_BYTES {
        return Ok(Next::Torn(Torn::ImpossibleLength { len }));
    }
    if bytes.len() - FRAME_BYTES < len {
        return Ok(
            Next::Torn(
                Torn::ShortPayload { needed: len, remaining: bytes.len() - FRAME_BYTES },
            ),
        );
    }
    let body = vstd::slice::slice_subrange(bytes, FRAME_BYTES, FRAME_BYTES + len);
    let computed: u32 = crc32(body);
    if computed != stored {
        return Ok(Next::Torn(Torn::BadChecksum { stored, computed }));
    }
    proof {
        assert(body@.subrange(0, 8) =~= body@.take(8));
        assert(body@.subrange(9, len as int) =~= body@.skip(9));
    }
    let seq: u64 = read_u64(body, 0);
    let op: u8 = body[8];
    let payload = vstd::slice::slice_subrange(body, PREFIX_BYTES, len);
    let record = if op == OP_INSERT {
        match decode_insert(seq, payload, dim) {
            Err(e) => {
                return Err(e);
            },
            Ok(record) => record,
        }
    } else if op == OP_DELETE {
        match payload_u64(seq, op, payload) {
            Err(e) => {
                return Err(e);
            },
            Ok(external_id) => Record::Delete { external_id },
        }
    } else if op == OP_CHECKPOINT {
        match payload_u64(seq, op, payload) {
            Err(e) => {
                return Err(e);
            },
            Ok(snapshot_wal_seq) => Record::Checkpoint { snapshot_wal_seq },
        }
    } else {
        return Err(WalError::UnknownOp { seq, op });
    };
    Ok(Next::Record(Framed { seq, record, bytes: FRAME_BYTES + len }))
}

fn decode_insert(seq: u64, payload: &[u8], dim: usize) -> (r: Result<Record, WalError>)
    ensures
        match r {
            Ok(record) => insert_payload(seq, payload@, dim as int) == Ok::<Operation, WalError>(
                record@,
            ),
            Err(e) => insert_payload(seq, payload@, dim as int) == Err::<Operation, WalError>(e),
        },
{
    if dim == 0 || dim > MAX_DIM {
        return Err(
            WalError::MalformedPayload {
                seq,
                op: OP_INSERT,
                reason: "the collection's dimension is out of range",
            },
        );
    }
    let meta_at: usize = 9 + 4 * dim;
    if payload.len() < meta_at + 4 {
        return Err(
            WalError::MalformedPayload {
                seq,
                op: OP_INSERT,
                reason: "payload is shorter than one vector at the collection's dimension",
            },
        );
    }
    let ghost p = payload@;
    let meta_len: u32 = read_u32(payload, meta_at);
    if payload.len() - (meta_at + 4) != meta_len as usize {
        return Err(
            WalError::MalformedPayload {
                seq,
                op: OP_INSERT,
                reason: "metadata length disagrees with the bytes that follow it",
            },
        );
    }
    proof {
        assert(p.subrange(0, 8) =~= p.take(8));
        assert(p.subrange(meta_at + 4, p.len() as int) =~= p.skip(meta_at + 4));
    }
    let external_id: u64 = read_u64(payload, 0);
    let level: u8 = payload[8];
    let vector = read_words(vstd::slice::slice_subrange(payload, 9, meta_at));
    let metadata = vstd::slice::slice_to_vec(
        vstd::slice::slice_subrange(payload, meta_at + 4, payload.len()),
    );
    Ok(Record::Insert { external_id, level, vector, metadata })
}

fn payload_u64(seq: u64, op: u8, payload: &[u8]) -> (r: Result<u64, WalError>)
    ensures
        r == number_payload(seq, op, payload@),
{
    if payload.len() != 8 {
        return Err(
            WalError::MalformedPayload {
                seq,
                op,
                reason: "payload is not exactly one 8-byte identifier",
            },
        );
    }
    proof {
        assert(payload@.subrange(0, 8) =~= payload@);
    }
    Ok(read_u64(payload, 0))
}

/// A record that a log of the given dimension can hold.
pub open spec fn fits(r: Operation, dim: int) -> bool {
    &&& record_size(r) <= MAX_RECORD_BYTES
    &&& match r {
        Operation::Insert { external_id, level, vector, metadata } => vector.len() == dim && 1
            <= dim <= MAX_DIM,
        _ => true,
    }
}

/// An intact body says what was written into it.
proof fn lemma_body_says(seq: u64, r: Operation, dim: int)
    requires
        fits(r, dim),
    ensures
        value64(body_of(seq, r).take(8)) == seq,
        body_says(body_of(seq, r), dim) == Ok::<Operation, WalError>(r),
{
    let body = body_of(seq, r);
    let p = payload_of(r);
    lemma_record_size(seq, r);
    bytes::lemma_le64(seq, Seq::empty());
    assert(body.take(8) =~= le64(seq));
    assert(body[8] == op_of(r));
    assert(body.skip(9) =~= p);
    match r {
        Operation::Insert { external_id, level, vector, metadata } => {
            let meta_at = 9 + 4 * dim;
            bytes::lemma_le64(external_id, Seq::empty());
            bytes::lemma_le32(metadata.len() as u32, Seq::empty());
            bytes::lemma_words_round_trip(vector);
            assert(p.take(8) =~= le64(external_id));
            assert(p[8] == level);
            assert(p.subrange(9, meta_at) =~= word_bytes(vector));
            assert(p.subrange(meta_at, meta_at + 4) =~= le32(metadata.len() as u32));
            assert(p.skip(meta_at + 4) =~= metadata);
        },
        Operation::Delete { external_id } => {
            bytes::lemma_le64(external_id, Seq::empty());
        },
        Operation::Checkpoint { snapshot_wal_seq } => {
            bytes::lemma_le64(snapshot_wal_seq, Seq::empty());
        },
    }
}

/// A record comes back from the log as it was written, whatever follows it.
pub proof fn lemma_record_reads_back(seq: u64, r: Operation, dim: int, rest: Seq<u8>)
    requires
        fits(r, dim),
    ensures
        front(record_bytes(seq, r) + rest, dim) == Ok::<Entry, WalError>(
            Entry::Record { seq, op: r, bytes: record_size(r) },
        ),
{
    let body = body_of(seq, r);
    let s = record_bytes(seq, r) + rest;
    let len = body.len() as u32;
    lemma_record_size(seq, r);
    lemma_body_says(seq, r, dim);
    bytes::lemma_le32(len, Seq::empty());
    bytes::lemma_le32(crc32_of(body), Seq::empty());
    assert(s.take(4) =~= le32(len));
    assert(s.subrange(4, 8) =~= le32(crc32_of(body)));
    assert(s.subrange(8, 8 + body.len() as int) =~= body);
}

/// Where everything stands in a record: the length of what the checksum covers, the checksum, the
/// number, the operation, and behind it what the operation is about.
pub proof fn lemma_record_layout(seq: u64, r: Operation)
    ensures
        ({
            let s = record_bytes(seq, r);
            &&& s.subrange(0, 4) == le32((s.len() - 8) as u32)
            &&& s.subrange(4, 8) == le32(crc32_of(s.skip(8)))
            &&& s.subrange(8, 16) == le64(seq)
            &&& match r {
                Operation::Insert { external_id, level, vector, metadata } => {
                    &&& s.len() == 30 + 4 * vector.len() + metadata.len()
                    &&& s[16] == 1
                    &&& s.subrange(17, 25) == le64(external_id)
                    &&& s[25] == level
                    &&& s.subrange(26, 26 + 4 * vector.len() as int) == word_bytes(vector)
                    &&& s.subrange(26 + 4 * vector.len() as int, 30 + 4 * vector.len() as int) == le32(
                        metadata.len() as u32,
                    )
                    &&& s.skip(30 + 4 * vector.len() as int) == metadata
                },
                Operation::Delete { external_id } => {
                    &&& s.len() == 25
                    &&& s[16] == 2
                    &&& s.skip(17) == le64(external_id)
                },
                Operation::Checkpoint { snapshot_wal_seq } => {
                    &&& s.len() == 25
                    &&& s[16] == 3
                    &&& s.skip(17) == le64(snapshot_wal_seq)
                },
            }
        }),
{
    let s = record_bytes(seq, r);
    let body = body_of(seq, r);
    let payload = payload_of(r);
    lemma_record_size(seq, r);
    bytes::lemma_le32(body.len() as u32, Seq::empty());
    bytes::lemma_le32(crc32_of(body), Seq::empty());
    bytes::lemma_le64(seq, Seq::empty());
    assert(s.subrange(0, 4) =~= le32((s.len() - 8) as u32));
    assert(s.skip(8) =~= body);
    assert(s.subrange(4, 8) =~= le32(crc32_of(s.skip(8))));
    assert(s.subrange(8, 16) =~= le64(seq));
    assert(s[16] == op_of(r));
    assert(s.skip(17) =~= payload);
    match r {
        Operation::Insert { external_id, level, vector, metadata } => {
            let words = word_bytes(vector);
            bytes::lemma_le64(external_id, Seq::empty());
            bytes::lemma_le32(metadata.len() as u32, Seq::empty());
            assert(words.len() == 4 * vector.len());
            assert(s.subrange(17, 25) =~= le64(external_id));
            assert(s[25] == level);
            assert(s.subrange(26, 26 + 4 * vector.len() as int) =~= words);
            assert(s.subrange(26 + 4 * vector.len() as int, 30 + 4 * vector.len() as int) =~= le32(
                metadata.len() as u32,
            ));
            assert(s.skip(30 + 4 * vector.len() as int) =~= metadata);
        },
        _ => {},
    }
}

/// A log starts with "AWAL" and the version, and eight bytes of nothing.
pub proof fn lemma_log_header_bytes()
    ensures
        log_header() == seq![65u8, 87, 65, 76, 1, 0, 0, 0, 0, 0, 0, 0, 0, 0, 0, 0],
{
    bytes::lemma_le32(FORMAT_VERSION, Seq::empty());
    bytes::lemma_le64(0, Seq::empty());
    reveal(le32);
    assert(le32(FORMAT_VERSION) =~= seq![1u8, 0, 0, 0]);
    assert(le64(0) =~= seq![0u8, 0, 0, 0, 0, 0, 0, 0]);
    assert(log_header() =~= seq![65u8, 87, 65, 76, 1, 0, 0, 0, 0, 0, 0, 0, 0, 0, 0, 0]);
}

/// Bytes are accepted as the start of a log if and only if there are sixteen of them, the first
/// four are "AWAL" and the next four are the version.
pub proof fn lemma_log_header_error(s: Seq<u8>)
    ensures
        log_header_error(s) is None <==> s.len() >= 16 && s[0] == 65 && s[1] == 87 && s[2] == 65
            && s[3] == 76 && s.subrange(4, 8) == le32(1),
        match log_header_error(s) {
            Some(WalError::TooShort { needed, got }) => needed == 16 && s.len() < 16 && got
                == s.len(),
            Some(WalError::BadMagic { found }) => s.len() >= 16 && found@ == s.take(4)
                && found@ != seq![65u8, 87, 65, 76],
            Some(WalError::UnsupportedVersion { found, supported }) => supported == 1 && found != 1
                && s.subrange(4, 8) == le32(found),
            Some(_) => false,
            None => true,
        },
{
    if s.len() >= 16 {
        bytes::lemma_le32(1, s.subrange(4, 8));
        assert(MAGIC@ =~= seq![65u8, 87, 65, 76]);
        assert([s[0], s[1], s[2], s[3]]@ =~= s.take(4));
        if s[0] == 65 && s[1] == 87 && s[2] == 65 && s[3] == 76 {
            assert(s.take(4) =~= MAGIC@);
        }
        if s.take(4) == MAGIC@ {
            assert(s.take(4)[0] == s[0] && s.take(4)[1] == s[1] && s.take(4)[2] == s[2]
                && s.take(4)[3] == s[3]);
        }
    }
}

/// A record is read only where it was written: whatever is read as a record at the front of a log
/// is the bytes of that record, with a vector of as many components as the log's have.
#[verifier::spinoff_prover]
#[verifier::rlimit(40)]
pub proof fn lemma_read_record_was_written(s: Seq<u8>, dim: int)
    requires
        0 <= dim,
    ensures
        front(s, dim) matches Ok(Entry::Record { seq, op, bytes }) ==> {
            &&& bytes == record_size(op) <= s.len()
            &&& s.take(bytes as int) == record_bytes(seq, op)
            &&& op is Insert ==> op->Insert_vector.len() == dim && 1 <= dim <= 4096
        },
{
    if let Ok(Entry::Record { seq, op, bytes: size }) = front(s, dim) {
        let len = value32(s.take(4)) as nat;
        let body = s.subrange(8, 8 + len as int);
        let payload = body.skip(9);
        bytes::lemma_le32(0, s.take(4));
        bytes::lemma_le32(0, s.subrange(4, 8));
        bytes::lemma_le64(0, body.take(8));
        assert(body =~= body.take(8) + seq![body[8]] + payload);
        match op {
            Operation::Insert { external_id, level, vector, metadata } => {
                let meta_at = 9 + 4 * dim;
                let words = payload.subrange(9, meta_at);
                bytes::lemma_le64(0, payload.take(8));
                bytes::lemma_le32(0, payload.subrange(meta_at, meta_at + 4));
                assert(vector.len() == dim);
                assert forall|i: int| 0 <= i < words.len() implies #[trigger] words[i]
                    == word_bytes(vector)[i] by {
                    let word = words.subrange(4 * (i / 4), 4 * (i / 4) + 4);
                    bytes::lemma_le32(0, word);
                    assert(vector[i / 4] == value32(word));
                    assert(word[i % 4] == words[i]);
                }
                assert(words =~= word_bytes(vector));
                assert(payload =~= payload.take(8) + seq![payload[8]] + words + payload.subrange(
                    meta_at,
                    meta_at + 4,
                ) + payload.skip(meta_at + 4));
                assert(payload == payload_of(op));
            },
            _ => {
                bytes::lemma_le64(0, payload);
            },
        }
        assert(body == body_of(seq, op));
        assert(s.take(size as int) =~= s.take(4) + s.subrange(4, 8) + body);
        lemma_record_size(seq, op);
    }
}

/// What ends a log, told by the bytes alone: too few for a frame, a length that no record has, fewer
/// bytes than the length promises, or a checksum that is not that of the bytes. What is intact and
/// says nothing is an error.
pub proof fn lemma_front(s: Seq<u8>, dim: int)
    ensures
        match front(s, dim) {
            Ok(Entry::Torn(Torn::ShortFrame { remaining })) => s.len() < 8 && remaining == s.len(),
            Ok(Entry::Torn(Torn::ImpossibleLength { len })) => s.len() >= 8 && s.take(4) == le32(
                len as u32,
            ) && len <= u32::MAX && (len < 9 || len > 16777216),
            Ok(Entry::Torn(Torn::ShortPayload { needed, remaining })) => s.len() >= 8 && s.take(4)
                == le32(needed as u32) && 9 <= needed <= 16777216 && (s.len() - 8 <= usize::MAX
                ==> remaining == s.len() - 8) && s.len() - 8 < needed,
            Ok(Entry::Torn(Torn::BadChecksum { stored, computed })) => {
                let len = value32(s.take(4)) as int;
                &&& s.len() >= 8 + len
                &&& s.subrange(4, 8) == le32(stored)
                &&& computed == crc32_of(s.subrange(8, 8 + len))
                &&& stored != computed
            },
            Ok(Entry::Record { .. }) => s.len() >= 17,
            Err(WalError::UnknownOp { seq, op }) => s.len() >= 17 && s[16] == op && (op == 0 || op
                > 3) && s.subrange(8, 16) == le64(seq),
            Err(WalError::MalformedPayload { seq, op, reason }) => s.len() >= 17 && s[16] == op && 1
                <= op <= 3 && s.subrange(8, 16) == le64(seq),
            Err(_) => false,
        },
{
    if s.len() >= 8 {
        bytes::lemma_le32(0, s.take(4));
        bytes::lemma_le32(0, s.subrange(4, 8));
        let len = value32(s.take(4)) as int;
        if 9 <= len <= s.len() - 8 {
            let body = s.subrange(8, 8 + len);
            bytes::lemma_le64(0, body.take(8));
            assert(body.take(8) =~= s.subrange(8, 16));
            assert(body[8] == s[16]);
        }
    }
}

/// A log that stops anywhere inside a record ends cleanly before it: no cut turns into an error
/// or into another record.
pub proof fn lemma_cut_record_is_torn(seq: u64, r: Operation, dim: int, kept: nat)
    requires
        fits(r, dim),
        kept < record_size(r),
    ensures
        front(record_bytes(seq, r).take(kept as int), dim) == Ok::<Entry, WalError>(
            Entry::Torn(
                if kept < FRAME_BYTES {
                    Torn::ShortFrame { remaining: kept as usize }
                } else {
                    Torn::ShortPayload {
                        needed: (record_size(r) - FRAME_BYTES) as usize,
                        remaining: (kept - FRAME_BYTES) as usize,
                    }
                },
            ),
        ),
{
    let body = body_of(seq, r);
    let s = record_bytes(seq, r).take(kept as int);
    lemma_record_size(seq, r);
    if kept >= FRAME_BYTES {
        bytes::lemma_le32(body.len() as u32, Seq::empty());
        assert(s.take(4) =~= le32(body.len() as u32));
    }
}

/// A record that is damaged behind its length is noticed: with any one byte of its checksum or of
/// what that covers changed, the log ends before it.
pub proof fn lemma_damaged_record_is_torn(
    seq: u64,
    r: Operation,
    dim: int,
    at: int,
    byte: u8,
    rest: Seq<u8>,
)
    requires
        fits(r, dim),
        4 <= at < record_size(r),
        byte != record_bytes(seq, r)[at],
    ensures
        ({
            let s = record_bytes(seq, r).update(at, byte) + rest;
            front(s, dim) == Ok::<Entry, WalError>(
                Entry::Torn(
                    Torn::BadChecksum {
                        stored: value32(s.subrange(4, 8)),
                        computed: crc32_of(s.subrange(8, record_size(r) as int)),
                    },
                ),
            )
        }),
{
    let body = body_of(seq, r);
    let sum = le32(crc32_of(body));
    let s = record_bytes(seq, r).update(at, byte) + rest;
    lemma_record_size(seq, r);
    bytes::lemma_le32(body.len() as u32, Seq::empty());
    bytes::lemma_le32(crc32_of(body), s.subrange(4, 8));
    assert(s.take(4) =~= le32(body.len() as u32));
    if at < 8 {
        assert(s.subrange(8, record_size(r) as int) =~= body);
        assert(s.subrange(4, 8)[at - 4] == byte);
        assert(sum[at - 4] != byte);
    } else {
        assert(s.subrange(4, 8) =~= sum);
        assert(s.subrange(8, record_size(r) as int) =~= body.update(at - 8, byte));
        bytes::lemma_changed_byte_is_noticed(body, at - 8, byte);
    }
}

/// A fresh log's header is a log header, whatever follows it.
pub proof fn lemma_log_header(rest: Seq<u8>)
    ensures
        log_header().len() == HEADER_BYTES,
        log_header_error(log_header() + rest) is None,
{
    bytes::lemma_le32(FORMAT_VERSION, Seq::empty());
    bytes::lemma_le64(0, Seq::empty());
    let s = log_header() + rest;
    assert(s.take(4) =~= MAGIC@);
    assert(s.subrange(4, 8) =~= le32(FORMAT_VERSION));
}

} // verus!
