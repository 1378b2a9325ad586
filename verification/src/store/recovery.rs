//! Rebuilding an index from a snapshot plus whatever the log holds after it.
//!
//! ```text
//! 1. load the snapshot; S = header.wal_seq  (no snapshot: S = 0 and an empty index)
//! 2. validate the log header: a mismatch is an error, and the file is left alone
//! 3. read records in order:  seq <= S  skip, the snapshot already has them
//!                            seq >  S  replay
//! 4. stop cleanly at the first of: fewer than 8 bytes left, payload short of `len`,
//!    checksum mismatch, or a sequence number that is not the previous plus one
//! 5. the caller truncates to that offset and appends from there, or starts a fresh log where
//!    the snapshot reaches past the last record
//! ```
//!
//! Stopping is not failing: a log is expected to end mid-record. Recovery reports where the intact
//! records end and why, and the tail is discarded. It never skips past a bad record.
//!
//! Replay inserts at the level in the record and never draws one, so that it rebuilds the graph
//! that the log describes.

use vstd::prelude::*;

use crate::hnsw::graph::{inserted, lemma_inserted_appends, Graph};
use crate::hnsw::index::{refused_at, HnswIndex};
use crate::hnsw::params::{HnswParams, MAX_LEVEL};
use crate::hnsw::search::Searcher;
use crate::hnsw::stats::{Count, DistanceCounter};
use crate::metric::{is_metric, stands_for, Metric};
use crate::store::bytes::words_of;
use crate::store::error::{RecoveryError, WalError};
use crate::store::header::decoded;
use crate::store::snapshot::{self, contents_of, index_holds, load_error, Contents, Verify};
use crate::store::wal::{
    self, fits, front, log_header, log_header_error, record_bytes, record_size, Entry, Next,
    Operation, Record, Torn, HEADER_BYTES,
};

verus! {

/// How the log ended.
#[derive(Clone, Copy, Debug, PartialEq, Eq, Structural)]
pub enum Tail {
    /// The last record ended exactly where the file does.
    Clean,
    /// The log stops partway through a record.
    Torn(Torn),
    /// A sequence number is not the previous plus one.
    SequenceGap { expected: u64, found: u64 },
}

impl Tail {
    /// Whether anything was discarded.
    pub fn truncated(self) -> (r: bool)
        ensures
            r == (self != Tail::Clean),
    {
        match self {
            Tail::Clean => false,
            _ => true,
        }
    }
}

/// An index brought back up to date, and what it took.
#[derive(Debug)]
pub struct Recovered<'a> {
    pub index: HnswIndex<'a>,
    /// Where the intact records end. The log is truncated here before anything is appended.
    pub valid_bytes: u64,
    /// The sequence number the next append takes.
    pub next_seq: u64,
    /// The number that the intact records go on with, if there are any. It is below `next_seq`
    /// where the snapshot reaches past the log: then nothing can be appended to that log, and a
    /// fresh one takes its place.
    pub continues: Option<u64>,
    pub tail: Tail,
    /// Records replayed into the index.
    pub replayed: usize,
    /// Records the snapshot already contained.
    pub skipped: usize,
}

/// How far a replay has come.
pub struct Progress {
    pub graph: Graph,
    /// Where the records that were accepted end.
    pub at: int,
    /// The sequence number that the next record has to have, once there was one.
    pub expected: Option<int>,
    /// The highest sequence number known.
    pub last: int,
    pub replayed: nat,
    pub skipped: nat,
}

/// The graph after a record, or why the record cannot be applied.
pub open spec fn applied<M: Metric>(
    g: Graph,
    params: HnswParams,
    dim: int,
    seq: u64,
    op: Operation,
) -> Result<Graph, RecoveryError> {
    match op {
        Operation::Insert { external_id, level, vector, metadata } => if level > MAX_LEVEL {
            Err(RecoveryError::Wal(WalError::LevelOutOfRange { seq, level }))
        } else {
            match refused_at(g.vecs.len(), dim as nat, vector) {
                Some(e) => Err(RecoveryError::Wal(WalError::Index(e))),
                None => Ok(inserted::<M>(g, params, vector, level as nat)),
            }
        },
        Operation::Delete { external_id } => Err(RecoveryError::CannotReplayDelete { seq }),
        Operation::Checkpoint { snapshot_wal_seq } => Ok(g),
    }
}

/// A record takes up at least its framing and prefix, and no more than there is.
pub proof fn lemma_front_size(s: Seq<u8>, dim: int)
    ensures
        match front(s, dim) {
            Ok(Entry::Record { seq, op, bytes }) => 17 <= bytes <= s.len(),
            _ => true,
        },
{
}

/// The progress that a record leads to, if it is the next one and can be applied.
pub open spec fn advanced<M: Metric>(
    p: Progress,
    params: HnswParams,
    dim: int,
    contains: int,
    seq: u64,
    op: Operation,
    bytes: nat,
) -> Result<Progress, RecoveryError> {
    let after = Progress {
        graph: p.graph,
        at: p.at + bytes,
        expected: Some(seq + 1),
        last: if seq > p.last {
            seq as int
        } else {
            p.last
        },
        replayed: p.replayed,
        skipped: p.skipped,
    };
    if p.expected is None && seq > contains + 1 {
        Err(RecoveryError::MissingRecords { contains: contains as u64, found: seq })
    } else if seq > contains {
        match applied::<M>(p.graph, params, dim, seq, op) {
            Err(e) => Err(e),
            Ok(graph) => Ok(Progress { graph, replayed: p.replayed + 1, ..after }),
        }
    } else {
        Ok(Progress { skipped: p.skipped + 1, ..after })
    }
}

/// What replaying the records in `rest` comes to: how far it gets and how the log ends there, or
/// why it cannot go on.
pub open spec fn replay_from<M: Metric>(
    rest: Seq<u8>,
    p: Progress,
    params: HnswParams,
    dim: int,
    contains: int,
) -> Result<(Progress, Tail), RecoveryError>
    decreases rest.len(),
{
    proof {
        lemma_front_size(rest, dim);
    }
    match front(rest, dim) {
        Err(e) => Err(RecoveryError::Wal(e)),
        Ok(Entry::Torn(torn)) => Ok(
            (
                p,
                if torn == (Torn::ShortFrame { remaining: 0 }) {
                    Tail::Clean
                } else {
                    Tail::Torn(torn)
                },
            ),
        ),
        Ok(Entry::Record { seq, op, bytes }) => if p.expected is Some && seq != p.expected->0 {
            Ok((p, Tail::SequenceGap { expected: p.expected->0 as u64, found: seq }))
        } else {
            match advanced::<M>(p, params, dim, contains, seq, op, bytes) {
                Err(e) => Err(e),
                Ok(next) => replay_from::<M>(
                    rest.skip(bytes as int),
                    next,
                    params,
                    dim,
                    contains,
                ),
            }
        },
    }
}

/// Before any record is read.
pub open spec fn starting(g: Graph, contains: int, at: int) -> Progress {
    Progress { graph: g, at, expected: None, last: contains, replayed: 0, skipped: 0 }
}

/// What recovery makes of a graph that contains the records up to `contains` and of its log, if
/// there is one.
pub open spec fn recovery_of<M: Metric>(
    g: Graph,
    params: HnswParams,
    dim: int,
    contains: int,
    log: Option<Seq<u8>>,
) -> Result<(Progress, Tail), RecoveryError> {
    match log {
        None => Ok((starting(g, contains, 0), Tail::Clean)),
        Some(s) => match log_header_error(s) {
            Some(e) => Err(RecoveryError::Wal(e)),
            None => replay_from::<M>(s.skip(16), starting(g, contains, 16), params, dim, contains),
        },
    }
}

/// A replay that expects `expected` next comes to an insert that is to be applied.
pub open spec fn inserts(rest: Seq<u8>, dim: int, contains: int, expected: Option<int>) -> bool
    decreases rest.len(),
{
    proof {
        lemma_front_size(rest, dim);
    }
    match front(rest, dim) {
        Ok(Entry::Record { seq, op, bytes }) => if match expected {
            Some(want) => seq != want,
            None => seq > contains + 1,
        } {
            false
        } else if seq > contains && !(op is Checkpoint) {
            op matches Operation::Insert { level, .. } && level <= MAX_LEVEL
        } else {
            inserts(rest.skip(bytes as int), dim, contains, Some(seq + 1))
        },
        _ => false,
    }
}

/// Recovery with this log comes to an insert.
pub open spec fn recovery_inserts(log: Option<Seq<u8>>, dim: int, contains: int) -> bool {
    match log {
        Some(s) => log_header_error(s) is None && inserts(s.skip(16), dim, contains, None),
        None => false,
    }
}

/// The log as a sequence, if there is one.
pub open spec fn log_seq(log: Option<&[u8]>) -> Option<Seq<u8>> {
    match log {
        Some(bytes) => Some(bytes@),
        None => None,
    }
}

/// The address space has room for `more` vectors.
pub open spec fn room_for(index: &HnswIndex, more: int) -> bool {
    (index@.vecs.len() + more) * (index.settings().base_cap() + 1) <= usize::MAX
}

/// The recovered index is the one that a replay comes to.
pub open spec fn recovered_as<'a>(
    r: Recovered<'a>,
    before: HnswIndex<'a>,
    p: Progress,
    tail: Tail,
) -> bool {
    &&& r.index.wf()
    &&& before.insertable() ==> r.index.insertable()
    &&& before.valid() ==> r.index.valid()
    &&& r.index@ == p.graph
    &&& r.index.kept_from(&before)
    &&& r.index.level_state() == before.level_state()
    &&& r.valid_bytes == p.at
    &&& r.next_seq == p.last + 1
    &&& match (r.continues, p.expected) {
        (None, None) => true,
        (Some(next), Some(expected)) => next == expected,
        _ => false,
    }
    &&& r.tail == tail
    &&& r.replayed == p.replayed
    &&& r.skipped == p.skipped
}

/// Replays a log onto `index`, which already contains every record up to `contains`. Without a
/// log there is nothing to replay: a collection that was checkpointed and not written to since.
pub fn replay<'a, M: Metric>(index: HnswIndex<'a>, contains: u64, log: Option<&[u8]>) -> (r: Result<
    Recovered<'a>,
    RecoveryError,
>)
    requires
        index.wf(),
        recovery_inserts(log_seq(log), index.width() as int, contains as int)
            ==> index.insertable(),
        stands_for::<M>(index.kind()),
        contains + (match log_seq(log) {
            Some(s) => s.len() as int,
            None => 0,
        }) < u64::MAX,
        log matches Some(bytes) ==> room_for(&index, bytes@.len() as int),
    ensures
        match (
            r,
            recovery_of::<M>(
                index@,
                index.settings(),
                index.width() as int,
                contains as int,
                log_seq(log),
            ),
        ) {
            (Ok(recovered), Ok((p, tail))) => recovered_as(recovered, index, p, tail),
            (Err(e), Err(f)) => e == f,
            _ => false,
        },
{
    let bytes = match log {
        None => {
            return Ok(
                Recovered {
                    index,
                    valid_bytes: 0,
                    next_seq: contains + 1,
                    continues: None,
                    tail: Tail::Clean,
                    replayed: 0,
                    skipped: 0,
                },
            );
        },
        Some(bytes) => bytes,
    };
    match wal::read_header(bytes) {
        Err(e) => Err(RecoveryError::Wal(e)),
        Ok(_) => run::<M>(index, contains, bytes),
    }
}

/// Reads the records of a log one after the other.
fn run<'a, M: Metric>(index: HnswIndex<'a>, contains: u64, bytes: &[u8]) -> (r: Result<
    Recovered<'a>,
    RecoveryError,
>)
    requires
        index.wf(),
        inserts(bytes@.skip(16), index.width() as int, contains as int, None)
            ==> index.insertable(),
        stands_for::<M>(index.kind()),
        bytes@.len() >= HEADER_BYTES,
        contains + bytes@.len() < u64::MAX,
        room_for(&index, bytes@.len() as int),
    ensures
        match (
            r,
            replay_from::<M>(
                bytes@.skip(16),
                starting(index@, contains as int, 16),
                index.settings(),
                index.width() as int,
                contains as int,
            ),
        ) {
            (Ok(recovered), Ok((p, tail))) => recovered_as(recovered, index, p, tail),
            (Err(e), Err(f)) => e == f,
            _ => false,
        },
{
    let ghost before = index;
    let ghost params = index.settings();
    let ghost outcome = replay_from::<M>(
        bytes@.skip(16),
        starting(index@, contains as int, 16),
        params,
        index.width() as int,
        contains as int,
    );
    let ghost mut p = starting(index@, contains as int, 16);
    let mut current = index;
    let dim: usize = current.dim();
    let total: usize = bytes.len();
    let mut searcher = current.searcher();
    let mut counter = DistanceCounter::new();
    let mut offset: usize = HEADER_BYTES;
    let mut expected: Option<u64> = None;
    let mut last_seq: u64 = contains;
    let mut replayed: usize = 0;
    let mut skipped: usize = 0;
    loop
        invariant
            total == bytes@.len(),
            before == index,
            outcome == replay_from::<M>(
                bytes@.skip(16),
                starting(before@, contains as int, 16),
                params,
                dim as int,
                contains as int,
            ),
            dim == before.width(),
            params == before.settings(),
            HEADER_BYTES <= offset <= total,
            contains + total < u64::MAX,
            room_for(&before, total as int),
            stands_for::<M>(before.kind()),
            current.wf(),
            inserts(bytes@.skip(offset as int), dim as int, contains as int, p.expected)
                ==> current.insertable(),
            before.insertable() ==> current.insertable(),
            before.valid() ==> current.valid(),
            searcher.wf(),
            current@ == p.graph,
            current.kept_from(&before),
            current.level_state() == before.level_state(),
            current@.vecs.len() <= before@.vecs.len() + replayed,
            offset == p.at,
            last_seq == p.last,
            replayed == p.replayed,
            skipped == p.skipped,
            replayed + skipped + HEADER_BYTES <= offset,
            match (expected, p.expected) {
                (None, None) => replayed + skipped == 0,
                (Some(e), Some(f)) => e == f && e <= contains + 1 + replayed + skipped,
                _ => false,
            },
            last_seq <= contains + replayed + skipped,
            outcome == replay_from::<M>(
                bytes@.skip(offset as int),
                p,
                params,
                dim as int,
                contains as int,
            ),
        decreases total - offset,
    {
        let rest = vstd::slice::slice_subrange(bytes, offset, total);
        proof {
            assert(rest@ =~= bytes@.skip(offset as int));
            lemma_front_size(rest@, dim as int);
        }
        let framed = match wal::read_record(rest, dim) {
            Err(e) => {
                return Err(RecoveryError::Wal(e));
            },
            Ok(Next::Torn(torn)) => {
                let tail = match torn {
                    Torn::ShortFrame { remaining } => if remaining == 0 {
                        Tail::Clean
                    } else {
                        Tail::Torn(torn)
                    },
                    _ => Tail::Torn(torn),
                };
                return Ok(
                    Recovered {
                        index: current,
                        valid_bytes: offset as u64,
                        next_seq: last_seq + 1,
                        continues: expected,
                        tail,
                        replayed,
                        skipped,
                    },
                );
            },
            Ok(Next::Record(framed)) => framed,
        };
        let seq: u64 = framed.seq;
        match expected {
            Some(want) => {
                if seq != want {
                    return Ok(
                        Recovered {
                            index: current,
                            valid_bytes: offset as u64,
                            next_seq: last_seq + 1,
                            continues: expected,
                            tail: Tail::SequenceGap { expected: want, found: seq },
                            replayed,
                            skipped,
                        },
                    );
                }
            },
            None => {
                if seq > contains + 1 {
                    return Err(RecoveryError::MissingRecords { contains, found: seq });
                }
            },
        }
        let ghost next = advanced::<M>(
            p,
            params,
            dim as int,
            contains as int,
            seq,
            framed.record@,
            framed.bytes as nat,
        );
        if seq > contains {
            proof {
                lemma_room(
                    current@.vecs.len() as int,
                    before@.vecs.len() as int,
                    total as int,
                    params.base_cap() as int,
                );
            }
            match apply::<M>(&mut current, &mut searcher, &mut counter, &framed.record, seq) {
                Err(e) => {
                    return Err(e);
                },
                Ok(_) => {},
            }
            replayed += 1;
        } else {
            skipped += 1;
        }
        expected = Some(seq + 1);
        last_seq = if seq > last_seq {
            seq
        } else {
            last_seq
        };
        proof {
            assert(rest@.skip(framed.bytes as int) =~= bytes@.skip(offset + framed.bytes));
            p = next->Ok_0;
        }
        offset += framed.bytes;
    }
}

proof fn lemma_room(now: int, before: int, more: int, cap: int)
    requires
        0 <= now < before + more,
        0 <= cap,
        (before + more) * (cap + 1) <= usize::MAX,
    ensures
        (now + 1) * (cap + 1) <= usize::MAX,
{
    assert((now + 1) * (cap + 1) <= (before + more) * (cap + 1)) by (nonlinear_arith)
        requires
            now + 1 <= before + more,
            0 <= cap,
    ;
}

/// Applies one record to the index.
fn apply<'a, M: Metric>(
    index: &mut HnswIndex<'a>,
    searcher: &mut Searcher,
    counter: &mut impl Count,
    record: &Record,
    seq: u64,
) -> (r: Result<(), RecoveryError>)
    requires
        old(index).wf(),
        record@ matches Operation::Insert { level, .. } && level <= MAX_LEVEL ==> old(
            index,
        ).insertable(),
        old(index).has_room(),
        stands_for::<M>(old(index).kind()),
        old(searcher).wf(),
    ensures
        final(index).wf(),
        record@ is Checkpoint ==> *final(index) == *old(index),
        old(index).insertable() ==> final(index).insertable(),
        old(index).valid() ==> final(index).valid(),
        final(searcher).wf(),
        final(index).kept_from(old(index)),
        final(index).level_state() == old(index).level_state(),
        final(index)@.vecs.len() <= old(index)@.vecs.len() + 1,
        match (
            r,
            applied::<M>(
                old(index)@,
                old(index).settings(),
                old(index).width() as int,
                seq,
                record@,
            ),
        ) {
            (Ok(_), Ok(graph)) => final(index)@ == graph,
            (Err(e), Err(f)) => e == f,
            _ => false,
        },
{
    proof {
        index.lemma_wf();
    }
    match record {
        Record::Insert { level, vector, .. } => {
            if *level as usize > MAX_LEVEL {
                return Err(RecoveryError::Wal(WalError::LevelOutOfRange { seq, level: *level }));
            }
            proof {
                lemma_inserted_appends::<M>(
                    index@,
                    index.settings(),
                    vector@,
                    *level as nat,
                );
            }
            match index.insert_at_level::<M>(searcher, vector.as_slice(), *level as usize, counter) {
                Err(e) => Err(RecoveryError::Wal(WalError::Index(e))),
                Ok(_) => Ok(()),
            }
        },
        Record::Delete { .. } => Err(RecoveryError::CannotReplayDelete { seq }),
        Record::Checkpoint { .. } => Ok(()),
    }
}

/// A snapshot that can be brought up to date with a log: its graph can be inserted into if the log
/// has an insert for it, its metric is `M`, and neither the sequence numbers nor the address space
/// run out.
pub open spec fn openable<M: Metric>(c: Contents, log: Option<Seq<u8>>) -> bool {
    let more = match log {
        Some(s) => s.len() as int,
        None => 0,
    };
    &&& recovery_inserts(log, c.header.dim as int, c.header.wal_seq as int) ==> forall|
        index: HnswIndex,
    | #[trigger]
        index_holds(index, c) ==> index.insertable()
    &&& stands_for::<M>(c.header.metric)
    &&& c.header.wal_seq + more < u64::MAX
    &&& (c.header.count + more) * (c.header.max_degree0 + 1) <= usize::MAX
}

/// Whether recovery with this log comes to an insert.
fn has_insert(log: Option<&[u8]>, dim: usize, contains: u64) -> (r: bool)
    requires
        contains + (match log_seq(log) {
            Some(s) => s.len() as int,
            None => 0,
        }) < u64::MAX,
    ensures
        r == recovery_inserts(log_seq(log), dim as int, contains as int),
{
    let bytes = match log {
        None => {
            return false;
        },
        Some(bytes) => bytes,
    };
    if wal::read_header(bytes).is_err() {
        return false;
    }
    let total: usize = bytes.len();
    let mut offset: usize = HEADER_BYTES;
    let mut expected: Option<u64> = None;
    let ghost mut follows: Option<int> = None;
    loop
        invariant
            total == bytes@.len(),
            contains + total < u64::MAX,
            HEADER_BYTES <= offset <= total,
            match (expected, follows) {
                (None, None) => true,
                (Some(want), Some(f)) => want == f && want <= contains + offset,
                _ => false,
            },
            recovery_inserts(log_seq(log), dim as int, contains as int) == inserts(
                bytes@.skip(offset as int),
                dim as int,
                contains as int,
                follows,
            ),
        decreases total - offset,
    {
        let rest = vstd::slice::slice_subrange(bytes, offset, total);
        proof {
            assert(rest@ =~= bytes@.skip(offset as int));
            lemma_front_size(rest@, dim as int);
        }
        let framed = match wal::read_record(rest, dim) {
            Ok(Next::Record(framed)) => framed,
            _ => {
                return false;
            },
        };
        let seq: u64 = framed.seq;
        let breaks = match expected {
            Some(want) => seq != want,
            None => seq > contains + 1,
        };
        if breaks {
            return false;
        }
        if seq > contains {
            match &framed.record {
                Record::Insert { level, .. } => {
                    return *level as usize <= MAX_LEVEL;
                },
                Record::Delete { .. } => {
                    return false;
                },
                Record::Checkpoint { .. } => {},
            }
        }
        expected = Some(seq + 1);
        proof {
            follows = Some(seq + 1);
            assert(rest@.skip(framed.bytes as int) =~= bytes@.skip(offset + framed.bytes));
        }
        offset += framed.bytes;
    }
}

/// Whether [`open`] can take these files: the snapshot is refused, or its graph can be inserted
/// into if the log has an insert for it, its metric is `M`, and there is room for all that the log
/// may hold.
pub fn can_open<M: Metric>(
    snapshot: &[u8],
    words: &[u32],
    log: Option<&[u8]>,
    verify: Verify,
) -> (r: bool)
    requires
        u32::MAX < usize::MAX,
        words@ == words_of(snapshot@),
    ensures
        r == (load_error(snapshot@, verify) is None ==> openable::<M>(
            contents_of(snapshot@, verify)->Ok_0,
            log_seq(log),
        )),
{
    let index = match snapshot::load(snapshot, words, verify) {
        Err(_) => {
            return true;
        },
        Ok(index) => index,
    };
    let ghost c = contents_of(snapshot@, verify)->Ok_0;
    proof {
        assert(index_holds(index, c));
        assert(decoded(snapshot@) == Ok::<_, crate::store::error::SnapshotError>(c.header));
    }
    let contains: u64 = match snapshot::wal_seq(snapshot) {
        Err(_) => {
            return true;
        },
        Ok(contains) => contains,
    };
    let more: usize = match log {
        Some(bytes) => bytes.len(),
        None => 0,
    };
    let count: u128 = index.len() as u128 + more as u128;
    let stride: u128 = index.params().max_degree0() as u128 + 1;
    proof {
        index.lemma_wf();
        assert(stride == c.header.max_degree0 + 1);
        assert(0 <= count * stride <= 0x2_0000_0000_0000_0000 * 0x1_0000) by (nonlinear_arith)
            requires
                0 <= count <= 0x2_0000_0000_0000_0000,
                0 <= stride <= 0x1_0000,
        ;
    }
    if contains as u128 + more as u128 >= u64::MAX as u128 {
        return false;
    }
    if count * stride > usize::MAX as u128 {
        return false;
    }
    if !is_metric::<M>(index.metric()) {
        return false;
    }
    let insertable = index.can_insert();
    proof {
        if insertable {
            assert forall|other: HnswIndex| #[trigger] index_holds(
                other,
                c,
            ) implies other.insertable() by {
                snapshot::lemma_held_alike(index, other, c);
            }
        }
    }
    insertable || !has_insert(log, index.dim(), contains)
}

/// What opening these files gives.
pub open spec fn recovers<'a, M: Metric>(
    r: Result<Recovered<'a>, RecoveryError>,
    snapshot: Seq<u8>,
    log: Option<Seq<u8>>,
    verify: Verify,
) -> bool {
    match load_error(snapshot, verify) {
        Some(e) => r matches Err(f) && f == RecoveryError::Snapshot(e),
        None => {
            let c = contents_of(snapshot, verify)->Ok_0;
            exists|index: HnswIndex<'a>| #[trigger]
                index_holds(index, c) && match (
                    r,
                    recovery_of::<M>(
                        index@,
                        index.settings(),
                        index.width() as int,
                        c.header.wal_seq as int,
                        log,
                    ),
                ) {
                    (Ok(recovered), Ok((p, tail))) => recovered_as(recovered, index, p, tail),
                    (Err(e), Err(f)) => e == f,
                    _ => false,
                }
        },
    }
}

/// Loads a snapshot and replays the log on top of it. `words` holds the same file as `snapshot`,
/// and the graph in it has to be one that the log can be replayed onto, as [`can_open`] tells.
pub fn open<'a, M: Metric>(
    snapshot: &[u8],
    words: &'a [u32],
    log: Option<&[u8]>,
    verify: Verify,
) -> (r: Result<Recovered<'a>, RecoveryError>)
    requires
        u32::MAX < usize::MAX,
        words@ == words_of(snapshot@),
        load_error(snapshot@, verify) is None ==> openable::<M>(
            contents_of(snapshot@, verify)->Ok_0,
            log_seq(log),
        ),
    ensures
        recovers::<M>(r, snapshot@, log_seq(log), verify),
{
    let index = match snapshot::load(snapshot, words, verify) {
        Err(e) => {
            return Err(RecoveryError::Snapshot(e));
        },
        Ok(index) => index,
    };
    let ghost c = contents_of(snapshot@, verify)->Ok_0;
    proof {
        assert(index_holds(index, c));
        assert(decoded(snapshot@) == Ok::<_, crate::store::error::SnapshotError>(c.header));
    }
    let contains: u64 = match snapshot::wal_seq(snapshot) {
        Err(e) => {
            return Err(RecoveryError::Snapshot(e));
        },
        Ok(contains) => contains,
    };
    replay::<M>(index, contains, log)
}

/// Opens these files if [`open`] can take them.
pub fn try_open<'a, M: Metric>(
    snapshot: &[u8],
    words: &'a [u32],
    log: Option<&[u8]>,
    verify: Verify,
) -> (r: Option<Result<Recovered<'a>, RecoveryError>>)
    requires
        u32::MAX < usize::MAX,
        words@ == words_of(snapshot@),
    ensures
        r is Some == (load_error(snapshot@, verify) is None ==> openable::<M>(
            contents_of(snapshot@, verify)->Ok_0,
            log_seq(log),
        )),
        r matches Some(opened) ==> recovers::<M>(opened, snapshot@, log_seq(log), verify),
{
    if can_open::<M>(snapshot, words, log, verify) {
        Some(open::<M>(snapshot, words, log, verify))
    } else {
        None
    }
}

/// What is at the front of a log depends on that record's bytes alone.
pub proof fn lemma_front_depends(s: Seq<u8>, t: Seq<u8>, dim: int)
    requires
        match front(s, dim) {
            Ok(Entry::Record { seq, op, bytes }) => bytes <= t.len() && s.take(bytes as int)
                == t.take(bytes as int),
            _ => false,
        },
    ensures
        front(t, dim) == front(s, dim),
{
    lemma_front_size(s, dim);
    let n = front(s, dim)->Ok_0->bytes as int;
    assert(s.take(4) =~= s.take(n).take(4));
    assert(t.take(4) =~= t.take(n).take(4));
    assert(s.subrange(4, 8) =~= s.take(n).subrange(4, 8));
    assert(t.subrange(4, 8) =~= t.take(n).subrange(4, 8));
    assert(s.subrange(8, n) =~= s.take(n).subrange(8, n));
    assert(t.subrange(8, n) =~= t.take(n).subrange(8, n));
}

/// A replay that stopped somewhere goes on from there: cut off behind the last record that was
/// accepted and followed by `more`, the log is replayed as `more` is.
pub proof fn lemma_replay_continues<M: Metric>(
    rest: Seq<u8>,
    p: Progress,
    params: HnswParams,
    dim: int,
    contains: int,
    more: Seq<u8>,
)
    requires
        replay_from::<M>(rest, p, params, dim, contains) is Ok,
    ensures
        ({
            let stop = replay_from::<M>(rest, p, params, dim, contains)->Ok_0.0;
            &&& 0 <= stop.at - p.at <= rest.len()
            &&& replay_from::<M>(rest.take(stop.at - p.at) + more, p, params, dim, contains)
                == replay_from::<M>(more, stop, params, dim, contains)
        }),
    decreases rest.len(),
{
    let stop = replay_from::<M>(rest, p, params, dim, contains)->Ok_0.0;
    match front(rest, dim) {
        Ok(Entry::Record { seq, op, bytes }) if !(p.expected is Some && seq != p.expected->0) => {
            lemma_front_size(rest, dim);
            let next = advanced::<M>(p, params, dim, contains, seq, op, bytes)->Ok_0;
            lemma_replay_continues::<M>(rest.skip(bytes as int), next, params, dim, contains, more);
            let cut = rest.take(stop.at - p.at) + more;
            assert(cut.take(bytes as int) =~= rest.take(bytes as int));
            lemma_front_depends(rest, cut, dim);
            assert(cut.skip(bytes as int) =~= rest.skip(bytes as int).take(stop.at - next.at)
                + more);
        },
        _ => {
            assert(stop == p);
            assert(rest.take(0) + more =~= more);
        },
    }
}

/// Recovery can be repeated, and its log written on: once the log is cut off where recovery said,
/// what follows is replayed from where recovery had come to.
pub proof fn lemma_recovery_continues<M: Metric>(
    g: Graph,
    params: HnswParams,
    dim: int,
    contains: int,
    log: Seq<u8>,
    more: Seq<u8>,
)
    requires
        recovery_of::<M>(g, params, dim, contains, Some(log)) is Ok,
    ensures
        ({
            let stop = recovery_of::<M>(g, params, dim, contains, Some(log))->Ok_0.0;
            &&& HEADER_BYTES <= stop.at <= log.len()
            &&& recovery_of::<M>(g, params, dim, contains, Some(log.take(stop.at) + more))
                == replay_from::<M>(more, stop, params, dim, contains)
        }),
{
    let start = starting(g, contains, 16);
    let stop = recovery_of::<M>(g, params, dim, contains, Some(log))->Ok_0.0;
    lemma_replay_continues::<M>(log.skip(16), start, params, dim, contains, more);
    let cut = log.take(stop.at) + more;
    assert(cut.skip(16) =~= log.skip(16).take(stop.at - 16) + more);
    assert(cut.take(4) =~= log.take(4));
    assert(cut.subrange(4, 8) =~= log.subrange(4, 8));
}

/// Recovering twice gives the same index: the second time the log ends cleanly where the first
/// recovery cut it off.
pub proof fn lemma_recovery_is_repeatable<M: Metric>(
    g: Graph,
    params: HnswParams,
    dim: int,
    contains: int,
    log: Seq<u8>,
)
    requires
        recovery_of::<M>(g, params, dim, contains, Some(log)) is Ok,
    ensures
        ({
            let stop = recovery_of::<M>(g, params, dim, contains, Some(log))->Ok_0.0;
            recovery_of::<M>(g, params, dim, contains, Some(log.take(stop.at))) == Ok::<
                (Progress, Tail),
                RecoveryError,
            >((stop, Tail::Clean))
        }),
{
    let stop = recovery_of::<M>(g, params, dim, contains, Some(log))->Ok_0.0;
    lemma_recovery_continues::<M>(g, params, dim, contains, log, Seq::empty());
    assert(log.take(stop.at) + Seq::empty() =~= log.take(stop.at));
}

/// The sequence numbers of the records at the front of a log, up to the first thing that is not an
/// intact record.
pub open spec fn numbers(rest: Seq<u8>, dim: int) -> Seq<u64>
    decreases rest.len(),
{
    proof {
        lemma_front_size(rest, dim);
    }
    match front(rest, dim) {
        Ok(Entry::Record { seq, op, bytes }) => seq![seq] + numbers(
            rest.skip(bytes as int),
            dim,
        ),
        _ => Seq::empty(),
    }
}

/// How many of these numbers are no higher than `contains`.
pub open spec fn up_to(contains: int, numbers: Seq<u64>) -> nat
    decreases numbers.len(),
{
    if numbers.len() == 0 {
        0
    } else {
        up_to(contains, numbers.drop_first()) + if numbers[0] <= contains {
            1nat
        } else {
            0nat
        }
    }
}

/// How many of these numbers are higher than `contains`.
pub open spec fn beyond(contains: int, numbers: Seq<u64>) -> nat
    decreases numbers.len(),
{
    if numbers.len() == 0 {
        0
    } else {
        beyond(contains, numbers.drop_first()) + if numbers[0] > contains {
            1nat
        } else {
            0nat
        }
    }
}

/// Every number is on one side.
pub proof fn lemma_counts(contains: int, numbers: Seq<u64>)
    ensures
        up_to(contains, numbers) + beyond(contains, numbers) == numbers.len(),
    decreases numbers.len(),
{
    if numbers.len() > 0 {
        lemma_counts(contains, numbers.drop_first());
    }
}

/// Numbers are counted by what they are, wherever they stand.
pub proof fn lemma_numbers_counted(contains: int, numbers: Seq<u64>)
    ensures
        ({
            let low = Set::new(|i: int| 0 <= i < numbers.len() && numbers[i] <= contains);
            let high = Set::new(|i: int| 0 <= i < numbers.len() && numbers[i] > contains);
            &&& low.finite() && high.finite()
            &&& up_to(contains, numbers) == low.len()
            &&& beyond(contains, numbers) == high.len()
        }),
    decreases numbers.len(),
{
    let low = Set::new(|i: int| 0 <= i < numbers.len() && numbers[i] <= contains);
    let high = Set::new(|i: int| 0 <= i < numbers.len() && numbers[i] > contains);
    if numbers.len() == 0 {
        assert(low =~= Set::empty());
        assert(high =~= Set::empty());
    } else {
        let rest = numbers.drop_first();
        lemma_numbers_counted(contains, rest);
        let fewer_low = Set::new(|i: int| 0 <= i < rest.len() && rest[i] <= contains);
        let fewer_high = Set::new(|i: int| 0 <= i < rest.len() && rest[i] > contains);
        lemma_moved(fewer_low);
        lemma_moved(fewer_high);
        let moved_low = Set::new(|i: int| fewer_low.contains(i - 1));
        let moved_high = Set::new(|i: int| fewer_high.contains(i - 1));
        if numbers[0] <= contains {
            assert(low =~= moved_low.insert(0));
            assert(high =~= moved_high);
        } else {
            assert(low =~= moved_low);
            assert(high =~= moved_high.insert(0));
        }
    }
}

/// As many places are left when all of them move by one.
proof fn lemma_moved(places: Set<int>)
    requires
        places.finite(),
    ensures
        Set::new(|i: int| places.contains(i - 1)).finite(),
        Set::new(|i: int| places.contains(i - 1)).len() == places.len(),
    decreases places.len(),
{
    let moved = Set::new(|i: int| places.contains(i - 1));
    if places.len() == 0 {
        assert(moved =~= Set::empty());
    } else {
        let one = places.choose();
        lemma_moved(places.remove(one));
        let fewer = Set::new(|i: int| places.remove(one).contains(i - 1));
        assert(moved =~= fewer.insert(one + 1));
    }
}

/// What a record does when it is replayed: an insert puts its vector into the graph at the level
/// that it names, a checkpoint changes nothing, and a delete, a level above the limit and a vector
/// that the index would refuse end the recovery.
pub proof fn lemma_applied<M: Metric>(
    g: Graph,
    params: HnswParams,
    dim: int,
    seq: u64,
    external_id: u64,
    level: u8,
    vector: Seq<u32>,
    metadata: Seq<u8>,
)
    ensures
        ({
            let r = applied::<M>(
                g,
                params,
                dim,
                seq,
                Operation::Insert { external_id, level, vector, metadata },
            );
            let refused = refused_at(g.vecs.len(), dim as nat, vector);
            &&& level <= 32 && refused is None ==> r == Ok::<Graph, RecoveryError>(
                inserted::<M>(g, params, vector, level as nat),
            )
            &&& level <= 32 && refused is Some ==> r == Err::<Graph, RecoveryError>(
                RecoveryError::Wal(WalError::Index(refused->0)),
            )
            &&& level > 32 ==> r == Err::<Graph, RecoveryError>(
                RecoveryError::Wal(WalError::LevelOutOfRange { seq, level }),
            )
        }),
        applied::<M>(g, params, dim, seq, Operation::Delete { external_id }) == Err::<
            Graph,
            RecoveryError,
        >(RecoveryError::CannotReplayDelete { seq }),
        applied::<M>(g, params, dim, seq, Operation::Checkpoint { snapshot_wal_seq: external_id })
            == Ok::<Graph, RecoveryError>(g),
{
}

/// How the next record is taken. The first one may not leave a gap behind the snapshot, and every
/// other one has to have the number after the one before it: a log with a gap in front is refused,
/// and one with a gap further on ends there. A record that the snapshot contains changes nothing,
/// and one past it is applied.
pub proof fn lemma_next_record<M: Metric>(
    seq: u64,
    op: Operation,
    rest: Seq<u8>,
    p: Progress,
    params: HnswParams,
    dim: int,
    contains: int,
)
    requires
        fits(op, dim),
    ensures
        ({
            let r = replay_from::<M>(record_bytes(seq, op) + rest, p, params, dim, contains);
            let after = Progress {
                graph: p.graph,
                at: p.at + record_bytes(seq, op).len(),
                expected: Some(seq + 1),
                last: if p.last < seq {
                    seq as int
                } else {
                    p.last
                },
                replayed: p.replayed,
                skipped: p.skipped,
            };
            match p.expected {
                Some(next) if next != seq => r == Ok::<(Progress, Tail), RecoveryError>(
                    (p, Tail::SequenceGap { expected: next as u64, found: seq }),
                ),
                None if seq > contains + 1 => r == Err::<(Progress, Tail), RecoveryError>(
                    RecoveryError::MissingRecords { contains: contains as u64, found: seq },
                ),
                _ => if seq <= contains {
                    r == replay_from::<M>(
                        rest,
                        Progress { skipped: p.skipped + 1, ..after },
                        params,
                        dim,
                        contains,
                    )
                } else {
                    match applied::<M>(p.graph, params, dim, seq, op) {
                        Err(e) => r == Err::<(Progress, Tail), RecoveryError>(e),
                        Ok(graph) => r == replay_from::<M>(
                            rest,
                            Progress { graph, replayed: p.replayed + 1, ..after },
                            params,
                            dim,
                            contains,
                        ),
                    }
                },
            }
        }),
{
    let all = record_bytes(seq, op) + rest;
    wal::lemma_record_reads_back(seq, op, dim, rest);
    wal::lemma_record_size(seq, op);
    assert(all.skip(record_size(op) as int) =~= rest);
}

/// Applying one record more is applying it to what the others gave.
pub proof fn lemma_one_more_applied<M: Metric>(
    g: Graph,
    params: HnswParams,
    dim: int,
    first: int,
    ops: Seq<Operation>,
    op: Operation,
)
    ensures
        all_applied::<M>(g, params, dim, first, ops.push(op)) == match all_applied::<M>(
            g,
            params,
            dim,
            first,
            ops,
        ) {
            Ok(graph) => applied::<M>(graph, params, dim, (first + ops.len()) as u64, op),
            Err(e) => Err(e),
        },
    decreases ops.len(),
{
    let more = ops.push(op);
    if ops.len() == 0 {
        assert(more.drop_first() =~= Seq::empty());
        reveal_with_fuel(all_applied, 2);
    } else {
        assert(more.drop_first() =~= ops.drop_first().push(op));
        match applied::<M>(g, params, dim, first as u64, ops[0]) {
            Ok(next) => {
                lemma_one_more_applied::<M>(next, params, dim, first + 1, ops.drop_first(), op);
            },
            Err(e) => {},
        }
    }
}

/// A replay that comes to no insert leaves the graph alone.
proof fn lemma_replay_without_insert<M: Metric>(
    rest: Seq<u8>,
    p: Progress,
    params: HnswParams,
    dim: int,
    contains: int,
)
    requires
        replay_from::<M>(rest, p, params, dim, contains) is Ok,
        !inserts(rest, dim, contains, p.expected),
    ensures
        replay_from::<M>(rest, p, params, dim, contains)->Ok_0.0.graph == p.graph,
    decreases rest.len(),
{
    match front(rest, dim) {
        Ok(Entry::Record { seq, op, bytes }) if !(p.expected is Some && seq != p.expected->0) => {
            lemma_front_size(rest, dim);
            let next = advanced::<M>(p, params, dim, contains, seq, op, bytes)->Ok_0;
            lemma_replay_without_insert::<M>(
                rest.skip(bytes as int),
                next,
                params,
                dim,
                contains,
            );
        },
        _ => {},
    }
}

/// Recovery with a log that has no insert for the snapshot gives back the snapshot's graph.
pub proof fn lemma_recovery_without_insert<M: Metric>(
    g: Graph,
    params: HnswParams,
    dim: int,
    contains: int,
    log: Option<Seq<u8>>,
)
    requires
        recovery_of::<M>(g, params, dim, contains, log) is Ok,
        !recovery_inserts(log, dim, contains),
    ensures
        recovery_of::<M>(g, params, dim, contains, log)->Ok_0.0.graph == g,
{
    if log is Some {
        lemma_replay_without_insert::<M>(
            log->0.skip(16),
            starting(g, contains, 16),
            params,
            dim,
            contains,
        );
    }
}

/// A replay that comes to the end of the log has counted its records.
proof fn lemma_replay_counts<M: Metric>(
    rest: Seq<u8>,
    p: Progress,
    params: HnswParams,
    dim: int,
    contains: int,
)
    requires
        match replay_from::<M>(rest, p, params, dim, contains) {
            Ok((q, tail)) => tail == Tail::Clean,
            Err(e) => false,
        },
    ensures
        ({
            let q = replay_from::<M>(rest, p, params, dim, contains)->Ok_0.0;
            &&& q.skipped == p.skipped + up_to(contains, numbers(rest, dim))
            &&& q.replayed == p.replayed + beyond(contains, numbers(rest, dim))
        }),
    decreases rest.len(),
{
    match front(rest, dim) {
        Ok(Entry::Record { seq, op, bytes }) => {
            lemma_front_size(rest, dim);
            let next = advanced::<M>(p, params, dim, contains, seq, op, bytes)->Ok_0;
            lemma_replay_counts::<M>(rest.skip(bytes as int), next, params, dim, contains);
            assert(numbers(rest, dim).drop_first() =~= numbers(rest.skip(bytes as int), dim));
        },
        _ => {},
    }
}

/// Of the records that recovery keeps, it skips those that the snapshot contains and replays the
/// others, each of them once.
pub proof fn lemma_records_counted<M: Metric>(
    g: Graph,
    params: HnswParams,
    dim: int,
    contains: int,
    log: Seq<u8>,
)
    requires
        recovery_of::<M>(g, params, dim, contains, Some(log)) is Ok,
    ensures
        ({
            let p = recovery_of::<M>(g, params, dim, contains, Some(log))->Ok_0.0;
            let kept = numbers(log.take(p.at).skip(16), dim);
            &&& p.skipped == up_to(contains, kept)
            &&& p.replayed == beyond(contains, kept)
        }),
{
    let p = recovery_of::<M>(g, params, dim, contains, Some(log))->Ok_0.0;
    lemma_recovery_is_repeatable::<M>(g, params, dim, contains, log);
    lemma_replay_counts::<M>(
        log.take(p.at).skip(16),
        starting(g, contains, 16),
        params,
        dim,
        contains,
    );
}

/// Records in a log, numbered from `first` on.
pub open spec fn records(first: int, ops: Seq<Operation>) -> Seq<u8>
    decreases ops.len(),
{
    if ops.len() == 0 {
        Seq::empty()
    } else {
        record_bytes(first as u64, ops[0]) + records(first + 1, ops.drop_first())
    }
}

/// The graph after all of these records, numbered from `first` on.
pub open spec fn all_applied<M: Metric>(
    g: Graph,
    params: HnswParams,
    dim: int,
    first: int,
    ops: Seq<Operation>,
) -> Result<Graph, RecoveryError>
    decreases ops.len(),
{
    if ops.len() == 0 {
        Ok(g)
    } else {
        match applied::<M>(g, params, dim, first as u64, ops[0]) {
            Err(e) => Err(e),
            Ok(next) => all_applied::<M>(next, params, dim, first + 1, ops.drop_first()),
        }
    }
}

pub open spec fn all_fit(ops: Seq<Operation>, dim: int) -> bool {
    forall|i: int| 0 <= i < ops.len() ==> fits(#[trigger] ops[i], dim)
}

/// All of these records are inserts.
pub open spec fn all_inserts(ops: Seq<Operation>) -> bool {
    forall|i: int| 0 <= i < ops.len() ==> (#[trigger] ops[i]) is Insert
}

/// Each insert adds one vector.
pub proof fn lemma_inserts_grow<M: Metric>(
    g: Graph,
    params: HnswParams,
    dim: int,
    first: int,
    ops: Seq<Operation>,
)
    requires
        all_inserts(ops),
        all_applied::<M>(g, params, dim, first, ops) is Ok,
    ensures
        all_applied::<M>(g, params, dim, first, ops)->Ok_0.vecs.len() == g.vecs.len() + ops.len(),
    decreases ops.len(),
{
    if ops.len() > 0 {
        let next = applied::<M>(g, params, dim, first as u64, ops[0])->Ok_0;
        assert(ops[0] is Insert);
        lemma_inserted_appends::<M>(g, params, ops[0]->vector, ops[0]->level as nat);
        assert forall|i: int| 0 <= i < ops.drop_first().len() implies (
        #[trigger] ops.drop_first()[i]) is Insert by {
            assert(ops[i + 1] is Insert);
        }
        lemma_inserts_grow::<M>(next, params, dim, first + 1, ops.drop_first());
    }
}

/// The progress after `count` more records of `bytes` bytes, the next of which has number `first`.
pub open spec fn passed(
    p: Progress,
    graph: Graph,
    first: int,
    count: nat,
    bytes: nat,
    replayed: bool,
) -> Progress {
    Progress {
        graph,
        at: p.at + bytes,
        expected: if count == 0 {
            p.expected
        } else {
            Some(first + count)
        },
        last: if replayed && count > 0 {
            first + count - 1
        } else {
            p.last
        },
        replayed: if replayed {
            p.replayed + count
        } else {
            p.replayed
        },
        skipped: if replayed {
            p.skipped
        } else {
            p.skipped + count
        },
    }
}

/// A record that is the next one is taken, and what follows it is replayed from there.
proof fn lemma_record_replayed<M: Metric>(
    seq: u64,
    op: Operation,
    rest: Seq<u8>,
    p: Progress,
    params: HnswParams,
    dim: int,
    contains: int,
)
    requires
        fits(op, dim),
        p.expected is Some ==> p.expected->0 == seq,
        advanced::<M>(p, params, dim, contains, seq, op, record_size(op)) is Ok,
    ensures
        replay_from::<M>(record_bytes(seq, op) + rest, p, params, dim, contains)
            == replay_from::<M>(
            rest,
            advanced::<M>(p, params, dim, contains, seq, op, record_size(op))->Ok_0,
            params,
            dim,
            contains,
        ),
{
    wal::lemma_record_reads_back(seq, op, dim, rest);
    wal::lemma_record_size(seq, op);
    assert((record_bytes(seq, op) + rest).skip(record_size(op) as int) =~= rest);
}

proof fn lemma_rest_fits(ops: Seq<Operation>, dim: int)
    requires
        all_fit(ops, dim),
        ops.len() > 0,
    ensures
        fits(ops[0], dim),
        all_fit(ops.drop_first(), dim),
{
    let tail = ops.drop_first();
    assert forall|i: int| 0 <= i < tail.len() implies fits(#[trigger] tail[i], dim) by {
        assert(fits(ops[i + 1], dim));
    }
}

/// The records of a log start with the first one.
proof fn lemma_first_record(first: int, ops: Seq<Operation>, rest: Seq<u8>)
    requires
        ops.len() > 0,
    ensures
        records(first, ops) + rest == record_bytes(first as u64, ops[0]) + (records(
            first + 1,
            ops.drop_first(),
        ) + rest),
        records(first, ops).len() == record_size(ops[0]) + records(
            first + 1,
            ops.drop_first(),
        ).len(),
{
    wal::lemma_record_size(first as u64, ops[0]);
    assert(records(first, ops) + rest =~= record_bytes(first as u64, ops[0]) + (records(
        first + 1,
        ops.drop_first(),
    ) + rest));
}

/// The numbers of records that were written one after the other.
pub proof fn lemma_numbers(first: int, ops: Seq<Operation>, dim: int)
    requires
        0 <= first,
        first + ops.len() <= u64::MAX,
        all_fit(ops, dim),
    ensures
        numbers(records(first, ops), dim) == Seq::new(ops.len(), |i: int| (first + i) as u64),
    decreases ops.len(),
{
    let all = records(first, ops);
    if ops.len() > 0 {
        let op = ops[0];
        let behind = records(first + 1, ops.drop_first());
        lemma_rest_fits(ops, dim);
        lemma_numbers(first + 1, ops.drop_first(), dim);
        wal::lemma_record_reads_back(first as u64, op, dim, behind);
        wal::lemma_record_size(first as u64, op);
        assert(all.skip(record_size(op) as int) =~= behind);
    }
    assert(numbers(all, dim) =~= Seq::new(ops.len(), |i: int| (first + i) as u64));
}

/// Records past what the snapshot contains are replayed, and what follows them from there.
#[verifier::spinoff_prover]
#[verifier::rlimit(40)]
pub proof fn lemma_records_applied<M: Metric>(
    first: int,
    ops: Seq<Operation>,
    rest: Seq<u8>,
    p: Progress,
    params: HnswParams,
    dim: int,
    contains: int,
)
    requires
        0 <= first,
        first + ops.len() <= u64::MAX,
        all_fit(ops, dim),
        p.expected is Some ==> p.expected->0 == first,
        p.expected is None ==> first <= contains + 1,
        first > contains,
        p.last == first - 1,
        all_applied::<M>(p.graph, params, dim, first, ops) is Ok,
    ensures
        replay_from::<M>(records(first, ops) + rest, p, params, dim, contains) == replay_from::<M>(
            rest,
            passed(
                p,
                all_applied::<M>(p.graph, params, dim, first, ops)->Ok_0,
                first,
                ops.len(),
                records(first, ops).len(),
                true,
            ),
            params,
            dim,
            contains,
        ),
    decreases ops.len(),
{
    if ops.len() == 0 {
        assert(records(first, ops) + rest =~= rest);
    } else {
        let seq = first as u64;
        let op = ops[0];
        let tail = ops.drop_first();
        let behind = records(first + 1, tail) + rest;
        lemma_rest_fits(ops, dim);
        lemma_first_record(first, ops, rest);
        lemma_record_replayed::<M>(seq, op, behind, p, params, dim, contains);
        let next = advanced::<M>(p, params, dim, contains, seq, op, record_size(op))->Ok_0;
        lemma_records_applied::<M>(first + 1, tail, rest, next, params, dim, contains);
    }
}

/// Records that the snapshot contains are skipped, and what follows them is replayed from there.
#[verifier::spinoff_prover]
#[verifier::rlimit(40)]
proof fn lemma_records_skipped<M: Metric>(
    first: int,
    ops: Seq<Operation>,
    rest: Seq<u8>,
    p: Progress,
    params: HnswParams,
    dim: int,
    contains: int,
)
    requires
        0 <= first,
        first + ops.len() <= u64::MAX,
        all_fit(ops, dim),
        p.expected is Some ==> p.expected->0 == first,
        p.expected is None ==> first <= contains + 1,
        first + ops.len() - 1 <= contains <= p.last,
    ensures
        replay_from::<M>(records(first, ops) + rest, p, params, dim, contains) == replay_from::<M>(
            rest,
            passed(
                p,
                p.graph,
                first,
                ops.len(),
                records(first, ops).len(),
                false,
            ),
            params,
            dim,
            contains,
        ),
    decreases ops.len(),
{
    if ops.len() == 0 {
        assert(records(first, ops) + rest =~= rest);
    } else {
        let seq = first as u64;
        let op = ops[0];
        let tail = ops.drop_first();
        let behind = records(first + 1, tail) + rest;
        lemma_rest_fits(ops, dim);
        lemma_first_record(first, ops, rest);
        lemma_record_replayed::<M>(seq, op, behind, p, params, dim, contains);
        let next = advanced::<M>(p, params, dim, contains, seq, op, record_size(op))->Ok_0;
        lemma_records_skipped::<M>(first + 1, tail, rest, next, params, dim, contains);
    }
}

/// Replaying a log rebuilds the index that its records describe: the graph is what applying them
/// in order gives, the log ends cleanly, and the next record takes the number after the last one.
pub proof fn lemma_log_rebuilds<M: Metric>(
    g: Graph,
    params: HnswParams,
    dim: int,
    contains: int,
    ops: Seq<Operation>,
)
    requires
        0 <= contains,
        contains + 1 + ops.len() <= u64::MAX,
        all_fit(ops, dim),
        all_applied::<M>(g, params, dim, contains + 1, ops) is Ok,
    ensures
        recovery_of::<M>(
            g,
            params,
            dim,
            contains,
            Some(log_header() + records(contains + 1, ops)),
        ) == Ok::<(Progress, Tail), RecoveryError>(
            (
                passed(
                    starting(g, contains, 16),
                    all_applied::<M>(g, params, dim, contains + 1, ops)->Ok_0,
                    contains + 1,
                    ops.len(),
                    records(contains + 1, ops).len(),
                    true,
                ),
                Tail::Clean,
            ),
        ),
{
    let tail = records(contains + 1, ops);
    let log = log_header() + tail;
    wal::lemma_log_header(tail);
    assert(log.skip(16) =~= tail + Seq::empty());
    lemma_records_applied::<M>(
        contains + 1,
        ops,
        Seq::empty(),
        starting(g, contains, 16),
        params,
        dim,
        contains,
    );
}

/// Records that the snapshot already contains are skipped, not applied twice.
pub proof fn lemma_log_skipped<M: Metric>(
    g: Graph,
    params: HnswParams,
    dim: int,
    contains: int,
    first: int,
    ops: Seq<Operation>,
)
    requires
        0 <= first,
        first + ops.len() - 1 <= contains <= u64::MAX,
        first + ops.len() <= u64::MAX,
        all_fit(ops, dim),
    ensures
        recovery_of::<M>(g, params, dim, contains, Some(log_header() + records(first, ops)))
            == Ok::<(Progress, Tail), RecoveryError>(
            (
                passed(
                    starting(g, contains, 16),
                    g,
                    first,
                    ops.len(),
                    records(first, ops).len(),
                    false,
                ),
                Tail::Clean,
            ),
        ),
{
    let tail = records(first, ops);
    let log = log_header() + tail;
    wal::lemma_log_header(tail);
    assert(log.skip(16) =~= tail + Seq::empty());
    if ops.len() > 0 {
        lemma_records_skipped::<M>(
            first,
            ops,
            Seq::empty(),
            starting(g, contains, 16),
            params,
            dim,
            contains,
        );
    } else {
        assert(tail + Seq::<u8>::empty() =~= Seq::<u8>::empty());
    }
}

/// How a log ends whose next bytes are `rest`, if it ends there.
pub open spec fn tail_of(rest: Seq<u8>, dim: int, expected: Option<int>) -> Option<Tail> {
    match front(rest, dim) {
        Ok(Entry::Torn(torn)) => Some(
            if torn == (Torn::ShortFrame { remaining: 0 }) {
                Tail::Clean
            } else {
                Tail::Torn(torn)
            },
        ),
        Ok(Entry::Record { seq, op, bytes }) => match expected {
            Some(e) if seq != e => Some(Tail::SequenceGap { expected: e as u64, found: seq }),
            _ => None,
        },
        Err(e) => None,
    }
}

/// A log that starts before the point that the snapshot reaches and goes on past it, with anything
/// behind its records that ends it: the records that the snapshot contains are skipped, the others
/// are applied in order, and what ends the log is reported and not kept.
#[verifier::spinoff_prover]
#[verifier::rlimit(40)]
pub proof fn lemma_log_straddles<M: Metric>(
    g: Graph,
    params: HnswParams,
    dim: int,
    contains: int,
    contained: Seq<Operation>,
    later: Seq<Operation>,
    rest: Seq<u8>,
)
    requires
        contained.len() <= contains + 1,
        contains + 1 + later.len() <= u64::MAX,
        all_fit(contained, dim),
        all_fit(later, dim),
        all_applied::<M>(g, params, dim, contains + 1, later) is Ok,
        tail_of(
            rest,
            dim,
            if contained.len() + later.len() == 0 {
                None
            } else {
                Some(contains + 1 + later.len())
            },
        ) is Some,
    ensures
        ({
            let first = contains + 1 - contained.len();
            let kept = records(first, contained) + records(contains + 1, later);
            let expected = if contained.len() + later.len() == 0 {
                None
            } else {
                Some(contains + 1 + later.len())
            };
            recovery_of::<M>(g, params, dim, contains, Some(log_header() + kept + rest)) == Ok::<
                (Progress, Tail),
                RecoveryError,
            >(
                (
                    Progress {
                        graph: all_applied::<M>(g, params, dim, contains + 1, later)->Ok_0,
                        at: HEADER_BYTES + kept.len(),
                        expected,
                        last: contains + later.len(),
                        replayed: later.len(),
                        skipped: contained.len(),
                    },
                    tail_of(rest, dim, expected)->0,
                ),
            )
        }),
{
    let first = contains + 1 - contained.len();
    let old = records(first, contained);
    let new = records(contains + 1, later);
    let log = log_header() + (old + new) + rest;
    let start = starting(g, contains, 16);
    wal::lemma_log_header(old + new + rest);
    assert(log =~= log_header() + (old + new + rest));
    assert(log.skip(16) =~= old + (new + rest)) by {
        wal::lemma_log_header(Seq::empty());
        assert(log_header() + Seq::empty() =~= log_header());
    }
    lemma_records_skipped::<M>(
        first,
        contained,
        new + rest,
        start,
        params,
        dim,
        contains,
    );
    let middle = passed(start, g, first, contained.len(), old.len(), false);
    lemma_records_applied::<M>(contains + 1, later, rest, middle, params, dim, contains);
}

/// A log that was cut anywhere inside its last record is replayed up to the record before it, and
/// nothing of the last one is kept.
pub proof fn lemma_torn_log<M: Metric>(
    g: Graph,
    params: HnswParams,
    dim: int,
    contains: int,
    ops: Seq<Operation>,
    last: Operation,
    kept: nat,
)
    requires
        0 <= contains,
        contains + 2 + ops.len() <= u64::MAX,
        all_fit(ops, dim),
        all_applied::<M>(g, params, dim, contains + 1, ops) is Ok,
        fits(last, dim),
        kept < record_size(last),
    ensures
        ({
            let whole = log_header() + records(contains + 1, ops);
            let cut = record_bytes((contains + 1 + ops.len()) as u64, last).take(kept as int);
            let outcome = recovery_of::<M>(g, params, dim, contains, Some(whole + cut));
            &&& outcome is Ok
            &&& outcome->Ok_0.0 == recovery_of::<M>(
                g,
                params,
                dim,
                contains,
                Some(whole),
            )->Ok_0.0
            &&& outcome->Ok_0.0.at == whole.len()
            &&& (outcome->Ok_0.1 == Tail::Clean) == (kept == 0)
        }),
{
    let whole = log_header() + records(contains + 1, ops);
    let seq = (contains + 1 + ops.len()) as u64;
    let cut = record_bytes(seq, last).take(kept as int);
    lemma_log_rebuilds::<M>(g, params, dim, contains, ops);
    wal::lemma_log_header(Seq::empty());
    wal::lemma_record_size(seq, last);
    lemma_recovery_continues::<M>(g, params, dim, contains, whole, cut);
    assert(whole.take(whole.len() as int) =~= whole);
    wal::lemma_cut_record_is_torn(seq, last, dim, kept);
}

/// Opening a snapshot with the log that was written after it gives the index that was written, with
/// the records applied in order, and nothing else: every record is replayed, none is skipped, the
/// whole log is kept, and the next record takes the number after the last. Without a log it gives
/// the index that was written.
pub proof fn lemma_opened<'a, M: Metric>(
    index: HnswIndex,
    contains: u64,
    ops: Seq<Operation>,
    verify: Verify,
    r: Result<Recovered<'a>, RecoveryError>,
    bare: Result<Recovered<'a>, RecoveryError>,
)
    requires
        index.insertable(),
        snapshot::writable(index),
        contains + 1 + ops.len() <= u64::MAX,
        all_fit(ops, index.width() as int),
        all_applied::<M>(
            index@,
            index.settings(),
            index.width() as int,
            contains + 1,
            ops,
        ) is Ok,
        recovers::<M>(
            r,
            snapshot::snapshot_for(index, contains),
            Some(log_header() + records(contains + 1, ops)),
            verify,
        ),
        recovers::<M>(bare, snapshot::snapshot_for(index, contains), None, verify),
    ensures
        r matches Ok(opened) && {
            &&& opened.index@ == all_applied::<M>(
                index@,
                index.settings(),
                index.width() as int,
                contains + 1,
                ops,
            )->Ok_0
            &&& opened.index.settings() == index.settings()
            &&& opened.index.kind() == index.kind()
            &&& opened.index.level_state() == index.level_state()
            &&& opened.next_seq == contains + ops.len() + 1
            &&& opened.valid_bytes == (log_header() + records(contains + 1, ops)).len()
            &&& opened.tail == Tail::Clean
            &&& opened.replayed == ops.len()
            &&& opened.skipped == 0
        },
        bare matches Ok(opened) && {
            &&& opened.index@ == index@
            &&& opened.index.settings() == index.settings()
            &&& opened.index.kind() == index.kind()
            &&& opened.next_seq == contains + 1
            &&& opened.tail == Tail::Clean
            &&& opened.replayed == 0
            &&& opened.skipped == 0
        },
{
    let s = snapshot::snapshot_for(index, contains);
    snapshot::lemma_snapshot_reads_back(index, contains, verify, Seq::empty());
    assert(s + Seq::<u8>::empty() =~= s);
    wal::lemma_log_header(Seq::empty());
    let c = contents_of(s, verify)->Ok_0;
    let log = log_header() + records(contains + 1, ops);
    let first = choose|back: HnswIndex<'a>| #[trigger]
        index_holds(back, c) && match (
            r,
            recovery_of::<M>(
                back@,
                back.settings(),
                back.width() as int,
                c.header.wal_seq as int,
                Some(log),
            ),
        ) {
            (Ok(recovered), Ok((p, tail))) => recovered_as(recovered, back, p, tail),
            (Err(e), Err(f)) => e == f,
            _ => false,
        };
    snapshot::lemma_restored(index, contains, first);
    lemma_log_rebuilds::<M>(
        index@,
        index.settings(),
        index.width() as int,
        contains as int,
        ops,
    );
    let second = choose|back: HnswIndex<'a>| #[trigger]
        index_holds(back, c) && match (
            bare,
            recovery_of::<M>(
                back@,
                back.settings(),
                back.width() as int,
                c.header.wal_seq as int,
                None,
            ),
        ) {
            (Ok(recovered), Ok((p, tail))) => recovered_as(recovered, back, p, tail),
            (Err(e), Err(f)) => e == f,
            _ => false,
        };
    snapshot::lemma_restored(index, contains, second);
}

} // verus!
