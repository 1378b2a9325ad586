//! A durable collection: an index, its snapshot and its log, kept in step.
//!
//! ```text
//! root/
//!   collection.anka   the snapshot
//!   wal.log           records written since it
//! ```
//!
//! A durable insert goes: draw the level, write the record, sync it to the extent that the policy
//! promises, then update the index. [`Collection::prepare_insert`] does the first step and makes
//! the record, [`Collection::append`] and [`Collection::sync`] take note of the next two, and
//! [`Collection::insert`] does the last. The level is drawn before the record is written, because
//! the log has to carry the level that the index will use. The collection keeps the insert that
//! was appended until the index has it, and refuses every step out of that order: nothing that a
//! search can return has failed to be logged.
//!
//! A checkpoint writes a snapshot with `wal_seq` set to the number that the CHECKPOINT record is
//! about to take, appends that record to the old log, and starts a fresh log after it:
//! [`Collection::checkpoint`], [`Collection::mark`], [`Collection::restart_log`]. Until the record
//! is in the log no insert is, for it would take the number that the snapshot already names. A
//! crash at any point leaves a consistent pair:
//!
//! | crash after | recovery finds |
//! |---|---|
//! | nothing | old snapshot and old log, unchanged |
//! | the snapshot lands | new snapshot and old log; every record it names is skipped |
//! | the checkpoint record | the same, with the marker in the log |
//! | the log is replaced | new snapshot and a log that starts right after it |
//!
//! In the second row the snapshot reaches one number past the old log. A record appended there
//! would leave a gap in it, so opening replaces that log by a fresh one: see [`Repair`].

use vstd::prelude::*;

use crate::hnsw::cost::insertion_cost;
use crate::hnsw::graph::{inserted, Graph};
use crate::hnsw::index::{empty_graph, HnswIndex};
use crate::hnsw::params::{draws, guarded, HnswParams, MAX_LEVEL};
use crate::hnsw::search::Searcher;
use crate::hnsw::stats::{counted, lemma_counted, Count};
use crate::metric::{stands_for, Metric, MetricKind};
use crate::store::bytes::words_of;
use crate::store::error::{RecoveryError, Step, WalError};
use crate::store::recovery::{
    self, advanced, all_applied, all_fit, all_inserts, applied, beyond, log_seq, numbers, openable,
    passed, recovered_as, records, recovery_of, replay_from, starting, up_to, Progress, Tail,
};
use crate::store::snapshot::{
    self, contents_of, index_holds, load_error, snapshot_for, Verify,
};
use crate::store::wal::{
    self, fits, front, log_header, record_bytes, record_size, Appended, Entry, Operation, Record,
    SyncPolicy, WalWriter, HEADER_BYTES, MAX_RECORD_BYTES,
};
use crate::vector_store::{self, VectorStore};
use crate::{ExternalId, NodeId};

verus! {

/// The name of the snapshot in a collection's directory.
pub const SNAPSHOT_FILE: &'static str = "collection.anka";

/// The name of the log in a collection's directory.
pub const LOG_FILE: &'static str = "wal.log";

/// An index that survives a restart.
#[derive(Debug)]
pub struct Collection<'a> {
    index: HnswIndex<'a>,
    log: WalWriter,
    /// The insert whose record is in the log while the index does not have it yet.
    logged: Option<Pending>,
    /// A checkpoint was made, and its record is not in the log yet.
    unmarked: bool,
    /// The record that was appended last is that of a checkpoint.
    marked: bool,
}

/// What opening a collection had to do to it.
#[derive(Clone, Copy, Debug, PartialEq, Eq, Structural)]
pub struct Opened {
    pub tail: Tail,
    pub replayed: usize,
    pub skipped: usize,
}

/// What has to become of the log before anything is appended to it.
#[derive(Debug)]
pub enum Repair {
    /// There is none, or it ends before the point that the snapshot reaches: a file with these
    /// bytes takes its place.
    Create(Vec<u8>),
    /// Everything behind this length is cut off.
    Truncate(u64),
}

/// The files of a new collection, in the order in which they are written.
#[derive(Debug)]
pub struct Files {
    pub snapshot: Vec<u8>,
    pub log: Vec<u8>,
}

/// An insert whose level is drawn and whose record is made.
#[derive(Debug)]
pub struct Pending {
    seq: u64,
    level: usize,
    vector: Vec<u32>,
    record: Vec<u8>,
}

impl Pending {
    /// The number that the record was made for.
    pub closed spec fn number(&self) -> u64 {
        self.seq
    }

    pub closed spec fn height(&self) -> usize {
        self.level
    }

    pub closed spec fn components(&self) -> Seq<u32> {
        self.vector@
    }

    pub closed spec fn bytes(&self) -> Seq<u8> {
        self.record@
    }

    /// The bytes to append to the log.
    pub fn record(&self) -> (r: &[u8])
        ensures
            r@ == self.bytes(),
    {
        self.record.as_slice()
    }
}

/// A checkpoint to be written: the snapshot replaces the old one, then the record goes to the end
/// of the old log, then a fresh log replaces that.
#[derive(Debug)]
pub struct Checkpoint {
    seq: u64,
    snapshot: Vec<u8>,
    record: Vec<u8>,
}

impl Checkpoint {
    /// The number that the record was made for.
    pub closed spec fn number(&self) -> u64 {
        self.seq
    }

    pub closed spec fn image(&self) -> Seq<u8> {
        self.snapshot@
    }

    pub closed spec fn bytes(&self) -> Seq<u8> {
        self.record@
    }

    /// The sequence number of the record, up to which the snapshot contains everything.
    pub fn seq(&self) -> (r: u64)
        ensures
            r == self.number(),
    {
        self.seq
    }

    /// The bytes that replace the old snapshot.
    pub fn snapshot(&self) -> (r: &[u8])
        ensures
            r@ == self.image(),
    {
        self.snapshot.as_slice()
    }

    /// The bytes to append to the old log.
    pub fn record(&self) -> (r: &[u8])
        ensures
            r@ == self.bytes(),
    {
        self.record.as_slice()
    }
}

/// The record of an insert.
pub open spec fn insert_record(external_id: ExternalId, level: usize, vector: Seq<u32>) -> Operation {
    Operation::Insert { external_id, level: level as u8, vector, metadata: Seq::empty() }
}

/// The record of a checkpoint.
pub open spec fn checkpoint_record(seq: u64) -> Operation {
    Operation::Checkpoint { snapshot_wal_seq: seq }
}

/// What opening these files gives.
pub open spec fn opens<'a, M: Metric>(
    r: Result<(Collection<'a>, Opened, Repair), RecoveryError>,
    snapshot: Seq<u8>,
    log: Option<Seq<u8>>,
    policy: SyncPolicy,
    verify: Verify,
) -> bool {
    match load_error(snapshot, verify) {
        Some(e) => r matches Err(f) && f == RecoveryError::Snapshot(e),
        None => {
            let c = contents_of(snapshot, verify)->Ok_0;
            exists|index: HnswIndex<'a>| #[trigger]
                index_holds(index, c) && match (
                    r,
                    recovery_of::<M>(
                        index@,
                        index.settings(),
                        index.width() as int,
                        c.header.wal_seq as int,
                        log,
                    ),
                ) {
                    (Ok((collection, opened, repair)), Ok((p, tail))) => {
                        &&& opened_as(collection, index, p)
                        &&& collection.writer().rule() == policy
                        &&& opened.tail == tail
                        &&& opened.replayed == p.replayed
                        &&& opened.skipped == p.skipped
                        &&& match repair {
                            Repair::Create(header) => {
                                &&& log is None || !seamless(p)
                                &&& header@ == log_header()
                                &&& collection.writer().size() == HEADER_BYTES
                            },
                            Repair::Truncate(len) => {
                                &&& log is Some && seamless(p)
                                &&& len == p.at
                                &&& collection.writer().size() == p.at
                            },
                        }
                    },
                    (Err(e), Err(f)) => e == f,
                    _ => false,
                }
        },
    }
}

impl<'a> Collection<'a> {
    pub closed spec fn held(&self) -> HnswIndex<'a> {
        self.index
    }

    pub closed spec fn writer(&self) -> WalWriter {
        self.log
    }

    /// The insert whose record is in the log while the index does not have it yet.
    pub closed spec fn logged(&self) -> Option<Pending> {
        self.logged
    }

    /// A checkpoint was made, and its record is not in the log yet.
    pub closed spec fn unmarked(&self) -> bool {
        self.unmarked
    }

    /// The record that was appended last is that of a checkpoint.
    pub closed spec fn marked(&self) -> bool {
        self.marked
    }

    /// A write is under way: a record has to reach the disk, or the index, before another one
    /// starts.
    pub open spec fn busy(&self) -> bool {
        self.logged() is Some || self.writer().owes()
    }

    /// Nothing is under way, so that an insert can start. After a checkpoint was made, the next
    /// record has to be its own: an insert would take the number that the snapshot names.
    pub open spec fn idle(&self) -> bool {
        !self.busy() && !self.unmarked()
    }

    fn under_way(&self) -> (r: bool)
        ensures
            r == self.busy(),
    {
        self.logged.is_some() || self.log.sync_owed()
    }

    /// Creates an empty collection, with a snapshot that is never without something to replay
    /// onto.
    pub fn create(dim: usize, metric: MetricKind, params: HnswParams, policy: SyncPolicy) -> (r:
        Result<(Self, Files), RecoveryError>)
        requires
            params.wf(),
        ensures
            match r {
                Ok((collection, files)) => {
                    &&& vector_store::dim_error(dim as int) is None
                    &&& snapshot::write_error(params, 0) is None
                    &&& collection.held().valid()
                    &&& collection.held()@ == empty_graph()
                    &&& collection.held().width() == dim
                    &&& collection.held().kind() == metric
                    &&& collection.held().settings() == params
                    &&& collection.held().level_state().2 == 0
                    &&& collection.idle()
                    &&& !collection.marked()
                    &&& collection.writer().upcoming() == 1
                    &&& collection.writer().size() == HEADER_BYTES
                    &&& collection.writer().rule() == policy
                    &&& collection.writer().pending() == 0
                    &&& snapshot::writable(collection.held())
                    &&& files.snapshot@ == snapshot_for(collection.held(), 0)
                    &&& files.log@ == log_header()
                },
                Err(e) => match vector_store::dim_error(dim as int) {
                    Some(v) => e == RecoveryError::Wal(
                        WalError::Index(crate::error::IndexError::Vector(v)),
                    ),
                    None => match snapshot::write_error(params, 0) {
                        Some(f) => e == RecoveryError::Snapshot(f),
                        None => false,
                    },
                },
            },
    {
        match vector_store::validate_dim(dim) {
            Err(e) => {
                return Err(
                    RecoveryError::Wal(WalError::Index(crate::error::IndexError::Vector(e))),
                );
            },
            Ok(_) => {},
        }
        match snapshot::check_writable(&params, 0) {
            Err(e) => {
                return Err(RecoveryError::Snapshot(e));
            },
            Ok(_) => {},
        }
        let index = match HnswIndex::new(dim, metric, params) {
            Err(e) => {
                return Err(RecoveryError::Wal(WalError::Index(e)));
            },
            Ok(index) => index,
        };
        let snapshot = match snapshot::write(&index, 0) {
            Err(e) => {
                return Err(RecoveryError::Snapshot(e));
            },
            Ok(snapshot) => snapshot,
        };
        let (log, header) = WalWriter::create(policy, 1);
        Ok(
            (
                Collection { index, log, logged: None, unmarked: false, marked: false },
                Files { snapshot, log: header },
            ),
        )
    }

    /// Opens a collection from its snapshot, which `words` holds too, and replays whatever its log
    /// holds past that. The log has to be repaired as told before anything is appended to it.
    pub fn open<M: Metric>(
        snapshot: &[u8],
        words: &'a [u32],
        log: Option<&[u8]>,
        policy: SyncPolicy,
        verify: Verify,
    ) -> (r: Result<(Self, Opened, Repair), RecoveryError>)
        requires
            u32::MAX < usize::MAX,
            words@ == words_of(snapshot@),
            load_error(snapshot@, verify) is None ==> openable::<M>(
                contents_of(snapshot@, verify)->Ok_0,
                log_seq(log),
            ),
        ensures
            opens::<M>(r, snapshot@, log_seq(log), policy, verify),
    {
        let recovered = match recovery::open::<M>(snapshot, words, log, verify) {
            Err(e) => {
                return Err(e);
            },
            Ok(recovered) => recovered,
        };
        let ghost c = contents_of(snapshot@, verify)->Ok_0;
        proof {
            let index = choose|index: HnswIndex<'a>| #[trigger]
                index_holds(index, c) && match recovery_of::<M>(
                    index@,
                    index.settings(),
                    index.width() as int,
                    c.header.wal_seq as int,
                    log_seq(log),
                ) {
                    Ok((p, tail)) => recovered_as(recovered, index, p, tail),
                    Err(e) => false,
                };
            if log is Some {
                recovery::lemma_recovery_continues::<M>(
                    index@,
                    index.settings(),
                    index.width() as int,
                    c.header.wal_seq as int,
                    log->0@,
                    Seq::empty(),
                );
            }
        }
        let opened = Opened {
            tail: recovered.tail,
            replayed: recovered.replayed,
            skipped: recovered.skipped,
        };
        let fresh = match recovered.continues {
            None => recovered.valid_bytes == 0,
            Some(next) => next != recovered.next_seq,
        };
        let (log, repair) = if fresh {
            let (log, header) = WalWriter::create(policy, recovered.next_seq);
            (log, Repair::Create(header))
        } else {
            (
                WalWriter::reopen(policy, recovered.next_seq, recovered.valid_bytes),
                Repair::Truncate(recovered.valid_bytes),
            )
        };
        let collection = Collection {
            index: recovered.index,
            log,
            logged: None,
            unmarked: false,
            marked: false,
        };
        Ok((collection, opened, repair))
    }

    /// Opens these files if [`Collection::open`] can take them.
    pub fn try_open<M: Metric>(
        snapshot: &[u8],
        words: &'a [u32],
        log: Option<&[u8]>,
        policy: SyncPolicy,
        verify: Verify,
    ) -> (r: Option<Result<(Self, Opened, Repair), RecoveryError>>)
        requires
            u32::MAX < usize::MAX,
            words@ == words_of(snapshot@),
        ensures
            r is Some == (load_error(snapshot@, verify) is None ==> openable::<M>(
                contents_of(snapshot@, verify)->Ok_0,
                log_seq(log),
            )),
            r matches Some(opened) ==> opens::<M>(
                opened,
                snapshot@,
                log_seq(log),
                policy,
                verify,
            ),
    {
        if recovery::can_open::<M>(snapshot, words, log, verify) {
            Some(Self::open::<M>(snapshot, words, log, policy, verify))
        } else {
            None
        }
    }

    pub fn index(&self) -> (r: &HnswIndex<'a>)
        ensures
            *r == self.held(),
    {
        &self.index
    }

    pub fn vectors(&self) -> (r: &VectorStore<'a>)
        ensures
            *r == self.held().store(),
    {
        self.index.vectors()
    }

    pub fn len(&self) -> (r: usize)
        ensures
            r == self.held()@.vecs.len(),
    {
        self.index.len()
    }

    pub fn is_empty(&self) -> (r: bool)
        ensures
            r == (self.held()@.vecs.len() == 0),
    {
        self.index.is_empty()
    }

    pub fn searcher(&self) -> (r: Searcher)
        ensures
            r.wf(),
            r.room() == if self.held()@.vecs.len() == 0 {
                1
            } else {
                self.held()@.vecs.len()
            },
    {
        self.index.searcher()
    }

    /// The sequence number the next durable write will take.
    pub fn next_seq(&self) -> (r: u64)
        ensures
            r == self.writer().upcoming(),
    {
        self.log.next_seq()
    }

    /// Draws the level of a new vector and makes the record of its insert. The draw counts even if
    /// the record is refused or never gets written. What the index would refuse gets no record.
    pub fn prepare_insert<F: Fn(u64) -> usize>(
        &mut self,
        external_id: ExternalId,
        vector: &[u32],
        scale: &F,
    ) -> (r: Result<Pending, RecoveryError>)
        requires
            old(self).held().insertable(),
            old(self).held().has_room(),
            old(self).held().level_state().2 < u64::MAX,
            forall|w: u64| call_requires(*scale, (w,)),
            30 + 4 * vector@.len() <= usize::MAX,
        ensures
            final(self).held().insertable(),
            old(self).held().valid() ==> final(self).held().valid(),
            final(self).held()@ == old(self).held()@,
            final(self).held().settings() == old(self).held().settings(),
            final(self).held().kind() == old(self).held().kind(),
            final(self).held().width() == old(self).held().width(),
            final(self).held().store() == old(self).held().store(),
            final(self).held().level_state().2 == old(self).held().level_state().2 + if old(
                self,
            ).idle() {
                1int
            } else {
                0
            },
            final(self).writer() == old(self).writer(),
            final(self).logged() == old(self).logged(),
            final(self).unmarked() == old(self).unmarked(),
            final(self).marked() == old(self).marked(),
            match r {
                Ok(pending) => {
                    &&& old(self).idle()
                    &&& old(self).held().insert_error(vector@) is None
                    &&& pending.number() == old(self).writer().upcoming()
                    &&& draws(old(self).held().level_state(), *scale, pending.height())
                    &&& pending.height() <= MAX_LEVEL
                    &&& pending.components() == vector@
                    &&& pending.bytes().len() == 30 + 4 * vector@.len()
                    &&& pending.bytes().len() <= MAX_RECORD_BYTES
                    &&& pending.bytes() == record_bytes(
                        pending.number(),
                        insert_record(external_id, pending.height(), vector@),
                    )
                },
                Err(e) => if !old(self).idle() {
                    e == (RecoveryError::OutOfOrder { step: Step::Prepare })
                } else if 30 + 4 * vector@.len() > MAX_RECORD_BYTES {
                    e == RecoveryError::Wal(
                        WalError::RecordTooLarge {
                            bytes: (30 + 4 * vector@.len()) as usize,
                            limit: MAX_RECORD_BYTES,
                        },
                    )
                } else {
                    match old(self).held().insert_error(vector@) {
                        Some(f) => e == RecoveryError::Wal(WalError::Index(f)),
                        None => false,
                    }
                },
            },
    {
        if self.under_way() || self.unmarked {
            return Err(RecoveryError::OutOfOrder { step: Step::Prepare });
        }
        let level: usize = self.index.draw_level(scale);
        let record = Record::Insert {
            external_id,
            level: level as u8,
            vector: vstd::slice::slice_to_vec(vector),
            metadata: Vec::new(),
        };
        proof {
            assert(record@->metadata =~= Seq::empty());
            assert(record@ == insert_record(external_id, level, vector@));
        }
        let bytes = match self.log.prepare(&record) {
            Err(e) => {
                return Err(RecoveryError::Wal(e));
            },
            Ok(bytes) => bytes,
        };
        proof {
            let cap = self.index.settings().base_cap();
            let size = self.index@.vecs.len();
            assert(size + 1 <= (size + 1) * (cap + 1)) by (nonlinear_arith);
        }
        match self.index.check_insert(vector) {
            Err(e) => Err(RecoveryError::Wal(WalError::Index(e))),
            Ok(_) => Ok(
                Pending {
                    seq: self.log.next_seq(),
                    level,
                    vector: vstd::slice::slice_to_vec(vector),
                    record: bytes,
                },
            ),
        }
    }

    /// Takes note that the record of an insert is in the log, and tells whether the policy calls
    /// for a sync. The index gets the vector from [`Collection::insert`].
    pub fn append(&mut self, pending: Pending) -> (r: Result<Appended, RecoveryError>)
        requires
            old(self).writer().upcoming() < u64::MAX,
            old(self).writer().size() + pending.bytes().len() <= u64::MAX,
        ensures
            match r {
                Ok(appended) => {
                    &&& old(self).idle()
                    &&& pending.number() == old(self).writer().upcoming()
                    &&& final(self).held() == old(self).held()
                    &&& final(self).logged() == Some(pending)
                    &&& !final(self).unmarked() && !final(self).marked()
                    &&& appended_as(
                        *old(self),
                        *final(self),
                        pending.bytes().len(),
                        appended,
                    )
                },
                Err(e) => {
                    &&& !old(self).idle() || pending.number() != old(self).writer().upcoming()
                    &&& e == (RecoveryError::OutOfOrder { step: Step::Append })
                    &&& *final(self) == *old(self)
                },
            },
    {
        if self.under_way() || self.unmarked || pending.seq != self.log.next_seq() {
            return Err(RecoveryError::OutOfOrder { step: Step::Append });
        }
        let appended = self.log.append(pending.record.len());
        self.logged = Some(pending);
        self.marked = false;
        Ok(appended)
    }

    /// Takes note that the record of a checkpoint is in the log, and tells whether the policy
    /// calls for a sync.
    pub fn mark(&mut self, checkpoint: &Checkpoint) -> (r: Result<Appended, RecoveryError>)
        requires
            old(self).writer().upcoming() < u64::MAX,
            old(self).writer().size() + checkpoint.bytes().len() <= u64::MAX,
        ensures
            match r {
                Ok(appended) => {
                    &&& old(self).unmarked() && !old(self).busy()
                    &&& checkpoint.number() == old(self).writer().upcoming()
                    &&& final(self).held() == old(self).held()
                    &&& final(self).logged() is None
                    &&& final(self).marked() && !final(self).unmarked()
                    &&& appended_as(
                        *old(self),
                        *final(self),
                        checkpoint.bytes().len(),
                        appended,
                    )
                },
                Err(e) => {
                    &&& !old(self).unmarked() || old(self).busy() || checkpoint.number() != old(
                        self,
                    ).writer().upcoming()
                    &&& e == (RecoveryError::OutOfOrder { step: Step::Mark })
                    &&& *final(self) == *old(self)
                },
            },
    {
        if !self.unmarked || self.under_way() || checkpoint.seq != self.log.next_seq() {
            return Err(RecoveryError::OutOfOrder { step: Step::Mark });
        }
        let appended = self.log.append(checkpoint.record.len());
        self.unmarked = false;
        self.marked = true;
        Ok(appended)
    }

    /// Takes note that the log has been forced to disk.
    pub fn sync(&mut self)
        ensures
            final(self).held() == old(self).held(),
            final(self).logged() == old(self).logged(),
            final(self).unmarked() == old(self).unmarked(),
            final(self).marked() == old(self).marked(),
            final(self).writer().pending() == 0,
            !final(self).writer().owes(),
            final(self).writer().upcoming() == old(self).writer().upcoming(),
            final(self).writer().size() == old(self).writer().size(),
            final(self).writer().rule() == old(self).writer().rule(),
    {
        self.log.sync();
    }

    /// Inserts the vector whose record is in the log, once that is on disk as far as the policy
    /// promises.
    pub fn insert<M: Metric>(
        &mut self,
        searcher: &mut Searcher,
        counter: &mut impl Count,
    ) -> (r: Result<NodeId, RecoveryError>)
        requires
            old(self).held().insertable(),
            old(self).held().has_room(),
            stands_for::<M>(old(self).held().kind()),
            old(searcher).wf(),
        ensures
            final(self).held().insertable(),
            old(self).held().valid() ==> final(self).held().valid(),
            final(searcher).wf(),
            final(self).held().kept_from(&old(self).held()),
            final(self).held().level_state() == old(self).held().level_state(),
            final(self).writer() == old(self).writer(),
            final(self).unmarked() == old(self).unmarked(),
            final(self).marked() == old(self).marked(),
            match old(self).logged() {
                Some(pending) if !old(self).writer().owes() => match (
                    r,
                    old(self).held().insert_error(pending.components()),
                ) {
                    (Ok(node), None) => {
                        &&& final(self).logged() is None
                        &&& node == old(self).held()@.vecs.len()
                        &&& final(self).held()@ == inserted::<M>(
                            old(self).held()@,
                            old(self).held().settings(),
                            pending.components(),
                            guarded(pending.height()) as nat,
                        )
                    },
                    (Err(e), Some(f)) => {
                        &&& e == RecoveryError::Wal(WalError::Index(f))
                        &&& *final(self) == *old(self)
                    },
                    _ => false,
                },
                _ => {
                    &&& r == Err::<NodeId, _>(RecoveryError::OutOfOrder { step: Step::Insert })
                    &&& *final(self) == *old(self)
                },
            },
            final(counter).total() == counted(
                old(counter).total(),
                if r is Ok {
                    insertion_cost::<M>(
                        old(self).held()@,
                        old(self).held().settings(),
                        old(self).logged()->0.components(),
                        guarded(old(self).logged()->0.height()) as nat,
                    )
                } else {
                    0
                },
            ),
    {
        proof {
            lemma_counted(counter.total(), 0, 0);
        }
        if self.log.sync_owed() {
            return Err(RecoveryError::OutOfOrder { step: Step::Insert });
        }
        let inserted = match &self.logged {
            None => {
                return Err(RecoveryError::OutOfOrder { step: Step::Insert });
            },
            Some(pending) => self.index.insert_at_level::<M>(
                searcher,
                pending.vector.as_slice(),
                pending.level,
                counter,
            ),
        };
        match inserted {
            Err(e) => Err(RecoveryError::Wal(WalError::Index(e))),
            Ok(node) => {
                self.logged = None;
                Ok(node)
            },
        }
    }

    /// Makes a checkpoint of the current state. Its number is the one that its own record is about
    /// to take, so that the fresh log starts right after it. From here on nothing else can take
    /// that number: the record has to be appended, whether or not the snapshot came into place.
    pub fn checkpoint(&mut self) -> (r: Result<Checkpoint, RecoveryError>)
        requires
            old(self).held().wf(),
        ensures
            final(self).held() == old(self).held(),
            final(self).writer() == old(self).writer(),
            final(self).logged() == old(self).logged(),
            final(self).marked() == old(self).marked(),
            final(self).unmarked() == (old(self).unmarked() || r is Ok),
            match r {
                Ok(checkpoint) => {
                    &&& !old(self).busy()
                    &&& snapshot::writable(old(self).held())
                    &&& checkpoint.number() == old(self).writer().upcoming()
                    &&& checkpoint.image() == snapshot_for(old(self).held(), checkpoint.number())
                    &&& checkpoint.bytes() == record_bytes(
                        checkpoint.number(),
                        checkpoint_record(checkpoint.number()),
                    )
                    &&& checkpoint.bytes().len() == record_size(
                        checkpoint_record(checkpoint.number()),
                    )
                },
                Err(e) => if old(self).busy() {
                    e == (RecoveryError::OutOfOrder { step: Step::Checkpoint })
                } else {
                    match snapshot::write_error(
                        old(self).held().settings(),
                        old(self).held()@.top as int,
                    ) {
                        Some(f) => e == RecoveryError::Snapshot(f),
                        None => false,
                    }
                },
            },
    {
        if self.under_way() {
            return Err(RecoveryError::OutOfOrder { step: Step::Checkpoint });
        }
        let seq: u64 = self.log.next_seq();
        let snapshot = match snapshot::write(&self.index, seq) {
            Err(e) => {
                return Err(RecoveryError::Snapshot(e));
            },
            Ok(snapshot) => snapshot,
        };
        let record = match self.log.prepare(&Record::Checkpoint { snapshot_wal_seq: seq }) {
            Err(e) => {
                return Err(RecoveryError::Wal(e));
            },
            Ok(bytes) => bytes,
        };
        self.unmarked = true;
        Ok(Checkpoint { seq, snapshot, record })
    }

    /// Starts a fresh log after the record of a checkpoint, with the bytes that come back. The
    /// checkpoint's snapshot has to be in place by then: the old log is all that stands for the
    /// inserts before it.
    pub fn restart_log(&mut self) -> (r: Result<Vec<u8>, RecoveryError>)
        ensures
            match r {
                Ok(header) => {
                    &&& old(self).marked() && old(self).idle()
                    &&& header@ == log_header()
                    &&& final(self).held() == old(self).held()
                    &&& !final(self).marked() && final(self).idle()
                    &&& final(self).writer().upcoming() == old(self).writer().upcoming()
                    &&& final(self).writer().size() == HEADER_BYTES
                    &&& final(self).writer().rule() == old(self).writer().rule()
                    &&& final(self).writer().pending() == 0
                },
                Err(e) => {
                    &&& !old(self).marked() || !old(self).idle()
                    &&& e == (RecoveryError::OutOfOrder { step: Step::Restart })
                    &&& *final(self) == *old(self)
                },
            },
    {
        if !self.marked || self.unmarked || self.under_way() {
            return Err(RecoveryError::OutOfOrder { step: Step::Restart });
        }
        let (log, header) = WalWriter::create(self.log.policy(), self.log.next_seq());
        self.log = log;
        self.marked = false;
        Ok(header)
    }

    /// The graph once the insert that is logged, if there is one, has reached the index.
    pub open spec fn due<M: Metric>(&self) -> Graph {
        match self.logged() {
            None => self.held()@,
            Some(pending) => inserted::<M>(
                self.held()@,
                self.held().settings(),
                pending.components(),
                guarded(pending.height()) as nat,
            ),
        }
    }

    /// The collection is what recovery makes of a graph that contains the records up to
    /// `contains` and of the log, but for the insert that is logged and has not reached the index:
    /// nothing in memory is missing on disk, and the next record is the one that the log goes on
    /// with.
    pub open spec fn in_step<M: Metric>(&self, base: Graph, contains: int, log: Seq<u8>) -> bool {
        &&& self.writer().size() == log.len()
        &&& match recovery_of::<M>(
            base,
            self.held().settings(),
            self.held().width() as int,
            contains,
            Some(log),
        ) {
            Ok((p, tail)) => {
                &&& tail == Tail::Clean
                &&& p.graph == self.due::<M>()
                &&& p.at == log.len()
                &&& p.last + 1 == self.writer().upcoming()
                &&& seamless(p)
            },
            Err(e) => false,
        }
    }
}

/// What one more record of `written` bytes does to the state of the log.
pub open spec fn appended_as(
    before: Collection,
    after: Collection,
    written: nat,
    appended: Appended,
) -> bool {
    let old = before.writer();
    let new = after.writer();
    &&& appended.seq == old.upcoming()
    &&& new.upcoming() == old.upcoming() + 1
    &&& new.size() == old.size() + written
    &&& new.rule() == old.rule()
    &&& new.owes() == appended.sync
    &&& new.pending() == match old.rule() {
        SyncPolicy::EveryN(n) => if old.pending() < u32::MAX {
            (old.pending() + 1) as u32
        } else {
            u32::MAX
        },
        _ => old.pending(),
    }
    &&& appended.sync == match old.rule() {
        SyncPolicy::Always => true,
        SyncPolicy::EveryN(n) => new.pending() >= n.length(),
        SyncPolicy::Never => false,
    }
}

/// The opened collection is the one that a replay comes to.
pub open spec fn opened_as<'a>(
    collection: Collection<'a>,
    before: HnswIndex<'a>,
    p: Progress,
) -> bool {
    &&& collection.held().wf()
    &&& before.insertable() ==> collection.held().insertable()
    &&& before.valid() ==> collection.held().valid()
    &&& collection.held()@ == p.graph
    &&& collection.held().kept_from(&before)
    &&& collection.held().level_state() == before.level_state()
    &&& collection.writer().upcoming() == p.last + 1
    &&& collection.writer().pending() == 0
    &&& collection.idle()
    &&& !collection.marked()
}

/// The number that a log goes on with is the one after the highest that is known.
pub open spec fn seamless(p: Progress) -> bool {
    p.expected is Some ==> p.expected->0 == p.last + 1
}

/// One more record at the end of a log that recovery gets through.
proof fn lemma_one_more<M: Metric>(
    base: Graph,
    params: HnswParams,
    dim: int,
    contains: int,
    log: Seq<u8>,
    seq: u64,
    op: Operation,
)
    requires
        fits(op, dim),
        match recovery_of::<M>(base, params, dim, contains, Some(log)) {
            Ok((p, tail)) => {
                &&& p.at == log.len()
                &&& p.expected is Some ==> p.expected->0 == seq
                &&& advanced::<M>(p, params, dim, contains, seq, op, record_size(op)) is Ok
            },
            Err(e) => false,
        },
    ensures
        recovery_of::<M>(base, params, dim, contains, Some(log + record_bytes(seq, op))) == Ok::<
            (Progress, Tail),
            RecoveryError,
        >(
            (
                advanced::<M>(
                    recovery_of::<M>(base, params, dim, contains, Some(log))->Ok_0.0,
                    params,
                    dim,
                    contains,
                    seq,
                    op,
                    record_size(op),
                )->Ok_0,
                Tail::Clean,
            ),
        ),
{
    let more = record_bytes(seq, op);
    recovery::lemma_recovery_continues::<M>(base, params, dim, contains, log, more);
    assert(log.take(log.len() as int) =~= log);
    wal::lemma_record_reads_back(seq, op, dim, Seq::empty());
    wal::lemma_record_size(seq, op);
    assert(more + Seq::empty() =~= more);
    assert(more.skip(record_size(op) as int) =~= Seq::empty());
    let p = recovery_of::<M>(base, params, dim, contains, Some(log))->Ok_0.0;
    let next = advanced::<M>(p, params, dim, contains, seq, op, record_size(op))->Ok_0;
    assert(replay_from::<M>(Seq::empty(), next, params, dim, contains) == Ok::<
        (Progress, Tail),
        RecoveryError,
    >((next, Tail::Clean)));
}

/// As long as no record was accepted, a replay has not moved.
proof fn lemma_unmoved<M: Metric>(
    rest: Seq<u8>,
    p: Progress,
    params: HnswParams,
    dim: int,
    contains: int,
)
    requires
        replay_from::<M>(rest, p, params, dim, contains) is Ok,
        replay_from::<M>(rest, p, params, dim, contains)->Ok_0.0.expected is None,
    ensures
        replay_from::<M>(rest, p, params, dim, contains)->Ok_0.0 == p,
    decreases rest.len(),
{
    match front(rest, dim) {
        Ok(Entry::Record { seq, op, bytes }) if !(p.expected is Some && seq != p.expected->0) => {
            recovery::lemma_front_size(rest, dim);
            let next = advanced::<M>(p, params, dim, contains, seq, op, bytes)->Ok_0;
            lemma_unmoved::<M>(rest.skip(bytes as int), next, params, dim, contains);
        },
        _ => {},
    }
}

/// Appending the record of an insert keeps collection and log in step: recovery from the longer log
/// comes to the graph that the index is about to have.
pub proof fn lemma_append_stays_in_step<M: Metric>(
    before: Collection,
    after: Collection,
    base: Graph,
    contains: int,
    log: Seq<u8>,
    external_id: ExternalId,
    pending: Pending,
)
    requires
        before.in_step::<M>(base, contains, log),
        0 <= contains,
        before.logged() is None,
        before.held().wf(),
        before.held().insert_error(pending.components()) is None,
        pending.height() <= MAX_LEVEL,
        pending.bytes().len() <= MAX_RECORD_BYTES,
        pending.bytes() == record_bytes(
            before.writer().upcoming(),
            insert_record(external_id, pending.height(), pending.components()),
        ),
        after.held() == before.held(),
        after.logged() == Some(pending),
        after.writer().upcoming() == before.writer().upcoming() + 1,
        after.writer().size() == before.writer().size() + pending.bytes().len(),
    ensures
        after.in_step::<M>(base, contains, log + pending.bytes()),
{
    let seq = before.writer().upcoming();
    let op = insert_record(external_id, pending.height(), pending.components());
    let params = before.held().settings();
    let dim = before.held().width() as int;
    let start = starting(base, contains, 16);
    let p = recovery_of::<M>(base, params, dim, contains, Some(log))->Ok_0.0;
    before.held().lemma_wf();
    wal::lemma_record_size(seq, op);
    lemma_last_grows::<M>(log.skip(16), start, params, dim, contains);
    if p.expected is None {
        lemma_unmoved::<M>(log.skip(16), start, params, dim, contains);
    }
    assert(applied::<M>(p.graph, params, dim, seq, op) == Ok::<Graph, RecoveryError>(
        after.due::<M>(),
    ));
    lemma_one_more::<M>(base, params, dim, contains, log, seq, op);
}

/// Updating the index keeps collection and log in step: it then has the graph that recovery comes
/// to. So every insert that was acknowledged is there after a restart.
pub proof fn lemma_insert_stays_in_step<M: Metric>(
    before: Collection,
    after: Collection,
    base: Graph,
    contains: int,
    log: Seq<u8>,
)
    requires
        before.in_step::<M>(base, contains, log),
        after.held()@ == before.due::<M>(),
        after.held().settings() == before.held().settings(),
        after.held().width() == before.held().width(),
        after.logged() is None,
        after.writer() == before.writer(),
    ensures
        after.in_step::<M>(base, contains, log),
{
}

/// What was acknowledged survives: if the process dies while the next record is being written,
/// with any part of it in the log, recovery comes to the graph that was in memory, with the insert
/// that was logged before it, and the log goes on with that same record.
pub proof fn lemma_acknowledged_survives<M: Metric>(
    collection: Collection,
    base: Graph,
    contains: int,
    log: Seq<u8>,
    op: Operation,
    kept: nat,
)
    requires
        collection.in_step::<M>(base, contains, log),
        fits(op, collection.held().width() as int),
        kept < record_size(op),
    ensures
        ({
            let seq = collection.writer().upcoming();
            let left = log + record_bytes(seq, op).take(kept as int);
            match recovery_of::<M>(
                base,
                collection.held().settings(),
                collection.held().width() as int,
                contains,
                Some(left),
            ) {
                Ok((p, tail)) => {
                    &&& p.graph == collection.due::<M>()
                    &&& p.last + 1 == seq
                    &&& p.at == log.len()
                    &&& seamless(p)
                    &&& (tail == Tail::Clean) == (kept == 0)
                },
                Err(e) => false,
            }
        }),
{
    let seq = collection.writer().upcoming();
    let params = collection.held().settings();
    let dim = collection.held().width() as int;
    let cut = record_bytes(seq, op).take(kept as int);
    wal::lemma_record_size(seq, op);
    recovery::lemma_recovery_continues::<M>(base, params, dim, contains, log, cut);
    assert(log.take(log.len() as int) =~= log);
    wal::lemma_cut_record_is_torn(seq, op, dim, kept);
}

/// A fresh log after a snapshot that contains everything is in step with the collection.
pub proof fn lemma_fresh_log_in_step<M: Metric>(collection: Collection, contains: int)
    requires
        collection.logged() is None,
        collection.writer().upcoming() == contains + 1,
        collection.writer().size() == HEADER_BYTES,
    ensures
        collection.in_step::<M>(collection.held()@, contains, log_header()),
{
    wal::lemma_log_header(Seq::empty());
    assert(log_header() + Seq::empty() =~= log_header());
    assert(log_header().skip(16) =~= Seq::empty());
}

/// A replay that accepts nothing past `upto` skips all of it once the snapshot contains that much.
proof fn lemma_all_skipped<M: Metric>(
    rest: Seq<u8>,
    p: Progress,
    q: Progress,
    params: HnswParams,
    dim: int,
    contains: int,
    upto: int,
)
    requires
        replay_from::<M>(rest, p, params, dim, contains) is Ok,
        replay_from::<M>(rest, p, params, dim, contains)->Ok_0.0.last <= upto,
        p.at == q.at,
        p.expected == q.expected,
        q.last == upto,
    ensures
        ({
            let one = replay_from::<M>(rest, p, params, dim, contains)->Ok_0;
            let two = replay_from::<M>(rest, q, params, dim, upto);
            &&& one.0.last >= p.last
            &&& two is Ok
            &&& two->Ok_0.1 == one.1
            &&& two->Ok_0.0.graph == q.graph
            &&& two->Ok_0.0.at == one.0.at
            &&& two->Ok_0.0.expected == one.0.expected
            &&& two->Ok_0.0.last == upto
            &&& two->Ok_0.0.replayed == q.replayed
        }),
    decreases rest.len(),
{
    match front(rest, dim) {
        Ok(Entry::Record { seq, op, bytes }) if !(p.expected is Some && seq != p.expected->0) => {
            recovery::lemma_front_size(rest, dim);
            let next = advanced::<M>(p, params, dim, contains, seq, op, bytes)->Ok_0;
            lemma_last_grows::<M>(rest.skip(bytes as int), next, params, dim, contains);
            let skipped = advanced::<M>(q, params, dim, upto, seq, op, bytes)->Ok_0;
            lemma_all_skipped::<M>(
                rest.skip(bytes as int),
                next,
                skipped,
                params,
                dim,
                contains,
                upto,
            );
        },
        _ => {},
    }
}

/// The highest number known never falls.
proof fn lemma_last_grows<M: Metric>(
    rest: Seq<u8>,
    p: Progress,
    params: HnswParams,
    dim: int,
    contains: int,
)
    requires
        replay_from::<M>(rest, p, params, dim, contains) is Ok,
    ensures
        replay_from::<M>(rest, p, params, dim, contains)->Ok_0.0.last >= p.last,
    decreases rest.len(),
{
    match front(rest, dim) {
        Ok(Entry::Record { seq, op, bytes }) if !(p.expected is Some && seq != p.expected->0) => {
            recovery::lemma_front_size(rest, dim);
            let next = advanced::<M>(p, params, dim, contains, seq, op, bytes)->Ok_0;
            lemma_last_grows::<M>(rest.skip(bytes as int), next, params, dim, contains);
        },
        _ => {},
    }
}

/// A crash during a checkpoint loses nothing. With the new snapshot and the old log, with or
/// without the checkpoint's record at its end, recovery skips the old records and comes to the
/// graph that was in memory.
pub proof fn lemma_checkpoint_can_be_interrupted<M: Metric>(
    collection: Collection,
    base: Graph,
    contains: int,
    log: Seq<u8>,
)
    requires
        collection.in_step::<M>(base, contains, log),
        collection.logged() is None,
        collection.writer().upcoming() < u64::MAX,
    ensures
        ({
            let seq = collection.writer().upcoming();
            let params = collection.held().settings();
            let dim = collection.held().width() as int;
            let g = collection.held()@;
            let marked = log + record_bytes(seq, checkpoint_record(seq));
            let old = recovery_of::<M>(g, params, dim, seq as int, Some(log));
            let new = recovery_of::<M>(g, params, dim, seq as int, Some(marked));
            &&& old is Ok && old->Ok_0.1 == Tail::Clean
            &&& old->Ok_0.0.graph == g && old->Ok_0.0.replayed == 0
            &&& old->Ok_0.0.last == seq
            &&& old->Ok_0.0.skipped == numbers(log.skip(16), dim).len()
            &&& new is Ok && new->Ok_0.1 == Tail::Clean
            &&& new->Ok_0.0.graph == g && new->Ok_0.0.replayed == 0
            &&& new->Ok_0.0.last == seq && seamless(new->Ok_0.0)
        }),
{
    let seq = collection.writer().upcoming();
    let params = collection.held().settings();
    let dim = collection.held().width() as int;
    let g = collection.held()@;
    lemma_all_skipped::<M>(
        log.skip(16),
        starting(base, contains, 16),
        starting(g, seq as int, 16),
        params,
        dim,
        contains,
        seq as int,
    );
    let old = recovery_of::<M>(g, params, dim, seq as int, Some(log));
    assert(old->Ok_0.0.skipped == numbers(log.skip(16), dim).len()) by {
        recovery::lemma_records_counted::<M>(g, params, dim, seq as int, log);
        assert(log.take(log.len() as int) =~= log);
        recovery::lemma_counts(seq as int, numbers(log.skip(16), dim));
    }
    wal::lemma_record_size(seq, checkpoint_record(seq));
    lemma_one_more::<M>(g, params, dim, seq as int, log, seq, checkpoint_record(seq));
}

/// The record of a checkpoint keeps collection and log in step: with the old snapshot, and with
/// the one that the checkpoint made.
pub proof fn lemma_mark_stays_in_step<M: Metric>(
    before: Collection,
    after: Collection,
    base: Graph,
    contains: int,
    log: Seq<u8>,
)
    requires
        before.in_step::<M>(base, contains, log),
        0 <= contains,
        before.logged() is None,
        after.held() == before.held(),
        after.logged() is None,
        after.writer().upcoming() == before.writer().upcoming() + 1,
        after.writer().size() == before.writer().size() + record_size(
            checkpoint_record(before.writer().upcoming()),
        ),
    ensures
        ({
            let seq = before.writer().upcoming();
            let marked = log + record_bytes(seq, checkpoint_record(seq));
            &&& after.in_step::<M>(base, contains, marked)
            &&& after.in_step::<M>(before.held()@, seq as int, marked)
        }),
{
    let seq = before.writer().upcoming();
    let op = checkpoint_record(seq);
    let params = before.held().settings();
    let dim = before.held().width() as int;
    let start = starting(base, contains, 16);
    let p = recovery_of::<M>(base, params, dim, contains, Some(log))->Ok_0.0;
    wal::lemma_record_size(seq, op);
    lemma_last_grows::<M>(log.skip(16), start, params, dim, contains);
    if p.expected is None {
        lemma_unmoved::<M>(log.skip(16), start, params, dim, contains);
    }
    lemma_one_more::<M>(base, params, dim, contains, log, seq, op);
    lemma_checkpoint_can_be_interrupted::<M>(before, base, contains, log);
    lemma_all_skipped::<M>(
        log.skip(16),
        start,
        starting(before.held()@, seq as int, 16),
        params,
        dim,
        contains,
        seq as int,
    );
    lemma_one_more::<M>(before.held()@, params, dim, seq as int, log, seq, op);
}

/// Where a replay comes to a log that does not go on with the next number, it has replayed
/// nothing.
proof fn lemma_seamless_or_unmoved<M: Metric>(
    rest: Seq<u8>,
    p: Progress,
    params: HnswParams,
    dim: int,
    contains: int,
    g: Graph,
)
    requires
        replay_from::<M>(rest, p, params, dim, contains) is Ok,
        contains <= p.last,
        (p.expected is Some && seamless(p)) || (p.graph == g && p.last == contains && p.replayed
            == 0),
    ensures
        ({
            let q = replay_from::<M>(rest, p, params, dim, contains)->Ok_0.0;
            (q.expected is Some && seamless(q)) || (q.graph == g && q.last == contains
                && q.replayed == 0)
        }),
    decreases rest.len(),
{
    match front(rest, dim) {
        Ok(Entry::Record { seq, op, bytes }) if !(p.expected is Some && seq != p.expected->0) => {
            recovery::lemma_front_size(rest, dim);
            let next = advanced::<M>(p, params, dim, contains, seq, op, bytes)->Ok_0;
            lemma_seamless_or_unmoved::<M>(
                rest.skip(bytes as int),
                next,
                params,
                dim,
                contains,
                g,
            );
        },
        _ => {},
    }
}

/// The log after the repair that opening calls for.
pub open spec fn repaired(repair: Repair, log: Option<Seq<u8>>) -> Seq<u8> {
    match repair {
        Repair::Create(header) => header@,
        Repair::Truncate(len) => log->0.take(len as int),
    }
}

/// What a replay comes to is in step with the repaired log.
#[verifier::spinoff_prover]
#[verifier::rlimit(40)]
proof fn lemma_replayed_in_step<M: Metric>(
    collection: Collection,
    before: HnswIndex,
    contains: int,
    log: Option<Seq<u8>>,
    repair: Repair,
)
    requires
        match recovery_of::<M>(
            before@,
            before.settings(),
            before.width() as int,
            contains,
            log,
        ) {
            Ok((p, tail)) => {
                &&& opened_as(collection, before, p)
                &&& collection.writer().size() == repaired(repair, log).len()
                &&& match repair {
                    Repair::Create(header) => {
                        &&& log is None || !seamless(p)
                        &&& header@ == log_header()
                    },
                    Repair::Truncate(len) => log is Some && seamless(p) && len == p.at,
                }
            },
            Err(e) => false,
        },
    ensures
        collection.in_step::<M>(before@, contains, repaired(repair, log)),
{
    let params = before.settings();
    let dim = before.width() as int;
    let p = recovery_of::<M>(before@, params, dim, contains, log)->Ok_0.0;
    match repair {
        Repair::Create(header) => {
            if log is Some {
                lemma_seamless_or_unmoved::<M>(
                    log->0.skip(16),
                    starting(before@, contains, 16),
                    params,
                    dim,
                    contains,
                    before@,
                );
            }
            assert(collection.held()@ == before@);
            wal::lemma_log_header(Seq::empty());
            assert(log_header() + Seq::empty() =~= log_header());
            lemma_fresh_log_in_step::<M>(collection, contains);
        },
        Repair::Truncate(len) => {
            recovery::lemma_recovery_is_repeatable::<M>(before@, params, dim, contains, log->0);
            recovery::lemma_recovery_continues::<M>(
                before@,
                params,
                dim,
                contains,
                log->0,
                Seq::empty(),
            );
        },
    }
}

/// An opened collection is in step with its snapshot and its repaired log, whatever the log was:
/// what is appended from there on is found again.
pub proof fn lemma_opened_in_step<'a, M: Metric>(
    snapshot: Seq<u8>,
    log: Option<Seq<u8>>,
    policy: SyncPolicy,
    verify: Verify,
    r: Result<(Collection<'a>, Opened, Repair), RecoveryError>,
)
    requires
        opens::<M>(r, snapshot, log, policy, verify),
    ensures
        r matches Ok((collection, opened, repair)) ==> {
            let c = contents_of(snapshot, verify)->Ok_0;
            &&& collection.idle()
            &&& forall|index: HnswIndex| #[trigger]
                index_holds(index, c) ==> collection.in_step::<M>(
                    index@,
                    c.header.wal_seq as int,
                    repaired(repair, log),
                )
        },
{
    if let Ok((collection, opened, repair)) = r {
        let c = contents_of(snapshot, verify)->Ok_0;
        let contains = c.header.wal_seq as int;
        let held = choose|index: HnswIndex<'a>| #[trigger]
            index_holds(index, c) && match recovery_of::<M>(
                index@,
                index.settings(),
                index.width() as int,
                contains,
                log,
            ) {
                Ok((p, tail)) => {
                    &&& opened_as(collection, index, p)
                    &&& match repair {
                        Repair::Create(header) => {
                            &&& log is None || !seamless(p)
                            &&& header@ == log_header()
                            &&& collection.writer().size() == HEADER_BYTES
                        },
                        Repair::Truncate(len) => {
                            &&& log is Some && seamless(p)
                            &&& len == p.at
                            &&& collection.writer().size() == p.at
                        },
                    }
                },
                Err(e) => false,
            };
        wal::lemma_log_header(Seq::empty());
        assert(log_header() + Seq::empty() =~= log_header());
        if log is Some {
            recovery::lemma_recovery_continues::<M>(
                held@,
                held.settings(),
                held.width() as int,
                contains,
                log->0,
                Seq::empty(),
            );
        }
        lemma_replayed_in_step::<M>(collection, held, contains, log, repair);
        assert forall|index: HnswIndex| #[trigger] index_holds(index, c) implies collection.in_step::<
            M,
        >(index@, contains, repaired(repair, log)) by {
            snapshot::lemma_held_alike(held, index, c);
        }
    }
}

/// A collection survives being closed and reopened: opened from the snapshot that its log goes on
/// from, and from that log, it has the graph that it had, with the insert that was logged, gives
/// out the same number next, and nothing of its log is cut off. Of the records in the log, those
/// that the snapshot contains are skipped and the others replayed.
pub proof fn lemma_reopened<'a, M: Metric>(
    collection: Collection,
    snapped: HnswIndex,
    contains: u64,
    log: Seq<u8>,
    policy: SyncPolicy,
    verify: Verify,
    r: Result<(Collection<'a>, Opened, Repair), RecoveryError>,
)
    requires
        snapped.insertable(),
        snapshot::writable(snapped),
        snapped.settings() == collection.held().settings(),
        snapped.width() == collection.held().width(),
        collection.in_step::<M>(snapped@, contains as int, log),
        opens::<M>(r, snapshot_for(snapped, contains), Some(log), policy, verify),
    ensures
        match r {
            Ok((reopened, opened, repair)) => {
                &&& reopened.held()@ == collection.due::<M>()
                &&& reopened.held().settings() == collection.held().settings()
                &&& reopened.writer().upcoming() == collection.writer().upcoming()
                &&& reopened.writer().size() == collection.writer().size()
                &&& opened.tail == Tail::Clean
                &&& opened.skipped == up_to(
                    contains as int,
                    numbers(log.skip(16), snapped.width() as int),
                )
                &&& opened.replayed == beyond(
                    contains as int,
                    numbers(log.skip(16), snapped.width() as int),
                )
                &&& repair == Repair::Truncate(collection.writer().size())
            },
            Err(e) => false,
        },
{
    recovery::lemma_records_counted::<M>(
        snapped@,
        snapped.settings(),
        snapped.width() as int,
        contains as int,
        log,
    );
    assert(log.take(log.len() as int) =~= log);
    let file = snapshot_for(snapped, contains);
    snapshot::lemma_snapshot_reads_back(snapped, contains, verify, Seq::empty());
    assert(file + Seq::empty() =~= file);
    let c = snapshot::contents_for(snapped, contains);
    assert(contents_of(file, verify)->Ok_0 == c);
    assert forall|index: HnswIndex<'a>| #[trigger] index_holds(index, c) implies index@ == snapped@
        && index.settings() == snapped.settings() && index.width() == snapped.width() by {
        snapshot::lemma_restored(snapped, contains, index);
    }
}

/// A checkpoint survives a restart without a replay: opened from its snapshot and the fresh log,
/// the collection has the graph that it had, nothing is replayed or skipped, and the next record
/// takes the number after the checkpoint's.
pub proof fn lemma_checkpoint_reopened<'a, M: Metric>(
    collection: Collection,
    policy: SyncPolicy,
    verify: Verify,
    r: Result<(Collection<'a>, Opened, Repair), RecoveryError>,
)
    requires
        collection.held().insertable(),
        snapshot::writable(collection.held()),
        opens::<M>(
            r,
            snapshot_for(collection.held(), collection.writer().upcoming()),
            Some(log_header()),
            policy,
            verify,
        ),
    ensures
        match r {
            Ok((reopened, opened, repair)) => {
                &&& reopened.held()@ == collection.held()@
                &&& reopened.held().settings() == collection.held().settings()
                &&& reopened.held().level_state() == collection.held().level_state()
                &&& reopened.writer().upcoming() == collection.writer().upcoming() + 1
                &&& opened == (Opened { tail: Tail::Clean, replayed: 0, skipped: 0 })
                &&& repair == Repair::Truncate(HEADER_BYTES as u64)
            },
            Err(e) => false,
        },
{
    let snapped = collection.held();
    let seq = collection.writer().upcoming();
    let file = snapshot_for(snapped, seq);
    snapshot::lemma_snapshot_reads_back(snapped, seq, verify, Seq::empty());
    assert(file + Seq::empty() =~= file);
    let c = snapshot::contents_for(snapped, seq);
    assert(contents_of(file, verify)->Ok_0 == c);
    assert forall|index: HnswIndex<'a>| #[trigger] index_holds(index, c) implies index@ == snapped@
        && index.settings() == snapped.settings() && index.width() == snapped.width()
        && index.level_state() == snapped.level_state() by {
        snapshot::lemma_restored(snapped, seq, index);
    }
    wal::lemma_log_header(Seq::empty());
    assert(log_header() + Seq::empty() =~= log_header());
    assert(log_header().skip(16) =~= Seq::empty());
}

/// A checkpoint that was cut short loses nothing either: opened from its snapshot and the old log,
/// which may lack the checkpoint's record, the collection has the graph that it had, nothing is
/// replayed, and what is appended to the repaired log is found again.
pub proof fn lemma_interrupted_checkpoint_reopened<'a, M: Metric>(
    collection: Collection,
    base: Graph,
    contains: int,
    log: Seq<u8>,
    policy: SyncPolicy,
    verify: Verify,
    r: Result<(Collection<'a>, Opened, Repair), RecoveryError>,
)
    requires
        collection.in_step::<M>(base, contains, log),
        collection.logged() is None,
        collection.held().insertable(),
        snapshot::writable(collection.held()),
        collection.writer().upcoming() < u64::MAX,
        opens::<M>(
            r,
            snapshot_for(collection.held(), collection.writer().upcoming()),
            Some(log),
            policy,
            verify,
        ),
    ensures
        match r {
            Ok((reopened, opened, repair)) => {
                &&& reopened.held()@ == collection.held()@
                &&& reopened.held().settings() == collection.held().settings()
                &&& reopened.held().width() == collection.held().width()
                &&& reopened.idle()
                &&& reopened.writer().upcoming() == collection.writer().upcoming() + 1
                &&& opened.tail == Tail::Clean
                &&& opened.replayed == 0
                &&& opened.skipped == numbers(
                    log.skip(16),
                    collection.held().width() as int,
                ).len()
                &&& reopened.in_step::<M>(
                    collection.held()@,
                    collection.writer().upcoming() as int,
                    repaired(repair, Some(log)),
                )
            },
            Err(e) => false,
        },
{
    let snapped = collection.held();
    let seq = collection.writer().upcoming();
    let file = snapshot_for(snapped, seq);
    snapshot::lemma_snapshot_reads_back(snapped, seq, verify, Seq::empty());
    assert(file + Seq::empty() =~= file);
    let c = snapshot::contents_for(snapped, seq);
    assert(contents_of(file, verify)->Ok_0 == c);
    assert forall|index: HnswIndex<'a>| #[trigger] index_holds(index, c) implies index@ == snapped@
        && index.settings() == snapped.settings() && index.width() == snapped.width() by {
        snapshot::lemma_restored(snapped, seq, index);
    }
    lemma_checkpoint_can_be_interrupted::<M>(collection, base, contains, log);
    lemma_opened_in_step::<M>(file, Some(log), policy, verify, r);
}

/// Records that are written to a log in step are all replayed by the next recovery.
proof fn lemma_more_records<M: Metric>(
    collection: Collection,
    base: Graph,
    contains: int,
    log: Seq<u8>,
    ops: Seq<Operation>,
)
    requires
        collection.in_step::<M>(base, contains, log),
        collection.logged() is None,
        0 <= contains,
        collection.writer().upcoming() + ops.len() <= u64::MAX,
        all_fit(ops, collection.held().width() as int),
        all_applied::<M>(
            collection.held()@,
            collection.held().settings(),
            collection.held().width() as int,
            collection.writer().upcoming() as int,
            ops,
        ) is Ok,
    ensures
        ({
            let params = collection.held().settings();
            let dim = collection.held().width() as int;
            let next = collection.writer().upcoming() as int;
            let before = recovery_of::<M>(base, params, dim, contains, Some(log))->Ok_0.0;
            recovery_of::<M>(base, params, dim, contains, Some(log + records(next, ops))) == Ok::<
                (Progress, Tail),
                RecoveryError,
            >(
                (
                    passed(
                        before,
                        all_applied::<M>(collection.held()@, params, dim, next, ops)->Ok_0,
                        next,
                        ops.len(),
                        records(next, ops).len(),
                        true,
                    ),
                    Tail::Clean,
                ),
            )
        }),
{
    let params = collection.held().settings();
    let dim = collection.held().width() as int;
    let next = collection.writer().upcoming() as int;
    let start = starting(base, contains, 16);
    let before = recovery_of::<M>(base, params, dim, contains, Some(log))->Ok_0.0;
    let more = records(next, ops);
    lemma_last_grows::<M>(log.skip(16), start, params, dim, contains);
    if before.expected is None {
        lemma_unmoved::<M>(log.skip(16), start, params, dim, contains);
    }
    recovery::lemma_recovery_continues::<M>(base, params, dim, contains, log, more);
    assert(log.take(log.len() as int) =~= log);
    recovery::lemma_records_applied::<M>(
        next,
        ops,
        Seq::empty(),
        before,
        params,
        dim,
        contains,
    );
    assert(more + Seq::empty() =~= more);
}

/// What is written after opening is found again: with `n` more inserts in its log, the collection
/// that is opened next replays these `n` beyond what it replayed before, skips what it skipped
/// before, and has their vectors; nothing of the log is cut off.
pub proof fn lemma_inserts_reopened<'a, M: Metric>(
    collection: Collection,
    snapped: HnswIndex,
    contains: u64,
    log: Seq<u8>,
    ops: Seq<Operation>,
    policy: SyncPolicy,
    verify: Verify,
    r: Result<(Collection<'a>, Opened, Repair), RecoveryError>,
)
    requires
        snapped.insertable(),
        snapshot::writable(snapped),
        snapped.settings() == collection.held().settings(),
        snapped.width() == collection.held().width(),
        collection.in_step::<M>(snapped@, contains as int, log),
        collection.logged() is None,
        collection.writer().upcoming() + ops.len() <= u64::MAX,
        all_inserts(ops),
        all_fit(ops, snapped.width() as int),
        all_applied::<M>(
            collection.held()@,
            snapped.settings(),
            snapped.width() as int,
            collection.writer().upcoming() as int,
            ops,
        ) is Ok,
        opens::<M>(
            r,
            snapshot_for(snapped, contains),
            Some(log + records(collection.writer().upcoming() as int, ops)),
            policy,
            verify,
        ),
    ensures
        match r {
            Ok((reopened, opened, repair)) => {
                &&& reopened.held()@ == all_applied::<M>(
                    collection.held()@,
                    snapped.settings(),
                    snapped.width() as int,
                    collection.writer().upcoming() as int,
                    ops,
                )->Ok_0
                &&& reopened.held()@.vecs.len() == collection.held()@.vecs.len() + ops.len()
                &&& reopened.writer().upcoming() == collection.writer().upcoming() + ops.len()
                &&& opened.tail == Tail::Clean
                &&& opened.skipped == up_to(
                    contains as int,
                    numbers(log.skip(16), snapped.width() as int),
                )
                &&& opened.replayed == beyond(
                    contains as int,
                    numbers(log.skip(16), snapped.width() as int),
                ) + ops.len()
                &&& repair matches Repair::Truncate(len) && len == log.len() + records(
                    collection.writer().upcoming() as int,
                    ops,
                ).len()
            },
            Err(e) => false,
        },
{
    let params = snapped.settings();
    let dim = snapped.width() as int;
    let next = collection.writer().upcoming() as int;
    let file = snapshot_for(snapped, contains);
    snapshot::lemma_snapshot_reads_back(snapped, contains, verify, Seq::empty());
    assert(file + Seq::empty() =~= file);
    let c = snapshot::contents_for(snapped, contains);
    assert(contents_of(file, verify)->Ok_0 == c);
    assert forall|index: HnswIndex<'a>| #[trigger] index_holds(index, c) implies index@ == snapped@
        && index.settings() == snapped.settings() && index.width() == snapped.width() by {
        snapshot::lemma_restored(snapped, contains, index);
    }
    lemma_more_records::<M>(collection, snapped@, contains as int, log, ops);
    recovery::lemma_inserts_grow::<M>(collection.held()@, params, dim, next, ops);
    recovery::lemma_records_counted::<M>(snapped@, params, dim, contains as int, log);
    assert(log.take(log.len() as int) =~= log);
}

/// No insert that is acknowledged after an interrupted checkpoint is lost: the collection is opened
/// from the checkpoint's snapshot and the old log, `n` vectors are inserted, and opened once more
/// it replays exactly these `n` and has them all.
#[verifier::spinoff_prover]
#[verifier::rlimit(40)]
pub proof fn lemma_inserts_after_interruption_reopened<'a, 'b, M: Metric>(
    collection: Collection,
    base: Graph,
    contains: int,
    log: Seq<u8>,
    policy: SyncPolicy,
    verify: Verify,
    first: Result<(Collection<'a>, Opened, Repair), RecoveryError>,
    ops: Seq<Operation>,
    second: Result<(Collection<'b>, Opened, Repair), RecoveryError>,
)
    requires
        collection.in_step::<M>(base, contains, log),
        collection.logged() is None,
        collection.held().insertable(),
        snapshot::writable(collection.held()),
        collection.writer().upcoming() + 1 + ops.len() <= u64::MAX,
        opens::<M>(
            first,
            snapshot_for(collection.held(), collection.writer().upcoming()),
            Some(log),
            policy,
            verify,
        ),
        all_inserts(ops),
        all_fit(ops, collection.held().width() as int),
        all_applied::<M>(
            collection.held()@,
            collection.held().settings(),
            collection.held().width() as int,
            collection.writer().upcoming() + 1,
            ops,
        ) is Ok,
        opens::<M>(
            second,
            snapshot_for(collection.held(), collection.writer().upcoming()),
            Some(
                repaired(first->Ok_0.2, Some(log)) + records(
                    collection.writer().upcoming() + 1,
                    ops,
                ),
            ),
            policy,
            verify,
        ),
    ensures
        first is Ok,
        match second {
            Ok((again, opened, repair)) => {
                &&& opened.tail == Tail::Clean
                &&& opened.replayed == ops.len()
                &&& again.held()@ == all_applied::<M>(
                    collection.held()@,
                    collection.held().settings(),
                    collection.held().width() as int,
                    collection.writer().upcoming() + 1,
                    ops,
                )->Ok_0
                &&& again.held()@.vecs.len() == collection.held()@.vecs.len() + ops.len()
                &&& again.writer().upcoming() == collection.writer().upcoming() + 1 + ops.len()
            },
            Err(e) => false,
        },
{
    let snapped = collection.held();
    let seq = collection.writer().upcoming();
    let params = snapped.settings();
    let dim = snapped.width() as int;
    lemma_interrupted_checkpoint_reopened::<M>(
        collection,
        base,
        contains,
        log,
        policy,
        verify,
        first,
    );
    let (reopened, opened, repair) = first->Ok_0;
    let left = repaired(repair, Some(log));
    lemma_inserts_reopened::<M>(
        reopened,
        snapped,
        seq,
        left,
        ops,
        policy,
        verify,
        second,
    );
    lemma_repair_replays_nothing::<M>(collection, base, contains, log, policy, verify, first);
}

/// The log that an interrupted checkpoint leaves after the repair holds nothing to replay.
proof fn lemma_repair_replays_nothing<'a, M: Metric>(
    collection: Collection,
    base: Graph,
    contains: int,
    log: Seq<u8>,
    policy: SyncPolicy,
    verify: Verify,
    r: Result<(Collection<'a>, Opened, Repair), RecoveryError>,
)
    requires
        collection.in_step::<M>(base, contains, log),
        collection.logged() is None,
        collection.held().insertable(),
        snapshot::writable(collection.held()),
        collection.writer().upcoming() < u64::MAX,
        opens::<M>(
            r,
            snapshot_for(collection.held(), collection.writer().upcoming()),
            Some(log),
            policy,
            verify,
        ),
        r is Ok,
    ensures
        beyond(
            collection.writer().upcoming() as int,
            numbers(
                repaired(r->Ok_0.2, Some(log)).skip(16),
                collection.held().width() as int,
            ),
        ) == 0,
{
    let snapped = collection.held();
    let seq = collection.writer().upcoming();
    let dim = snapped.width() as int;
    let (reopened, opened, repair) = r->Ok_0;
    match repair {
        Repair::Create(header) => {
            wal::lemma_log_header(Seq::empty());
            assert(log_header() + Seq::empty() =~= log_header());
            assert(repaired(repair, Some(log)).skip(16) =~= Seq::empty());
        },
        Repair::Truncate(len) => {
            let file = snapshot_for(snapped, seq);
            snapshot::lemma_snapshot_reads_back(snapped, seq, verify, Seq::empty());
            assert(file + Seq::empty() =~= file);
            let c = snapshot::contents_for(snapped, seq);
            assert(contents_of(file, verify)->Ok_0 == c);
            assert forall|index: HnswIndex<'a>| #[trigger] index_holds(index, c) implies index@
                == snapped@ && index.settings() == snapped.settings() && index.width()
                == snapped.width() by {
                snapshot::lemma_restored(snapped, seq, index);
            }
            lemma_checkpoint_can_be_interrupted::<M>(collection, base, contains, log);
            recovery::lemma_records_counted::<M>(
                snapped@,
                snapped.settings(),
                dim,
                seq as int,
                log,
            );
        },
    }
}

/// What the policy gives after every append: with a sync after every record, this one calls for it;
/// with one after every `n`, the record that makes `n` of them since the last sync does, and no
/// earlier one; without any, none does. Whatever the policy, numbers are given out one by one.
pub proof fn lemma_appended(
    before: Collection,
    after: Collection,
    written: nat,
    appended: Appended,
)
    requires
        appended_as(before, after, written, appended),
    ensures
        after.writer().upcoming() == before.writer().upcoming() + 1 == appended.seq + 1,
        after.writer().size() - before.writer().size() == written,
        before.writer().rule() == SyncPolicy::Always ==> appended.sync,
        before.writer().rule() == SyncPolicy::Never ==> !appended.sync,
        before.writer().rule() matches SyncPolicy::EveryN(n) ==> {
            &&& before.writer().pending() < u32::MAX ==> appended.sync == (n.length()
                <= before.writer().pending() + 1)
            &&& before.writer().pending() < n.length() && !appended.sync
                ==> after.writer().pending() == before.writer().pending() + 1 < n.length()
        },
        after.writer().owes() == appended.sync,
        after.writer().rule() == before.writer().rule(),
{
}

} // verus!
