use anka::error::{IndexError, VectorError};
use anka::hnsw::index::HnswIndex;
use anka::hnsw::params::HnswParams;
use anka::hnsw::stats::DistanceCounter;
use anka::metric::{Metric, MetricKind};
use anka::store::error::{RecoveryError, WalError};
use anka::store::header::{SnapshotHeader, HEADER_BYTES};
use anka::store::recovery::{replay, try_open, Recovered, Tail};
use anka::store::snapshot::{self, Verify};
use anka::store::wal::{Interval, Record, SyncPolicy, Torn, WalWriter, FRAME_BYTES};

/// The bits of a list of numbers.
fn bits(values: &[f32]) -> Vec<u32> {
    values.iter().map(|x| x.to_bits()).collect()
}

fn l2(a: &[u32], b: &[u32]) -> u32 {
    let mut sum = 0.0f64;
    for (x, y) in a.iter().zip(b) {
        let d = f64::from(f32::from_bits(*x)) - f64::from(f32::from_bits(*y));
        sum += d * d;
    }
    (sum as f32).to_bits()
}

struct L2Squared;

impl Metric for L2Squared {
    const NAME: &'static str = "l2squared";

    fn distance_scalar(a: &[u32], b: &[u32]) -> u32 {
        l2(a, b)
    }

    fn distance(a: &[u32], b: &[u32]) -> u32 {
        l2(a, b)
    }

    fn preprocess(_vector: &mut [u32]) -> Result<(), VectorError> {
        Ok(())
    }
}

/// The same bytes as whole little-endian words.
fn words(bytes: &[u8]) -> Vec<u32> {
    bytes
        .chunks_exact(4)
        .map(|four| u32::from_le_bytes([four[0], four[1], four[2], four[3]]))
        .collect()
}

const DIM: usize = 4;

fn vector(id: u64) -> Vec<u32> {
    (0..DIM).map(|i| (id as f32 * 3.0 + i as f32).to_bits()).collect()
}

fn insert_record(id: u64, level: u8) -> Record {
    Record::Insert {
        external_id: id,
        level,
        vector: vector(id),
        metadata: Vec::new(),
    }
}

fn empty_index() -> HnswIndex<'static> {
    HnswIndex::new(DIM, MetricKind::L2Squared, HnswParams::default()).unwrap()
}

fn expected_index(levels: &[(u64, u8)]) -> HnswIndex<'static> {
    let mut index = empty_index();
    let mut searcher = index.searcher();
    let mut counter = DistanceCounter::new();
    for &(id, level) in levels {
        index
            .insert_at_level::<L2Squared>(
                &mut searcher,
                &vector(id),
                level as usize,
                &mut counter,
            )
            .unwrap();
    }
    index
}

fn assert_same_graph(a: &HnswIndex<'_>, b: &HnswIndex<'_>) {
    assert_eq!(a.len(), b.len(), "node count");
    assert_eq!(a.max_layer(), b.max_layer(), "max layer");
    assert_eq!(a.entry_point(), b.entry_point(), "entry point");
    for layer in 0..=a.max_layer() {
        let (left, right) = (&a.layers()[layer], &b.layers()[layer]);
        assert_eq!(
            left.nodes(),
            right.nodes(),
            "layer {layer} membership"
        );
        for node in left.nodes() {
            assert_eq!(
                left.neighbors(node),
                right.neighbors(node),
                "layer {layer}, node {node}"
            );
        }
    }
    for node in 0..a.len() as u32 {
        assert_eq!(a.level_of(node), b.level_of(node), "level of {node}");
    }
}

fn assert_same_answers(a: &HnswIndex<'_>, b: &HnswIndex<'_>) {
    let mut sa = a.searcher();
    let mut sb = b.searcher();
    let mut counter = DistanceCounter::new();
    for id in 0..12u64 {
        let query = vector(id * 2);
        assert_eq!(
            a.search::<L2Squared>(&mut sa, &query, 5, 32, &mut counter)
                .unwrap(),
            b.search::<L2Squared>(&mut sb, &query, 5, 32, &mut counter)
                .unwrap(),
            "query {id}"
        );
    }
}

/// A log file in memory.
struct Log {
    writer: WalWriter,
    bytes: Vec<u8>,
}

impl Log {
    fn create(policy: SyncPolicy, first_seq: u64) -> Log {
        let (writer, bytes) = WalWriter::create(policy, first_seq);
        Log { writer, bytes }
    }

    fn reopen(mut bytes: Vec<u8>, policy: SyncPolicy, next_seq: u64, valid_bytes: u64) -> Log {
        bytes.truncate(valid_bytes as usize);
        Log {
            writer: WalWriter::reopen(policy, next_seq, valid_bytes),
            bytes,
        }
    }

    fn append(&mut self, record: &Record) -> Result<u64, WalError> {
        let bytes = self.writer.prepare(record)?;
        self.bytes.extend_from_slice(&bytes);
        let appended = self.writer.append(bytes.len());
        if appended.sync {
            self.writer.sync();
        }
        Ok(appended.seq)
    }
}

/// The bytes of a fresh log that starts at `first_seq` and holds `records`.
fn write_log(records: &[Record], first_seq: u64) -> Vec<u8> {
    let mut log = Log::create(SyncPolicy::Always, first_seq);
    for record in records {
        log.append(record).unwrap();
    }
    log.bytes
}

fn replayed(index: HnswIndex<'static>, contains: u64, log: &[u8]) -> Result<Recovered<'static>, RecoveryError> {
    replay::<L2Squared>(index, contains, Some(log))
}

const LEVELS: [(u64, u8); 8] = [
    (1, 0),
    (2, 1),
    (3, 0),
    (4, 0),
    (5, 2),
    (6, 0),
    (7, 1),
    (8, 0),
];

#[test]
fn replaying_a_log_rebuilds_the_same_index() {
    let records: Vec<Record> = LEVELS
        .iter()
        .map(|&(id, level)| insert_record(id, level))
        .collect();
    let log = write_log(&records, 1);

    let recovered = replayed(empty_index(), 0, &log).unwrap();

    assert_eq!(recovered.replayed, LEVELS.len());
    assert_eq!(recovered.skipped, 0);
    assert_eq!(recovered.tail, Tail::Clean);
    assert_eq!(recovered.next_seq, LEVELS.len() as u64 + 1);
    assert!(!recovered.tail.truncated());

    let expected = expected_index(&LEVELS);
    assert_same_graph(&expected, &recovered.index);
    assert_same_answers(&expected, &recovered.index);
}

#[test]
fn records_already_in_the_snapshot_are_skipped() {
    let records: Vec<Record> = LEVELS
        .iter()
        .map(|&(id, level)| insert_record(id, level))
        .collect();
    let log = write_log(&records, 1);

    // A snapshot holding the first five records, and a log that still carries all eight.
    let base = expected_index(&LEVELS[..5]);
    let recovered = replayed(base, 5, &log).unwrap();

    assert_eq!(recovered.skipped, 5);
    assert_eq!(recovered.replayed, 3);
    assert_eq!(recovered.index.len(), LEVELS.len());

    let expected = expected_index(&LEVELS);
    assert_same_graph(&expected, &recovered.index);
    assert_same_answers(&expected, &recovered.index);
}

#[test]
fn a_sequence_gap_truncates_from_the_gap() {
    let mut log = Log::create(SyncPolicy::Always, 1);
    for &(id, level) in &LEVELS[..3] {
        log.append(&insert_record(id, level)).unwrap();
    }
    let valid = log.writer.len();
    // Skip a number, then keep writing perfectly good records.
    let mut log = Log::reopen(log.bytes, SyncPolicy::Always, 5, valid);
    assert_eq!(log.bytes.len() as u64, valid);
    for &(id, level) in &LEVELS[3..] {
        log.append(&insert_record(id, level)).unwrap();
    }

    let recovered = replayed(empty_index(), 0, &log.bytes).unwrap();

    assert_eq!(
        recovered.tail,
        Tail::SequenceGap {
            expected: 4,
            found: 5
        }
    );
    assert_eq!(recovered.replayed, 3);
    assert_eq!(recovered.valid_bytes, valid);
    assert_eq!(recovered.next_seq, 4);
    assert_same_graph(&expected_index(&LEVELS[..3]), &recovered.index);
}

#[test]
fn a_torn_tail_stops_at_the_last_intact_record() {
    let records: Vec<Record> = LEVELS
        .iter()
        .map(|&(id, level)| insert_record(id, level))
        .collect();
    let log = write_log(&records, 1);
    let whole = log.clone();

    let complete = replayed(empty_index(), 0, &log).unwrap();
    assert_eq!(complete.tail, Tail::Clean);
    let full_len = complete.valid_bytes as usize;
    let last_record_len = insert_record(8, 0).encoded_len();
    let boundary = full_len - last_record_len;

    // Truncated at every byte of the final record. `kept = 0` is the boundary case and is
    // deliberately included: a crash exactly between two records leaves a log that is *clean*,
    // seven records long, with nothing to discard. Anything past that byte is a torn tail.
    for kept in 0..last_record_len {
        let recovered = replayed(empty_index(), 0, &whole[..boundary + kept]).unwrap();

        assert_eq!(
            recovered.replayed, 7,
            "kept {kept} bytes of the last record"
        );
        assert_eq!(recovered.valid_bytes, boundary as u64);
        assert_eq!(recovered.next_seq, 8);
        assert_eq!(
            recovered.tail.truncated(),
            kept > 0,
            "kept {kept} bytes of the last record"
        );
        if kept > 0 && kept < FRAME_BYTES {
            assert_eq!(
                recovered.tail,
                Tail::Torn(Torn::ShortFrame { remaining: kept })
            );
        }
        assert_same_graph(&expected_index(&LEVELS[..7]), &recovered.index);
    }

    // A single flipped bit anywhere in the final record, which the checksum has to catch.
    for byte in boundary..full_len {
        let mut bytes = whole.clone();
        bytes[byte] ^= 0x01;
        let recovered = replayed(empty_index(), 0, &bytes).unwrap();

        assert_eq!(recovered.replayed, 7, "flipped bit at byte {byte}");
        assert_eq!(recovered.valid_bytes, boundary as u64);
        assert!(recovered.tail.truncated());
    }
}

#[test]
fn recovering_twice_gives_the_same_index() {
    let records: Vec<Record> = LEVELS
        .iter()
        .map(|&(id, level)| insert_record(id, level))
        .collect();
    let log = write_log(&records, 1);

    let whole = log.clone();
    let log = whole[..whole.len() - 5].to_vec();

    let first = replayed(empty_index(), 0, &log).unwrap();
    assert!(first.tail.truncated());

    // What a real restart does next: cut the tail off, then append.
    let log = Log::reopen(log, SyncPolicy::Always, first.next_seq, first.valid_bytes).bytes;

    let second = replayed(empty_index(), 0, &log).unwrap();
    assert_eq!(second.tail, Tail::Clean);
    assert_eq!(second.replayed, first.replayed);
    assert_eq!(second.valid_bytes, first.valid_bytes);
    assert_same_graph(&first.index, &second.index);
}

#[test]
fn writing_after_recovery_extends_the_same_log() {
    let records: Vec<Record> = LEVELS[..4]
        .iter()
        .map(|&(id, level)| insert_record(id, level))
        .collect();
    let log = write_log(&records, 1);

    let recovered = replayed(empty_index(), 0, &log).unwrap();
    let mut log = Log::reopen(
        log,
        SyncPolicy::Always,
        recovered.next_seq,
        recovered.valid_bytes,
    );
    for &(id, level) in &LEVELS[4..] {
        log.append(&insert_record(id, level)).unwrap();
    }

    let again = replayed(empty_index(), 0, &log.bytes).unwrap();
    assert_eq!(again.tail, Tail::Clean);
    assert_eq!(again.replayed, LEVELS.len());
    assert_same_graph(&expected_index(&LEVELS), &again.index);
}

#[test]
fn a_missing_log_is_fine_and_a_foreign_one_is_not() {
    let recovered = replay::<L2Squared>(expected_index(&LEVELS), 8, None).unwrap();
    assert_eq!(recovered.tail, Tail::Clean);
    assert_eq!(recovered.replayed, 0);
    assert_eq!(recovered.next_seq, 9);

    let foreign = b"not a log, just some bytes here";
    assert!(matches!(
        replayed(empty_index(), 0, foreign),
        Err(RecoveryError::Wal(WalError::BadMagic { .. }))
    ));
}

#[test]
fn a_log_that_skips_past_the_snapshot_is_an_error() {
    let records: Vec<Record> = LEVELS[..3]
        .iter()
        .map(|&(id, level)| insert_record(id, level))
        .collect();
    let log = write_log(&records, 10);

    assert!(matches!(
        replayed(empty_index(), 4, &log),
        Err(RecoveryError::MissingRecords {
            contains: 4,
            found: 10
        })
    ));
    // Starting exactly where the snapshot ends is the normal post-checkpoint case.
    assert!(replayed(empty_index(), 9, &log).is_ok());
}

#[test]
fn a_delete_record_is_refused_rather_than_skipped() {
    let log = write_log(
        &[insert_record(1, 0), Record::Delete { external_id: 1 }],
        1,
    );

    assert!(matches!(
        replayed(empty_index(), 0, &log),
        Err(RecoveryError::CannotReplayDelete { seq: 2 })
    ));
}

#[test]
fn checkpoint_records_replay_as_nothing() {
    let mut records: Vec<Record> = LEVELS[..3]
        .iter()
        .map(|&(id, level)| insert_record(id, level))
        .collect();
    records.push(Record::Checkpoint {
        snapshot_wal_seq: 3,
    });
    records.extend(
        LEVELS[3..]
            .iter()
            .map(|&(id, level)| insert_record(id, level)),
    );
    let log = write_log(&records, 1);

    let recovered = replayed(empty_index(), 0, &log).unwrap();
    assert_eq!(recovered.tail, Tail::Clean);
    assert_eq!(recovered.replayed, records.len());
    assert_eq!(recovered.index.len(), LEVELS.len());
    assert_same_graph(&expected_index(&LEVELS), &recovered.index);
}

#[test]
fn a_snapshot_and_its_log_recover_together() {
    // Five records committed and checkpointed, three more logged after it.
    let checkpointed = expected_index(&LEVELS[..5]);
    let file = snapshot::write(&checkpointed, 5).unwrap();
    let file_words = words(&file);

    let mut log = Log::create(SyncPolicy::Always, 6);
    for &(id, level) in &LEVELS[5..] {
        log.append(&insert_record(id, level)).unwrap();
    }

    let recovered = try_open::<L2Squared>(&file, &file_words, Some(&log.bytes), Verify::Body)
        .unwrap()
        .unwrap();

    assert_eq!(recovered.skipped, 0, "the log starts after the snapshot");
    assert_eq!(recovered.replayed, 3);
    assert_eq!(recovered.tail, Tail::Clean);
    assert_eq!(recovered.next_seq, 9);

    let expected = expected_index(&LEVELS);
    assert_same_graph(&expected, &recovered.index);
    assert_same_answers(&expected, &recovered.index);
    recovered.index.validate().unwrap();

    // The vectors the snapshot supplied are still mapped; the replayed ones are not.
    assert!(recovered.index.vectors().is_mapped());
    assert_eq!(recovered.index.vectors().mapped_count(), 5);
}

#[test]
fn the_sync_policy_does_not_change_what_recovery_produces() {
    let expected = expected_index(&LEVELS);
    for policy in [
        SyncPolicy::Always,
        SyncPolicy::EveryN(Interval::new(3).unwrap()),
        SyncPolicy::Never,
    ] {
                let mut log = Log::create(policy, 1);
        for &(id, level) in &LEVELS {
            log.append(&insert_record(id, level)).unwrap();
        }

        let recovered = replayed(empty_index(), 0, &log.bytes).unwrap();
        assert_eq!(recovered.tail, Tail::Clean, "{policy:?}");
        assert_same_graph(&expected, &recovered.index);
    }
}

#[test]
fn nothing_is_inserted_into_a_graph_that_is_unsound() {
    let file = snapshot::write(&expected_index(&LEVELS), 8).unwrap();
    let file_words = words(&file);
    let sound = try_open::<L2Squared>(&file, &file_words, None, Verify::Body);
    assert!(sound.unwrap().is_ok());

    // The entry point has to be on the top layer, and node 0 is not.
    let mut header = SnapshotHeader::decode(&file).unwrap();
    header.entry_point = Some(0);
    let mut unsound = file.clone();
    unsound[..HEADER_BYTES].copy_from_slice(&header.encode());
    let unsound_words = words(&unsound);
    let opened = |log: Option<&[u8]>| {
        try_open::<L2Squared>(&unsound, &unsound_words, log, Verify::Body)
    };
    let recovered = opened(None).unwrap().unwrap();
    assert_eq!(recovered.index.len(), 8);
    assert_eq!(recovered.next_seq, 9);
    assert!(!recovered.index.can_insert());

    // A log is replayed onto it as long as it has no insert that the snapshot lacks.
    let mut records = Vec::new();
    for &(id, level) in &LEVELS {
        records.push(insert_record(id, level));
    }
    let contained = write_log(&records, 1);
    let recovered = opened(Some(&contained)).unwrap().unwrap();
    assert_eq!((recovered.skipped, recovered.replayed), (8, 0));

    records.push(Record::Checkpoint { snapshot_wal_seq: 8 });
    let marked = write_log(&records, 1);
    let recovered = opened(Some(&marked)).unwrap().unwrap();
    assert_eq!((recovered.skipped, recovered.replayed), (8, 1));

    records.push(insert_record(9, 0));
    let longer = write_log(&records, 1);
    assert!(opened(Some(&longer)).is_none());
    assert!(try_open::<L2Squared>(&file, &file_words, Some(&longer), Verify::Body)
        .unwrap()
        .is_ok());

    // What lies behind a gap, a delete or a level that is too high is not reached.
    let gap = write_log(&[insert_record(9, 0)], 11);
    assert!(matches!(
        opened(Some(&gap)),
        Some(Err(RecoveryError::MissingRecords { contains: 8, found: 11 }))
    ));
    let delete = write_log(&[Record::Delete { external_id: 1 }, insert_record(9, 0)], 9);
    assert!(matches!(
        opened(Some(&delete)),
        Some(Err(RecoveryError::CannotReplayDelete { seq: 9 }))
    ));
    let high = write_log(&[insert_record(9, 200), insert_record(10, 0)], 9);
    assert!(matches!(opened(Some(&high)), Some(Err(RecoveryError::Wal(_)))));
    assert!(matches!(
        opened(Some(&contained[..7])),
        Some(Err(RecoveryError::Wal(_)))
    ));

    // Nor is a sound one opened with another metric than its own.
    header.entry_point = SnapshotHeader::decode(&file).unwrap().entry_point;
    header.metric = MetricKind::Dot;
    let mut other = file.clone();
    other[..HEADER_BYTES].copy_from_slice(&header.encode());
    let other_words = words(&other);
    assert!(try_open::<L2Squared>(&other, &other_words, None, Verify::Body).is_none());

    // Files that are refused are refused as such.
    assert!(matches!(
        try_open::<L2Squared>(&file[..7], &[], None, Verify::Body),
        Some(Err(RecoveryError::Snapshot(_)))
    ));
}

#[test]
fn records_that_the_index_cannot_take_are_errors() {
    let high = write_log(&[insert_record(1, 200)], 1);
    assert!(matches!(
        replayed(empty_index(), 0, &high),
        Err(RecoveryError::Wal(WalError::LevelOutOfRange { seq: 1, level: 200 }))
    ));
    let record = Record::Insert {
        external_id: 1,
        level: 0,
        vector: bits(&[1.0, f32::NAN, 0.0, 0.0]),
        metadata: Vec::new(),
    };
    assert!(matches!(
        replayed(empty_index(), 0, &write_log(&[record], 1)),
        Err(RecoveryError::Wal(WalError::Index(IndexError::Vector(
            VectorError::NonFinite { component: 1, .. }
        ))))
    ));
}

#[test]
fn a_log_that_straddles_the_snapshot_is_replayed_from_there() {
    let records: Vec<Record> = LEVELS.iter().map(|&(id, level)| insert_record(id, level)).collect();
    let count = records.len();
    let log = write_log(&records, 1);
    for contains in 0..=count {
        let index = expected_index(&LEVELS[..contains]);
        let intact = replayed(index, contains as u64, &log).unwrap();
        assert_eq!((intact.skipped, intact.replayed), (contains, count - contains));
        assert_eq!(intact.next_seq, count as u64 + 1);
        assert_eq!(intact.continues, Some(count as u64 + 1));
        assert_eq!(intact.valid_bytes as usize, log.len());
        assert_eq!(intact.tail, Tail::Clean);
        assert_same_graph(&expected_index(&LEVELS), &intact.index);

        // A record that is not the next one ends it, and so does half of one.
        let stray = write_log(&[insert_record(99, 0)], 40);
        let mut gapped = log.clone();
        gapped.extend_from_slice(&stray[16..]);
        let mut torn = log.clone();
        torn.extend_from_slice(&stray[16..30]);
        for (bytes, gap) in [(&gapped, true), (&torn, false)] {
            let ended = replayed(expected_index(&LEVELS[..contains]), contains as u64, bytes).unwrap();
            assert_eq!((ended.skipped, ended.replayed), (contains, count - contains));
            assert_eq!(ended.valid_bytes as usize, log.len());
            assert_eq!(
                ended.tail == Tail::SequenceGap { expected: count as u64 + 1, found: 40 },
                gap
            );
            assert!(ended.tail.truncated());
            assert_same_graph(&expected_index(&LEVELS), &ended.index);
        }
    }
}

#[test]
fn a_log_that_ends_before_the_snapshot_says_where() {
    let records: Vec<Record> = LEVELS.iter().map(|&(id, level)| insert_record(id, level)).collect();
    let log = write_log(&records, 1);
    let past = replayed(expected_index(&LEVELS), records.len() as u64 + 1, &log).unwrap();
    assert_eq!(past.next_seq, records.len() as u64 + 2);
    assert_eq!(past.continues, Some(records.len() as u64 + 1));
    assert_eq!(past.replayed, 0);
    let empty = replayed(empty_index(), 3, &write_log(&[], 1)).unwrap();
    assert_eq!((empty.continues, empty.next_seq), (None, 4));
}
