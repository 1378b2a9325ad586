use anka::candidate::Candidate;
use anka::error::{IndexError, VectorError};
use anka::hnsw::index::HnswIndex;
use anka::hnsw::params::HnswParams;
use anka::hnsw::search::Searcher;
use anka::hnsw::stats::DistanceCounter;
use anka::metric::{Metric, MetricKind};
use anka::store::collection::{Collection, Files, Opened, Repair};
use anka::store::error::{RecoveryError, SnapshotError, Step, WalError};
use anka::store::recovery::{self, Tail};
use anka::store::snapshot::{self, Verify};
use anka::store::wal::{Interval, SyncPolicy, HEADER_BYTES, MAX_RECORD_BYTES};

/// The bits of a list of numbers.
fn bits(values: &[f32]) -> Vec<u32> {
    values.iter().map(|x| x.to_bits()).collect()
}

fn l2(a: &[u32], b: &[u32]) -> u32 {
    let mut sum = 0.0f64;
    for (x, y) in a.iter().zip(b) {
        let d = f64::from(f32::from_bits(*x)) - f64::from(f32::from_bits(*y));
        sum += d * d;
    }
    (sum as f32).to_bits()
}

struct L2Squared;

impl Metric for L2Squared {
    const NAME: &'static str = "l2squared";

    fn distance_scalar(a: &[u32], b: &[u32]) -> u32 {
        l2(a, b)
    }

    fn distance(a: &[u32], b: &[u32]) -> u32 {
        l2(a, b)
    }

    fn preprocess(_vector: &mut [u32]) -> Result<(), VectorError> {
        Ok(())
    }
}

/// Turns a uniformly distributed word into a level with `P(level >= l) = m^-l`.
fn scale_for(m: usize) -> impl Fn(u64) -> usize {
    let multiplier = if m > 1 { 1.0 / (m as f64).ln() } else { 0.0 };
    move |word: u64| {
        let uniform = 1.0 - (word >> 11) as f64 / (1u64 << 53) as f64;
        (-uniform.ln() * multiplier).floor() as usize
    }
}

/// The same bytes as whole little-endian words.
fn words(bytes: &[u8]) -> Vec<u32> {
    bytes
        .chunks_exact(4)
        .map(|four| u32::from_le_bytes([four[0], four[1], four[2], four[3]]))
        .collect()
}

/// A new collection and its two files, in memory.
fn create() -> (Collection<'static>, Files) {
    Collection::create(
        DIM,
        MetricKind::L2Squared,
        HnswParams::default(),
        SyncPolicy::Always,
    )
    .unwrap()
}

/// Appends the record to the log, and only then inserts into the index.
fn insert(
    collection: &mut Collection<'_>,
    disk: &mut Files,
    id: u64,
    searcher: &mut Searcher,
    counter: &mut DistanceCounter,
) {
    let pending = collection.prepare_insert(id, &vector(id), &scale_for(16)).unwrap();
    disk.log.extend_from_slice(pending.record());
    let appended = collection.append(pending).unwrap();
    assert!(appended.sync);
    collection.sync();
    collection.insert::<L2Squared>(searcher, counter).unwrap();
}

fn fill(collection: &mut Collection<'_>, disk: &mut Files, ids: impl IntoIterator<Item = u64>) {
    let mut searcher = collection.searcher();
    let mut counter = DistanceCounter::new();
    for id in ids {
        insert(collection, disk, id, &mut searcher, &mut counter);
    }
}

/// Replaces the snapshot, records that in the old log, and starts a fresh one.
fn checkpoint(collection: &mut Collection<'_>, disk: &mut Files) -> u64 {
    let checkpoint = collection.checkpoint().unwrap();
    disk.snapshot = checkpoint.snapshot().to_vec();
    disk.log.extend_from_slice(checkpoint.record());
    collection.mark(&checkpoint).unwrap();
    collection.sync();
    disk.log = collection.restart_log().unwrap();
    checkpoint.seq()
}

fn answers(collection: &Collection<'_>) -> Vec<Vec<Candidate>> {
    let mut searcher = collection.searcher();
    let mut counter = DistanceCounter::new();
    (0..10u64)
        .map(|id| {
            collection
                .index()
                .search::<L2Squared>(&mut searcher, &vector(id * 2), 5, 32, &mut counter)
                .unwrap()
        })
        .collect()
}

/// Opens the collection, and repairs its log as told.
fn open<'a>(file: &'a [u32], disk: &mut Files) -> (Collection<'a>, Opened) {
    let (collection, opened, repair) = Collection::try_open::<L2Squared>(
        &disk.snapshot,
        file,
        Some(&disk.log),
        SyncPolicy::Always,
        Verify::Body,
    )
    .unwrap()
    .unwrap();
    match repair {
        Repair::Create(header) => disk.log = header,
        Repair::Truncate(len) => disk.log.truncate(len as usize),
    }
    (collection, opened)
}

const DIM: usize = 4;

fn vector(id: u64) -> Vec<u32> {
    (0..DIM).map(|i| (id as f32 * 3.0 + i as f32).to_bits()).collect()
}

#[test]
fn a_collection_survives_being_closed_and_reopened() {
    let (mut collection, mut disk) = create();
    fill(&mut collection, &mut disk, 1..=40);
    let before = answers(&collection);
    let seq = collection.next_seq();
    drop(collection);
    let file = words(&disk.snapshot);

    let (reopened, report) = open(&file, &mut disk);
    assert_eq!(report.tail, Tail::Clean);
    assert_eq!(report.replayed, 40);
    assert_eq!(reopened.len(), 40);
    assert_eq!(reopened.next_seq(), seq);
    assert_eq!(answers(&reopened), before);
    reopened.index().validate().unwrap();
}

#[test]
fn checkpointing_does_not_change_the_answers() {
    let (mut collection, mut disk) = create();
    fill(&mut collection, &mut disk, 1..=30);
    let before = answers(&collection);

    let seq = checkpoint(&mut collection, &mut disk);
    assert_eq!(answers(&collection), before, "in memory");
    assert_eq!(collection.next_seq(), seq + 1);

    // The log now holds only its header: everything before it is in the snapshot.
    let log = disk.log.clone();
    assert_eq!(log.len(), HEADER_BYTES);
    assert_eq!(snapshot::wal_seq(&disk.snapshot).unwrap(), seq);

    drop(collection);
    let file = words(&disk.snapshot);
    let (reopened, report) = open(&file, &mut disk);
    assert_eq!(report.replayed, 0, "everything came from the snapshot");
    assert_eq!(report.skipped, 0);
    assert_eq!(reopened.len(), 30);
    assert_eq!(answers(&reopened), before);
}

#[test]
fn writes_after_a_checkpoint_are_replayed_onto_it() {
    let (mut collection, mut disk) = create();
    fill(&mut collection, &mut disk, 1..=20);
    checkpoint(&mut collection, &mut disk);
    fill(&mut collection, &mut disk, 21..=35);
    let before = answers(&collection);
    drop(collection);
    let file = words(&disk.snapshot);

    let (reopened, report) = open(&file, &mut disk);
    assert_eq!(report.replayed, 15);
    assert_eq!(report.skipped, 0);
    assert_eq!(reopened.len(), 35);
    assert_eq!(answers(&reopened), before);

    // And the same index as one built without ever stopping.
    let (mut plain, mut other) = create();
    fill(&mut plain, &mut other, 1..=35);
    assert_eq!(answers(&plain), before);
}

#[test]
fn repeated_checkpoints_stay_consistent() {
    let (mut collection, mut disk) = create();

    let mut last_seq = 0;
    for round in 0..4u64 {
        fill(&mut collection, &mut disk, round * 10 + 1..=round * 10 + 10);
        let seq = checkpoint(&mut collection, &mut disk);
        assert!(seq > last_seq, "sequence numbers climb across checkpoints");
        last_seq = seq;
    }
    let before = answers(&collection);
    drop(collection);
    let file = words(&disk.snapshot);

    let (reopened, report) = open(&file, &mut disk);
    assert_eq!(report.tail, Tail::Clean);
    assert_eq!(reopened.len(), 40);
    assert_eq!(answers(&reopened), before);
    reopened.index().validate().unwrap();
}

#[test]
fn a_crash_between_snapshot_and_log_replacement_recovers() {
    let (mut collection, mut disk) = create();
    fill(&mut collection, &mut disk, 1..=25);
    let before = answers(&collection);
    let log_before = disk.log.clone();

    let seq = checkpoint(&mut collection, &mut disk);
    drop(collection);
    let file = words(&disk.snapshot);

    // Put the pre-checkpoint log back: this is the state a crash right after the rename of
    // the snapshot leaves behind.
    disk.log = log_before;
    assert_eq!(snapshot::wal_seq(&disk.snapshot).unwrap(), seq);

    let (reopened, report) = open(&file, &mut disk);
    assert_eq!(report.replayed, 0);
    assert_eq!(report.skipped, 25, "the snapshot already had them");
    assert_eq!(reopened.len(), 25);
    assert_eq!(answers(&reopened), before);
}

#[test]
fn opening_repairs_a_torn_log_before_writing_to_it() {
    let (mut collection, mut disk) = create();
    fill(&mut collection, &mut disk, 1..=20);
    drop(collection);
    let file = words(&disk.snapshot);

    disk.log.truncate(disk.log.len() - 9);

    let (mut reopened, report) = open(&file, &mut disk);
    assert!(report.tail.truncated());
    assert_eq!(report.replayed, 19, "the last record was incomplete");
    assert_eq!(reopened.len(), 19);

    fill(&mut reopened, &mut disk, 100..=105);
    let after = answers(&reopened);
    drop(reopened);
    let file = words(&disk.snapshot);

    // Reading it back finds one log with no hole in it.
    let (again, report) = open(&file, &mut disk);
    assert_eq!(report.tail, Tail::Clean);
    assert_eq!(again.len(), 25);
    assert_eq!(answers(&again), after);
}

#[test]
fn the_log_is_written_before_the_index_is_updated() {
    let (mut collection, mut disk) = create();

    let mut searcher = collection.searcher();
    let mut counter = DistanceCounter::new();
    for id in 1..=12u64 {
        insert(&mut collection, &mut disk, id, &mut searcher, &mut counter);

        // After every acknowledged insert, the log on disk already describes the index in
        // memory — read it without touching the live collection.
        let recovered = recovery::replay::<L2Squared>(
            HnswIndex::new(DIM, MetricKind::L2Squared, HnswParams::default()).unwrap(),
            0,
            Some(&disk.log),
        )
        .unwrap();
        assert_eq!(recovered.replayed as u64, id);
        assert_eq!(recovered.index.len(), collection.len());
        assert_eq!(recovered.tail, Tail::Clean);
    }
}

#[test]
fn a_collection_without_a_log_starts_a_fresh_one() {
    let (mut collection, mut disk) = create();
    fill(&mut collection, &mut disk, 1..=10);
    let seq = checkpoint(&mut collection, &mut disk);
    let file = words(&disk.snapshot);
    let (reopened, opened, repair) = Collection::try_open::<L2Squared>(
        &disk.snapshot,
        &file,
        None,
        SyncPolicy::Never,
        Verify::Body,
    )
    .unwrap()
    .unwrap();
    assert_eq!(reopened.len(), 10);
    assert_eq!(reopened.next_seq(), seq + 1);
    assert_eq!(opened.tail, Tail::Clean);
    assert!(matches!(repair, Repair::Create(header) if header == disk.log));
}

/// The files after a checkpoint that was cut short once its snapshot had landed.
fn interrupted(ids: u64) -> (Files, u64) {
    let (mut collection, mut disk) = create();
    fill(&mut collection, &mut disk, 1..=ids);
    let checkpoint = collection.checkpoint().unwrap();
    disk.snapshot = checkpoint.snapshot().to_vec();
    (disk, checkpoint.seq())
}

#[test]
fn what_is_written_after_an_interrupted_checkpoint_is_found_again() {
    for more in [1, 2, 7u64] {
        let (mut disk, seq) = interrupted(25);
        assert_eq!(seq, 26);
        let file = words(&disk.snapshot);
        let old_log = disk.log.clone();

        let (mut reopened, report) = open(&file, &mut disk);
        assert_eq!(report.replayed, 0);
        assert_eq!(report.skipped, 25);
        assert_eq!(reopened.next_seq(), 27);
        assert_ne!(disk.log, old_log, "the old log ends before the snapshot does");
        assert_eq!(disk.log.len(), HEADER_BYTES);

        fill(&mut reopened, &mut disk, 26..26 + more);
        let after = answers(&reopened);
        drop(reopened);

        let file = words(&disk.snapshot);
        let (again, report) = open(&file, &mut disk);
        assert_eq!(report.tail, Tail::Clean);
        assert_eq!(report.replayed as u64, more);
        assert_eq!(again.len() as u64, 25 + more);
        assert_eq!(answers(&again), after);
        again.index().validate().unwrap();
    }
}

#[test]
fn an_interrupted_checkpoint_with_its_marker_keeps_the_log() {
    let (mut collection, mut disk) = create();
    fill(&mut collection, &mut disk, 1..=5);
    let checkpoint = collection.checkpoint().unwrap();
    disk.snapshot = checkpoint.snapshot().to_vec();
    disk.log.extend_from_slice(checkpoint.record());
    let len = disk.log.len();
    drop(collection);

    let file = words(&disk.snapshot);
    let (mut reopened, report) = open(&file, &mut disk);
    assert_eq!((report.replayed, report.skipped), (0, 6));
    assert_eq!(disk.log.len(), len);
    assert_eq!(reopened.next_seq(), 7);

    fill(&mut reopened, &mut disk, 6..=8);
    drop(reopened);
    let file = words(&disk.snapshot);
    let (again, report) = open(&file, &mut disk);
    assert_eq!(report.tail, Tail::Clean);
    assert_eq!(report.replayed, 3);
    assert_eq!(again.len(), 8);
}

#[test]
fn an_interrupted_checkpoint_of_an_empty_log_keeps_it() {
    let (mut disk, seq) = interrupted(0);
    assert_eq!(seq, 1);
    let file = words(&disk.snapshot);
    let (mut reopened, _) = open(&file, &mut disk);
    assert_eq!(reopened.next_seq(), 2);
    fill(&mut reopened, &mut disk, 1..=3);
    drop(reopened);
    let file = words(&disk.snapshot);
    let (again, report) = open(&file, &mut disk);
    assert_eq!(report.tail, Tail::Clean);
    assert_eq!(report.replayed, 3);
    assert_eq!(again.len(), 3);
}

fn out_of_order(step: Step) -> RecoveryError {
    RecoveryError::OutOfOrder { step }
}

#[test]
fn the_index_is_not_updated_before_the_log() {
    let (mut collection, _) = create();
    let mut searcher = collection.searcher();
    let mut counter = DistanceCounter::new();

    // Nothing is in the log.
    assert_eq!(
        collection.insert::<L2Squared>(&mut searcher, &mut counter),
        Err(out_of_order(Step::Insert))
    );
    let pending = collection.prepare_insert(1, &vector(1), &scale_for(16)).unwrap();
    assert_eq!(
        collection.insert::<L2Squared>(&mut searcher, &mut counter),
        Err(out_of_order(Step::Insert))
    );

    // The record is in the log, and the policy asks for a sync that has not been noted.
    assert!(collection.append(pending).unwrap().sync);
    assert_eq!(
        collection.insert::<L2Squared>(&mut searcher, &mut counter),
        Err(out_of_order(Step::Insert))
    );
    assert_eq!(collection.len(), 0);

    collection.sync();
    assert_eq!(collection.insert::<L2Squared>(&mut searcher, &mut counter), Ok(0));
    assert_eq!(
        collection.insert::<L2Squared>(&mut searcher, &mut counter),
        Err(out_of_order(Step::Insert)),
        "once"
    );
    assert_eq!(collection.len(), 1);
}

#[test]
fn a_logged_insert_has_to_reach_the_index_first() {
    let (mut collection, _) = create();
    let mut searcher = collection.searcher();
    let mut counter = DistanceCounter::new();
    let first = collection.prepare_insert(1, &vector(1), &scale_for(16)).unwrap();
    let second = collection.prepare_insert(2, &vector(2), &scale_for(16)).unwrap();
    collection.append(first).unwrap();
    collection.sync();
    let drawn = collection.index().levels_drawn();

    assert_eq!(
        collection.prepare_insert(3, &vector(3), &scale_for(16)).unwrap_err(),
        out_of_order(Step::Prepare)
    );
    assert_eq!(collection.index().levels_drawn(), drawn, "no level was drawn");
    assert_eq!(collection.checkpoint().unwrap_err(), out_of_order(Step::Checkpoint));
    assert_eq!(collection.restart_log().unwrap_err(), out_of_order(Step::Restart));
    collection.insert::<L2Squared>(&mut searcher, &mut counter).unwrap();

    // Both were made for the number that the first one took.
    assert_eq!(collection.append(second).unwrap_err(), out_of_order(Step::Append));
    assert_eq!(collection.next_seq(), 2);
}

#[test]
fn the_log_is_not_dropped_before_a_checkpoint() {
    let (mut collection, mut disk) = create();
    assert_eq!(collection.restart_log().unwrap_err(), out_of_order(Step::Restart));
    fill(&mut collection, &mut disk, 1..=3);
    assert_eq!(collection.restart_log().unwrap_err(), out_of_order(Step::Restart));

    let checkpoint = collection.checkpoint().unwrap();
    assert_eq!(checkpoint.seq(), 4);
    assert_eq!(collection.restart_log().unwrap_err(), out_of_order(Step::Restart));
    assert!(collection.mark(&checkpoint).unwrap().sync);
    assert_eq!(collection.restart_log().unwrap_err(), out_of_order(Step::Restart));
    collection.sync();
    assert_eq!(collection.restart_log().unwrap().len(), HEADER_BYTES);
    assert_eq!(collection.restart_log().unwrap_err(), out_of_order(Step::Restart), "once");
    assert_eq!(collection.next_seq(), 5);
    assert_eq!(collection.mark(&checkpoint).unwrap_err(), out_of_order(Step::Mark));
}

#[test]
fn nothing_takes_the_number_of_a_checkpoint() {
    let (mut collection, mut disk) = create();
    fill(&mut collection, &mut disk, 1..=3);
    let pending = collection.prepare_insert(4, &vector(4), &scale_for(16)).unwrap();
    let checkpoint = collection.checkpoint().unwrap();
    disk.snapshot = checkpoint.snapshot().to_vec();

    // The snapshot says that it contains record 4, so that an insert under that number would be
    // skipped by the next recovery.
    assert_eq!(
        collection.prepare_insert(5, &vector(5), &scale_for(16)).unwrap_err(),
        out_of_order(Step::Prepare)
    );
    assert_eq!(collection.append(pending).unwrap_err(), out_of_order(Step::Append));

    disk.log.extend_from_slice(checkpoint.record());
    collection.mark(&checkpoint).unwrap();
    collection.sync();
    // The log goes on behind the marker even if it is not replaced.
    fill(&mut collection, &mut disk, 4..=6);
    assert_eq!(collection.restart_log().unwrap_err(), out_of_order(Step::Restart));
    let before = answers(&collection);
    drop(collection);

    let file = words(&disk.snapshot);
    let (reopened, report) = open(&file, &mut disk);
    assert_eq!(report.tail, Tail::Clean);
    assert_eq!((report.skipped, report.replayed), (4, 3));
    assert_eq!(reopened.len(), 6);
    assert_eq!(answers(&reopened), before);
}

#[test]
fn a_policy_that_asks_for_no_sync_holds_nothing_up() {
    for policy in [SyncPolicy::Never, SyncPolicy::EveryN(Interval::new(2).unwrap())] {
        let (mut collection, _) =
            Collection::create(DIM, MetricKind::L2Squared, HnswParams::default(), policy).unwrap();
        let mut searcher = collection.searcher();
        let mut counter = DistanceCounter::new();
        let pending = collection.prepare_insert(1, &vector(1), &scale_for(16)).unwrap();
        let appended = collection.append(pending).unwrap();
        assert_eq!(appended.seq, 1);
        assert!(!appended.sync);
        assert_eq!(collection.insert::<L2Squared>(&mut searcher, &mut counter), Ok(0));
    }
}

#[test]
fn a_vector_that_the_index_refuses_gets_no_record() {
    let (mut collection, mut disk) = create();
    fill(&mut collection, &mut disk, 1..=2);
    let drawn = collection.index().levels_drawn();

    let short = collection.prepare_insert(3, &vector(3)[..3], &scale_for(16));
    assert_eq!(
        short.unwrap_err(),
        RecoveryError::Wal(WalError::Index(IndexError::DimMismatch { expected: 4, found: 3 }))
    );
    let nan = bits(&[1.0, f32::NAN, 0.0, 0.0]);
    assert_eq!(
        collection.prepare_insert(3, &nan, &scale_for(16)).unwrap_err(),
        RecoveryError::Wal(WalError::Index(IndexError::Vector(VectorError::NonFinite {
            vector: 2,
            component: 1,
            value: nan[1],
        })))
    );
    let long = vec![0u32; MAX_RECORD_BYTES / 4];
    assert_eq!(
        collection.prepare_insert(3, &long, &scale_for(16)).unwrap_err(),
        RecoveryError::Wal(WalError::RecordTooLarge {
            bytes: 30 + 4 * long.len(),
            limit: MAX_RECORD_BYTES,
        })
    );
    assert_eq!(collection.index().levels_drawn(), drawn + 3, "every draw counts");
    assert_eq!(collection.next_seq(), 3);
}

#[test]
fn parameters_that_a_snapshot_has_no_room_for_are_refused() {
    let wide = HnswParams::default().with_ef_construction(65_536).unwrap();
    let refused = |params| {
        Collection::create(DIM, MetricKind::L2Squared, params, SyncPolicy::Always).unwrap_err()
    };
    assert_eq!(
        refused(wide),
        RecoveryError::Snapshot(SnapshotError::ParameterTooLarge {
            parameter: "ef_construction",
            value: 65_536,
            limit: 65_535,
        })
    );
    let crowded = HnswParams::default().with_max_degree0(65_536).unwrap();
    assert_eq!(
        refused(crowded),
        RecoveryError::Snapshot(SnapshotError::ParameterTooLarge {
            parameter: "max_degree0",
            value: 65_536,
            limit: 65_535,
        })
    );
    let widest = HnswParams::default().with_ef_construction(65_535).unwrap();
    let created = Collection::create(DIM, MetricKind::L2Squared, widest, SyncPolicy::Always);
    let (_, disk) = created.unwrap();
    let file = words(&disk.snapshot);
    let back = snapshot::load(&disk.snapshot, &file, Verify::Body).unwrap();
    assert_eq!(back.params().ef_construction(), 65_535);

    // A dimension that is not one comes first.
    assert_eq!(
        Collection::create(0, MetricKind::L2Squared, wide, SyncPolicy::Always).unwrap_err(),
        RecoveryError::Wal(WalError::Index(IndexError::Vector(VectorError::ZeroDim)))
    );
}
