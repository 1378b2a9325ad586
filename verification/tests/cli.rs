use anka::candidate::Candidate;
use anka::cli::bench::{
    build, check_truth, hits, percentile, split_queries, target_met, BenchArgs,
};
use anka::cli::datasets::{
    check_limit, check_queries, check_shape, spec_for, take_rows, take_vectors, ArgError,
};
use anka::cli::durable::{build_params, describe, sync_policy, IngestArgs};
use anka::cli::snapshot::{answers, first_difference, Change, SnapshotArgs};
use anka::cli::verify::{window, Verdict};
use anka::dataset::IntMatrix;
use anka::error::{IndexError, VectorError};
use anka::ground_truth::DistanceAgreement;
use anka::hnsw::params::HnswParams;
use anka::hnsw::select::SelectionPolicy;
use anka::metric::{Metric, MetricKind};
use anka::store::wal::{Interval, SyncPolicy};
use anka::vector_store::VectorStore;

/// The bits of a list of numbers.
fn bits(values: &[f32]) -> Vec<u32> {
    values.iter().map(|x| x.to_bits()).collect()
}

fn l2(a: &[u32], b: &[u32]) -> u32 {
    let mut sum = 0.0f64;
    for (x, y) in a.iter().zip(b) {
        let d = f64::from(f32::from_bits(*x)) - f64::from(f32::from_bits(*y));
        sum += d * d;
    }
    (sum as f32).to_bits()
}

struct L2Squared;

impl Metric for L2Squared {
    const NAME: &'static str = "l2squared";

    fn distance_scalar(a: &[u32], b: &[u32]) -> u32 {
        l2(a, b)
    }

    fn distance(a: &[u32], b: &[u32]) -> u32 {
        l2(a, b)
    }

    fn preprocess(_vector: &mut [u32]) -> Result<(), VectorError> {
        Ok(())
    }
}

/// Turns a uniformly distributed word into a level with `P(level >= l) = m^-l`.
fn scale_for(m: usize) -> impl Fn(u64) -> usize {
    let multiplier = if m > 1 { 1.0 / (m as f64).ln() } else { 0.0 };
    move |word: u64| {
        let uniform = 1.0 - (word >> 11) as f64 / (1u64 << 53) as f64;
        (-uniform.ln() * multiplier).floor() as usize
    }
}

fn store(dim: usize, data: &[f32]) -> VectorStore<'static> {
    VectorStore::from_flat(dim, bits(data)).unwrap()
}

fn candidate(dist: f32, id: u32) -> Candidate {
    Candidate::new(dist.to_bits(), id)
}

#[test]
fn policies_parse() {
    assert_eq!(sync_policy("always"), Ok(SyncPolicy::Always));
    assert_eq!(sync_policy("never"), Ok(SyncPolicy::Never));
    assert_eq!(sync_policy("every:12"), Ok(SyncPolicy::EveryN(Interval::new(12).unwrap())));
    assert_eq!(sync_policy("every:4294967295"), Ok(SyncPolicy::EveryN(Interval::new(u32::MAX).unwrap())));
    assert_eq!(sync_policy("every:4294967296"), Err(ArgError::PolicyNotANumber));
    assert_eq!(sync_policy("every:"), Err(ArgError::PolicyNotANumber));
    assert_eq!(sync_policy("every:x"), Err(ArgError::PolicyNotANumber));
    assert_eq!(sync_policy("every:0"), Err(ArgError::PolicyZero));
    assert_eq!(sync_policy("sometimes"), Err(ArgError::UnknownPolicy));
}

#[test]
fn policies_are_described() {
    assert_eq!(describe(SyncPolicy::Always), "always");
    assert_eq!(describe(SyncPolicy::Never), "never");
    assert_eq!(describe(SyncPolicy::EveryN(Interval::new(40).unwrap())), "every 40 records");
}

#[test]
fn datasets_are_known_by_name() {
    let small = spec_for("siftsmall").unwrap();
    assert_eq!((small.dim, small.base, small.queries), (128, 10_000, 100));
    assert_eq!(small.recall_target, Some(99));
    let glove = spec_for("glove").unwrap();
    assert_eq!(glove, spec_for("glove100").unwrap());
    assert_eq!(glove.metric, MetricKind::Cosine);
    assert_eq!(spec_for("mnist"), Err(ArgError::UnknownDataset));
}

#[test]
fn shapes_are_checked() {
    assert_eq!(check_shape(3, 4, 3, 4), Ok(()));
    assert_eq!(
        check_shape(3, 4, 3, 5),
        Err(ArgError::Shape { rows: 3, columns: 4, expected_rows: 3, expected_columns: 5 })
    );
}

#[test]
fn limits_are_checked() {
    assert_eq!(check_limit(None, 5), Ok(()));
    assert_eq!(check_limit(Some(5), 5), Ok(()));
    assert_eq!(check_limit(Some(0), 5), Err(ArgError::LimitOutOfRange { max: 5 }));
    assert_eq!(check_queries(Some(6), 5), Err(ArgError::QueriesOutOfRange { max: 5 }));
    assert_eq!(check_truth(100, 100), Ok(()));
    assert_eq!(check_truth(99, 100), Err(ArgError::TruthTooNarrow { published: 99, k: 100 }));
}

#[test]
fn sets_are_cut_at_the_front() {
    let all = store(2, &[1.0, 2.0, 3.0, 4.0, 5.0, 6.0]);
    let taken = take_vectors(&all, 2).unwrap();
    assert_eq!(taken.len(), 2);
    assert_eq!(taken.as_contiguous().unwrap(), bits(&[1.0, 2.0, 3.0, 4.0]));
    let rows = take_rows(&IntMatrix::new(2, vec![1, 2, 3, 4, 5, 6]).unwrap(), 1).unwrap();
    assert_eq!(rows.as_slice(), &[1, 2]);
}

fn bench_args() -> BenchArgs {
    BenchArgs {
        m: 8,
        ef_construction: 50,
        seed: 3,
        limit: None,
        queries: None,
        k: 2,
        ef: vec![10, 20],
        warmup: 1,
        no_heuristic: false,
        no_keep_pruned: true,
    }
}

#[test]
fn benchmarks_are_checked() {
    assert_eq!(bench_args().check(10, 5), Ok(false));
    let limited = BenchArgs { limit: Some(4), ..bench_args() };
    assert_eq!(limited.check(10, 5), Ok(true));
    assert_eq!(BenchArgs { k: 0, ..bench_args() }.check(10, 5), Err(ArgError::ZeroK));
    assert_eq!(BenchArgs { ef: vec![], ..bench_args() }.check(10, 5), Err(ArgError::NoBeams));
    assert_eq!(
        BenchArgs { limit: Some(11), ..bench_args() }.check(10, 5),
        Err(ArgError::LimitOutOfRange { max: 10 })
    );
    assert_eq!(
        BenchArgs { queries: Some(0), ..bench_args() }.check(10, 5),
        Err(ArgError::QueriesOutOfRange { max: 5 })
    );
    assert_eq!(
        BenchArgs { limit: Some(1), ..bench_args() }.check(10, 5),
        Err(ArgError::KExceedsBase { k: 2, base: 1 })
    );
    let params = bench_args().params().unwrap();
    assert_eq!((params.m(), params.max_degree0(), params.ef_construction()), (8, 16, 50));
    assert_eq!(params.selection(), SelectionPolicy { heuristic: true, keep_pruned: false });
}

#[test]
fn warming_up_leaves_something_to_measure() {
    assert_eq!(split_queries(3, 10), Ok((3, 7)));
    assert_eq!(split_queries(30, 10), Ok((5, 5)));
    assert_eq!(split_queries(0, 0), Err(ArgError::NothingToMeasure));
}

#[test]
fn parameters_that_are_no_good_are_refused() {
    let policy = SelectionPolicy::default();
    assert!(matches!(build_params(0, 10, 0, policy), Err(IndexError::ZeroM)));
    assert!(matches!(
        build_params(8, 0, 0, policy),
        Err(IndexError::ZeroEfConstruction)
    ));
    assert_eq!(build_params(8, 10, 7, policy).unwrap().seed(), 7);
}

#[test]
fn hits_are_counted_by_id() {
    let found = [candidate(1.0, 4), candidate(2.0, 9), candidate(3.0, 1)];
    assert_eq!(hits(&found, &[1, 2, 4]), 2);
    assert_eq!(hits(&found, &[]), 0);
}

#[test]
fn percentiles_are_by_nearest_rank() {
    let sorted: Vec<u64> = (1..=10).collect();
    assert_eq!(percentile(&sorted, 50), 5);
    assert_eq!(percentile(&sorted, 95), 10);
    assert_eq!(percentile(&sorted, 1), 1);
    assert_eq!(percentile(&sorted, 100), 10);
    assert_eq!(percentile(&[], 50), 0);
}

#[test]
fn the_best_sweep_counts() {
    assert!(target_met(&[10, 95, 30], 100, 95));
    assert!(!target_met(&[10, 94, 30], 100, 95));
    assert!(target_met(&[], 0, 95));
}

#[test]
fn checkpoints_come_at_intervals() {
    let args = IngestArgs {
        m: 16,
        ef_construction: 200,
        seed: 0,
        limit: None,
        checkpoint_every: Some(3),
    };
    let due: Vec<bool> = (0..6).map(|i| args.checkpoint_due(i)).collect();
    assert_eq!(due, vec![false, false, true, false, false, true]);
    let never = IngestArgs { checkpoint_every: None, ..args };
    assert!(!never.checkpoint_due(2));
    assert_eq!(never.params().unwrap(), HnswParams::default());
}

#[test]
fn a_window_surrounds_a_rank() {
    let ids = [10, 11, 12, 13, 14, 15, 16];
    assert_eq!(window(&ids, 0), vec![10, 11, 12, 13]);
    assert_eq!(window(&ids, 2), vec![11, 12, 13, 14, 15]);
    assert_eq!(window(&ids, 6), vec![15, 16]);
}

#[test]
fn a_verdict_needs_both() {
    let agreement = |differing: usize, equivalent: usize| DistanceAgreement {
        queries: 1,
        k: 5,
        differing_positions: differing,
        equivalent_positions: equivalent,
        examples: Vec::new(),
    };
    assert!(!Verdict::of(&agreement(2, 2), &agreement(0, 0)).failed());
    assert!(Verdict::of(&agreement(2, 1), &agreement(0, 0)).failed());
    assert!(Verdict::of(&agreement(0, 0), &agreement(1, 0)).failed());
}

#[test]
fn building_twice_answers_alike() {
    let data: Vec<f32> = (0..400).map(|i| ((i * 37) % 101) as f32).collect();
    let base = store(4, &data);
    let params = bench_args().params().unwrap();
    let scale = scale_for(params.m());
    let first = build::<L2Squared, _>(&base, MetricKind::L2Squared, params, &scale).unwrap();
    let second = build::<L2Squared, _>(&base, MetricKind::L2Squared, params, &scale).unwrap();
    assert_eq!(first.len(), 100);

    let queries = store(4, &[1.0, 2.0, 3.0, 4.0, 50.0, 60.0, 70.0, 80.0]);
    let before = answers::<L2Squared>(&first, &queries, 5, 20).unwrap();
    let after = answers::<L2Squared>(&second, &queries, 5, 20).unwrap();
    assert_eq!(before.len(), 2);
    assert_eq!(before[0].len(), 5);
    assert_eq!(first_difference(&before, &after), None);
    assert!(matches!(
        answers::<L2Squared>(&first, &store(1, &[1.0]), 5, 20),
        Err(IndexError::DimMismatch { expected: 4, found: 1 })
    ));
}

#[test]
fn the_first_difference_is_named() {
    let before = vec![vec![candidate(1.0, 1), candidate(2.0, 2)], vec![candidate(3.0, 3)]];
    assert_eq!(
        first_difference(&before, &vec![]),
        Some(Change::Queries { before: 2, after: 0 })
    );
    let mut shorter = before.clone();
    shorter[1].pop();
    assert_eq!(
        first_difference(&before, &shorter),
        Some(Change::Neighbours { query: 1, before: 1, after: 0 })
    );
    let mut other = before.clone();
    other[0][1] = candidate(2.0, 7);
    assert_eq!(
        first_difference(&before, &other),
        Some(Change::Rank {
            query: 0,
            rank: 1,
            before: candidate(2.0, 2),
            after: candidate(2.0, 7)
        })
    );
}

#[test]
fn snapshot_comparisons_are_checked() {
    let args = SnapshotArgs {
        m: 16,
        ef_construction: 200,
        seed: 0,
        limit: None,
        queries: 5,
        k: 10,
        ef: 64,
    };
    assert_eq!(args.check(100, 20), Ok(()));
    assert_eq!(
        SnapshotArgs { limit: Some(101), ..args }.check(100, 20),
        Err(ArgError::LimitOutOfRange { max: 100 })
    );
    assert_eq!(SnapshotArgs { k: 0, ..args }.check(100, 20), Err(ArgError::ZeroKOrEf));
    assert_eq!(SnapshotArgs { ef: 0, ..args }.check(100, 20), Err(ArgError::ZeroKOrEf));
    assert_eq!(
        SnapshotArgs { queries: 21, ..args }.check(100, 20),
        Err(ArgError::QueriesOutOfRange { max: 20 })
    );
    assert_eq!(args.params().unwrap(), HnswParams::default());
}

#[test]
fn the_entry_point_is_the_first_on_the_topmost_layer() {
    let data: Vec<f32> = (0..600).map(|i| ((i * 53) % 211) as f32).collect();
    let base = store(2, &data);
    let params = bench_args().params().unwrap();
    let scale = scale_for(2);
    let index = build::<L2Squared, _>(&base, MetricKind::L2Squared, params, &scale).unwrap();
    let levels: Vec<usize> = (0..300).map(|node| index.level_of(node).unwrap()).collect();
    let top = *levels.iter().max().unwrap();
    assert!(top >= 1);
    assert_eq!(index.max_layer(), top);
    assert_eq!(index.layers().len(), top + 1);
    let first = levels.iter().position(|level| *level == top).unwrap();
    assert_eq!(index.entry_point(), Some(first as u32));
}
