use std::sync::atomic::{AtomicU64, Ordering};

use anka::brute_force::{BruteForceIndex, Kernel};
use anka::candidate::Candidate;
use anka::error::{IndexError, VectorError};
use anka::hnsw::index::HnswIndex;
use anka::hnsw::params::HnswParams;
use anka::hnsw::select::SelectionPolicy;
use anka::hnsw::stats::{DistanceCounter, Tally};
use anka::metric::{Metric, MetricKind};
use anka::vector_store::VectorStore;

/// The bits of a list of numbers.
fn bits(values: &[f32]) -> Vec<u32> {
    values.iter().map(|x| x.to_bits()).collect()
}

fn l2(a: &[u32], b: &[u32]) -> u32 {
    let mut sum = 0.0f64;
    for (x, y) in a.iter().zip(b) {
        let d = f64::from(f32::from_bits(*x)) - f64::from(f32::from_bits(*y));
        sum += d * d;
    }
    (sum as f32).to_bits()
}

struct L2Squared;

impl Metric for L2Squared {
    const NAME: &'static str = "l2squared";

    fn distance_scalar(a: &[u32], b: &[u32]) -> u32 {
        l2(a, b)
    }

    fn distance(a: &[u32], b: &[u32]) -> u32 {
        l2(a, b)
    }

    fn preprocess(_vector: &mut [u32]) -> Result<(), VectorError> {
        Ok(())
    }
}

static COMPUTED: AtomicU64 = AtomicU64::new(0);

/// The squared distance, with a count of how often it was computed.
struct Counted;

impl Metric for Counted {
    const NAME: &'static str = "l2squared";

    fn distance_scalar(a: &[u32], b: &[u32]) -> u32 {
        COMPUTED.fetch_add(1, Ordering::Relaxed);
        l2(a, b)
    }

    fn distance(a: &[u32], b: &[u32]) -> u32 {
        COMPUTED.fetch_add(1, Ordering::Relaxed);
        l2(a, b)
    }

    fn preprocess(_vector: &mut [u32]) -> Result<(), VectorError> {
        Ok(())
    }
}

fn dist(candidate: &Candidate) -> f32 {
    f32::from_bits(candidate.dist())
}

/// Turns a uniformly distributed word into a level with `P(level >= l) = m^-l`.
fn scale_for(m: usize) -> impl Fn(u64) -> usize {
    let multiplier = if m > 1 { 1.0 / (m as f64).ln() } else { 0.0 };
    move |word: u64| {
        let uniform = 1.0 - (word >> 11) as f64 / (1u64 << 53) as f64;
        (-uniform.ln() * multiplier).floor() as usize
    }
}

/// Deterministic points, so that a failure is reproducible from its seed.
fn points(seed: u64, count: usize, dim: usize) -> Vec<f32> {
    let mut state = seed | 1;
    (0..count * dim)
        .map(|_| {
            state = state
                .wrapping_mul(6364136223846793005)
                .wrapping_add(1442695040888963407);
            ((state >> 11) as f64 / (1u64 << 53) as f64) as f32 * 100.0
        })
        .collect()
}

fn build(params: HnswParams, data: &[f32], dim: usize) -> HnswIndex<'static> {
    let count = data.len() / dim;
    let mut index = HnswIndex::with_capacity(dim, MetricKind::L2Squared, params, count).unwrap();
    let mut searcher = index.searcher();
    let mut counter = DistanceCounter::new();
    let scale = scale_for(params.m());
    for vector in data.chunks_exact(dim) {
        index
            .insert::<L2Squared, _>(&mut searcher, &bits(vector), &mut counter, &scale)
            .unwrap();
    }
    index
}

fn recall(index: &HnswIndex<'_>, queries: &[f32], dim: usize, k: usize, ef: usize) -> f64 {
    let contiguous = index
        .vectors()
        .as_contiguous()
        .expect("an index built in memory is contiguous")
        .to_vec();
    let store = VectorStore::from_flat(dim, contiguous).unwrap();
    let exact = BruteForceIndex::new(&store);

    let mut searcher = index.searcher();
    let mut counter = DistanceCounter::new();
    let mut total = 0.0;
    let mut queried = 0;

    for query in queries.chunks_exact(dim) {
        let truth: Vec<u32> = exact
            .search::<L2Squared>(&bits(query), k, Kernel::Reference)
            .unwrap()
            .iter()
            .map(|c| c.id)
            .collect();
        let found = index
            .search::<L2Squared>(&mut searcher, &bits(query), k, ef, &mut counter)
            .unwrap();
        let hits = found.iter().filter(|c| truth.contains(&c.id)).count();
        total += hits as f64 / truth.len() as f64;
        queried += 1;
    }
    total / queried as f64
}

#[test]
fn an_empty_index_returns_nothing() {
    let index = HnswIndex::new(4, MetricKind::L2Squared, HnswParams::default()).unwrap();
    let mut searcher = index.searcher();
    let mut counter = DistanceCounter::new();

    assert!(index.is_empty());
    assert_eq!(index.entry_point(), None);
    assert!(
        index
            .search::<L2Squared>(&mut searcher, &bits(&[0.0; 4]), 5, 10, &mut counter)
            .unwrap()
            .is_empty()
    );
}

#[test]
fn the_first_node_becomes_the_entry_point() {
    let mut index = HnswIndex::new(2, MetricKind::L2Squared, HnswParams::default()).unwrap();
    let mut searcher = index.searcher();
    let mut counter = DistanceCounter::new();

    let node = index
        .insert::<L2Squared, _>(&mut searcher, &bits(&[1.0, 2.0]), &mut counter, &scale_for(16))
        .unwrap();
    assert_eq!(node, 0);
    assert_eq!(index.entry_point(), Some(0));
    assert_eq!(index.max_layer(), index.level_of(0).unwrap());

    let found = index
        .search::<L2Squared>(&mut searcher, &bits(&[1.0, 2.0]), 1, 10, &mut counter)
        .unwrap();
    assert_eq!(found.len(), 1);
    assert_eq!(found[0].id, 0);
    assert_eq!(dist(&found[0]), 0.0);
}

#[test]
fn a_small_index_is_exact() {
    let dim = 4;
    let data = points(1, 200, dim);
    let index = build(HnswParams::default(), &data, dim);

    assert_eq!(index.len(), 200);
    // 200 points, M=16: the graph is dense enough that search should be exact.
    assert_eq!(recall(&index, &points(2, 50, dim), dim, 10, 64), 1.0);
}

#[test]
fn recall_is_high_on_a_larger_index() {
    let dim = 8;
    let data = points(3, 5_000, dim);
    let index = build(HnswParams::default(), &data, dim);

    let queries = points(4, 100, dim);
    let measured = recall(&index, &queries, dim, 10, 64);
    assert!(measured >= 0.95, "recall@10 was {measured:.4}");
}

#[test]
fn recall_does_not_fall_as_ef_grows() {
    let dim = 8;
    let data = points(5, 3_000, dim);
    let index = build(HnswParams::default(), &data, dim);
    let queries = points(6, 60, dim);

    let mut previous = 0.0;
    for ef in [10usize, 20, 40, 80, 160] {
        let measured = recall(&index, &queries, dim, 10, ef);
        assert!(
            measured >= previous - 1e-9,
            "recall fell from {previous:.4} to {measured:.4} when ef reached {ef}"
        );
        previous = measured;
    }
    assert!(previous >= 0.99, "recall at ef=160 was only {previous:.4}");
}

#[test]
fn ef_is_clamped_up_to_k() {
    let dim = 4;
    let data = points(7, 500, dim);
    let index = build(HnswParams::default(), &data, dim);
    let mut searcher = index.searcher();
    let mut counter = DistanceCounter::new();

    let found = index
        .search::<L2Squared>(&mut searcher, &bits(&[50.0; 4]), 20, 1, &mut counter)
        .unwrap();
    assert_eq!(found.len(), 20);
}

#[test]
fn index_k_larger_than_the_index_returns_everything() {
    let dim = 2;
    let data = points(8, 30, dim);
    let index = build(HnswParams::default(), &data, dim);
    let mut searcher = index.searcher();
    let mut counter = DistanceCounter::new();

    let found = index
        .search::<L2Squared>(&mut searcher, &bits(&[10.0, 10.0]), 500, 500, &mut counter)
        .unwrap();
    assert_eq!(found.len(), 30);
}

#[test]
fn a_wrong_dimension_is_an_error() {
    let mut index = HnswIndex::new(3, MetricKind::L2Squared, HnswParams::default()).unwrap();
    let mut searcher = index.searcher();
    let mut counter = DistanceCounter::new();

    assert!(matches!(
        index.insert::<L2Squared, _>(&mut searcher, &bits(&[1.0, 2.0]), &mut counter, &scale_for(16)),
        Err(IndexError::DimMismatch {
            expected: 3,
            found: 2
        })
    ));
    assert!(matches!(
        index.search::<L2Squared>(&mut searcher, &bits(&[1.0; 5]), 1, 10, &mut counter),
        Err(IndexError::DimMismatch { .. })
    ));
}

#[test]
fn no_node_exceeds_its_layer_degree_cap() {
    let dim = 4;
    let data = points(9, 4_000, dim);
    let params = HnswParams::default();
    let index = build(params, &data, dim);

    for (lc, layer) in index.layers().iter().enumerate() {
        let cap = params.max_degree(lc);
        assert_eq!(layer.max_degree(), cap);
        for node in layer.nodes() {
            assert!(
                layer.degree(node) <= cap,
                "node {node} on layer {lc} has degree {} > {cap}",
                layer.degree(node)
            );
        }
    }
}

#[test]
fn layer_membership_is_contiguous() {
    let dim = 4;
    let data = points(10, 2_000, dim);
    let index = build(HnswParams::default(), &data, dim);

    for node in 0..index.len() as u32 {
        let level = index.level_of(node).unwrap();
        for lc in 0..=level {
            assert!(
                index.layers()[lc].contains(node),
                "node {node} has level {level} but is missing from layer {lc}"
            );
        }
        for (lc, layer) in index.layers().iter().enumerate().skip(level + 1) {
            assert!(
                !layer.contains(node),
                "node {node} has level {level} but appears on layer {lc}"
            );
        }
    }
}

#[test]
fn the_entry_point_sits_on_the_top_layer() {
    let dim = 4;
    let data = points(11, 2_000, dim);
    let index = build(HnswParams::default(), &data, dim);

    let entry = index
        .entry_point()
        .expect("non-empty index has an entry point");
    assert_eq!(index.level_of(entry), Some(index.max_layer()));
    assert_eq!(index.layers().len(), index.max_layer() + 1);
}

#[test]
fn no_node_is_isolated_on_layer_zero() {
    let dim = 4;
    let data = points(12, 1_000, dim);
    let index = build(HnswParams::default(), &data, dim);

    for node in 0..index.len() as u32 {
        assert!(
            index.layers()[0].degree(node) > 0,
            "node {node} is unreachable on layer 0"
        );
    }
}

#[test]
fn building_twice_gives_the_same_index() {
    let dim = 4;
    let data = points(13, 800, dim);

    let first = build(HnswParams::default(), &data, dim);
    let second = build(HnswParams::default(), &data, dim);

    assert_eq!(first.max_layer(), second.max_layer());
    assert_eq!(first.entry_point(), second.entry_point());
    for lc in 0..first.layers().len() {
        for node in first.layers()[lc].nodes() {
            assert_eq!(
                first.layers()[lc].neighbors(node),
                second.layers()[lc].neighbors(node),
                "layer {lc}, node {node}"
            );
        }
    }
}

#[test]
fn the_heuristic_beats_nearest_m_on_clustered_data() {
    let dim = 8;
    // Twenty tight clusters, so short-range edges alone leave no route between them.
    let mut data = Vec::new();
    let mut state = 99u64;
    for cluster in 0..20 {
        let centre = cluster as f32 * 200.0;
        for _ in 0..150 {
            for _ in 0..dim {
                state = state
                    .wrapping_mul(6364136223846793005)
                    .wrapping_add(1442695040888963407);
                let jitter = ((state >> 11) as f64 / (1u64 << 53) as f64) as f32;
                data.push(centre + jitter);
            }
        }
    }

    let queries = {
        let mut q = Vec::new();
        for cluster in 0..20 {
            for _ in 0..dim {
                q.push(cluster as f32 * 200.0 + 0.5);
            }
        }
        q
    };

    let with = build(HnswParams::default(), &data, dim);
    let without = build(
        HnswParams::default()
            .with_selection(SelectionPolicy::naive())
            .unwrap(),
        &data,
        dim,
    );

    let recall_with = recall(&with, &queries, dim, 10, 32);
    let recall_without = recall(&without, &queries, dim, 10, 32);

    assert!(
        recall_with >= recall_without,
        "heuristic {recall_with:.4} should not be worse than nearest-m {recall_without:.4}"
    );
    assert!(
        recall_with >= 0.95,
        "heuristic recall was only {recall_with:.4}"
    );
}

#[test]
fn search_computes_far_fewer_distances_than_a_scan() {
    let dim = 8;
    let count = 5_000;
    let data = points(14, count, dim);
    let index = build(HnswParams::default(), &data, dim);

    let mut searcher = index.searcher();
    let mut counter = Tally::new();
    index
        .search::<Counted>(&mut searcher, &bits(&[50.0; 8]), 10, 64, &mut counter)
        .unwrap();

    let computed = counter.count().unwrap();
    assert_eq!(computed, COMPUTED.load(Ordering::Relaxed), "each computed distance is counted");
    assert!(computed >= 10);
    assert!(
        computed < count as u64 / 4,
        "one query cost {computed} distance computations against {count} vectors"
    );
}

#[test]
fn inserting_appends_to_what_was_there() {
    let mut index = build(HnswParams::default(), &points(15, 50, 2), 2);
    let before: Vec<Vec<u32>> = index.vectors().iter().into_iter().map(|v| v.to_vec()).collect();
    let mut searcher = index.searcher();
    let mut counter = DistanceCounter::new();
    let node = index
        .insert_at_level::<L2Squared>(&mut searcher, &bits(&[1.0, 2.0]), 3, &mut counter)
        .unwrap();
    assert_eq!(node, 50);
    assert_eq!(index.level_of(50), Some(3));
    assert_eq!(index.len(), 51);
    let after = index.vectors().iter();
    assert!(before.iter().zip(&after).all(|(a, b)| a == b));
    assert_eq!(after[50], bits(&[1.0, 2.0]));
}

#[test]
fn a_vector_that_is_not_finite_is_refused_and_leaves_no_trace() {
    let mut index = build(HnswParams::default(), &points(16, 20, 2), 2);
    let mut searcher = index.searcher();
    let mut counter = DistanceCounter::new();
    let drawn = index.levels_drawn();
    assert!(matches!(
        index.insert::<L2Squared, _>(
            &mut searcher,
            &bits(&[1.0, f32::NAN]),
            &mut counter,
            &scale_for(16)
        ),
        Err(IndexError::Vector(VectorError::NonFinite { component: 1, .. }))
    ));
    assert_eq!(index.len(), 20);
    assert_eq!(index.levels_drawn(), drawn + 1);
    assert_eq!(index.validate(), Ok(()));
}

static INSERTED: AtomicU64 = AtomicU64::new(0);

/// The squared distance, with a count of its own.
struct CountedInsert;

impl Metric for CountedInsert {
    const NAME: &'static str = "l2squared";

    fn distance_scalar(a: &[u32], b: &[u32]) -> u32 {
        l2(a, b)
    }

    fn distance(a: &[u32], b: &[u32]) -> u32 {
        INSERTED.fetch_add(1, Ordering::Relaxed);
        l2(a, b)
    }

    fn preprocess(_vector: &mut [u32]) -> Result<(), VectorError> {
        Ok(())
    }
}

#[test]
fn inserting_counts_every_distance() {
    let params = HnswParams::new(2).unwrap();
    let mut index = HnswIndex::new(2, MetricKind::L2Squared, params).unwrap();
    let mut searcher = index.searcher();
    let mut counter = Tally::new();
    let data = points(23, 120, 2);
    for (i, point) in data.chunks_exact(2).enumerate() {
        index
            .insert_at_level::<CountedInsert>(&mut searcher, &bits(point), i % 3, &mut counter)
            .unwrap();
        match i {
            // The first is compared with nothing, the second with the first on layer 0.
            0 => assert_eq!(counter.count(), Some(0)),
            1 => assert_eq!(counter.count(), Some(1)),
            _ => {}
        }
        assert_eq!(counter.count(), Some(INSERTED.load(Ordering::Relaxed)));
    }
    let before = counter.count();
    assert!(index.insert_at_level::<CountedInsert>(&mut searcher, &[0], 0, &mut counter).is_err());
    assert_eq!(counter.count(), before);
    index.validate().unwrap();
}
