use anka::error::VectorError;
use anka::hnsw::index::HnswIndex;
use anka::hnsw::params::HnswParams;
use anka::hnsw::select::SelectionPolicy;
use anka::hnsw::stats::DistanceCounter;
use anka::hnsw::validate::{GraphStats, LayerStats};
use anka::metric::{Metric, MetricKind};

/// The bits of a list of numbers.
fn bits(values: &[f32]) -> Vec<u32> {
    values.iter().map(|x| x.to_bits()).collect()
}

fn l2(a: &[u32], b: &[u32]) -> u32 {
    let mut sum = 0.0f64;
    for (x, y) in a.iter().zip(b) {
        let d = f64::from(f32::from_bits(*x)) - f64::from(f32::from_bits(*y));
        sum += d * d;
    }
    (sum as f32).to_bits()
}

struct L2Squared;

impl Metric for L2Squared {
    const NAME: &'static str = "l2squared";

    fn distance_scalar(a: &[u32], b: &[u32]) -> u32 {
        l2(a, b)
    }

    fn distance(a: &[u32], b: &[u32]) -> u32 {
        l2(a, b)
    }

    fn preprocess(_vector: &mut [u32]) -> Result<(), VectorError> {
        Ok(())
    }
}

/// Turns a uniformly distributed word into a level with `P(level >= l) = m^-l`.
fn scale_for(m: usize) -> impl Fn(u64) -> usize {
    let multiplier = if m > 1 { 1.0 / (m as f64).ln() } else { 0.0 };
    move |word: u64| {
        let uniform = 1.0 - (word >> 11) as f64 / (1u64 << 53) as f64;
        (-uniform.ln() * multiplier).floor() as usize
    }
}

/// Deterministic points, so that a failure is reproducible from its seed.
fn points(seed: u64, count: usize, dim: usize) -> Vec<f32> {
    let mut state = seed | 1;
    (0..count * dim)
        .map(|_| {
            state = state
                .wrapping_mul(6364136223846793005)
                .wrapping_add(1442695040888963407);
            ((state >> 11) as f64 / (1u64 << 53) as f64) as f32 * 100.0
        })
        .collect()
}

fn build(params: HnswParams, data: &[f32], dim: usize) -> HnswIndex<'static> {
    let count = data.len() / dim;
    let mut index = HnswIndex::with_capacity(dim, MetricKind::L2Squared, params, count).unwrap();
    let mut searcher = index.searcher();
    let mut counter = DistanceCounter::new();
    let scale = scale_for(params.m());
    for vector in data.chunks_exact(dim) {
        index
            .insert::<L2Squared, _>(&mut searcher, &bits(vector), &mut counter, &scale)
            .unwrap();
    }
    index
}

fn mean_degree(layer: &LayerStats) -> f64 {
    layer.edges as f64 / layer.nodes as f64
}

fn asymmetry_ratio(stats: &GraphStats) -> f64 {
    stats.asymmetric_edges as f64 / stats.edges as f64
}

#[test]
fn an_empty_index_is_valid() {
    let index = HnswIndex::new(4, MetricKind::L2Squared, HnswParams::default()).unwrap();
    assert_eq!(index.validate(), Ok(()));

    let stats = index.graph_stats();
    assert_eq!(stats.nodes, 0);
    assert_eq!(stats.edges, 0);
    assert_eq!(stats.asymmetric_edges, 0);
}

#[test]
fn a_single_node_index_is_valid() {
    let index = build(HnswParams::default(), &[1.0, 2.0], 2);
    assert_eq!(index.validate(), Ok(()));
}

#[test]
fn a_built_index_satisfies_every_invariant() {
    for (seed, count, dim) in [(1u64, 200usize, 4usize), (2, 2_000, 8), (3, 5_000, 4)] {
        let index = build(HnswParams::default(), &points(seed, count, dim), dim);
        assert_eq!(
            index.validate(),
            Ok(()),
            "seed {seed}, {count} nodes, dim {dim}"
        );
    }
}

#[test]
fn ablated_indexes_are_still_valid() {
    let dim = 4;
    let data = points(4, 1_500, dim);

    for policy in [
        SelectionPolicy::naive(),
        SelectionPolicy {
            heuristic: true,
            keep_pruned: false,
        },
    ] {
        let params = HnswParams::default().with_selection(policy).unwrap();
        let index = build(params, &data, dim);
        assert_eq!(index.validate(), Ok(()), "policy {policy:?}");
    }
}

#[test]
fn stats_describe_the_layers() {
    let dim = 4;
    let count = 3_000;
    let params = HnswParams::default();
    let index = build(params, &points(5, count, dim), dim);
    let stats = index.graph_stats();

    assert_eq!(stats.nodes, count);
    assert_eq!(stats.per_layer.len(), stats.max_layer + 1);
    assert_eq!(stats.per_layer[0].nodes, count);
    assert_eq!(stats.per_layer[0].degree_cap, params.max_degree0());
    assert_eq!(stats.per_layer[0].isolated, 0);
    assert!(mean_degree(&stats.per_layer[0]) > 1.0);

    // Layers thin out geometrically, so each one holds fewer nodes than the one below.
    for pair in stats.per_layer.windows(2) {
        assert!(
            pair[1].nodes < pair[0].nodes,
            "layer {} holds {} nodes, layer {} holds {}",
            pair[0].layer,
            pair[0].nodes,
            pair[1].layer,
            pair[1].nodes
        );
    }

    for layer in &stats.per_layer {
        assert!(layer.max_degree <= layer.degree_cap);
    }
}

#[test]
fn keep_pruned_raises_the_mean_degree() {
    let dim = 8;
    let data = points(6, 2_000, dim);

    let with = build(HnswParams::default(), &data, dim).graph_stats();
    let without = build(
        HnswParams::default()
            .with_selection(SelectionPolicy {
                heuristic: true,
                keep_pruned: false,
            })
            .unwrap(),
        &data,
        dim,
    )
    .graph_stats();

    assert!(
        mean_degree(&with.per_layer[0]) > mean_degree(&without.per_layer[0]),
        "keep_pruned on: {:.2}, off: {:.2}",
        mean_degree(&with.per_layer[0]),
        mean_degree(&without.per_layer[0])
    );
}

#[test]
fn edge_asymmetry_exists_and_is_a_small_minority() {
    let dim = 8;
    let index = build(HnswParams::default(), &points(7, 4_000, dim), dim);
    let stats = index.graph_stats();

    assert!(stats.edges > 0);
    assert!(
        stats.asymmetric_edges > 0,
        "expected pruning to leave some one-way edges; measured {} of {}",
        stats.asymmetric_edges,
        stats.edges
    );
    assert!(
        asymmetry_ratio(&stats) < 0.2,
        "asymmetry ratio {:.4} is higher than a pruning side effect should be",
        asymmetry_ratio(&stats)
    );
    // Asymmetric or not, every edge still points at a node that exists on its layer.
    assert_eq!(index.validate(), Ok(()));
}
