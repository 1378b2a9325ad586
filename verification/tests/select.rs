use anka::candidate::Candidate;
use anka::error::VectorError;
use anka::hnsw::select::{select_neighbors, SelectionPolicy};
use anka::hnsw::stats::{DistanceCounter, Tally};
use anka::metric::Metric;
use anka::vector_store::VectorStore;

const KEEPING: SelectionPolicy = SelectionPolicy { heuristic: true, keep_pruned: true };
const PRUNING: SelectionPolicy = SelectionPolicy { heuristic: true, keep_pruned: false };

/// The bits of a list of numbers.
fn bits(values: &[f32]) -> Vec<u32> {
    values.iter().map(|x| x.to_bits()).collect()
}

fn l2(a: &[u32], b: &[u32]) -> u32 {
    let mut sum = 0.0f64;
    for (x, y) in a.iter().zip(b) {
        let d = f64::from(f32::from_bits(*x)) - f64::from(f32::from_bits(*y));
        sum += d * d;
    }
    (sum as f32).to_bits()
}

struct L2Squared;

impl Metric for L2Squared {
    const NAME: &'static str = "l2squared";

    fn distance_scalar(a: &[u32], b: &[u32]) -> u32 {
        l2(a, b)
    }

    fn distance(a: &[u32], b: &[u32]) -> u32 {
        l2(a, b)
    }

    fn preprocess(_vector: &mut [u32]) -> Result<(), VectorError> {
        Ok(())
    }
}

fn candidate(dist: f32, id: u32) -> Candidate {
    Candidate::new(dist.to_bits(), id)
}

fn clustered() -> (VectorStore<'static>, Vec<Candidate>) {
    let store = VectorStore::from_flat(
        2,
        bits(&[
            1.0, 0.0,
            1.05, 0.0,
            1.1, 0.0,
            0.0, 1.2,
        ]),
    )
    .unwrap();

    // Squared L2 from the origin.
    let candidates = vec![
        candidate(1.0, 0),
        candidate(1.05 * 1.05, 1),
        candidate(1.1 * 1.1, 2),
        candidate(1.2 * 1.2, 3),
    ];
    (store, candidates)
}

#[test]
fn selection_spreads_across_directions() {
    let (store, mut candidates) = clustered();
    let mut counter = DistanceCounter::new();

    let selected =
        select_neighbors::<L2Squared>(&store, &mut candidates, 2, PRUNING, &mut counter);

    assert_eq!(
        selected,
        vec![0, 3],
        "expected the nearest plus the one pointing elsewhere, not the two nearest"
    );
}

#[test]
fn the_naive_choice_would_have_been_the_two_nearest() {
    let (_store, mut candidates) = clustered();
    candidates.sort_unstable();
    let naive: Vec<u32> = candidates.iter().take(2).map(|c| c.id).collect();
    assert_eq!(naive, vec![0, 1]);
}

#[test]
fn keep_pruned_refills_to_m() {
    let (store, mut candidates) = clustered();
    let mut counter = DistanceCounter::new();

    let kept = select_neighbors::<L2Squared>(&store, &mut candidates, 3, KEEPING, &mut counter);
    assert_eq!(
        kept,
        vec![0, 3, 1],
        "diverse picks first, then the nearest pruned one"
    );

    let dropped =
        select_neighbors::<L2Squared>(&store, &mut candidates, 3, PRUNING, &mut counter);
    assert_eq!(dropped, vec![0, 3], "without the flag the list stays short");
}

#[test]
fn the_first_candidate_is_always_kept() {
    let (store, mut candidates) = clustered();
    let mut counter = DistanceCounter::new();
    let selected =
        select_neighbors::<L2Squared>(&store, &mut candidates, 1, PRUNING, &mut counter);
    assert_eq!(selected, vec![0]);
}

#[test]
fn m_of_zero_selects_nothing() {
    let (store, mut candidates) = clustered();
    let mut counter = DistanceCounter::new();
    assert!(
        select_neighbors::<L2Squared>(&store, &mut candidates, 0, KEEPING, &mut counter)
            .is_empty()
    );
}

#[test]
fn no_candidates_selects_nothing() {
    let (store, _) = clustered();
    let mut empty = Vec::new();
    let mut counter = DistanceCounter::new();
    assert!(
        select_neighbors::<L2Squared>(&store, &mut empty, 8, KEEPING, &mut counter).is_empty()
    );
}

#[test]
fn fewer_candidates_than_m_returns_all_of_them() {
    let (store, mut candidates) = clustered();
    let mut counter = DistanceCounter::new();
    let selected =
        select_neighbors::<L2Squared>(&store, &mut candidates, 10, KEEPING, &mut counter);
    assert_eq!(selected.len(), 4);
    let mut sorted = selected.clone();
    sorted.sort_unstable();
    assert_eq!(sorted, vec![0, 1, 2, 3]);
}

#[test]
fn well_spread_candidates_are_all_kept_in_distance_order() {
    let store = VectorStore::from_flat(
        2,
        bits(&[
            1.0, 0.0,
            0.0, 2.0,
            -3.0, 0.0,
            0.0, -4.0,
        ]),
    )
    .unwrap();
    let mut candidates = vec![
        candidate(1.0, 0),
        candidate(4.0, 1),
        candidate(9.0, 2),
        candidate(16.0, 3),
    ];
    let mut counter = DistanceCounter::new();

    let selected =
        select_neighbors::<L2Squared>(&store, &mut candidates, 3, PRUNING, &mut counter);
    assert_eq!(selected, vec![0, 1, 2]);
}

#[test]
fn identical_candidates_collapse_to_one() {
    let store = VectorStore::from_flat(1, bits(&[1.0, 1.0, 1.0])).unwrap();
    let mut candidates = vec![
        candidate(1.0, 0),
        candidate(1.0, 1),
        candidate(1.0, 2),
    ];
    let mut counter = DistanceCounter::new();

    let selected =
        select_neighbors::<L2Squared>(&store, &mut candidates, 3, PRUNING, &mut counter);
    assert_eq!(selected, vec![0], "co-located points add no reachability");

    let refilled =
        select_neighbors::<L2Squared>(&store, &mut candidates, 3, KEEPING, &mut counter);
    assert_eq!(refilled, vec![0, 1, 2]);
}

#[test]
fn input_order_does_not_matter() {
    let (store, candidates) = clustered();
    let mut counter = DistanceCounter::new();

    let mut forward = candidates.clone();
    let mut backward: Vec<Candidate> = candidates.into_iter().rev().collect();

    let a = select_neighbors::<L2Squared>(&store, &mut forward, 3, KEEPING, &mut counter);
    let b = select_neighbors::<L2Squared>(&store, &mut backward, 3, KEEPING, &mut counter);
    assert_eq!(a, b);
}

#[test]
fn without_the_heuristic_the_nearest_are_taken() {
    let (store, mut candidates) = clustered();
    let mut counter = DistanceCounter::new();
    let selected = select_neighbors::<L2Squared>(
        &store,
        &mut candidates,
        2,
        SelectionPolicy::naive(),
        &mut counter,
    );
    assert_eq!(selected, vec![0, 1]);
    assert_eq!(SelectionPolicy::default(), KEEPING);
}

#[test]
fn a_selection_counts_its_comparisons() {
    let cost = |m, policy| {
        let (store, mut candidates) = clustered();
        let mut counter = Tally::new();
        select_neighbors::<L2Squared>(&store, &mut candidates, m, policy, &mut counter);
        counter.count()
    };
    // The first is kept unseen; the other three are held against it, and the last one stays.
    assert_eq!(cost(2, PRUNING), Some(3));
    assert_eq!(cost(3, KEEPING), Some(3));
    // Once there are enough, nothing more is looked at.
    assert_eq!(cost(1, PRUNING), Some(0));
    assert_eq!(cost(0, PRUNING), Some(0));
}
