use anka::candidate::Candidate;
use anka::error::VectorError;
use anka::hnsw::layer::Layer;
use anka::hnsw::search::{scratch_bytes, Searcher};
use anka::hnsw::stats::{DistanceCounter, Tally};
use anka::metric::Metric;
use anka::vector_store::VectorStore;

/// The bits of a list of numbers.
fn bits(values: &[f32]) -> Vec<u32> {
    values.iter().map(|x| x.to_bits()).collect()
}

fn l2(a: &[u32], b: &[u32]) -> u32 {
    let mut sum = 0.0f64;
    for (x, y) in a.iter().zip(b) {
        let d = f64::from(f32::from_bits(*x)) - f64::from(f32::from_bits(*y));
        sum += d * d;
    }
    (sum as f32).to_bits()
}

struct L2Squared;

impl Metric for L2Squared {
    const NAME: &'static str = "l2squared";

    fn distance_scalar(a: &[u32], b: &[u32]) -> u32 {
        l2(a, b)
    }

    fn distance(a: &[u32], b: &[u32]) -> u32 {
        l2(a, b)
    }

    fn preprocess(_vector: &mut [u32]) -> Result<(), VectorError> {
        Ok(())
    }
}

fn dist(candidate: &Candidate) -> f32 {
    f32::from_bits(candidate.dist())
}

fn path_graph(n: usize) -> (VectorStore<'static>, Layer) {
    let store =
        VectorStore::from_flat(1, (0..n).map(|i| (i as f32).to_bits()).collect())
            .expect("valid store");
    let mut layer = Layer::dense(2, n);
    for node in 0..n as u32 {
        layer.add(node);
    }
    for node in 0..n as u32 {
        let mut neighbors = Vec::new();
        if node > 0 {
            neighbors.push(node - 1);
        }
        if (node as usize) + 1 < n {
            neighbors.push(node + 1);
        }
        layer.set_neighbors(node, &neighbors);
    }
    (store, layer)
}

fn ids(found: &[Candidate]) -> Vec<u32> {
    found.iter().map(|c| c.id).collect()
}

#[test]
fn beam_search_walks_to_the_query() {
    let (store, layer) = path_graph(12);
    let mut searcher = Searcher::new(12);
    let mut counter = DistanceCounter::new();

    let found =
        searcher.search_layer::<L2Squared>(&store, &layer, &bits(&[5.0]), &[0], 3, &mut counter);

    assert_eq!(ids(&found), vec![5, 4, 6]);
    assert_eq!(dist(&found[0]), 0.0);
    assert_eq!(dist(&found[1]), 1.0);
    assert_eq!(dist(&found[2]), 1.0);
}

#[test]
fn ef_of_one_is_greedy_and_lands_on_the_nearest() {
    let (store, layer) = path_graph(20);
    let mut searcher = Searcher::new(20);
    let mut counter = DistanceCounter::new();

    for target in [0.0f32, 7.0, 19.0] {
        let found = searcher.search_layer::<L2Squared>(
            &store,
            &layer,
            &bits(&[target]),
            &[0],
            1,
            &mut counter,
        );
        assert_eq!(found.len(), 1);
        assert_eq!(found[0].id, target as u32);
    }
}

#[test]
fn a_larger_beam_returns_more_neighbours() {
    let (store, layer) = path_graph(30);
    let mut searcher = Searcher::new(30);
    let mut counter = DistanceCounter::new();

    for ef in [1usize, 2, 5, 9] {
        let found =
            searcher.search_layer::<L2Squared>(&store, &layer, &bits(&[15.0]), &[0], ef, &mut counter);
        assert_eq!(found.len(), ef, "ef = {ef}");
        // Ascending by distance, so the first is the closest.
        assert_eq!(found[0].id, 15);
        assert!(found.windows(2).all(|w| dist(&w[0]) <= dist(&w[1])));
    }
}

#[test]
fn no_entry_points_or_zero_ef_returns_nothing() {
    let (store, layer) = path_graph(5);
    let mut searcher = Searcher::new(5);
    let mut counter = DistanceCounter::new();

    assert!(
        searcher
            .search_layer::<L2Squared>(&store, &layer, &bits(&[1.0]), &[], 3, &mut counter)
            .is_empty()
    );
    assert!(
        searcher
            .search_layer::<L2Squared>(&store, &layer, &bits(&[1.0]), &[0], 0, &mut counter)
            .is_empty()
    );
}

#[test]
fn repeated_entry_points_are_deduplicated() {
    let (store, layer) = path_graph(8);
    let mut searcher = Searcher::new(8);
    let mut counter = DistanceCounter::new();

    let found = searcher.search_layer::<L2Squared>(
        &store,
        &layer,
        &bits(&[3.0]),
        &[0, 0, 0, 7],
        3,
        &mut counter,
    );
    let mut unique = ids(&found);
    unique.sort_unstable();
    unique.dedup();
    assert_eq!(unique.len(), found.len());
}

#[test]
fn search_cannot_leave_its_connected_component() {
    let store = VectorStore::from_flat(1, bits(&[0.0, 1.0, 100.0, 101.0])).unwrap();
    let mut layer = Layer::dense(2, 4);
    for node in 0..4 {
        layer.add(node);
    }
    layer.set_neighbors(0, &[1]);
    layer.set_neighbors(1, &[0]);
    layer.set_neighbors(2, &[3]);
    layer.set_neighbors(3, &[2]);

    let mut searcher = Searcher::new(4);
    let mut counter = DistanceCounter::new();

    // The query sits on top of node 2, but the search starts in the other component.
    let found =
        searcher.search_layer::<L2Squared>(&store, &layer, &bits(&[100.0]), &[0], 4, &mut counter);
    assert_eq!(ids(&found), vec![1, 0]);

    // Entering the right component finds it immediately.
    let found =
        searcher.search_layer::<L2Squared>(&store, &layer, &bits(&[100.0]), &[2], 4, &mut counter);
    assert_eq!(found[0].id, 2);
}

#[test]
fn consecutive_searches_are_independent() {
    let (store, layer) = path_graph(16);
    let mut searcher = Searcher::new(16);
    let mut counter = DistanceCounter::new();

    let first =
        searcher.search_layer::<L2Squared>(&store, &layer, &bits(&[8.0]), &[0], 3, &mut counter);
    let second =
        searcher.search_layer::<L2Squared>(&store, &layer, &bits(&[8.0]), &[0], 3, &mut counter);
    assert_eq!(first, second);
}

#[test]
fn each_node_is_scored_at_most_once_per_search() {
    let (store, layer) = path_graph(10);
    let mut searcher = Searcher::new(10);
    let mut counter = Tally::new();

    searcher.search_layer::<L2Squared>(&store, &layer, &bits(&[9.0]), &[0], 10, &mut counter);

    if let Some(count) = counter.count() {
        assert!(
            count <= 10,
            "scored {count} times over a 10-node graph — a node was revisited"
        );
    }
    assert_eq!(counter.count(), Some(10), "the far end of the path is reached through all of it");
}

#[test]
fn a_beam_as_wide_as_the_layer_finds_all_that_is_reachable() {
    let (store, layer) = path_graph(10);
    let mut searcher = Searcher::new(10);
    let mut counter = DistanceCounter::new();
    let found = searcher.search_layer::<L2Squared>(&store, &layer, &bits(&[0.0]), &[9], 10, &mut counter);
    assert_eq!(ids(&found), vec![0, 1, 2, 3, 4, 5, 6, 7, 8, 9]);
}

#[test]
fn a_search_counts_the_nodes_it_visits() {
    let (store, layer) = path_graph(16);
    let mut searcher = Searcher::new(16);
    let mut counter = Tally::new();
    let mut cost = |query: f32, entry: u32, ef: usize| {
        counter.reset();
        searcher
            .search_layer::<L2Squared>(&store, &layer, &bits(&[query]), &[entry], ef, &mut counter);
        counter.count().unwrap()
    };
    // From the nearest node a beam of one looks at its two neighbours and stops.
    assert_eq!(cost(8.0, 8, 1), 3);
    assert_eq!(cost(0.0, 0, 1), 2);
    assert_eq!(cost(8.0, 8, 0), 0);
    // Walking there from the end passes every node on the way, and one more.
    assert_eq!(cost(8.0, 0, 1), 10);
}

#[test]
fn scratch_is_measured_by_what_was_allocated() {
    assert_eq!(scratch_bytes(32, 3, 2), 32 + 8 * 5);
    assert_eq!(scratch_bytes(usize::MAX, 1, 0), usize::MAX);
    assert_eq!(scratch_bytes(0, usize::MAX, 0), usize::MAX);
    let searcher = Searcher::new(100);
    assert!(searcher.memory_bytes() >= 200);
    assert!(searcher.memory_bytes() < 200 + 8 * 1_000);
}

#[test]
fn a_beam_holds_what_can_be_reached_or_as_much_as_it_has_room_for() {
    // Two paths of six and of four nodes.
    let (store, mut layer) = path_graph(10);
    layer.set_neighbors(5, &[4]);
    layer.set_neighbors(6, &[7]);
    let mut searcher = Searcher::new(10);
    let mut counter = DistanceCounter::new();

    for ef in [1usize, 2, 5, 6, 7, 40] {
        for (entry, reached) in [(0, vec![5, 4, 3, 2, 1, 0]), (8, vec![6, 7, 8, 9])] {
            let found = searcher.search_layer::<L2Squared>(
                &store,
                &layer,
                &bits(&[5.25]),
                &[entry],
                ef,
                &mut counter,
            );
            let count = ef.min(reached.len());
            assert_eq!(ids(&found), reached[..count], "ef = {ef}, entry = {entry}");
        }
        let found = searcher.search_layer::<L2Squared>(
            &store,
            &layer,
            &bits(&[5.25]),
            &[8, 0],
            ef,
            &mut counter,
        );
        assert_eq!(found.len(), ef.min(10), "both paths can be reached");
    }
}

#[test]
fn nodes_that_are_out_of_reach_need_neither_vectors_nor_scratch_space() {
    // Nodes 3 and 900 are linked to each other only; the store ends before them.
    let store = VectorStore::from_flat(1, bits(&[0.0, 1.0, 2.0])).unwrap();
    let mut layer = Layer::sparse(2);
    for node in [0, 1, 2, 3, 900] {
        layer.add(node);
    }
    layer.set_neighbors(0, &[1]);
    layer.set_neighbors(1, &[0, 2]);
    layer.set_neighbors(2, &[1]);
    layer.set_neighbors(3, &[900]);
    layer.set_neighbors(900, &[3]);

    let mut searcher = Searcher::new(3);
    let mut counter = Tally::new();
    let found =
        searcher.search_layer::<L2Squared>(&store, &layer, &bits(&[1.9]), &[0], 9, &mut counter);
    assert_eq!(ids(&found), vec![2, 1, 0]);
    assert_eq!(counter.count(), Some(3));

    // A searcher may be smaller than the store, too.
    let (store, mut layer) = path_graph(50);
    layer.set_neighbors(3, &[2]);
    let mut small = Searcher::new(4);
    let found =
        small.search_layer::<L2Squared>(&store, &layer, &bits(&[30.0]), &[0], 9, &mut counter);
    assert_eq!(ids(&found), vec![3, 2, 1, 0]);
}

#[test]
fn naming_an_entry_point_again_changes_nothing() {
    let (store, layer) = path_graph(20);
    let mut searcher = Searcher::new(20);
    for ef in [1usize, 2, 4] {
        let mut once = Tally::new();
        let mut twice = Tally::new();
        let query = bits(&[9.4]);
        let found =
            searcher.search_layer::<L2Squared>(&store, &layer, &query, &[0, 19, 12], ef, &mut once);
        let again = searcher.search_layer::<L2Squared>(
            &store,
            &layer,
            &query,
            &[0, 19, 0, 19, 12, 12, 0],
            ef,
            &mut twice,
        );
        assert_eq!(found, again);
        assert_eq!(once.count(), twice.count());
    }
}
