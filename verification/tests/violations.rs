use anka::error::{IndexError, VectorError};
use anka::hnsw::index::{graph_bytes_of, HnswIndex, IndexParts};
use anka::hnsw::layer::Layer;
use anka::hnsw::params::HnswParams;
use anka::hnsw::stats::Tally;
use anka::hnsw::validate::GraphViolation;
use anka::metric::{Metric, MetricKind};
use anka::vector_store::{check_count, VectorStore};

/// Everything is at the same distance, so that candidates come in the order of their ids.
struct First;

impl Metric for First {
    const NAME: &'static str = "l2squared";

    fn distance_scalar(_a: &[u32], _b: &[u32]) -> u32 {
        0
    }

    fn distance(_a: &[u32], _b: &[u32]) -> u32 {
        0
    }

    fn preprocess(_vector: &mut [u32]) -> Result<(), VectorError> {
        Ok(())
    }
}

/// Three nodes in a row, of which node 0 reaches layer 1. Lists have room for two neighbours on
/// layer 0 and for one above.
struct Sketch {
    base: Vec<u32>,
    upper_nodes: Vec<u32>,
    upper: Vec<u32>,
    levels: Vec<u8>,
    entry: Option<u32>,
    top: usize,
}

fn sketch() -> Sketch {
    Sketch {
        base: vec![1, 1, 0, 2, 0, 2, 1, 1, 0],
        upper_nodes: vec![0],
        upper: vec![0, 0],
        levels: vec![1, 0, 0],
        entry: Some(0),
        top: 1,
    }
}

fn assembled(sketch: Sketch) -> Result<HnswIndex<'static>, IndexError> {
    let vectors = VectorStore::from_flat(1, vec![0, 0, 0]).unwrap();
    HnswIndex::from_parts(IndexParts {
        vectors,
        params: HnswParams::new(1).unwrap(),
        metric: MetricKind::L2Squared,
        layers: vec![
            Layer::from_parts(2, true, vec![], sketch.base).unwrap(),
            Layer::from_parts(1, false, sketch.upper_nodes, sketch.upper).unwrap(),
        ],
        node_levels: sketch.levels,
        entry_point: sketch.entry,
        max_layer: sketch.top,
        levels_drawn: 3,
    })
}

fn found_in(sketch: Sketch) -> GraphViolation {
    assembled(sketch).unwrap().validate().unwrap_err()
}

#[test]
fn a_sound_graph_has_no_violation() {
    let index = assembled(sketch()).unwrap();
    assert_eq!(index.validate(), Ok(()));
    assert_eq!(index.level_of(0), Some(1));
    assert_eq!(index.levels_drawn(), 3);
    let stats = index.graph_stats();
    assert_eq!((stats.edges, stats.asymmetric_edges), (4, 0));
    assert_eq!(stats.per_layer[0].min_degree, 1);
    assert_eq!(stats.per_layer[0].max_degree, 2);
    assert_eq!(stats.per_layer[1].isolated, 1);
    assert!(stats.graph_bytes >= 4 * 11);
}

#[test]
fn the_entry_point_has_to_be_there_and_on_top() {
    assert_eq!(
        found_in(Sketch { entry: None, ..sketch() }),
        GraphViolation::MissingEntryPoint { nodes: 3 }
    );
    assert_eq!(
        found_in(Sketch { entry: Some(1), ..sketch() }),
        GraphViolation::EntryPointBelowTop { node: 1, level: 0, max_layer: 1 }
    );
}

#[test]
fn nodes_have_to_be_on_their_layers_and_no_others() {
    assert_eq!(
        found_in(Sketch { levels: vec![1, 1, 0], ..sketch() }),
        GraphViolation::LayerGap { node: 1, level: 1, missing: 1 }
    );
    assert_eq!(
        found_in(Sketch { upper_nodes: vec![0, 2], upper: vec![0, 0, 0, 0], ..sketch() }),
        GraphViolation::LevelMismatch { node: 2, recorded: 0, found: 1 }
    );
}

#[test]
fn lists_have_to_be_neighbour_lists() {
    let with = |base: Vec<u32>| found_in(Sketch { base, ..sketch() });
    assert_eq!(
        with(vec![3, 1, 0, 2, 0, 2, 1, 1, 0]),
        GraphViolation::DegreeAboveCap { layer: 0, node: 0, degree: 3, cap: 2 }
    );
    assert_eq!(
        with(vec![1, 0, 0, 2, 0, 2, 1, 1, 0]),
        GraphViolation::SelfLoop { layer: 0, node: 0 }
    );
    assert_eq!(
        with(vec![1, 1, 0, 2, 0, 0, 1, 1, 0]),
        GraphViolation::DuplicateNeighbor { layer: 0, node: 1, neighbor: 0 }
    );
    assert_eq!(
        with(vec![1, 9, 0, 2, 0, 2, 1, 1, 0]),
        GraphViolation::NeighborOutOfRange { layer: 0, node: 0, neighbor: 9 }
    );
    assert_eq!(
        with(vec![1, 1, 0, 2, 0, 2, 0, 0, 0]),
        GraphViolation::IsolatedOnLayerZero { node: 2 }
    );
    assert_eq!(
        found_in(Sketch { upper: vec![1, 1], ..sketch() }),
        GraphViolation::NeighborNotOnLayer { layer: 1, node: 0, neighbor: 1 }
    );
}

#[test]
fn parts_have_to_fit_together() {
    assert_eq!(
        assembled(Sketch { levels: vec![1, 0], ..sketch() }).unwrap_err(),
        IndexError::PartMismatch { part: "node_levels", found: 2, expected: 3 }
    );
    assert_eq!(
        assembled(Sketch { top: 2, ..sketch() }).unwrap_err(),
        IndexError::PartMismatch { part: "layers", found: 2, expected: 3 }
    );
    assert_eq!(
        assembled(Sketch { entry: Some(3), ..sketch() }).unwrap_err(),
        IndexError::PartMismatch { part: "entry_point", found: 3, expected: 3 }
    );
    assert_eq!(
        assembled(Sketch { upper_nodes: vec![7], ..sketch() }).unwrap_err(),
        IndexError::UnknownNode { layer: 1, node: 7 }
    );
}

#[test]
fn node_ids_run_out() {
    assert_eq!(check_count(u32::MAX as usize), Ok(()));
    let count = u32::MAX as usize + 1;
    assert_eq!(check_count(count), Err(VectorError::TooManyVectors { count }));
}

#[test]
fn a_graph_that_is_not_sound_can_still_be_searched() {
    // Node 2 is cut off: no edge leads to it or from it.
    let cut = Sketch { base: vec![1, 1, 0, 1, 0, 0, 0, 0, 0], ..sketch() };
    let index = assembled(cut).unwrap();
    assert_eq!(index.validate(), Err(GraphViolation::IsolatedOnLayerZero { node: 2 }));
    let mut searcher = index.searcher();
    let mut counter = Tally::new();
    let found = index.search::<First>(&mut searcher, &[0], 3, 8, &mut counter).unwrap();
    assert_eq!(found.iter().map(|c| c.id).collect::<Vec<_>>(), vec![0, 1]);
    // One on the layer above, and the two that can be reached below.
    assert_eq!(counter.count(), Some(3));
}

#[test]
fn a_graph_takes_its_layers_and_its_levels() {
    assert_eq!(graph_bytes_of(7, &[100, 40]), 147);
    assert_eq!(graph_bytes_of(7, &[]), 7);
    assert_eq!(graph_bytes_of(1, &[usize::MAX, usize::MAX]), usize::MAX);
    let index = assembled(sketch()).unwrap();
    let stats = index.graph_stats();
    assert_eq!(stats.graph_bytes, index.graph_bytes());
    let layers: usize = stats.per_layer.iter().map(|layer| layer.bytes).sum();
    assert!(stats.graph_bytes >= layers + 3);
    assert!(stats.per_layer.iter().all(|layer| layer.bytes % 4 == 0));
}

#[test]
fn a_graph_with_an_isolated_node_can_be_inserted_into() {
    let cut = Sketch { base: vec![1, 1, 0, 1, 0, 0, 0, 0, 0], ..sketch() };
    let mut index = assembled(cut).unwrap();
    assert!(index.can_insert());
    let mut searcher = index.searcher();
    let mut counter = Tally::new();
    assert_eq!(index.insert_at_level::<First>(&mut searcher, &[0], 1, &mut counter), Ok(3));
    assert_eq!(index.level_of(3), Some(1));
    assert!(index.can_insert());
    assert_eq!(index.validate(), Err(GraphViolation::IsolatedOnLayerZero { node: 2 }));

    assert!(assembled(sketch()).unwrap().can_insert());
    // Nothing else that validating finds is passed over.
    assert!(!assembled(Sketch { entry: None, ..sketch() }).unwrap().can_insert());
    assert!(!assembled(Sketch { entry: Some(1), ..sketch() }).unwrap().can_insert());
    let looped = Sketch { base: vec![1, 0, 0, 2, 0, 2, 1, 1, 0], ..sketch() };
    assert!(!assembled(looped).unwrap().can_insert());
}
