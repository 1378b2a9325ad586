use anka::brute_force::{BruteForceIndex, Kernel};
use anka::candidate::Candidate;
use anka::error::VectorError;
use anka::metric::{preprocess_all, Metric};
use anka::vector_store::VectorStore;

/// The bits of a list of numbers.
fn bits(values: &[f32]) -> Vec<u32> {
    values.iter().map(|x| x.to_bits()).collect()
}

fn l2(a: &[u32], b: &[u32]) -> u32 {
    let mut sum = 0.0f64;
    for (x, y) in a.iter().zip(b) {
        let d = f64::from(f32::from_bits(*x)) - f64::from(f32::from_bits(*y));
        sum += d * d;
    }
    (sum as f32).to_bits()
}

struct L2Squared;

impl Metric for L2Squared {
    const NAME: &'static str = "l2squared";

    fn distance_scalar(a: &[u32], b: &[u32]) -> u32 {
        l2(a, b)
    }

    fn distance(a: &[u32], b: &[u32]) -> u32 {
        l2(a, b)
    }

    fn preprocess(_vector: &mut [u32]) -> Result<(), VectorError> {
        Ok(())
    }
}

fn dot(a: &[u32], b: &[u32]) -> f64 {
    a.iter()
        .zip(b)
        .map(|(x, y)| f64::from(f32::from_bits(*x)) * f64::from(f32::from_bits(*y)))
        .sum()
}

struct DotProduct;

impl Metric for DotProduct {
    const NAME: &'static str = "dot";

    fn distance_scalar(a: &[u32], b: &[u32]) -> u32 {
        (-dot(a, b) as f32).to_bits()
    }

    fn distance(a: &[u32], b: &[u32]) -> u32 {
        (-dot(a, b) as f32).to_bits()
    }

    fn preprocess(_vector: &mut [u32]) -> Result<(), VectorError> {
        Ok(())
    }
}

struct Cosine;

impl Metric for Cosine {
    const NAME: &'static str = "cosine";

    fn distance_scalar(a: &[u32], b: &[u32]) -> u32 {
        ((1.0 - dot(a, b)) as f32).to_bits()
    }

    fn distance(a: &[u32], b: &[u32]) -> u32 {
        ((1.0 - dot(a, b)) as f32).to_bits()
    }

    fn preprocess(vector: &mut [u32]) -> Result<(), VectorError> {
        if let Some(component) = vector.iter().position(|x| !f32::from_bits(*x).is_finite()) {
            return Err(VectorError::NonFinite {
                vector: 0,
                component,
                value: vector[component],
            });
        }
        let norm_squared = dot(vector, vector);
        if norm_squared == 0.0 {
            return Err(VectorError::ZeroVector { vector: 0 });
        }
        let inverse = 1.0 / norm_squared.sqrt();
        for x in vector.iter_mut() {
            *x = ((f64::from(f32::from_bits(*x)) * inverse) as f32).to_bits();
        }
        Ok(())
    }
}

fn line() -> VectorStore<'static> {
    VectorStore::from_flat(1, bits(&[1.0, 2.0, 3.0, 4.0])).unwrap()
}

fn dist(candidate: &Candidate) -> f32 {
    f32::from_bits(candidate.dist())
}

fn ids(candidates: &[Candidate]) -> Vec<u32> {
    candidates.iter().map(|c| c.id).collect()
}

#[test]
fn returns_the_nearest_k_in_order() {
    let store = line();
    let index = BruteForceIndex::new(&store);
    let found = index
        .search::<L2Squared>(&bits(&[0.0]), 3, Kernel::Reference)
        .unwrap();

    assert_eq!(ids(&found), vec![0, 1, 2]);
    assert_eq!(dist(&found[0]), 1.0);
    assert_eq!(dist(&found[1]), 4.0);
    assert_eq!(dist(&found[2]), 9.0);
}

#[test]
fn both_kernels_agree() {
    let store = line();
    let index = BruteForceIndex::new(&store);
    let reference = index
        .search::<L2Squared>(&bits(&[0.0]), 4, Kernel::Reference)
        .unwrap();
    let fast = index.search::<L2Squared>(&bits(&[0.0]), 4, Kernel::Fast).unwrap();
    assert_eq!(reference, fast);
}

#[test]
fn brute_force_k_larger_than_the_index_returns_everything() {
    let store = line();
    let index = BruteForceIndex::new(&store);
    let found = index.search::<L2Squared>(&bits(&[0.0]), 99, Kernel::Fast).unwrap();
    assert_eq!(found.len(), 4);
    assert_eq!(ids(&found), vec![0, 1, 2, 3]);
}

#[test]
fn zero_k_and_empty_index_return_nothing() {
    let store = line();
    let index = BruteForceIndex::new(&store);
    assert!(
        index
            .search::<L2Squared>(&bits(&[0.0]), 0, Kernel::Fast)
            .unwrap()
            .is_empty()
    );

    let empty = VectorStore::empty(1).unwrap();
    let index = BruteForceIndex::new(&empty);
    assert!(index.is_empty());
    assert!(
        index
            .search::<L2Squared>(&bits(&[0.0]), 5, Kernel::Fast)
            .unwrap()
            .is_empty()
    );
}

#[test]
fn wrong_query_dimension_is_an_error() {
    let store = line();
    let index = BruteForceIndex::new(&store);
    assert!(matches!(
        index.search::<L2Squared>(&bits(&[0.0, 1.0]), 1, Kernel::Fast),
        Err(VectorError::DimMismatch {
            expected: 1,
            found: 2
        })
    ));
}

#[test]
fn equidistant_neighbours_are_broken_by_id() {
    let store = VectorStore::from_flat(1, bits(&[1.0, -1.0, 1.0, -1.0, 1.0, -1.0])).unwrap();
    let index = BruteForceIndex::new(&store);
    let found = index
        .search::<L2Squared>(&bits(&[0.0]), 4, Kernel::Reference)
        .unwrap();
    assert!(found.iter().all(|c| dist(c) == 1.0));
    assert_eq!(ids(&found), vec![0, 1, 2, 3]);
}

#[test]
fn dot_product_ranks_the_largest_inner_product_first() {
    let store = VectorStore::from_flat(2, bits(&[1.0, 0.0, 5.0, 0.0, 2.0, 0.0])).unwrap();
    let index = BruteForceIndex::new(&store);
    let found = index
        .search::<DotProduct>(&bits(&[1.0, 0.0]), 3, Kernel::Fast)
        .unwrap();
    assert_eq!(ids(&found), vec![1, 2, 0]);
    assert_eq!(dist(&found[0]), -5.0);
}

#[test]
fn cosine_ignores_magnitude_after_normalisation() {
    let mut store = VectorStore::from_flat(2, bits(&[1.0, 0.0, 100.0, 0.0, 0.0, 3.0])).unwrap();
    preprocess_all::<Cosine>(&mut store).unwrap();
    let index = BruteForceIndex::new(&store);

    let mut query = bits(&[7.0, 0.0]);
    Cosine::preprocess(&mut query).unwrap();
    let found = index.search::<Cosine>(&query, 3, Kernel::Fast).unwrap();

    // Vectors 0 and 1 point the same way and are equidistant; the id tie-break orders them.
    assert_eq!(ids(&found), vec![0, 1, 2]);
    assert!(dist(&found[0]).abs() < 1e-6);
    assert!(dist(&found[1]).abs() < 1e-6);
    assert!((dist(&found[2]) - 1.0).abs() < 1e-6);
}

#[test]
fn distances_to_specific_ids() {
    let store = line();
    let index = BruteForceIndex::new(&store);
    let d = index
        .distances_to::<L2Squared>(&bits(&[0.0]), &[3, 0], Kernel::Reference)
        .unwrap();
    assert_eq!(d, bits(&[16.0, 1.0]));
}

#[test]
fn distances_to_an_unknown_id_is_an_error() {
    let store = line();
    let index = BruteForceIndex::new(&store);
    assert!(matches!(
        index.distances_to::<L2Squared>(&bits(&[0.0]), &[9], Kernel::Fast),
        Err(VectorError::IdOutOfRange { id: 9, count: 4 })
    ));
}

#[test]
fn result_is_independent_of_storage_order() {
    let forward: Vec<f32> = (0..500).map(|i| i as f32).collect();
    let backward: Vec<f32> = forward.iter().rev().copied().collect();

    let a = VectorStore::from_flat(1, bits(&forward)).unwrap();
    let b = VectorStore::from_flat(1, bits(&backward)).unwrap();

    let da = BruteForceIndex::new(&a)
        .search::<L2Squared>(&bits(&[250.0]), 5, Kernel::Fast)
        .unwrap();
    let db = BruteForceIndex::new(&b)
        .search::<L2Squared>(&bits(&[250.0]), 5, Kernel::Fast)
        .unwrap();

    let dists_a: Vec<f32> = da.iter().map(dist).collect();
    let dists_b: Vec<f32> = db.iter().map(dist).collect();
    assert_eq!(dists_a, dists_b);
}

#[test]
fn kernel_names_parse_back() {
    for kernel in [Kernel::Reference, Kernel::Fast] {
        assert_eq!(Kernel::parse(kernel.name()), Some(kernel));
    }
    assert_eq!(Kernel::Reference.name(), "reference");
    assert_eq!(Kernel::Fast.name(), "fast");
    assert_eq!(Kernel::parse("quick"), None);
}
