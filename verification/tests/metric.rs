use anka::error::VectorError;
use anka::metric::{check_direction, is_metric, preprocess_all, Metric, MetricKind};
use anka::vector_store::VectorStore;

/// The bits of a list of numbers.
fn bits(values: &[f32]) -> Vec<u32> {
    values.iter().map(|x| x.to_bits()).collect()
}

fn l2(a: &[u32], b: &[u32]) -> u32 {
    let mut sum = 0.0f64;
    for (x, y) in a.iter().zip(b) {
        let d = f64::from(f32::from_bits(*x)) - f64::from(f32::from_bits(*y));
        sum += d * d;
    }
    (sum as f32).to_bits()
}

struct L2Squared;

impl Metric for L2Squared {
    const NAME: &'static str = "l2squared";

    fn distance_scalar(a: &[u32], b: &[u32]) -> u32 {
        l2(a, b)
    }

    fn distance(a: &[u32], b: &[u32]) -> u32 {
        l2(a, b)
    }

    fn preprocess(_vector: &mut [u32]) -> Result<(), VectorError> {
        Ok(())
    }
}

fn dot(a: &[u32], b: &[u32]) -> f64 {
    a.iter()
        .zip(b)
        .map(|(x, y)| f64::from(f32::from_bits(*x)) * f64::from(f32::from_bits(*y)))
        .sum()
}

struct DotProduct;

impl Metric for DotProduct {
    const NAME: &'static str = "dot";

    fn distance_scalar(a: &[u32], b: &[u32]) -> u32 {
        (-dot(a, b) as f32).to_bits()
    }

    fn distance(a: &[u32], b: &[u32]) -> u32 {
        (-dot(a, b) as f32).to_bits()
    }

    fn preprocess(_vector: &mut [u32]) -> Result<(), VectorError> {
        Ok(())
    }
}

struct Cosine;

impl Metric for Cosine {
    const NAME: &'static str = "cosine";

    fn distance_scalar(a: &[u32], b: &[u32]) -> u32 {
        ((1.0 - dot(a, b)) as f32).to_bits()
    }

    fn distance(a: &[u32], b: &[u32]) -> u32 {
        ((1.0 - dot(a, b)) as f32).to_bits()
    }

    fn preprocess(vector: &mut [u32]) -> Result<(), VectorError> {
        if let Some(component) = vector.iter().position(|x| !f32::from_bits(*x).is_finite()) {
            return Err(VectorError::NonFinite {
                vector: 0,
                component,
                value: vector[component],
            });
        }
        let norm_squared = dot(vector, vector);
        if norm_squared == 0.0 {
            return Err(VectorError::ZeroVector { vector: 0 });
        }
        let inverse = 1.0 / norm_squared.sqrt();
        for x in vector.iter_mut() {
            *x = ((f64::from(f32::from_bits(*x)) * inverse) as f32).to_bits();
        }
        Ok(())
    }
}

#[test]
fn preprocess_all_reports_the_offending_vector() {
    let mut store = VectorStore::from_flat(2, bits(&[3.0, 4.0, 0.0, 0.0, 1.0, 0.0])).unwrap();
    match preprocess_all::<Cosine>(&mut store) {
        Err(VectorError::ZeroVector { vector }) => assert_eq!(vector, 1),
        other => panic!("expected ZeroVector at index 1, got {other:?}"),
    }
}

#[test]
fn preprocess_all_normalises_every_vector() {
    let mut store = VectorStore::from_flat(2, bits(&[3.0, 4.0, 0.0, 2.0])).unwrap();
    preprocess_all::<Cosine>(&mut store).unwrap();
    assert_eq!(store.get(0), bits(&[0.6, 0.8]));
    assert_eq!(store.get(1), bits(&[0.0, 1.0]));
}

#[test]
fn mapped_stores_cannot_be_preprocessed_in_place() {
    let mut store = VectorStore::from_flat(2, bits(&[1.0, 0.0])).unwrap();
    assert!(preprocess_all::<L2Squared>(&mut store).is_ok());
    assert!(preprocess_all::<DotProduct>(&mut store).is_ok());

    let words = bits(&[1.0, 0.0]);
    let mut mapped = VectorStore::from_mmap(&words, 0, 2, 1).unwrap();
    assert!(matches!(
        preprocess_all::<L2Squared>(&mut mapped),
        Err(VectorError::ReadOnlyStorage)
    ));
}

#[test]
fn metric_kind_round_trips_and_rejects_unknown_tags() {
    for kind in [MetricKind::L2Squared, MetricKind::Cosine, MetricKind::Dot] {
        assert_eq!(MetricKind::from_u8(kind.as_u8()), Some(kind));
        assert_eq!(MetricKind::parse(kind.name()), Some(kind));
    }
    assert_eq!(MetricKind::from_u8(3), None);
    assert_eq!(MetricKind::parse("euclidean"), None);
    assert_eq!(MetricKind::parse("angular"), Some(MetricKind::Cosine));
}

#[test]
fn a_direction_needs_finite_components_and_one_that_is_not_zero() {
    assert_eq!(check_direction(&bits(&[0.0, 3.0, -0.0])), Ok(()));
    assert_eq!(check_direction(&bits(&[f32::from_bits(1)])), Ok(()), "the least there is");
    assert_eq!(check_direction(&bits(&[0.0, -0.0])), Err(VectorError::ZeroVector { vector: 0 }));
    assert_eq!(check_direction(&[]), Err(VectorError::ZeroVector { vector: 0 }));
    let broken = bits(&[0.0, f32::INFINITY, f32::NAN]);
    assert_eq!(
        check_direction(&broken),
        Err(VectorError::NonFinite { vector: 0, component: 1, value: broken[1] })
    );
}

#[test]
fn metrics_have_the_names_of_their_kinds() {
    assert_eq!(L2Squared::NAME, MetricKind::L2Squared.name());
    assert_eq!(Cosine::NAME, MetricKind::Cosine.name());
    assert_eq!(DotProduct::NAME, MetricKind::Dot.name());
    assert!(is_metric::<Cosine>(MetricKind::Cosine));
    assert!(!is_metric::<Cosine>(MetricKind::Dot));
}
