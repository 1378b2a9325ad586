use std::cell::Cell;

use anka::brute_force::{BruteForceIndex, Kernel};
use anka::dataset::IntMatrix;
use anka::error::VectorError;
use anka::ground_truth::{
    assemble, check, compare, compute, distance_equivalence, neighbours_of, DistanceAgreement,
    MAX_EXAMPLES,
};
use anka::metric::Metric;
use anka::vector_store::VectorStore;

/// The bits of a list of numbers.
fn bits(values: &[f32]) -> Vec<u32> {
    values.iter().map(|x| x.to_bits()).collect()
}

fn l2(a: &[u32], b: &[u32]) -> u32 {
    let mut sum = 0.0f64;
    for (x, y) in a.iter().zip(b) {
        let d = f64::from(f32::from_bits(*x)) - f64::from(f32::from_bits(*y));
        sum += d * d;
    }
    (sum as f32).to_bits()
}

struct L2Squared;

impl Metric for L2Squared {
    const NAME: &'static str = "l2squared";

    fn distance_scalar(a: &[u32], b: &[u32]) -> u32 {
        l2(a, b)
    }

    fn distance(a: &[u32], b: &[u32]) -> u32 {
        l2(a, b)
    }

    fn preprocess(_vector: &mut [u32]) -> Result<(), VectorError> {
        Ok(())
    }
}

/// Whether two lists agree on distances up to a relative gap, and the largest gap seen.
fn equivalence(
    base: &VectorStore<'_>,
    queries: &VectorStore<'_>,
    ours: &IntMatrix,
    reference: &IntMatrix,
    tolerance: f64,
) -> Result<(DistanceAgreement, f64), VectorError> {
    let largest = Cell::new(0.0f64);
    let within = |a: u32, b: u32| {
        let (a, b) = (f64::from(f32::from_bits(a)), f64::from(f32::from_bits(b)));
        let difference = (a - b).abs();
        let gap = if difference == 0.0 { 0.0 } else { difference / a.abs().max(b.abs()) };
        largest.set(largest.get().max(gap));
        gap <= tolerance
    };
    let result = distance_equivalence::<L2Squared, _>(base, queries, ours, reference, &within)?;
    Ok((result, largest.get()))
}

fn store(dim: usize, data: Vec<f32>) -> VectorStore<'static> {
    VectorStore::from_flat(dim, bits(&data)).unwrap()
}

#[test]
fn computes_exact_neighbours_for_every_query() {
    let base = store(1, vec![0.0, 10.0, 20.0, 30.0]);
    let queries = store(1, vec![1.0, 29.0]);

    let gt = compute::<L2Squared>(&base, &queries, 2, Kernel::Reference).unwrap();
    assert_eq!(gt.len(), 2);
    assert_eq!(gt.dim(), 2);
    assert_eq!(gt.row(0), &[0, 1]);
    assert_eq!(gt.row(1), &[3, 2]);
}

#[test]
fn both_kernels_produce_the_same_ground_truth() {
    let base: Vec<f32> = (0..2000).map(|i| (i % 97) as f32 * 1.5).collect();
    let base = store(4, base);
    let queries = store(4, vec![1.0, 2.0, 3.0, 4.0, 40.0, 41.0, 42.0, 43.0]);

    let reference = compute::<L2Squared>(&base, &queries, 10, Kernel::Reference).unwrap();
    let fast = compute::<L2Squared>(&base, &queries, 10, Kernel::Fast).unwrap();
    assert_eq!(reference, fast);
}

#[test]
fn k_outside_the_valid_range_is_an_error() {
    let base = store(1, vec![0.0, 1.0]);
    let queries = store(1, vec![0.0]);

    assert!(matches!(
        compute::<L2Squared>(&base, &queries, 0, Kernel::Fast),
        Err(VectorError::InvalidK { k: 0, available: 2 })
    ));
    assert!(matches!(
        compute::<L2Squared>(&base, &queries, 3, Kernel::Fast),
        Err(VectorError::InvalidK { k: 3, available: 2 })
    ));
}

#[test]
fn mismatched_dimensions_are_an_error() {
    let base = store(2, vec![0.0, 1.0]);
    let queries = store(3, vec![0.0, 1.0, 2.0]);
    assert!(matches!(
        compute::<L2Squared>(&base, &queries, 1, Kernel::Fast),
        Err(VectorError::DimMismatch { .. })
    ));
}

#[test]
fn identical_lists_agree_completely() {
    let a = IntMatrix::new(3, vec![1, 2, 3, 4, 5, 6]).unwrap();
    let agreement = compare(&a, &a).unwrap();

    assert!(agreement.is_exact());
    assert_eq!(agreement.identical_rows, 2);
    assert_eq!(agreement.same_set_rows, 2);
    assert_eq!(agreement.identical_positions, 6);
    assert_eq!(agreement.identical_rows, agreement.queries);
    assert_eq!(agreement.identical_positions, agreement.queries * agreement.k);
    assert!(agreement.examples.is_empty());
}

#[test]
fn a_reordered_row_matches_as_a_set_but_not_exactly() {
    let ours = IntMatrix::new(3, vec![1, 3, 2]).unwrap();
    let reference = IntMatrix::new(3, vec![1, 2, 3]).unwrap();
    let agreement = compare(&ours, &reference).unwrap();

    assert!(!agreement.is_exact());
    assert_eq!(agreement.identical_rows, 0);
    assert_eq!(agreement.same_set_rows, 1);
    assert_eq!(agreement.identical_positions, 1);
    assert_eq!(agreement.examples.len(), 1);
    assert_eq!(agreement.examples[0].query, 0);
    assert_eq!(agreement.examples[0].first_difference, 1);
}

#[test]
fn a_narrower_list_compares_against_the_leading_columns() {
    let ours = IntMatrix::new(2, vec![1, 2]).unwrap();
    let reference = IntMatrix::new(5, vec![1, 2, 3, 4, 5]).unwrap();
    assert!(compare(&ours, &reference).unwrap().is_exact());
}

#[test]
fn a_wider_list_than_the_reference_is_an_error() {
    let ours = IntMatrix::new(5, vec![1, 2, 3, 4, 5]).unwrap();
    let reference = IntMatrix::new(2, vec![1, 2]).unwrap();
    assert!(matches!(
        compare(&ours, &reference),
        Err(VectorError::ShapeMismatch { .. })
    ));
}

#[test]
fn swapping_equidistant_neighbours_is_distance_equivalent() {
    let base = store(1, vec![-1.0, 1.0, 5.0]);
    let queries = store(1, vec![0.0]);

    let ours = IntMatrix::new(1, vec![1]).unwrap();
    let reference = IntMatrix::new(1, vec![0]).unwrap();

    let (result, max_relative_gap) =
        equivalence(&base, &queries, &ours, &reference, 1e-6).unwrap();
    assert!(result.is_equivalent());
    assert_eq!(result.differing_positions, 1);
    assert_eq!(result.equivalent_positions, 1);
    assert_eq!(max_relative_gap, 0.0);
}

#[test]
fn a_genuinely_different_neighbour_is_not_equivalent() {
    let base = store(1, vec![1.0, 100.0]);
    let queries = store(1, vec![0.0]);

    let ours = IntMatrix::new(1, vec![1]).unwrap();
    let reference = IntMatrix::new(1, vec![0]).unwrap();

    let (result, max_relative_gap) =
        equivalence(&base, &queries, &ours, &reference, 1e-6).unwrap();
    assert!(!result.is_equivalent());
    assert_eq!(result.differing_positions, 1);
    assert_eq!(result.equivalent_positions, 0);
    assert!(max_relative_gap > 0.99);
    assert_eq!(result.examples.len(), 1);
    assert_eq!(result.examples[0].our_id, 1);
    assert_eq!(result.examples[0].reference_id, 0);
}

#[test]
fn identical_lists_have_nothing_to_examine() {
    let base = store(1, vec![1.0, 2.0]);
    let queries = store(1, vec![0.0]);
    let list = IntMatrix::new(2, vec![0, 1]).unwrap();

    let (result, _) =
        equivalence(&base, &queries, &list, &list, 1e-6).unwrap();
    assert!(result.is_equivalent());
    assert_eq!(result.differing_positions, 0);
}

#[test]
fn an_out_of_range_id_in_a_list_is_an_error() {
    let base = store(1, vec![1.0, 2.0]);
    let queries = store(1, vec![0.0]);
    let ours = IntMatrix::new(1, vec![7]).unwrap();
    let reference = IntMatrix::new(1, vec![0]).unwrap();

    assert!(matches!(
        equivalence(&base, &queries, &ours, &reference, 1e-6),
        Err(VectorError::IdOutOfRange { id: 7, count: 2 })
    ));
}

#[test]
fn rows_can_be_found_one_at_a_time() {
    let base = store(1, vec![0.0, 10.0, 20.0, 30.0]);
    let queries = store(1, vec![1.0, 29.0]);
    assert!(check(&base, &queries, 2).is_ok());
    let index = BruteForceIndex::new(&base);
    let rows: Vec<Vec<i32>> = queries
        .iter()
        .into_iter()
        .map(|query| neighbours_of::<L2Squared>(&index, query, 2, Kernel::Fast).unwrap())
        .collect();
    assert_eq!(
        assemble(2, &rows).unwrap(),
        compute::<L2Squared>(&base, &queries, 2, Kernel::Fast).unwrap()
    );
}

#[test]
fn only_so_many_examples_are_kept() {
    let count = MAX_EXAMPLES + 5;
    let ours = IntMatrix::new(1, vec![0; count]).unwrap();
    let reference = IntMatrix::new(1, vec![1; count]).unwrap();
    let agreement = compare(&ours, &reference).unwrap();
    assert_eq!(agreement.identical_rows, 0);
    assert_eq!(agreement.examples.len(), MAX_EXAMPLES);
    assert_eq!(agreement.examples[0].query, 0);

    let base = store(1, vec![1.0, 100.0]);
    let queries = store(1, vec![0.0; count]);
    let (result, _) = equivalence(&base, &queries, &ours, &reference, 1e-6).unwrap();
    assert_eq!(result.differing_positions, count);
    assert_eq!(result.examples.len(), MAX_EXAMPLES);
}
