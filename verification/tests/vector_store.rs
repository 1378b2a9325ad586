use anka::error::VectorError;
use anka::vector_store::{VectorStore, MAX_DIM};

fn bits(values: &[f32]) -> Vec<u32> {
    values.iter().map(|x| x.to_bits()).collect()
}

fn from_flat(dim: usize, data: Vec<f32>) -> Result<VectorStore<'static>, VectorError> {
    VectorStore::from_flat(dim, bits(&data))
}

fn store_of(dim: usize, data: Vec<f32>) -> VectorStore<'static> {
    from_flat(dim, data).expect("valid store")
}

#[test]
fn from_flat_exposes_rows() {
    let store = store_of(2, vec![1.0, 2.0, 3.0, 4.0, 5.0, 6.0]);
    assert_eq!(store.dim(), 2);
    assert_eq!(store.len(), 3);
    assert!(!store.is_empty());
    assert_eq!(store.get(0), bits(&[1.0, 2.0]));
    assert_eq!(store.get(2), bits(&[5.0, 6.0]));
    assert_eq!(store.data_bytes(), 6 * 4);
    assert!(!store.is_mapped());
}

#[test]
fn iter_yields_every_row_in_order() {
    let store = store_of(2, vec![1.0, 2.0, 3.0, 4.0]);
    let rows: Vec<&[u32]> = store.iter();
    assert_eq!(rows, vec![&bits(&[1.0, 2.0])[..], &bits(&[3.0, 4.0])[..]]);
}

#[test]
fn try_get_is_bounded() {
    let store = store_of(2, vec![1.0, 2.0]);
    assert_eq!(store.try_get(0), Some(&bits(&[1.0, 2.0])[..]));
    assert_eq!(store.try_get(1), None);
    assert_eq!(store.try_get(usize::MAX), None);
}

#[test]
fn zero_dimension_is_rejected() {
    assert!(matches!(from_flat(0, vec![]), Err(VectorError::ZeroDim)));
}

#[test]
fn oversized_dimension_is_rejected() {
    let dim = MAX_DIM + 1;
    assert!(matches!(
        from_flat(dim, vec![0.0; dim]),
        Err(VectorError::DimTooLarge { .. })
    ));
}

#[test]
fn ragged_buffer_is_rejected() {
    assert!(matches!(
        from_flat(3, vec![1.0, 2.0, 3.0, 4.0]),
        Err(VectorError::RaggedBuffer { len: 4, dim: 3 })
    ));
}

#[test]
fn empty_store_is_valid() {
    let store = VectorStore::empty(4).expect("valid dim");
    assert!(store.is_empty());
    assert_eq!(store.len(), 0);
    assert_eq!(store.iter().len(), 0);
}

#[test]
fn non_finite_values_are_rejected_with_a_location() {
    let err = from_flat(3, vec![1.0, 2.0, 3.0, 4.0, f32::NAN, 6.0])
        .expect_err("NaN must be rejected");
    match err {
        VectorError::NonFinite {
            vector,
            component,
            value,
        } => {
            assert_eq!((vector, component), (1, 1));
            assert!(f32::from_bits(value).is_nan());
        }
        other => panic!("expected NonFinite, got {other:?}"),
    }

    for bad in [f32::INFINITY, f32::NEG_INFINITY] {
        assert!(matches!(
            from_flat(1, vec![bad]),
            Err(VectorError::NonFinite { .. })
        ));
    }
}

#[test]
fn push_appends_and_validates() {
    let mut store = VectorStore::empty(2).unwrap();
    store.push(&bits(&[1.0, 2.0])).expect("matching dim");
    store.push(&bits(&[3.0, 4.0])).expect("matching dim");
    assert_eq!(store.len(), 2);
    assert_eq!(store.get(1), bits(&[3.0, 4.0]));

    assert!(matches!(
        store.push(&bits(&[1.0])),
        Err(VectorError::DimMismatch {
            expected: 2,
            found: 1
        })
    ));
    assert!(matches!(
        store.push(&bits(&[1.0, f32::NAN])),
        Err(VectorError::NonFinite { component: 1, .. })
    ));
    assert_eq!(store.len(), 2);
}

/// The words of a mapping with `offset` bytes before the values.
fn mapping(offset: usize, values: &[f32]) -> Vec<u32> {
    let mut words = vec![0u32; offset / 4];
    words.extend(bits(values));
    words
}

fn mapped_store<'a>(
    words: &'a [u32],
    offset: usize,
    dim: usize,
    values: usize,
) -> Result<VectorStore<'a>, VectorError> {
    VectorStore::from_mmap(words, offset, dim, values / dim)
}

#[test]
fn mapped_storage_reads_without_copying() {
    let values = [1.0f32, 2.0, 3.0, 4.0, 5.0, 6.0];
    let words = mapping(128, &values);
    let store = mapped_store(&words, 128, 3, 6).expect("valid mapping");
    assert!(store.is_mapped());
    assert_eq!(store.len(), 2);
    assert_eq!(store.get(0), bits(&[1.0, 2.0, 3.0]));
    assert_eq!(store.get(1), bits(&[4.0, 5.0, 6.0]));
    assert_eq!(store.as_contiguous().unwrap(), bits(&values));
}

#[test]
fn pushing_to_a_mapped_store_makes_it_hybrid() {
    let words = mapping(128, &[1.0, 2.0, 3.0, 4.0]);
    let mut store = mapped_store(&words, 128, 2, 4).expect("valid mapping");
    assert_eq!(store.mapped_count(), 2);
    assert_eq!(store.resident_bytes(), 0);

    store.push(&bits(&[5.0, 6.0])).expect("push onto a mapping");

    assert_eq!(store.len(), 3);
    assert_eq!(store.mapped_count(), 2, "the mapping was not copied");
    assert!(store.resident_bytes() > 0, "the new vector is resident");
    assert!(store.is_mapped());
}

#[test]
fn a_hybrid_store_reads_across_the_split() {
    let words = mapping(128, &[1.0, 2.0, 3.0, 4.0]);
    let mut store = mapped_store(&words, 128, 2, 4).expect("valid mapping");
    store.push(&bits(&[5.0, 6.0])).unwrap();
    store.push(&bits(&[7.0, 8.0])).unwrap();

    assert_eq!(store.get(0), bits(&[1.0, 2.0]));
    assert_eq!(store.get(1), bits(&[3.0, 4.0]));
    assert_eq!(store.get(2), bits(&[5.0, 6.0]));
    assert_eq!(store.get(3), bits(&[7.0, 8.0]));
    assert_eq!(store.try_get(4), None);

    let rows: Vec<&[u32]> = store.iter();
    assert_eq!(
        rows,
        vec![
            &bits(&[1.0, 2.0])[..],
            &bits(&[3.0, 4.0])[..],
            &bits(&[5.0, 6.0])[..],
            &bits(&[7.0, 8.0])[..]
        ]
    );

    let view = store.view();
    assert_eq!(view.len(), 4);
    assert_eq!(view.dim(), 2);
    assert_eq!(view.get(2), bits(&[5.0, 6.0]));
}

#[test]
fn a_hybrid_store_has_no_contiguous_slice() {
    let words = mapping(128, &[1.0, 2.0]);
    let mut store = mapped_store(&words, 128, 2, 2).expect("valid mapping");
    assert!(store.as_contiguous().is_some());
    store.push(&bits(&[3.0, 4.0])).unwrap();
    assert!(store.as_contiguous().is_none());
}

#[test]
fn neither_mapped_nor_hybrid_storage_is_mutable() {
    let words = mapping(128, &[1.0, 2.0]);
    let mut store = mapped_store(&words, 128, 2, 2).expect("valid mapping");
    assert!(matches!(
        store.as_mut_slice(),
        Err(VectorError::ReadOnlyStorage)
    ));

    store.push(&bits(&[3.0, 4.0])).unwrap();
    assert!(matches!(
        store.as_mut_slice(),
        Err(VectorError::ReadOnlyStorage)
    ));
}

#[test]
fn finiteness_is_checked_on_both_storage_paths() {
    let words = mapping(128, &[1.0, 2.0, 3.0, 4.0]);
    let mut hybrid = mapped_store(&words, 128, 2, 4).expect("valid mapping");
    hybrid.push(&bits(&[5.0, 6.0])).unwrap();
    assert!(
        hybrid.as_contiguous().is_none(),
        "exercising the split path"
    );
    assert!(hybrid.validate_finite().is_ok());

    let words = mapping(0, &[1.0, 2.0, f32::NAN, 4.0]);
    let bad = mapped_store(&words, 0, 2, 4).expect("shape is valid");
    match bad.validate_finite() {
        Err(VectorError::NonFinite {
            vector, component, ..
        }) => assert_eq!((vector, component), (1, 0)),
        other => panic!("expected NonFinite at vector 1, got {other:?}"),
    }
}

#[test]
fn push_rejects_bad_input_on_a_hybrid_store_too() {
    let words = mapping(128, &[1.0, 2.0]);
    let mut store = mapped_store(&words, 128, 2, 2).expect("valid mapping");
    store.push(&bits(&[3.0, 4.0])).unwrap();
    assert_eq!(store.len(), 2);

    assert!(matches!(
        store.push(&bits(&[1.0])),
        Err(VectorError::DimMismatch { .. })
    ));
    assert!(matches!(
        store.push(&bits(&[1.0, f32::NAN])),
        Err(VectorError::NonFinite { component: 1, .. })
    ));
    assert_eq!(store.len(), 2, "a rejected push must not advance the store");
}

#[test]
fn misaligned_mapping_offset_is_rejected() {
    let words = mapping(4, &[1.0, 2.0]);
    assert!(matches!(
        mapped_store(&words, 3, 2, 2),
        Err(VectorError::MisalignedOffset { offset: 3 })
    ));
}

#[test]
fn mapping_smaller_than_the_declared_shape_is_rejected() {
    let words = mapping(0, &[1.0, 2.0]);
    assert!(matches!(
        VectorStore::from_mmap(&words, 0, 2, 100),
        Err(VectorError::MappingTooSmall { .. })
    ));
}

#[test]
fn mapped_finiteness_is_checked_on_request() {
    let words = mapping(0, &[1.0, 2.0]);
    let ok = mapped_store(&words, 0, 2, 2).expect("valid mapping");
    assert!(ok.validate_finite().is_ok());

    let words = mapping(0, &[1.0, f32::NAN]);
    let bad = mapped_store(&words, 0, 2, 2).expect("shape is valid");
    assert!(matches!(
        bad.validate_finite(),
        Err(VectorError::NonFinite { .. })
    ));
}

#[test]
fn resident_bytes_are_those_that_were_allocated() {
    let store = store_of(2, vec![1.0, 2.0, 3.0, 4.0]);
    assert!(store.resident_bytes() >= 16);
}
