use anka::dataset::{read_fvecs, read_ivecs, write_fvecs, write_ivecs, IntMatrix};
use anka::error::{DatasetError, VectorError};

fn bits(values: &[f32]) -> Vec<u32> {
    values.iter().map(|x| x.to_bits()).collect()
}

#[test]
fn fvecs_round_trip() {
    let data: Vec<f32> = (0..12).map(|i| i as f32 * 0.5).collect();

    let bytes = write_fvecs(4, &bits(&data)).expect("write");
    let store = read_fvecs(&bytes).expect("read");

    assert_eq!(store.dim(), 4);
    assert_eq!(store.len(), 3);
    assert_eq!(store.as_contiguous().unwrap(), bits(&data).as_slice());
    assert_eq!(store.get(2), bits(&[4.0, 4.5, 5.0, 5.5]));
}

#[test]
fn ivecs_round_trip() {
    let data: Vec<i32> = (0..10).collect();

    let bytes = write_ivecs(5, &data).expect("write");
    let gt = read_ivecs(&bytes).expect("read");

    assert_eq!(gt.dim(), 5);
    assert_eq!(gt.len(), 2);
    assert_eq!(gt.row(0), &[0, 1, 2, 3, 4]);
    assert_eq!(gt.row(1), &[5, 6, 7, 8, 9]);
    assert_eq!(gt.try_row(2), None);
}

#[test]
fn ivecs_preserves_negative_values() {
    let data = vec![-1, i32::MIN, 0, i32::MAX];
    let bytes = write_ivecs(2, &data).expect("write");
    assert_eq!(
        read_ivecs(&bytes).expect("read").as_slice(),
        data.as_slice()
    );
}

#[test]
fn single_record_file_reads() {
    let bytes = write_fvecs(3, &bits(&[1.0, 2.0, 3.0])).expect("write");
    let store = read_fvecs(&bytes).expect("read");
    assert_eq!(store.len(), 1);
    assert_eq!(store.get(0), bits(&[1.0, 2.0, 3.0]));
}

#[test]
fn empty_file_is_an_error() {
    assert!(matches!(read_fvecs(&[]), Err(DatasetError::Empty)));
}

#[test]
fn file_shorter_than_a_header_is_truncated() {
    assert!(matches!(
        read_fvecs(&[1, 0]),
        Err(DatasetError::Truncated { record: 0 })
    ));
}

#[test]
fn truncated_file_is_reported_as_ragged() {
    let mut bytes = write_fvecs(4, &bits(&[0.0; 12])).expect("write");
    bytes.truncate(bytes.len() - 7);

    match read_fvecs(&bytes) {
        Err(DatasetError::Ragged {
            record_bytes, dim, ..
        }) => {
            assert_eq!((record_bytes, dim), (4 + 4 * 4, 4));
        }
        other => panic!("expected Ragged, got {other:?}"),
    }
}

#[test]
fn inconsistent_record_dimension_is_rejected() {
    let mut bytes = Vec::new();
    bytes.extend_from_slice(&2u32.to_le_bytes());
    bytes.extend_from_slice(&1.0f32.to_le_bytes());
    bytes.extend_from_slice(&2.0f32.to_le_bytes());
    // Claims dimension 7 at the same byte length, so the size of the file still fits.
    bytes.extend_from_slice(&7u32.to_le_bytes());
    bytes.extend_from_slice(&3.0f32.to_le_bytes());
    bytes.extend_from_slice(&4.0f32.to_le_bytes());

    assert!(matches!(
        read_fvecs(&bytes),
        Err(DatasetError::InconsistentDim {
            record: 1,
            expected: 2,
            found: 7,
        })
    ));
}

#[test]
fn zero_dimension_header_is_rejected() {
    assert!(matches!(
        read_fvecs(&0u32.to_le_bytes()),
        Err(DatasetError::Vector(VectorError::ZeroDim))
    ));
}

#[test]
fn absurd_dimension_header_is_rejected() {
    assert!(matches!(
        read_fvecs(&u32::MAX.to_le_bytes()),
        Err(DatasetError::Vector(VectorError::DimTooLarge { .. }))
    ));
}

#[test]
fn non_finite_values_in_a_file_are_rejected() {
    let bytes = write_fvecs(2, &bits(&[1.0, 2.0, f32::NAN, 4.0])).expect("write");
    assert!(matches!(
        read_fvecs(&bytes),
        Err(DatasetError::Vector(VectorError::NonFinite {
            vector: 1,
            ..
        }))
    ));
}

#[test]
fn writing_a_ragged_buffer_is_rejected() {
    assert!(matches!(
        write_fvecs(3, &bits(&[1.0, 2.0])),
        Err(DatasetError::Vector(VectorError::RaggedBuffer {
            len: 2,
            dim: 3
        }))
    ));
}

#[test]
fn file_larger_than_the_read_buffer_round_trips() {
    let dim = 128;
    let count = 4096;
    let data: Vec<f32> = (0..dim * count).map(|i| (i % 251) as f32).collect();

    let bytes = write_fvecs(dim, &bits(&data)).expect("write");
    assert_eq!(bytes.len(), count * (4 + 4 * dim));
    let store = read_fvecs(&bytes).expect("read");

    assert_eq!(store.len(), count);
    assert_eq!(store.dim(), dim);
    assert_eq!(store.get(count - 1), bits(&data[(count - 1) * dim..]));
}

#[test]
fn a_record_is_its_dimension_and_its_values() {
    assert_eq!(
        write_ivecs(2, &[1, -2]).unwrap(),
        vec![2, 0, 0, 0, 1, 0, 0, 0, 254, 255, 255, 255]
    );
}

#[test]
fn matrices_know_their_rows() {
    let matrix = IntMatrix::new(2, vec![1, 2, 3, 4]).unwrap();
    assert_eq!(matrix.data_bytes(), 16);
    assert!(!matrix.is_empty());
    assert_eq!(matrix.iter(), vec![&[1, 2][..], &[3, 4][..]]);
    assert!(matches!(
        IntMatrix::new(3, vec![1, 2]),
        Err(VectorError::RaggedBuffer { len: 2, dim: 3 })
    ));
    assert!(matches!(IntMatrix::new(0, vec![]), Err(VectorError::ZeroDim)));
}
