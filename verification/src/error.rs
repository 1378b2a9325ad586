//! Errors over vector data and over the index.

use vstd::prelude::*;

use crate::hnsw::layer::LayerShapeError;
use crate::NodeId;

verus! {

/// Rejected vector data.
#[derive(Clone, Copy, Debug, PartialEq, Eq)]
pub enum VectorError {
    /// The dimension is zero.
    ZeroDim,
    /// The dimension is above the supported maximum.
    DimTooLarge { dim: usize, max: usize },
    /// A vector has another dimension than expected.
    DimMismatch { expected: usize, found: usize },
    /// A flat buffer is not a whole number of vectors.
    RaggedBuffer { len: usize, dim: usize },
    /// A component is an infinity or a NaN; `value` holds its bits.
    NonFinite { vector: usize, component: usize, value: u32 },
    /// The zero vector has no direction to normalise.
    ZeroVector { vector: usize },
    /// More vectors than node ids.
    TooManyVectors { count: usize },
    /// Mapped storage cannot be written.
    ReadOnlyStorage,
    /// Mapped storage starts at an offset that is not a multiple of four.
    MisalignedOffset { offset: usize },
    /// A mapping ends before the vectors it should hold.
    MappingTooSmall { dim: usize, count: usize, offset: usize, needed: usize, available: usize },
    /// As many neighbours as asked for cannot be returned.
    InvalidK { k: usize, available: usize },
    /// Two lists do not have comparable shapes.
    ShapeMismatch {
        left: &'static str,
        left_rows: usize,
        left_cols: usize,
        right: &'static str,
        right_rows: usize,
        right_cols: usize,
    },
    /// An id names no vector.
    IdOutOfRange { id: NodeId, count: usize },
}

impl VectorError {
    /// The same error, about vector `index` of a collection.
    pub open spec fn pointed_at(self, index: usize) -> VectorError {
        match self {
            VectorError::NonFinite { vector, component, value } => VectorError::NonFinite {
                vector: index,
                component,
                value,
            },
            VectorError::ZeroVector { vector } => VectorError::ZeroVector { vector: index },
            other => other,
        }
    }

    /// Re-points an error about a single vector at its place in a collection.
    pub fn at_vector(self, index: usize) -> (r: VectorError)
        ensures
            r == self.pointed_at(index),
    {
        match self {
            VectorError::NonFinite { vector, component, value } => VectorError::NonFinite {
                vector: index,
                component,
                value,
            },
            VectorError::ZeroVector { vector } => VectorError::ZeroVector { vector: index },
            other => other,
        }
    }
}

/// A dataset file cannot be read or written.
#[derive(Clone, Copy, Debug, PartialEq, Eq)]
pub enum DatasetError {
    /// The file is empty.
    Empty,
    /// The file is not a whole number of records: it is truncated, or of another format.
    Ragged { len: u64, record_bytes: usize, dim: usize, format: &'static str },
    /// A record declares another dimension than the first one.
    InconsistentDim { record: usize, expected: usize, found: usize },
    /// The file ends inside a record.
    Truncated { record: usize },
    /// The vectors were rejected.
    Vector(VectorError),
}

/// Largest supported `M`.
pub const MAX_M: usize = 512;

/// An index cannot be built as asked.
#[derive(Clone, Copy, Debug, PartialEq, Eq)]
pub enum IndexError {
    /// The vector data was rejected.
    Vector(VectorError),
    /// `M` is zero.
    ZeroM,
    /// `M` is above [`MAX_M`].
    MTooLarge { m: usize },
    /// Layer 0 would hold fewer edges than the layers above it.
    MaxDegreeTooSmall { m: usize, max_degree0: usize },
    /// `ef_construction` is zero.
    ZeroEfConstruction,
    /// A vector has another dimension than the index.
    DimMismatch { expected: usize, found: usize },
    /// Stored arrays do not describe a layer.
    LayerShape(LayerShapeError),
    /// Stored parts of an index do not have the sizes that the others call for.
    PartMismatch { part: &'static str, found: usize, expected: usize },
    /// A stored layer holds a node that the index does not.
    UnknownNode { layer: usize, node: NodeId },
}

/// Pointing an error at a vector changes which vector it names and nothing else: what kind it is,
/// and the component and value that it names, stay. Errors that name no vector are left alone.
pub proof fn lemma_pointed_at(e: VectorError, index: usize)
    ensures
        match (e, e.pointed_at(index)) {
            (
                VectorError::NonFinite { vector, component, value },
                VectorError::NonFinite { vector: v, component: c, value: x },
            ) => v == index && c == component && x == value,
            (VectorError::ZeroVector { vector }, VectorError::ZeroVector { vector: v }) => v
                == index,
            (VectorError::NonFinite { .. }, _) => false,
            (VectorError::ZeroVector { .. }, _) => false,
            (_, other) => other == e,
        },
        e.pointed_at(index).pointed_at(index) == e.pointed_at(index),
{
}

} // verus!
