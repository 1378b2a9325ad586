//! Flat, row-major storage for single-precision vectors.
//!
//! Vectors are laid out as `[v0_0..v0_d, v1_0..v1_d, ...]`, each component as its bit pattern.

use vstd::prelude::*;

use crate::bits;
use crate::error::VectorError;
use crate::mem::{self, list_bytes};

verus! {

/// Upper bound on dimensionality.
pub const MAX_DIM: usize = 4096;

/// Where a [`VectorStore`]'s components live.
#[derive(Debug)]
pub enum Storage<'a> {
    /// Built in memory.
    Owned(Vec<u32>),
    /// Read from a mapping without copying.
    Mapped { map: &'a [u32] },
    /// A mapping with vectors appended after it: vectors below `mapped_count` come from the
    /// mapping, the rest from `owned`.
    Hybrid { map: &'a [u32], mapped_count: usize, owned: Vec<u32> },
}

/// Row `i` of a flat buffer of `dim`-component vectors.
pub open spec fn row(flat: Seq<u32>, dim: int, i: int) -> Seq<u32> {
    flat.subrange(i * dim, i * dim + dim)
}

/// The first `count` rows of a flat buffer.
pub open spec fn rows(flat: Seq<u32>, dim: int, count: int) -> Seq<Seq<u32>> {
    Seq::new(count as nat, |i: int| row(flat, dim, i))
}

pub proof fn lemma_row_bounds(i: int, dim: int, count: int, len: int)
    requires
        0 <= i < count,
        dim >= 1,
        count * dim <= len,
    ensures
        0 <= i * dim,
        i * dim + dim <= len,
{
    assert(0 <= i * dim && i * dim + dim <= count * dim) by (nonlinear_arith)
        requires
            0 <= i < count,
            dim >= 1,
    ;
}

/// Rows of two whole buffers put end to end are the rows of the one, then those of the other.
pub proof fn lemma_rows_concat(a: Seq<u32>, b: Seq<u32>, dim: int, ca: int, cb: int)
    requires
        dim >= 1,
        ca >= 0,
        cb >= 0,
        a.len() == ca * dim,
        b.len() == cb * dim,
    ensures
        rows(a + b, dim, ca + cb) == rows(a, dim, ca) + rows(b, dim, cb),
        (a + b).len() == (ca + cb) * dim,
{
    assert(ca * dim + cb * dim == (ca + cb) * dim) by (nonlinear_arith);
    assert forall|i: int| 0 <= i < ca + cb implies row(a + b, dim, i) == (rows(a, dim, ca) + rows(
        b,
        dim,
        cb,
    ))[i] by {
        if i < ca {
            lemma_row_bounds(i, dim, ca, a.len() as int);
            assert(row(a + b, dim, i) =~= row(a, dim, i));
        } else {
            lemma_row_bounds(i - ca, dim, cb, b.len() as int);
            assert(i * dim == ca * dim + (i - ca) * dim) by (nonlinear_arith);
            assert(row(a + b, dim, i) =~= row(b, dim, i - ca));
        }
    }
    assert(rows(a + b, dim, ca + cb) =~= rows(a, dim, ca) + rows(b, dim, cb));
}

/// One more vector at the end of a flat buffer is one more row.
pub proof fn lemma_rows_push(flat: Seq<u32>, dim: int, count: int, v: Seq<u32>)
    requires
        dim >= 1,
        count >= 0,
        flat.len() == count * dim,
        v.len() == dim,
    ensures
        rows(flat + v, dim, count + 1) == rows(flat, dim, count).push(v),
        (flat + v).len() == (count + 1) * dim,
{
    assert(v.len() == 1 * dim);
    lemma_rows_concat(flat, v, dim, count, 1);
    assert(row(v, dim, 0) =~= v);
    assert(rows(v, dim, 1) =~= seq![v]);
    assert(rows(flat, dim, count) + seq![v] =~= rows(flat, dim, count).push(v));
}

/// Position of the first component that is not finite.
pub open spec fn first_non_finite(data: Seq<u32>) -> Option<nat>
    decreases data.len(),
{
    if data.len() == 0 {
        None
    } else {
        match first_non_finite(data.drop_last()) {
            Some(i) => Some(i),
            None => if bits::finite(data.last()) {
                None
            } else {
                Some((data.len() - 1) as nat)
            },
        }
    }
}

pub proof fn lemma_first_non_finite(data: Seq<u32>)
    ensures
        match first_non_finite(data) {
            Some(i) => i < data.len() && !bits::finite(data[i as int]) && forall|j: int|
                0 <= j < i ==> bits::finite(#[trigger] data[j]),
            None => forall|j: int| 0 <= j < data.len() ==> bits::finite(#[trigger] data[j]),
        },
    decreases data.len(),
{
    if data.len() > 0 {
        let rest = data.drop_last();
        lemma_first_non_finite(rest);
        assert forall|j: int| 0 <= j < rest.len() implies #[trigger] data[j] == rest[j] by {}
    }
}

/// Where the first non-finite component is decides [`first_non_finite`].
pub proof fn lemma_first_non_finite_at(data: Seq<u32>, at: int)
    requires
        0 <= at < data.len(),
        !bits::finite(data[at]),
        forall|j: int| 0 <= j < at ==> bits::finite(#[trigger] data[j]),
    ensures
        first_non_finite(data) == Some(at as nat),
{
    lemma_first_non_finite(data);
}

/// The error for a flat buffer whose rows are the vectors from `base` on, if it has one.
pub open spec fn finite_error(data: Seq<u32>, dim: int, base: int) -> Option<VectorError> {
    match first_non_finite(data) {
        Some(i) => Some(
            VectorError::NonFinite {
                vector: (base + i as int / dim) as usize,
                component: (i as int % dim) as usize,
                value: data[i as int],
            },
        ),
        None => None,
    }
}

pub open spec fn dim_error(dim: int) -> Option<VectorError> {
    if dim == 0 {
        Some(VectorError::ZeroDim)
    } else if dim > MAX_DIM {
        Some(VectorError::DimTooLarge { dim: dim as usize, max: MAX_DIM })
    } else {
        None
    }
}

pub open spec fn count_error(count: int) -> Option<VectorError> {
    if count > u32::MAX {
        Some(VectorError::TooManyVectors { count: count as usize })
    } else {
        None
    }
}

/// The first of two errors.
pub open spec fn either(first: Option<VectorError>, second: Option<VectorError>) -> Option<
    VectorError,
> {
    match first {
        Some(e) => Some(e),
        None => second,
    }
}

/// The dimensions that are supported: from one up to the limit.
pub proof fn lemma_dim_error(dim: int)
    requires
        0 <= dim <= usize::MAX,
    ensures
        dim_error(dim) is None <==> 1 <= dim <= 4096,
        dim_error(dim) == Some(VectorError::ZeroDim) <==> dim == 0,
        dim > 4096 ==> dim_error(dim) == Some(
            VectorError::DimTooLarge { dim: dim as usize, max: 4096 },
        ),
{
}

/// The component that is reported as not finite is the first one: it is told by the vector that it
/// belongs to, its place in that vector and its bits.
pub proof fn lemma_finite_error(data: Seq<u32>, dim: int, base: int)
    requires
        dim >= 1,
        base >= 0,
        data.len() <= usize::MAX,
        base + data.len() as int / dim <= usize::MAX,
    ensures
        match finite_error(data, dim, base) {
            None => forall|i: int| 0 <= i < data.len() ==> bits::finite(#[trigger] data[i]),
            Some(VectorError::NonFinite { vector, component, value }) => {
                let at = (vector - base) * dim + component;
                &&& base <= vector
                &&& component < dim
                &&& 0 <= at < data.len()
                &&& value == data[at]
                &&& !bits::finite(value)
                &&& forall|i: int| 0 <= i < at ==> bits::finite(#[trigger] data[i])
            },
            _ => false,
        },
{
    lemma_first_non_finite(data);
    if let Some(i) = first_non_finite(data) {
        let at = i as int;
        vstd::arithmetic::div_mod::lemma_fundamental_div_mod(at, dim);
        vstd::arithmetic::div_mod::lemma_div_pos_is_pos(at, dim);
        vstd::arithmetic::div_mod::lemma_div_is_ordered(at, data.len() as int, dim);
        vstd::arithmetic::div_mod::lemma_mod_bound(at, dim);
        assert(at % dim <= at) by {
            vstd::arithmetic::div_mod::lemma_mod_decreases(at as nat, dim as nat);
        }
        assert(dim * (at / dim) == (at / dim) * dim) by (nonlinear_arith);
    }
}

pub fn validate_dim(dim: usize) -> (r: Result<(), VectorError>)
    ensures
        match r {
            Ok(_) => dim_error(dim as int) is None,
            Err(e) => dim_error(dim as int) == Some(e),
        },
{
    if dim == 0 {
        return Err(VectorError::ZeroDim);
    }
    if dim > MAX_DIM {
        return Err(VectorError::DimTooLarge { dim, max: MAX_DIM });
    }
    Ok(())
}

/// Node ids are 32 bits wide, so the graph cannot address more vectors than that.
pub fn check_count(count: usize) -> (r: Result<(), VectorError>)
    ensures
        match r {
            Ok(_) => count_error(count as int) is None,
            Err(e) => count_error(count as int) == Some(e),
        },
{
    if count as u64 > 0xFFFF_FFFF {
        return Err(VectorError::TooManyVectors { count });
    }
    Ok(())
}

/// One linear pass over flat components; `base` is the index of the first vector in them.
pub fn validate_finite(data: &[u32], dim: usize, base: usize) -> (r: Result<(), VectorError>)
    requires
        dim >= 1,
        base + data@.len() / (dim as nat) <= usize::MAX,
    ensures
        match r {
            Ok(_) => finite_error(data@, dim as int, base as int) is None,
            Err(e) => finite_error(data@, dim as int, base as int) == Some(e),
        },
{
    let mut i: usize = 0;
    while i < data.len()
        invariant
            i <= data@.len(),
            dim >= 1,
            base + data@.len() / (dim as nat) <= usize::MAX,
            forall|j: int| 0 <= j < i ==> bits::finite(#[trigger] data@[j]),
        decreases data@.len() - i,
    {
        if !bits::is_finite(data[i]) {
            proof {
                lemma_first_non_finite_at(data@, i as int);
                vstd::arithmetic::div_mod::lemma_div_is_ordered(
                    i as int,
                    data@.len() as int,
                    dim as int,
                );
            }
            return Err(
                VectorError::NonFinite {
                    vector: base + i / dim,
                    component: i % dim,
                    value: data[i],
                },
            );
        }
        i += 1;
    }
    proof {
        lemma_first_non_finite(data@);
    }
    Ok(())
}

/// A borrowed view over a store's vectors, with the storage variant already resolved.
#[derive(Clone, Copy)]
pub enum Vectors<'a> {
    Contiguous { data: &'a [u32], dim: usize },
    /// `split` is the first index served by `owned`.
    Split { mapped: &'a [u32], owned: &'a [u32], dim: usize, split: usize },
}

impl<'a> View for Vectors<'a> {
    type V = Seq<Seq<u32>>;

    /// The vectors in storage order.
    open spec fn view(&self) -> Seq<Seq<u32>> {
        rows(self.flat(), self.width() as int, self.flat().len() as int / self.width() as int)
    }
}

impl<'a> Vectors<'a> {
    pub open spec fn flat(&self) -> Seq<u32> {
        match *self {
            Vectors::Contiguous { data, dim } => data@,
            Vectors::Split { mapped, owned, dim, split } => mapped@ + owned@,
        }
    }

    pub open spec fn width(&self) -> nat {
        match *self {
            Vectors::Contiguous { data, dim } => dim as nat,
            Vectors::Split { mapped, owned, dim, split } => dim as nat,
        }
    }

    /// The dimension is not zero, and a split store is split between two vectors.
    pub open spec fn wf(&self) -> bool {
        &&& self.width() >= 1
        &&& self.flat().len() <= usize::MAX
        &&& match *self {
            Vectors::Contiguous { data, dim } => true,
            Vectors::Split { mapped, owned, dim, split } => mapped@.len() == split * dim,
        }
    }

    /// The vector at `index`.
    pub fn get(&self, index: usize) -> (r: &'a [u32])
        requires
            self.wf(),
            index < self@.len(),
        ensures
            r@ == self@[index as int],
            r@.len() == self.width(),
    {
        proof {
            let dim = self.width() as int;
            let len = self.flat().len() as int;
            vstd::arithmetic::div_mod::lemma_fundamental_div_mod(len, dim);
            assert((len / dim) * dim == dim * (len / dim)) by (nonlinear_arith);
            lemma_row_bounds(index as int, dim, len / dim, len);
        }
        match *self {
            Vectors::Contiguous { data, dim } => {
                let start: usize = index * dim;
                vstd::slice::slice_subrange(data, start, start + dim)
            },
            Vectors::Split { mapped, owned, dim, split } => {
                if index < split {
                    proof {
                        lemma_row_bounds(index as int, dim as int, split as int, mapped@.len() as int);
                    }
                    let start: usize = index * dim;
                    let r = vstd::slice::slice_subrange(mapped, start, start + dim);
                    proof {
                        assert(r@ =~= self@[index as int]);
                    }
                    r
                } else {
                    proof {
                        assert(index * dim == split * dim + (index - split) * dim)
                            by (nonlinear_arith);
                        assert(0 <= (index - split) * dim) by (nonlinear_arith)
                            requires
                                index >= split,
                        ;
                    }
                    let start: usize = (index - split) * dim;
                    let r = vstd::slice::slice_subrange(owned, start, start + dim);
                    proof {
                        assert(r@ =~= self@[index as int]);
                    }
                    r
                }
            },
        }
    }

    pub fn dim(&self) -> (r: usize)
        ensures
            r == self.width(),
    {
        match *self {
            Vectors::Contiguous { data, dim } => dim,
            Vectors::Split { mapped, owned, dim, split } => dim,
        }
    }

    pub fn len(&self) -> (r: usize)
        requires
            self.wf(),
        ensures
            r == self@.len(),
    {
        match *self {
            Vectors::Contiguous { data, dim } => data.len() / dim,
            Vectors::Split { mapped, owned, dim, split } => (mapped.len() + owned.len()) / dim,
        }
    }

    pub fn is_empty(&self) -> (r: bool)
        requires
            self.wf(),
        ensures
            r == (self@.len() == 0),
    {
        self.len() == 0
    }

    /// The vectors in storage order.
    pub fn iter(&self) -> (r: Vec<&'a [u32]>)
        requires
            self.wf(),
        ensures
            r@.len() == self@.len(),
            forall|i: int| 0 <= i < r@.len() ==> (#[trigger] r@[i])@ == self@[i],
    {
        let count: usize = self.len();
        let mut r: Vec<&'a [u32]> = Vec::with_capacity(count);
        let mut i: usize = 0;
        while i < count
            invariant
                i <= count,
                count == self@.len(),
                self.wf(),
                r@.len() == i,
                forall|j: int| 0 <= j < i ==> (#[trigger] r@[j])@ == self@[j],
            decreases count - i,
        {
            r.push(self.get(i));
            i += 1;
        }
        r
    }
}

/// A collection of equal-length vectors.
#[derive(Debug)]
pub struct VectorStore<'a> {
    dim: usize,
    count: usize,
    storage: Storage<'a>,
}

impl<'a> VectorStore<'a> {
    /// The vectors in storage order.
    pub open spec fn all(&self) -> Seq<Seq<u32>> {
        rows(self.flat(), self.width() as int, self.size() as int)
    }

    /// The components of all vectors end to end.
    pub closed spec fn flat(&self) -> Seq<u32> {
        match self.storage {
            Storage::Owned(data) => data@,
            Storage::Mapped { map } => map@,
            Storage::Hybrid { map, mapped_count, owned } => map@ + owned@,
        }
    }

    /// The dimension.
    pub closed spec fn width(&self) -> nat {
        self.dim as nat
    }

    /// The number of vectors.
    pub closed spec fn size(&self) -> nat {
        self.count as nat
    }

    /// How many of the vectors come from a mapping.
    pub closed spec fn mapped(&self) -> nat {
        match self.storage {
            Storage::Owned(data) => 0,
            Storage::Mapped { map } => self.count as nat,
            Storage::Hybrid { map, mapped_count, owned } => mapped_count as nat,
        }
    }

    pub closed spec fn reads_mapping(&self) -> bool {
        !(self.storage is Owned)
    }

    pub closed spec fn split(&self) -> bool {
        self.storage is Hybrid
    }

    /// The dimension is supported, ids suffice, and the components are exactly `count` vectors.
    pub closed spec fn wf(&self) -> bool {
        &&& 1 <= self.dim <= MAX_DIM
        &&& self.count <= u32::MAX
        &&& self.flat().len() == self.count * self.dim
        &&& match self.storage {
            Storage::Hybrid { map, mapped_count, owned } => {
                &&& mapped_count <= self.count
                &&& map@.len() == mapped_count * self.dim
                &&& owned@.len() == (self.count - mapped_count) * self.dim
            },
            _ => true,
        }
    }

    /// What a well-formed store guarantees.
    pub proof fn lemma_wf(&self)
        requires
            self.wf(),
        ensures
            1 <= self.width() <= MAX_DIM,
            self.size() <= u32::MAX,
            self.all().len() == self.size(),
            self.flat().len() == self.size() * self.width(),
            self.mapped() <= self.size(),
            forall|i: int| 0 <= i < self.size() ==> (#[trigger] self.all()[i]).len() == self.width(),
            forall|i: int|
                0 <= i < self.size() ==> #[trigger] self.all()[i] == row(
                    self.flat(),
                    self.width() as int,
                    i,
                ),
    {
        assert forall|i: int| 0 <= i < self.size() implies (#[trigger] self.all()[i]).len()
            == self.width() by {
            lemma_row_bounds(i, self.dim as int, self.count as int, self.flat().len() as int);
        }
    }

    /// An empty store that vectors can be pushed into.
    pub fn empty(dim: usize) -> (r: Result<Self, VectorError>)
        ensures
            match r {
                Ok(store) => {
                    &&& dim_error(dim as int) is None
                    &&& store.wf()
                    &&& store.width() == dim
                    &&& store.all() == Seq::<Seq<u32>>::empty()
                    &&& !store.reads_mapping()
                    &&& store.mapped() == 0
                },
                Err(e) => dim_error(dim as int) == Some(e),
            },
    {
        match validate_dim(dim) {
            Err(e) => Err(e),
            Ok(_) => {
                let store = VectorStore { dim, count: 0, storage: Storage::Owned(Vec::new()) };
                proof {
                    assert(store.all() =~= Seq::<Seq<u32>>::empty());
                }
                Ok(store)
            },
        }
    }

    /// Why a flat buffer is not a store, if it is not.
    pub open spec fn flat_error(dim: int, data: Seq<u32>) -> Option<VectorError> {
        either(
            dim_error(dim),
            if data.len() as int % dim != 0 {
                Some(VectorError::RaggedBuffer { len: data.len() as usize, dim: dim as usize })
            } else {
                either(count_error(data.len() as int / dim), finite_error(data, dim, 0))
            },
        )
    }

    /// Takes ownership of an already-flat buffer of finite components.
    pub fn from_flat(dim: usize, data: Vec<u32>) -> (r: Result<Self, VectorError>)
        ensures
            match r {
                Ok(store) => {
                    &&& VectorStore::flat_error(dim as int, data@) is None
                    &&& store.wf()
                    &&& store.width() == dim
                    &&& store.flat() == data@
                    &&& store.size() == data@.len() / (dim as nat)
                    &&& !store.reads_mapping()
                    &&& store.mapped() == 0
                },
                Err(e) => VectorStore::flat_error(dim as int, data@) == Some(e),
            },
    {
        match validate_dim(dim) {
            Err(e) => {
                return Err(e);
            },
            Ok(_) => {},
        }
        if data.len() % dim != 0 {
            return Err(VectorError::RaggedBuffer { len: data.len(), dim });
        }
        let count: usize = data.len() / dim;
        proof {
            vstd::arithmetic::div_mod::lemma_fundamental_div_mod(data@.len() as int, dim as int);
            assert(count * dim == dim * count) by (nonlinear_arith);
        }
        match check_count(count) {
            Err(e) => {
                return Err(e);
            },
            Ok(_) => {},
        }
        match validate_finite(data.as_slice(), dim, 0) {
            Err(e) => {
                return Err(e);
            },
            Ok(_) => {},
        }
        Ok(VectorStore { dim, count, storage: Storage::Owned(data) })
    }

    /// Why a mapping of `words` words does not hold `count` vectors from `offset` bytes on, if it
    /// does not.
    pub open spec fn map_error(words: int, offset: int, dim: int, count: int) -> Option<
        VectorError,
    > {
        let needed = count * dim * 4;
        let available = if words * 4 > offset {
            words * 4 - offset
        } else {
            0
        };
        either(
            either(dim_error(dim), count_error(count)),
            if offset % 4 != 0 {
                Some(VectorError::MisalignedOffset { offset: offset as usize })
            } else if needed > usize::MAX {
                Some(VectorError::TooManyVectors { count: count as usize })
            } else if available < needed {
                Some(
                    VectorError::MappingTooSmall {
                        dim: dim as usize,
                        count: count as usize,
                        offset: offset as usize,
                        needed: needed as usize,
                        available: available as usize,
                    },
                )
            } else {
                None
            },
        )
    }

    /// Views `count` vectors of `dim` components starting `offset` bytes into a mapping of
    /// 32-bit words.
    ///
    /// Shape and alignment are checked, finiteness is not: see [`Self::validate_finite`].
    pub fn from_mmap(map: &'a [u32], offset: usize, dim: usize, count: usize) -> (r: Result<
        Self,
        VectorError,
    >)
        requires
            map@.len() * 4 <= usize::MAX,
        ensures
            match r {
                Ok(store) => {
                    &&& VectorStore::map_error(map@.len() as int, offset as int, dim as int, count as int) is None
                    &&& store.wf()
                    &&& store.width() == dim
                    &&& store.size() == count
                    &&& store.flat() == if count == 0 {
                        Seq::empty()
                    } else {
                        map@.subrange(offset as int / 4, offset as int / 4 + count * dim)
                    }
                    &&& store.reads_mapping()
                    &&& !store.split()
                    &&& store.mapped() == count
                },
                Err(e) => VectorStore::map_error(
                    map@.len() as int,
                    offset as int,
                    dim as int,
                    count as int,
                ) == Some(e),
            },
    {
        match validate_dim(dim) {
            Err(e) => {
                return Err(e);
            },
            Ok(_) => {},
        }
        match check_count(count) {
            Err(e) => {
                return Err(e);
            },
            Ok(_) => {},
        }
        if offset % 4 != 0 {
            return Err(VectorError::MisalignedOffset { offset });
        }
        let needed: usize = match count.checked_mul(dim) {
            None => {
                return Err(VectorError::TooManyVectors { count });
            },
            Some(words) => match words.checked_mul(4) {
                None => {
                    return Err(VectorError::TooManyVectors { count });
                },
                Some(bytes) => bytes,
            },
        };
        let available: usize = (map.len() * 4).saturating_sub(offset);
        if available < needed {
            return Err(VectorError::MappingTooSmall { dim, count, offset, needed, available });
        }
        let start: usize = if count == 0 {
            0
        } else {
            offset / 4
        };
        proof {
            if count == 0 {
                assert(0 * dim == 0);
            } else {
                assert(count * dim >= 1) by (nonlinear_arith)
                    requires
                        count >= 1,
                        dim >= 1,
                ;
            }
        }
        let region = vstd::slice::slice_subrange(map, start, start + count * dim);
        Ok(VectorStore { dim, count, storage: Storage::Mapped { map: region } })
    }

    /// Number of vectors.
    pub fn len(&self) -> (r: usize)
        ensures
            r == self.size(),
            r == self.all().len(),
    {
        self.count
    }

    pub fn is_empty(&self) -> (r: bool)
        ensures
            r == (self.all().len() == 0),
    {
        self.count == 0
    }

    pub fn dim(&self) -> (r: usize)
        ensures
            r == self.width(),
    {
        self.dim
    }

    /// Whether any of this store reads through a mapping.
    pub fn is_mapped(&self) -> (r: bool)
        ensures
            r == self.reads_mapping(),
    {
        match &self.storage {
            Storage::Owned(_) => false,
            _ => true,
        }
    }

    /// How many vectors come from a mapping rather than from owned memory.
    pub fn mapped_count(&self) -> (r: usize)
        ensures
            r == self.mapped(),
    {
        match &self.storage {
            Storage::Owned(_) => 0,
            Storage::Mapped { .. } => self.count,
            Storage::Hybrid { mapped_count, .. } => *mapped_count,
        }
    }

    /// Bytes this store owns outright: four for each component that the allocator gave room for,
    /// which is at least those of the vectors that are not mapped. How many more is not said. A
    /// fully mapped store owns none.
    pub fn resident_bytes(&self) -> (r: usize)
        requires
            self.wf(),
        ensures
            exists|held: usize| #[trigger]
                list_bytes(held, 4) == r && held >= (self.size() - self.mapped()) * self.width(),
            self.reads_mapping() && !self.split() ==> r == 0,
    {
        proof {
            assert(0 * self.width() == 0);
            assert(list_bytes(0, 4) == 0);
        }
        match &self.storage {
            Storage::Owned(data) => mem::bytes_for(mem::capacity_of(data), 4),
            Storage::Mapped { .. } => 0,
            Storage::Hybrid { owned, .. } => mem::bytes_for(mem::capacity_of(owned), 4),
        }
    }

    /// Size of the vector data in bytes, whether owned or mapped.
    pub fn data_bytes(&self) -> (r: usize)
        requires
            self.wf(),
            self.size() * self.width() * 4 <= usize::MAX,
        ensures
            r == self.size() * self.width() * 4,
    {
        proof {
            assert(self.count * self.dim <= self.count * self.dim * 4) by (nonlinear_arith);
        }
        self.count * self.dim * 4
    }

    /// A view with the storage variant resolved.
    pub fn view(&self) -> (r: Vectors<'_>)
        requires
            self.wf(),
            self.flat().len() <= usize::MAX,
        ensures
            r.wf(),
            r@ == self.all(),
            r.width() == self.width(),
            r.flat() == self.flat(),
    {
        proof {
            crate::hnsw::layer::lemma_exact_division(self.count as int, self.dim as int);
        }
        match &self.storage {
            Storage::Owned(data) => Vectors::Contiguous { data: data.as_slice(), dim: self.dim },
            Storage::Mapped { map } => Vectors::Contiguous { data: *map, dim: self.dim },
            Storage::Hybrid { map, mapped_count, owned } => Vectors::Split {
                mapped: *map,
                owned: owned.as_slice(),
                dim: self.dim,
                split: *mapped_count,
            },
        }
    }

    /// The whole collection as one flat slice, when it is contiguous. A hybrid store is not.
    pub fn as_contiguous(&self) -> (r: Option<&[u32]>)
        ensures
            match r {
                Some(data) => data@ == self.flat() && !self.split(),
                None => self.split(),
            },
    {
        match &self.storage {
            Storage::Owned(data) => Some(data.as_slice()),
            Storage::Mapped { map } => Some(*map),
            Storage::Hybrid { .. } => None,
        }
    }

    /// The entire buffer as one mutable flat slice. Owned storage only: a mapping is read-only,
    /// and a hybrid store is only half writable.
    pub fn as_mut_slice(&mut self) -> (r: Result<&mut [u32], VectorError>)
        ensures
            match r {
                Ok(data) => {
                    &&& !old(self).reads_mapping()
                    &&& data@ == old(self).flat()
                    &&& final(self).flat() == final(data)@
                    &&& final(self).size() == old(self).size()
                    &&& final(self).width() == old(self).width()
                    &&& !final(self).reads_mapping()
                    &&& old(self).wf() && final(data)@.len() == data@.len() ==> final(self).wf()
                },
                Err(e) => {
                    &&& old(self).reads_mapping()
                    &&& e == VectorError::ReadOnlyStorage
                    &&& *final(self) == *old(self)
                },
            },
    {
        match &mut self.storage {
            Storage::Owned(data) => Ok(data.as_mut_slice()),
            _ => Err(VectorError::ReadOnlyStorage),
        }
    }

    /// Overwrites the vector at `index` of an owned store.
    pub(crate) fn set_row(&mut self, index: usize, vector: &Vec<u32>)
        requires
            old(self).wf(),
            !old(self).reads_mapping(),
            index < old(self).size(),
            vector@.len() == old(self).width(),
        ensures
            final(self).wf(),
            !final(self).reads_mapping(),
            final(self).size() == old(self).size(),
            final(self).width() == old(self).width(),
            final(self).all() == old(self).all().update(index as int, vector@),
    {
        let ghost before = self.flat();
        let dim: usize = self.dim;
        let ghost count = self.count as int;
        proof {
            lemma_row_bounds(index as int, dim as int, count, before.len() as int);
        }
        if let Storage::Owned(data) = &mut self.storage {
            let total: usize = data.len();
            let start: usize = index * dim;
            let mut j: usize = 0;
            while j < dim
                invariant
                    j <= dim,
                    start == index * dim,
                    start + dim <= data@.len() <= usize::MAX,
                    data@.len() == before.len(),
                    vector@.len() == dim,
                    forall|n: int| 0 <= n < j ==> data@[start + n] == vector@[n],
                    forall|n: int|
                        0 <= n < before.len() && !(start <= n < start + dim) ==> data@[n]
                            == before[n],
                decreases dim - j,
            {
                data[start + j] = vector[j];
                j += 1;
            }
            proof {
                lemma_row_written(before, data@, dim as int, count, index as int, vector@);
            }
        }
    }

    /// The vector at `index`.
    pub fn get(&self, index: usize) -> (r: &[u32])
        requires
            self.wf(),
            index < self.all().len(),
        ensures
            r@ == self.all()[index as int],
            r@.len() == self.width(),
    {
        proof {
            lemma_row_bounds(
                index as int,
                self.dim as int,
                self.count as int,
                self.flat().len() as int,
            );
        }
        match &self.storage {
            Storage::Owned(data) => {
                let total: usize = data.len();
                let start: usize = index * self.dim;
                vstd::slice::slice_subrange(data.as_slice(), start, start + self.dim)
            },
            Storage::Mapped { map } => {
                let total: usize = map.len();
                let start: usize = index * self.dim;
                vstd::slice::slice_subrange(*map, start, start + self.dim)
            },
            Storage::Hybrid { map, mapped_count, owned } => {
                if index < *mapped_count {
                    let total: usize = map.len();
                    proof {
                        lemma_row_bounds(
                            index as int,
                            self.dim as int,
                            *mapped_count as int,
                            map@.len() as int,
                        );
                    }
                    let start: usize = index * self.dim;
                    let r = vstd::slice::slice_subrange(*map, start, start + self.dim);
                    proof {
                        assert(r@ =~= self.all()[index as int]);
                    }
                    r
                } else {
                    let total: usize = owned.len();
                    let at: usize = index - *mapped_count;
                    proof {
                        lemma_row_bounds(
                            at as int,
                            self.dim as int,
                            self.count - *mapped_count,
                            owned@.len() as int,
                        );
                        assert(index * self.dim == *mapped_count * self.dim + at * self.dim)
                            by (nonlinear_arith)
                            requires
                                at == index - *mapped_count,
                        ;
                    }
                    let start: usize = at * self.dim;
                    let r = vstd::slice::slice_subrange(owned.as_slice(), start, start + self.dim);
                    proof {
                        assert(r@ =~= self.all()[index as int]);
                    }
                    r
                }
            },
        }
    }

    pub fn try_get(&self, index: usize) -> (r: Option<&[u32]>)
        requires
            self.wf(),
        ensures
            match r {
                Some(v) => index < self.all().len() && v@ == self.all()[index as int],
                None => index >= self.all().len(),
            },
    {
        if index < self.count {
            Some(self.get(index))
        } else {
            None
        }
    }

    /// The vectors in storage order.
    pub fn iter(&self) -> (r: Vec<&[u32]>)
        requires
            self.wf(),
        ensures
            r@.len() == self.all().len(),
            forall|i: int| 0 <= i < r@.len() ==> (#[trigger] r@[i])@ == self.all()[i],
    {
        let mut r: Vec<&[u32]> = Vec::with_capacity(self.count);
        let mut i: usize = 0;
        while i < self.count
            invariant
                i <= self.count,
                self.wf(),
                self.all().len() == self.count,
                r@.len() == i,
                forall|j: int| 0 <= j < i ==> (#[trigger] r@[j])@ == self.all()[j],
            decreases self.count - i,
        {
            r.push(self.get(i));
            i += 1;
        }
        r
    }

    /// Why `vector` cannot be appended, if it cannot.
    pub open spec fn push_error(&self, vector: Seq<u32>) -> Option<VectorError> {
        if vector.len() != self.width() {
            Some(
                VectorError::DimMismatch {
                    expected: self.width() as usize,
                    found: vector.len() as usize,
                },
            )
        } else {
            match first_non_finite(vector) {
                Some(i) => Some(
                    VectorError::NonFinite {
                        vector: self.size() as usize,
                        component: i as usize,
                        value: vector[i as int],
                    },
                ),
                None => count_error(self.size() as int + 1),
            }
        }
    }

    /// Whether a vector can be appended.
    pub fn check_push(&self, vector: &[u32]) -> (r: Result<(), VectorError>)
        requires
            self.wf(),
            self.size() < usize::MAX,
        ensures
            match r {
                Ok(_) => self.push_error(vector@) is None,
                Err(e) => self.push_error(vector@) == Some(e),
            },
    {
        if vector.len() != self.dim {
            return Err(VectorError::DimMismatch { expected: self.dim, found: vector.len() });
        }
        let mut i: usize = 0;
        while i < vector.len()
            invariant
                i <= vector@.len(),
                vector@.len() == self.dim,
                self.wf(),
                forall|j: int| 0 <= j < i ==> bits::finite(#[trigger] vector@[j]),
            decreases vector@.len() - i,
        {
            if !bits::is_finite(vector[i]) {
                proof {
                    lemma_first_non_finite_at(vector@, i as int);
                }
                return Err(
                    VectorError::NonFinite { vector: self.count, component: i, value: vector[i] },
                );
            }
            i += 1;
        }
        proof {
            lemma_first_non_finite(vector@);
        }
        check_count(self.count + 1)
    }

    /// Appends a vector. A fully mapped store becomes hybrid on the first push: the mapping stays
    /// where it is and the new vector goes into an owned buffer beside it.
    pub fn push(&mut self, vector: &[u32]) -> (r: Result<(), VectorError>)
        requires
            old(self).wf(),
            old(self).size() < usize::MAX,
        ensures
            final(self).wf(),
            match r {
                Ok(_) => {
                    &&& old(self).push_error(vector@) is None
                    &&& final(self).all() == old(self).all().push(vector@)
                    &&& final(self).flat() == old(self).flat() + vector@
                    &&& final(self).size() == old(self).size() + 1
                    &&& final(self).mapped() == old(self).mapped()
                    &&& final(self).reads_mapping() == old(self).reads_mapping()
                    &&& final(self).split() == old(self).reads_mapping()
                },
                Err(e) => old(self).push_error(vector@) == Some(e) && *final(self) == *old(self),
            },
            final(self).width() == old(self).width(),
    {
        match self.check_push(vector) {
            Err(e) => {
                return Err(e);
            },
            Ok(_) => {},
        }
        proof {
            lemma_rows_push(self.flat(), self.dim as int, self.count as int, vector@);
        }
        let mut storage = Storage::Owned(Vec::new());
        std::mem::swap(&mut storage, &mut self.storage);
        self.storage = match storage {
            Storage::Owned(data) => {
                let mut data = data;
                data.extend_from_slice(vector);
                proof {
                    assert(data@ =~= old(self).flat() + vector@);
                }
                Storage::Owned(data)
            },
            Storage::Mapped { map } => {
                let owned = vstd::slice::slice_to_vec(vector);
                proof {
                    assert(owned@.len() == 1 * self.dim);
                }
                Storage::Hybrid { map, mapped_count: self.count, owned }
            },
            Storage::Hybrid { map, mapped_count, owned } => {
                let mut owned = owned;
                let ghost before = owned@;
                owned.extend_from_slice(vector);
                proof {
                    assert(owned@ =~= before + vector@);
                    assert(map@ + owned@ =~= old(self).flat() + vector@);
                    let left = (self.count - mapped_count) as int;
                    assert(left * self.dim + self.dim == (left + 1) * self.dim)
                        by (nonlinear_arith);
                }
                Storage::Hybrid { map, mapped_count, owned }
            },
        };
        self.count = self.count + 1;
        proof {
            assert(self.flat() =~= old(self).flat() + vector@);
            if self.storage is Hybrid {
                let kept = self.mapped();
                assert(self.storage->Hybrid_owned@.len() == (self.count - kept) * self.dim);
            }
        }
        Ok(())
    }

    /// Scans for components that are not finite, which mapping a store leaves out.
    pub fn validate_finite(&self) -> (r: Result<(), VectorError>)
        requires
            self.wf(),
        ensures
            match r {
                Ok(_) => finite_error(self.flat(), self.width() as int, 0) is None,
                Err(e) => finite_error(self.flat(), self.width() as int, 0) == Some(e),
            },
    {
        proof {
            crate::hnsw::layer::lemma_exact_division(self.count as int, self.dim as int);
            crate::hnsw::layer::lemma_exact_division(self.mapped() as int, self.dim as int);
        }
        match &self.storage {
            Storage::Owned(data) => validate_finite(data.as_slice(), self.dim, 0),
            Storage::Mapped { map } => validate_finite(*map, self.dim, 0),
            Storage::Hybrid { map, mapped_count, owned } => {
                proof {
                    crate::hnsw::layer::lemma_exact_division(
                        self.count - *mapped_count,
                        self.dim as int,
                    );
                    lemma_finite_error_concat(
                        map@,
                        owned@,
                        self.dim as int,
                        *mapped_count as int,
                    );
                }
                match validate_finite(*map, self.dim, 0) {
                    Err(e) => Err(e),
                    Ok(_) => validate_finite(owned.as_slice(), self.dim, *mapped_count),
                }
            },
        }
    }
}

/// Writing a row of a flat buffer changes that row and no other.
proof fn lemma_row_written(before: Seq<u32>, after: Seq<u32>, dim: int, count: int, at: int, v: Seq<u32>)
    requires
        dim >= 1,
        0 <= at < count,
        before.len() == count * dim,
        after.len() == before.len(),
        v.len() == dim,
        forall|j: int| 0 <= j < dim ==> after[at * dim + j] == v[j],
        forall|j: int|
            0 <= j < before.len() && !(at * dim <= j < at * dim + dim) ==> after[j] == before[j],
    ensures
        rows(after, dim, count) == rows(before, dim, count).update(
            at,
            v,
        ),
{
    let want = rows(before, dim, count).update(at, v);
    lemma_row_bounds(at, dim, count, before.len() as int);
    assert forall|i: int| 0 <= i < count implies row(after, dim, i) == want[i] by {
        lemma_row_bounds(i, dim, count, before.len() as int);
        if i < at {
            crate::hnsw::layer::lemma_slots_apart(i, at, dim);
            assert(row(after, dim, i) =~= row(before, dim, i));
        } else if i > at {
            crate::hnsw::layer::lemma_slots_apart(at, i, dim);
            assert(row(after, dim, i) =~= row(before, dim, i));
        } else {
            assert forall|j: int| 0 <= j < dim implies row(after, dim, i)[j] == v[j] by {
                assert(row(after, dim, i)[j] == after[at * dim + j]);
            }
            assert(row(after, dim, i) =~= v);
        }
    }
    assert(rows(after, dim, count) =~= want);
}

/// Looking through two buffers in turn finds what looking through both at once finds.
proof fn lemma_finite_error_concat(a: Seq<u32>, b: Seq<u32>, dim: int, count: int)
    requires
        dim >= 1,
        count >= 0,
        a.len() == count * dim,
    ensures
        finite_error(a + b, dim, 0) == either(finite_error(a, dim, 0), finite_error(b, dim, count)),
{
    let ab = a + b;
    lemma_first_non_finite(a);
    lemma_first_non_finite(b);
    lemma_first_non_finite(ab);
    match first_non_finite(a) {
        Some(i) => {
            assert(forall|j: int| 0 <= j < a.len() ==> ab[j] == a[j]);
            lemma_first_non_finite_at(ab, i as int);
        },
        None => match first_non_finite(b) {
            Some(i) => {
                let at = a.len() + i;
                assert(ab[at as int] == b[i as int]);
                assert forall|j: int| 0 <= j < at implies bits::finite(#[trigger] ab[j]) by {
                    if j < a.len() {
                        assert(ab[j] == a[j]);
                    } else {
                        assert(ab[j] == b[j - a.len()]);
                    }
                }
                lemma_first_non_finite_at(ab, at as int);
                vstd::arithmetic::div_mod::lemma_hoist_over_denominator(i as int, count, dim as nat);
                vstd::arithmetic::div_mod::lemma_mod_multiples_vanish(count, i as int, dim);
                assert(dim * count == count * dim) by (nonlinear_arith);
            },
            None => {
                assert forall|j: int| 0 <= j < ab.len() implies bits::finite(#[trigger] ab[j]) by {
                    if j < a.len() {
                        assert(ab[j] == a[j]);
                    } else {
                        assert(ab[j] == b[j - a.len()]);
                    }
                }
            },
        },
    }
}

/// A buffer is a store if and only if its dimension is one, it divides into vectors, they can all
/// be numbered and every component is finite.
pub proof fn lemma_flat_error(dim: int, data: Seq<u32>)
    requires
        0 <= dim <= usize::MAX,
        data.len() <= usize::MAX,
    ensures
        VectorStore::flat_error(dim, data) is None <==> {
            &&& 1 <= dim <= 4096
            &&& data.len() as int % dim == 0
            &&& data.len() as int / dim <= 0xFFFF_FFFF
            &&& forall|i: int| 0 <= i < data.len() ==> bits::finite(#[trigger] data[i])
        },
        match VectorStore::flat_error(dim, data) {
            Some(VectorError::RaggedBuffer { len, dim: width }) => len == data.len() && width == dim
                && data.len() as int % dim != 0,
            Some(VectorError::TooManyVectors { count }) => count == data.len() as int / dim && count
                > 0xFFFF_FFFF,
            _ => true,
        },
{
    lemma_first_non_finite(data);
    if dim >= 1 {
        assert(0 <= data.len() as int / dim <= data.len()) by (nonlinear_arith)
            requires
                dim >= 1,
        ;
    }
}

/// A mapping holds vectors if and only if they can be numbered, they start at a whole word, and all
/// their words are in it.
pub proof fn lemma_map_error(words: int, offset: int, dim: int, count: int)
    requires
        0 <= words,
        0 <= offset <= usize::MAX,
        0 <= dim <= usize::MAX,
        0 <= count <= usize::MAX,
        words * 4 <= usize::MAX,
    ensures
        VectorStore::map_error(words, offset, dim, count) is None <==> {
            &&& 1 <= dim <= 4096
            &&& count <= 0xFFFF_FFFF
            &&& offset % 4 == 0
            &&& count * dim == 0 || offset / 4 + count * dim <= words
        },
        match VectorStore::map_error(words, offset, dim, count) {
            Some(VectorError::MisalignedOffset { offset: found }) => found == offset && offset % 4
                != 0,
            Some(
                VectorError::MappingTooSmall { dim: d, count: c, offset: o, needed, available },
            ) => d == dim && c == count && o == offset && needed == 4 * (count * dim) && available
                < needed && (offset <= words * 4 ==> available == words * 4 - offset),
            _ => true,
        },
{
    assert(count * dim >= 0) by (nonlinear_arith)
        requires
            count >= 0,
            dim >= 0,
    ;
    assert(count * dim * 4 == 4 * (count * dim)) by (nonlinear_arith);
}

/// A vector can be appended if and only if it has the store's dimension, every component is finite,
/// and it can be numbered. The refusal names the first component that is not finite, and the place
/// that the vector would have had.
pub proof fn lemma_push_error(store: VectorStore, vector: Seq<u32>)
    requires
        store.wf(),
        vector.len() <= usize::MAX,
        u32::MAX < usize::MAX,
    ensures
        store.push_error(vector) is None <==> {
            &&& vector.len() == store.width()
            &&& forall|i: int| 0 <= i < vector.len() ==> bits::finite(#[trigger] vector[i])
            &&& store.size() < 0xFFFF_FFFF
        },
        match store.push_error(vector) {
            Some(VectorError::DimMismatch { expected, found }) => expected == store.width() && found
                == vector.len() && expected != found,
            Some(VectorError::NonFinite { vector: at, component, value }) => {
                &&& at == store.size()
                &&& component < vector.len()
                &&& value == vector[component as int]
                &&& !bits::finite(value)
                &&& forall|i: int| 0 <= i < component ==> bits::finite(#[trigger] vector[i])
            },
            Some(VectorError::TooManyVectors { count }) => count == store.size() + 1 > 0xFFFF_FFFF,
            Some(_) => false,
            None => true,
        },
{
    store.lemma_wf();
    lemma_first_non_finite(vector);
}

} // verus!
