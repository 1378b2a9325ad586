//! The `.fvecs` and `.ivecs` formats.
//!
//! Per record: a little-endian `u32` dimension, then that many little-endian `f32` (`.fvecs`) or
//! `i32` (`.ivecs`) values. The dimension that every record repeats is checked rather than
//! skipped: a mismatch means that the file is corrupt or its stride misread.

use vstd::prelude::*;

use crate::error::{DatasetError, VectorError};
use crate::first::{first_of, lemma_first_hit, lemma_first_none, lemma_first_some};
use crate::hnsw::layer::lemma_exact_division;
use crate::store::bytes::{
    self, le32, push_u32, push_words, read_u32, read_words, value32, word_bytes, words_of,
};
use crate::vector_store::{
    dim_error, either, lemma_row_bounds, row, validate_dim, VectorStore,
};

verus! {

/// The signed number that a word stands for.
pub open spec fn word_int(word: u32) -> i32 {
    if word < 0x8000_0000 {
        word as i32
    } else {
        (word - 0x1_0000_0000) as i32
    }
}

/// The word that stands for a signed number.
pub open spec fn int_word(value: i32) -> u32 {
    if value >= 0 {
        value as u32
    } else {
        (value + 0x1_0000_0000) as u32
    }
}

/// A word and the number it stands for differ by a multiple of two to the thirty-second, and each
/// determines the other.
pub proof fn lemma_word_int(word: u32, value: i32)
    ensures
        word < 0x8000_0000 ==> word_int(word) == word,
        word >= 0x8000_0000 ==> word_int(word) == word - 0x1_0000_0000,
        int_word(word_int(word)) == word,
        word_int(int_word(value)) == value,
{
}

pub fn to_int(word: u32) -> (r: i32)
    ensures
        r == word_int(word),
{
    if word < 0x8000_0000 {
        word as i32
    } else {
        -((0xFFFF_FFFF - word) as i32) - 1
    }
}

pub fn to_word(value: i32) -> (r: u32)
    ensures
        r == int_word(value),
{
    if value >= 0 {
        value as u32
    } else {
        0xFFFF_FFFF - (-(value + 1)) as u32
    }
}

pub open spec fn ints_of(words: Seq<u32>) -> Seq<i32> {
    Seq::new(words.len(), |i: int| word_int(words[i]))
}

pub open spec fn ints_as_words(ints: Seq<i32>) -> Seq<u32> {
    Seq::new(ints.len(), |i: int| int_word(ints[i]))
}

/// Rows of 32-bit integers, all of the same length: the shape of a ground truth.
#[derive(Clone, Debug, PartialEq, Eq)]
pub struct IntMatrix {
    dim: usize,
    count: usize,
    data: Vec<i32>,
}

/// Why a flat buffer is not a matrix, if it is not.
pub open spec fn matrix_error(dim: int, len: int) -> Option<VectorError> {
    either(
        dim_error(dim),
        if len % dim != 0 {
            Some(VectorError::RaggedBuffer { len: len as usize, dim: dim as usize })
        } else {
            None
        },
    )
}

impl View for IntMatrix {
    type V = Seq<Seq<i32>>;

    closed spec fn view(&self) -> Seq<Seq<i32>> {
        int_rows(self.data@, self.dim as int, self.count as int)
    }
}

/// Row `i` of a flat buffer.
pub open spec fn int_row(flat: Seq<i32>, dim: int, i: int) -> Seq<i32> {
    flat.subrange(i * dim, i * dim + dim)
}

/// The first `count` rows of a flat buffer.
pub open spec fn int_rows(flat: Seq<i32>, dim: int, count: int) -> Seq<Seq<i32>> {
    Seq::new(count as nat, |i: int| int_row(flat, dim, i))
}

impl IntMatrix {
    pub closed spec fn width(&self) -> nat {
        self.dim as nat
    }

    /// The values of all rows end to end.
    pub closed spec fn flat(&self) -> Seq<i32> {
        self.data@
    }

    pub closed spec fn wf(&self) -> bool {
        &&& dim_error(self.dim as int) is None
        &&& self.data@.len() == self.count * self.dim
    }

    pub proof fn lemma_wf(&self)
        requires
            self.wf(),
        ensures
            dim_error(self.width() as int) is None,
            self.width() >= 1,
            self.flat().len() == self@.len() * self.width(),
            self@.len() <= usize::MAX,
            forall|i: int| 0 <= i < self@.len() ==> (#[trigger] self@[i]).len() == self.width(),
            forall|i: int|
                0 <= i < self@.len() ==> #[trigger] self@[i] == int_row(
                    self.flat(),
                    self.width() as int,
                    i,
                ),
    {
        assert forall|i: int| 0 <= i < self@.len() implies (#[trigger] self@[i]).len()
            == self.width() by {
            lemma_row_bounds(i, self.dim as int, self.count as int, self.data@.len() as int);
        }
    }

    pub fn new(dim: usize, data: Vec<i32>) -> (r: Result<Self, VectorError>)
        ensures
            match r {
                Ok(m) => {
                    &&& matrix_error(dim as int, data@.len() as int) is None
                    &&& m.wf()
                    &&& m.width() == dim
                    &&& m.flat() == data@
                    &&& m@ == int_rows(data@, dim as int, data@.len() as int / dim as int)
                },
                Err(e) => matrix_error(dim as int, data@.len() as int) == Some(e),
            },
    {
        match validate_dim(dim) {
            Err(e) => {
                return Err(e);
            },
            Ok(_) => {},
        }
        if data.len() % dim != 0 {
            return Err(VectorError::RaggedBuffer { len: data.len(), dim });
        }
        let count: usize = data.len() / dim;
        proof {
            vstd::arithmetic::div_mod::lemma_fundamental_div_mod(data@.len() as int, dim as int);
            assert(count * dim == dim * count) by (nonlinear_arith);
        }
        Ok(IntMatrix { dim, count, data })
    }

    pub fn dim(&self) -> (r: usize)
        ensures
            r == self.width(),
    {
        self.dim
    }

    pub fn len(&self) -> (r: usize)
        ensures
            r == self@.len(),
    {
        self.count
    }

    pub fn is_empty(&self) -> (r: bool)
        ensures
            r == (self@.len() == 0),
    {
        self.count == 0
    }

    pub fn row(&self, index: usize) -> (r: &[i32])
        requires
            self.wf(),
            index < self@.len(),
        ensures
            r@ == self@[index as int],
            r@.len() == self.width(),
    {
        proof {
            lemma_row_bounds(
                index as int,
                self.dim as int,
                self.count as int,
                self.data@.len() as int,
            );
        }
        let total: usize = self.data.len();
        let start: usize = index * self.dim;
        vstd::slice::slice_subrange(self.data.as_slice(), start, start + self.dim)
    }

    pub fn try_row(&self, index: usize) -> (r: Option<&[i32]>)
        requires
            self.wf(),
        ensures
            match r {
                Some(row) => index < self@.len() && row@ == self@[index as int],
                None => index >= self@.len(),
            },
    {
        if index < self.count {
            Some(self.row(index))
        } else {
            None
        }
    }

    /// The rows in order.
    pub fn iter(&self) -> (r: Vec<&[i32]>)
        requires
            self.wf(),
        ensures
            r@.len() == self@.len(),
            forall|i: int| 0 <= i < r@.len() ==> (#[trigger] r@[i])@ == self@[i],
    {
        let mut r: Vec<&[i32]> = Vec::with_capacity(self.count);
        let mut i: usize = 0;
        while i < self.count
            invariant
                self.wf(),
                i <= self.count,
                self@.len() == self.count,
                r@.len() == i,
                forall|j: int| 0 <= j < i ==> (#[trigger] r@[j])@ == self@[j],
            decreases self.count - i,
        {
            r.push(self.row(i));
            i += 1;
        }
        r
    }

    pub fn as_slice(&self) -> (r: &[i32])
        ensures
            r@ == self.flat(),
    {
        self.data.as_slice()
    }

    /// Size of the row data in bytes.
    pub fn data_bytes(&self) -> (r: usize)
        requires
            self.wf(),
            4 * self.flat().len() <= usize::MAX,
        ensures
            r == 4 * self.flat().len(),
    {
        let total: usize = self.data.len();
        self.count * self.dim * 4
    }
}

/// The size of a record.
pub open spec fn stride(dim: int) -> int {
    4 + 4 * dim
}

/// The dimension that record `i` declares.
pub open spec fn declared(s: Seq<u8>, dim: int, i: int) -> u32 {
    value32(s.subrange(i * stride(dim), i * stride(dim) + 4))
}

/// The values of record `i`.
pub open spec fn record_words(s: Seq<u8>, dim: int, i: int) -> Seq<u32> {
    words_of(s.subrange(i * stride(dim) + 4, i * stride(dim) + stride(dim)))
}

/// A record that declares another dimension.
pub open spec fn stray_record(s: Seq<u8>, dim: int) -> spec_fn(int) -> Option<DatasetError> {
    |i: int|
        if declared(s, dim, i) != dim {
            Some(
                DatasetError::InconsistentDim {
                    record: i as usize,
                    expected: dim as usize,
                    found: declared(s, dim, i) as usize,
                },
            )
        } else {
            None
        }
}

/// The values of the first `n` records.
pub open spec fn words_upto(s: Seq<u8>, dim: int, n: nat) -> Seq<u32>
    decreases n,
{
    if n == 0 {
        Seq::empty()
    } else {
        words_upto(s, dim, (n - 1) as nat) + record_words(s, dim, n - 1)
    }
}

/// The dimension and the values of a file, or why it cannot be read. The first record's
/// dimension sets the stride for all of it.
pub open spec fn records_of(s: Seq<u8>, format: &'static str) -> Result<
    (usize, Seq<u32>),
    DatasetError,
> {
    let dim = value32(s.take(4)) as int;
    if s.len() == 0 {
        Err(DatasetError::Empty)
    } else if s.len() < 4 {
        Err(DatasetError::Truncated { record: 0 })
    } else if dim_error(dim) is Some {
        Err(DatasetError::Vector(dim_error(dim)->0))
    } else if s.len() as int % stride(dim) != 0 {
        Err(
            DatasetError::Ragged {
                len: s.len() as u64,
                record_bytes: stride(dim) as usize,
                dim: dim as usize,
                format,
            },
        )
    } else {
        let count = s.len() as int / stride(dim);
        match first_of(count, stray_record(s, dim)) {
            Some(e) => Err(e),
            None => Ok((dim as usize, words_upto(s, dim, count as nat))),
        }
    }
}

proof fn lemma_words_upto_len(s: Seq<u8>, dim: int, n: nat)
    requires
        dim >= 1,
        n * stride(dim) <= s.len(),
    ensures
        words_upto(s, dim, n).len() == n * dim,
    decreases n,
{
    if n > 0 {
        assert((n - 1) * stride(dim) + stride(dim) == n * stride(dim)) by (nonlinear_arith);
        assert(0 <= (n - 1) * stride(dim)) by (nonlinear_arith)
            requires
                n >= 1,
                stride(dim) >= 0,
        ;
        assert((n - 1) * dim + dim == n * dim) by (nonlinear_arith);
        lemma_words_upto_len(s, dim, (n - 1) as nat);
    } else {
        assert(0 * dim == 0);
    }
}

/// The values of a file are those of its records, in order: component `c` of record `i` is the word
/// `c` places behind that record's dimension.
pub proof fn lemma_words_upto(s: Seq<u8>, dim: int, n: nat, i: int, c: int)
    requires
        dim >= 1,
        n * stride(dim) <= s.len(),
        0 <= i < n,
        0 <= c < dim,
    ensures
        words_upto(s, dim, n).len() == n * dim,
        0 <= i * dim + c < n * dim,
        0 <= i * (4 + 4 * dim) + 4 + 4 * c,
        i * (4 + 4 * dim) + 4 + 4 * c + 4 <= s.len(),
        words_upto(s, dim, n)[i * dim + c] == value32(
            s.subrange(i * (4 + 4 * dim) + 4 + 4 * c, i * (4 + 4 * dim) + 4 + 4 * c + 4),
        ),
    decreases n,
{
    let m = (n - 1) as nat;
    lemma_words_upto_len(s, dim, n);
    lemma_row_bounds(i, dim, n as int, n * dim);
    lemma_row_bounds(i, stride(dim), n as int, n * stride(dim));
    lemma_row_bounds(m as int, stride(dim), n as int, n * stride(dim));
    lemma_words_upto_len(s, dim, m);
    let last = record_words(s, dim, m as int);
    if i < m {
        lemma_words_upto(s, dim, m, i, c);
        lemma_row_bounds(i, dim, m as int, m * dim);
    } else {
        let record = s.subrange(m * stride(dim) + 4, m * stride(dim) + stride(dim));
        assert(record.subrange(4 * c, 4 * c + 4) =~= s.subrange(
            m * stride(dim) + 4 + 4 * c,
            m * stride(dim) + 4 + 4 * c + 4,
        ));
        assert(words_upto(s, dim, n)[i * dim + c] == last[c]);
    }
}

/// What a file of records is. It is read just when it is not empty, its first four bytes give a
/// dimension from one up to the limit, it divides into records of that dimension and each of them
/// declares it; then the dimension and the number of values are those. Each refusal is for what is
/// wrong first: no bytes, no whole dimension, a dimension out of range, a length that records do
/// not fill, and the first record that declares another dimension.
pub proof fn lemma_records(s: Seq<u8>, format: &'static str)
    requires
        s.len() <= usize::MAX,
    ensures
        ({
            let dim = value32(s.take(4)) as int;
            let size = 4 + 4 * dim;
            let says = |i: int| value32(s.subrange(i * size, i * size + 4));
            match records_of(s, format) {
                Ok((d, words)) => {
                    &&& s.len() >= 4
                    &&& d == dim
                    &&& 1 <= dim <= 4096
                    &&& s.len() as int % size == 0
                    &&& words.len() == (s.len() as int / size) * dim
                    &&& forall|i: int| 0 <= i < s.len() as int / size ==> #[trigger] says(i) == dim
                },
                Err(DatasetError::Empty) => s.len() == 0,
                Err(DatasetError::Truncated { record }) => 0 < s.len() < 4 && record == 0,
                Err(DatasetError::Vector(VectorError::ZeroDim)) => s.len() >= 4 && dim == 0,
                Err(DatasetError::Vector(VectorError::DimTooLarge { dim: d, max })) => {
                    &&& s.len() >= 4
                    &&& dim > 4096
                    &&& d == dim
                    &&& max == 4096
                },
                Err(DatasetError::Ragged { len, record_bytes, dim: d, format: f }) => {
                    &&& s.len() >= 4
                    &&& 1 <= dim <= 4096
                    &&& s.len() as int % size != 0
                    &&& len == s.len()
                    &&& record_bytes == size
                    &&& d == dim
                    &&& f == format
                },
                Err(DatasetError::InconsistentDim { record, expected, found }) => {
                    &&& s.len() >= 4
                    &&& 1 <= dim <= 4096
                    &&& s.len() as int % size == 0
                    &&& record < s.len() as int / size
                    &&& expected == dim
                    &&& found == says(record as int)
                    &&& found != dim
                    &&& forall|i: int| 0 <= i < record ==> #[trigger] says(i) == dim
                },
                _ => false,
            }
        }),
{
    let dim = value32(s.take(4)) as int;
    let size = 4 + 4 * dim;
    if s.len() >= 4 && dim_error(dim) is None && s.len() as int % size == 0 {
        let count = s.len() as int / size;
        let check = stray_record(s, dim);
        lemma_first_none(count, check);
        vstd::arithmetic::div_mod::lemma_fundamental_div_mod(s.len() as int, size);
        assert(size * count == count * size) by (nonlinear_arith);
        lemma_words_upto_len(s, dim, count as nat);
        assert forall|i: int| 0 <= i implies #[trigger] declared(s, dim, i) == value32(
            s.subrange(i * size, i * size + 4),
        ) by {}
        if first_of(count, check) is Some {
            let at = lemma_first_some(count, check);
            assert(at <= s.len()) by (nonlinear_arith)
                requires
                    0 <= at < count,
                    count * size == s.len(),
                    size >= 4,
            ;
            assert forall|i: int| 0 <= i < at implies #[trigger] value32(
                s.subrange(i * size, i * size + 4),
            ) == dim by {
                assert(check(i) is None);
                assert(declared(s, dim, i) == dim);
            }
        } else {
            assert forall|i: int| 0 <= i < count implies #[trigger] value32(
                s.subrange(i * size, i * size + 4),
            ) == dim by {
                assert(check(i) is None);
                assert(declared(s, dim, i) == dim);
            }
        }
    }
}

fn read_records(bytes: &[u8], format: &'static str) -> (r: Result<
    (usize, Vec<u32>),
    DatasetError,
>)
    ensures
        match (r, records_of(bytes@, format)) {
            (Ok((dim, data)), Ok((d, words))) => {
                &&& dim == d
                &&& dim_error(dim as int) is None
                &&& data@ == words
                &&& data@.len() == (bytes@.len() as int / stride(dim as int)) * dim
            },
            (Err(e), Err(f)) => e == f,
            _ => false,
        },
{
    let len: usize = bytes.len();
    if len == 0 {
        return Err(DatasetError::Empty);
    }
    if len < 4 {
        return Err(DatasetError::Truncated { record: 0 });
    }
    proof {
        assert(bytes@.subrange(0, 4) =~= bytes@.take(4));
    }
    let dim: usize = read_u32(bytes, 0) as usize;
    match validate_dim(dim) {
        Err(e) => {
            return Err(DatasetError::Vector(e));
        },
        Ok(_) => {},
    }
    let record_bytes: usize = 4 + 4 * dim;
    if len % record_bytes != 0 {
        return Err(DatasetError::Ragged { len: len as u64, record_bytes, dim, format });
    }
    let count: usize = len / record_bytes;
    let ghost check = stray_record(bytes@, dim as int);
    proof {
        vstd::arithmetic::div_mod::lemma_fundamental_div_mod(len as int, record_bytes as int);
        assert(count * record_bytes == record_bytes * count) by (nonlinear_arith);
        assert(0 * dim == 0);
    }
    let mut data: Vec<u32> = Vec::new();
    let mut record: usize = 0;
    while record < count
        invariant
            record <= count,
            len == bytes@.len(),
            record_bytes == stride(dim as int),
            count * record_bytes == len,
            count == len / record_bytes,
            dim >= 1,
            check == stray_record(bytes@, dim as int),
            first_of(record as int, check) is None,
            data@ == words_upto(bytes@, dim as int, record as nat),
            dim_error(dim as int) is None,
            dim == value32(bytes@.take(4)),
            len >= 4,
            len as int % stride(dim as int) == 0,
        decreases count - record,
    {
        proof {
            lemma_row_bounds(record as int, record_bytes as int, count as int, len as int);
        }
        let at: usize = record * record_bytes;
        let found: usize = read_u32(bytes, at) as usize;
        if found != dim {
            proof {
                lemma_first_hit(count as int, check, record as int);
            }
            return Err(DatasetError::InconsistentDim { record, expected: dim, found });
        }
        let values = read_words(vstd::slice::slice_subrange(bytes, at + 4, at + record_bytes));
        let ghost before = data@;
        let mut values = values;
        data.append(&mut values);
        proof {
            assert(data@ =~= words_upto(bytes@, dim as int, (record + 1) as nat));
        }
        record += 1;
    }
    proof {
        lemma_words_upto_len(bytes@, dim as int, count as nat);
    }
    Ok((dim, data))
}

/// Reads an `.fvecs` file.
pub fn read_fvecs<'a>(bytes: &[u8]) -> (r: Result<VectorStore<'a>, DatasetError>)
    ensures
        match records_of(bytes@, "fvecs") {
            Err(e) => r matches Err(f) && e == f,
            Ok((dim, words)) => match VectorStore::flat_error(dim as int, words) {
                Some(e) => r matches Err(f) && f == DatasetError::Vector(e),
                None => r matches Ok(store) && {
                    &&& store.wf()
                    &&& store.width() == dim
                    &&& store.flat() == words
                    &&& store.size() == words.len() / (dim as nat)
                    &&& !store.reads_mapping()
                },
            },
        },
{
    match read_records(bytes, "fvecs") {
        Err(e) => Err(e),
        Ok((dim, data)) => match VectorStore::from_flat(dim, data) {
            Err(e) => Err(DatasetError::Vector(e)),
            Ok(store) => Ok(store),
        },
    }
}

/// Reads an `.ivecs` file.
pub fn read_ivecs(bytes: &[u8]) -> (r: Result<IntMatrix, DatasetError>)
    ensures
        match records_of(bytes@, "ivecs") {
            Err(e) => r matches Err(f) && e == f,
            Ok((dim, words)) => r matches Ok(matrix) && {
                &&& matrix.wf()
                &&& matrix.width() == dim
                &&& matrix.flat() == ints_of(words)
                &&& matrix@.len() == words.len() / (dim as nat)
            },
        },
{
    let (dim, words) = match read_records(bytes, "ivecs") {
        Err(e) => {
            return Err(e);
        },
        Ok(read) => read,
    };
    let mut data: Vec<i32> = Vec::with_capacity(words.len());
    let mut i: usize = 0;
    while i < words.len()
        invariant
            i <= words@.len(),
            data@ == ints_of(words@).take(i as int),
        decreases words@.len() - i,
    {
        data.push(to_int(words[i]));
        i += 1;
        proof {
            assert(data@ =~= ints_of(words@).take(i as int));
        }
    }
    proof {
        assert(data@ =~= ints_of(words@));
        lemma_exact_division(bytes@.len() as int / stride(dim as int), dim as int);
    }
    match IntMatrix::new(dim, data) {
        Err(e) => Err(DatasetError::Vector(e)),
        Ok(matrix) => Ok(matrix),
    }
}

/// The first `n` rows of a flat buffer as records.
pub open spec fn encoded(dim: int, flat: Seq<u32>, n: nat) -> Seq<u8>
    decreases n,
{
    if n == 0 {
        Seq::empty()
    } else {
        encoded(dim, flat, (n - 1) as nat) + le32(dim as u32) + word_bytes(row(flat, dim, n - 1))
    }
}

fn write_records(dim: usize, data: &[u32]) -> (r: Result<Vec<u8>, DatasetError>)
    ensures
        match r {
            Ok(bytes) => {
                &&& matrix_error(dim as int, data@.len() as int) is None
                &&& bytes@ == encoded(dim as int, data@, data@.len() / (dim as nat))
            },
            Err(e) => match matrix_error(dim as int, data@.len() as int) {
                Some(f) => e == DatasetError::Vector(f),
                None => false,
            },
        },
{
    match validate_dim(dim) {
        Err(e) => {
            return Err(DatasetError::Vector(e));
        },
        Ok(_) => {},
    }
    let len: usize = data.len();
    if len % dim != 0 {
        return Err(DatasetError::Vector(VectorError::RaggedBuffer { len, dim }));
    }
    let count: usize = len / dim;
    proof {
        vstd::arithmetic::div_mod::lemma_fundamental_div_mod(len as int, dim as int);
        assert(count * dim == dim * count) by (nonlinear_arith);
    }
    let mut out: Vec<u8> = Vec::new();
    let mut i: usize = 0;
    while i < count
        invariant
            i <= count,
            len == data@.len(),
            count * dim == len,
            dim_error(dim as int) is None,
            out@ == encoded(dim as int, data@, i as nat),
        decreases count - i,
    {
        proof {
            lemma_row_bounds(i as int, dim as int, count as int, len as int);
        }
        push_u32(&mut out, dim as u32);
        push_words(&mut out, vstd::slice::slice_subrange(data, i * dim, i * dim + dim));
        i += 1;
    }
    Ok(out)
}

/// Writes a flat buffer of `dim`-component vectors as `.fvecs`.
pub fn write_fvecs(dim: usize, data: &[u32]) -> (r: Result<Vec<u8>, DatasetError>)
    ensures
        match r {
            Ok(bytes) => {
                &&& matrix_error(dim as int, data@.len() as int) is None
                &&& bytes@ == encoded(dim as int, data@, data@.len() / (dim as nat))
            },
            Err(e) => match matrix_error(dim as int, data@.len() as int) {
                Some(f) => e == DatasetError::Vector(f),
                None => false,
            },
        },
{
    write_records(dim, data)
}

/// Writes a flat buffer of `dim`-component rows as `.ivecs`.
pub fn write_ivecs(dim: usize, data: &[i32]) -> (r: Result<Vec<u8>, DatasetError>)
    ensures
        match r {
            Ok(bytes) => {
                &&& matrix_error(dim as int, data@.len() as int) is None
                &&& bytes@ == encoded(
                    dim as int,
                    ints_as_words(data@),
                    data@.len() / (dim as nat),
                )
            },
            Err(e) => match matrix_error(dim as int, data@.len() as int) {
                Some(f) => e == DatasetError::Vector(f),
                None => false,
            },
        },
{
    let mut words: Vec<u32> = Vec::with_capacity(data.len());
    let mut i: usize = 0;
    while i < data.len()
        invariant
            i <= data@.len(),
            words@ == ints_as_words(data@).take(i as int),
        decreases data@.len() - i,
    {
        words.push(to_word(data[i]));
        i += 1;
        proof {
            assert(words@ =~= ints_as_words(data@).take(i as int));
        }
    }
    proof {
        assert(words@ =~= ints_as_words(data@));
    }
    write_records(dim, words.as_slice())
}

/// Where a record stands in an encoded file: all records are of the same size, one after the other,
/// each with its dimension before its values.
pub proof fn lemma_encoded(dim: int, flat: Seq<u32>, n: nat, i: int)
    requires
        1 <= dim <= u32::MAX,
        0 <= i < n,
        n * dim <= flat.len(),
    ensures
        encoded(dim, flat, n).len() == n * stride(dim),
        0 <= i * stride(dim),
        i * stride(dim) + stride(dim) <= n * stride(dim),
        encoded(dim, flat, n).subrange(i * stride(dim), i * stride(dim) + 4) == le32(dim as u32),
        encoded(dim, flat, n).subrange(i * stride(dim) + 4, i * stride(dim) + stride(dim))
            == word_bytes(row(flat, dim, i)),
    decreases n,
{
    let t = stride(dim);
    let earlier = encoded(dim, flat, (n - 1) as nat);
    let last = row(flat, dim, n - 1);
    bytes::lemma_le32(dim as u32, Seq::empty());
    bytes::lemma_words_round_trip(last);
    lemma_row_bounds(n - 1, dim, n as int, flat.len() as int);
    assert((n - 1) * t + t == n * t) by (nonlinear_arith);
    assert((n - 1) * dim <= n * dim) by (nonlinear_arith)
        requires
            dim >= 1,
    ;
    assert(0 <= i * t && i * t + t <= n * t) by (nonlinear_arith)
        requires
            0 <= i < n,
            t >= 0,
    ;
    if n == 1 {
        assert(i == 0);
        assert(0 * t == 0);
        assert(earlier.len() == (n - 1) * t);
    } else {
        lemma_encoded(dim, flat, (n - 1) as nat, if i < n - 1 {
            i
        } else {
            0
        });
    }
    let whole = encoded(dim, flat, n);
    if i == n - 1 {
        assert(whole.subrange(i * t, i * t + 4) =~= le32(dim as u32));
        assert(whole.subrange(i * t + 4, i * t + t) =~= word_bytes(last));
    } else {
        assert(i * t + t <= (n - 1) * t) by (nonlinear_arith)
            requires
                i < n - 1,
                t >= 0,
        ;
        assert(whole.subrange(i * t, i * t + 4) =~= earlier.subrange(i * t, i * t + 4));
        assert(whole.subrange(i * t + 4, i * t + t) =~= earlier.subrange(i * t + 4, i * t + t));
    }
}

proof fn lemma_words_read_back(dim: int, flat: Seq<u32>, n: nat, all: nat)
    requires
        1 <= dim <= u32::MAX,
        n <= all,
        all * dim == flat.len(),
    ensures
        words_upto(encoded(dim, flat, all), dim, n) == flat.take(n * dim),
        0 <= n * dim <= flat.len(),
    decreases n,
{
    assert(0 <= n * dim <= all * dim) by (nonlinear_arith)
        requires
            0 <= n <= all,
            dim >= 1,
    ;
    if n == 0 {
        assert(0 * dim == 0);
        assert(flat.take(0) =~= Seq::empty());
    } else {
        lemma_words_read_back(dim, flat, (n - 1) as nat, all);
        lemma_encoded(dim, flat, all, n - 1);
        let last = row(flat, dim, n - 1);
        bytes::lemma_words_round_trip(last);
        lemma_row_bounds(n - 1, dim, all as int, flat.len() as int);
        assert((n - 1) * dim + dim == n * dim) by (nonlinear_arith);
        assert(flat.take(n * dim) =~= flat.take((n - 1) * dim) + last);
    }
}

/// What was written comes back: the dimension and all values, in order. A file without records
/// has no dimension to come back and is refused as empty.
pub proof fn lemma_dataset_round_trip(dim: int, flat: Seq<u32>, n: nat, format: &'static str)
    requires
        dim >= 1,
        dim_error(dim) is None,
        n * dim == flat.len(),
        n >= 1,
    ensures
        records_of(encoded(dim, flat, n), format) == Ok::<(usize, Seq<u32>), DatasetError>(
            (dim as usize, flat),
        ),
{
    let s = encoded(dim, flat, n);
    let check = stray_record(s, dim);
    lemma_encoded(dim, flat, n, 0);
    bytes::lemma_le32(dim as u32, Seq::empty());
    assert(0 * stride(dim) == 0);
    assert(s.take(4) =~= s.subrange(0, 4));
    lemma_exact_division(n as int, stride(dim));
    assert(n * stride(dim) >= stride(dim)) by (nonlinear_arith)
        requires
            n >= 1,
            stride(dim) >= 0,
    ;
    assert forall|i: int| 0 <= i < n implies (#[trigger] check(i)) is None by {
        lemma_encoded(dim, flat, n, i);
    }
    lemma_first_none(n as int, check);
    lemma_words_read_back(dim, flat, n, n);
    assert(flat.take(n * dim) =~= flat);
}

/// Signed values come back as they were.
pub proof fn lemma_ints_round_trip(ints: Seq<i32>)
    ensures
        ints_of(ints_as_words(ints)) == ints,
{
    assert(ints_of(ints_as_words(ints)) =~= ints);
}

/// A flat buffer is a matrix if and only if it divides into rows of between 1 and 4096 values.
pub proof fn lemma_matrix_error(dim: int, len: int)
    requires
        0 <= dim <= usize::MAX,
        0 <= len <= usize::MAX,
    ensures
        matrix_error(dim, len) is None <==> 1 <= dim <= 4096 && len % dim == 0,
        match matrix_error(dim, len) {
            Some(VectorError::ZeroDim) => dim == 0,
            Some(VectorError::DimTooLarge { dim: found, max }) => found == dim && max == 4096 && dim
                > 4096,
            Some(VectorError::RaggedBuffer { len: found, dim: width }) => found == len && width
                == dim && 1 <= dim <= 4096 && len % dim != 0,
            Some(_) => false,
            None => true,
        },
{
}

} // verus!
