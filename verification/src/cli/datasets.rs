//! The datasets that the commands know, and their shapes.

use vstd::prelude::*;

use crate::dataset::IntMatrix;
use crate::error::VectorError;
use crate::hnsw::layer::lemma_exact_division;
use crate::metric::MetricKind;
use crate::text;
use crate::vector_store::{self, lemma_row_bounds, VectorStore};

verus! {

/// Where a dataset's files live, what shape they must have, and which metric it is scored with.
///
/// The counts are checked, not merely printed: a loader that accepted one vector less would
/// invalidate everything measured on top of it.
#[derive(Clone, Copy, Debug, PartialEq, Eq)]
pub struct DatasetSpec {
    pub dir: &'static str,
    pub prefix: &'static str,
    pub dim: usize,
    pub base: usize,
    pub queries: usize,
    pub neighbours: usize,
    pub metric: MetricKind,
    /// The recall in hundredths that a benchmark on this dataset has to reach.
    pub recall_target: Option<u32>,
}

/// What is wrong with what was asked for.
#[derive(Clone, Copy, Debug, PartialEq, Eq, Structural)]
pub enum ArgError {
    /// No dataset of that name.
    UnknownDataset,
    /// A file does not have the shape that the dataset calls for.
    Shape { rows: usize, columns: usize, expected_rows: usize, expected_columns: usize },
    /// `--k` is zero.
    ZeroK,
    /// `--ef` lists no beam size.
    NoBeams,
    /// `--k` or `--ef` is zero.
    ZeroKOrEf,
    /// `--limit` is not between one and the size of the base set.
    LimitOutOfRange { max: usize },
    /// `--queries` is not between one and the number of queries.
    QueriesOutOfRange { max: usize },
    /// `--k` is above the size of the base set.
    KExceedsBase { k: usize, base: usize },
    /// `--warmup` leaves no queries to measure.
    NothingToMeasure,
    /// The published ground truth holds fewer neighbours than asked for.
    TruthTooNarrow { published: usize, k: usize },
    /// `--fsync every:N` without a number.
    PolicyNotANumber,
    /// `--fsync every:0`.
    PolicyZero,
    /// `--fsync` is none of its forms.
    UnknownPolicy,
}

/// The small SIFT set: with ten thousand points a search should be all but exact.
pub open spec fn siftsmall() -> DatasetSpec {
    DatasetSpec {
        dir: "siftsmall",
        prefix: "siftsmall",
        dim: 128,
        base: 10_000,
        queries: 100,
        neighbours: 100,
        metric: MetricKind::L2Squared,
        recall_target: Some(99),
    }
}

/// The SIFT set of a million points.
pub open spec fn sift1m() -> DatasetSpec {
    DatasetSpec {
        dir: "sift",
        prefix: "sift",
        dim: 128,
        base: 1_000_000,
        queries: 10_000,
        neighbours: 100,
        metric: MetricKind::L2Squared,
        recall_target: Some(95),
    }
}

/// The GloVe set, where graph methods separate.
pub open spec fn glove100() -> DatasetSpec {
    DatasetSpec {
        dir: "glove100",
        prefix: "glove100",
        dim: 100,
        base: 1_183_514,
        queries: 10_000,
        neighbours: 100,
        metric: MetricKind::Cosine,
        recall_target: Some(90),
    }
}

/// The dataset that a name stands for.
pub open spec fn named_dataset(name: Seq<char>) -> Option<DatasetSpec> {
    if name == "siftsmall"@ {
        Some(siftsmall())
    } else if name == "sift1m"@ || name == "sift"@ {
        Some(sift1m())
    } else if name == "glove100"@ || name == "glove"@ {
        Some(glove100())
    } else {
        None
    }
}

pub fn spec_for(name: &str) -> (r: Result<DatasetSpec, ArgError>)
    ensures
        match r {
            Ok(spec) => named_dataset(name@) == Some(spec),
            Err(e) => named_dataset(name@) is None && e == ArgError::UnknownDataset,
        },
{
    if text::same(name, "siftsmall") {
        Ok(
            DatasetSpec {
                dir: "siftsmall",
                prefix: "siftsmall",
                dim: 128,
                base: 10_000,
                queries: 100,
                neighbours: 100,
                metric: MetricKind::L2Squared,
                recall_target: Some(99),
            },
        )
    } else if text::same(name, "sift1m") || text::same(name, "sift") {
        Ok(
            DatasetSpec {
                dir: "sift",
                prefix: "sift",
                dim: 128,
                base: 1_000_000,
                queries: 10_000,
                neighbours: 100,
                metric: MetricKind::L2Squared,
                recall_target: Some(95),
            },
        )
    } else if text::same(name, "glove100") || text::same(name, "glove") {
        Ok(
            DatasetSpec {
                dir: "glove100",
                prefix: "glove100",
                dim: 100,
                base: 1_183_514,
                queries: 10_000,
                neighbours: 100,
                metric: MetricKind::Cosine,
                recall_target: Some(90),
            },
        )
    } else {
        Err(ArgError::UnknownDataset)
    }
}

/// Checks the shape of a file.
pub fn check_shape(
    rows: usize,
    columns: usize,
    expected_rows: usize,
    expected_columns: usize,
) -> (r: Result<(), ArgError>)
    ensures
        match r {
            Ok(_) => rows == expected_rows && columns == expected_columns,
            Err(e) => {
                &&& rows != expected_rows || columns != expected_columns
                &&& e == (ArgError::Shape { rows, columns, expected_rows, expected_columns })
            },
        },
{
    if rows != expected_rows || columns != expected_columns {
        return Err(ArgError::Shape { rows, columns, expected_rows, expected_columns });
    }
    Ok(())
}

/// The first `count` vectors of a store.
pub fn take_vectors<'a>(store: &VectorStore, count: usize) -> (r: Result<VectorStore<'a>, VectorError>)
    requires
        store.wf(),
        count <= store.all().len(),
    ensures
        match r {
            Ok(taken) => {
                &&& vector_store::finite_error(
                    store.flat().take(count * store.width()),
                    store.width() as int,
                    0,
                ) is None
                &&& taken.wf()
                &&& taken.width() == store.width()
                &&& taken.all() == store.all().take(count as int)
                &&& !taken.reads_mapping()
            },
            Err(e) => vector_store::finite_error(
                store.flat().take(count * store.width()),
                store.width() as int,
                0,
            ) == Some(e),
        },
{
    let dim: usize = store.dim();
    let ghost flat = store.flat();
    let mut data: Vec<u32> = Vec::new();
    proof {
        store.lemma_wf();
        assert(0 * dim == 0);
        assert(flat.take(0) =~= data@);
    }
    let mut i: usize = 0;
    while i < count
        invariant
            i <= count,
            store.wf(),
            dim == store.width(),
            dim >= 1,
            flat == store.flat(),
            count <= store.all().len(),
            flat.len() == store.all().len() * dim,
            data@ == flat.take(i * dim),
        decreases count - i,
    {
        data.extend_from_slice(store.get(i));
        proof {
            store.lemma_wf();
            lemma_row_bounds(i as int, dim as int, store.all().len() as int, flat.len() as int);
            assert((i + 1) * dim == i * dim + dim) by (nonlinear_arith);
            assert(data@ =~= flat.take((i + 1) * dim));
        }
        i += 1;
    }
    proof {
        assert(count * dim <= flat.len()) by (nonlinear_arith)
            requires
                count <= store.all().len(),
                flat.len() == store.all().len() * dim,
                dim >= 1,
        ;
        lemma_exact_division(count as int, dim as int);
    }
    match VectorStore::from_flat(dim, data) {
        Err(e) => Err(e),
        Ok(taken) => {
            proof {
                taken.lemma_wf();
                assert forall|k: int| 0 <= k < count implies taken.all()[k] == store.all()[k] by {
                    lemma_row_bounds(k, dim as int, count as int, count * dim);
                    assert(taken.all()[k] =~= store.all()[k]);
                }
                assert(taken.all() =~= store.all().take(count as int));
            }
            Ok(taken)
        },
    }
}

/// The first `count` rows of a matrix.
pub fn take_rows(matrix: &IntMatrix, count: usize) -> (r: Result<IntMatrix, VectorError>)
    requires
        matrix.wf(),
        count <= matrix@.len(),
    ensures
        match r {
            Ok(taken) => {
                &&& taken.wf()
                &&& taken.width() == matrix.width()
                &&& taken@ == matrix@.take(count as int)
            },
            Err(e) => false,
        },
{
    let dim: usize = matrix.dim();
    let ghost flat = matrix.flat();
    let total: usize = matrix.as_slice().len();
    proof {
        matrix.lemma_wf();
        assert(count * dim <= total) by (nonlinear_arith)
            requires
                count <= matrix@.len(),
                total == matrix@.len() * dim,
                dim >= 1,
        ;
        assert(0 <= count * dim) by (nonlinear_arith)
            requires
                0 <= count,
                0 <= dim,
        ;
        lemma_exact_division(count as int, dim as int);
    }
    let kept = vstd::slice::slice_to_vec(
        vstd::slice::slice_subrange(matrix.as_slice(), 0, count * dim),
    );
    match IntMatrix::new(dim, kept) {
        Err(e) => Err(e),
        Ok(taken) => {
            proof {
                taken.lemma_wf();
                assert forall|k: int| 0 <= k < count implies taken@[k] == matrix@[k] by {
                    lemma_row_bounds(k, dim as int, count as int, count * dim);
                    assert(taken@[k] =~= matrix@[k]);
                }
                assert(taken@ =~= matrix@.take(count as int));
            }
            Ok(taken)
        },
    }
}

/// Why a number of queries cannot be taken, if it cannot.
pub open spec fn queries_error(asked: Option<usize>, available: usize) -> Option<ArgError> {
    match asked {
        Some(n) => if n == 0 || n > available {
            Some(ArgError::QueriesOutOfRange { max: available })
        } else {
            None
        },
        None => None,
    }
}

/// Why a base set cannot be limited as asked, if it cannot.
pub open spec fn limit_error(asked: Option<usize>, available: usize) -> Option<ArgError> {
    match asked {
        Some(n) => if n == 0 || n > available {
            Some(ArgError::LimitOutOfRange { max: available })
        } else {
            None
        },
        None => None,
    }
}

/// Checks a number of queries to take.
pub fn check_queries(asked: Option<usize>, available: usize) -> (r: Result<(), ArgError>)
    ensures
        match r {
            Ok(_) => queries_error(asked, available) is None,
            Err(e) => queries_error(asked, available) == Some(e),
        },
{
    if let Some(n) = asked {
        if n == 0 || n > available {
            return Err(ArgError::QueriesOutOfRange { max: available });
        }
    }
    Ok(())
}

/// Checks a limit on the base set.
pub fn check_limit(asked: Option<usize>, available: usize) -> (r: Result<(), ArgError>)
    ensures
        match r {
            Ok(_) => limit_error(asked, available) is None,
            Err(e) => limit_error(asked, available) == Some(e),
        },
{
    if let Some(n) = asked {
        if n == 0 || n > available {
            return Err(ArgError::LimitOutOfRange { max: available });
        }
    }
    Ok(())
}

/// The five names that stand for a dataset, and the shape of each: how many components its vectors
/// have, how many vectors, queries and neighbours per query there are, and how it is scored.
pub proof fn lemma_named_dataset(name: Seq<char>)
    ensures
        named_dataset(name) is Some <==> name == "siftsmall"@ || name == "sift1m"@ || name
            == "sift"@ || name == "glove100"@ || name == "glove"@,
        name == "siftsmall"@ ==> {
            &&& named_dataset(name) matches Some(d)
            &&& d.dim == 128 && d.base == 10_000 && d.queries == 100 && d.neighbours == 100
            &&& d.metric == MetricKind::L2Squared && d.recall_target == Some(99u32)
            &&& d.dir == "siftsmall" && d.prefix == "siftsmall"
        },
        name == "sift1m"@ || name == "sift"@ ==> {
            &&& named_dataset(name) matches Some(d)
            &&& d.dim == 128 && d.base == 1_000_000 && d.queries == 10_000 && d.neighbours == 100
            &&& d.metric == MetricKind::L2Squared && d.recall_target == Some(95u32)
            &&& d.dir == "sift" && d.prefix == "sift"
        },
        name == "glove100"@ || name == "glove"@ ==> {
            &&& named_dataset(name) matches Some(d)
            &&& d.dim == 100 && d.base == 1_183_514 && d.queries == 10_000 && d.neighbours == 100
            &&& d.metric == MetricKind::Cosine && d.recall_target == Some(90u32)
            &&& d.dir == "glove100" && d.prefix == "glove100"
        },
{
    reveal_strlit("siftsmall");
    reveal_strlit("sift1m");
    reveal_strlit("sift");
    reveal_strlit("glove100");
    reveal_strlit("glove");
    assert("siftsmall"@.len() == 9 && "sift1m"@.len() == 6 && "sift"@.len() == 4
        && "glove100"@.len() == 8 && "glove"@.len() == 5);
}

/// A number that is asked for is taken if and only if there are as many, and it is not zero; without
/// one, everything is.
pub proof fn lemma_asked(asked: Option<usize>, available: usize)
    ensures
        limit_error(asked, available) is None <==> (asked matches Some(n) ==> 1 <= n <= available),
        limit_error(asked, available) is Some ==> limit_error(asked, available) == Some(
            ArgError::LimitOutOfRange { max: available },
        ),
        queries_error(asked, available) is None <==> (asked matches Some(n) ==> 1 <= n
            <= available),
        queries_error(asked, available) is Some ==> queries_error(asked, available) == Some(
            ArgError::QueriesOutOfRange { max: available },
        ),
{
}

} // verus!
