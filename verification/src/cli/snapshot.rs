//! Writing an index to disk, loading it back, and showing that nothing changed.

use vstd::prelude::*;

use crate::candidate::Candidate;
use crate::cli::datasets::{check_limit, limit_error, ArgError};
use crate::cli::durable::build_params;
use crate::error::IndexError;
use crate::hnsw::graph::answer;
use crate::hnsw::index::HnswIndex;
use crate::hnsw::params::HnswParams;
use crate::hnsw::select::SelectionPolicy;
use crate::hnsw::stats::DistanceCounter;
use crate::metric::{stands_for, Metric};
use crate::vector_store::VectorStore;

verus! {

/// What a snapshot comparison is asked to do.
#[derive(Clone, Copy, Debug, PartialEq, Eq)]
pub struct SnapshotArgs {
    /// Connections per node per layer.
    pub m: usize,
    /// Candidate list size during construction.
    pub ef_construction: usize,
    /// Seed for layer assignment.
    pub seed: u64,
    /// Index only so many base vectors.
    pub limit: Option<usize>,
    /// Queries used for the comparison.
    pub queries: usize,
    /// Neighbours per query.
    pub k: usize,
    /// Beam size of the comparison queries.
    pub ef: usize,
}

/// Why a comparison cannot be made as asked, if it cannot.
pub open spec fn snapshot_error(
    args: SnapshotArgs,
    base: usize,
    queries: usize,
) -> Option<ArgError> {
    if limit_error(args.limit, base) is Some {
        limit_error(args.limit, base)
    } else if args.queries == 0 || args.queries > queries {
        Some(ArgError::QueriesOutOfRange { max: queries })
    } else if args.k == 0 || args.ef == 0 {
        Some(ArgError::ZeroKOrEf)
    } else {
        None
    }
}

/// What a comparison can be made with: a base set that is neither empty nor more than there is, as
/// many queries as there are at most and at least one, and neither `k` nor `ef` zero.
pub proof fn lemma_snapshot_error(args: SnapshotArgs, base: usize, queries: usize)
    ensures
        snapshot_error(args, base, queries) is None <==> {
            &&& args.limit matches Some(n) ==> 1 <= n <= base
            &&& 1 <= args.queries <= queries
            &&& args.k >= 1
            &&& args.ef >= 1
        },
        match snapshot_error(args, base, queries) {
            None => true,
            Some(ArgError::LimitOutOfRange { max }) => {
                &&& max == base
                &&& args.limit matches Some(n)
                &&& !(1 <= n <= base)
            },
            Some(ArgError::QueriesOutOfRange { max }) => max == queries && !(1 <= args.queries
                <= queries),
            Some(ArgError::ZeroKOrEf) => args.k == 0 || args.ef == 0,
            _ => false,
        },
{
}

impl SnapshotArgs {
    /// Checks what was asked for against the sizes of the base set and of the query set.
    pub fn check(&self, base: usize, queries: usize) -> (r: Result<(), ArgError>)
        ensures
            match r {
                Ok(_) => snapshot_error(*self, base, queries) is None,
                Err(e) => snapshot_error(*self, base, queries) == Some(e),
            },
    {
        match check_limit(self.limit, base) {
            Err(e) => {
                return Err(e);
            },
            Ok(_) => {},
        }
        if self.queries == 0 || self.queries > queries {
            return Err(ArgError::QueriesOutOfRange { max: queries });
        }
        if self.k == 0 || self.ef == 0 {
            return Err(ArgError::ZeroKOrEf);
        }
        Ok(())
    }

    /// The parameters to build with.
    pub fn params(&self) -> (r: Result<HnswParams, IndexError>)
        ensures
            HnswParams::checked(
                r,
                self.m as int,
                2 * self.m,
                self.ef_construction as int,
                self.seed,
                SelectionPolicy { heuristic: true, keep_pruned: true },
            ),
    {
        build_params(
            self.m,
            self.ef_construction,
            self.seed,
            SelectionPolicy { heuristic: true, keep_pruned: true },
        )
    }
}

/// Every query's whole result list.
pub fn answers<M: Metric>(index: &HnswIndex, queries: &VectorStore, k: usize, ef: usize) -> (r:
    Result<Vec<Vec<Candidate>>, IndexError>)
    requires
        index.searchable(),
        stands_for::<M>(index.kind()),
        queries.wf(),
    ensures
        match r {
            Ok(lists) => {
                &&& lists@.len() == queries.all().len()
                &&& queries.all().len() > 0 ==> queries.width() == index.width()
                &&& forall|q: int|
                    0 <= q < lists@.len() ==> (#[trigger] lists@[q])@ == answer::<M>(
                        index@,
                        queries.all()[q],
                        k as nat,
                        ef as nat,
                    )
            },
            Err(e) => {
                &&& queries.all().len() > 0
                &&& queries.width() != index.width()
                &&& e == (IndexError::DimMismatch {
                    expected: index.width() as usize,
                    found: queries.width() as usize,
                })
            },
        },
{
    let mut searcher = index.searcher();
    let mut counter = DistanceCounter::new();
    let count: usize = queries.len();
    let mut lists: Vec<Vec<Candidate>> = Vec::with_capacity(count);
    let mut q: usize = 0;
    while q < count
        invariant
            q <= count,
            index.searchable(),
            stands_for::<M>(index.kind()),
            queries.wf(),
            searcher.wf(),
            count == queries.all().len(),
            lists@.len() == q,
            q > 0 ==> queries.width() == index.width(),
            forall|j: int|
                0 <= j < q ==> (#[trigger] lists@[j])@ == answer::<M>(
                    index@,
                    queries.all()[j],
                    k as nat,
                    ef as nat,
                ),
        decreases count - q,
    {
        match index.search::<M>(&mut searcher, queries.get(q), k, ef, &mut counter) {
            Err(e) => {
                return Err(e);
            },
            Ok(found) => {
                lists.push(found);
            },
        }
        q += 1;
    }
    Ok(lists)
}

/// How two sets of answers differ.
#[derive(Clone, Copy, Debug, PartialEq, Eq, Structural)]
pub enum Change {
    /// Another number of queries was answered.
    Queries { before: usize, after: usize },
    /// A query has another number of neighbours.
    Neighbours { query: usize, before: usize, after: usize },
    /// A query has another neighbour at some rank.
    Rank { query: usize, rank: usize, before: Candidate, after: Candidate },
}

/// The first rank from `from` on at which two lists differ.
pub open spec fn rank_apart(a: Seq<Candidate>, b: Seq<Candidate>, from: nat) -> Option<nat>
    decreases a.len() - from,
{
    if from >= a.len() {
        None
    } else if a[from as int] != b[from as int] {
        Some(from)
    } else {
        rank_apart(a, b, from + 1)
    }
}

/// The first query from `from` on whose answer changed, and how.
pub open spec fn change_from(
    before: Seq<Seq<Candidate>>,
    after: Seq<Seq<Candidate>>,
    from: nat,
) -> Option<Change>
    decreases before.len() - from,
{
    if from >= before.len() {
        None
    } else {
        let a = before[from as int];
        let b = after[from as int];
        if a.len() != b.len() {
            Some(
                Change::Neighbours {
                    query: from as usize,
                    before: a.len() as usize,
                    after: b.len() as usize,
                },
            )
        } else {
            match rank_apart(a, b, 0) {
                Some(rank) => Some(
                    Change::Rank {
                        query: from as usize,
                        rank: rank as usize,
                        before: a[rank as int],
                        after: b[rank as int],
                    },
                ),
                None => change_from(before, after, from + 1),
            }
        }
    }
}

/// How answers changed, if they did.
pub open spec fn change(before: Seq<Seq<Candidate>>, after: Seq<Seq<Candidate>>) -> Option<Change> {
    if before.len() != after.len() {
        Some(Change::Queries { before: before.len() as usize, after: after.len() as usize })
    } else {
        change_from(before, after, 0)
    }
}

pub open spec fn lists_of(lists: Seq<Vec<Candidate>>) -> Seq<Seq<Candidate>> {
    Seq::new(lists.len(), |i: int| lists[i]@)
}

/// The first query whose result list changed, and how.
pub fn first_difference(before: &Vec<Vec<Candidate>>, after: &Vec<Vec<Candidate>>) -> (r: Option<
    Change,
>)
    ensures
        r == change(lists_of(before@), lists_of(after@)),
{
    if before.len() != after.len() {
        return Some(Change::Queries { before: before.len(), after: after.len() });
    }
    let ghost x = lists_of(before@);
    let ghost y = lists_of(after@);
    let mut query: usize = 0;
    while query < before.len()
        invariant
            query <= before@.len(),
            before@.len() == after@.len(),
            x == lists_of(before@),
            y == lists_of(after@),
            change(x, y) == change_from(x, y, query as nat),
        decreases before@.len() - query,
    {
        let a = &before[query];
        let b = &after[query];
        if a.len() != b.len() {
            return Some(Change::Neighbours { query, before: a.len(), after: b.len() });
        }
        let mut rank: usize = 0;
        while rank < a.len()
            invariant
                rank <= a@.len(),
                a@.len() == b@.len(),
                query < before@.len(),
                before@.len() == after@.len(),
                x == lists_of(before@),
                y == lists_of(after@),
                x[query as int] == a@,
                y[query as int] == b@,
                change(x, y) == change_from(x, y, query as nat),
                rank_apart(a@, b@, 0) == rank_apart(a@, b@, rank as nat),
            decreases a@.len() - rank,
        {
            if a[rank] != b[rank] {
                return Some(Change::Rank { query, rank, before: a[rank], after: b[rank] });
            }
            rank += 1;
        }
        query += 1;
    }
    None
}

/// The change that is reported is the first: another number of queries, or else at the first query
/// with another answer, another number of neighbours, or else the first rank that differs, with what
/// is there before and after.
pub proof fn lemma_first_change(before: Seq<Seq<Candidate>>, after: Seq<Seq<Candidate>>)
    requires
        before.len() <= usize::MAX,
        after.len() <= usize::MAX,
        forall|q: int| 0 <= q < before.len() ==> (#[trigger] before[q]).len() <= usize::MAX,
        forall|q: int| 0 <= q < after.len() ==> (#[trigger] after[q]).len() <= usize::MAX,
    ensures
        match change(before, after) {
            None => before == after,
            Some(Change::Queries { before: b, after: a }) => b == before.len() && a == after.len()
                && b != a,
            Some(Change::Neighbours { query, before: b, after: a }) => {
                &&& before.len() == after.len()
                &&& query < before.len()
                &&& b == before[query as int].len()
                &&& a == after[query as int].len()
                &&& b != a
                &&& forall|q: int| 0 <= q < query ==> #[trigger] before[q] == after[q]
            },
            Some(Change::Rank { query, rank, before: b, after: a }) => {
                &&& before.len() == after.len()
                &&& query < before.len()
                &&& before[query as int].len() == after[query as int].len()
                &&& rank < before[query as int].len()
                &&& b == before[query as int][rank as int]
                &&& a == after[query as int][rank as int]
                &&& b != a
                &&& forall|r: int|
                    0 <= r < rank ==> #[trigger] before[query as int][r] == after[query as int][r]
                &&& forall|q: int| 0 <= q < query ==> #[trigger] before[q] == after[q]
            },
        },
{
    lemma_no_change(before, after);
    if before.len() == after.len() {
        lemma_change_from(before, after, 0);
    }
}

proof fn lemma_change_from(before: Seq<Seq<Candidate>>, after: Seq<Seq<Candidate>>, from: nat)
    requires
        before.len() == after.len(),
        before.len() <= usize::MAX,
        forall|q: int| 0 <= q < before.len() ==> (#[trigger] before[q]).len() <= usize::MAX,
        forall|q: int| 0 <= q < after.len() ==> (#[trigger] after[q]).len() <= usize::MAX,
    ensures
        match change_from(before, after, from) {
            None => true,
            Some(Change::Queries { .. }) => false,
            Some(Change::Neighbours { query, before: b, after: a }) => {
                &&& from <= query < before.len()
                &&& b == before[query as int].len()
                &&& a == after[query as int].len()
                &&& b != a
                &&& forall|q: int| from <= q < query ==> #[trigger] before[q] == after[q]
            },
            Some(Change::Rank { query, rank, before: b, after: a }) => {
                &&& from <= query < before.len()
                &&& before[query as int].len() == after[query as int].len()
                &&& rank < before[query as int].len()
                &&& b == before[query as int][rank as int]
                &&& a == after[query as int][rank as int]
                &&& b != a
                &&& forall|r: int|
                    0 <= r < rank ==> #[trigger] before[query as int][r] == after[query as int][r]
                &&& forall|q: int| from <= q < query ==> #[trigger] before[q] == after[q]
            },
        },
    decreases before.len() - from,
{
    if from < before.len() {
        let a = before[from as int];
        let b = after[from as int];
        if a.len() == b.len() {
            lemma_rank_apart(a, b, 0);
            if rank_apart(a, b, 0) is None {
                lemma_no_rank_apart(a, b, 0);
                assert(a =~= b);
                lemma_change_from(before, after, from + 1);
            }
        }
    }
}

proof fn lemma_rank_apart(a: Seq<Candidate>, b: Seq<Candidate>, from: nat)
    ensures
        rank_apart(a, b, from) matches Some(rank) ==> {
            &&& from <= rank < a.len()
            &&& a[rank as int] != b[rank as int]
            &&& forall|r: int| from <= r < rank ==> #[trigger] a[r] == b[r]
        },
    decreases a.len() - from,
{
    if from < a.len() && a[from as int] == b[from as int] {
        lemma_rank_apart(a, b, from + 1);
    }
}

/// No change is found just when the answers are the same.
pub proof fn lemma_no_change(before: Seq<Seq<Candidate>>, after: Seq<Seq<Candidate>>)
    ensures
        change(before, after) is None <==> before == after,
{
    if before.len() == after.len() {
        lemma_no_change_from(before, after, 0);
        if change(before, after) is None {
            assert(before =~= after);
        }
    }
}

proof fn lemma_no_change_from(
    before: Seq<Seq<Candidate>>,
    after: Seq<Seq<Candidate>>,
    from: nat,
)
    requires
        before.len() == after.len(),
    ensures
        change_from(before, after, from) is None <==> forall|i: int|
            from <= i < before.len() ==> #[trigger] before[i] == after[i],
    decreases before.len() - from,
{
    if from < before.len() {
        let a = before[from as int];
        let b = after[from as int];
        lemma_no_change_from(before, after, from + 1);
        if a.len() == b.len() {
            lemma_no_rank_apart(a, b, 0);
            if rank_apart(a, b, 0) is None {
                assert(a =~= b);
            }
        }
    }
}

proof fn lemma_no_rank_apart(a: Seq<Candidate>, b: Seq<Candidate>, from: nat)
    requires
        a.len() == b.len(),
    ensures
        rank_apart(a, b, from) is None <==> forall|i: int|
            from <= i < a.len() ==> #[trigger] a[i] == b[i],
    decreases a.len() - from,
{
    if from < a.len() {
        lemma_no_rank_apart(a, b, from + 1);
    }
}

} // verus!
