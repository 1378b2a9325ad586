//! Building an index and measuring how well it answers.
//!
//! Two rules of measurement: the queries that warm the caches are not the ones that are measured,
//! and a limited base set gets fresh ground truth, because the published one describes the whole
//! collection.

use vstd::prelude::*;

use crate::candidate::Candidate;
use crate::cli::datasets::{
    check_limit, check_queries, limit_error, queries_error, ArgError,
};
use crate::cli::durable::build_params;
use crate::dataset::{to_int, word_int};
use crate::error::IndexError;
use crate::first::{first_of, lemma_first_hit};
use crate::hnsw::graph::{inserted, lemma_inserted_appends, lemma_inserted_sound, sound, Graph};
use crate::hnsw::index::{empty_graph, refused_at, HnswIndex};
use crate::hnsw::params::{draws, guarded, lemma_draws_deterministic, HnswParams};
use crate::hnsw::select::SelectionPolicy;
use crate::hnsw::stats::DistanceCounter;
use crate::metric::{stands_for, Metric, MetricKind};
use crate::vector_store::VectorStore;

verus! {

/// What a benchmark is asked to do.
#[derive(Clone, Debug, PartialEq, Eq)]
pub struct BenchArgs {
    /// Connections per node per layer.
    pub m: usize,
    /// Candidate list size during construction.
    pub ef_construction: usize,
    /// Seed for layer assignment.
    pub seed: u64,
    /// Use only so many base vectors.
    pub limit: Option<usize>,
    /// Use only so many queries.
    pub queries: Option<usize>,
    /// Neighbours per query.
    pub k: usize,
    /// Beam sizes to sweep.
    pub ef: Vec<usize>,
    /// Queries that warm the caches.
    pub warmup: usize,
    /// Pick the nearest candidates instead of running the heuristic.
    pub no_heuristic: bool,
    /// Do not refill pruned candidates.
    pub no_keep_pruned: bool,
}

/// The size of a base set after a limit.
pub open spec fn limited(limit: Option<usize>, base: usize) -> usize {
    match limit {
        Some(n) => n,
        None => base,
    }
}

/// Why a benchmark cannot be run as asked, if it cannot.
pub open spec fn bench_error(args: BenchArgs, base: usize, queries: usize) -> Option<ArgError> {
    if args.k == 0 {
        Some(ArgError::ZeroK)
    } else if args.ef@.len() == 0 {
        Some(ArgError::NoBeams)
    } else if limit_error(args.limit, base) is Some {
        limit_error(args.limit, base)
    } else if queries_error(args.queries, queries) is Some {
        queries_error(args.queries, queries)
    } else if args.k > limited(args.limit, base) {
        Some(ArgError::KExceedsBase { k: args.k, base: limited(args.limit, base) })
    } else {
        None
    }
}

impl BenchArgs {
    /// How neighbours are chosen.
    pub fn selection(&self) -> (r: SelectionPolicy)
        ensures
            r.heuristic == !self.no_heuristic,
            r.keep_pruned == !self.no_keep_pruned,
    {
        SelectionPolicy { heuristic: !self.no_heuristic, keep_pruned: !self.no_keep_pruned }
    }

    /// The parameters to build with.
    pub fn params(&self) -> (r: Result<HnswParams, IndexError>)
        ensures
            HnswParams::checked(
                r,
                self.m as int,
                2 * self.m,
                self.ef_construction as int,
                self.seed,
                SelectionPolicy {
                    heuristic: !self.no_heuristic,
                    keep_pruned: !self.no_keep_pruned,
                },
            ),
    {
        build_params(self.m, self.ef_construction, self.seed, self.selection())
    }

    /// Checks what was asked for against the sizes of the base set and of the query set, and tells
    /// whether the ground truth has to be computed anew.
    pub fn check(&self, base: usize, queries: usize) -> (r: Result<bool, ArgError>)
        ensures
            match r {
                Ok(recompute) => {
                    &&& bench_error(*self, base, queries) is None
                    &&& recompute == (limited(self.limit, base) < base)
                },
                Err(e) => bench_error(*self, base, queries) == Some(e),
            },
    {
        if self.k == 0 {
            return Err(ArgError::ZeroK);
        }
        if self.ef.len() == 0 {
            return Err(ArgError::NoBeams);
        }
        match check_limit(self.limit, base) {
            Err(e) => {
                return Err(e);
            },
            Ok(_) => {},
        }
        match check_queries(self.queries, queries) {
            Err(e) => {
                return Err(e);
            },
            Ok(_) => {},
        }
        let size: usize = match self.limit {
            Some(n) => n,
            None => base,
        };
        if self.k > size {
            return Err(ArgError::KExceedsBase { k: self.k, base: size });
        }
        Ok(size < base)
    }
}

/// Checks that a published ground truth is wide enough.
pub fn check_truth(published: usize, k: usize) -> (r: Result<(), ArgError>)
    ensures
        match r {
            Ok(_) => published >= k,
            Err(e) => published < k && e == (ArgError::TruthTooNarrow { published, k }),
        },
{
    if published < k {
        return Err(ArgError::TruthTooNarrow { published, k });
    }
    Ok(())
}

/// How many of the queries warm the caches and how many are measured. The former come from the
/// tail, at most half of them, so that they are never among the latter.
pub fn split_queries(warmup: usize, queries: usize) -> (r: Result<(usize, usize), ArgError>)
    ensures
        match r {
            Ok((warm, measured)) => {
                &&& warm == if warmup < queries / 2 {
                    warmup
                } else {
                    queries / 2
                }
                &&& warm + measured == queries
                &&& measured >= 1
            },
            Err(e) => queries == 0 && e == ArgError::NothingToMeasure,
        },
{
    let warm: usize = if warmup < queries / 2 {
        warmup
    } else {
        queries / 2
    };
    let measured: usize = queries - warm;
    if measured == 0 {
        return Err(ArgError::NothingToMeasure);
    }
    Ok((warm, measured))
}

/// The graph after inserting the first `n` vectors at the given levels.
pub open spec fn built<M: Metric>(
    params: HnswParams,
    vecs: Seq<Seq<u32>>,
    levels: Seq<usize>,
    n: nat,
) -> Graph
    decreases n,
{
    if n == 0 {
        empty_graph()
    } else {
        inserted::<M>(
            built::<M>(params, vecs, levels, (n - 1) as nat),
            params,
            vecs[n - 1],
            guarded(levels[n - 1]) as nat,
        )
    }
}

/// Levels that the generator of these parameters draws one after the other.
pub open spec fn drawn_levels<F: Fn(u64) -> usize>(
    params: HnswParams,
    scale: F,
    levels: Seq<usize>,
) -> bool {
    forall|i: int|
        0 <= i < levels.len() ==> draws(
            (params.origin(), params.links() == 1, i as u64),
            scale,
            #[trigger] levels[i],
        )
}

/// Looks at vector `i` of a set that is inserted in order.
pub open spec fn refused_vector(vecs: Seq<Seq<u32>>, dim: nat) -> spec_fn(int) -> Option<
    IndexError,
> {
    |i: int| refused_at(i as nat, dim, vecs[i])
}

proof fn lemma_built_size<M: Metric>(
    params: HnswParams,
    vecs: Seq<Seq<u32>>,
    levels: Seq<usize>,
    n: nat,
)
    ensures
        built::<M>(params, vecs, levels, n).vecs.len() == n,
    decreases n,
{
    if n > 0 {
        lemma_built_size::<M>(params, vecs, levels, (n - 1) as nat);
        lemma_inserted_appends::<M>(
            built::<M>(params, vecs, levels, (n - 1) as nat),
            params,
            vecs[n - 1],
            guarded(levels[n - 1]) as nat,
        );
    }
}

/// What is built one vector after the other is a sound graph of those vectors at those levels. Its
/// topmost layer is the highest of the levels, and its entry point is the first vector that has
/// it.
pub proof fn lemma_built<M: Metric>(
    params: HnswParams,
    vecs: Seq<Seq<u32>>,
    levels: Seq<usize>,
    n: nat,
)
    requires
        params.wf(),
        n <= vecs.len(),
        n <= levels.len(),
        n <= u32::MAX,
    ensures
        ({
            let g = built::<M>(params, vecs, levels, n);
            &&& sound(g, params)
            &&& g.vecs == vecs.take(n as int)
            &&& g.levels.len() == n
            &&& forall|i: int| 0 <= i < n ==> #[trigger] g.levels[i] == guarded(levels[i])
            &&& g.layers.len() == g.top + 1
            &&& n == 0 ==> g.entry is None && g.top == 0
            &&& n > 0 ==> match g.entry {
                None => false,
                Some(entry) => {
                    &&& entry < n
                    &&& guarded(levels[entry as int]) == g.top
                    &&& forall|i: int| 0 <= i < n ==> guarded(#[trigger] levels[i]) <= g.top
                    &&& forall|i: int| 0 <= i < entry ==> guarded(#[trigger] levels[i]) < g.top
                },
            }
        }),
    decreases n,
{
    if n == 0 {
        assert(vecs.take(0) =~= Seq::empty());
    } else {
        let before = built::<M>(params, vecs, levels, (n - 1) as nat);
        let level = guarded(levels[n - 1]) as nat;
        lemma_built::<M>(params, vecs, levels, (n - 1) as nat);
        lemma_inserted_appends::<M>(before, params, vecs[n - 1], level);
        lemma_inserted_sound::<M>(before, params, vecs[n - 1], level);
        assert(vecs.take(n as int) =~= vecs.take(n - 1).push(vecs[n - 1]));
    }
}

/// Levels behind the first `n` have no part in what those build.
proof fn lemma_built_prefix<M: Metric>(
    params: HnswParams,
    vecs: Seq<Seq<u32>>,
    levels: Seq<usize>,
    more: Seq<usize>,
    n: nat,
)
    requires
        n <= levels.len(),
        n <= more.len(),
        forall|i: int| 0 <= i < n ==> levels[i] == more[i],
    ensures
        built::<M>(params, vecs, levels, n) == built::<M>(params, vecs, more, n),
    decreases n,
{
    if n > 0 {
        lemma_built_prefix::<M>(params, vecs, levels, more, (n - 1) as nat);
    }
}

/// Builds an index over all vectors of a store, in order, with levels from the seeded generator.
pub fn build<'a, M: Metric, F: Fn(u64) -> usize>(
    base: &VectorStore,
    metric: MetricKind,
    params: HnswParams,
    scale: &F,
) -> (r: Result<HnswIndex<'a>, IndexError>)
    requires
        base.wf(),
        params.wf(),
        params.base_cap() < usize::MAX,
        stands_for::<M>(metric),
        (base.all().len() + 1) * (params.base_cap() + 1) <= usize::MAX,
        forall|w: u64| call_requires(*scale, (w,)),
    ensures
        match r {
            Ok(index) => {
                &&& first_of(
                    base.all().len() as int,
                    refused_vector(base.all(), base.width()),
                ) is None
                &&& index.valid()
                &&& index.width() == base.width()
                &&& index.kind() == metric
                &&& index.settings() == params
                &&& index.level_state().2 == base.all().len()
                &&& exists|levels: Seq<usize>| #[trigger]
                    drawn_levels(params, *scale, levels) && levels.len() == base.all().len()
                        && index@ == built::<M>(params, base.all(), levels, base.all().len())
            },
            Err(e) => first_of(
                base.all().len() as int,
                refused_vector(base.all(), base.width()),
            ) == Some(e),
        },
{
    let count: usize = base.len();
    let ghost vecs = base.all();
    let ghost check = refused_vector(vecs, base.width());
    proof {
        base.lemma_wf();
        assert(count * (params.base_cap() + 1) <= (count + 1) * (params.base_cap() + 1))
            by (nonlinear_arith);
    }
    let mut index = match HnswIndex::with_capacity(base.dim(), metric, params, count) {
        Err(e) => {
            return Err(e);
        },
        Ok(index) => index,
    };
    let mut searcher = index.searcher();
    let mut counter = DistanceCounter::new();
    let ghost mut levels: Seq<usize> = Seq::empty();
    let mut i: usize = 0;
    while i < count
        invariant
            i <= count,
            base.wf(),
            vecs == base.all(),
            count == vecs.len(),
            count <= u32::MAX,
            check == refused_vector(vecs, base.width()),
            first_of(i as int, check) is None,
            params.wf(),
            (count + 1) * (params.base_cap() + 1) <= usize::MAX,
            forall|w: u64| call_requires(*scale, (w,)),
            index.valid(),
            searcher.wf(),
            index.width() == base.width(),
            index.kind() == metric,
            stands_for::<M>(metric),
            index.settings() == params,
            index.level_state() == (params.origin(), params.links() == 1, i as u64),
            levels.len() == i,
            drawn_levels(params, *scale, levels),
            index@ == built::<M>(params, vecs, levels, i as nat),
        decreases count - i,
    {
        proof {
            lemma_built_size::<M>(params, vecs, levels, i as nat);
            assert((i + 1) * (params.base_cap() + 1) <= (count + 1) * (params.base_cap() + 1))
                by (nonlinear_arith)
                requires
                    i < count,
            ;
        }
        let ghost g = index@;
        let ghost state = index.level_state();
        match index.insert::<M, F>(&mut searcher, base.get(i), &mut counter, scale) {
            Err(e) => {
                proof {
                    lemma_first_hit(count as int, check, i as int);
                }
                return Err(e);
            },
            Ok(_) => {},
        }
        proof {
            let level = choose|level: usize| #[trigger]
                draws(state, *scale, level) && index@ == inserted::<M>(
                    g,
                    params,
                    vecs[i as int],
                    guarded(level) as nat,
                );
            let more = levels.push(level);
            lemma_built_prefix::<M>(params, vecs, levels, more, i as nat);
            assert forall|k: int| 0 <= k < more.len() implies draws(
                (params.origin(), params.links() == 1, k as u64),
                *scale,
                #[trigger] more[k],
            ) by {
                if k < i {
                    assert(more[k] == levels[k]);
                }
            }
            levels = more;
        }
        i += 1;
    }
    proof {
        assert(drawn_levels(params, *scale, levels));
    }
    Ok(index)
}

/// Building twice gives the same index: with a scale whose result depends on the word alone, the
/// parameters and the vectors determine the graph.
pub proof fn lemma_build_is_deterministic<M: Metric, F: Fn(u64) -> usize>(
    params: HnswParams,
    vecs: Seq<Seq<u32>>,
    scale: F,
    one: Seq<usize>,
    two: Seq<usize>,
)
    requires
        drawn_levels(params, scale, one),
        drawn_levels(params, scale, two),
        one.len() == vecs.len(),
        two.len() == vecs.len(),
        forall|w: u64, a: usize, b: usize|
            call_ensures(scale, (w,), a) && call_ensures(scale, (w,), b) ==> a == b,
    ensures
        one == two,
        built::<M>(params, vecs, one, vecs.len()) == built::<M>(params, vecs, two, vecs.len()),
{
    assert forall|i: int| 0 <= i < one.len() implies one[i] == two[i] by {
        lemma_draws_deterministic(
            (params.origin(), params.links() == 1, i as u64),
            scale,
            one[i],
            two[i],
        );
    }
    assert(one =~= two);
}

/// How many of the first `n` candidates a list of ids names.
pub open spec fn named(found: Seq<Candidate>, expected: Seq<i32>, n: nat) -> nat
    decreases n,
{
    if n == 0 {
        0
    } else {
        named(found, expected, (n - 1) as nat) + if expected.contains(word_int(found[n - 1].id)) {
            1nat
        } else {
            0nat
        }
    }
}

/// How many of the candidates that a search found are among the expected ones.
pub fn hits(found: &[Candidate], expected: &[i32]) -> (r: usize)
    ensures
        r == named(found@, expected@, found@.len()),
        r <= found@.len(),
{
    let mut count: usize = 0;
    let mut i: usize = 0;
    while i < found.len()
        invariant
            i <= found@.len(),
            count == named(found@, expected@, i as nat),
            count <= i,
        decreases found@.len() - i,
    {
        let id: i32 = to_int(found[i].id);
        let mut seen = false;
        let mut j: usize = 0;
        while j < expected.len() && !seen
            invariant
                j <= expected@.len(),
                seen <==> exists|k: int| 0 <= k < j && expected@[k] == id,
            decreases expected@.len() - j,
        {
            if expected[j] == id {
                seen = true;
            }
            j += 1;
        }
        proof {
            if expected@.contains(id) && !seen {
                let k = expected@.index_of(id);
                assert(expected@[k] == id);
            }
        }
        if seen {
            count += 1;
        }
        i += 1;
    }
    count
}

/// Hits are counted by position: there are as many as there are candidates whose id stands
/// somewhere in the expected list.
pub proof fn lemma_hits_counted(found: Seq<Candidate>, expected: Seq<i32>, n: nat)
    requires
        n <= found.len(),
    ensures
        ({
            let hit = Set::new(
                |i: int|
                    0 <= i < n && exists|j: int|
                        0 <= j < expected.len() && #[trigger] expected[j] == word_int(found[i].id),
            );
            &&& hit.finite()
            &&& named(found, expected, n) == hit.len()
        }),
    decreases n,
{
    let hit = Set::new(
        |i: int|
            0 <= i < n && exists|j: int|
                0 <= j < expected.len() && #[trigger] expected[j] == word_int(found[i].id),
    );
    if n == 0 {
        assert(hit =~= Set::empty());
    } else {
        let m = (n - 1) as nat;
        let fewer = Set::new(
            |i: int|
                0 <= i < m && exists|j: int|
                    0 <= j < expected.len() && #[trigger] expected[j] == word_int(found[i].id),
        );
        lemma_hits_counted(found, expected, m);
        let id = word_int(found[n - 1].id);
        if expected.contains(id) {
            let j = expected.index_of(id);
            assert(expected[j] == id);
            assert(hit =~= fewer.insert(n - 1));
        } else {
            assert(hit =~= fewer) by {
                assert forall|i: int| hit.contains(i) implies fewer.contains(i) by {
                    if i == n - 1 {
                        let j = choose|j: int| 0 <= j < expected.len() && expected[j] == id;
                        assert(expected.contains(expected[j]));
                    }
                }
            }
        }
    }
}

/// The order of the expected list does not matter, nor how often it names an id: lists that name
/// the same ids give the same number of hits.
pub proof fn lemma_expected_order_does_not_show(
    found: Seq<Candidate>,
    expected: Seq<i32>,
    other: Seq<i32>,
    n: nat,
)
    requires
        n <= found.len(),
        forall|id: i32| #[trigger] expected.contains(id) <==> other.contains(id),
    ensures
        named(found, expected, n) == named(found, other, n),
    decreases n,
{
    if n > 0 {
        lemma_expected_order_does_not_show(found, expected, other, (n - 1) as nat);
        let id = word_int(found[n - 1].id);
        assert(expected.contains(id) <==> other.contains(id));
    }
}

/// No search has more hits than candidates, and it has as many just when every one of them is
/// expected.
pub proof fn lemma_hits_bounded(found: Seq<Candidate>, expected: Seq<i32>, n: nat)
    requires
        n <= found.len(),
    ensures
        named(found, expected, n) <= n,
        named(found, expected, n) == n <==> forall|i: int|
            0 <= i < n ==> expected.contains(word_int(#[trigger] found[i].id)),
    decreases n,
{
    if n > 0 {
        lemma_hits_bounded(found, expected, (n - 1) as nat);
    }
}

/// Nearest-rank percentile of values in rising order: the smallest that at least `percent` of a
/// hundred of them do not exceed. Zero if there are none.
pub fn percentile(sorted: &[u64], percent: u32) -> (r: u64)
    requires
        1 <= percent <= 100,
        sorted@.len() * 100 <= usize::MAX,
    ensures
        sorted@.len() == 0 ==> r == 0,
        sorted@.len() > 0 ==> r == sorted@[nearest_rank(sorted@.len() as int, percent as int) - 1],
{
    let n: usize = sorted.len();
    if n == 0 {
        return 0;
    }
    proof {
        lemma_nearest_rank(n as int, percent as int);
        assert(n * percent <= n * 100) by (nonlinear_arith)
            requires
                percent <= 100,
                n >= 0,
        ;
    }
    let product: usize = n * (percent as usize);
    let rank: usize = product / 100 + if product % 100 == 0 {
        0
    } else {
        1
    };
    sorted[rank - 1]
}

/// The smallest whole number that is at least `percent` hundredths of `n`.
pub open spec fn nearest_rank(n: int, percent: int) -> int {
    (n * percent) / 100 + if (n * percent) % 100 == 0 {
        0int
    } else {
        1int
    }
}

/// The nearest rank is a rank, and no smaller one has as large a share.
pub proof fn lemma_nearest_rank(n: int, percent: int)
    requires
        n >= 1,
        1 <= percent <= 100,
    ensures
        1 <= nearest_rank(n, percent) <= n,
        100 * nearest_rank(n, percent) >= n * percent,
        100 * (nearest_rank(n, percent) - 1) < n * percent,
{
    assert(1 <= n * percent <= n * 100) by (nonlinear_arith)
        requires
            n >= 1,
            1 <= percent <= 100,
    ;
}

/// The percentile is the smallest of the values that at least `percent` of a hundred of them do not
/// exceed.
pub proof fn lemma_percentile(sorted: Seq<u64>, percent: int)
    requires
        sorted.len() >= 1,
        1 <= percent <= 100,
        forall|i: int, j: int| 0 <= i < j < sorted.len() ==> #[trigger] sorted[i] <= #[trigger] sorted[j],
    ensures
        ({
            let n = sorted.len() as int;
            let p = sorted[nearest_rank(n, percent) - 1];
            let within = |x: u64| Set::new(|i: int| 0 <= i < n && sorted[i] <= x);
            &&& sorted.contains(p)
            &&& 100 * within(p).len() >= percent * n
            &&& forall|x: u64| x < p ==> 100 * #[trigger] within(x).len() < percent * n
        }),
{
    let n = sorted.len() as int;
    lemma_nearest_rank(n, percent);
    let rank = nearest_rank(n, percent);
    let p = sorted[rank - 1];
    let within = |x: u64| Set::new(|i: int| 0 <= i < n && sorted[i] <= x);
    let all = vstd::set_lib::set_int_range(0, n);
    let low = vstd::set_lib::set_int_range(0, rank);
    vstd::set_lib::lemma_int_range(0, n);
    vstd::set_lib::lemma_int_range(0, rank);
    assert(percent * n == n * percent) by (nonlinear_arith);
    assert(within(p).subset_of(all));
    vstd::set_lib::lemma_len_subset(within(p), all);
    assert(low.subset_of(within(p))) by {
        assert forall|i: int| low.contains(i) implies within(p).contains(i) by {
            if i < rank - 1 {
                assert(sorted[i] <= sorted[rank - 1]);
            }
        }
    }
    vstd::set_lib::lemma_len_subset(low, within(p));
    assert forall|x: u64| x < p implies 100 * #[trigger] within(x).len() < percent * n by {
        let lower = vstd::set_lib::set_int_range(0, rank - 1);
        vstd::set_lib::lemma_int_range(0, rank - 1);
        assert(within(x).subset_of(lower)) by {
            assert forall|i: int| within(x).contains(i) implies lower.contains(i) by {
                if i >= rank {
                    assert(sorted[rank - 1] <= sorted[i]);
                }
            }
        }
        vstd::set_lib::lemma_len_subset(within(x), lower);
    }
}

/// Whether the best of several sweeps reaches the target, given as hundredths: a recall of
/// `hits / total`, with a billionth allowed for.
pub open spec fn reaches(hits: int, total: int, target: int) -> bool {
    100 * (1_000_000_000 * hits + total) >= 1_000_000_000 * (target * total)
}

/// The most hits of any sweep.
pub open spec fn most(hits: Seq<usize>) -> usize
    decreases hits.len(),
{
    if hits.len() == 0 {
        0
    } else if hits.last() > most(hits.drop_last()) {
        hits.last()
    } else {
        most(hits.drop_last())
    }
}

/// The most hits are at least those of every sweep, the first and the last included, and they are
/// those of some sweep if there is one.
pub proof fn lemma_most(hits: Seq<usize>)
    ensures
        forall|i: int| 0 <= i < hits.len() ==> #[trigger] hits[i] <= most(hits),
        hits.len() > 0 ==> hits.contains(most(hits)),
        hits.len() == 0 ==> most(hits) == 0,
    decreases hits.len(),
{
    if hits.len() > 0 {
        let rest = hits.drop_last();
        lemma_most(rest);
        assert forall|i: int| 0 <= i < hits.len() implies #[trigger] hits[i] <= most(hits) by {
            if i < rest.len() {
                assert(rest[i] == hits[i]);
            }
        }
        if hits.last() > most(rest) {
            assert(hits[hits.len() - 1] == most(hits));
        } else if rest.len() > 0 {
            let i = rest.index_of(most(rest));
            assert(hits[i] == most(hits));
        } else {
            assert(hits[0] == most(hits));
        }
    }
}

/// A number of hits reaches the target just when it falls short of that share of the total by no
/// more than a billionth of it; a share that is met outright reaches it, and more hits never miss
/// what fewer reach.
pub proof fn lemma_reaches(hits: int, more: int, total: int, target: int)
    requires
        0 <= hits <= more,
        0 <= total,
    ensures
        reaches(hits, total, target) <==> 10_000_000 * (target * total - 100 * hits) <= total,
        100 * hits >= target * total ==> reaches(hits, total, target),
        reaches(hits, total, target) ==> reaches(more, total, target),
{
}

/// The target is met just when some sweep reaches it by itself, whichever one that is.
pub proof fn lemma_target_met(hits: Seq<usize>, total: int, target: int)
    requires
        hits.len() > 0,
        0 <= total,
    ensures
        reaches(most(hits) as int, total, target) <==> exists|i: int|
            0 <= i < hits.len() && 10_000_000 * (target * total - 100 * #[trigger] hits[i])
                <= total,
{
    lemma_most(hits);
    let best = hits.index_of(most(hits));
    lemma_reaches(hits[best] as int, hits[best] as int, total, target);
    if exists|i: int|
        0 <= i < hits.len() && 10_000_000 * (target * total - 100 * #[trigger] hits[i]) <= total {
        let i = choose|i: int|
            0 <= i < hits.len() && 10_000_000 * (target * total - 100 * #[trigger] hits[i])
                <= total;
        lemma_reaches(hits[i] as int, most(hits) as int, total, target);
    }
}

/// What a benchmark can be run with: at least one neighbour and one beam, a base set and queries
/// that are neither empty nor more than there are, and no more neighbours than vectors. Each
/// refusal names something that is wrong.
pub proof fn lemma_bench_error(args: BenchArgs, base: usize, queries: usize)
    ensures
        bench_error(args, base, queries) is None <==> {
            &&& args.k >= 1
            &&& args.ef@.len() >= 1
            &&& args.limit matches Some(n) ==> 1 <= n <= base
            &&& args.queries matches Some(n) ==> 1 <= n <= queries
            &&& args.k <= match args.limit {
                Some(n) => n,
                None => base,
            }
        },
        match bench_error(args, base, queries) {
            None => true,
            Some(ArgError::ZeroK) => args.k == 0,
            Some(ArgError::NoBeams) => args.k > 0 && args.ef@.len() == 0,
            Some(ArgError::LimitOutOfRange { max }) => {
                &&& max == base
                &&& args.limit matches Some(n)
                &&& !(1 <= n <= base)
            },
            Some(ArgError::QueriesOutOfRange { max }) => {
                &&& max == queries
                &&& args.queries matches Some(n)
                &&& !(1 <= n <= queries)
            },
            Some(ArgError::KExceedsBase { k, base: available }) => k == args.k && k > available
                && available == match args.limit {
                Some(n) => n,
                None => base,
            },
            _ => false,
        },
{
}

/// Whether the best recall of several sweeps over the same queries reaches the target.
pub fn target_met(hits: &[usize], total: usize, target: u32) -> (r: bool)
    requires
        target <= 100,
    ensures
        r == reaches(most(hits@) as int, total as int, target as int),
        hits@.len() > 0 ==> (r <==> exists|i: int|
            0 <= i < hits@.len() && 10_000_000 * (target * total - 100 * #[trigger] hits@[i])
                <= total),
{
    proof {
        if hits@.len() > 0 {
            lemma_target_met(hits@, total as int, target as int);
        }
    }
    let mut best: usize = 0;
    let mut i: usize = 0;
    while i < hits.len()
        invariant
            i <= hits@.len(),
            best == most(hits@.take(i as int)),
        decreases hits@.len() - i,
    {
        proof {
            assert(hits@.take(i + 1).drop_last() =~= hits@.take(i as int));
        }
        if hits[i] > best {
            best = hits[i];
        }
        i += 1;
    }
    proof {
        assert(hits@.take(i as int) =~= hits@);
        assert(target * total <= 100 * 0xFFFF_FFFF_FFFF_FFFF) by (nonlinear_arith)
            requires
                target <= 100,
                total <= 0xFFFF_FFFF_FFFF_FFFF,
        ;
    }
    let left: u128 = 100 * (1_000_000_000 * (best as u128) + total as u128);
    let right: u128 = 1_000_000_000 * (target as u128 * total as u128);
    left >= right
}

} // verus!
