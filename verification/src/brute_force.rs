//! Exhaustive search, which every other search is measured against.

use vstd::prelude::*;

use crate::bits;
use crate::candidate::{
    self, ascending, before, in_order, ordered, place, placed, Candidate,
};
use crate::error::VectorError;
use crate::first::{first_of, lemma_first_hit};
use crate::hnsw::search::{self, offered, push_bounded};
use crate::metric::Metric;
use crate::text;
use crate::vector_store::VectorStore;
use crate::NodeId;

verus! {

/// Which distance kernel a scan uses.
#[derive(Clone, Copy, Debug, PartialEq, Eq, Structural)]
pub enum Kernel {
    /// Slow, and the definition of correct.
    Reference,
    /// What every measured query path uses.
    Fast,
}

/// The name of a kernel.
pub open spec fn kernel_name(kernel: Kernel) -> &'static str {
    match kernel {
        Kernel::Reference => "reference",
        Kernel::Fast => "fast",
    }
}

/// The kernel that a name stands for.
pub open spec fn named_kernel(name: Seq<char>) -> Option<Kernel> {
    if name == "reference"@ || name == "scalar"@ {
        Some(Kernel::Reference)
    } else if name == "fast"@ || name == "simd"@ {
        Some(Kernel::Fast)
    } else {
        None
    }
}

impl Kernel {
    pub fn name(self) -> (r: &'static str)
        ensures
            r == kernel_name(self),
    {
        match self {
            Kernel::Reference => "reference",
            Kernel::Fast => "fast",
        }
    }

    pub fn parse(name: &str) -> (r: Option<Self>)
        ensures
            r == named_kernel(name@),
    {
        if text::same(name, "reference") || text::same(name, "scalar") {
            Some(Kernel::Reference)
        } else if text::same(name, "fast") || text::same(name, "simd") {
            Some(Kernel::Fast)
        } else {
            None
        }
    }
}

/// A kernel's name stands for that kernel.
pub proof fn lemma_kernel_name_round_trip(kernel: Kernel)
    ensures
        named_kernel(kernel_name(kernel)@) == Some(kernel),
{
    reveal_strlit("reference");
    reveal_strlit("scalar");
    reveal_strlit("fast");
    reveal_strlit("simd");
    assert("fast"@.len() != "reference"@.len());
    assert("fast"@.len() != "scalar"@.len());
}

/// The bits of the distance between two vectors by the given kernel.
pub open spec fn distance<M: Metric>(kernel: Kernel, a: Seq<u32>, b: Seq<u32>) -> u32 {
    match kernel {
        Kernel::Reference => M::reference(a, b),
        Kernel::Fast => M::fast(a, b),
    }
}

fn measure<M: Metric>(kernel: Kernel, a: &[u32], b: &[u32]) -> (r: u32)
    requires
        a@.len() == b@.len(),
    ensures
        r == distance::<M>(kernel, a@, b@),
{
    match kernel {
        Kernel::Reference => M::distance_scalar(a, b),
        Kernel::Fast => M::distance(a, b),
    }
}

/// Every vector as a candidate, in storage order.
pub open spec fn scored<M: Metric>(kernel: Kernel, q: Seq<u32>, vecs: Seq<Seq<u32>>) -> Seq<
    Candidate,
> {
    Seq::new(vecs.len(), |i: int| Candidate::of(distance::<M>(kernel, q, vecs[i]), i as NodeId))
}

/// The first `k` of the candidates once they are in order, or all of them if there are fewer.
pub open spec fn nearest(all: Seq<Candidate>, k: nat) -> Seq<Candidate> {
    if in_order(all).len() <= k {
        in_order(all)
    } else {
        in_order(all).take(k as int)
    }
}

/// One candidate more only has to be offered to the nearest so far.
proof fn lemma_nearest_push(all: Seq<Candidate>, c: Candidate, k: nat)
    requires
        k >= 1,
    ensures
        nearest(all.push(c), k) == offered(nearest(all, k), c, k),
{
    let t = in_order(all);
    let n = nearest(all, k);
    candidate::lemma_in_order(all);
    candidate::lemma_in_order(all.push(c));
    assert(all.push(c).drop_last() =~= all);
    assert(in_order(all.push(c)) == placed(t, c));
    candidate::lemma_place(t, c);
    if t.len() > k {
        assert(ordered(n)) by {
            assert forall|i: int, j: int| 0 <= i < j < n.len() implies !before(
                #[trigger] n[j],
                #[trigger] n[i],
            ) by {
                assert(!before(t[j], t[i]));
            }
        }
        let at = if place(t, c) < k {
            place(t, c)
        } else {
            k
        };
        assert forall|i: int| 0 <= i < at implies before(#[trigger] n[i], c) by {
            assert(before(t[i], c));
        }
        assert forall|i: int| at <= i < n.len() implies !before(#[trigger] n[i], c) by {
            assert(!before(t[i], c));
        }
        candidate::lemma_place_unique(n, c, at);
        assert(placed(t, c).take(k as int) =~= placed(n, c).take(k as int));
    }
}

/// Candidates with different ids are in strict order, and the nearest of them are too.
proof fn lemma_nearest_ascending(all: Seq<Candidate>, k: nat)
    requires
        forall|i: int, j: int| 0 <= i < j < all.len() ==> (#[trigger] all[i]).id != (
        #[trigger] all[j]).id,
    ensures
        ascending(nearest(all, k)),
        nearest(all, k).len() == if all.len() <= k {
            all.len()
        } else {
            k
        },
        forall|c: Candidate| #[trigger] nearest(all, k).contains(c) ==> all.contains(c),
{
    let t = in_order(all);
    candidate::lemma_in_order(all);
    assert(all.no_duplicates());
    all.lemma_multiset_has_no_duplicates();
    t.lemma_multiset_has_no_duplicates_conv();
    assert(ascending(t)) by {
        assert forall|i: int, j: int| 0 <= i < j < t.len() implies before(
            #[trigger] t[i],
            #[trigger] t[j],
        ) by {
            candidate::lemma_before_total(t[i], t[j]);
            assert(t[i] != t[j]);
        }
    }
    assert forall|c: Candidate| #[trigger] nearest(all, k).contains(c) implies all.contains(c) by {
        let i = nearest(all, k).index_of(c);
        assert(t[i] == c);
        assert(t.contains(c));
    }
}

/// Exhaustive nearest-neighbour search over a store.
#[derive(Debug)]
pub struct BruteForceIndex<'a> {
    vectors: &'a VectorStore<'a>,
}

/// Looks at id `i` of a list.
pub open spec fn unknown_id(ids: Seq<NodeId>, count: int) -> spec_fn(int) -> Option<VectorError> {
    |i: int|
        if ids[i] >= count {
            Some(VectorError::IdOutOfRange { id: ids[i], count: count as usize })
        } else {
            None
        }
}

impl<'a> BruteForceIndex<'a> {
    pub closed spec fn store(&self) -> VectorStore<'a> {
        *self.vectors
    }

    pub fn new(vectors: &'a VectorStore<'a>) -> (r: Self)
        ensures
            r.store() == *vectors,
    {
        BruteForceIndex { vectors }
    }

    pub fn len(&self) -> (r: usize)
        ensures
            r == self.store().all().len(),
    {
        self.vectors.len()
    }

    pub fn is_empty(&self) -> (r: bool)
        ensures
            r == (self.store().all().len() == 0),
    {
        self.vectors.is_empty()
    }

    pub fn dim(&self) -> (r: usize)
        ensures
            r == self.store().width(),
    {
        self.vectors.dim()
    }

    /// The `k` nearest neighbours of `query`, nearest first, and by id where distances tie. Fewer
    /// when the store holds fewer vectors.
    pub fn search<M: Metric>(&self, query: &[u32], k: usize, kernel: Kernel) -> (r: Result<
        Vec<Candidate>,
        VectorError,
    >)
        requires
            self.store().wf(),
        ensures
            match r {
                Ok(found) => {
                    &&& query@.len() == self.store().width()
                    &&& found@ == nearest(
                        scored::<M>(kernel, query@, self.store().all()),
                        k as nat,
                    )
                },
                Err(e) => {
                    &&& query@.len() != self.store().width()
                    &&& e == (VectorError::DimMismatch {
                        expected: self.store().width() as usize,
                        found: query@.len() as usize,
                    })
                },
            },
    {
        let dim: usize = self.vectors.dim();
        if query.len() != dim {
            return Err(VectorError::DimMismatch { expected: dim, found: query.len() });
        }
        let ghost vecs = self.store().all();
        let ghost all = scored::<M>(kernel, query@, vecs);
        let mut found: Vec<Candidate> = Vec::new();
        proof {
            candidate::lemma_in_order(all);
            self.vectors.lemma_wf();
        }
        let count: usize = self.vectors.len();
        if k == 0 || count == 0 {
            proof {
                assert(found@ =~= nearest(all, k as nat));
            }
            return Ok(found);
        }
        let mut i: usize = 0;
        proof {
            assert(all.take(0) =~= Seq::empty());
            assert(found@ =~= nearest(all.take(0), k as nat));
        }
        while i < count
            invariant
                i <= count,
                self.store().wf(),
                vecs == self.store().all(),
                count == vecs.len(),
                count <= u32::MAX,
                query@.len() == self.store().width(),
                all == scored::<M>(kernel, query@, vecs),
                k >= 1,
                found@ == nearest(all.take(i as int), k as nat),
            decreases count - i,
        {
            let vector = self.vectors.get(i);
            let c = Candidate::new(measure::<M>(kernel, query, vector), i as NodeId);
            proof {
                let earlier = all.take(i as int);
                assert forall|a: int, b: int| 0 <= a < b < earlier.len() implies (
                #[trigger] earlier[a]).id != (#[trigger] earlier[b]).id by {}
                lemma_nearest_ascending(earlier, k as nat);
                assert(!found@.contains(c)) by {
                    if found@.contains(c) {
                        let at = earlier.index_of(c);
                        assert(earlier[at].id == at);
                    }
                }
                lemma_nearest_push(earlier, c, k as nat);
                assert(all.take(i + 1) =~= earlier.push(c));
            }
            push_bounded(&mut found, c, k);
            i += 1;
        }
        proof {
            assert(all.take(count as int) =~= all);
        }
        Ok(found)
    }

    /// Distances from `query` to specific ids, in the order given, as bits.
    pub fn distances_to<M: Metric>(&self, query: &[u32], ids: &[NodeId], kernel: Kernel) -> (r:
        Result<Vec<u32>, VectorError>)
        requires
            self.store().wf(),
        ensures
            match r {
                Ok(distances) => {
                    &&& query@.len() == self.store().width()
                    &&& distances@.len() == ids@.len()
                    &&& forall|i: int|
                        0 <= i < ids@.len() ==> #[trigger] ids@[i] < self.store().all().len()
                    &&& forall|i: int|
                        0 <= i < ids@.len() ==> #[trigger] distances@[i] == distance::<M>(
                            kernel,
                            query@,
                            self.store().all()[ids@[i] as int],
                        )
                },
                Err(e) => if query@.len() != self.store().width() {
                    e == (VectorError::DimMismatch {
                        expected: self.store().width() as usize,
                        found: query@.len() as usize,
                    })
                } else {
                    first_of(
                        ids@.len() as int,
                        unknown_id(ids@, self.store().all().len() as int),
                    ) == Some(e)
                },
            },
    {
        let dim: usize = self.vectors.dim();
        if query.len() != dim {
            return Err(VectorError::DimMismatch { expected: dim, found: query.len() });
        }
        let count: usize = self.vectors.len();
        let ghost check = unknown_id(ids@, count as int);
        let mut distances: Vec<u32> = Vec::with_capacity(ids.len());
        let mut i: usize = 0;
        while i < ids.len()
            invariant
                i <= ids@.len(),
                self.store().wf(),
                count == self.store().all().len(),
                query@.len() == self.store().width(),
                check == unknown_id(ids@, count as int),
                first_of(i as int, check) is None,
                distances@.len() == i,
                forall|j: int| 0 <= j < i ==> #[trigger] ids@[j] < count,
                forall|j: int|
                    0 <= j < i ==> #[trigger] distances@[j] == distance::<M>(
                        kernel,
                        query@,
                        self.store().all()[ids@[j] as int],
                    ),
            decreases ids@.len() - i,
        {
            match self.vectors.try_get(ids[i] as usize) {
                None => {
                    proof {
                        lemma_first_hit(ids@.len() as int, check, i as int);
                    }
                    return Err(VectorError::IdOutOfRange { id: ids[i], count });
                },
                Some(vector) => {
                    proof {
                        self.vectors.lemma_wf();
                    }
                    distances.push(measure::<M>(kernel, query, vector));
                },
            }
            i += 1;
        }
        Ok(distances)
    }
}

/// A search returns the nearest vectors: as many as asked for or all there are, each once and
/// nearest first, and whatever is left out comes after everything that was returned.
pub proof fn lemma_search_is_exact<M: Metric>(
    kernel: Kernel,
    q: Seq<u32>,
    vecs: Seq<Seq<u32>>,
    k: nat,
)
    requires
        vecs.len() <= u32::MAX,
    ensures
        ({
            let all = scored::<M>(kernel, q, vecs);
            let found = nearest(all, k);
            &&& ascending(found)
            &&& found.len() == if vecs.len() <= k {
                vecs.len()
            } else {
                k
            }
            &&& forall|c: Candidate| #[trigger] found.contains(c) ==> all.contains(c)
            &&& forall|c: Candidate, i: int|
                #![trigger all.contains(c), found[i]]
                all.contains(c) && !found.contains(c) && 0 <= i < found.len() ==> before(
                    found[i],
                    c,
                )
        }),
{
    let all = scored::<M>(kernel, q, vecs);
    let found = nearest(all, k);
    let t = in_order(all);
    assert forall|a: int, b: int| 0 <= a < b < all.len() implies (#[trigger] all[a]).id != (
    #[trigger] all[b]).id by {}
    lemma_nearest_ascending(all, k);
    lemma_nearest_ascending(all, all.len());
    candidate::lemma_in_order(all);
    assert(nearest(all, all.len()) == t);
    assert forall|c: Candidate, i: int|
        #![trigger all.contains(c), found[i]]
        all.contains(c) && !found.contains(c) && 0 <= i < found.len() implies before(
        found[i],
        c,
    ) by {
        assert(t.contains(c));
        let at = t.index_of(c);
        if at < found.len() {
            assert(found[at] == c);
        }
        assert(before(t[i], t[at]));
    }
}

/// Every vector is scored once, under its own position, with its distance by the kernel that was
/// asked for.
pub proof fn lemma_scored<M: Metric>(kernel: Kernel, q: Seq<u32>, vecs: Seq<Seq<u32>>, i: int)
    requires
        0 <= i < vecs.len() <= u32::MAX,
    ensures
        scored::<M>(kernel, q, vecs).len() == vecs.len(),
        scored::<M>(kernel, q, vecs)[i].id == i,
        scored::<M>(kernel, q, vecs)[i].dist_bits() == match kernel {
            Kernel::Reference => M::reference(q, vecs[i]),
            Kernel::Fast => M::fast(q, vecs[i]),
        },
{
    bits::lemma_rank_round_trip(distance::<M>(kernel, q, vecs[i]));
}

/// A search for fewer neighbours returns the first of what a search for more returns.
pub proof fn lemma_fewer_nearest(all: Seq<Candidate>, fewer: nat, k: nat)
    requires
        fewer <= k,
    ensures
        nearest(all, fewer).len() == if fewer < nearest(all, k).len() {
            fewer
        } else {
            nearest(all, k).len()
        },
        nearest(all, fewer) == nearest(all, k).take(nearest(all, fewer).len() as int),
{
    assert(nearest(all, fewer) =~= nearest(all, k).take(nearest(all, fewer).len() as int));
}

/// The names that stand for a kernel, and no others.
pub proof fn lemma_kernel_names(name: Seq<char>)
    ensures
        named_kernel(name) == Some(Kernel::Reference) <==> name == "reference"@ || name
            == "scalar"@,
        named_kernel(name) == Some(Kernel::Fast) <==> name == "fast"@ || name == "simd"@,
{
    reveal_strlit("reference");
    reveal_strlit("scalar");
    reveal_strlit("fast");
    reveal_strlit("simd");
    assert("fast"@[0] != "reference"@[0] && "fast"@[0] != "scalar"@[0]);
    assert("simd"@.len() != "reference"@.len() && "simd"@.len() != "scalar"@.len());
}

/// The positions of the distances of a list of candidates.
pub open spec fn ranks(s: Seq<Candidate>) -> Seq<u32> {
    s.map_values(|c: Candidate| c.rank)
}

proof fn lemma_ranks_in_order(s: Seq<Candidate>)
    ensures
        ranks(in_order(s)).to_multiset() == ranks(s).to_multiset(),
    decreases s.len(),
{
    if s.len() == 0 {
        assert(in_order(s) =~= s);
    } else {
        let rest = s.drop_last();
        let c = s.last();
        let t = in_order(rest);
        lemma_ranks_in_order(rest);
        candidate::lemma_in_order(rest);
        candidate::lemma_place(t, c);
        assert(ranks(in_order(s)) =~= ranks(t).insert(place(t, c) as int, c.rank));
        vstd::seq_lib::to_multiset_insert(ranks(t), place(t, c) as int, c.rank);
        assert(ranks(s) =~= ranks(rest).push(c.rank));
        vstd::seq_lib::to_multiset_build(ranks(rest), c.rank);
    }
}

/// The distances that a search returns do not depend on the order in which the vectors are
/// stored.
pub proof fn lemma_storage_order_does_not_show(a: Seq<Candidate>, b: Seq<Candidate>, k: nat)
    requires
        ranks(a).to_multiset() == ranks(b).to_multiset(),
    ensures
        ranks(nearest(a, k)) == ranks(nearest(b, k)),
{
    candidate::lemma_in_order(a);
    candidate::lemma_in_order(b);
    lemma_ranks_in_order(a);
    lemma_ranks_in_order(b);
    let x = ranks(in_order(a));
    let y = ranks(in_order(b));
    let leq = |m: u32, n: u32| m <= n;
    assert(vstd::relations::sorted_by(x, leq)) by {
        assert forall|i: int, j: int| 0 <= i < j < x.len() implies leq(x[i], x[j]) by {
            assert(!before(in_order(a)[j], in_order(a)[i]));
        }
    }
    assert(vstd::relations::sorted_by(y, leq)) by {
        assert forall|i: int, j: int| 0 <= i < j < y.len() implies leq(y[i], y[j]) by {
            assert(!before(in_order(b)[j], in_order(b)[i]));
        }
    }
    vstd::seq_lib::lemma_sorted_unique(x, y, leq);
    assert(x.len() == in_order(a).len() && y.len() == in_order(b).len());
    assert(ranks(nearest(a, k)) =~= if x.len() <= k {
        x
    } else {
        x.take(k as int)
    });
    assert(ranks(nearest(b, k)) =~= if y.len() <= k {
        y
    } else {
        y.take(k as int)
    });
}

/// How many leading values of `x` are below `bound`.
pub open spec fn below(x: Seq<u32>, bound: u32) -> nat
    decreases x.len(),
{
    if x.len() == 0 {
        0
    } else if x.last() < bound {
        x.len()
    } else {
        below(x.drop_last(), bound)
    }
}

proof fn lemma_below(x: Seq<u32>, bound: u32)
    requires
        forall|i: int, j: int| 0 <= i < j < x.len() ==> #[trigger] x[i] <= #[trigger] x[j],
    ensures
        below(x, bound) <= x.len(),
        forall|i: int| 0 <= i < below(x, bound) ==> #[trigger] x[i] < bound,
        forall|i: int| below(x, bound) <= i < x.len() ==> #[trigger] x[i] >= bound,
    decreases x.len(),
{
    if x.len() > 0 && x.last() >= bound {
        let y = x.drop_last();
        lemma_below(y, bound);
        assert forall|i: int| below(x, bound) <= i < x.len() implies #[trigger] x[i] >= bound by {
            if i < y.len() {
                assert(y[i] == x[i]);
            }
        }
        assert forall|i: int| 0 <= i < below(x, bound) implies #[trigger] x[i] < bound by {
            assert(y[i] == x[i]);
        }
    }
}

/// A list whose distances are those of the nearest candidates, rank by rank, is itself a list of
/// nearest candidates: nothing that it leaves out is nearer than its last entry. It may still name
/// other candidates, where distances tie.
pub proof fn lemma_equal_profile_is_exact(all: Seq<Candidate>, list: Seq<Candidate>, k: nat)
    requires
        forall|i: int, j: int| 0 <= i < j < all.len() ==> (#[trigger] all[i]).id != (
        #[trigger] all[j]).id,
        list.no_duplicates(),
        forall|c: Candidate| #[trigger] list.contains(c) ==> all.contains(c),
        list.len() > 0,
        ranks(list) == ranks(nearest(all, k)),
    ensures
        forall|c: Candidate| #[trigger]
            all.contains(c) && !list.contains(c) ==> c.rank >= list.last().rank,
{
    let top = nearest(all, k);
    let t = in_order(all);
    let x = ranks(top);
    let r = list.last().rank;
    lemma_nearest_ascending(all, k);
    lemma_nearest_ascending(all, all.len());
    candidate::lemma_in_order(all);
    assert(nearest(all, all.len()) == t);
    assert(ranks(list).len() == list.len() && x.len() == top.len());
    assert forall|i: int| 0 <= i < list.len() implies (#[trigger] list[i]).rank == top[i].rank by {
        assert(ranks(list)[i] == x[i]);
    }
    assert forall|i: int, j: int| 0 <= i < j < x.len() implies #[trigger] x[i]
        <= #[trigger] x[j] by {
        assert(before(top[i], top[j]));
    }
    lemma_below(x, r);
    let m = below(x, r) as int;
    let mine = list.take(m);
    let theirs = top.take(m);
    assert forall|c: Candidate| #[trigger] all.contains(c) && c.rank < r implies theirs.contains(
        c,
    ) by {
        assert(t.contains(c));
        let at = t.index_of(c);
        let n = top.len() - 1;
        assert(top[n].rank == list[n].rank);
        if at > n {
            assert(before(t[n], t[at]));
        }
        assert(top[at] == c && x[at] == c.rank);
        assert(theirs[at] == c);
    }
    assert(mine.no_duplicates());
    assert(theirs.no_duplicates()) by {
        assert forall|i: int, j: int| 0 <= i < j < theirs.len() implies theirs[i] != theirs[j] by {
            assert(before(top[i], top[j]));
        }
    }
    mine.unique_seq_to_set();
    theirs.unique_seq_to_set();
    assert(mine.to_set().subset_of(theirs.to_set())) by {
        assert forall|c: Candidate| mine.to_set().contains(c) implies theirs.to_set().contains(
            c,
        ) by {
            let i = mine.index_of(c);
            assert(list[i] == c);
            assert(list.contains(c));
            assert(x[i] < r && top[i].rank == x[i]);
            assert(all.contains(c));
        }
    }
    vstd::set_lib::lemma_subset_equality(mine.to_set(), theirs.to_set());
    assert forall|c: Candidate| #[trigger]
        all.contains(c) && !list.contains(c) implies c.rank >= list.last().rank by {
        if c.rank < r {
            assert(theirs.contains(c));
            assert(theirs.to_set().contains(c));
            assert(mine.to_set().contains(c));
            let i = mine.index_of(c);
            assert(list[i] == c);
        }
    }
}

/// Ids are refused if and only if one of them has no vector, and the first such id is named.
pub proof fn lemma_unknown_id(ids: Seq<NodeId>, count: int)
    requires
        0 <= count <= usize::MAX,
    ensures
        first_of(ids.len() as int, unknown_id(ids, count)) is None <==> forall|i: int|
            0 <= i < ids.len() ==> #[trigger] ids[i] < count,
        match first_of(ids.len() as int, unknown_id(ids, count)) {
            Some(VectorError::IdOutOfRange { id, count: known }) => known == count && exists|i: int|
                0 <= i < ids.len() && #[trigger] ids[i] == id && id >= count && forall|j: int|
                    0 <= j < i ==> #[trigger] ids[j] < count,
            Some(_) => false,
            None => true,
        },
{
    let n = ids.len() as int;
    let check = unknown_id(ids, count);
    crate::first::lemma_first_none(n, check);
    if first_of(n, check) is None {
        assert forall|i: int| 0 <= i < n implies #[trigger] ids[i] < count by {
            assert(check(i) is None);
        }
    } else {
        let at = crate::first::lemma_first_some(n, check);
        assert(check(at) is Some);
        assert(ids[at] >= count);
        assert forall|j: int| 0 <= j < at implies #[trigger] ids[j] < count by {
            assert(check(j) is None);
        }
    }
}

} // verus!
