//! Ground truth: exact neighbour lists, and how far two lists agree.
//!
//! Two questions are asked of a list. Does it name the same ids as the published one, position by
//! position? And where it does not, are the two neighbours at the same distance, so that they
//! merely changed places?

use vstd::prelude::*;

use crate::bits;
use crate::brute_force::{self, nearest, scored, BruteForceIndex, Kernel};
use crate::candidate::{before, Candidate};
use crate::count::{lemma_apart, lemma_in_row};
use crate::dataset::{int_row, int_word, to_int, to_word, word_int, IntMatrix};
use crate::error::VectorError;
use crate::first::first_of;
use crate::hnsw::layer::lemma_exact_division;
use crate::metric::Metric;
use crate::vector_store::{dim_error, lemma_row_bounds, VectorStore};
use crate::NodeId;

verus! {

/// How many differing rows or positions are kept as examples.
pub const MAX_EXAMPLES: usize = 5;

/// Why neighbours cannot be computed, if they cannot.
pub open spec fn compute_error(
    base_dim: nat,
    query_dim: nat,
    count: nat,
    k: nat,
) -> Option<VectorError> {
    if base_dim != query_dim {
        Some(
            VectorError::DimMismatch {
                expected: base_dim as usize,
                found: query_dim as usize,
            },
        )
    } else if k == 0 || k > count {
        Some(VectorError::InvalidK { k: k as usize, available: count as usize })
    } else {
        None
    }
}

/// The ids of candidates, as a neighbour list holds them.
pub open spec fn ids_as_ints(s: Seq<Candidate>) -> Seq<i32> {
    Seq::new(s.len(), |i: int| word_int(s[i].id))
}

/// The neighbours of one query.
pub open spec fn neighbours<M: Metric>(
    kernel: Kernel,
    q: Seq<u32>,
    vecs: Seq<Seq<u32>>,
    k: nat,
) -> Seq<i32> {
    ids_as_ints(nearest(scored::<M>(kernel, q, vecs), k))
}

/// A row of neighbours is exact: it names as many different vectors as asked for, or all there are;
/// they come nearest first, and by id where distances tie; and whatever it does not name comes after
/// everything that it names.
pub proof fn lemma_neighbours_exact<M: Metric>(
    kernel: Kernel,
    q: Seq<u32>,
    vecs: Seq<Seq<u32>>,
    k: nat,
)
    requires
        vecs.len() <= u32::MAX,
    ensures
        ({
            let row = neighbours::<M>(kernel, q, vecs, k);
            let rank = |id: u32|
                bits::total_rank(
                    match kernel {
                        Kernel::Reference => M::reference(q, vecs[id as int]),
                        Kernel::Fast => M::fast(q, vecs[id as int]),
                    },
                );
            let sooner = |a: u32, b: u32| rank(a) < rank(b) || (rank(a) == rank(b) && a < b);
            &&& row.len() == if k < vecs.len() {
                k
            } else {
                vecs.len()
            }
            &&& forall|i: int| 0 <= i < row.len() ==> int_word(#[trigger] row[i]) < vecs.len()
            &&& forall|i: int, j: int|
                0 <= i < j < row.len() ==> sooner(
                    int_word(#[trigger] row[i]),
                    int_word(#[trigger] row[j]),
                )
            &&& forall|id: u32, i: int|
                #![trigger word_int(id), row[i]]
                id < vecs.len() && !row.contains(word_int(id)) && 0 <= i < row.len() ==> sooner(
                    int_word(row[i]),
                    id,
                )
        }),
{
    let row = neighbours::<M>(kernel, q, vecs, k);
    let all = scored::<M>(kernel, q, vecs);
    let found = nearest(all, k);
    brute_force::lemma_search_is_exact::<M>(kernel, q, vecs, k);
    assert forall|i: int| 0 <= i < row.len() implies int_word(#[trigger] row[i]) == found[i].id
        && found[i].id < vecs.len() && found[i] == all[found[i].id as int] by {
        crate::dataset::lemma_word_int(found[i].id, 0);
        assert(found.contains(found[i]));
        let at = all.index_of(found[i]);
        assert(all[at].id == at);
    }
    assert forall|i: int, j: int| 0 <= i < j < row.len() implies before(
        #[trigger] found[i],
        #[trigger] found[j],
    ) && int_word(row[i]) == found[i].id && int_word(row[j]) == found[j].id by {
        assert(row[i] == word_int(found[i].id) && row[j] == word_int(found[j].id));
    }
    let rank = |id: u32|
        bits::total_rank(
            match kernel {
                Kernel::Reference => M::reference(q, vecs[id as int]),
                Kernel::Fast => M::fast(q, vecs[id as int]),
            },
        );
    let sooner = |a: u32, b: u32| rank(a) < rank(b) || (rank(a) == rank(b) && a < b);
    assert forall|i: int, j: int| 0 <= i < j < row.len() implies sooner(
        int_word(#[trigger] row[i]),
        int_word(#[trigger] row[j]),
    ) by {
        assert(before(found[i], found[j]));
    }
    assert forall|id: u32, i: int|
        #![trigger word_int(id), row[i]]
        id < vecs.len() && !row.contains(word_int(id)) && 0 <= i < row.len() implies sooner(
        int_word(row[i]),
        id,
    ) by {
        let c = all[id as int];
        assert(all.contains(c));
        if found.contains(c) {
            let at = found.index_of(c);
            assert(row[at] == word_int(id));
        }
        assert(before(found[i], c));
    }
}

/// Checks that every query has `k` neighbours to find.
pub fn check(base: &VectorStore, queries: &VectorStore, k: usize) -> (r: Result<(), VectorError>)
    ensures
        match r {
            Ok(_) => compute_error(base.width(), queries.width(), base.size(), k as nat) is None,
            Err(e) => compute_error(base.width(), queries.width(), base.size(), k as nat) == Some(
                e,
            ),
        },
{
    if base.dim() != queries.dim() {
        return Err(VectorError::DimMismatch { expected: base.dim(), found: queries.dim() });
    }
    if k == 0 || k > base.len() {
        return Err(VectorError::InvalidK { k, available: base.len() });
    }
    Ok(())
}

/// The neighbours of one query, which no other query has a part in.
pub fn neighbours_of<M: Metric>(
    index: &BruteForceIndex,
    query: &[u32],
    k: usize,
    kernel: Kernel,
) -> (r: Result<Vec<i32>, VectorError>)
    requires
        index.store().wf(),
    ensures
        match r {
            Ok(row) => {
                &&& query@.len() == index.store().width()
                &&& row@ == neighbours::<M>(kernel, query@, index.store().all(), k as nat)
                &&& row@.len() == if index.store().all().len() <= k {
                    index.store().all().len()
                } else {
                    k as nat
                }
            },
            Err(e) => {
                &&& query@.len() != index.store().width()
                &&& e == (VectorError::DimMismatch {
                    expected: index.store().width() as usize,
                    found: query@.len() as usize,
                })
            },
        },
{
    let found = match index.search::<M>(query, k, kernel) {
        Err(e) => {
            return Err(e);
        },
        Ok(found) => found,
    };
    proof {
        index.store().lemma_wf();
        brute_force::lemma_search_is_exact::<M>(kernel, query@, index.store().all(), k as nat);
    }
    let mut row: Vec<i32> = Vec::with_capacity(found.len());
    let mut i: usize = 0;
    while i < found.len()
        invariant
            i <= found@.len(),
            row@ == ids_as_ints(found@).take(i as int),
        decreases found@.len() - i,
    {
        row.push(to_int(found[i].id));
        i += 1;
        proof {
            assert(row@ =~= ids_as_ints(found@).take(i as int));
        }
    }
    proof {
        assert(row@ =~= ids_as_ints(found@));
    }
    Ok(row)
}

/// Rows as one matrix.
pub fn assemble(k: usize, rows: &Vec<Vec<i32>>) -> (r: Result<IntMatrix, VectorError>)
    requires
        k >= 1,
        forall|i: int| 0 <= i < rows@.len() ==> (#[trigger] rows@[i])@.len() == k,
    ensures
        match r {
            Ok(m) => {
                &&& dim_error(k as int) is None
                &&& m.wf()
                &&& m.width() == k
                &&& m@.len() == rows@.len()
                &&& forall|i: int| 0 <= i < rows@.len() ==> #[trigger] m@[i] == rows@[i]@
            },
            Err(e) => dim_error(k as int) == Some(e),
        },
{
    let mut flat: Vec<i32> = Vec::new();
    let mut i: usize = 0;
    proof {
        assert(0 * k == 0);
    }
    while i < rows.len()
        invariant
            i <= rows@.len(),
            k >= 1,
            forall|j: int| 0 <= j < rows@.len() ==> (#[trigger] rows@[j])@.len() == k,
            flat@.len() == i * k,
            forall|j: int| 0 <= j < i ==> int_row(flat@, k as int, j) == #[trigger] rows@[j]@,
        decreases rows@.len() - i,
    {
        let ghost earlier = flat@;
        flat.extend_from_slice(rows[i].as_slice());
        proof {
            assert((i + 1) * k == i * k + k) by (nonlinear_arith);
            assert(rows@[i as int]@.len() == k);
            assert(flat@ =~= earlier + rows@[i as int]@);
            assert forall|j: int| 0 <= j < i + 1 implies int_row(flat@, k as int, j)
                == #[trigger] rows@[j]@ by {
                lemma_row_bounds(j, k as int, i + 1, flat@.len() as int);
                if j < i {
                    lemma_row_bounds(j, k as int, i as int, earlier.len() as int);
                    assert(int_row(flat@, k as int, j) =~= int_row(earlier, k as int, j));
                } else {
                    assert(int_row(flat@, k as int, j) =~= rows@[j]@);
                }
            }
        }
        i += 1;
    }
    proof {
        lemma_exact_division(rows@.len() as int, k as int);
    }
    match IntMatrix::new(k, flat) {
        Err(e) => Err(e),
        Ok(m) => {
            proof {
                m.lemma_wf();
            }
            Ok(m)
        },
    }
}

/// The exact `k` nearest neighbours of every query.
pub fn compute<M: Metric>(base: &VectorStore, queries: &VectorStore, k: usize, kernel: Kernel) -> (r:
    Result<IntMatrix, VectorError>)
    requires
        base.wf(),
        queries.wf(),
    ensures
        match r {
            Ok(m) => {
                &&& compute_error(base.width(), queries.width(), base.size(), k as nat) is None
                &&& dim_error(k as int) is None
                &&& m.wf()
                &&& m.width() == k
                &&& m@.len() == queries.all().len()
                &&& forall|q: int|
                    0 <= q < m@.len() ==> #[trigger] m@[q] == neighbours::<M>(
                        kernel,
                        queries.all()[q],
                        base.all(),
                        k as nat,
                    )
            },
            Err(e) => match compute_error(base.width(), queries.width(), base.size(), k as nat) {
                Some(f) => e == f,
                None => dim_error(k as int) == Some(e),
            },
        },
{
    match check(base, queries, k) {
        Err(e) => {
            return Err(e);
        },
        Ok(_) => {},
    }
    let index = BruteForceIndex::new(base);
    let mut rows: Vec<Vec<i32>> = Vec::with_capacity(queries.len());
    let count: usize = queries.len();
    proof {
        queries.lemma_wf();
        base.lemma_wf();
    }
    let mut q: usize = 0;
    while q < count
        invariant
            q <= count,
            queries.wf(),
            base.wf(),
            index.store() == *base,
            base.width() == queries.width(),
            base.all().len() == base.size(),
            1 <= k <= base.size(),
            count == queries.all().len(),
            rows@.len() == q,
            forall|j: int| 0 <= j < q ==> (#[trigger] rows@[j])@.len() == k,
            forall|j: int|
                0 <= j < q ==> (#[trigger] rows@[j])@ == neighbours::<M>(
                    kernel,
                    queries.all()[j],
                    base.all(),
                    k as nat,
                ),
        decreases count - q,
    {
        match neighbours_of::<M>(&index, queries.get(q), k, kernel) {
            Err(e) => {
                return Err(e);
            },
            Ok(row) => {
                rows.push(row);
            },
        }
        q += 1;
    }
    assemble(k, &rows)
}

/// A row of one list that differs from the same row of the other.
#[derive(Clone, Debug, PartialEq, Eq)]
pub struct RowDifference {
    pub query: usize,
    /// First rank at which the two rows disagree.
    pub first_difference: usize,
    pub ours: Vec<i32>,
    pub reference: Vec<i32>,
}

/// How far two neighbour lists agree on ids.
#[derive(Clone, Debug, PartialEq, Eq)]
pub struct Agreement {
    pub queries: usize,
    pub k: usize,
    /// Rows that are identical, in order.
    pub identical_rows: usize,
    /// Rows that hold the same ids, in any order.
    pub same_set_rows: usize,
    /// Positions at which both lists name the same id.
    pub identical_positions: usize,
    pub examples: Vec<RowDifference>,
}

/// What a row difference says.
pub struct Difference {
    pub query: int,
    pub first_difference: int,
    pub ours: Seq<i32>,
    pub reference: Seq<i32>,
}

/// What an agreement says.
pub struct Tally {
    pub identical_rows: nat,
    pub same_set_rows: nat,
    pub identical_positions: nat,
    pub examples: Seq<Difference>,
}

impl View for RowDifference {
    type V = Difference;

    open spec fn view(&self) -> Difference {
        Difference {
            query: self.query as int,
            first_difference: self.first_difference as int,
            ours: self.ours@,
            reference: self.reference@,
        }
    }
}

impl View for Agreement {
    type V = Tally;

    open spec fn view(&self) -> Tally {
        Tally {
            identical_rows: self.identical_rows as nat,
            same_set_rows: self.same_set_rows as nat,
            identical_positions: self.identical_positions as nat,
            examples: Seq::new(self.examples@.len(), |i: int| self.examples@[i]@),
        }
    }
}

/// How many of the first `n` positions of two rows name the same id.
pub open spec fn matching(a: Seq<i32>, b: Seq<i32>, n: nat) -> nat
    decreases n,
{
    if n == 0 {
        0
    } else {
        matching(a, b, (n - 1) as nat) + if a[n - 1] == b[n - 1] {
            1nat
        } else {
            0nat
        }
    }
}

/// The first of the positions from `from` on at which two rows differ, or `n`.
pub open spec fn first_apart(a: Seq<i32>, b: Seq<i32>, from: nat, n: nat) -> nat
    decreases n - from,
{
    if from >= n || a[from as int] != b[from as int] {
        from
    } else {
        first_apart(a, b, from + 1, n)
    }
}

/// What the first `n` rows of two lists have in common. The second may be wider than the first:
/// then only its leading columns take part.
pub open spec fn tallied(ours: Seq<Seq<i32>>, theirs: Seq<Seq<i32>>, k: nat, n: nat) -> Tally
    decreases n,
{
    if n == 0 {
        Tally {
            identical_rows: 0,
            same_set_rows: 0,
            identical_positions: 0,
            examples: Seq::empty(),
        }
    } else {
        let t = tallied(ours, theirs, k, (n - 1) as nat);
        let mine = ours[n - 1];
        let other = theirs[n - 1].take(k as int);
        let same = matching(mine, other, k);
        if same == k {
            Tally {
                identical_rows: t.identical_rows + 1,
                same_set_rows: t.same_set_rows + 1,
                identical_positions: t.identical_positions + same,
                examples: t.examples,
            }
        } else {
            Tally {
                identical_rows: t.identical_rows,
                same_set_rows: t.same_set_rows + if mine.to_multiset() == other.to_multiset() {
                    1nat
                } else {
                    0nat
                },
                identical_positions: t.identical_positions + same,
                examples: if t.examples.len() < MAX_EXAMPLES {
                    t.examples.push(
                        Difference {
                            query: n - 1,
                            first_difference: first_apart(mine, other, 0, k) as int,
                            ours: mine,
                            reference: other,
                        },
                    )
                } else {
                    t.examples
                },
            }
        }
    }
}

/// The error for lists whose shapes cannot be compared.
pub open spec fn shapes_apart(ours: IntMatrix, reference: IntMatrix) -> VectorError {
    VectorError::ShapeMismatch {
        left: "ours",
        left_rows: ours@.len() as usize,
        left_cols: ours.width() as usize,
        right: "reference",
        right_rows: reference@.len() as usize,
        right_cols: reference.width() as usize,
    }
}

pub proof fn lemma_matching(a: Seq<i32>, b: Seq<i32>, n: nat)
    ensures
        matching(a, b, n) <= n,
        matching(a, b, n) == n <==> forall|i: int| 0 <= i < n ==> a[i] == b[i],
    decreases n,
{
    if n > 0 {
        lemma_matching(a, b, (n - 1) as nat);
        if matching(a, b, n) == n {
            assert forall|i: int| 0 <= i < n implies a[i] == b[i] by {}
        }
    }
}

/// The positions at which two rows agree, counted.
fn count_matching(a: &[i32], b: &[i32]) -> (r: usize)
    requires
        a@.len() == b@.len(),
    ensures
        r == matching(a@, b@, a@.len()),
{
    let mut same: usize = 0;
    let mut i: usize = 0;
    while i < a.len()
        invariant
            i <= a@.len(),
            a@.len() == b@.len(),
            same == matching(a@, b@, i as nat),
            same <= i,
        decreases a@.len() - i,
    {
        if a[i] == b[i] {
            same += 1;
        }
        i += 1;
    }
    same
}

fn find_apart(a: &[i32], b: &[i32]) -> (r: usize)
    requires
        a@.len() == b@.len(),
    ensures
        r == first_apart(a@, b@, 0, a@.len()),
{
    let mut i: usize = 0;
    while i < a.len() && a[i] == b[i]
        invariant
            i <= a@.len(),
            a@.len() == b@.len(),
            first_apart(a@, b@, 0, a@.len()) == first_apart(a@, b@, i as nat, a@.len()),
        decreases a@.len() - i,
    {
        i += 1;
    }
    i
}

pub open spec fn in_rising_order(s: Seq<i32>) -> bool {
    forall|i: int, j: int| 0 <= i < j < s.len() ==> #[trigger] s[i] <= #[trigger] s[j]
}

/// The values of a row in rising order.
fn sorted(row: &[i32]) -> (r: Vec<i32>)
    ensures
        in_rising_order(r@),
        r@.to_multiset() == row@.to_multiset(),
        r@.len() == row@.len(),
{
    let mut r: Vec<i32> = Vec::with_capacity(row.len());
    let mut i: usize = 0;
    proof {
        assert(row@.take(0) =~= r@);
    }
    while i < row.len()
        invariant
            i <= row@.len(),
            r@.len() == i,
            in_rising_order(r@),
            r@.to_multiset() == row@.take(i as int).to_multiset(),
        decreases row@.len() - i,
    {
        let x: i32 = row[i];
        let ghost s = r@;
        let mut at: usize = r.len();
        while at > 0 && r[at - 1] > x
            invariant
                at <= r@.len(),
                r@ == s,
                in_rising_order(s),
                forall|j: int| at <= j < s.len() ==> #[trigger] s[j] > x,
            decreases at,
        {
            at -= 1;
        }
        r.insert(at, x);
        proof {
            vstd::seq_lib::to_multiset_insert(s, at as int, x);
            vstd::seq_lib::to_multiset_build(row@.take(i as int), x);
            assert(row@.take(i + 1) =~= row@.take(i as int).push(x));
            assert forall|a: int, b: int| 0 <= a < b < r@.len() implies #[trigger] r@[a]
                <= #[trigger] r@[b] by {
                let p = if a < at { a } else { a - 1 };
                let q = if b < at { b } else { b - 1 };
                if a == at {
                    assert(s[q] > x);
                } else if b == at {
                    assert(s[p] <= s[at - 1]);
                } else {
                    assert(s[p] <= s[q]);
                }
            }
        }
        i += 1;
    }
    proof {
        assert(row@.take(i as int) =~= row@);
    }
    r
}

/// Whether two rows hold the same ids, in any order.
fn same_ids(a: &[i32], b: &[i32]) -> (r: bool)
    requires
        a@.len() == b@.len(),
    ensures
        r == (a@.to_multiset() == b@.to_multiset()),
{
    let x = sorted(a);
    let y = sorted(b);
    proof {
        if a@.to_multiset() == b@.to_multiset() {
            let leq = |m: i32, n: i32| m <= n;
            assert(vstd::relations::sorted_by(x@, leq));
            assert(vstd::relations::sorted_by(y@, leq));
            vstd::seq_lib::lemma_sorted_unique(x@, y@, leq);
        }
    }
    let mut i: usize = 0;
    while i < x.len()
        invariant
            i <= x@.len(),
            x@.len() == y@.len(),
            x@.to_multiset() == a@.to_multiset(),
            y@.to_multiset() == b@.to_multiset(),
            a@.to_multiset() == b@.to_multiset() ==> x@ == y@,
            forall|j: int| 0 <= j < i ==> x@[j] == y@[j],
        decreases x@.len() - i,
    {
        if x[i] != y[i] {
            return false;
        }
        i += 1;
    }
    proof {
        assert(x@ =~= y@);
    }
    true
}

/// Compares two neighbour lists position by position. `ours` sets the width: only as many leading
/// columns of `reference` take part.
pub fn compare(ours: &IntMatrix, reference: &IntMatrix) -> (r: Result<Agreement, VectorError>)
    requires
        ours.wf(),
        reference.wf(),
    ensures
        match r {
            Ok(agreement) => {
                &&& ours@.len() == reference@.len()
                &&& reference.width() >= ours.width()
                &&& agreement.queries == ours@.len()
                &&& agreement.k == ours.width()
                &&& agreement@ == tallied(ours@, reference@, ours.width(), ours@.len())
            },
            Err(e) => {
                &&& ours@.len() != reference@.len() || reference.width() < ours.width()
                &&& e == shapes_apart(*ours, *reference)
            },
        },
{
    let k: usize = ours.dim();
    let count: usize = ours.len();
    if count != reference.len() || reference.dim() < k {
        return Err(
            VectorError::ShapeMismatch {
                left: "ours",
                left_rows: count,
                left_cols: k,
                right: "reference",
                right_rows: reference.len(),
                right_cols: reference.dim(),
            },
        );
    }
    let total: usize = ours.as_slice().len();
    let mut identical_rows: usize = 0;
    let mut same_set_rows: usize = 0;
    let mut identical_positions: usize = 0;
    let mut examples: Vec<RowDifference> = Vec::new();
    proof {
        ours.lemma_wf();
        reference.lemma_wf();
        assert(Seq::new(examples@.len(), |i: int| examples@[i]@) =~= Seq::<Difference>::empty());
        assert(0 * k == 0);
    }
    let mut query: usize = 0;
    while query < count
        invariant
            query <= count,
            ours.wf(),
            reference.wf(),
            count == ours@.len(),
            count == reference@.len(),
            k == ours.width(),
            k <= reference.width(),
            k >= 1,
            total == count * k,
            forall|i: int| 0 <= i < ours@.len() ==> (#[trigger] ours@[i]).len() == k,
            forall|i: int|
                0 <= i < reference@.len() ==> (#[trigger] reference@[i]).len()
                    == reference.width(),
            identical_rows <= query,
            same_set_rows <= query,
            identical_positions <= query * k,
            (Tally {
                identical_rows: identical_rows as nat,
                same_set_rows: same_set_rows as nat,
                identical_positions: identical_positions as nat,
                examples: Seq::new(examples@.len(), |i: int| examples@[i]@),
            }) == tallied(ours@, reference@, k as nat, query as nat),
        decreases count - query,
    {
        let mine = ours.row(query);
        let theirs = vstd::slice::slice_subrange(reference.row(query), 0, k);
        proof {
            assert(theirs@ =~= reference@[query as int].take(k as int));
            lemma_matching(mine@, theirs@, k as nat);
            lemma_row_bounds(query as int, k as int, count as int, total as int);
            assert((query + 1) * k == query * k + k) by (nonlinear_arith);
        }
        let ghost before = Seq::new(examples@.len(), |i: int| examples@[i]@);
        let same: usize = count_matching(mine, theirs);
        identical_positions += same;
        if same == k {
            identical_rows += 1;
            same_set_rows += 1;
        } else {
            if same_ids(mine, theirs) {
                same_set_rows += 1;
            }
            if examples.len() < MAX_EXAMPLES {
                let example = RowDifference {
                    query,
                    first_difference: find_apart(mine, theirs),
                    ours: vstd::slice::slice_to_vec(mine),
                    reference: vstd::slice::slice_to_vec(theirs),
                };
                let ghost said = example@;
                examples.push(example);
                proof {
                    assert(Seq::new(examples@.len(), |i: int| examples@[i]@) =~= before.push(said));
                }
            }
        }
        query += 1;
    }
    Ok(
        Agreement {
            queries: count,
            k,
            identical_rows,
            same_set_rows,
            identical_positions,
            examples,
        },
    )
}

impl Agreement {
    /// Whether the two lists are identical everywhere.
    pub fn is_exact(&self) -> (r: bool)
        ensures
            r == (self@.identical_rows == self.queries),
    {
        self.identical_rows == self.queries
    }
}

/// Lists agree exactly just when every row of the one is the leading part of the other's.
pub proof fn lemma_exact_agreement(ours: Seq<Seq<i32>>, theirs: Seq<Seq<i32>>, k: nat, n: nat)
    requires
        n <= ours.len(),
        n <= theirs.len(),
        forall|i: int| 0 <= i < ours.len() ==> (#[trigger] ours[i]).len() == k,
        forall|i: int| 0 <= i < theirs.len() ==> (#[trigger] theirs[i]).len() >= k,
    ensures
        tallied(ours, theirs, k, n).identical_rows <= n,
        tallied(ours, theirs, k, n).identical_rows <= tallied(ours, theirs, k, n).same_set_rows,
        tallied(ours, theirs, k, n).identical_rows == n <==> forall|i: int|
            0 <= i < n ==> #[trigger] ours[i] == theirs[i].take(k as int),
    decreases n,
{
    if n > 0 {
        lemma_exact_agreement(ours, theirs, k, (n - 1) as nat);
        let mine = ours[n - 1];
        let other = theirs[n - 1].take(k as int);
        lemma_matching(mine, other, k);
        if matching(mine, other, k) == k {
            assert(mine =~= other);
        }
    }
}

/// The ranks below `n` at which two rows name the same id are what is counted, wherever they are.
pub proof fn lemma_matching_counted(a: Seq<i32>, b: Seq<i32>, n: nat)
    ensures
        ({
            let same = Set::new(|i: int| 0 <= i < n && a[i] == b[i]);
            &&& same.finite()
            &&& matching(a, b, n) == same.len()
        }),
    decreases n,
{
    let same = Set::new(|i: int| 0 <= i < n && a[i] == b[i]);
    if n == 0 {
        assert(same =~= Set::empty());
    } else {
        let m = (n - 1) as nat;
        let fewer = Set::new(|i: int| 0 <= i < m && a[i] == b[i]);
        lemma_matching_counted(a, b, m);
        if a[n - 1] == b[n - 1] {
            assert(same =~= fewer.insert(n - 1));
        } else {
            assert(same =~= fewer);
        }
    }
}

/// What the three numbers of a comparison count: the rows that agree at every rank, the rows that
/// hold the same ids however they are ordered, and the pairs of a query and a rank at which both
/// lists name the same id.
pub proof fn lemma_agreement_counted(ours: Seq<Seq<i32>>, theirs: Seq<Seq<i32>>, k: nat, n: nat)
    requires
        n <= ours.len(),
        n <= theirs.len(),
        forall|i: int| 0 <= i < ours.len() ==> (#[trigger] ours[i]).len() == k,
        forall|i: int| 0 <= i < theirs.len() ==> (#[trigger] theirs[i]).len() >= k,
    ensures
        ({
            let t = tallied(ours, theirs, k, n);
            let rows = Set::new(
                |q: int|
                    0 <= q < n && forall|r: int| 0 <= r < k ==> ours[q][r] == #[trigger] theirs[q][r],
            );
            let sets = Set::new(
                |q: int|
                    0 <= q < n && ours[q].to_multiset() == theirs[q].take(k as int).to_multiset(),
            );
            let positions = Set::new(
                |p: (int, int)| 0 <= p.0 < n && 0 <= p.1 < k && ours[p.0][p.1] == theirs[p.0][p.1],
            );
            &&& rows.finite() && sets.finite() && positions.finite()
            &&& t.identical_rows == rows.len()
            &&& t.same_set_rows == sets.len()
            &&& t.identical_positions == positions.len()
        }),
    decreases n,
{
    let rows = Set::new(
        |q: int| 0 <= q < n && forall|r: int| 0 <= r < k ==> ours[q][r] == #[trigger] theirs[q][r],
    );
    let sets = Set::new(
        |q: int| 0 <= q < n && ours[q].to_multiset() == theirs[q].take(k as int).to_multiset(),
    );
    let positions = Set::new(
        |p: (int, int)| 0 <= p.0 < n && 0 <= p.1 < k && ours[p.0][p.1] == theirs[p.0][p.1],
    );
    if n == 0 {
        assert(rows =~= Set::empty());
        assert(sets =~= Set::empty());
        assert(positions =~= Set::empty());
    } else {
        let m = (n - 1) as nat;
        lemma_agreement_counted(ours, theirs, k, m);
        let fewer_rows = Set::new(
            |q: int|
                0 <= q < m && forall|r: int| 0 <= r < k ==> ours[q][r] == #[trigger] theirs[q][r],
        );
        let fewer_sets = Set::new(
            |q: int| 0 <= q < m && ours[q].to_multiset() == theirs[q].take(k as int).to_multiset(),
        );
        let fewer = Set::new(
            |p: (int, int)| 0 <= p.0 < m && 0 <= p.1 < k && ours[p.0][p.1] == theirs[p.0][p.1],
        );
        let mine = ours[n - 1];
        let other = theirs[n - 1].take(k as int);
        lemma_matching(mine, other, k);
        lemma_matching_counted(mine, other, k);
        let same = Set::new(|i: int| 0 <= i < k && mine[i] == other[i]);
        let here = Set::new(|p: (int, int)| p.0 == n - 1 && same.contains(p.1));
        lemma_in_row(same, n - 1);
        assert(positions =~= fewer.union(here));
        lemma_apart(fewer, here);
        if matching(mine, other, k) == k {
            assert(mine =~= other);
            assert(rows =~= fewer_rows.insert(n - 1)) by {
                assert forall|r: int| 0 <= r < k implies ours[n - 1][r] == #[trigger] theirs[n
                    - 1][r] by {
                    assert(mine[r] == other[r]);
                }
            }
        } else {
            assert(rows =~= fewer_rows) by {
                if rows.contains(n - 1) {
                    assert forall|i: int| 0 <= i < k implies mine[i] == other[i] by {
                        assert(ours[n - 1][i] == theirs[n - 1][i]);
                    }
                }
            }
        }
        if mine.to_multiset() == other.to_multiset() {
            assert(sets =~= fewer_sets.insert(n - 1));
        } else {
            assert(sets =~= fewer_sets);
        }
    }
}

/// Two rows agree before the first rank at which they are apart, and not at it.
pub proof fn lemma_first_apart(a: Seq<i32>, b: Seq<i32>, from: nat, n: nat)
    requires
        from <= n,
    ensures
        from <= first_apart(a, b, from, n) <= n,
        forall|i: int| from <= i < first_apart(a, b, from, n) ==> #[trigger] a[i] == b[i],
        first_apart(a, b, from, n) < n ==> a[first_apart(a, b, from, n) as int] != b[first_apart(
            a,
            b,
            from,
            n,
        ) as int],
    decreases n - from,
{
    if from < n && a[from as int] == b[from as int] {
        lemma_first_apart(a, b, from + 1, n);
    }
}

/// The examples of a comparison are the first rows that differ, in order and no more of them than
/// are kept: each shows both rows and the first rank at which they disagree, and a differing row
/// that is not shown comes after all that are.
pub proof fn lemma_examples(ours: Seq<Seq<i32>>, theirs: Seq<Seq<i32>>, k: nat, n: nat)
    requires
        n <= ours.len(),
        n <= theirs.len(),
        forall|i: int| 0 <= i < ours.len() ==> (#[trigger] ours[i]).len() == k,
        forall|i: int| 0 <= i < theirs.len() ==> (#[trigger] theirs[i]).len() >= k,
    ensures
        ({
            let shown = tallied(ours, theirs, k, n).examples;
            &&& shown.len() <= 5
            &&& forall|i: int| 0 <= i < shown.len() ==> {
                let e = #[trigger] shown[i];
                &&& 0 <= e.query < n
                &&& e.ours == ours[e.query]
                &&& e.reference == theirs[e.query].take(k as int)
                &&& 0 <= e.first_difference < k
                &&& ours[e.query][e.first_difference] != theirs[e.query][e.first_difference]
                &&& forall|r: int|
                    0 <= r < e.first_difference ==> ours[e.query][r] == #[trigger] theirs[e.query][r]
            }
            &&& forall|i: int, j: int|
                0 <= i < j < shown.len() ==> (#[trigger] shown[i]).query < (
                #[trigger] shown[j]).query
            &&& forall|q: int|
                0 <= q < n && ours[q] != (#[trigger] theirs[q]).take(k as int) ==> (exists|i: int|
                    0 <= i < shown.len() && (#[trigger] shown[i]).query == q) || (shown.len() == 5
                    && shown[4].query < q)
        }),
    decreases n,
{
    if n > 0 {
        let m = (n - 1) as nat;
        lemma_examples(ours, theirs, k, m);
        let before = tallied(ours, theirs, k, m).examples;
        let shown = tallied(ours, theirs, k, n).examples;
        let mine = ours[n - 1];
        let other = theirs[n - 1].take(k as int);
        lemma_matching(mine, other, k);
        lemma_first_apart(mine, other, 0, k);
        if matching(mine, other, k) == k {
            assert(mine =~= other);
        } else {
            let at = first_apart(mine, other, 0, k);
            assert(at < k) by {
                if at == k {
                    assert forall|i: int| 0 <= i < k implies mine[i] == other[i] by {}
                }
            }
            if before.len() < MAX_EXAMPLES {
                assert forall|r: int| 0 <= r < at implies ours[n - 1][r] == #[trigger] theirs[n
                    - 1][r] by {
                    assert(mine[r] == other[r]);
                }
                assert(shown.last().query == n - 1);
            }
        }
        assert forall|i: int| 0 <= i < before.len() implies #[trigger] shown[i] == before[i] by {}
        assert forall|q: int|
            0 <= q < n && ours[q] != (#[trigger] theirs[q]).take(k as int) implies (exists|i: int|
            0 <= i < shown.len() && (#[trigger] shown[i]).query == q) || (shown.len() == 5
            && shown[4].query < q) by {
            if q < m {
                if exists|i: int| 0 <= i < before.len() && (#[trigger] before[i]).query == q {
                    let i = choose|i: int|
                        0 <= i < before.len() && (#[trigger] before[i]).query == q;
                    assert(shown[i].query == q);
                }
            } else if before.len() < MAX_EXAMPLES {
                assert(shown[shown.len() - 1].query == q);
            } else {
                assert(before[4].query < m);
            }
        }
    }
}

/// A position where two lists name different ids, with the bits of both distances by the
/// reference kernel.
#[derive(Clone, Copy, Debug, PartialEq, Eq, Structural)]
pub struct PositionDifference {
    pub query: usize,
    pub rank: usize,
    pub our_id: i32,
    pub our_distance: u32,
    pub reference_id: i32,
    pub reference_distance: u32,
}

/// How far two neighbour lists agree on distances.
#[derive(Clone, Debug, PartialEq, Eq)]
pub struct DistanceAgreement {
    pub queries: usize,
    pub k: usize,
    /// Positions where the ids differ.
    pub differing_positions: usize,
    /// Of those, positions where the distances agree nevertheless.
    pub equivalent_positions: usize,
    pub examples: Vec<PositionDifference>,
}

impl DistanceAgreement {
    /// Whether every disagreement is merely a reordering of equidistant neighbours.
    pub fn is_equivalent(&self) -> (r: bool)
        ensures
            r == (self.differing_positions == self.equivalent_positions),
    {
        self.differing_positions == self.equivalent_positions
    }
}

/// The distances of two ids from a query, or why there are none.
pub open spec fn pair_distances<M: Metric>(
    q: Seq<u32>,
    vecs: Seq<Seq<u32>>,
    dim: nat,
    ours: i32,
    theirs: i32,
) -> Result<(u32, u32), VectorError> {
    let a = int_word(ours);
    let b = int_word(theirs);
    if q.len() != dim {
        Err(VectorError::DimMismatch { expected: dim as usize, found: q.len() as usize })
    } else if a >= vecs.len() {
        Err(VectorError::IdOutOfRange { id: a, count: vecs.len() as usize })
    } else if b >= vecs.len() {
        Err(VectorError::IdOutOfRange { id: b, count: vecs.len() as usize })
    } else {
        Ok((M::reference(q, vecs[a as int]), M::reference(q, vecs[b as int])))
    }
}

/// The differing ones of the first `n` positions, counted row by row, or why one of them cannot be
/// measured.
pub open spec fn apart_upto<M: Metric>(
    base: VectorStore,
    queries: Seq<Seq<u32>>,
    ours: Seq<Seq<i32>>,
    theirs: Seq<Seq<i32>>,
    k: int,
    n: nat,
) -> Result<Seq<PositionDifference>, VectorError>
    decreases n,
{
    if n == 0 {
        Ok(Seq::empty())
    } else {
        match apart_upto::<M>(base, queries, ours, theirs, k, (n - 1) as nat) {
            Err(e) => Err(e),
            Ok(found) => {
                let query = (n - 1) as int / k;
                let rank = (n - 1) as int % k;
                let a = ours[query][rank];
                let b = theirs[query][rank];
                if a == b {
                    Ok(found)
                } else {
                    match pair_distances::<M>(queries[query], base.all(), base.width(), a, b) {
                        Err(e) => Err(e),
                        Ok((x, y)) => Ok(
                            found.push(
                                PositionDifference {
                                    query: query as usize,
                                    rank: rank as usize,
                                    our_id: a,
                                    our_distance: x,
                                    reference_id: b,
                                    reference_distance: y,
                                },
                            ),
                        ),
                    }
                }
            },
        }
    }
}

proof fn lemma_apart_stops<M: Metric>(
    base: VectorStore,
    queries: Seq<Seq<u32>>,
    ours: Seq<Seq<i32>>,
    theirs: Seq<Seq<i32>>,
    k: int,
    n: nat,
    all: nat,
)
    requires
        n <= all,
        apart_upto::<M>(base, queries, ours, theirs, k, n) is Err,
    ensures
        apart_upto::<M>(base, queries, ours, theirs, k, all) == apart_upto::<M>(
            base,
            queries,
            ours,
            theirs,
            k,
            n,
        ),
    decreases all - n,
{
    if n < all {
        lemma_apart_stops::<M>(base, queries, ours, theirs, k, n, (all - 1) as nat);
    }
}

/// The positions at which two neighbour lists name different ids, with the distances of both by
/// the reference kernel. Where the ids agree there is nothing to measure.
pub fn differing_positions<M: Metric>(
    base: &VectorStore,
    queries: &VectorStore,
    ours: &IntMatrix,
    reference: &IntMatrix,
) -> (r: Result<Vec<PositionDifference>, VectorError>)
    requires
        base.wf(),
        queries.wf(),
        ours.wf(),
        reference.wf(),
    ensures
        if ours@.len() != reference@.len() || reference.width() < ours.width()
            || queries.all().len() != ours@.len() {
            r matches Err(e) && e == shapes_apart(*ours, *reference)
        } else {
            match (
                r,
                apart_upto::<M>(
                    *base,
                    queries.all(),
                    ours@,
                    reference@,
                    ours.width() as int,
                    ours.flat().len(),
                ),
            ) {
                (Ok(found), Ok(differences)) => found@ == differences,
                (Err(e), Err(f)) => e == f,
                _ => false,
            }
        },
{
    let k: usize = ours.dim();
    let count: usize = ours.len();
    if count != reference.len() || reference.dim() < k || queries.len() != count {
        return Err(
            VectorError::ShapeMismatch {
                left: "ours",
                left_rows: count,
                left_cols: k,
                right: "reference",
                right_rows: reference.len(),
                right_cols: reference.dim(),
            },
        );
    }
    let index = BruteForceIndex::new(base);
    let total: usize = ours.as_slice().len();
    let mut found: Vec<PositionDifference> = Vec::new();
    proof {
        ours.lemma_wf();
        reference.lemma_wf();
        queries.lemma_wf();
        base.lemma_wf();
    }
    let mut at: usize = 0;
    while at < total
        invariant
            at <= total,
            base.wf(),
            queries.wf(),
            ours.wf(),
            reference.wf(),
            index.store() == *base,
            base.all().len() <= u32::MAX,
            k == ours.width(),
            k >= 1,
            k <= reference.width(),
            count == ours@.len(),
            count == reference@.len(),
            count == queries.all().len(),
            total == count * k,
            total == ours.flat().len(),
            forall|i: int| 0 <= i < ours@.len() ==> (#[trigger] ours@[i]).len() == k,
            forall|i: int|
                0 <= i < reference@.len() ==> (#[trigger] reference@[i]).len()
                    == reference.width(),
            apart_upto::<M>(
                *base,
                queries.all(),
                ours@,
                reference@,
                k as int,
                at as nat,
            ) == Ok::<Seq<PositionDifference>, VectorError>(found@),
        decreases total - at,
    {
        let query: usize = at / k;
        let rank: usize = at % k;
        proof {
            vstd::arithmetic::div_mod::lemma_fundamental_div_mod(at as int, k as int);
            assert(query < count) by (nonlinear_arith)
                requires
                    at < count * k,
                    at == k * query + rank,
                    k >= 1,
                    rank >= 0,
            ;
        }
        let our_id: i32 = ours.row(query)[rank];
        let reference_id: i32 = reference.row(query)[rank];
        if our_id != reference_id {
            let pair: [NodeId; 2] = [to_word(our_id), to_word(reference_id)];
            match index.distances_to::<M>(queries.get(query), &pair, Kernel::Reference) {
                Err(e) => {
                    proof {
                        reveal_with_fuel(first_of, 3);
                        lemma_apart_stops::<M>(
                            *base,
                            queries.all(),
                            ours@,
                            reference@,
                            k as int,
                            (at + 1) as nat,
                            total as nat,
                        );
                    }
                    return Err(e);
                },
                Ok(distances) => {
                    proof {
                        assert(pair@[0] < base.all().len());
                        assert(pair@[1] < base.all().len());
                    }
                    found.push(
                        PositionDifference {
                            query,
                            rank,
                            our_id,
                            our_distance: distances[0],
                            reference_id,
                            reference_distance: distances[1],
                        },
                    );
                },
            }
        }
        at += 1;
    }
    Ok(found)
}

/// What differing positions are found: every position at which the two lists name different ids,
/// row by row and each once, with both ids and the reference distances of both. There is a reason
/// for not listing them just when one of the two ids of such a position names no vector, or a
/// query has another dimension, and it is that of the first such position.
pub proof fn lemma_positions_apart<M: Metric>(
    base: VectorStore,
    queries: Seq<Seq<u32>>,
    ours: Seq<Seq<i32>>,
    theirs: Seq<Seq<i32>>,
    k: int,
    n: nat,
)
    requires
        k >= 1,
        n <= usize::MAX,
    ensures
        match apart_upto::<M>(base, queries, ours, theirs, k, n) {
            Ok(found) => {
                &&& forall|i: int| 0 <= i < found.len() ==> {
                    let d = #[trigger] found[i];
                    &&& d.query * k + d.rank < n
                    &&& d.rank < k
                    &&& d.our_id == ours[d.query as int][d.rank as int]
                    &&& d.reference_id == theirs[d.query as int][d.rank as int]
                    &&& d.our_id != d.reference_id
                    &&& int_word(d.our_id) < base.all().len()
                    &&& int_word(d.reference_id) < base.all().len()
                    &&& d.our_distance == M::reference(
                        queries[d.query as int],
                        base.all()[int_word(d.our_id) as int],
                    )
                    &&& d.reference_distance == M::reference(
                        queries[d.query as int],
                        base.all()[int_word(d.reference_id) as int],
                    )
                }
                &&& forall|i: int, j: int|
                    0 <= i < j < found.len() ==> (#[trigger] found[i]).query * k + found[i].rank < (
                    #[trigger] found[j]).query * k + found[j].rank
                &&& forall|at: int|
                    0 <= at < n && #[trigger] ours[at / k][at % k] != theirs[at / k][at % k]
                        ==> exists|i: int|
                        0 <= i < found.len() && (#[trigger] found[i]).query == at / k
                            && found[i].rank == at % k
            },
            Err(e) => exists|at: int|
                0 <= at < n && #[trigger] ours[at / k][at % k] != theirs[at / k][at % k]
                    && pair_distances::<M>(
                    queries[at / k],
                    base.all(),
                    base.width(),
                    ours[at / k][at % k],
                    theirs[at / k][at % k],
                ) == Err::<(u32, u32), VectorError>(e) && apart_upto::<M>(
                    base,
                    queries,
                    ours,
                    theirs,
                    k,
                    at as nat,
                ) is Ok,
        },
    decreases n,
{
    if n > 0 {
        let m = (n - 1) as nat;
        lemma_positions_apart::<M>(base, queries, ours, theirs, k, m);
        let query = m as int / k;
        let rank = m as int % k;
        vstd::arithmetic::div_mod::lemma_fundamental_div_mod(m as int, k);
        assert(k * query == query * k) by (nonlinear_arith);
        assert(0 <= query <= m) by (nonlinear_arith)
            requires
                m == query * k + rank,
                0 <= rank < k,
                m >= 0,
                query == m as int / k,
        {
            vstd::arithmetic::div_mod::lemma_div_pos_is_pos(m as int, k);
            vstd::arithmetic::div_mod::lemma_div_is_ordered_by_denominator(m as int, 1, k);
        }
        let a = ours[query][rank];
        let b = theirs[query][rank];
        match apart_upto::<M>(base, queries, ours, theirs, k, m) {
            Err(e) => {},
            Ok(before) => {
                match apart_upto::<M>(base, queries, ours, theirs, k, n) {
                    Err(e) => {
                        assert(ours[m as int / k][m as int % k] != theirs[m as int / k][m as int
                            % k]);
                    },
                    Ok(found) => {
                        assert forall|i: int| 0 <= i < before.len() implies #[trigger] found[i]
                            == before[i] by {}
                        if a != b {
                            assert(found.last().query == query && found.last().rank == rank);
                        }
                        assert forall|at: int|
                            0 <= at < n && #[trigger] ours[at / k][at % k] != theirs[at / k][at
                                % k] implies exists|i: int|
                            0 <= i < found.len() && (#[trigger] found[i]).query == at / k
                                && found[i].rank == at % k by {
                            if at < m {
                                let i = choose|i: int|
                                    0 <= i < before.len() && (#[trigger] before[i]).query == at / k
                                        && before[i].rank == at % k;
                                assert(found[i] == before[i]);
                            } else {
                                assert(found[found.len() - 1].query == at / k);
                            }
                        }
                    },
                }
            },
        }
    }
}

/// How many of the first `n` flags are set.
pub open spec fn set_flags(flags: Seq<bool>, n: nat) -> nat
    decreases n,
{
    if n == 0 {
        0
    } else {
        set_flags(flags, (n - 1) as nat) + if flags[n - 1] {
            1nat
        } else {
            0nat
        }
    }
}

/// The first of the differences whose flag is not set, no more of them than are kept.
pub open spec fn unset_examples(
    differences: Seq<PositionDifference>,
    flags: Seq<bool>,
    n: nat,
) -> Seq<PositionDifference>
    decreases n,
{
    if n == 0 {
        Seq::empty()
    } else {
        let earlier = unset_examples(differences, flags, (n - 1) as nat);
        if !flags[n - 1] && earlier.len() < MAX_EXAMPLES {
            earlier.push(differences[n - 1])
        } else {
            earlier
        }
    }
}

/// `r` sums up the differences between lists of `k` neighbours for `queries` queries.
pub open spec fn sums_up(
    r: DistanceAgreement,
    queries: nat,
    k: nat,
    differences: Seq<PositionDifference>,
    flags: Seq<bool>,
) -> bool {
    &&& r.queries == queries
    &&& r.k == k
    &&& r.differing_positions == differences.len()
    &&& r.equivalent_positions == set_flags(flags, flags.len())
    &&& r.examples@ == unset_examples(differences, flags, flags.len())
}

/// Sums up differing positions, each with the verdict whether its two distances agree.
pub fn distance_agreement(
    queries: usize,
    k: usize,
    differences: &[PositionDifference],
    within: &[bool],
) -> (r: DistanceAgreement)
    requires
        differences@.len() == within@.len(),
    ensures
        sums_up(r, queries as nat, k as nat, differences@, within@),
{
    let mut equivalent_positions: usize = 0;
    let mut examples: Vec<PositionDifference> = Vec::new();
    let mut i: usize = 0;
    while i < differences.len()
        invariant
            i <= differences@.len(),
            differences@.len() == within@.len(),
            equivalent_positions == set_flags(within@, i as nat),
            equivalent_positions <= i,
            examples@ == unset_examples(differences@, within@, i as nat),
        decreases differences@.len() - i,
    {
        if within[i] {
            equivalent_positions += 1;
        } else if examples.len() < MAX_EXAMPLES {
            examples.push(differences[i]);
        }
        i += 1;
    }
    DistanceAgreement {
        queries,
        k,
        differing_positions: differences.len(),
        equivalent_positions,
        examples,
    }
}

/// `flags` holds what `within` may answer of the two distances of each difference.
pub open spec fn judged<F: Fn(u32, u32) -> bool>(
    within: F,
    differences: Seq<PositionDifference>,
    flags: Seq<bool>,
) -> bool {
    &&& flags.len() == differences.len()
    &&& forall|i: int|
        0 <= i < flags.len() ==> call_ensures(
            within,
            (differences[i].our_distance, differences[i].reference_distance),
            #[trigger] flags[i],
        )
}

/// Asks whether two neighbour lists are distance-equivalent. `within` says whether the distance
/// of our id and that of the other, both by the reference kernel, agree; it is asked at every
/// position where the ids differ.
pub fn distance_equivalence<M: Metric, F: Fn(u32, u32) -> bool>(
    base: &VectorStore,
    queries: &VectorStore,
    ours: &IntMatrix,
    reference: &IntMatrix,
    within: &F,
) -> (r: Result<DistanceAgreement, VectorError>)
    requires
        base.wf(),
        queries.wf(),
        ours.wf(),
        reference.wf(),
        forall|a: u32, b: u32| call_requires(*within, (a, b)),
    ensures
        if ours@.len() != reference@.len() || reference.width() < ours.width()
            || queries.all().len() != ours@.len() {
            r matches Err(e) && e == shapes_apart(*ours, *reference)
        } else {
            match (
                r,
                apart_upto::<M>(
                    *base,
                    queries.all(),
                    ours@,
                    reference@,
                    ours.width() as int,
                    ours.flat().len(),
                ),
            ) {
                (Ok(found), Ok(differences)) => exists|flags: Seq<bool>|
                    #[trigger] judged(*within, differences, flags) && sums_up(
                        found,
                        ours@.len(),
                        ours.width(),
                        differences,
                        flags,
                    ),
                (Err(e), Err(f)) => e == f,
                _ => false,
            }
        },
{
    match differing_positions::<M>(base, queries, ours, reference) {
        Err(e) => Err(e),
        Ok(differences) => {
            let mut flags: Vec<bool> = Vec::new();
            let mut i: usize = 0;
            while i < differences.len()
                invariant
                    i <= differences@.len(),
                    flags@.len() == i,
                    forall|a: u32, b: u32| call_requires(*within, (a, b)),
                    judged(*within, differences@.take(i as int), flags@),
                decreases differences@.len() - i,
            {
                let flag: bool = within(
                    differences[i].our_distance,
                    differences[i].reference_distance,
                );
                let ghost earlier = flags@;
                flags.push(flag);
                i += 1;
                proof {
                    let so_far = differences@.take(i as int);
                    assert forall|j: int| 0 <= j < flags@.len() implies call_ensures(
                        *within,
                        (so_far[j].our_distance, so_far[j].reference_distance),
                        #[trigger] flags@[j],
                    ) by {
                        if j < i - 1 {
                            assert(flags@[j] == earlier[j]);
                            assert(so_far[j] == differences@.take(i - 1)[j]);
                        }
                    }
                }
            }
            proof {
                assert(differences@.take(i as int) =~= differences@);
            }
            let found = distance_agreement(ours.len(), ours.dim(), &differences, &flags);
            proof {
                assert(judged(*within, differences@, flags@));
                assert(sums_up(found, ours@.len(), ours.width(), differences@, flags@));
            }
            Ok(found)
        },
    }
}

/// Lists are equivalent just when every difference is between equidistant neighbours.
pub proof fn lemma_equivalence(flags: Seq<bool>, n: nat)
    requires
        n <= flags.len(),
    ensures
        set_flags(flags, n) <= n,
        set_flags(flags, n) == n <==> forall|i: int| 0 <= i < n ==> flags[i],
    decreases n,
{
    if n > 0 {
        lemma_equivalence(flags, (n - 1) as nat);
    }
}

/// The flags that are set are counted, wherever they are.
pub proof fn lemma_flags_counted(flags: Seq<bool>, n: nat)
    ensures
        ({
            let set = Set::new(|i: int| 0 <= i < n && flags[i]);
            &&& set.finite()
            &&& set_flags(flags, n) == set.len()
        }),
    decreases n,
{
    let set = Set::new(|i: int| 0 <= i < n && flags[i]);
    if n == 0 {
        assert(set =~= Set::empty());
    } else {
        let m = (n - 1) as nat;
        let fewer = Set::new(|i: int| 0 <= i < m && flags[i]);
        lemma_flags_counted(flags, m);
        if flags[n - 1] {
            assert(set =~= fewer.insert(n - 1));
        } else {
            assert(set =~= fewer);
        }
    }
}

/// The examples are the first differences between neighbours that are not equidistant, in order
/// and no more of them than are kept.
pub proof fn lemma_unset_examples(
    differences: Seq<PositionDifference>,
    flags: Seq<bool>,
    n: nat,
)
    requires
        n <= flags.len(),
        n <= differences.len(),
    ensures
        exists|at: Seq<int>| {
            &&& #[trigger] at.len() == unset_examples(differences, flags, n).len()
            &&& at.len() <= 5
            &&& forall|i: int|
                0 <= i < at.len() ==> 0 <= #[trigger] at[i] < n && !flags[at[i]]
                    && unset_examples(differences, flags, n)[i] == differences[at[i]]
            &&& forall|i: int, j: int| 0 <= i < j < at.len() ==> #[trigger] at[i] < #[trigger] at[j]
            &&& forall|p: int|
                0 <= p < n && !#[trigger] flags[p] ==> at.contains(p) || (at.len() == 5 && at[4] < p)
        },
    decreases n,
{
    let shown = unset_examples(differences, flags, n);
    if n == 0 {
        let at = Seq::<int>::empty();
        assert(at.len() == shown.len());
    } else {
        let m = (n - 1) as nat;
        lemma_unset_examples(differences, flags, m);
        let before = unset_examples(differences, flags, m);
        let from = choose|at: Seq<int>| {
            &&& #[trigger] at.len() == before.len()
            &&& at.len() <= 5
            &&& forall|i: int|
                0 <= i < at.len() ==> 0 <= #[trigger] at[i] < m && !flags[at[i]] && before[i]
                    == differences[at[i]]
            &&& forall|i: int, j: int| 0 <= i < j < at.len() ==> #[trigger] at[i] < #[trigger] at[j]
            &&& forall|p: int|
                0 <= p < m && !#[trigger] flags[p] ==> at.contains(p) || (at.len() == 5 && at[4] < p)
        };
        let at = if !flags[n - 1] && before.len() < MAX_EXAMPLES {
            from.push(n - 1)
        } else {
            from
        };
        assert(at.len() == shown.len());
        assert forall|p: int| 0 <= p < n && !#[trigger] flags[p] implies at.contains(p) || (
        at.len() == 5 && at[4] < p) by {
            if p < m {
                if from.contains(p) {
                    let i = from.index_of(p);
                    assert(at[i] == p);
                }
            } else if before.len() < MAX_EXAMPLES {
                assert(at[at.len() - 1] == p);
            } else {
                assert(from[4] < m);
            }
        }
    }
}

/// A list differs from itself nowhere.
pub proof fn lemma_nothing_apart_from_itself<M: Metric>(
    base: VectorStore,
    queries: Seq<Seq<u32>>,
    list: Seq<Seq<i32>>,
    k: int,
    n: nat,
)
    ensures
        apart_upto::<M>(base, queries, list, list, k, n) == Ok::<
            Seq<PositionDifference>,
            VectorError,
        >(Seq::empty()),
    decreases n,
{
    if n > 0 {
        lemma_nothing_apart_from_itself::<M>(base, queries, list, k, (n - 1) as nat);
    }
}

/// Neighbours can be computed if and only if both sets have vectors of the same size and there are
/// as many vectors as neighbours are asked for, at least one.
pub proof fn lemma_compute_error(base_dim: nat, query_dim: nat, count: nat, k: nat)
    requires
        base_dim <= usize::MAX,
        query_dim <= usize::MAX,
        count <= usize::MAX,
        k <= usize::MAX,
    ensures
        compute_error(base_dim, query_dim, count, k) is None <==> base_dim == query_dim && 1 <= k
            <= count,
        match compute_error(base_dim, query_dim, count, k) {
            Some(VectorError::DimMismatch { expected, found }) => expected == base_dim && found
                == query_dim && expected != found,
            Some(VectorError::InvalidK { k: asked, available }) => asked == k && available == count
                && base_dim == query_dim && (asked == 0 || asked > available),
            Some(_) => false,
            None => true,
        },
{
}

/// A summary of differences counts all of them, and among them those between neighbours that are
/// equidistant; its examples are differences that are not.
pub proof fn lemma_summary(
    r: DistanceAgreement,
    queries: nat,
    k: nat,
    differences: Seq<PositionDifference>,
    flags: Seq<bool>,
)
    requires
        sums_up(r, queries, k, differences, flags),
        flags.len() == differences.len(),
    ensures
        ({
            let equidistant = Set::new(|i: int| 0 <= i < flags.len() && flags[i]);
            &&& r.queries == queries && r.k == k
            &&& r.differing_positions == differences.len()
            &&& equidistant.finite()
            &&& r.equivalent_positions == equidistant.len() <= r.differing_positions
            &&& r.examples@.len() <= 5
            &&& forall|e: int|
                0 <= e < r.examples@.len() ==> exists|i: int|
                    0 <= i < flags.len() && !flags[i] && #[trigger] differences[i]
                        == #[trigger] r.examples@[e]
            &&& r.examples@.len() == 0 <==> r.equivalent_positions == r.differing_positions
        }),
{
    let n = flags.len();
    let equidistant = Set::new(|i: int| 0 <= i < n && flags[i]);
    let all = Set::new(|i: int| 0 <= i < n);
    lemma_flags_counted(flags, n);
    lemma_unset_examples(differences, flags, n);
    let examples = unset_examples(differences, flags, n);
    let at = choose|at: Seq<int>| {
        &&& #[trigger] at.len() == examples.len()
        &&& at.len() <= 5
        &&& forall|i: int|
            0 <= i < at.len() ==> 0 <= #[trigger] at[i] < n && !flags[at[i]] && examples[i]
                == differences[at[i]]
        &&& forall|i: int, j: int| 0 <= i < j < at.len() ==> #[trigger] at[i] < #[trigger] at[j]
        &&& forall|p: int|
            0 <= p < n && !#[trigger] flags[p] ==> at.contains(p) || (at.len() == 5 && at[4] < p)
    };
    let trues = Seq::new(n, |i: int| true);
    lemma_flags_counted(trues, n);
    assert(Set::new(|i: int| 0 <= i < n && trues[i]) =~= all);
    lemma_all_set(trues, n);
    vstd::set_lib::lemma_len_subset(equidistant, all);
    assert forall|e: int| 0 <= e < r.examples@.len() implies exists|i: int|
        0 <= i < flags.len() && !flags[i] && #[trigger] differences[i]
            == #[trigger] r.examples@[e] by {
        assert(differences[at[e]] == r.examples@[e]);
    }
    if r.examples@.len() == 0 {
        assert forall|p: int| 0 <= p < n implies flags[p] by {
            if !flags[p] {
                assert(at.contains(p));
            }
        }
        assert(equidistant =~= all);
    } else {
        let p = at[0];
        assert(!flags[p]);
        assert(!equidistant.contains(p) && all.contains(p));
        assert(equidistant.insert(p).subset_of(all));
        vstd::set_lib::lemma_len_subset(equidistant.insert(p), all);
    }
}

/// Flags that are all set are counted one by one.
proof fn lemma_all_set(flags: Seq<bool>, n: nat)
    requires
        forall|i: int| 0 <= i < n ==> #[trigger] flags[i],
    ensures
        set_flags(flags, n) == n,
    decreases n,
{
    if n > 0 {
        assert(flags[n - 1]);
        lemma_all_set(flags, (n - 1) as nat);
    }
}

} // verus!
