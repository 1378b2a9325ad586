//! Neighbour selection.
//!
//! Taking the nearest candidates builds a graph that passes every structural check and searches
//! badly: every edge is short, and no bridge survives between distant clusters. The heuristic
//! keeps a candidate only when it is closer to the query than to anything already selected, which
//! spreads the chosen neighbours across directions.

use vstd::prelude::*;

use crate::bits;
use crate::candidate::{self, in_order, ordered, Candidate};
use crate::hnsw::stats::{counted, lemma_counted, Count};
use crate::metric::Metric;
use crate::vector_store::VectorStore;
use crate::NodeId;

verus! {

/// How neighbours are chosen.
#[derive(Clone, Copy, Debug, PartialEq, Eq, Structural)]
pub struct SelectionPolicy {
    /// Discard candidates that are closer to a chosen neighbour than to the query. Without it the
    /// nearest candidates are taken.
    pub heuristic: bool,
    /// Fill up with the nearest discarded candidates.
    pub keep_pruned: bool,
}

impl Default for SelectionPolicy {
    fn default() -> (r: Self)
        ensures
            r == (SelectionPolicy { heuristic: true, keep_pruned: true }),
    {
        SelectionPolicy { heuristic: true, keep_pruned: true }
    }
}

impl SelectionPolicy {
    /// Nearest neighbours only.
    pub fn naive() -> (r: Self)
        ensures
            r == (SelectionPolicy { heuristic: false, keep_pruned: false }),
    {
        SelectionPolicy { heuristic: false, keep_pruned: false }
    }
}

/// Some neighbour already chosen is closer to the candidate than the query is.
pub open spec fn dominated<M: Metric>(
    vecs: Seq<Seq<u32>>,
    c: Candidate,
    chosen: Seq<NodeId>,
) -> bool {
    exists|k: int|
        0 <= k < chosen.len() && bits::less(
            M::fast(vecs[c.id as int], vecs[#[trigger] chosen[k] as int]),
            c.dist_bits(),
        )
}

/// Candidates, nearest first, divided into the ones chosen and the ones pruned. Once `m` are
/// chosen the rest is not looked at.
pub open spec fn divided<M: Metric>(vecs: Seq<Seq<u32>>, s: Seq<Candidate>, m: nat) -> (
    Seq<NodeId>,
    Seq<NodeId>,
)
    decreases s.len(),
{
    if s.len() == 0 {
        (Seq::empty(), Seq::empty())
    } else {
        let (chosen, pruned) = divided::<M>(vecs, s.drop_last(), m);
        if chosen.len() >= m {
            (chosen, pruned)
        } else if dominated::<M>(vecs, s.last(), chosen) {
            (chosen, pruned.push(s.last().id))
        } else {
            (chosen.push(s.last().id), pruned)
        }
    }
}

/// How many of the chosen ones a candidate is compared with: all of them, or those up to the first
/// that is nearer to it than the base is.
pub open spec fn compared_with<M: Metric>(
    vecs: Seq<Seq<u32>>,
    c: Candidate,
    chosen: Seq<NodeId>,
) -> nat
    decreases chosen.len(),
{
    if chosen.len() == 0 {
        0
    } else if dominated::<M>(vecs, c, chosen.drop_last()) {
        compared_with::<M>(vecs, c, chosen.drop_last())
    } else {
        chosen.len()
    }
}

/// How many distances dividing candidates computes.
pub open spec fn division_cost<M: Metric>(vecs: Seq<Seq<u32>>, s: Seq<Candidate>, m: nat) -> nat
    decreases s.len(),
{
    if s.len() == 0 {
        0
    } else {
        let chosen = divided::<M>(vecs, s.drop_last(), m).0;
        let before = division_cost::<M>(vecs, s.drop_last(), m);
        if chosen.len() >= m {
            before
        } else {
            before + compared_with::<M>(vecs, s.last(), chosen)
        }
    }
}

/// How many distances a selection computes.
pub open spec fn selection_cost<M: Metric>(
    vecs: Seq<Seq<u32>>,
    s: Seq<Candidate>,
    m: nat,
    policy: SelectionPolicy,
) -> nat {
    if policy.heuristic {
        division_cost::<M>(vecs, s, m)
    } else {
        0
    }
}

/// Without a place to fill, no distance is computed.
proof fn lemma_nothing_to_fill<M: Metric>(vecs: Seq<Seq<u32>>, s: Seq<Candidate>)
    ensures
        division_cost::<M>(vecs, s, 0) == 0,
    decreases s.len(),
{
    if s.len() > 0 {
        lemma_nothing_to_fill::<M>(vecs, s.drop_last());
    }
}

/// Where the first dominating neighbour is decides how many a candidate is compared with.
proof fn lemma_compared_with<M: Metric>(
    vecs: Seq<Seq<u32>>,
    c: Candidate,
    chosen: Seq<NodeId>,
    k: int,
)
    requires
        0 <= k <= chosen.len(),
        !dominated::<M>(vecs, c, chosen.take(k)),
        k < chosen.len() ==> dominated::<M>(vecs, c, chosen.take(k + 1)),
    ensures
        compared_with::<M>(vecs, c, chosen) == if k < chosen.len() {
            (k + 1) as nat
        } else {
            chosen.len()
        },
    decreases chosen.len(),
{
    if chosen.len() > 0 {
        let rest = chosen.drop_last();
        if k < chosen.len() - 1 {
            assert(rest.take(k) =~= chosen.take(k));
            assert(rest.take(k + 1) =~= chosen.take(k + 1));
            let n = choose|n: int|
                0 <= n < k + 1 && bits::less(
                    M::fast(vecs[c.id as int], vecs[#[trigger] chosen.take(k + 1)[n] as int]),
                    c.dist_bits(),
                );
            assert(rest[n] == chosen.take(k + 1)[n]);
            assert(dominated::<M>(vecs, c, rest));
            lemma_compared_with::<M>(vecs, c, rest, k);
        } else {
            assert(rest =~= chosen.take(chosen.len() - 1));
            if k == chosen.len() {
                if dominated::<M>(vecs, c, rest) {
                    let n = choose|n: int|
                        0 <= n < rest.len() && bits::less(
                            M::fast(vecs[c.id as int], vecs[#[trigger] rest[n] as int]),
                            c.dist_bits(),
                        );
                    assert(chosen.take(k)[n] == rest[n]);
                    assert(false);
                }
            }
        }
    }
}

pub open spec fn ids_of(s: Seq<Candidate>) -> Seq<NodeId> {
    s.map(|i: int, c: Candidate| c.id)
}

/// At most the first `n` of `s`.
pub open spec fn at_most<A>(s: Seq<A>, n: int) -> Seq<A> {
    if s.len() <= n {
        s
    } else {
        s.take(n)
    }
}

/// The neighbours selected from candidates that are in order, in order of selection.
pub open spec fn chosen_from<M: Metric>(
    vecs: Seq<Seq<u32>>,
    s: Seq<Candidate>,
    m: nat,
    policy: SelectionPolicy,
) -> Seq<NodeId> {
    if !policy.heuristic {
        at_most(ids_of(s), m as int)
    } else {
        let (chosen, pruned) = divided::<M>(vecs, s, m);
        if policy.keep_pruned {
            chosen + at_most(pruned, m - chosen.len())
        } else {
            chosen
        }
    }
}

/// What dividing keeps: every candidate looked at is on one side, once, and the sides hold
/// nothing else.
proof fn lemma_divided<M: Metric>(vecs: Seq<Seq<u32>>, s: Seq<Candidate>, m: nat)
    ensures
        divided::<M>(vecs, s, m).0.len() <= m,
        divided::<M>(vecs, s, m).0.len() == m || divided::<M>(vecs, s, m).0.len() + divided::<M>(
            vecs,
            s,
            m,
        ).1.len() == s.len(),
        forall|id: NodeId| #[trigger]
            divided::<M>(vecs, s, m).0.contains(id) ==> ids_of(s).contains(id),
        forall|id: NodeId| #[trigger]
            divided::<M>(vecs, s, m).1.contains(id) ==> ids_of(s).contains(id),
        ids_of(s).no_duplicates() ==> (divided::<M>(vecs, s, m).0 + divided::<M>(
            vecs,
            s,
            m,
        ).1).no_duplicates(),
        m >= 1 && s.len() >= 1 ==> divided::<M>(vecs, s, m).0.len() >= 1 && divided::<M>(
            vecs,
            s,
            m,
        ).0[0] == s[0].id,
    decreases s.len(),
{
    if s.len() > 0 {
        let t = s.drop_last();
        let last = s.last();
        lemma_divided::<M>(vecs, t, m);
        let (chosen, pruned) = divided::<M>(vecs, t, m);
        let (chosen2, pruned2) = divided::<M>(vecs, s, m);
        assert(ids_of(s) =~= ids_of(t).push(last.id));
        assert forall|id: NodeId| ids_of(t).contains(id) || id == last.id implies #[trigger] ids_of(
            s,
        ).contains(id) by {
            if id == last.id {
                assert(ids_of(s)[s.len() - 1] == id);
            } else {
                let i = ids_of(t).index_of(id);
                assert(ids_of(s)[i] == id);
            }
        }
        assert forall|id: NodeId| #[trigger] chosen2.contains(id) implies ids_of(s).contains(id) by {
            let i = chosen2.index_of(id);
            if i < chosen.len() {
                assert(chosen[i] == id);
                assert(chosen.contains(id));
            }
        }
        assert forall|id: NodeId| #[trigger] pruned2.contains(id) implies ids_of(s).contains(id) by {
            let i = pruned2.index_of(id);
            if i < pruned.len() {
                assert(pruned[i] == id);
                assert(pruned.contains(id));
            }
        }
        if ids_of(s).no_duplicates() {
            assert(ids_of(t).no_duplicates()) by {
                assert forall|i: int, j: int|
                    0 <= i < ids_of(t).len() && 0 <= j < ids_of(t).len() && i != j implies ids_of(
                    t,
                )[i] != ids_of(t)[j] by {
                    assert(ids_of(s)[i] == ids_of(t)[i] && ids_of(s)[j] == ids_of(t)[j]);
                }
            }
            assert(!ids_of(t).contains(last.id)) by {
                if ids_of(t).contains(last.id) {
                    let i = ids_of(t).index_of(last.id);
                    assert(ids_of(s)[i] == ids_of(s)[s.len() - 1]);
                }
            }
            let both = chosen + pruned;
            assert(forall|i: int| 0 <= i < chosen.len() ==> chosen.contains(#[trigger] both[i]));
            assert forall|i: int| 0 <= i < both.len() implies #[trigger] both[i] != last.id by {
                if i < chosen.len() {
                    assert(chosen.contains(chosen[i]));
                } else {
                    assert(pruned.contains(pruned[i - chosen.len()]));
                }
            }
            let both2 = chosen2 + pruned2;
            assert forall|i: int, j: int|
                0 <= i < both2.len() && 0 <= j < both2.len() && i != j implies both2[i]
                != both2[j] by {
                // Where an entry of the longer pair stands in the shorter one.
                let grown = chosen2.len() > chosen.len();
                let x = if grown && i > chosen.len() { i - 1 } else { i };
                let y = if grown && j > chosen.len() { j - 1 } else { j };
                let fresh = if grown {
                    chosen.len() as int
                } else {
                    both.len() as int
                };
                if i != fresh {
                    assert(both2[i] == both[x]);
                }
                if j != fresh {
                    assert(both2[j] == both[y]);
                }
            }
        }
        if m >= 1 {
            if t.len() == 0 {
                assert(chosen.len() == 0);
                assert(!dominated::<M>(vecs, last, chosen));
            } else {
                assert(t[0] == s[0]);
            }
        }
    }
}

/// What every selection gives: at most `m` neighbours, taken from the candidates, none twice;
/// the nearest candidate first; as many as there can be unless pruned ones are left out.
pub proof fn lemma_chosen<M: Metric>(
    vecs: Seq<Seq<u32>>,
    s: Seq<Candidate>,
    m: nat,
    policy: SelectionPolicy,
)
    ensures
        chosen_from::<M>(vecs, s, m, policy).len() <= m,
        chosen_from::<M>(vecs, s, m, policy).len() <= s.len(),
        forall|id: NodeId| #[trigger]
            chosen_from::<M>(vecs, s, m, policy).contains(id) ==> ids_of(s).contains(id),
        ids_of(s).no_duplicates() ==> chosen_from::<M>(vecs, s, m, policy).no_duplicates(),
        m >= 1 && s.len() >= 1 ==> chosen_from::<M>(vecs, s, m, policy).len() >= 1
            && chosen_from::<M>(vecs, s, m, policy)[0] == s[0].id,
        policy.keep_pruned || !policy.heuristic ==> chosen_from::<M>(vecs, s, m, policy).len()
            == if s.len() <= m {
            s.len()
        } else {
            m
        },
{
    lemma_divided::<M>(vecs, s, m);
    lemma_divided_len::<M>(vecs, s, m);
    let (chosen, pruned) = divided::<M>(vecs, s, m);
    let r = chosen_from::<M>(vecs, s, m, policy);
    if !policy.heuristic {
        assert forall|id: NodeId| #[trigger] r.contains(id) implies ids_of(s).contains(id) by {
            let i = r.index_of(id);
            assert(ids_of(s)[i] == id);
        }
    } else if policy.keep_pruned {
        let more = at_most(pruned, m - chosen.len());
        assert(r =~= chosen + more);
        assert forall|id: NodeId| #[trigger] r.contains(id) implies ids_of(s).contains(id) by {
            let i = r.index_of(id);
            if i < chosen.len() {
                assert(chosen.contains(chosen[i]));
            } else {
                assert(pruned.contains(pruned[i - chosen.len()]));
            }
        }
        if ids_of(s).no_duplicates() {
            let both = chosen + pruned;
            assert forall|i: int, j: int|
                0 <= i < r.len() && 0 <= j < r.len() && i != j implies r[i] != r[j] by {
                assert(r[i] == both[i] && r[j] == both[j]);
            }
        }
    } else if ids_of(s).no_duplicates() {
        let both = chosen + pruned;
        assert forall|i: int, j: int|
            0 <= i < r.len() && 0 <= j < r.len() && i != j implies r[i] != r[j] by {
            assert(r[i] == both[i] && r[j] == both[j]);
        }
    }
}

proof fn lemma_divided_len<M: Metric>(vecs: Seq<Seq<u32>>, s: Seq<Candidate>, m: nat)
    ensures
        divided::<M>(vecs, s, m).0.len() + divided::<M>(vecs, s, m).1.len() <= s.len(),
    decreases s.len(),
{
    if s.len() > 0 {
        lemma_divided_len::<M>(vecs, s.drop_last(), m);
    }
}

/// The heuristic spreads its choices: none of them was closer to a neighbour chosen before it
/// than to the query.
pub proof fn lemma_chosen_spread<M: Metric>(vecs: Seq<Seq<u32>>, s: Seq<Candidate>, m: nat)
    ensures
        forall|i: int|
            0 <= i < divided::<M>(vecs, s, m).0.len() ==> exists|j: int|
                0 <= j < s.len() && (#[trigger] s[j]).id == #[trigger] divided::<M>(vecs, s, m).0[i]
                    && !dominated::<M>(vecs, s[j], divided::<M>(vecs, s, m).0.take(i)),
    decreases s.len(),
{
    if s.len() > 0 {
        let t = s.drop_last();
        lemma_chosen_spread::<M>(vecs, t, m);
        let before = divided::<M>(vecs, t, m).0;
        let after = divided::<M>(vecs, s, m).0;
        assert forall|i: int| 0 <= i < after.len() implies exists|j: int|
            0 <= j < s.len() && (#[trigger] s[j]).id == #[trigger] after[i] && !dominated::<M>(
                vecs,
                s[j],
                after.take(i),
            ) by {
            if i < before.len() {
                assert(before[i] == after[i]);
                let j = choose|j: int|
                    0 <= j < t.len() && (#[trigger] t[j]).id == before[i] && !dominated::<M>(
                        vecs,
                        t[j],
                        before.take(i),
                    );
                assert(s[j] == t[j]);
                assert(after.take(i) =~= before.take(i));
            } else {
                assert(s[s.len() - 1].id == after[i]);
                assert(after.take(i) =~= before);
            }
        }
    }
}

/// Position `p` of a list is not among the first `d` of `at`.
pub open spec fn skips(at: Seq<int>, d: int, p: int) -> bool {
    forall|i: int| 0 <= i < d ==> #[trigger] at[i] != p
}

/// `r` is a selection of up to `m` out of `s`, a list with the nearest first: entry `i` of it is the
/// candidate at position `at[i]` of `s`, and the first `d` are the ones that were chosen for being
/// nearer to the base than to any chosen before them.
pub open spec fn selects<M: Metric>(
    vecs: Seq<Seq<u32>>,
    s: Seq<Candidate>,
    m: nat,
    policy: SelectionPolicy,
    r: Seq<NodeId>,
    at: Seq<int>,
    d: int,
) -> bool {
    // Every entry is a candidate, and no candidate is taken twice.
    &&& at.len() == r.len()
    &&& 0 <= d <= r.len() <= m
    &&& forall|i: int| 0 <= i < at.len() ==> 0 <= #[trigger] at[i] < s.len() && r[i] == s[at[i]].id
    &&& forall|i: int, j: int|
        0 <= i < at.len() && 0 <= j < at.len() && i != j ==> #[trigger] at[i] != #[trigger] at[j]
    // Both parts come nearest first.
    &&& forall|i: int, j: int| 0 <= i < j < d ==> #[trigger] at[i] < #[trigger] at[j]
    &&& forall|i: int, j: int| d <= i < j < at.len() ==> #[trigger] at[i] < #[trigger] at[j]
    // No choice is closer to one before it than to the base.
    &&& policy.heuristic ==> forall|i: int, j: int|
        0 <= i < j < d ==> !bits::less(
            M::fast(vecs[s[#[trigger] at[j]].id as int], vecs[s[#[trigger] at[i]].id as int]),
            s[at[j]].dist_bits(),
        )
    // What was passed over is closer to a choice before it, unless the places were taken.
    &&& policy.heuristic ==> forall|p: int|
        #![trigger skips(at, d, p)]
        0 <= p < s.len() && skips(at, d, p) && (d < m || (d > 0 && p < at[d - 1])) ==> exists|i: int|
            0 <= i < d && #[trigger] at[i] < p && bits::less(
                M::fast(vecs[s[p].id as int], vecs[s[at[i]].id as int]),
                s[p].dist_bits(),
            )
    // Without the heuristic, and with the pruned ones kept, as many are taken as there can be, and
    // nothing nearer than one that fills up is left out.
    &&& policy.heuristic && !policy.keep_pruned ==> r.len() == d
    &&& !policy.heuristic ==> d == 0
    &&& !policy.heuristic || policy.keep_pruned ==> {
        &&& r.len() == s.len() || r.len() == m
        &&& forall|p: int, i: int|
            #![trigger skips(at, at.len() as int, p), at[i]]
            0 <= p < s.len() && skips(at, at.len() as int, p) && d <= i < at.len() ==> at[i] < p
    }
}

/// Where the candidates that dividing chooses and prunes stand in the list.
spec fn divided_at<M: Metric>(vecs: Seq<Seq<u32>>, s: Seq<Candidate>, m: nat) -> (
    Seq<int>,
    Seq<int>,
)
    decreases s.len(),
{
    if s.len() == 0 {
        (Seq::empty(), Seq::empty())
    } else {
        let (chosen, pruned) = divided_at::<M>(vecs, s.drop_last(), m);
        if chosen.len() >= m {
            (chosen, pruned)
        } else if dominated::<M>(vecs, s.last(), divided::<M>(vecs, s.drop_last(), m).0) {
            (chosen, pruned.push(s.len() - 1))
        } else {
            (chosen.push(s.len() - 1), pruned)
        }
    }
}

/// The chosen and the pruned positions: what stands there, in what order, and why.
proof fn lemma_divided_at<M: Metric>(vecs: Seq<Seq<u32>>, s: Seq<Candidate>, m: nat)
    ensures
        ({
            let (chosen, pruned) = divided::<M>(vecs, s, m);
            let (a, b) = divided_at::<M>(vecs, s, m);
            &&& a.len() == chosen.len() <= m
            &&& b.len() == pruned.len()
            &&& forall|i: int|
                0 <= i < a.len() ==> 0 <= #[trigger] a[i] < s.len() && chosen[i] == s[a[i]].id
            &&& forall|i: int|
                0 <= i < b.len() ==> 0 <= #[trigger] b[i] < s.len() && pruned[i] == s[b[i]].id
            &&& forall|i: int, j: int| 0 <= i < j < a.len() ==> #[trigger] a[i] < #[trigger] a[j]
            &&& forall|i: int, j: int| 0 <= i < j < b.len() ==> #[trigger] b[i] < #[trigger] b[j]
            &&& forall|i: int, j: int|
                0 <= i < a.len() && 0 <= j < b.len() ==> #[trigger] a[i] != #[trigger] b[j]
            &&& forall|p: int|
                #![trigger skips(a, a.len() as int, p)]
                0 <= p < s.len() && skips(a, a.len() as int, p) && (a.len() < m || (a.len() > 0 && p
                    < a[a.len() - 1])) ==> b.contains(p)
            &&& forall|i: int, j: int|
                0 <= i < j < a.len() ==> !bits::less(
                    M::fast(vecs[s[#[trigger] a[j]].id as int], vecs[s[#[trigger] a[i]].id as int]),
                    s[a[j]].dist_bits(),
                )
            &&& forall|n: int|
                0 <= n < b.len() ==> exists|i: int|
                    0 <= i < a.len() && #[trigger] a[i] < #[trigger] b[n] && bits::less(
                        M::fast(vecs[s[b[n]].id as int], vecs[s[a[i]].id as int]),
                        s[b[n]].dist_bits(),
                    )
        }),
    decreases s.len(),
{
    if s.len() > 0 {
        let t = s.drop_last();
        let last = s.last();
        lemma_divided_at::<M>(vecs, t, m);
        let (chosen0, pruned0) = divided::<M>(vecs, t, m);
        let (a0, b0) = divided_at::<M>(vecs, t, m);
        let (chosen, pruned) = divided::<M>(vecs, s, m);
        let (a, b) = divided_at::<M>(vecs, s, m);
        assert forall|i: int| 0 <= i < a0.len() implies #[trigger] a[i] == a0[i] && s[a[i]]
            == t[a0[i]] by {}
        assert forall|i: int| 0 <= i < b0.len() implies #[trigger] b[i] == b0[i] && s[b[i]]
            == t[b0[i]] by {}
        assert forall|i: int, j: int| 0 <= i < j < a.len() implies !bits::less(
            M::fast(vecs[s[#[trigger] a[j]].id as int], vecs[s[#[trigger] a[i]].id as int]),
            s[a[j]].dist_bits(),
        ) by {
            if j == a0.len() {
                assert(chosen0[i] == s[a[i]].id);
            } else {
                assert(a[j] == a0[j] && a[i] == a0[i]);
            }
        }
        assert forall|n: int| 0 <= n < b.len() implies exists|i: int|
            0 <= i < a.len() && #[trigger] a[i] < #[trigger] b[n] && bits::less(
                M::fast(vecs[s[b[n]].id as int], vecs[s[a[i]].id as int]),
                s[b[n]].dist_bits(),
            ) by {
            if n == b0.len() {
                let i = choose|i: int|
                    0 <= i < chosen0.len() && bits::less(
                        M::fast(vecs[last.id as int], vecs[#[trigger] chosen0[i] as int]),
                        last.dist_bits(),
                    );
                assert(a[i] == a0[i]);
                assert(a0[i] < t.len());
            } else {
                assert(b[n] == b0[n]);
                let i = choose|i: int|
                    0 <= i < a0.len() && #[trigger] a0[i] < b0[n] && bits::less(
                        M::fast(vecs[t[b0[n]].id as int], vecs[t[a0[i]].id as int]),
                        t[b0[n]].dist_bits(),
                    );
                assert(a[i] == a0[i]);
            }
        }
        assert forall|p: int|
            #![trigger skips(a, a.len() as int, p)]
            0 <= p < s.len() && skips(a, a.len() as int, p) && (a.len() < m || (a.len() > 0 && p
                < a[a.len() - 1])) implies b.contains(p) by {
            assert(skips(a0, a0.len() as int, p)) by {
                assert forall|i: int| 0 <= i < a0.len() implies #[trigger] a0[i] != p by {
                    assert(a[i] == a0[i]);
                }
            }
            if p < t.len() {
                assert(t[p] == s[p]);
                assert(b0.contains(p));
                let i = b0.index_of(p);
                assert(b[i] == p);
            } else if a.len() == a0.len() + 1 {
                assert(a[a0.len() as int] == p);
            } else if a0.len() < m {
                assert(b[b.len() - 1] == p);
            } else if a0.len() > 0 {
                assert(a0[a0.len() - 1] < t.len());
            }
        }
    }
}

/// What a selection is, said of its result alone: which candidates it takes, and which it leaves
/// out and why. Nothing that is left out comes before one that fills up.
pub proof fn lemma_selection<M: Metric>(
    vecs: Seq<Seq<u32>>,
    s: Seq<Candidate>,
    m: nat,
    policy: SelectionPolicy,
)
    ensures
        exists|at: Seq<int>, d: int| #[trigger]
            selects::<M>(vecs, s, m, policy, chosen_from::<M>(vecs, s, m, policy), at, d),
{
    let r = chosen_from::<M>(vecs, s, m, policy);
    lemma_divided_at::<M>(vecs, s, m);
    let (chosen, pruned) = divided::<M>(vecs, s, m);
    let (a, b) = divided_at::<M>(vecs, s, m);
    if !policy.heuristic {
        let at = Seq::new(r.len(), |i: int| i);
        assert forall|i: int| 0 <= i < at.len() implies 0 <= #[trigger] at[i] < s.len() && r[i]
            == s[at[i]].id by {
            assert(ids_of(s)[i] == s[i].id);
        }
        assert forall|p: int, i: int|
            #![trigger skips(at, at.len() as int, p), at[i]]
            0 <= p < s.len() && skips(at, at.len() as int, p) && 0 <= i < at.len() implies at[i]
            < p by {
            if p < at.len() {
                assert(at[p] == p);
            }
        }
        assert(selects::<M>(vecs, s, m, policy, r, at, 0));
    } else {
        let d = a.len() as int;
        let more = (r.len() - d) as nat;
        let at = a + b.take(more as int);
        if policy.keep_pruned {
            lemma_chosen::<M>(vecs, s, m, policy);
            assert(more <= pruned.len());
        }
        assert forall|i: int| 0 <= i < a.len() implies #[trigger] at[i] == a[i] by {}
        assert forall|i: int| d <= i < at.len() implies #[trigger] at[i] == b[i - d] by {}
        assert forall|p: int|
            #![trigger skips(at, d, p)]
            0 <= p < s.len() && skips(at, d, p) && (d < m || (d > 0 && p < at[d - 1])) implies exists|i: int|
            0 <= i < d && #[trigger] at[i] < p && bits::less(
                M::fast(vecs[s[p].id as int], vecs[s[at[i]].id as int]),
                s[p].dist_bits(),
            ) by {
            assert(skips(a, d, p)) by {
                assert forall|i: int| 0 <= i < d implies #[trigger] a[i] != p by {
                    assert(at[i] == a[i]);
                }
            }
            assert(b.contains(p));
            let n = b.index_of(p);
            assert(b[n] == p);
            let i = choose|i: int|
                0 <= i < a.len() && #[trigger] a[i] < b[n] && bits::less(
                    M::fast(vecs[s[b[n]].id as int], vecs[s[a[i]].id as int]),
                    s[b[n]].dist_bits(),
                );
            assert(at[i] == a[i]);
        }
        if policy.keep_pruned {
            assert forall|p: int, i: int|
                #![trigger skips(at, at.len() as int, p), at[i]]
                0 <= p < s.len() && skips(at, at.len() as int, p) && d <= i
                    < at.len() implies at[i] < p by {
                assert(skips(a, d, p)) by {
                    assert forall|j: int| 0 <= j < d implies #[trigger] a[j] != p by {
                        assert(at[j] == a[j]);
                    }
                }
                assert(d < m);
                assert(b.contains(p));
                let n = b.index_of(p);
                assert(b[n] == p);
                if n < more {
                    assert(at[d + n] == p);
                }
                assert(b[i - d] < b[n]);
            }
        }
        assert(selects::<M>(vecs, s, m, policy, r, at, d));
    }
}

/// Picks up to `m` neighbours out of `candidates`, which are put in order in place.
///
/// Returns ids in selection order: the diverse picks first, then the pruned ones added back if
/// the policy keeps them.
pub fn select_neighbors<M: Metric>(
    vectors: &VectorStore,
    candidates: &mut Vec<Candidate>,
    m: usize,
    policy: SelectionPolicy,
    counter: &mut impl Count,
) -> (selected: Vec<NodeId>)
    requires
        vectors.wf(),
        forall|i: int|
            0 <= i < old(candidates)@.len() ==> (#[trigger] old(candidates)@[i]).id
                < vectors.size(),
    ensures
        m == 0 ==> final(candidates)@ == old(candidates)@ && selected@ == Seq::<NodeId>::empty(),
        m > 0 ==> final(candidates)@ == in_order(old(candidates)@),
        m > 0 ==> ordered(final(candidates)@) && final(candidates)@.to_multiset() == old(
            candidates,
        )@.to_multiset(),
        m > 0 ==> exists|at: Seq<int>, d: int| #[trigger]
            selects::<M>(
                vectors.all(),
                final(candidates)@,
                m as nat,
                policy,
                selected@,
                at,
                d,
            ),
        selected@ == chosen_from::<M>(
            vectors.all(),
            in_order(old(candidates)@),
            m as nat,
            policy,
        ),
        final(counter).total() == counted(
            old(counter).total(),
            selection_cost::<M>(vectors.all(), in_order(old(candidates)@), m as nat, policy),
        ),
{
    let ghost before = counter.total();
    proof {
        lemma_counted(before, 0, 0);
        lemma_nothing_to_fill::<M>(vectors.all(), in_order(candidates@));
        lemma_chosen::<M>(vectors.all(), in_order(candidates@), m as nat, policy);
        lemma_selection::<M>(vectors.all(), in_order(candidates@), m as nat, policy);
        candidate::lemma_in_order(candidates@);
    }
    if m == 0 {
        let none: Vec<NodeId> = Vec::new();
        proof {
            assert(none@ =~= chosen_from::<M>(vectors.all(), in_order(candidates@), 0, policy));
        }
        return none;
    }
    candidate::put_in_order(candidates);
    let ghost s = candidates@;
    let ghost vecs = vectors.all();
    proof {
        vectors.lemma_wf();
        candidate::lemma_in_order(old(candidates)@);
        assert forall|i: int| 0 <= i < s.len() implies (#[trigger] s[i]).id < vectors.size() by {
            assert(s.contains(s[i]));
            assert(old(candidates)@.contains(s[i]));
            let j = old(candidates)@.index_of(s[i]);
            assert(old(candidates)@[j].id < vectors.size());
        }
    }
    let mut selected: Vec<NodeId> = Vec::new();
    if !policy.heuristic {
        let mut i: usize = 0;
        while i < candidates.len() && i < m
            invariant
                i <= s.len(),
                i <= m,
                s == candidates@,
                selected@ == ids_of(s).take(i as int),
            decreases s.len() - i,
        {
            selected.push(candidates[i].id);
            i += 1;
            proof {
                assert(selected@ =~= ids_of(s).take(i as int));
            }
        }
        proof {
            assert(selected@ =~= at_most(ids_of(s), m as int));
        }
        return selected;
    }
    let mut pruned: Vec<NodeId> = Vec::new();
    let mut i: usize = 0;
    while i < candidates.len()
        invariant
            i <= s.len(),
            s == candidates@,
            vecs == vectors.all(),
            vectors.wf(),
            vecs.len() == vectors.size(),
            forall|n: int| 0 <= n < vecs.len() ==> (#[trigger] vecs[n]).len() == vectors.width(),
            forall|n: int| 0 <= n < s.len() ==> (#[trigger] s[n]).id < vectors.size(),
            forall|n: int| 0 <= n < selected@.len() ==> (#[trigger] selected@[n]) < vectors.size(),
            selected@ == divided::<M>(vecs, s.take(i as int), m as nat).0,
            pruned@ == divided::<M>(vecs, s.take(i as int), m as nat).1,
            counter.total() == counted(
                before,
                division_cost::<M>(vecs, s.take(i as int), m as nat),
            ),
        decreases s.len() - i,
    {
        proof {
            assert(s.take(i + 1).drop_last() =~= s.take(i as int));
            assert(s.take(i + 1).last() == s[i as int]);
        }
        let candidate = candidates[i];
        if selected.len() < m {
            let vector = vectors.get(candidate.id as usize);
            let mut rejected = false;
            let mut k: usize = 0;
            let ghost so_far = counter.total();
            while k < selected.len() && !rejected
                invariant
                    counter.total() == counted(so_far, k as nat),
                    rejected ==> k >= 1 && !dominated::<M>(vecs, candidate, selected@.take(k - 1))
                        && dominated::<M>(vecs, candidate, selected@.take(k as int)),
                    k <= selected@.len(),
                    candidate.id < vecs.len(),
                    vecs == vectors.all(),
                    vectors.wf(),
                    vecs.len() == vectors.size(),
                    vector@ == vecs[candidate.id as int],
                    forall|n: int|
                        0 <= n < vecs.len() ==> (#[trigger] vecs[n]).len() == vectors.width(),
                    forall|n: int|
                        0 <= n < selected@.len() ==> (#[trigger] selected@[n]) < vectors.size(),
                    !rejected ==> forall|n: int|
                        0 <= n < k ==> !bits::less(
                            M::fast(
                                vecs[candidate.id as int],
                                vecs[#[trigger] selected@[n] as int],
                            ),
                            candidate.dist_bits(),
                        ),
                    rejected ==> dominated::<M>(vecs, candidate, selected@),
                decreases selected@.len() - k,
            {
                counter.record(1);
                let apart: u32 = M::distance(vector, vectors.get(selected[k] as usize));
                proof {
                    lemma_counted(so_far, k as nat, 1);
                }
                if bits::is_less(apart, candidate.dist()) {
                    rejected = true;
                    proof {
                        assert(selected@.take(k + 1)[k as int] == selected@[k as int]);
                    }
                }
                k += 1;
            }
            proof {
                lemma_compared_with::<M>(
                    vecs,
                    candidate,
                    selected@,
                    if rejected {
                        k - 1
                    } else {
                        k as int
                    },
                );
                lemma_counted(
                    before,
                    division_cost::<M>(vecs, s.take(i as int), m as nat),
                    k as nat,
                );
            }
            if rejected {
                pruned.push(candidate.id);
            } else {
                selected.push(candidate.id);
            }
        }
        i += 1;
    }
    proof {
        assert(s.take(i as int) =~= s);
    }
    if policy.keep_pruned {
        let ghost chosen = selected@;
        let mut j: usize = 0;
        while j < pruned.len() && selected.len() < m
            invariant
                j <= pruned@.len(),
                chosen.len() <= m,
                selected@.len() == chosen.len() + j,
                selected@.len() <= m,
                selected@ == chosen + pruned@.take(j as int),
            decreases pruned@.len() - j,
        {
            selected.push(pruned[j]);
            j += 1;
            proof {
                assert(selected@ =~= chosen + pruned@.take(j as int));
            }
        }
        proof {
            assert(selected@ =~= chosen + at_most(pruned@, m - chosen.len()));
        }
    }
    selected
}

/// A candidate is compared with the chosen ones in turn, up to the first that is nearer to it than
/// the base is, and with all of them if there is none.
pub proof fn lemma_comparisons<M: Metric>(vecs: Seq<Seq<u32>>, c: Candidate, chosen: Seq<NodeId>)
    ensures
        ({
            let n = compared_with::<M>(vecs, c, chosen);
            &&& n <= chosen.len()
            &&& n == 0 ==> chosen.len() == 0
            &&& forall|k: int|
                0 <= k < n - 1 ==> !bits::less(
                    M::fast(vecs[c.id as int], vecs[#[trigger] chosen[k] as int]),
                    c.dist_bits(),
                )
            &&& n < chosen.len() ==> bits::less(
                M::fast(vecs[c.id as int], vecs[chosen[n - 1] as int]),
                c.dist_bits(),
            )
        }),
    decreases chosen.len(),
{
    if chosen.len() > 0 {
        let rest = chosen.drop_last();
        lemma_comparisons::<M>(vecs, c, rest);
        let n = compared_with::<M>(vecs, c, rest);
        assert forall|k: int| 0 <= k < rest.len() implies rest[k] == #[trigger] chosen[k] by {}
        if dominated::<M>(vecs, c, rest) {
            if n == rest.len() {
                let k = choose|k: int|
                    0 <= k < rest.len() && bits::less(
                        M::fast(vecs[c.id as int], vecs[#[trigger] rest[k] as int]),
                        c.dist_bits(),
                    );
                assert(rest[k] == chosen[k]);
                assert(k == n - 1);
            } else {
                assert(rest[n - 1] == chosen[n - 1]);
            }
        } else {
            assert forall|k: int| 0 <= k < chosen.len() - 1 implies !bits::less(
                M::fast(vecs[c.id as int], vecs[#[trigger] chosen[k] as int]),
                c.dist_bits(),
            ) by {
                assert(rest[k] == chosen[k]);
            }
        }
    }
}

/// What selecting costs. Without the heuristic no distance is computed. With it, one more candidate
/// costs its comparisons with the ones chosen before it, and nothing once all places are taken.
pub proof fn lemma_selection_cost<M: Metric>(
    vecs: Seq<Seq<u32>>,
    s: Seq<Candidate>,
    c: Candidate,
    m: nat,
    policy: SelectionPolicy,
)
    ensures
        !policy.heuristic ==> selection_cost::<M>(vecs, s, m, policy) == 0,
        selection_cost::<M>(vecs, Seq::empty(), m, policy) == 0,
        policy.heuristic ==> {
            let only = SelectionPolicy { heuristic: true, keep_pruned: false };
            let chosen = chosen_from::<M>(vecs, s, m, only);
            selection_cost::<M>(vecs, s.push(c), m, policy) - selection_cost::<M>(
                vecs,
                s,
                m,
                policy,
            ) == if chosen.len() == m {
                0
            } else {
                compared_with::<M>(vecs, c, chosen) as int
            }
        },
{
    assert(s.push(c).drop_last() =~= s);
    lemma_divided::<M>(vecs, s, m);
}

} // verus!
