//! Beam search within one layer.
//!
//! The scratch state, the visited stamps and the two lists of candidates, lives in [`Searcher`]
//! and is reused across calls.

use vstd::prelude::*;

use crate::bits;
use crate::candidate::{self, ascending, before, placed, Candidate};
use crate::hnsw::layer::Layer;
use crate::hnsw::stats::{counted, Count};
use crate::hnsw::visited::VisitedList;
use crate::mem::{self, clamped, list_bytes};
use crate::metric::Metric;
use crate::vector_store::VectorStore;
use crate::NodeId;

verus! {

/// A node scored against a query.
pub open spec fn score<M: Metric>(q: Seq<u32>, vecs: Seq<Seq<u32>>, id: NodeId) -> Candidate {
    Candidate::of(M::fast(q, vecs[id as int]), id)
}

/// The state of a beam search.
pub struct Beam {
    /// Nodes that have been scored.
    pub visited: Set<NodeId>,
    /// Candidates left to expand, nearest first.
    pub frontier: Seq<Candidate>,
    /// The nearest candidates so far, nearest first.
    pub best: Seq<Candidate>,
}

/// `best` with `c` offered to it: in its place, and the furthest dropped if that makes too many.
pub open spec fn offered(best: Seq<Candidate>, c: Candidate, ef: nat) -> Seq<Candidate> {
    let longer = placed(best, c);
    if longer.len() > ef {
        longer.take(ef as int)
    } else {
        longer
    }
}

/// Whether `best` has a place for `c`.
pub open spec fn accepts(best: Seq<Candidate>, c: Candidate, ef: nat) -> bool {
    best.len() < ef || before(c, best.last())
}

/// The search with one entry point more: a node that is new is scored, offered and queued.
pub open spec fn entered<M: Metric>(
    q: Seq<u32>,
    vecs: Seq<Seq<u32>>,
    b: Beam,
    id: NodeId,
    ef: nat,
) -> Beam {
    let c = score::<M>(q, vecs, id);
    if b.visited.contains(id) {
        b
    } else {
        Beam {
            visited: b.visited.insert(id),
            frontier: placed(b.frontier, c),
            best: offered(b.best, c, ef),
        }
    }
}

/// The search with one neighbour examined: a node that is new is scored, and it is offered and
/// queued if there is a place for it among the best.
pub open spec fn seen<M: Metric>(
    q: Seq<u32>,
    vecs: Seq<Seq<u32>>,
    b: Beam,
    id: NodeId,
    ef: nat,
) -> Beam {
    let c = score::<M>(q, vecs, id);
    if b.visited.contains(id) {
        b
    } else if accepts(b.best, c, ef) {
        Beam {
            visited: b.visited.insert(id),
            frontier: placed(b.frontier, c),
            best: offered(b.best, c, ef),
        }
    } else {
        Beam { visited: b.visited.insert(id), ..b }
    }
}

pub open spec fn all_entered<M: Metric>(
    q: Seq<u32>,
    vecs: Seq<Seq<u32>>,
    b: Beam,
    ids: Seq<NodeId>,
    ef: nat,
) -> Beam
    decreases ids.len(),
{
    if ids.len() == 0 {
        b
    } else {
        entered::<M>(q, vecs, all_entered::<M>(q, vecs, b, ids.drop_last(), ef), ids.last(), ef)
    }
}

pub open spec fn all_seen<M: Metric>(
    q: Seq<u32>,
    vecs: Seq<Seq<u32>>,
    b: Beam,
    ids: Seq<NodeId>,
    ef: nat,
) -> Beam
    decreases ids.len(),
{
    if ids.len() == 0 {
        b
    } else {
        seen::<M>(q, vecs, all_seen::<M>(q, vecs, b, ids.drop_last(), ef), ids.last(), ef)
    }
}

/// The search is over: nothing is left to expand, or the beam is full and the nearest candidate
/// left is further than everything in it.
pub open spec fn settled(b: Beam, ef: nat) -> bool {
    b.frontier.len() == 0 || (b.best.len() >= ef && bits::less(
        b.best.last().dist_bits(),
        b.frontier[0].dist_bits(),
    ))
}

/// The search with the nearest candidate left expanded.
pub open spec fn expanded<M: Metric>(
    q: Seq<u32>,
    vecs: Seq<Seq<u32>>,
    graph: Map<NodeId, Seq<NodeId>>,
    b: Beam,
    ef: nat,
) -> Beam {
    all_seen::<M>(
        q,
        vecs,
        Beam { frontier: b.frontier.skip(1), ..b },
        graph[b.frontier[0].id],
        ef,
    )
}

/// The search run until it is over, for at most `steps` expansions.
pub open spec fn run<M: Metric>(
    q: Seq<u32>,
    vecs: Seq<Seq<u32>>,
    graph: Map<NodeId, Seq<NodeId>>,
    b: Beam,
    ef: nat,
    steps: nat,
) -> Beam
    decreases steps,
{
    if steps == 0 || settled(b, ef) {
        b
    } else {
        run::<M>(q, vecs, graph, expanded::<M>(q, vecs, graph, b, ef), ef, (steps - 1) as nat)
    }
}

/// The search before anything has been visited.
pub open spec fn unstarted() -> Beam {
    Beam { visited: Set::empty(), frontier: Seq::empty(), best: Seq::empty() }
}

/// The state in which a beam search from `entries` ends. No node is expanded twice, so as many
/// steps as there are nodes on the layer always suffice.
pub open spec fn finished<M: Metric>(
    q: Seq<u32>,
    vecs: Seq<Seq<u32>>,
    graph: Map<NodeId, Seq<NodeId>>,
    entries: Seq<NodeId>,
    ef: nat,
) -> Beam {
    run::<M>(
        q,
        vecs,
        graph,
        all_entered::<M>(q, vecs, unstarted(), entries, ef),
        ef,
        graph.dom().len(),
    )
}

/// What a beam search returns.
pub open spec fn found_by<M: Metric>(
    q: Seq<u32>,
    vecs: Seq<Seq<u32>>,
    graph: Map<NodeId, Seq<NodeId>>,
    entries: Seq<NodeId>,
    ef: nat,
) -> Seq<Candidate> {
    if ef == 0 {
        Seq::empty()
    } else {
        finished::<M>(q, vecs, graph, entries, ef).best
    }
}

/// How many distances a beam search computes: one for each node that it visits.
pub open spec fn scored_by<M: Metric>(
    q: Seq<u32>,
    vecs: Seq<Seq<u32>>,
    graph: Map<NodeId, Seq<NodeId>>,
    entries: Seq<NodeId>,
    ef: nat,
) -> nat {
    if ef == 0 {
        0
    } else {
        finished::<M>(q, vecs, graph, entries, ef).visited.len()
    }
}

/// The nearest `ef` of the visited nodes are in `best`.
pub open spec fn best_of_visited<M: Metric>(
    q: Seq<u32>,
    vecs: Seq<Seq<u32>>,
    b: Beam,
    ef: nat,
) -> bool {
    forall|v: NodeId| #[trigger]
        b.visited.contains(v) ==> b.best.contains(score::<M>(q, vecs, v)) || (b.best.len() == ef
            && before(b.best.last(), score::<M>(q, vecs, v)))
}

/// What holds of a beam at every step.
pub open spec fn beam_ok<M: Metric>(
    q: Seq<u32>,
    vecs: Seq<Seq<u32>>,
    b: Beam,
    ef: nat,
) -> bool {
    &&& ef >= 1
    &&& b.visited.finite()
    &&& ascending(b.frontier)
    &&& ascending(b.best)
    &&& b.best.len() <= ef
    &&& forall|c: Candidate| #[trigger]
        b.frontier.contains(c) ==> b.visited.contains(c.id) && c == score::<M>(q, vecs, c.id)
    &&& forall|c: Candidate| #[trigger]
        b.best.contains(c) ==> b.visited.contains(c.id) && c == score::<M>(q, vecs, c.id)
    &&& best_of_visited::<M>(q, vecs, b, ef)
}

proof fn lemma_contains_last(s: Seq<Candidate>)
    requires
        s.len() > 0,
    ensures
        s.contains(s.last()),
{
    assert(s[s.len() - 1] == s.last());
}

/// Offering keeps the nearest, in order.
pub proof fn lemma_offered(best: Seq<Candidate>, c: Candidate, ef: nat)
    requires
        ascending(best),
        !best.contains(c),
        best.len() <= ef,
        ef >= 1,
    ensures
        ascending(offered(best, c, ef)),
        offered(best, c, ef).len() == if best.len() < ef {
            best.len() + 1
        } else {
            ef
        },
        forall|x: Candidate| #[trigger]
            offered(best, c, ef).contains(x) ==> best.contains(x) || x == c,
        forall|x: Candidate|
            #![trigger best.contains(x)]
            best.contains(x) || x == c ==> offered(best, c, ef).contains(x) || (offered(
                best,
                c,
                ef,
            ).len() == ef && before(offered(best, c, ef).last(), x)),
        best.len() == ef ==> offered(best, c, ef).last() == best.last() || before(
            offered(best, c, ef).last(),
            best.last(),
        ),
        accepts(best, c, ef) ==> offered(best, c, ef).contains(c),
        !accepts(best, c, ef) ==> offered(best, c, ef) == best,
{
    let longer = placed(best, c);
    let kept = offered(best, c, ef);
    candidate::lemma_placed(best, c);
    candidate::lemma_ascending_is_ordered(best);
    candidate::lemma_place(best, c);
    let at = candidate::place(best, c) as int;
    if longer.len() > ef {
        assert(kept =~= longer.drop_last());
        assert(longer.len() == ef + 1);
        lemma_contains_last(kept);
        assert(kept.last() == longer[ef - 1]);
        assert forall|x: Candidate| #[trigger] kept.contains(x) implies best.contains(x) || x == c by {
            let i = kept.index_of(x);
            assert(longer[i] == x);
            assert(longer.contains(x));
        }
        assert forall|x: Candidate|
            #![trigger best.contains(x)]
            best.contains(x) || x == c implies kept.contains(x) || (kept.len() == ef && before(
            kept.last(),
            x,
        )) by {
            assert(longer.contains(x));
            let i = longer.index_of(x);
            if i < ef {
                assert(kept[i] == x);
            } else {
                assert(x == longer[ef as int]);
            }
        }
        if best.len() == ef {
            if at == ef {
                assert(longer.last() == c);
                assert(kept =~= best);
                if accepts(best, c, ef) {
                    assert(before(best[ef - 1], c));
                    candidate::lemma_before_total(c, best.last());
                }
            } else {
                assert(longer.last() == best.last());
                assert(before(kept.last(), longer[ef as int]));
                assert(kept[at] == c);
                assert(!before(best[at], c));
                if !accepts(best, c, ef) {
                    assert(best[at] != c);
                    candidate::lemma_before_total(best[at], c);
                    if at < ef - 1 {
                        assert(before(best[at], best[ef - 1]));
                        candidate::lemma_before_transitive(c, best[at], best[ef - 1]);
                    }
                }
            }
        }
    } else {
        assert(longer.contains(c));
    }
}

/// Both ways of taking in a node keep a beam sound.
pub proof fn lemma_taken_in<M: Metric>(
    q: Seq<u32>,
    vecs: Seq<Seq<u32>>,
    b: Beam,
    id: NodeId,
    ef: nat,
)
    requires
        beam_ok::<M>(q, vecs, b, ef),
    ensures
        beam_ok::<M>(q, vecs, entered::<M>(q, vecs, b, id, ef), ef),
        beam_ok::<M>(q, vecs, seen::<M>(q, vecs, b, id, ef), ef),
        entered::<M>(q, vecs, b, id, ef).visited == b.visited.insert(id),
        seen::<M>(q, vecs, b, id, ef).visited == b.visited.insert(id),
        entered::<M>(q, vecs, b, id, ef).frontier.len() + b.visited.len() <= b.frontier.len()
            + entered::<M>(q, vecs, b, id, ef).visited.len(),
        seen::<M>(q, vecs, b, id, ef).frontier.len() + b.visited.len() <= b.frontier.len()
            + seen::<M>(q, vecs, b, id, ef).visited.len(),
        b.best.len() <= seen::<M>(q, vecs, b, id, ef).best.len(),
        b.best.len() <= entered::<M>(q, vecs, b, id, ef).best.len(),
        entered::<M>(q, vecs, b, id, ef).best.len() >= 1,
        forall|c: Candidate| #[trigger]
            b.frontier.contains(c) ==> seen::<M>(q, vecs, b, id, ef).frontier.contains(c)
                && entered::<M>(q, vecs, b, id, ef).frontier.contains(c),
        forall|c: Candidate| #[trigger]
            seen::<M>(q, vecs, b, id, ef).best.contains(c) ==> b.best.contains(c) || seen::<M>(
                q,
                vecs,
                b,
                id,
                ef,
            ).frontier.contains(c),
        forall|c: Candidate| #[trigger]
            entered::<M>(q, vecs, b, id, ef).best.contains(c) ==> b.best.contains(c) || entered::<
                M,
            >(q, vecs, b, id, ef).frontier.contains(c),
{
    let c = score::<M>(q, vecs, id);
    if b.visited.contains(id) {
        assert(b.visited.insert(id) =~= b.visited);
        assert(b.best.contains(c) || b.best.len() == ef);
        if b.best.len() == 0 {
            assert(!b.best.contains(c));
        }
    } else {
        assert(!b.frontier.contains(c));
        assert(!b.best.contains(c));
        candidate::lemma_placed(b.frontier, c);
        lemma_offered(b.best, c, ef);
        let best = offered(b.best, c, ef);
        let wide = entered::<M>(q, vecs, b, id, ef);
        let narrow = seen::<M>(q, vecs, b, id, ef);
        assert forall|v: NodeId| #[trigger] wide.visited.contains(v) implies wide.best.contains(
            score::<M>(q, vecs, v),
        ) || (wide.best.len() == ef && before(wide.best.last(), score::<M>(q, vecs, v))) by {
            let s = score::<M>(q, vecs, v);
            if v != id {
                assert(b.visited.contains(v));
                assert(b.best.contains(s) || before(b.best.last(), s));
                if !b.best.contains(s) {
                    if best.last() != b.best.last() {
                        candidate::lemma_before_transitive(best.last(), b.best.last(), s);
                    }
                }
            } else {
                assert(b.best.contains(s) || s == c);
            }
        }
        if !accepts(b.best, c, ef) {
            assert(narrow.best == wide.best);
        }
    }
}

/// Taking in a list of neighbours keeps a beam sound, visits them all, and queues whatever it
/// adds to the best.
pub proof fn lemma_all_seen<M: Metric>(
    q: Seq<u32>,
    vecs: Seq<Seq<u32>>,
    b: Beam,
    ids: Seq<NodeId>,
    ef: nat,
)
    requires
        beam_ok::<M>(q, vecs, b, ef),
    ensures
        beam_ok::<M>(q, vecs, all_seen::<M>(q, vecs, b, ids, ef), ef),
        all_seen::<M>(q, vecs, b, ids, ef).visited == b.visited.union(ids.to_set()),
        all_seen::<M>(q, vecs, b, ids, ef).frontier.len() + b.visited.len() <= b.frontier.len()
            + all_seen::<M>(q, vecs, b, ids, ef).visited.len(),
        b.best.len() <= all_seen::<M>(q, vecs, b, ids, ef).best.len(),
        forall|c: Candidate| #[trigger]
            b.frontier.contains(c) ==> all_seen::<M>(q, vecs, b, ids, ef).frontier.contains(c),
        forall|c: Candidate| #[trigger]
            all_seen::<M>(q, vecs, b, ids, ef).best.contains(c) ==> b.best.contains(c)
                || all_seen::<M>(q, vecs, b, ids, ef).frontier.contains(c),
    decreases ids.len(),
{
    if ids.len() == 0 {
        assert(b.visited.union(ids.to_set()) =~= b.visited);
    } else {
        lemma_all_seen::<M>(q, vecs, b, ids.drop_last(), ef);
        let mid = all_seen::<M>(q, vecs, b, ids.drop_last(), ef);
        lemma_taken_in::<M>(q, vecs, mid, ids.last(), ef);
        assert(ids.to_set() =~= ids.drop_last().to_set().insert(ids.last())) by {
            assert(ids =~= ids.drop_last().push(ids.last()));
            assert forall|x: NodeId| ids.to_set().contains(x) == #[trigger] ids.drop_last().to_set()
                .insert(ids.last())
                .contains(x) by {
                if ids.contains(x) {
                    let i = ids.index_of(x);
                    if i < ids.len() - 1 {
                        assert(ids.drop_last()[i] == x);
                    }
                }
                if ids.drop_last().contains(x) {
                    let i = ids.drop_last().index_of(x);
                    assert(ids[i] == x);
                }
                assert(ids[ids.len() - 1] == ids.last());
            }
        }
        assert(b.visited.union(ids.drop_last().to_set()).insert(ids.last()) =~= b.visited.union(
            ids.to_set(),
        ));
        let end = all_seen::<M>(q, vecs, b, ids, ef);
        assert forall|c: Candidate| #[trigger] end.best.contains(c) implies b.best.contains(c)
            || end.frontier.contains(c) by {
            if mid.best.contains(c) && !b.best.contains(c) {
                assert(mid.frontier.contains(c));
            }
        }
        assert forall|c: Candidate| #[trigger] b.frontier.contains(c) implies end.frontier.contains(
            c,
        ) by {
            assert(mid.frontier.contains(c));
        }
    }
}

/// The same of a list of entry points.
pub proof fn lemma_all_entered<M: Metric>(
    q: Seq<u32>,
    vecs: Seq<Seq<u32>>,
    ids: Seq<NodeId>,
    ef: nat,
)
    requires
        ef >= 1,
    ensures
        beam_ok::<M>(q, vecs, all_entered::<M>(q, vecs, unstarted(), ids, ef), ef),
        all_entered::<M>(q, vecs, unstarted(), ids, ef).visited == ids.to_set(),
        all_entered::<M>(q, vecs, unstarted(), ids, ef).frontier.len() <= all_entered::<M>(
            q,
            vecs,
            unstarted(),
            ids,
            ef,
        ).visited.len(),
        ids.len() > 0 ==> all_entered::<M>(q, vecs, unstarted(), ids, ef).best.len() >= 1,
        forall|c: Candidate| #[trigger]
            all_entered::<M>(q, vecs, unstarted(), ids, ef).best.contains(c) ==> all_entered::<M>(
                q,
                vecs,
                unstarted(),
                ids,
                ef,
            ).frontier.contains(c),
    decreases ids.len(),
{
    if ids.len() == 0 {
        assert(ids.to_set() =~= Set::empty());
    } else {
        lemma_all_entered::<M>(q, vecs, ids.drop_last(), ef);
        let mid = all_entered::<M>(q, vecs, unstarted(), ids.drop_last(), ef);
        lemma_taken_in::<M>(q, vecs, mid, ids.last(), ef);
        let end = all_entered::<M>(q, vecs, unstarted(), ids, ef);
        assert(ids.to_set() =~= ids.drop_last().to_set().insert(ids.last())) by {
            assert forall|x: NodeId| ids.to_set().contains(x) == #[trigger] ids.drop_last().to_set()
                .insert(ids.last())
                .contains(x) by {
                if ids.contains(x) {
                    let i = ids.index_of(x);
                    if i < ids.len() - 1 {
                        assert(ids.drop_last()[i] == x);
                    }
                }
                if ids.drop_last().contains(x) {
                    let i = ids.drop_last().index_of(x);
                    assert(ids[i] == x);
                }
                assert(ids[ids.len() - 1] == ids.last());
            }
        }
        assert forall|c: Candidate| #[trigger] end.best.contains(c) implies end.frontier.contains(
            c,
        ) by {
            if mid.best.contains(c) {
                assert(mid.frontier.contains(c));
            }
        }
    }
}

/// Every edge that leaves a node of `within` leads to a node of `within`.
pub open spec fn closed_under(graph: Map<NodeId, Seq<NodeId>>, within: Set<NodeId>) -> bool {
    forall|n: NodeId, i: int|
        within.contains(n) && graph.contains_key(n) && 0 <= i < graph[n].len() ==> within.contains(
            #[trigger] graph[n][i],
        )
}

/// The nodes that edges lead to from the entry points, these included: what every set has that holds
/// the entry points and that no edge leaves.
pub open spec fn reachable(graph: Map<NodeId, Seq<NodeId>>, entries: Seq<NodeId>) -> Set<NodeId> {
    Set::new(
        |n: NodeId|
            forall|within: Set<NodeId>|
                entries.to_set().subset_of(within) && #[trigger] closed_under(graph, within)
                    ==> within.contains(n),
    )
}

/// What can be reached holds the entry points, no edge leaves it, and it is in every such set.
pub proof fn lemma_reachable(
    graph: Map<NodeId, Seq<NodeId>>,
    entries: Seq<NodeId>,
    within: Set<NodeId>,
)
    ensures
        entries.to_set().subset_of(reachable(graph, entries)),
        closed_under(graph, reachable(graph, entries)),
        entries.to_set().subset_of(within) && closed_under(graph, within) ==> reachable(
            graph,
            entries,
        ).subset_of(within),
{
    let reached = reachable(graph, entries);
    assert forall|n: NodeId, i: int|
        reached.contains(n) && graph.contains_key(n) && 0 <= i < graph[n].len() implies reached.contains(
        #[trigger] graph[n][i],
    ) by {
        assert forall|w: Set<NodeId>|
            entries.to_set().subset_of(w) && #[trigger] closed_under(graph, w) implies w.contains(
            graph[n][i],
        ) by {
            assert(w.contains(n));
        }
    }
}

/// Of what is among the best, everything that is not queued has had its neighbours visited.
pub open spec fn best_explored(graph: Map<NodeId, Seq<NodeId>>, b: Beam) -> bool {
    forall|c: Candidate, i: int|
        b.best.contains(c) && !b.frontier.contains(c) && 0 <= i < graph[c.id].len()
            ==> b.visited.contains(#[trigger] graph[c.id][i])
}

/// One expansion of a sound beam.
pub proof fn lemma_expanded<M: Metric>(
    q: Seq<u32>,
    vecs: Seq<Seq<u32>>,
    graph: Map<NodeId, Seq<NodeId>>,
    b: Beam,
    ef: nat,
)
    requires
        beam_ok::<M>(q, vecs, b, ef),
        b.frontier.len() > 0,
    ensures
        beam_ok::<M>(q, vecs, expanded::<M>(q, vecs, graph, b, ef), ef),
        expanded::<M>(q, vecs, graph, b, ef).visited == b.visited.union(
            graph[b.frontier[0].id].to_set(),
        ),
        expanded::<M>(q, vecs, graph, b, ef).frontier.len() + 1 + b.visited.len()
            <= b.frontier.len() + expanded::<M>(q, vecs, graph, b, ef).visited.len(),
        b.best.len() <= expanded::<M>(q, vecs, graph, b, ef).best.len(),
        best_explored(graph, b) ==> best_explored(graph, expanded::<M>(q, vecs, graph, b, ef)),
        b.visited.contains(b.frontier[0].id),
{
    let current = b.frontier[0];
    let popped = Beam { frontier: b.frontier.skip(1), ..b };
    let ids = graph[current.id];
    let end = expanded::<M>(q, vecs, graph, b, ef);
    assert(b.frontier.contains(current));
    assert forall|c: Candidate| #[trigger] popped.frontier.contains(c) implies b.frontier.contains(
        c,
    ) by {
        let i = popped.frontier.index_of(c);
        assert(b.frontier[i + 1] == c);
    }
    assert(ascending(popped.frontier)) by {
        assert forall|i: int, j: int| 0 <= i < j < popped.frontier.len() implies before(
            #[trigger] popped.frontier[i],
            #[trigger] popped.frontier[j],
        ) by {
            assert(before(b.frontier[i + 1], b.frontier[j + 1]));
        }
    }
    lemma_all_seen::<M>(q, vecs, popped, ids, ef);
    if best_explored(graph, b) {
        assert forall|c: Candidate, i: int|
            end.best.contains(c) && !end.frontier.contains(c) && 0 <= i < graph[c.id].len() implies
            end.visited.contains(#[trigger] graph[c.id][i]) by {
            assert(b.best.contains(c));
            if c == current {
                assert(ids.contains(ids[i]));
            } else if b.frontier.contains(c) {
                let at = b.frontier.index_of(c);
                assert(popped.frontier[at - 1] == c);
                assert(popped.frontier.contains(c));
            } else {
                assert(b.visited.contains(graph[c.id][i]));
            }
        }
    }
}

/// What a run keeps: soundness, the nodes it may touch, and what it has found.
pub proof fn lemma_run<M: Metric>(
    q: Seq<u32>,
    vecs: Seq<Seq<u32>>,
    graph: Map<NodeId, Seq<NodeId>>,
    b: Beam,
    ef: nat,
    steps: nat,
    within: Set<NodeId>,
)
    requires
        beam_ok::<M>(q, vecs, b, ef),
        b.visited.subset_of(within),
        within.subset_of(graph.dom()),
        closed_under(graph, within),
    ensures
        beam_ok::<M>(q, vecs, run::<M>(q, vecs, graph, b, ef, steps), ef),
        run::<M>(q, vecs, graph, b, ef, steps).visited.subset_of(within),
        b.visited.subset_of(run::<M>(q, vecs, graph, b, ef, steps).visited),
        b.best.len() <= run::<M>(q, vecs, graph, b, ef, steps).best.len(),
        best_explored(graph, b) ==> best_explored(
            graph,
            run::<M>(q, vecs, graph, b, ef, steps),
        ),
        graph.dom().finite() && b.frontier.len() + (graph.dom().len() - steps) <= b.visited.len()
            ==> settled(run::<M>(q, vecs, graph, b, ef, steps), ef),
    decreases steps,
{
    if graph.dom().finite() {
        vstd::set_lib::lemma_len_subset(b.visited, graph.dom());
    }
    if steps > 0 && !settled(b, ef) {
        let next = expanded::<M>(q, vecs, graph, b, ef);
        lemma_expanded::<M>(q, vecs, graph, b, ef);
        let id = b.frontier[0].id;
        assert(next.visited.subset_of(within)) by {
            assert forall|n: NodeId| next.visited.contains(n) implies within.contains(n) by {
                if graph[id].to_set().contains(n) {
                    let i = graph[id].index_of(n);
                    assert(within.contains(graph[id][i]));
                }
            }
        }
        lemma_run::<M>(q, vecs, graph, next, ef, (steps - 1) as nat, within);
    }
}

/// What every beam search gives: at most `ef` candidates, nearest first, no node twice, each with
/// its distance to the query, all of them nodes that edges lead to from the entry points.
pub proof fn lemma_found<M: Metric>(
    q: Seq<u32>,
    vecs: Seq<Seq<u32>>,
    graph: Map<NodeId, Seq<NodeId>>,
    entries: Seq<NodeId>,
    ef: nat,
    within: Set<NodeId>,
)
    requires
        entries.to_set().subset_of(within),
        within.subset_of(graph.dom()),
        closed_under(graph, within),
    ensures
        ascending(found_by::<M>(q, vecs, graph, entries, ef)),
        found_by::<M>(q, vecs, graph, entries, ef).len() <= ef,
        forall|i: int|
            0 <= i < found_by::<M>(q, vecs, graph, entries, ef).len() ==> (
            #[trigger] found_by::<M>(q, vecs, graph, entries, ef)[i]) == score::<M>(
                q,
                vecs,
                found_by::<M>(q, vecs, graph, entries, ef)[i].id,
            ) && within.contains(found_by::<M>(q, vecs, graph, entries, ef)[i].id),
        ef >= 1 && entries.len() >= 1 ==> found_by::<M>(q, vecs, graph, entries, ef).len() >= 1,
{
    if ef >= 1 {
        let start = all_entered::<M>(q, vecs, unstarted(), entries, ef);
        lemma_all_entered::<M>(q, vecs, entries, ef);
        lemma_run::<M>(q, vecs, graph, start, ef, graph.dom().len(), within);
        let end = finished::<M>(q, vecs, graph, entries, ef);
        assert forall|i: int| 0 <= i < end.best.len() implies (#[trigger] end.best[i]) == score::<
            M,
        >(q, vecs, end.best[i].id) && within.contains(end.best[i].id) by {
            assert(end.best.contains(end.best[i]));
        }
    }
}

/// A node is scored at most once in one search: no more distances are computed than there are nodes
/// to reach, and no fewer than there are candidates.
pub proof fn lemma_scored_once<M: Metric>(
    q: Seq<u32>,
    vecs: Seq<Seq<u32>>,
    graph: Map<NodeId, Seq<NodeId>>,
    entries: Seq<NodeId>,
    ef: nat,
)
    requires
        graph.dom().finite(),
        reachable(graph, entries).subset_of(graph.dom()),
    ensures
        scored_by::<M>(q, vecs, graph, entries, ef) <= reachable(graph, entries).len()
            <= graph.dom().len(),
        found_by::<M>(q, vecs, graph, entries, ef).len() <= scored_by::<M>(
            q,
            vecs,
            graph,
            entries,
            ef,
        ),
{
    let reached = reachable(graph, entries);
    lemma_reachable(graph, entries, graph.dom());
    vstd::set_lib::lemma_len_subset(reached, graph.dom());
    if ef >= 1 {
        let start = all_entered::<M>(q, vecs, unstarted(), entries, ef);
        lemma_all_entered::<M>(q, vecs, entries, ef);
        lemma_run::<M>(q, vecs, graph, start, ef, graph.dom().len(), reached);
        let end = finished::<M>(q, vecs, graph, entries, ef);
        vstd::set_lib::lemma_len_subset(end.visited, reached);
        lemma_found::<M>(q, vecs, graph, entries, ef, reached);
        lemma_found_distinct::<M>(q, vecs, end.best);
        let ids = end.best.map_values(|c: Candidate| c.id);
        assert(ids.no_duplicates()) by {
            assert forall|i: int, j: int| 0 <= i < j < ids.len() implies ids[i] != ids[j] by {
                assert(end.best[i].id != end.best[j].id);
            }
        }
        ids.unique_seq_to_set();
        assert(ids.to_set().subset_of(end.visited)) by {
            assert forall|n: NodeId| ids.to_set().contains(n) implies end.visited.contains(n) by {
                let i = ids.index_of(n);
                assert(end.best.contains(end.best[i]));
            }
        }
        vstd::set_lib::lemma_len_subset(ids.to_set(), end.visited);
    }
}

/// No node occurs twice among the candidates of one search.
pub proof fn lemma_found_distinct<M: Metric>(
    q: Seq<u32>,
    vecs: Seq<Seq<u32>>,
    found: Seq<Candidate>,
)
    requires
        ascending(found),
        forall|i: int|
            0 <= i < found.len() ==> (#[trigger] found[i]) == score::<M>(q, vecs, found[i].id),
    ensures
        forall|i: int, j: int|
            0 <= i < j < found.len() ==> (#[trigger] found[i]).id != (#[trigger] found[j]).id,
{
    assert forall|i: int, j: int| 0 <= i < j < found.len() implies (#[trigger] found[i]).id != (
    #[trigger] found[j]).id by {
        if found[i].id == found[j].id {
            assert(found[i] == found[j]);
            assert(before(found[i], found[j]));
        }
    }
}

/// A beam search ends in a local optimum: an entry point, or a neighbour of a candidate that is
/// returned, is itself returned unless the beam is full and it is further than all of it. With a
/// beam that does not fill up, everything reachable is returned.
pub proof fn lemma_local_optimum<M: Metric>(
    q: Seq<u32>,
    vecs: Seq<Seq<u32>>,
    graph: Map<NodeId, Seq<NodeId>>,
    entries: Seq<NodeId>,
    ef: nat,
)
    requires
        ef >= 1,
        graph.dom().finite(),
        reachable(graph, entries).subset_of(graph.dom()),
    ensures
        forall|i: int| 0 <= i < entries.len() ==> {
            let found = found_by::<M>(q, vecs, graph, entries, ef);
            let c = score::<M>(q, vecs, #[trigger] entries[i]);
            found.contains(c) || (found.len() == ef && before(found.last(), c))
        },
        forall|i: int, j: int|
            0 <= i < found_by::<M>(q, vecs, graph, entries, ef).len() && 0 <= j < graph[found_by::<
                M,
            >(q, vecs, graph, entries, ef)[i].id].len() ==> {
                let found = found_by::<M>(q, vecs, graph, entries, ef);
                let c = score::<M>(
                    q,
                    vecs,
                    #[trigger] graph[found_by::<M>(q, vecs, graph, entries, ef)[i].id][j],
                );
                found.contains(c) || (found.len() == ef && before(found.last(), c))
            },
{
    let start = all_entered::<M>(q, vecs, unstarted(), entries, ef);
    let reached = reachable(graph, entries);
    lemma_all_entered::<M>(q, vecs, entries, ef);
    lemma_reachable(graph, entries, graph.dom());
    vstd::set_lib::lemma_len_subset(start.visited, graph.dom());
    lemma_run::<M>(q, vecs, graph, start, ef, graph.dom().len(), reached);
    let end = finished::<M>(q, vecs, graph, entries, ef);
    let found = end.best;
    assert forall|i: int| 0 <= i < entries.len() implies {
        let c = score::<M>(q, vecs, #[trigger] entries[i]);
        found.contains(c) || (found.len() == ef && before(found.last(), c))
    } by {
        assert(entries.to_set().contains(entries[i]));
        assert(end.visited.contains(entries[i]));
    }
    assert forall|i: int, j: int| 0 <= i < found.len() && 0 <= j < graph[found[i].id].len() implies {
        let c = score::<M>(q, vecs, #[trigger] graph[found[i].id][j]);
        found.contains(c) || (found.len() == ef && before(found.last(), c))
    } by {
        let c = found[i];
        assert(found.contains(c));
        if end.frontier.contains(c) {
            let at = end.frontier.index_of(c);
            bits::lemma_rank_round_trip(found.last().rank);
            bits::lemma_rank_round_trip(end.frontier[0].rank);
            bits::lemma_less_agrees_with_rank(
                found.last().dist_bits(),
                end.frontier[0].dist_bits(),
            );
            if at > 0 {
                assert(before(end.frontier[0], c));
            }
            if i < found.len() - 1 {
                assert(before(c, found[found.len() - 1]));
            }
            assert(false);
        }
        assert(end.visited.contains(graph[c.id][j]));
    }
}

/// Reusable scratch for one searching thread.
#[derive(Debug)]
pub struct Searcher {
    visited: VisitedList,
    /// Candidates, nearest first; those before the next one to expand have been expanded.
    candidates: Vec<Candidate>,
    /// Best results so far, nearest first, capped at `ef`.
    results: Vec<Candidate>,
}

/// The layer is a graph that a search over `size` vectors can walk.
pub open spec fn walkable(layer: &Layer, size: nat) -> bool {
    &&& layer.wf()
    &&& layer.capped()
    &&& closed_under(layer@, layer@.dom())
    &&& forall|node: NodeId| #[trigger] layer@.contains_key(node) ==> node < size
}

/// A search of the layer from these entry points stays on it and below `limit`.
pub open spec fn stays_below(layer: &Layer, entries: Seq<NodeId>, limit: nat) -> bool {
    forall|node: NodeId| #[trigger]
        reachable(layer@, entries).contains(node) ==> layer@.contains_key(node) && node < limit
            && layer.written_degree(node) <= layer.cap()
}

/// A layer that can be walked can be searched from any of its nodes.
pub proof fn lemma_stays_below(layer: &Layer, entries: Seq<NodeId>, size: nat, limit: nat)
    requires
        walkable(layer, size),
        size <= limit,
        forall|i: int| 0 <= i < entries.len() ==> layer@.contains_key(#[trigger] entries[i]),
    ensures
        stays_below(layer, entries, limit),
{
    assert(entries.to_set().subset_of(layer@.dom())) by {
        assert forall|n: NodeId| entries.to_set().contains(n) implies layer@.dom().contains(n) by {
            let i = entries.index_of(n);
            assert(layer@.contains_key(entries[i]));
        }
    }
    lemma_reachable(layer@, entries, layer@.dom());
    assert forall|node: NodeId| #[trigger]
        reachable(layer@, entries).contains(node) implies layer@.contains_key(node) && node < limit
        && layer.written_degree(node) <= layer.cap() by {
        assert(layer@.dom().contains(node));
    }
}

/// What the scratch of a search takes: the stamps, and eight bytes for each candidate that the two
/// lists have room for.
pub open spec fn scratch_total(stamps: usize, candidates: usize, results: usize) -> usize {
    clamped(stamps + 8 * candidates + 8 * results)
}

/// The bytes that the scratch of a search takes with stamps of this size and with room for this
/// many candidates in its two lists, or the largest number there is.
pub fn scratch_bytes(stamps: usize, candidates: usize, results: usize) -> (r: usize)
    ensures
        r == scratch_total(stamps, candidates, results),
{
    stamps.saturating_add(mem::bytes_for(candidates, 8)).saturating_add(
        mem::bytes_for(results, 8),
    )
}

impl Searcher {
    pub closed spec fn wf(&self) -> bool {
        self.visited.wf()
    }

    /// How many nodes there is room for.
    pub closed spec fn room(&self) -> nat {
        self.visited.room()
    }

    pub fn new(capacity: usize) -> (r: Self)
        ensures
            r.wf(),
            r.room() == capacity,
    {
        Searcher {
            visited: VisitedList::new(capacity),
            candidates: Vec::new(),
            results: Vec::new(),
        }
    }

    pub fn ensure_capacity(&mut self, capacity: usize)
        requires
            old(self).wf(),
        ensures
            final(self).wf(),
            final(self).room() == if old(self).room() < capacity {
                capacity as nat
            } else {
                old(self).room()
            },
    {
        self.visited.ensure_capacity(capacity);
    }

    pub fn capacity(&self) -> (r: usize)
        ensures
            r == self.room(),
    {
        self.visited.capacity()
    }

    /// How many candidates are in the two lists between searches.
    pub closed spec fn left_over(&self) -> (nat, nat) {
        (self.candidates@.len(), self.results@.len())
    }

    /// Bytes held by the reusable scratch: the stamps, and the two lists with some room in each,
    /// which is at least what is in use. How much more the allocator gave is not said.
    pub fn memory_bytes(&self) -> (r: usize)
        ensures
            exists|stamps: usize, candidates: usize, results: usize| #[trigger]
                scratch_total(list_bytes(stamps, 2), candidates, results) == r && stamps
                    >= self.room() && candidates >= self.left_over().0 && results
                    >= self.left_over().1,
    {
        scratch_bytes(
            self.visited.memory_bytes(),
            mem::capacity_of(&self.candidates),
            mem::capacity_of(&self.results),
        )
    }

    /// The `ef` nearest nodes to `query` reachable from `entry_points` within `layer`, ascending
    /// by distance and id.
    ///
    /// Duplicates among the entry points are harmless: the visited stamps filter them.
    pub fn search_layer<M: Metric>(
        &mut self,
        vectors: &VectorStore,
        layer: &Layer,
        query: &[u32],
        entry_points: &[NodeId],
        ef: usize,
        counter: &mut impl Count,
    ) -> (found: Vec<Candidate>)
        requires
            old(self).wf(),
            vectors.wf(),
            layer.wf(),
            ef >= 1 && entry_points@.len() >= 1 ==> query@.len() == vectors.width(),
            ef >= 1 ==> stays_below(layer, entry_points@, vectors.size()),
            ef >= 1 ==> stays_below(layer, entry_points@, old(self).room()),
        ensures
            final(self).wf(),
            final(self).room() == old(self).room(),
            found@ == found_by::<M>(query@, vectors.all(), layer@, entry_points@, ef as nat),
            final(counter).total() == counted(
                old(counter).total(),
                scored_by::<M>(query@, vectors.all(), layer@, entry_points@, ef as nat),
            ),
    {
        self.visited.begin();
        let ghost before = counter.total();
        self.candidates.clear();
        self.results.clear();
        if ef == 0 || entry_points.len() == 0 {
            return Vec::new();
        }
        let ghost q = query@;
        let ghost vecs = vectors.all();
        let ghost graph = layer@;
        let ghost width = ef as nat;
        let ghost start = all_entered::<M>(q, vecs, unstarted(), entry_points@, width);
        proof {
            vectors.lemma_wf();
            layer.lemma_order();
            layer.lemma_dense_dom();
            lemma_all_entered::<M>(q, vecs, entry_points@, width);
            lemma_reachable(graph, entry_points@, graph.dom());
        }
        let ghost reached = reachable(graph, entry_points@);
        let mut i: usize = 0;
        while i < entry_points.len()
            invariant
                i <= entry_points@.len(),
                ef >= 1,
                ef == width,
                q == query@,
                vecs == vectors.all(),
                graph == layer@,
                vectors.wf(),
                vectors.all().len() == vectors.size(),
                reached == reachable(graph, entry_points@),
                reached.subset_of(graph.dom()),
                closed_under(graph, reached),
                stays_below(layer, entry_points@, vectors.size()),
                stays_below(layer, entry_points@, old(self).room()),
                query@.len() == vectors.width(),
                layer.wf(),
                graph.dom().finite(),
                graph.dom().len() <= u32::MAX,
                entry_points@.to_set().subset_of(reached),
                self.visited.wf(),
                self.visited.room() == old(self).room(),
                self.visited@.subset_of(reached),
                counter.total() == counted(before, self.visited@.len()),
                self.candidates@.len() <= self.visited@.len(),
                beam_ok::<M>(
                    q,
                    vecs,
                    Beam {
                        visited: self.visited@,
                        frontier: self.candidates@,
                        best: self.results@,
                    },
                    width,
                ),
                all_entered::<M>(q, vecs, unstarted(), entry_points@.take(i as int), width) == (
                Beam { visited: self.visited@, frontier: self.candidates@, best: self.results@ }),
            decreases entry_points@.len() - i,
        {
            let entry: NodeId = entry_points[i];
            let ghost b = Beam {
                visited: self.visited@,
                frontier: self.candidates@,
                best: self.results@,
            };
            proof {
                lemma_taken_in::<M>(q, vecs, b, entry, width);
                assert(entry_points@.take(i + 1).drop_last() =~= entry_points@.take(i as int));
                assert(entry_points@.to_set().contains(entry_points@[i as int]));
                assert(reached.contains(entry));
                vstd::set_lib::lemma_len_subset(self.visited@, graph.dom());
            }
            if self.visited.visit(entry) {
                proof {
                    vstd::set_lib::lemma_len_subset(self.visited@, graph.dom());
                    assert(self.candidates@.len() < self.visited@.len());
                    candidate::lemma_ascending_is_ordered(self.candidates@);
                }
                let candidate = Candidate::new(
                    M::distance(query, vectors.get(entry as usize)),
                    entry,
                );
                counter.record(1);
                candidate::place_in(&mut self.candidates, candidate);
                push_bounded(&mut self.results, candidate, ef);
            } else {
                proof {
                    assert(b.visited.insert(entry) =~= b.visited);
                }
            }
            i += 1;
        }
        proof {
            assert(entry_points@.take(i as int) =~= entry_points@);
            assert(self.candidates@.skip(0) =~= self.candidates@);
        }
        let ghost end = finished::<M>(q, vecs, graph, entry_points@, width);
        let mut head: usize = 0;
        let mut done = false;
        let ghost mut steps: nat = graph.dom().len();
        while !done && head < self.candidates.len()
            invariant
                ef >= 1,
                ef == width,
                q == query@,
                vecs == vectors.all(),
                graph == layer@,
                vectors.wf(),
                vectors.all().len() == vectors.size(),
                reached == reachable(graph, entry_points@),
                reached.subset_of(graph.dom()),
                closed_under(graph, reached),
                stays_below(layer, entry_points@, vectors.size()),
                stays_below(layer, entry_points@, old(self).room()),
                query@.len() == vectors.width(),
                layer.wf(),
                graph.dom().finite(),
                graph.dom().len() <= u32::MAX,
                self.visited.wf(),
                self.visited.room() == old(self).room(),
                self.visited@.subset_of(reached),
                counter.total() == counted(before, self.visited@.len()),
                head <= self.candidates@.len() <= self.visited@.len(),
                head + steps == graph.dom().len(),
                beam_ok::<M>(
                    q,
                    vecs,
                    Beam {
                        visited: self.visited@,
                        frontier: self.candidates@.skip(head as int),
                        best: self.results@,
                    },
                    width,
                ),
                run::<M>(
                    q,
                    vecs,
                    graph,
                    Beam {
                        visited: self.visited@,
                        frontier: self.candidates@.skip(head as int),
                        best: self.results@,
                    },
                    width,
                    steps,
                ) == end,
                done ==> settled(
                    Beam {
                        visited: self.visited@,
                        frontier: self.candidates@.skip(head as int),
                        best: self.results@,
                    },
                    width,
                ),
            decreases steps + (if done { 0nat } else { 1nat }),
        {
            let ghost b = Beam {
                visited: self.visited@,
                frontier: self.candidates@.skip(head as int),
                best: self.results@,
            };
            proof {
                vstd::set_lib::lemma_len_subset(self.visited@, graph.dom());
                assert(steps >= 1);
            }
            let current = self.candidates[head];
            assert(current == b.frontier[0]);
            let full = self.results.len() >= ef;
            if full && bits::is_less(self.results[self.results.len() - 1].dist(), current.dist()) {
                done = true;
            } else {
                assert(!settled(b, width));
                head = head + 1;
                proof {
                    lemma_expanded::<M>(q, vecs, graph, b, width);
                    assert(b.frontier.contains(b.frontier[0]));
                    assert(reached.contains(current.id));
                    assert(graph.contains_key(current.id));
                    steps = (steps - 1) as nat;
                }
                let ghost popped = Beam { frontier: b.frontier.skip(1), ..b };
                proof {
                    assert(self.candidates@.skip(head as int) =~= popped.frontier);
                    lemma_popped::<M>(q, vecs, b, width);
                }
                let neighbors = layer.neighbors(current.id);
                let mut j: usize = 0;
                while j < neighbors.len()
                    invariant
                        j <= neighbors@.len(),
                        neighbors@ == graph[current.id],
                        graph.contains_key(current.id),
                        reached.contains(current.id),
                        ef >= 1,
                        ef == width,
                        q == query@,
                        vecs == vectors.all(),
                        graph == layer@,
                        vectors.wf(),
                        vectors.all().len() == vectors.size(),
                        reached == reachable(graph, entry_points@),
                        reached.subset_of(graph.dom()),
                        closed_under(graph, reached),
                        stays_below(layer, entry_points@, vectors.size()),
                        stays_below(layer, entry_points@, old(self).room()),
                        query@.len() == vectors.width(),
                        layer.wf(),
                        graph.dom().finite(),
                        graph.dom().len() <= u32::MAX,
                        self.visited.wf(),
                        self.visited.room() == old(self).room(),
                        self.visited@.subset_of(reached),
                        counter.total() == counted(before, self.visited@.len()),
                        head <= self.candidates@.len() <= self.visited@.len(),
                        beam_ok::<M>(
                            q,
                            vecs,
                            Beam {
                                visited: self.visited@,
                                frontier: self.candidates@.skip(head as int),
                                best: self.results@,
                            },
                            width,
                        ),
                        all_seen::<M>(q, vecs, popped, neighbors@.take(j as int), width) == (Beam {
                            visited: self.visited@,
                            frontier: self.candidates@.skip(head as int),
                            best: self.results@,
                        }),
                    decreases neighbors@.len() - j,
                {
                    let neighbor: NodeId = neighbors[j];
                    let ghost now = Beam {
                        visited: self.visited@,
                        frontier: self.candidates@.skip(head as int),
                        best: self.results@,
                    };
                    proof {
                        lemma_taken_in::<M>(q, vecs, now, neighbor, width);
                        assert(neighbors@.take(j + 1).drop_last() =~= neighbors@.take(j as int));
                        assert(reached.contains(graph[current.id][j as int]));
                        assert(reached.contains(neighbor));
                    }
                    if self.visited.visit(neighbor) {
                        proof {
                            vstd::set_lib::lemma_len_subset(self.visited@, graph.dom());
                            assert(self.candidates@.len() < self.visited@.len());
                        }
                        let candidate = Candidate::new(
                            M::distance(query, vectors.get(neighbor as usize)),
                            neighbor,
                        );
                        counter.record(1);
                        let accept = self.results.len() < ef || candidate.is_before(
                            &self.results[self.results.len() - 1],
                        );
                        if accept {
                            proof {
                                candidate::lemma_ascending_is_ordered(now.frontier);
                            }
                            candidate::place_after(&mut self.candidates, head, candidate);
                            proof {
                                assert(self.candidates@.skip(head as int) =~= placed(
                                    now.frontier,
                                    candidate,
                                ));
                                assert(!now.frontier.contains(candidate));
                                candidate::lemma_placed(now.frontier, candidate);
                            }
                            push_bounded(&mut self.results, candidate, ef);
                        }
                    } else {
                        proof {
                            assert(now.visited.insert(neighbor) =~= now.visited);
                        }
                    }
                    j += 1;
                }
                proof {
                    assert(neighbors@.take(j as int) =~= graph[current.id]);
                }
            }
        }
        let mut found: Vec<Candidate> = Vec::new();
        std::mem::swap(&mut found, &mut self.results);
        found
    }
}

proof fn lemma_popped<M: Metric>(q: Seq<u32>, vecs: Seq<Seq<u32>>, b: Beam, ef: nat)
    requires
        beam_ok::<M>(q, vecs, b, ef),
        b.frontier.len() > 0,
    ensures
        beam_ok::<M>(q, vecs, (Beam { frontier: b.frontier.skip(1), ..b }), ef),
{
    let rest = b.frontier.skip(1);
    assert forall|c: Candidate| #[trigger] rest.contains(c) implies b.frontier.contains(c) by {
        let i = rest.index_of(c);
        assert(b.frontier[i + 1] == c);
    }
    assert forall|i: int, j: int| 0 <= i < j < rest.len() implies before(
        #[trigger] rest[i],
        #[trigger] rest[j],
    ) by {
        assert(before(b.frontier[i + 1], b.frontier[j + 1]));
    }
}

/// A search finds all that can be reached, up to the width of its beam: as many candidates as there
/// are nodes to reach or as the beam holds, whichever is less. They come nearest first, no node
/// twice, each with its distance; and a beam that has room for everything holds everything.
pub proof fn lemma_found_exactly<M: Metric>(
    q: Seq<u32>,
    vecs: Seq<Seq<u32>>,
    graph: Map<NodeId, Seq<NodeId>>,
    entries: Seq<NodeId>,
    ef: nat,
)
    requires
        graph.dom().finite(),
        reachable(graph, entries).subset_of(graph.dom()),
    ensures
        ({
            let found = found_by::<M>(q, vecs, graph, entries, ef);
            let reached = reachable(graph, entries);
            &&& reached.finite()
            &&& found.len() == if ef < reached.len() {
                ef
            } else {
                reached.len()
            }
            &&& ascending(found)
            &&& forall|i: int|
                0 <= i < found.len() ==> (#[trigger] found[i]) == score::<M>(q, vecs, found[i].id)
                    && reached.contains(found[i].id)
            &&& forall|i: int, j: int|
                0 <= i < j < found.len() ==> (#[trigger] found[i]).id != (#[trigger] found[j]).id
            &&& ef >= reached.len() ==> forall|n: NodeId| #[trigger]
                reached.contains(n) ==> found.contains(score::<M>(q, vecs, n))
        }),
{
    let found = found_by::<M>(q, vecs, graph, entries, ef);
    let reached = reachable(graph, entries);
    let ids = found.map_values(|c: Candidate| c.id);
    let there = ids.to_set();
    lemma_reachable(graph, entries, there);
    vstd::set_lib::lemma_len_subset(reached, graph.dom());
    lemma_found::<M>(q, vecs, graph, entries, ef, reached);
    lemma_found_distinct::<M>(q, vecs, found);
    assert(ids.no_duplicates()) by {
        assert forall|i: int, j: int| 0 <= i < j < ids.len() implies ids[i] != ids[j] by {
            assert(found[i].id != found[j].id);
        }
    }
    ids.unique_seq_to_set();
    assert(there.subset_of(reached)) by {
        assert forall|n: NodeId| there.contains(n) implies reached.contains(n) by {
            let i = ids.index_of(n);
            assert(reached.contains(found[i].id));
        }
    }
    vstd::set_lib::lemma_len_subset(there, reached);
    if found.len() < ef {
        lemma_local_optimum::<M>(q, vecs, graph, entries, ef);
        assert(entries.to_set().subset_of(there)) by {
            assert forall|n: NodeId| entries.to_set().contains(n) implies there.contains(n) by {
                let i = entries.index_of(n);
                let at = found.index_of(score::<M>(q, vecs, entries[i]));
                assert(ids[at] == n);
            }
        }
        assert(closed_under(graph, there)) by {
            assert forall|n: NodeId, j: int|
                there.contains(n) && graph.contains_key(n) && 0 <= j
                    < graph[n].len() implies there.contains(#[trigger] graph[n][j]) by {
                let i = ids.index_of(n);
                assert(found[i].id == n);
                let at = found.index_of(score::<M>(q, vecs, graph[found[i].id][j]));
                assert(ids[at] == graph[n][j]);
            }
        }
        vstd::set_lib::lemma_len_subset(reached, there);
    }
    if ef >= reached.len() {
        vstd::set_lib::lemma_subset_equality(there, reached);
        assert forall|n: NodeId| #[trigger] reached.contains(n) implies found.contains(
            score::<M>(q, vecs, n),
        ) by {
            assert(there.contains(n));
            let i = ids.index_of(n);
            assert(found[i].id == n);
        }
    }
}

/// A scored node is told by its id, and carries its own distance from the query.
pub proof fn lemma_score<M: Metric>(q: Seq<u32>, vecs: Seq<Seq<u32>>, id: NodeId)
    ensures
        score::<M>(q, vecs, id).id == id,
        score::<M>(q, vecs, id).dist_bits() == M::fast(q, vecs[id as int]),
{
    bits::lemma_rank_round_trip(M::fast(q, vecs[id as int]));
}

/// Of all the nodes that a search scores, those that it returns are the nearest: a scored node that
/// is not returned comes after every one that is, and then the beam is full. Scored are the entry
/// points and the neighbours of all that is returned, nothing that cannot be reached, and nothing
/// but entry points that is not a neighbour of a scored node.
pub proof fn lemma_nearest_of_scored<M: Metric>(
    q: Seq<u32>,
    vecs: Seq<Seq<u32>>,
    graph: Map<NodeId, Seq<NodeId>>,
    entries: Seq<NodeId>,
    ef: nat,
)
    requires
        ef >= 1,
        graph.dom().finite(),
        reachable(graph, entries).subset_of(graph.dom()),
    ensures
        ({
            let found = found_by::<M>(q, vecs, graph, entries, ef);
            let scored = finished::<M>(q, vecs, graph, entries, ef).visited;
            &&& scored_by::<M>(q, vecs, graph, entries, ef) == scored.len()
            &&& scored.subset_of(reachable(graph, entries))
            &&& forall|i: int| 0 <= i < entries.len() ==> scored.contains(#[trigger] entries[i])
            &&& forall|i: int| 0 <= i < found.len() ==> scored.contains((#[trigger] found[i]).id)
            &&& forall|i: int, j: int|
                0 <= i < found.len() && 0 <= j < graph[found[i].id].len() ==> scored.contains(
                    #[trigger] graph[found[i].id][j],
                )
            &&& forall|n: NodeId, i: int|
                #![trigger scored.contains(n), found[i]]
                scored.contains(n) && 0 <= i < found.len() && !found.contains(
                    score::<M>(q, vecs, n),
                ) ==> found.len() == ef && before(found[i], score::<M>(q, vecs, n))
            &&& forall|n: NodeId| #[trigger]
                scored.contains(n) && !entries.contains(n) ==> exists|from: NodeId, j: int|
                    scored.contains(from) && 0 <= j < graph[from].len() && #[trigger] graph[from][j]
                        == n
        }),
{
    let start = all_entered::<M>(q, vecs, unstarted(), entries, ef);
    let reached = reachable(graph, entries);
    lemma_all_entered::<M>(q, vecs, entries, ef);
    lemma_reachable(graph, entries, graph.dom());
    vstd::set_lib::lemma_len_subset(start.visited, graph.dom());
    lemma_run::<M>(q, vecs, graph, start, ef, graph.dom().len(), reached);
    let end = finished::<M>(q, vecs, graph, entries, ef);
    let found = end.best;
    assert forall|i: int| 0 <= i < entries.len() implies end.visited.contains(
        #[trigger] entries[i],
    ) by {
        assert(entries.to_set().contains(entries[i]));
    }
    assert forall|i: int| 0 <= i < found.len() implies end.visited.contains(
        (#[trigger] found[i]).id,
    ) by {
        assert(found.contains(found[i]));
    }
    assert forall|i: int, j: int|
        0 <= i < found.len() && 0 <= j < graph[found[i].id].len() implies end.visited.contains(
        #[trigger] graph[found[i].id][j],
    ) by {
        let c = found[i];
        assert(found.contains(c));
        if end.frontier.contains(c) {
            let at = end.frontier.index_of(c);
            bits::lemma_rank_round_trip(found.last().rank);
            bits::lemma_rank_round_trip(end.frontier[0].rank);
            bits::lemma_less_agrees_with_rank(
                found.last().dist_bits(),
                end.frontier[0].dist_bits(),
            );
            if at > 0 {
                assert(before(end.frontier[0], c));
            }
            if i < found.len() - 1 {
                assert(before(c, found[found.len() - 1]));
            }
            assert(false);
        }
    }
    assert forall|n: NodeId, i: int|
        #![trigger end.visited.contains(n), found[i]]
        end.visited.contains(n) && 0 <= i < found.len() && !found.contains(
            score::<M>(q, vecs, n),
        ) implies found.len() == ef && before(found[i], score::<M>(q, vecs, n)) by {
        if i < found.len() - 1 {
            assert(before(found[i], found[found.len() - 1]));
            candidate::lemma_before_transitive(found[i], found.last(), score::<M>(q, vecs, n));
        }
    }
    assert(led_to(graph, start.visited, start.visited));
    lemma_run_led_to::<M>(q, vecs, graph, start, ef, graph.dom().len(), start.visited);
    assert forall|n: NodeId| #[trigger]
        end.visited.contains(n) && !entries.contains(n) implies exists|from: NodeId, j: int|
        end.visited.contains(from) && 0 <= j < graph[from].len() && #[trigger] graph[from][j]
            == n by {
        assert(!entries.to_set().contains(n));
    }
}

/// An edge from a node of `visited` leads to each of its nodes that is not in `first`.
spec fn led_to(graph: Map<NodeId, Seq<NodeId>>, visited: Set<NodeId>, first: Set<NodeId>) -> bool {
    forall|n: NodeId| #[trigger]
        visited.contains(n) && !first.contains(n) ==> exists|from: NodeId, j: int|
            visited.contains(from) && 0 <= j < graph[from].len() && #[trigger] graph[from][j] == n
}

proof fn lemma_run_led_to<M: Metric>(
    q: Seq<u32>,
    vecs: Seq<Seq<u32>>,
    graph: Map<NodeId, Seq<NodeId>>,
    b: Beam,
    ef: nat,
    steps: nat,
    first: Set<NodeId>,
)
    requires
        beam_ok::<M>(q, vecs, b, ef),
        led_to(graph, b.visited, first),
    ensures
        led_to(graph, run::<M>(q, vecs, graph, b, ef, steps).visited, first),
    decreases steps,
{
    if steps > 0 && !settled(b, ef) {
        let next = expanded::<M>(q, vecs, graph, b, ef);
        lemma_expanded::<M>(q, vecs, graph, b, ef);
        let id = b.frontier[0].id;
        assert forall|n: NodeId| #[trigger]
            next.visited.contains(n) && !first.contains(n) implies exists|from: NodeId, j: int|
            next.visited.contains(from) && 0 <= j < graph[from].len() && #[trigger] graph[from][j]
                == n by {
            if b.visited.contains(n) {
                let (from, j) = choose|from: NodeId, j: int|
                    b.visited.contains(from) && 0 <= j < graph[from].len()
                        && #[trigger] graph[from][j] == n;
                assert(next.visited.contains(from));
            } else {
                let j = graph[id].index_of(n);
                assert(graph[id][j] == n);
                assert(next.visited.contains(id));
            }
        }
        lemma_run_led_to::<M>(q, vecs, graph, next, ef, (steps - 1) as nat, first);
    }
}

/// An entry point that is named again changes nothing.
pub proof fn lemma_repeated_entry<M: Metric>(
    q: Seq<u32>,
    vecs: Seq<Seq<u32>>,
    graph: Map<NodeId, Seq<NodeId>>,
    first: Seq<NodeId>,
    again: NodeId,
    rest: Seq<NodeId>,
    ef: nat,
)
    requires
        first.contains(again),
    ensures
        found_by::<M>(q, vecs, graph, first.push(again) + rest, ef) == found_by::<M>(
            q,
            vecs,
            graph,
            first + rest,
            ef,
        ),
        scored_by::<M>(q, vecs, graph, first.push(again) + rest, ef) == scored_by::<M>(
            q,
            vecs,
            graph,
            first + rest,
            ef,
        ),
{
    if ef >= 1 {
        lemma_entered_again::<M>(q, vecs, first, again, rest, ef);
    }
}

proof fn lemma_entered_again<M: Metric>(
    q: Seq<u32>,
    vecs: Seq<Seq<u32>>,
    first: Seq<NodeId>,
    again: NodeId,
    rest: Seq<NodeId>,
    ef: nat,
)
    requires
        first.contains(again),
        ef >= 1,
    ensures
        all_entered::<M>(q, vecs, unstarted(), first.push(again) + rest, ef) == all_entered::<M>(
            q,
            vecs,
            unstarted(),
            first + rest,
            ef,
        ),
    decreases rest.len(),
{
    let longer = first.push(again) + rest;
    let shorter = first + rest;
    if rest.len() == 0 {
        assert(longer =~= first.push(again));
        assert(shorter =~= first);
        assert(longer.drop_last() =~= first);
        lemma_all_entered::<M>(q, vecs, first, ef);
    } else {
        assert(longer.drop_last() =~= first.push(again) + rest.drop_last());
        assert(shorter.drop_last() =~= first + rest.drop_last());
        lemma_entered_again::<M>(q, vecs, first, again, rest.drop_last(), ef);
    }
}

/// Keeps `results` at no more than `ef` entries, dropping the furthest.
pub(crate) fn push_bounded(results: &mut Vec<Candidate>, candidate: Candidate, ef: usize)
    requires
        ascending(old(results)@),
        !old(results)@.contains(candidate),
        old(results)@.len() <= ef,
        ef >= 1,
    ensures
        final(results)@ == offered(old(results)@, candidate, ef as nat),
{
    let ghost before_push = results@;
    proof {
        lemma_offered(results@, candidate, ef as nat);
        candidate::lemma_placed(results@, candidate);
        candidate::lemma_ascending_is_ordered(results@);
    }
    if results.len() < ef {
        candidate::place_in(results, candidate);
    } else if candidate.is_before(&results[results.len() - 1]) {
        results.pop();
        proof {
            let shorter = before_push.drop_last();
            assert(results@ =~= shorter);
            assert(ascending(shorter)) by {
                assert forall|i: int, j: int| 0 <= i < j < shorter.len() implies before(
                    #[trigger] shorter[i],
                    #[trigger] shorter[j],
                ) by {
                    assert(before(before_push[i], before_push[j]));
                }
            }
            candidate::lemma_ascending_is_ordered(shorter);
            candidate::lemma_place(before_push, candidate);
            candidate::lemma_place(shorter, candidate);
            let at = candidate::place(before_push, candidate);
            assert(at < before_push.len()) by {
                if at == before_push.len() {
                    assert(before(before_push[at - 1], candidate));
                }
            }
            assert forall|i: int| 0 <= i < at implies before(#[trigger] shorter[i], candidate) by {
                assert(before(before_push[i], candidate));
            }
            assert forall|i: int| at <= i < shorter.len() implies !before(
                #[trigger] shorter[i],
                candidate,
            ) by {
                assert(!before(before_push[i], candidate));
            }
            candidate::lemma_place_unique(shorter, candidate, at);
            assert(placed(shorter, candidate) =~= placed(before_push, candidate).take(ef as int));
        }
        candidate::place_in(results, candidate);
    }
}

/// When a search stops: when nothing is left to expand, or the beam is full and the nearest of what
/// is left is further away than the furthest in the beam. Until then it goes on from the nearest of
/// what is left, and it is told apart from one that has stopped by nothing else.
pub proof fn lemma_run_stops<M: Metric>(
    q: Seq<u32>,
    vecs: Seq<Seq<u32>>,
    graph: Map<NodeId, Seq<NodeId>>,
    b: Beam,
    ef: nat,
    steps: nat,
)
    ensures
        b.frontier.len() == 0 ==> run::<M>(q, vecs, graph, b, ef, steps) == b,
        b.best.len() >= ef && bits::less(b.best.last().dist_bits(), b.frontier[0].dist_bits())
            ==> run::<M>(q, vecs, graph, b, ef, steps) == b,
        steps > 0 && b.frontier.len() > 0 && (b.best.len() < ef || !bits::less(
            b.best.last().dist_bits(),
            b.frontier[0].dist_bits(),
        )) ==> run::<M>(q, vecs, graph, b, ef, steps) == run::<M>(
            q,
            vecs,
            graph,
            all_seen::<M>(
                q,
                vecs,
                Beam { visited: b.visited, frontier: b.frontier.skip(1), best: b.best },
                graph[b.frontier[0].id],
                ef,
            ),
            ef,
            (steps - 1) as nat,
        ),
{
}

/// What becomes of a neighbour that is examined: nothing if it was visited; otherwise it is visited,
/// and it waits to be expanded if and only if the beam has room for it or it is nearer than the
/// furthest in it. Nothing else leaves or joins what waits.
pub proof fn lemma_seen<M: Metric>(
    q: Seq<u32>,
    vecs: Seq<Seq<u32>>,
    b: Beam,
    id: NodeId,
    ef: nat,
)
    requires
        candidate::ordered(b.frontier),
    ensures
        ({
            let after = seen::<M>(q, vecs, b, id, ef);
            let c = score::<M>(q, vecs, id);
            let waits = b.best.len() < ef || before(c, b.best.last());
            &&& b.visited.contains(id) ==> after == b
            &&& !b.visited.contains(id) ==> {
                &&& after.visited == b.visited.insert(id)
                &&& waits ==> after.frontier.to_multiset() == b.frontier.to_multiset().insert(c)
                &&& !waits ==> after.frontier == b.frontier && after.best == b.best
            }
        }),
{
    candidate::lemma_placed_ordered(b.frontier, score::<M>(q, vecs, id));
}

} // verus!
