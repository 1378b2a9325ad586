//! The graph as mathematics: what inserting a vector does to it, and what every insert keeps.

use vstd::prelude::*;

use crate::candidate::{self, ascending, before, in_order, ordered, Candidate};
use crate::hnsw::params::HnswParams;
use crate::hnsw::search::{self, closed_under, found_by, reachable, score};
use crate::hnsw::select::{self, chosen_from, ids_of, selects};
use crate::metric::Metric;
use crate::NodeId;

verus! {

/// One layer: the nodes on it, each with its neighbours in order.
pub type Edges = Map<NodeId, Seq<NodeId>>;

/// A hierarchical graph over vectors.
pub struct Graph {
    /// The vectors, by node id.
    pub vecs: Seq<Seq<u32>>,
    /// The highest layer each node reaches.
    pub levels: Seq<u8>,
    /// The layers from the bottom up.
    pub layers: Seq<Edges>,
    /// Where every search starts.
    pub entry: Option<NodeId>,
    /// The highest layer.
    pub top: nat,
}

/// The graph with one more node on layers `0..=level`, linked to nothing.
pub open spec fn grown(g: Graph, v: Seq<u32>, level: nat) -> Graph {
    let node = g.vecs.len() as NodeId;
    let height = if g.layers.len() <= level {
        level + 1
    } else {
        g.layers.len()
    };
    Graph {
        vecs: g.vecs.push(v),
        levels: g.levels.push(level as u8),
        layers: Seq::new(
            height,
            |l: int|
                {
                    let edges = if l < g.layers.len() {
                        g.layers[l]
                    } else {
                        Map::empty()
                    };
                    if l <= level {
                        edges.insert(node, Seq::empty())
                    } else {
                        edges
                    }
                },
        ),
        ..g
    }
}

/// Greedy descent from layer `from` to just above layer `stop`, with a beam of one.
pub open spec fn descended<M: Metric>(
    vecs: Seq<Seq<u32>>,
    layers: Seq<Edges>,
    q: Seq<u32>,
    from: nat,
    stop: nat,
    entries: Seq<NodeId>,
) -> Seq<NodeId>
    decreases from,
{
    if from <= stop {
        entries
    } else {
        let found = found_by::<M>(q, vecs, layers[from as int], entries, 1);
        let next = if found.len() > 0 {
            seq![found[0].id]
        } else {
            entries
        };
        descended::<M>(vecs, layers, q, (from - 1) as nat, stop, next)
    }
}

/// The neighbours that a saturated node `s` keeps when `extra` asks to be one: its list and the
/// new node go through the selection together, measured from `s`.
pub open spec fn reselected<M: Metric>(
    vecs: Seq<Seq<u32>>,
    edges: Edges,
    s: NodeId,
    extra: NodeId,
    cap: nat,
    params: HnswParams,
) -> Seq<NodeId> {
    chosen_from::<M>(
        vecs,
        in_order(measured::<M>(vecs, s, edges[s].push(extra))),
        cap,
        params.policy(),
    )
}

/// Nodes as candidates, by their distance from `s`.
pub open spec fn measured<M: Metric>(
    vecs: Seq<Seq<u32>>,
    s: NodeId,
    ids: Seq<NodeId>,
) -> Seq<Candidate> {
    Seq::new(ids.len(), |i: int| score::<M>(vecs[s as int], vecs, ids[i]))
}

/// A layer with an edge from `s` to `node` added, or `s`'s list selected anew if it is full.
pub open spec fn connected<M: Metric>(
    vecs: Seq<Seq<u32>>,
    edges: Edges,
    s: NodeId,
    node: NodeId,
    cap: nat,
    params: HnswParams,
) -> Edges {
    if edges[s].len() < cap {
        edges.insert(s, edges[s].push(node))
    } else {
        edges.insert(s, reselected::<M>(vecs, edges, s, node, cap, params))
    }
}

/// The same for every node of a list in turn.
pub open spec fn all_connected<M: Metric>(
    vecs: Seq<Seq<u32>>,
    edges: Edges,
    ids: Seq<NodeId>,
    node: NodeId,
    cap: nat,
    params: HnswParams,
) -> Edges
    decreases ids.len(),
{
    if ids.len() == 0 {
        edges
    } else {
        connected::<M>(
            vecs,
            all_connected::<M>(vecs, edges, ids.drop_last(), node, cap, params),
            ids.last(),
            node,
            cap,
            params,
        )
    }
}

/// The candidates for `node`'s neighbours on layer `l`.
pub open spec fn near<M: Metric>(
    g: Graph,
    params: HnswParams,
    node: NodeId,
    l: int,
    entries: Seq<NodeId>,
) -> Seq<Candidate> {
    found_by::<M>(g.vecs[node as int], g.vecs, g.layers[l], entries, params.width())
}

/// The neighbours that `node` gets on layer `l`.
pub open spec fn picked<M: Metric>(
    g: Graph,
    params: HnswParams,
    node: NodeId,
    l: int,
    entries: Seq<NodeId>,
) -> Seq<NodeId> {
    chosen_from::<M>(
        g.vecs,
        in_order(near::<M>(g, params, node, l, entries)),
        params.links(),
        params.policy(),
    )
}

/// The graph with `node` linked on layer `l`, in both directions.
pub open spec fn linked_on<M: Metric>(
    g: Graph,
    params: HnswParams,
    node: NodeId,
    l: int,
    entries: Seq<NodeId>,
) -> Graph {
    let chosen = picked::<M>(g, params, node, l, entries);
    Graph {
        layers: g.layers.update(
            l,
            all_connected::<M>(
                g.vecs,
                g.layers[l].insert(node, chosen),
                chosen,
                node,
                params.cap(l),
                params,
            ),
        ),
        ..g
    }
}

/// Where the search on the layer below starts: everything that this one found.
pub open spec fn next_entries(found: Seq<Candidate>, node: NodeId) -> Seq<NodeId> {
    if found.len() == 0 {
        seq![node]
    } else {
        ids_of(found)
    }
}

/// The graph with `node` linked on `count` layers, from layer `count - 1` down.
pub open spec fn linked<M: Metric>(
    g: Graph,
    params: HnswParams,
    node: NodeId,
    count: nat,
    entries: Seq<NodeId>,
) -> Graph
    decreases count,
{
    if count == 0 {
        g
    } else {
        linked::<M>(
            linked_on::<M>(g, params, node, count - 1, entries),
            params,
            node,
            (count - 1) as nat,
            next_entries(near::<M>(g, params, node, count - 1, entries), node),
        )
    }
}

/// The graph after inserting `v` at `level`.
pub open spec fn inserted<M: Metric>(
    g: Graph,
    params: HnswParams,
    v: Seq<u32>,
    level: nat,
) -> Graph {
    let node = g.vecs.len() as NodeId;
    let h = grown(g, v, level);
    match g.entry {
        None => Graph { entry: Some(node), top: level, ..h },
        Some(entry) => {
            let start = descended::<M>(h.vecs, h.layers, v, g.top, level, seq![entry]);
            let count = if level < g.top {
                level + 1
            } else {
                g.top + 1
            };
            let done = linked::<M>(h, params, node, count, start);
            if level > g.top {
                Graph { top: level, entry: Some(node), ..done }
            } else {
                done
            }
        },
    }
}

/// Linking a node changes edges, and nothing else.
pub proof fn lemma_linked_keeps<M: Metric>(
    g: Graph,
    params: HnswParams,
    node: NodeId,
    count: nat,
    entries: Seq<NodeId>,
)
    ensures
        linked::<M>(g, params, node, count, entries).vecs == g.vecs,
        linked::<M>(g, params, node, count, entries).levels == g.levels,
        linked::<M>(g, params, node, count, entries).entry == g.entry,
        linked::<M>(g, params, node, count, entries).top == g.top,
    decreases count,
{
    if count > 0 {
        lemma_linked_keeps::<M>(
            linked_on::<M>(g, params, node, count - 1, entries),
            params,
            node,
            (count - 1) as nat,
            next_entries(near::<M>(g, params, node, count - 1, entries), node),
        );
    }
}

/// Inserting adds one vector at the end, at the given level, and leaves the vectors and the levels
/// of all others alone. The new node becomes the entry point if there is none or if its level is
/// above the topmost layer; otherwise the entry point stays.
pub proof fn lemma_inserted_appends<M: Metric>(
    g: Graph,
    params: HnswParams,
    v: Seq<u32>,
    level: nat,
)
    ensures
        inserted::<M>(g, params, v, level).vecs == g.vecs.push(v),
        inserted::<M>(g, params, v, level).levels == g.levels.push(level as u8),
        g.entry is None || level > g.top ==> {
            &&& inserted::<M>(g, params, v, level).entry == Some(g.vecs.len() as NodeId)
            &&& inserted::<M>(g, params, v, level).top == level
        },
        g.entry is Some && level <= g.top ==> {
            &&& inserted::<M>(g, params, v, level).entry == g.entry
            &&& inserted::<M>(g, params, v, level).top == g.top
        },
{
    let node = g.vecs.len() as NodeId;
    let h = grown(g, v, level);
    if g.entry is Some {
        let start = descended::<M>(h.vecs, h.layers, v, g.top, level, seq![g.entry->0]);
        let count = if level < g.top {
            level + 1
        } else {
            g.top + 1
        };
        lemma_linked_keeps::<M>(h, params, node, count, start);
    }
}

/// The `k` nearest neighbours of `q` that a search with a beam of `ef` finds: greedy descent to
/// layer 0, a beam no narrower than `k` there, and the first `k` of what it returns.
pub open spec fn answer<M: Metric>(g: Graph, q: Seq<u32>, k: nat, ef: nat) -> Seq<Candidate> {
    match g.entry {
        None => Seq::empty(),
        Some(entry) => if k == 0 {
            Seq::empty()
        } else {
            let start = descended::<M>(g.vecs, g.layers, q, g.top, 0, seq![entry]);
            let found = found_by::<M>(
                q,
                g.vecs,
                g.layers[0],
                start,
                if ef < k {
                    k
                } else {
                    ef
                },
            );
            select::at_most(found, k as int)
        },
    }
}

/// What a search answers with, said of what the beam on layer 0 finds: its nearest `k` candidates,
/// in order, and all of them if there are fewer. Nothing that the beam scored is nearer than what is
/// left out of the answer, and there are as many candidates as were asked for or as can be reached
/// on layer 0 from where the descent ends.
pub proof fn lemma_answer_is_nearest<M: Metric>(
    g: Graph,
    q: Seq<u32>,
    k: nat,
    ef: nat,
    beam: nat,
)
    requires
        g.entry is Some,
        k >= 1,
        beam == if ef < k {
            k
        } else {
            ef
        },
        g.layers[0].dom().finite(),
        reachable(
            g.layers[0],
            descended::<M>(g.vecs, g.layers, q, g.top, 0, seq![g.entry->0]),
        ).subset_of(g.layers[0].dom()),
    ensures
        ({
            let r = answer::<M>(g, q, k, ef);
            let start = descended::<M>(g.vecs, g.layers, q, g.top, 0, seq![g.entry->0]);
            let found = found_by::<M>(q, g.vecs, g.layers[0], start, beam);
            let scored = search::finished::<M>(q, g.vecs, g.layers[0], start, beam).visited;
            let reached = reachable(g.layers[0], start).len();
            &&& r.len() == if k < reached {
                k
            } else {
                reached
            }
            &&& r.len() <= found.len()
            &&& forall|i: int| 0 <= i < r.len() ==> #[trigger] r[i] == found[i]
            &&& forall|i: int, j: int|
                0 <= i < j < r.len() ==> before(#[trigger] r[i], #[trigger] r[j])
            &&& forall|i: int| 0 <= i < r.len() ==> scored.contains((#[trigger] r[i]).id)
            &&& forall|n: NodeId, i: int|
                #![trigger scored.contains(n), r[i]]
                scored.contains(n) && 0 <= i < r.len() && !r.contains(score::<M>(q, g.vecs, n))
                    ==> r.len() == k && before(r[i], score::<M>(q, g.vecs, n))
            &&& forall|n: NodeId| #[trigger]
                scored.contains(n) ==> r.contains(score::<M>(q, g.vecs, n)) || (r.len() == k
                    && before(r.last(), score::<M>(q, g.vecs, n)))
            &&& forall|n: NodeId| #[trigger]
                scored.contains(n) && r.len() > 0 ==> r[0] == score::<M>(q, g.vecs, n) || before(
                    r[0],
                    score::<M>(q, g.vecs, n),
                )
        }),
{
    let r = answer::<M>(g, q, k, ef);
    let start = descended::<M>(g.vecs, g.layers, q, g.top, 0, seq![g.entry->0]);
    let found = found_by::<M>(q, g.vecs, g.layers[0], start, beam);
    let scored = search::finished::<M>(q, g.vecs, g.layers[0], start, beam).visited;
    search::lemma_found_exactly::<M>(q, g.vecs, g.layers[0], start, beam);
    search::lemma_nearest_of_scored::<M>(q, g.vecs, g.layers[0], start, beam);
    assert forall|i: int| 0 <= i < r.len() implies #[trigger] r[i] == found[i] by {}
    assert forall|n: NodeId, i: int|
        #![trigger scored.contains(n), r[i]]
        scored.contains(n) && 0 <= i < r.len() && !r.contains(
            score::<M>(q, g.vecs, n),
        ) implies r.len() == k && before(r[i], score::<M>(q, g.vecs, n)) by {
        let c = score::<M>(q, g.vecs, n);
        assert(r[i] == found[i]);
        if found.contains(c) {
            let at = found.index_of(c);
            if at < r.len() {
                assert(r[at] == c);
            }
            assert(before(found[i], found[at]));
        }
    }
    assert forall|n: NodeId| #[trigger] scored.contains(n) implies r.contains(
        score::<M>(q, g.vecs, n),
    ) || (r.len() == k && before(r.last(), score::<M>(q, g.vecs, n))) by {
        let c = score::<M>(q, g.vecs, n);
        if r.len() == 0 {
            assert(found.len() == 0);
            assert(reachable(g.layers[0], start).contains(n));
            assert(false);
        }
        let last = r[r.len() - 1];
        if found.contains(c) {
            let at = found.index_of(c);
            if at < r.len() {
                assert(r[at] == c);
            } else {
                assert(before(found[r.len() - 1], found[at]));
            }
        } else {
            assert(before(found[r.len() - 1], c));
        }
    }
    assert forall|n: NodeId| #[trigger]
        scored.contains(n) && r.len() > 0 implies r[0] == score::<M>(q, g.vecs, n) || before(
        r[0],
        score::<M>(q, g.vecs, n),
    ) by {
        let c = score::<M>(q, g.vecs, n);
        if r.contains(c) {
            let at = r.index_of(c);
            if at > 0 {
                assert(before(r[0], r[at]));
            }
        }
    }
}

/// Where there is nothing to find, or nothing is asked for, the answer is empty.
pub proof fn lemma_answer_is_empty<M: Metric>(g: Graph, q: Seq<u32>, k: nat, ef: nat)
    requires
        g.entry is None || k == 0,
    ensures
        answer::<M>(g, q, k, ef).len() == 0,
{
}

/// Descending in two stages is descending in one.
pub proof fn lemma_descended_in_stages<M: Metric>(
    vecs: Seq<Seq<u32>>,
    layers: Seq<Edges>,
    q: Seq<u32>,
    from: nat,
    mid: nat,
    stop: nat,
    entries: Seq<NodeId>,
)
    requires
        stop <= mid <= from,
    ensures
        descended::<M>(vecs, layers, q, from, from, entries) == entries,
        descended::<M>(vecs, layers, q, from, stop, entries) == descended::<M>(
            vecs,
            layers,
            q,
            mid,
            stop,
            descended::<M>(vecs, layers, q, from, mid, entries),
        ),
    decreases from,
{
    if mid < from {
        let found = found_by::<M>(q, vecs, layers[from as int], entries, 1);
        let next = if found.len() > 0 {
            seq![found[0].id]
        } else {
            entries
        };
        lemma_descended_in_stages::<M>(vecs, layers, q, (from - 1) as nat, mid, stop, next);
    }
}

/// Every layer between `stop` and `from` is one that a search can walk, with its nodes on the layer
/// below it too.
pub open spec fn descendable(layers: Seq<Edges>, from: nat, stop: nat) -> bool {
    &&& from < layers.len()
    &&& forall|l: int|
        stop < l <= from ==> (#[trigger] layers[l]).dom().finite() && closed_under(
            layers[l],
            layers[l].dom(),
        )
    &&& forall|l: int, n: NodeId|
        stop < l <= from && #[trigger] layers[l].contains_key(n) ==> layers[l - 1].contains_key(n)
}

/// A descent ends nearer to the query, or no further, than it started, in a node that no edge of
/// the last layer it walked leads nearer from.
pub proof fn lemma_descended_optimum<M: Metric>(
    vecs: Seq<Seq<u32>>,
    layers: Seq<Edges>,
    q: Seq<u32>,
    from: nat,
    stop: nat,
    entries: Seq<NodeId>,
)
    requires
        stop < from,
        descendable(layers, from, stop),
        entries.len() >= 1,
        forall|i: int| 0 <= i < entries.len() ==> layers[from as int].contains_key(
            #[trigger] entries[i],
        ),
    ensures
        ({
            let r = descended::<M>(vecs, layers, q, from, stop, entries);
            &&& r.len() == 1
            &&& layers[stop as int + 1].contains_key(r[0])
            &&& layers[stop as int].contains_key(r[0])
            &&& forall|i: int|
                0 <= i < entries.len() ==> !before(
                    score::<M>(q, vecs, #[trigger] entries[i]),
                    score::<M>(q, vecs, r[0]),
                )
            &&& forall|n: NodeId|
                layers[stop as int + 1][r[0]].contains(n) ==> !before(
                    #[trigger] score::<M>(q, vecs, n),
                    score::<M>(q, vecs, r[0]),
                )
        }),
    decreases from,
{
    let edges = layers[from as int];
    let found = found_by::<M>(q, vecs, edges, entries, 1);
    assert(entries.to_set().subset_of(edges.dom())) by {
        assert forall|n: NodeId| entries.to_set().contains(n) implies edges.dom().contains(n) by {
            let i = entries.index_of(n);
            assert(edges.contains_key(entries[i]));
        }
    }
    search::lemma_reachable(edges, entries, edges.dom());
    search::lemma_found::<M>(q, vecs, edges, entries, 1, edges.dom());
    search::lemma_local_optimum::<M>(q, vecs, edges, entries, 1);
    let best = found[0];
    let next = seq![best.id];
    assert(found.last() == best);
    assert(best == score::<M>(q, vecs, best.id));
    assert(edges.contains_key(best.id));
    assert(layers[from - 1].contains_key(best.id));
    assert forall|i: int| 0 <= i < entries.len() implies !before(
        score::<M>(q, vecs, #[trigger] entries[i]),
        best,
    ) by {
        let c = score::<M>(q, vecs, entries[i]);
        candidate::lemma_before_total(c, best);
        if found.contains(c) {
            assert(found[found.index_of(c)] == best);
        }
    }
    assert forall|n: NodeId| edges[best.id].contains(n) implies !before(
        #[trigger] score::<M>(q, vecs, n),
        best,
    ) by {
        let j = edges[best.id].index_of(n);
        let c = score::<M>(q, vecs, edges[found[0].id][j]);
        candidate::lemma_before_total(c, best);
        if found.contains(c) {
            assert(found[found.index_of(c)] == best);
        }
    }
    let r = descended::<M>(vecs, layers, q, from, stop, entries);
    if stop + 1 < from {
        lemma_descended_optimum::<M>(vecs, layers, q, (from - 1) as nat, stop, next);
        assert(!before(score::<M>(q, vecs, next[0]), score::<M>(q, vecs, r[0])));
        assert forall|i: int| 0 <= i < entries.len() implies !before(
            score::<M>(q, vecs, #[trigger] entries[i]),
            score::<M>(q, vecs, r[0]),
        ) by {
            let c = score::<M>(q, vecs, entries[i]);
            let end = score::<M>(q, vecs, r[0]);
            if before(c, end) {
                candidate::lemma_before_total(c, best);
                candidate::lemma_before_total(best, end);
                if c != best && end != best {
                    candidate::lemma_before_transitive(c, end, best);
                }
            }
        }
    } else {
        assert(descended::<M>(vecs, layers, q, stop, stop, next) == next);
        assert(r == next);
    }
}

/// `after` is `before` with `node` linked: it gets a selection of what a search from `starts` finds
/// as its list, each of these gets an edge back, and nobody else's list changes. Where a list has
/// no place left, it becomes a selection out of its nodes and the new one, measured from the node
/// that the list belongs to.
pub open spec fn links_in<M: Metric>(
    vecs: Seq<Seq<u32>>,
    before: Edges,
    after: Edges,
    node: NodeId,
    starts: Seq<NodeId>,
    params: HnswParams,
    cap: nat,
) -> bool {
    &&& after.dom() == before.dom()
    &&& exists|at: Seq<int>, d: int| #[trigger]
        selects::<M>(
            vecs,
            found_by::<M>(vecs[node as int], vecs, before, starts, params.width()),
            params.links(),
            params.policy(),
            after[node],
            at,
            d,
        )
    &&& forall|n: NodeId|
        n != node && !after[node].contains(n) ==> #[trigger] after[n] == before[n]
    &&& forall|n: NodeId|
        #![trigger after[n]]
        after[node].contains(n) && before[n].len() < cap ==> after[n] == before[n].push(node)
    &&& forall|n: NodeId|
        #![trigger after[n]]
        after[node].contains(n) && before[n].len() >= cap ==> exists|
            list: Seq<Candidate>,
            at: Seq<int>,
            d: int,
        |
            {
                &&& #[trigger] selects::<M>(vecs, list, cap, params.policy(), after[n], at, d)
                &&& ordered(list)
                &&& list.to_multiset() == before[n].push(node).map_values(
                    |id: NodeId| score::<M>(vecs[n as int], vecs, id),
                ).to_multiset()
            }
}

/// What connecting a list of neighbours does to each of them.
pub proof fn lemma_all_connected_lists<M: Metric>(
    vecs: Seq<Seq<u32>>,
    edges: Edges,
    ids: Seq<NodeId>,
    node: NodeId,
    cap: nat,
    params: HnswParams,
)
    requires
        ids.no_duplicates(),
    ensures
        forall|n: NodeId|
            !ids.contains(n) ==> #[trigger] all_connected::<M>(
                vecs,
                edges,
                ids,
                node,
                cap,
                params,
            )[n] == edges[n],
        forall|n: NodeId|
            #![trigger all_connected::<M>(vecs, edges, ids, node, cap, params)[n]]
            ids.contains(n) ==> all_connected::<M>(vecs, edges, ids, node, cap, params)[n]
                == if edges[n].len() < cap {
                edges[n].push(node)
            } else {
                reselected::<M>(vecs, edges, n, node, cap, params)
            },
    decreases ids.len(),
{
    if ids.len() > 0 {
        let rest = ids.drop_last();
        let s = ids.last();
        assert forall|i: int, j: int|
            0 <= i < rest.len() && 0 <= j < rest.len() && i != j implies rest[i] != rest[j] by {
            assert(ids[i] == rest[i] && ids[j] == rest[j]);
        }
        lemma_all_connected_lists::<M>(vecs, edges, rest, node, cap, params);
        let mid = all_connected::<M>(vecs, edges, rest, node, cap, params);
        let after = all_connected::<M>(vecs, edges, ids, node, cap, params);
        assert(ids[ids.len() - 1] == s);
        assert(!rest.contains(s)) by {
            if rest.contains(s) {
                let i = rest.index_of(s);
                assert(ids[i] == ids[ids.len() - 1]);
            }
        }
        assert(mid[s] == edges[s]);
        assert(reselected::<M>(vecs, mid, s, node, cap, params) == reselected::<M>(
            vecs,
            edges,
            s,
            node,
            cap,
            params,
        ));
        assert forall|n: NodeId| !ids.contains(n) implies #[trigger] after[n] == edges[n] by {
            if rest.contains(n) {
                let i = rest.index_of(n);
                assert(ids[i] == n);
            }
            assert(n != s);
            assert(mid[n] == edges[n]);
        }
        assert forall|n: NodeId|
            #![trigger after[n]]
            ids.contains(n) implies after[n] == if edges[n].len() < cap {
            edges[n].push(node)
        } else {
            reselected::<M>(vecs, edges, n, node, cap, params)
        } by {
            if n != s {
                let i = ids.index_of(n);
                assert(rest[i] == n);
                assert(mid[n] == after[n]);
            }
        }
    }
}

/// Linking on one layer links the node in, and leaves the other layers alone.
pub proof fn lemma_links_in<M: Metric>(
    g: Graph,
    params: HnswParams,
    node: NodeId,
    l: int,
    entries: Seq<NodeId>,
)
    requires
        params.wf(),
        l >= 0,
        waiting(g, params, node, (l + 1) as nat),
        entries_ok(g.layers[l], entries, node),
    ensures
        links_in::<M>(
            g.vecs,
            g.layers[l],
            linked_on::<M>(g, params, node, l, entries).layers[l],
            node,
            entries,
            params,
            params.cap(l),
        ),
{
    let edges = g.layers[l];
    let cap = params.cap(l);
    let found = near::<M>(g, params, node, l, entries);
    let chosen = picked::<M>(g, params, node, l, entries);
    lemma_linked_on::<M>(g, params, node, l, entries);
    lemma_picked::<M>(g, params, node, l, entries);
    candidate::lemma_ascending_is_ordered(found);
    candidate::lemma_in_order_stable(found);
    select::lemma_selection::<M>(g.vecs, found, params.links(), params.policy());
    let own = edges.insert(node, chosen);
    lemma_all_connected_lists::<M>(g.vecs, own, chosen, node, cap, params);
    let after = linked_on::<M>(g, params, node, l, entries).layers[l];
    assert(after[node] == chosen);
    assert forall|n: NodeId| n != node && !chosen.contains(n) implies #[trigger] after[n]
        == edges[n] by {
        assert(own[n] == edges[n]);
    }
    assert forall|n: NodeId|
        #![trigger after[n]]
        chosen.contains(n) && edges[n].len() < cap implies after[n] == edges[n].push(node) by {
        assert(own[n] == edges[n]);
    }
    assert forall|n: NodeId|
        #![trigger after[n]]
        chosen.contains(n) && edges[n].len() >= cap implies exists|
        list: Seq<Candidate>,
        at: Seq<int>,
        d: int,
    |
        {
            &&& #[trigger] selects::<M>(g.vecs, list, cap, params.policy(), after[n], at, d)
            &&& ordered(list)
            &&& list.to_multiset() == edges[n].push(node).map_values(
                |id: NodeId| score::<M>(g.vecs[n as int], g.vecs, id),
            ).to_multiset()
        } by {
        assert(own[n] == edges[n]);
        let all = measured::<M>(g.vecs, n, edges[n].push(node));
        let list = in_order(all);
        candidate::lemma_in_order(all);
        assert(all =~= edges[n].push(node).map_values(
            |id: NodeId| score::<M>(g.vecs[n as int], g.vecs, id),
        ));
        select::lemma_selection::<M>(g.vecs, list, cap, params.policy());
        let (at, d) = choose|at: Seq<int>, d: int| #[trigger]
            selects::<M>(
                g.vecs,
                list,
                cap,
                params.policy(),
                chosen_from::<M>(g.vecs, list, cap, params.policy()),
                at,
                d,
            );
        assert(selects::<M>(g.vecs, list, cap, params.policy(), after[n], at, d));
    }
}

/// Where linking starts on each of `count` layers: as given on the uppermost of them, and on every
/// other one with all that the search on the layer above it found.
pub open spec fn starts_in<M: Metric>(
    vecs: Seq<Seq<u32>>,
    layers: Seq<Edges>,
    node: NodeId,
    width: nat,
    count: nat,
    first: Seq<NodeId>,
    starts: Seq<Seq<NodeId>>,
) -> bool {
    &&& starts.len() == count
    &&& count >= 1 ==> starts[count - 1] == first
    &&& forall|l: int|
        0 <= l < count - 1 ==> #[trigger] starts[l] == found_by::<M>(
            vecs[node as int],
            vecs,
            layers[l + 1],
            starts[l + 1],
            width,
        ).map_values(|c: Candidate| c.id)
}

/// Linking on the layers from `count - 1` down links the node in on each of them, with what the
/// layer above found as the place to start, and leaves the layers above alone.
proof fn lemma_linked_layers<M: Metric>(
    g: Graph,
    params: HnswParams,
    node: NodeId,
    count: nat,
    entries: Seq<NodeId>,
) -> (starts: Seq<Seq<NodeId>>)
    requires
        params.wf(),
        waiting(g, params, node, count),
        count >= 1 ==> entries_ok(g.layers[count - 1], entries, node),
    ensures
        starts_in::<M>(g.vecs, g.layers, node, params.width(), count, entries, starts),
        linked::<M>(g, params, node, count, entries).layers.len() == g.layers.len(),
        forall|l: int|
            0 <= l < count ==> links_in::<M>(
                g.vecs,
                g.layers[l],
                #[trigger] linked::<M>(g, params, node, count, entries).layers[l],
                node,
                starts[l],
                params,
                params.cap(l),
            ),
        forall|l: int|
            count <= l < g.layers.len() ==> #[trigger] linked::<M>(
                g,
                params,
                node,
                count,
                entries,
            ).layers[l] == g.layers[l],
    decreases count,
{
    if count == 0 {
        Seq::empty()
    } else {
        let l = count - 1;
        let next = linked_on::<M>(g, params, node, l, entries);
        let found = near::<M>(g, params, node, l, entries);
        lemma_linked_on::<M>(g, params, node, l, entries);
        lemma_links_in::<M>(g, params, node, l, entries);
        let below = next_entries(found, node);
        assert(below =~= found.map_values(|c: Candidate| c.id));
        if l >= 1 {
            assert(entries_ok(next.layers[l - 1], below, node)) by {
                assert forall|i: int| 0 <= i < below.len() implies next.layers[l - 1].contains_key(
                    #[trigger] below[i],
                ) && below[i] != node by {
                    assert(ids_of(found)[i] == below[i]);
                    assert(g.layers[l].contains_key(below[i]));
                    assert(g.layers[l - 1].contains_key(below[i]));
                    assert(next.layers[l - 1] == g.layers[l - 1]);
                }
            }
        }
        let rest = lemma_linked_layers::<M>(next, params, node, l as nat, below);
        let starts = rest.push(entries);
        let done = linked::<M>(g, params, node, count, entries);
        assert(done == linked::<M>(next, params, node, l as nat, below));
        assert forall|k: int| 0 <= k < count - 1 implies #[trigger] starts[k] == found_by::<M>(
            g.vecs[node as int],
            g.vecs,
            g.layers[k + 1],
            starts[k + 1],
            params.width(),
        ).map_values(|c: Candidate| c.id) by {
            assert(starts[k] == rest[k]);
            if k < l - 1 {
                assert(starts[k + 1] == rest[k + 1]);
                assert(next.layers[k + 1] == g.layers[k + 1]);
            } else {
                assert(rest[k] == below);
                assert(starts[k + 1] == entries);
            }
        }
        assert forall|k: int| 0 <= k < count implies links_in::<M>(
            g.vecs,
            g.layers[k],
            #[trigger] done.layers[k],
            node,
            starts[k],
            params,
            params.cap(k),
        ) by {
            if k < l {
                assert(next.layers[k] == g.layers[k]);
                assert(starts[k] == rest[k]);
            } else {
                assert(done.layers[l] == next.layers[l]);
            }
        }
        assert forall|k: int| count <= k < g.layers.len() implies #[trigger] done.layers[k]
            == g.layers[k] by {
            assert(next.layers[k] == g.layers[k]);
        }
        starts
    }
}

/// What an insert does to every layer. On the layers above the new node's level nothing changes.
/// On those that are new, and on all of them if it is the first, the node stands alone. On all
/// others it is linked in: on the uppermost of them from where the greedy descent ends, and on each
/// layer below from all that was found on the one above. Lists hold up
/// to the base cap on layer 0, and up to the number of links on every other layer.
pub proof fn lemma_inserted_layers<M: Metric>(
    g: Graph,
    params: HnswParams,
    v: Seq<u32>,
    level: nat,
) -> (starts: Seq<Seq<NodeId>>)
    requires
        params.wf(),
        framed(g, params),
        g.vecs.len() < u32::MAX,
        level <= 255,
    ensures
        ({
            let r = inserted::<M>(g, params, v, level);
            let node = g.vecs.len() as NodeId;
            let vecs = g.vecs.push(v);
            let alone = |l: int| (if l < g.layers.len() {
                g.layers[l]
            } else {
                Map::empty()
            }).insert(node, Seq::empty());
            let count = if g.entry is None {
                0
            } else if level < g.top {
                level + 1
            } else {
                g.top + 1
            };
            &&& r.layers.len() == if g.layers.len() <= level {
                level + 1
            } else {
                g.layers.len()
            }
            &&& forall|l: int|
                level < l < g.layers.len() ==> #[trigger] r.layers[l] == g.layers[l]
            &&& forall|l: int| count <= l <= level ==> #[trigger] r.layers[l] == alone(l)
            &&& g.entry is Some ==> starts_in::<M>(
                vecs,
                Seq::new(count, |l: int| alone(l)),
                node,
                params.width(),
                count,
                descended::<M>(vecs, grown(g, v, level).layers, v, g.top, level, seq![g.entry->0]),
                starts,
            )
            &&& forall|l: int|
                0 <= l < count ==> links_in::<M>(
                    vecs,
                    alone(l),
                    #[trigger] r.layers[l],
                    node,
                    starts[l],
                    params,
                    if l == 0 {
                        params.base_cap()
                    } else {
                        params.links()
                    },
                )
        }),
{
    let r = inserted::<M>(g, params, v, level);
    let node = g.vecs.len() as NodeId;
    let vecs = g.vecs.push(v);
    let h = grown(g, v, level);
    let alone = |l: int| (if l < g.layers.len() {
        g.layers[l]
    } else {
        Map::empty()
    }).insert(node, Seq::empty());
    lemma_grown(g, params, v, level);
    assert forall|l: int| 0 <= l <= level implies #[trigger] h.layers[l] == alone(l) by {}
    assert forall|l: int| level < l < g.layers.len() implies #[trigger] h.layers[l]
        == g.layers[l] by {}
    match g.entry {
        None => Seq::empty(),
        Some(entry) => {
            let count = if level < g.top {
                level + 1
            } else {
                g.top + 1
            };
            lemma_start::<M>(g, params, v, level);
            let start = descended::<M>(h.vecs, h.layers, v, g.top, level, seq![entry]);
            let starts = lemma_linked_layers::<M>(h, params, node, count, start);
            let done = linked::<M>(h, params, node, count, start);
            assert(r.layers == done.layers);
            let below = Seq::new(count, |l: int| alone(l));
            assert forall|l: int| 0 <= l < count - 1 implies #[trigger] starts[l] == found_by::<M>(
                vecs[node as int],
                vecs,
                below[l + 1],
                starts[l + 1],
                params.width(),
            ).map_values(|c: Candidate| c.id) by {
                assert(below[l + 1] == h.layers[l + 1]);
            }
            starts
        },
    }
}

/// A neighbour list of `node`: no longer than `cap`, nobody twice, not the node itself, only
/// nodes that are on the layer.
pub open spec fn list_ok(edges: Edges, node: NodeId, cap: nat) -> bool {
    let list = edges[node];
    &&& list.len() <= cap
    &&& list.no_duplicates()
    &&& !list.contains(node)
    &&& forall|i: int| 0 <= i < list.len() ==> edges.contains_key(#[trigger] list[i])
}

pub open spec fn lists_ok(edges: Edges, cap: nat) -> bool {
    forall|node: NodeId| #[trigger] edges.contains_key(node) ==> list_ok(edges, node, cap)
}

/// A neighbour list is shorter than there are nodes.
pub proof fn lemma_list_is_short(edges: Edges, node: NodeId, cap: nat, size: nat)
    requires
        list_ok(edges, node, cap),
        edges.contains_key(node),
        forall|n: NodeId| #[trigger] edges.contains_key(n) ==> n < size,
    ensures
        edges[node].len() < size,
{
    let list = edges[node].push(node);
    let ids = list.map_values(|n: NodeId| n as int);
    assert(ids.no_duplicates()) by {
        assert forall|i: int, j: int| 0 <= i < j < ids.len() implies ids[i] != ids[j] by {
            assert(edges[node].contains(edges[node][i]));
            assert(list[i] != list[j]);
        }
    }
    ids.unique_seq_to_set();
    let below = vstd::set_lib::set_int_range(0, size as int);
    vstd::set_lib::lemma_int_range(0, size as int);
    assert(ids.to_set().subset_of(below)) by {
        assert forall|x: int| ids.to_set().contains(x) implies below.contains(x) by {
            let i = ids.index_of(x);
            if i < edges[node].len() {
                assert(edges.contains_key(edges[node][i]));
            }
        }
    }
    vstd::set_lib::lemma_len_subset(ids.to_set(), below);
}

/// Every node is on exactly the layers up to its level.
pub open spec fn stacked(g: Graph) -> bool {
    &&& g.levels.len() == g.vecs.len()
    &&& g.vecs.len() <= u32::MAX
    &&& forall|n: int| 0 <= n < g.levels.len() ==> (#[trigger] g.levels[n]) < g.layers.len()
    &&& forall|l: int, node: NodeId|
        0 <= l < g.layers.len() ==> (#[trigger] g.layers[l].contains_key(node) <==> node
            < g.vecs.len() && l <= g.levels[node as int])
}

/// The list of every node on every layer is a neighbour list.
pub open spec fn wired(g: Graph, params: HnswParams) -> bool {
    forall|l: int| 0 <= l < g.layers.len() ==> lists_ok(#[trigger] g.layers[l], params.cap(l))
}

/// What linking a new node takes: lists without a loose end, every node on the layers up to its
/// level, and an entry point on the top layer.
pub open spec fn framed(g: Graph, params: HnswParams) -> bool {
    &&& stacked(g)
    &&& wired(g, params)
    &&& g.layers.len() == g.top + 1
    &&& g.vecs.len() == 0 ==> g.entry is None && g.top == 0
    &&& g.vecs.len() > 0 ==> match g.entry {
        None => false,
        Some(entry) => entry < g.vecs.len() && g.levels[entry as int] == g.top,
    }
}

/// Everything that the algorithm guarantees of a graph: it also leaves nobody isolated on layer 0.
pub open spec fn sound(g: Graph, params: HnswParams) -> bool {
    &&& framed(g, params)
    &&& g.vecs.len() > 1 ==> forall|node: NodeId| #[trigger]
        g.layers[0].contains_key(node) ==> g.layers[0][node].len() > 0
}

/// No list of the layer names `node`.
pub open spec fn unnamed(edges: Edges, node: NodeId) -> bool {
    forall|n: NodeId| #[trigger] edges.contains_key(n) ==> !edges[n].contains(node)
}

/// What holds of an entry list for a layer: nodes on it other than the new one.
pub open spec fn entries_ok(edges: Edges, entries: Seq<NodeId>, node: NodeId) -> bool {
    &&& entries.len() >= 1
    &&& forall|i: int|
        0 <= i < entries.len() ==> edges.contains_key(#[trigger] entries[i]) && entries[i] != node
}

/// A search from good entries, on a layer that does not name `node`, finds at least one node, all
/// of them on the layer and none of them `node`.
pub proof fn lemma_found_elsewhere<M: Metric>(
    q: Seq<u32>,
    vecs: Seq<Seq<u32>>,
    edges: Edges,
    entries: Seq<NodeId>,
    ef: nat,
    node: NodeId,
    cap: nat,
)
    requires
        ef >= 1,
        lists_ok(edges, cap),
        unnamed(edges, node),
        entries_ok(edges, entries, node),
    ensures
        found_by::<M>(q, vecs, edges, entries, ef).len() >= 1,
        ascending(found_by::<M>(q, vecs, edges, entries, ef)),
        entries_ok(edges, ids_of(found_by::<M>(q, vecs, edges, entries, ef)), node),
        ids_of(found_by::<M>(q, vecs, edges, entries, ef)).no_duplicates(),
{
    let within = edges.dom().remove(node);
    let found = found_by::<M>(q, vecs, edges, entries, ef);
    assert(closed_under(edges, within)) by {
        assert forall|n: NodeId, i: int|
            within.contains(n) && edges.contains_key(n) && 0 <= i < edges[n].len() implies within.contains(
            #[trigger] edges[n][i],
        ) by {
            assert(list_ok(edges, n, cap));
            assert(edges[n].contains(edges[n][i]));
        }
    }
    assert(entries.to_set().subset_of(within)) by {
        assert forall|e: NodeId| entries.to_set().contains(e) implies within.contains(e) by {
            let i = entries.index_of(e);
            assert(entries[i] == e);
        }
    }
    search::lemma_found::<M>(q, vecs, edges, entries, ef, within);
    search::lemma_found_distinct::<M>(q, vecs, found);
    assert forall|i: int| 0 <= i < found.len() implies edges.contains_key(
        #[trigger] ids_of(found)[i],
    ) && ids_of(found)[i] != node by {
        assert(within.contains(found[i].id));
    }
    assert forall|i: int, j: int|
        0 <= i < ids_of(found).len() && 0 <= j < ids_of(found).len() && i != j implies ids_of(
        found,
    )[i] != ids_of(found)[j] by {
        if i < j {
            assert(found[i].id != found[j].id);
        } else {
            assert(found[j].id != found[i].id);
        }
    }
}

/// Descent ends in good entries for every layer that it stops above.
pub proof fn lemma_descended<M: Metric>(
    g: Graph,
    params: HnswParams,
    q: Seq<u32>,
    from: nat,
    stop: nat,
    entries: Seq<NodeId>,
    node: NodeId,
)
    requires
        stacked(g),
        wired(g, params),
        from < g.layers.len(),
        forall|l: int| 0 <= l < g.layers.len() ==> unnamed(#[trigger] g.layers[l], node),
        entries_ok(g.layers[from as int], entries, node),
    ensures
        entries_ok(
            g.layers[if from <= stop {
                from as int
            } else {
                stop as int
            }],
            descended::<M>(g.vecs, g.layers, q, from, stop, entries),
            node,
        ),
    decreases from,
{
    if from > stop {
        let edges = g.layers[from as int];
        let found = found_by::<M>(q, g.vecs, edges, entries, 1);
        lemma_found_elsewhere::<M>(q, g.vecs, edges, entries, 1, node, params.cap(from as int));
        let next = seq![found[0].id];
        assert(ids_of(found)[0] == found[0].id);
        assert(g.layers[from - 1].contains_key(found[0].id)) by {
            assert(edges.contains_key(found[0].id));
        }
        assert(entries_ok(g.layers[from - 1], next, node));
        lemma_descended::<M>(g, params, q, (from - 1) as nat, stop, next, node);
    }
}

/// The list that selecting anew leaves a saturated node is a neighbour list, and not empty.
pub proof fn lemma_reselected<M: Metric>(
    vecs: Seq<Seq<u32>>,
    edges: Edges,
    s: NodeId,
    extra: NodeId,
    cap: nat,
    params: HnswParams,
)
    requires
        cap >= 1,
        list_ok(edges, s, cap),
        edges.contains_key(extra),
        extra != s,
        !edges[s].contains(extra),
    ensures
        reselected::<M>(vecs, edges, s, extra, cap, params).len() <= cap,
        reselected::<M>(vecs, edges, s, extra, cap, params).len() >= 1,
        reselected::<M>(vecs, edges, s, extra, cap, params).no_duplicates(),
        forall|id: NodeId| #[trigger]
            reselected::<M>(vecs, edges, s, extra, cap, params).contains(id) ==> edges[s].contains(
                id,
            ) || id == extra,
{
    let ids = edges[s].push(extra);
    let cands = measured::<M>(vecs, s, ids);
    let sorted = in_order(cands);
    candidate::lemma_in_order(cands);
    select::lemma_chosen::<M>(vecs, sorted, cap, params.policy());
    assert(ids.no_duplicates()) by {
        assert forall|i: int, j: int|
            0 <= i < ids.len() && 0 <= j < ids.len() && i != j implies ids[i] != ids[j] by {
            if i == edges[s].len() {
                assert(edges[s].contains(ids[j]));
            } else if j == edges[s].len() {
                assert(edges[s].contains(ids[i]));
            }
        }
    }
    assert(cands.no_duplicates()) by {
        assert forall|i: int, j: int|
            0 <= i < cands.len() && 0 <= j < cands.len() && i != j implies cands[i] != cands[j] by {
            assert(cands[i].id == ids[i] && cands[j].id == ids[j]);
        }
    }
    assert(sorted.no_duplicates()) by {
        cands.lemma_multiset_has_no_duplicates();
        sorted.lemma_multiset_has_no_duplicates_conv();
    }
    assert forall|i: int| 0 <= i < sorted.len() implies (#[trigger] sorted[i]) == score::<M>(
        vecs[s as int],
        vecs,
        sorted[i].id,
    ) && ids.contains(sorted[i].id) by {
        assert(sorted.contains(sorted[i]));
        assert(cands.contains(sorted[i]));
        let j = cands.index_of(sorted[i]);
        assert(cands[j].id == ids[j]);
    }
    assert(ids_of(sorted).no_duplicates()) by {
        assert forall|i: int, j: int|
            0 <= i < sorted.len() && 0 <= j < sorted.len() && i != j implies ids_of(sorted)[i]
            != ids_of(sorted)[j] by {
            if sorted[i].id == sorted[j].id {
                assert(sorted[i] == sorted[j]);
            }
        }
    }
    let r = reselected::<M>(vecs, edges, s, extra, cap, params);
    assert forall|id: NodeId| #[trigger] r.contains(id) implies edges[s].contains(id) || id
        == extra by {
        assert(ids_of(sorted).contains(id));
        let i = ids_of(sorted).index_of(id);
        assert(ids.contains(sorted[i].id));
        let j = ids.index_of(id);
        if j < edges[s].len() {
            assert(edges[s][j] == id);
        }
    }
}

/// Connecting one neighbour back to `node` keeps every list a neighbour list, touches only that
/// neighbour's, and leaves it with at least one entry.
pub proof fn lemma_connected<M: Metric>(
    vecs: Seq<Seq<u32>>,
    edges: Edges,
    s: NodeId,
    node: NodeId,
    cap: nat,
    params: HnswParams,
)
    requires
        cap >= 1,
        lists_ok(edges, cap),
        edges.contains_key(s),
        edges.contains_key(node),
        s != node,
        !edges[s].contains(node),
    ensures
        lists_ok(connected::<M>(vecs, edges, s, node, cap, params), cap),
        connected::<M>(vecs, edges, s, node, cap, params).dom() == edges.dom(),
        connected::<M>(vecs, edges, s, node, cap, params)[s].len() >= 1,
        forall|n: NodeId|
            n != s ==> #[trigger] connected::<M>(vecs, edges, s, node, cap, params)[n] == edges[n],
{
    let after = connected::<M>(vecs, edges, s, node, cap, params);
    assert(list_ok(edges, s, cap));
    assert(after.dom() =~= edges.dom());
    let list = after[s];
    if edges[s].len() < cap {
        assert forall|i: int, j: int|
            0 <= i < list.len() && 0 <= j < list.len() && i != j implies list[i] != list[j] by {
            if i == edges[s].len() {
                assert(edges[s].contains(list[j]));
            } else if j == edges[s].len() {
                assert(edges[s].contains(list[i]));
            }
        }
        assert(!list.contains(s)) by {
            if list.contains(s) {
                let i = list.index_of(s);
                assert(edges[s].contains(edges[s][i]));
            }
        }
    } else {
        lemma_reselected::<M>(vecs, edges, s, node, cap, params);
        assert forall|i: int| 0 <= i < list.len() implies after.contains_key(#[trigger] list[i]) by {
            assert(list.contains(list[i]));
            if edges[s].contains(list[i]) {
                let j = edges[s].index_of(list[i]);
                assert(edges.contains_key(edges[s][j]));
            }
        }
    }
    assert forall|n: NodeId| #[trigger] after.contains_key(n) implies list_ok(after, n, cap) by {
        assert(edges.contains_key(n));
        assert(list_ok(edges, n, cap));
        if n != s {
            assert(after[n] == edges[n]);
            assert forall|i: int| 0 <= i < after[n].len() implies after.contains_key(
                #[trigger] after[n][i],
            ) by {
                assert(edges.contains_key(edges[n][i]));
            }
        }
    }
}

/// The same for a list of neighbours, none of which names `node` yet.
pub proof fn lemma_all_connected<M: Metric>(
    vecs: Seq<Seq<u32>>,
    edges: Edges,
    ids: Seq<NodeId>,
    node: NodeId,
    cap: nat,
    params: HnswParams,
)
    requires
        cap >= 1,
        lists_ok(edges, cap),
        edges.contains_key(node),
        ids.no_duplicates(),
        forall|i: int|
            0 <= i < ids.len() ==> edges.contains_key(#[trigger] ids[i]) && ids[i] != node
                && !edges[ids[i]].contains(node),
    ensures
        lists_ok(all_connected::<M>(vecs, edges, ids, node, cap, params), cap),
        all_connected::<M>(vecs, edges, ids, node, cap, params).dom() == edges.dom(),
        forall|n: NodeId|
            !ids.contains(n) ==> #[trigger] all_connected::<M>(
                vecs,
                edges,
                ids,
                node,
                cap,
                params,
            )[n] == edges[n],
        forall|n: NodeId|
            ids.contains(n) ==> (#[trigger] all_connected::<M>(
                vecs,
                edges,
                ids,
                node,
                cap,
                params,
            )[n]).len() >= 1,
    decreases ids.len(),
{
    if ids.len() > 0 {
        let rest = ids.drop_last();
        let s = ids.last();
        assert forall|i: int, j: int|
            0 <= i < rest.len() && 0 <= j < rest.len() && i != j implies rest[i] != rest[j] by {
            assert(ids[i] == rest[i] && ids[j] == rest[j]);
        }
        assert forall|i: int| 0 <= i < rest.len() implies edges.contains_key(#[trigger] rest[i])
            && rest[i] != node && !edges[rest[i]].contains(node) by {
            assert(ids[i] == rest[i]);
        }
        lemma_all_connected::<M>(vecs, edges, rest, node, cap, params);
        let mid = all_connected::<M>(vecs, edges, rest, node, cap, params);
        assert(ids[ids.len() - 1] == s);
        assert(!rest.contains(s)) by {
            if rest.contains(s) {
                let i = rest.index_of(s);
                assert(ids[i] == ids[ids.len() - 1]);
            }
        }
        assert(mid[s] == edges[s]);
        assert(mid.dom().contains(s) && mid.dom().contains(node));
        lemma_connected::<M>(vecs, mid, s, node, cap, params);
        let after = all_connected::<M>(vecs, edges, ids, node, cap, params);
        assert forall|n: NodeId| !ids.contains(n) implies #[trigger] after[n] == edges[n] by {
            if rest.contains(n) {
                let i = rest.index_of(n);
                assert(ids[i] == n);
            }
            if n == s {
                assert(ids.contains(n));
            }
            assert(mid[n] == edges[n]);
        }
        assert forall|n: NodeId| ids.contains(n) implies (#[trigger] after[n]).len() >= 1 by {
            if n != s {
                let i = ids.index_of(n);
                assert(rest[i] == n);
                assert(mid[n].len() >= 1);
            }
        }
    }
}

/// The node being inserted, on the layers where it still has to be linked.
pub open spec fn waiting(g: Graph, params: HnswParams, node: NodeId, count: nat) -> bool {
    &&& stacked(g)
    &&& wired(g, params)
    &&& node < g.vecs.len()
    &&& count <= g.layers.len()
    &&& count <= g.levels[node as int] + 1
    &&& forall|l: int| 0 <= l < count ==> unnamed(#[trigger] g.layers[l], node)
    &&& forall|l: int| 0 <= l < count ==> (#[trigger] g.layers[l])[node] == Seq::<NodeId>::empty()
}

/// The neighbours picked for a new node are on the layer, none twice, and do not name it yet; with
/// them as its list, every list of the layer is a neighbour list.
pub proof fn lemma_picked<M: Metric>(
    g: Graph,
    params: HnswParams,
    node: NodeId,
    l: int,
    entries: Seq<NodeId>,
)
    requires
        params.wf(),
        l >= 0,
        waiting(g, params, node, (l + 1) as nat),
        entries_ok(g.layers[l], entries, node),
    ensures
        params.cap(l) >= 1,
        g.layers[l].contains_key(node),
        near::<M>(g, params, node, l, entries).len() >= 1,
        ascending(near::<M>(g, params, node, l, entries)),
        entries_ok(g.layers[l], ids_of(near::<M>(g, params, node, l, entries)), node),
        picked::<M>(g, params, node, l, entries).len() >= 1,
        picked::<M>(g, params, node, l, entries).len() <= params.cap(l),
        picked::<M>(g, params, node, l, entries).no_duplicates(),
        !picked::<M>(g, params, node, l, entries).contains(node),
        forall|k: int|
            0 <= k < picked::<M>(g, params, node, l, entries).len() ==> g.layers[l].contains_key(
                #[trigger] picked::<M>(g, params, node, l, entries)[k],
            ) && picked::<M>(g, params, node, l, entries)[k] != node
                && !g.layers[l][picked::<M>(g, params, node, l, entries)[k]].contains(node),
        lists_ok(
            g.layers[l].insert(node, picked::<M>(g, params, node, l, entries)),
            params.cap(l),
        ),
{
    let edges = g.layers[l];
    let cap = params.cap(l);
    let found = near::<M>(g, params, node, l, entries);
    let chosen = picked::<M>(g, params, node, l, entries);
    assert(lists_ok(edges, cap));
    assert(unnamed(edges, node));
    lemma_found_elsewhere::<M>(
        g.vecs[node as int],
        g.vecs,
        edges,
        entries,
        params.width(),
        node,
        cap,
    );
    candidate::lemma_ascending_is_ordered(found);
    candidate::lemma_in_order_stable(found);
    select::lemma_chosen::<M>(g.vecs, found, params.links(), params.policy());
    assert forall|i: int| 0 <= i < chosen.len() implies edges.contains_key(#[trigger] chosen[i])
        && chosen[i] != node && !edges[chosen[i]].contains(node) by {
        assert(chosen.contains(chosen[i]));
        let j = ids_of(found).index_of(chosen[i]);
        assert(ids_of(found)[j] == chosen[i]);
    }
    assert(!chosen.contains(node)) by {
        if chosen.contains(node) {
            let i = chosen.index_of(node);
            assert(chosen[i] != node);
        }
    }
    assert(edges.contains_key(node));
    let own = edges.insert(node, chosen);
    assert forall|n: NodeId| #[trigger] own.contains_key(n) implies list_ok(own, n, cap) by {
        assert(edges.contains_key(n));
        assert(list_ok(edges, n, cap));
        if n != node {
            assert forall|i: int| 0 <= i < own[n].len() implies own.contains_key(
                #[trigger] own[n][i],
            ) by {
                assert(edges.contains_key(edges[n][i]));
            }
        }
    }
}

/// Linking on one layer: what it keeps, and what it brings about.
pub proof fn lemma_linked_on<M: Metric>(
    g: Graph,
    params: HnswParams,
    node: NodeId,
    l: int,
    entries: Seq<NodeId>,
)
    requires
        params.wf(),
        waiting(g, params, node, (l + 1) as nat),
        l >= 0,
        entries_ok(g.layers[l], entries, node),
    ensures
        waiting(linked_on::<M>(g, params, node, l, entries), params, node, l as nat),
        linked_on::<M>(g, params, node, l, entries).layers[l].dom() == g.layers[l].dom(),
        linked_on::<M>(g, params, node, l, entries).layers.len() == g.layers.len(),
        forall|k: int|
            0 <= k < g.layers.len() && k != l ==> #[trigger] linked_on::<M>(
                g,
                params,
                node,
                l,
                entries,
            ).layers[k] == g.layers[k],
        linked_on::<M>(g, params, node, l, entries).layers[l][node].len() >= 1,
        forall|n: NodeId|
            g.layers[l].contains_key(n) && g.layers[l][n].len() >= 1 ==> (#[trigger] linked_on::<
                M,
            >(g, params, node, l, entries).layers[l][n]).len() >= 1,
        forall|n: NodeId| #[trigger]
            picked::<M>(g, params, node, l, entries).contains(n) ==> linked_on::<M>(
                g,
                params,
                node,
                l,
                entries,
            ).layers[l][n].len() >= 1 && n != node && g.layers[l].contains_key(n),
        picked::<M>(g, params, node, l, entries).len() >= 1,
        near::<M>(g, params, node, l, entries).len() >= 1,
        ascending(near::<M>(g, params, node, l, entries)),
        entries_ok(g.layers[l], ids_of(near::<M>(g, params, node, l, entries)), node),
        picked::<M>(g, params, node, l, entries).len() <= params.cap(l),
{
    let edges = g.layers[l];
    let cap = params.cap(l);
    let found = near::<M>(g, params, node, l, entries);
    let chosen = picked::<M>(g, params, node, l, entries);
    let after = linked_on::<M>(g, params, node, l, entries);
    lemma_picked::<M>(g, params, node, l, entries);
    let own = edges.insert(node, chosen);
    assert(own.dom() =~= edges.dom());
    assert forall|i: int| 0 <= i < chosen.len() implies own.contains_key(#[trigger] chosen[i])
        && chosen[i] != node && !own[chosen[i]].contains(node) by {
        assert(edges.contains_key(chosen[i]));
    }
    lemma_all_connected::<M>(g.vecs, own, chosen, node, cap, params);
    let wide = all_connected::<M>(g.vecs, own, chosen, node, cap, params);
    assert(after.layers[l] == wide);
    assert(wide[node] == chosen);
    assert(wide.dom() == edges.dom());
    assert forall|k: int, n: NodeId| 0 <= k < after.layers.len() implies (
    #[trigger] after.layers[k].contains_key(n) <==> n < after.vecs.len() && k
        <= after.levels[n as int]) by {
        assert(g.layers[k].contains_key(n) <==> n < g.vecs.len() && k <= g.levels[n as int]);
        if k == l {
            assert(wide.dom().contains(n) == edges.dom().contains(n));
        }
    }
    assert(stacked(after));
    assert forall|k: int| 0 <= k < after.layers.len() implies lists_ok(
        #[trigger] after.layers[k],
        params.cap(k),
    ) by {
        assert(lists_ok(g.layers[k], params.cap(k)));
    }
    assert forall|k: int| 0 <= k < l implies unnamed(#[trigger] after.layers[k], node) by {
        assert(after.layers[k] == g.layers[k]);
        assert(unnamed(g.layers[k], node));
    }
    assert forall|k: int| 0 <= k < l implies (#[trigger] after.layers[k])[node] == Seq::<
        NodeId,
    >::empty() by {
        assert(after.layers[k] == g.layers[k]);
    }
    assert forall|n: NodeId|
        g.layers[l].contains_key(n) && g.layers[l][n].len() >= 1 implies (
    #[trigger] after.layers[l][n]).len() >= 1 by {
        if !chosen.contains(n) {
            assert(wide[n] == own[n]);
        }
    }
    assert forall|n: NodeId| #[trigger] chosen.contains(n) implies after.layers[l][n].len() >= 1
        && n != node && g.layers[l].contains_key(n) by {
        let i = chosen.index_of(n);
        assert(edges.contains_key(chosen[i]));
        assert(wide[n].len() >= 1);
    }
}

/// Linking on all the layers that are left.
pub proof fn lemma_linked<M: Metric>(
    g: Graph,
    params: HnswParams,
    node: NodeId,
    count: nat,
    entries: Seq<NodeId>,
)
    requires
        params.wf(),
        waiting(g, params, node, count),
        count >= 1 ==> entries_ok(g.layers[count - 1], entries, node),
    ensures
        waiting(linked::<M>(g, params, node, count, entries), params, node, 0),
        linked::<M>(g, params, node, count, entries).vecs == g.vecs,
        linked::<M>(g, params, node, count, entries).levels == g.levels,
        linked::<M>(g, params, node, count, entries).entry == g.entry,
        linked::<M>(g, params, node, count, entries).top == g.top,
        linked::<M>(g, params, node, count, entries).layers.len() == g.layers.len(),
        count >= 1 ==> linked::<M>(g, params, node, count, entries).layers[0][node].len() >= 1,
        forall|n: NodeId|
            g.layers[0].contains_key(n) && g.layers[0][n].len() >= 1 ==> (#[trigger] linked::<M>(
                g,
                params,
                node,
                count,
                entries,
            ).layers[0][n]).len() >= 1,
        count >= 1 && g.vecs.len() == 2 && node == 1 ==> linked::<M>(
            g,
            params,
            node,
            count,
            entries,
        ).layers[0][0u32].len() >= 1,
    decreases count,
{
    if count > 0 {
        let l = count - 1;
        let next = linked_on::<M>(g, params, node, l, entries);
        let found = near::<M>(g, params, node, l, entries);
        lemma_linked_on::<M>(g, params, node, l, entries);
        let below = next_entries(found, node);
        if l >= 1 {
            assert(entries_ok(next.layers[l - 1], below, node)) by {
                assert forall|i: int| 0 <= i < below.len() implies next.layers[l - 1].contains_key(
                    #[trigger] below[i],
                ) && below[i] != node by {
                    assert(g.layers[l].contains_key(below[i]));
                    assert(g.layers[l - 1].contains_key(below[i]));
                    assert(next.layers[l - 1] == g.layers[l - 1]);
                }
            }
        }
        lemma_linked::<M>(next, params, node, l as nat, below);
        let done = linked::<M>(g, params, node, count, entries);
        if l == 0 {
            if g.vecs.len() == 2 && node == 1 {
                let chosen = picked::<M>(g, params, node, l, entries);
                assert(chosen.contains(chosen[0]));
                assert(g.layers[0].contains_key(chosen[0]));
                assert(chosen[0] == 0);
            }
        } else {
            assert(next.layers[0] == g.layers[0]);
        }
    }
}

/// Adding an unlinked node to a sound graph leaves it waiting to be linked.
pub proof fn lemma_grown(g: Graph, params: HnswParams, v: Seq<u32>, level: nat)
    requires
        framed(g, params),
        g.vecs.len() < u32::MAX,
        level <= 255,
    ensures
        waiting(grown(g, v, level), params, g.vecs.len() as NodeId, level + 1),
        grown(g, v, level).levels.last() == level,
        forall|l: int|
            0 <= l < grown(g, v, level).layers.len() ==> unnamed(
                #[trigger] grown(g, v, level).layers[l],
                g.vecs.len() as NodeId,
            ),
        forall|l: int, n: NodeId|
            0 <= l < g.layers.len() && g.layers[l].contains_key(n) ==> #[trigger] grown(
                g,
                v,
                level,
            ).layers[l][n] == g.layers[l][n],
        grown(g, v, level).layers.len() >= g.layers.len(),
        grown(g, v, level).layers.len() > level,
{
    let node = g.vecs.len() as NodeId;
    let h = grown(g, v, level);
    assert forall|l: int, n: NodeId| 0 <= l < h.layers.len() implies (
    #[trigger] h.layers[l].contains_key(n) <==> n < h.vecs.len() && l <= h.levels[n as int]) by {
        if l < g.layers.len() {
            assert(g.layers[l].contains_key(n) <==> n < g.vecs.len() && l <= g.levels[n as int]);
        } else if n < g.vecs.len() {
            assert(g.levels[n as int] < g.layers.len());
        }
    }
    assert forall|n: int| 0 <= n < h.levels.len() implies (#[trigger] h.levels[n])
        < h.layers.len() by {
        if n < g.levels.len() {
            assert(g.levels[n] < g.layers.len());
        }
    }
    assert forall|l: int| 0 <= l < h.layers.len() implies lists_ok(
        #[trigger] h.layers[l],
        params.cap(l),
    ) && unnamed(h.layers[l], node) by {
        let cap = params.cap(l);
        assert forall|n: NodeId| #[trigger] h.layers[l].contains_key(n) implies list_ok(
            h.layers[l],
            n,
            cap,
        ) && !h.layers[l][n].contains(node) by {
            if n != node || l > level {
                assert(l < g.layers.len());
                assert(g.layers[l].contains_key(n));
                assert(lists_ok(g.layers[l], cap));
                assert(list_ok(g.layers[l], n, cap));
                let list = h.layers[l][n];
                assert(list == g.layers[l][n]);
                assert forall|i: int| 0 <= i < list.len() implies h.layers[l].contains_key(
                    #[trigger] list[i],
                ) && list[i] != node by {
                    assert(g.layers[l].contains_key(g.layers[l][n][i]));
                }
            }
        }
    }
    assert forall|l: int, n: NodeId|
        0 <= l < g.layers.len() && g.layers[l].contains_key(n) implies #[trigger] h.layers[l][n]
        == g.layers[l][n] by {
        assert(n < g.vecs.len());
    }
}

/// Inserting keeps caps, distinctness, no self-loops, no dangling edges, levels and layers in
/// agreement and the entry point on the top layer; and where nobody is isolated on layer 0, nobody
/// gets to be: a sound graph stays sound.
pub proof fn lemma_inserted_sound<M: Metric>(
    g: Graph,
    params: HnswParams,
    v: Seq<u32>,
    level: nat,
)
    requires
        params.wf(),
        framed(g, params),
        g.vecs.len() < u32::MAX,
        level <= 255,
    ensures
        framed(inserted::<M>(g, params, v, level), params),
        sound(g, params) ==> sound(inserted::<M>(g, params, v, level), params),
{
    let node = g.vecs.len() as NodeId;
    let h = grown(g, v, level);
    let r = inserted::<M>(g, params, v, level);
    lemma_grown(g, params, v, level);
    match g.entry {
        None => {
            assert(r.layers.len() == r.top + 1);
        },
        Some(entry) => {
            let count = if level < g.top {
                level + 1
            } else {
                g.top + 1
            };
            lemma_start::<M>(g, params, v, level);
            let start = descended::<M>(h.vecs, h.layers, v, g.top, level, seq![entry]);
            lemma_linked::<M>(h, params, node, count, start);
            let done = linked::<M>(h, params, node, count, start);
            assert(r.layers == done.layers);
            if sound(g, params) {
                assert forall|n: NodeId| #[trigger] r.layers[0].contains_key(
                    n,
                ) implies r.layers[0][n].len() > 0 by {
                    assert(done.layers[0].contains_key(n));
                    assert(n < done.vecs.len());
                    if n != node {
                        assert(g.layers[0].contains_key(n));
                        if g.vecs.len() > 1 {
                            assert(g.layers[0][n].len() > 0);
                            assert(h.layers[0][n] == g.layers[0][n]);
                            assert(h.layers[0].contains_key(n));
                        }
                    }
                }
            }
            assert(wired(r, params)) by {
                assert forall|l: int| 0 <= l < r.layers.len() implies lists_ok(
                    #[trigger] r.layers[l],
                    params.cap(l),
                ) by {
                    assert(lists_ok(done.layers[l], params.cap(l)));
                }
            }
            assert(stacked(r)) by {
                assert(stacked(done));
            }
        },
    }
}

/// Where linking a new node starts is a good entry list for the first layer to link on.
pub proof fn lemma_start<M: Metric>(g: Graph, params: HnswParams, v: Seq<u32>, level: nat)
    requires
        params.wf(),
        framed(g, params),
        g.vecs.len() < u32::MAX,
        level <= 255,
        g.entry is Some,
    ensures
        entries_ok(
            grown(g, v, level).layers[g.top as int],
            seq![g.entry->0],
            g.vecs.len() as NodeId,
        ),
        entries_ok(
            grown(g, v, level).layers[if level < g.top {
                level as int
            } else {
                g.top as int
            }],
            descended::<M>(
                grown(g, v, level).vecs,
                grown(g, v, level).layers,
                v,
                g.top,
                level,
                seq![g.entry->0],
            ),
            g.vecs.len() as NodeId,
        ),
        waiting(
            grown(g, v, level),
            params,
            g.vecs.len() as NodeId,
            if level < g.top {
                level + 1
            } else {
                g.top + 1
            },
        ),
{
    let node = g.vecs.len() as NodeId;
    let h = grown(g, v, level);
    let entry = g.entry->0;
    lemma_grown(g, params, v, level);
    assert(g.layers[g.top as int].contains_key(entry));
    assert(h.layers[g.top as int].contains_key(entry));
    assert(entries_ok(h.layers[g.top as int], seq![entry], node));
    lemma_descended::<M>(h, params, v, g.top, level, seq![entry], node);
}

} // verus!
