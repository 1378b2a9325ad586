//! How many distances the operations on a graph compute.
//!
//! Every definition here follows the one that says what the operation does, step by step, and adds
//! up the distances that each step looks at.

use vstd::prelude::*;

use crate::candidate::in_order;
use crate::hnsw::graph::{
    all_connected, descended, grown, lemma_all_connected_lists, linked_on, measured, near,
    next_entries, picked, Edges, Graph,
};
use crate::hnsw::params::HnswParams;
use crate::hnsw::search::{finished, found_by, scored_by};
use crate::hnsw::select::selection_cost;
use crate::metric::Metric;
use crate::NodeId;

verus! {

/// Greedy descent from layer `from` to just above layer `stop`.
pub open spec fn descent_cost<M: Metric>(
    vecs: Seq<Seq<u32>>,
    layers: Seq<Edges>,
    q: Seq<u32>,
    from: nat,
    stop: nat,
    entries: Seq<NodeId>,
) -> nat
    decreases from,
{
    if from <= stop {
        0
    } else {
        let found = found_by::<M>(q, vecs, layers[from as int], entries, 1);
        let next = if found.len() > 0 {
            seq![found[0].id]
        } else {
            entries
        };
        scored_by::<M>(q, vecs, layers[from as int], entries, 1) + descent_cost::<M>(
            vecs,
            layers,
            q,
            (from - 1) as nat,
            stop,
            next,
        )
    }
}

/// A search for the `k` nearest neighbours of `q`.
pub open spec fn search_cost<M: Metric>(g: Graph, q: Seq<u32>, k: nat, ef: nat) -> nat {
    match g.entry {
        None => 0,
        Some(entry) => if k == 0 {
            0
        } else {
            let start = descended::<M>(g.vecs, g.layers, q, g.top, 0, seq![entry]);
            let beam = if ef < k {
                k
            } else {
                ef
            };
            descent_cost::<M>(g.vecs, g.layers, q, g.top, 0, seq![entry]) + scored_by::<M>(
                q,
                g.vecs,
                g.layers[0],
                start,
                beam,
            )
        },
    }
}

/// Selecting the list of a saturated node anew: one distance for each node of the longer list, and
/// the selection.
pub open spec fn reselection_cost<M: Metric>(
    vecs: Seq<Seq<u32>>,
    edges: Edges,
    s: NodeId,
    extra: NodeId,
    cap: nat,
    params: HnswParams,
) -> nat {
    edges[s].len() + 1 + selection_cost::<M>(
        vecs,
        in_order(measured::<M>(vecs, s, edges[s].push(extra))),
        cap,
        params.policy(),
    )
}

/// Adding an edge to `node` from each node of a list in turn: nothing where there is room.
pub open spec fn connection_cost<M: Metric>(
    vecs: Seq<Seq<u32>>,
    edges: Edges,
    ids: Seq<NodeId>,
    node: NodeId,
    cap: nat,
    params: HnswParams,
) -> nat
    decreases ids.len(),
{
    if ids.len() == 0 {
        0
    } else {
        let before = all_connected::<M>(vecs, edges, ids.drop_last(), node, cap, params);
        let here = if before[ids.last()].len() < cap {
            0
        } else {
            reselection_cost::<M>(vecs, before, ids.last(), node, cap, params)
        };
        connection_cost::<M>(vecs, edges, ids.drop_last(), node, cap, params) + here
    }
}

/// Linking `node` on layer `l`: the search, the selection and the edges back.
pub open spec fn link_cost<M: Metric>(
    g: Graph,
    params: HnswParams,
    node: NodeId,
    l: int,
    entries: Seq<NodeId>,
) -> nat {
    let chosen = picked::<M>(g, params, node, l, entries);
    scored_by::<M>(g.vecs[node as int], g.vecs, g.layers[l], entries, params.width())
        + selection_cost::<M>(
        g.vecs,
        in_order(near::<M>(g, params, node, l, entries)),
        params.links(),
        params.policy(),
    ) + connection_cost::<M>(
        g.vecs,
        g.layers[l].insert(node, chosen),
        chosen,
        node,
        params.cap(l),
        params,
    )
}

/// Linking `node` on `count` layers, from layer `count - 1` down.
pub open spec fn linking_cost<M: Metric>(
    g: Graph,
    params: HnswParams,
    node: NodeId,
    count: nat,
    entries: Seq<NodeId>,
) -> nat
    decreases count,
{
    if count == 0 {
        0
    } else {
        link_cost::<M>(g, params, node, count - 1, entries) + linking_cost::<M>(
            linked_on::<M>(g, params, node, count - 1, entries),
            params,
            node,
            (count - 1) as nat,
            next_entries(near::<M>(g, params, node, count - 1, entries), node),
        )
    }
}

/// Inserting `v` at `level`. The first vector is compared with nothing.
pub open spec fn insertion_cost<M: Metric>(
    g: Graph,
    params: HnswParams,
    v: Seq<u32>,
    level: nat,
) -> nat {
    let node = g.vecs.len() as NodeId;
    let h = grown(g, v, level);
    match g.entry {
        None => 0,
        Some(entry) => {
            let start = descended::<M>(h.vecs, h.layers, v, g.top, level, seq![entry]);
            let count = if level < g.top {
                level + 1
            } else {
                g.top + 1
            };
            descent_cost::<M>(h.vecs, h.layers, v, g.top, level, seq![entry]) + linking_cost::<M>(
                h,
                params,
                node,
                count,
                start,
            )
        },
    }
}

/// Descending in two stages costs what descending in one does. A descent past one layer costs one
/// distance for every node that the search on it visits, and a descent past none costs nothing.
pub proof fn lemma_descent_cost<M: Metric>(
    vecs: Seq<Seq<u32>>,
    layers: Seq<Edges>,
    q: Seq<u32>,
    from: nat,
    mid: nat,
    stop: nat,
    entries: Seq<NodeId>,
)
    requires
        stop <= mid <= from,
    ensures
        descent_cost::<M>(vecs, layers, q, from, from, entries) == 0,
        from > 0 ==> descent_cost::<M>(vecs, layers, q, from, (from - 1) as nat, entries)
            == finished::<M>(q, vecs, layers[from as int], entries, 1).visited.len(),
        descent_cost::<M>(vecs, layers, q, from, stop, entries) == descent_cost::<M>(
            vecs,
            layers,
            q,
            from,
            mid,
            entries,
        ) + descent_cost::<M>(
            vecs,
            layers,
            q,
            mid,
            stop,
            descended::<M>(vecs, layers, q, from, mid, entries),
        ),
    decreases from,
{
    reveal_with_fuel(descent_cost, 2);
    if from > mid {
        let found = found_by::<M>(q, vecs, layers[from as int], entries, 1);
        let next = if found.len() > 0 {
            seq![found[0].id]
        } else {
            entries
        };
        lemma_descent_cost::<M>(vecs, layers, q, (from - 1) as nat, mid, stop, next);
    }
}

/// A search costs the descent to layer 0 and one distance for every node that the beam visits there.
/// In an empty graph, and when nothing is asked for, nothing is computed.
pub proof fn lemma_search_cost<M: Metric>(g: Graph, q: Seq<u32>, k: nat, ef: nat)
    ensures
        g.entry is None || k == 0 ==> search_cost::<M>(g, q, k, ef) == 0,
        g.entry is Some && 1 <= k <= ef ==> search_cost::<M>(g, q, k, ef) == descent_cost::<M>(
            g.vecs,
            g.layers,
            q,
            g.top,
            0,
            seq![g.entry->0],
        ) + finished::<M>(
            q,
            g.vecs,
            g.layers[0],
            descended::<M>(g.vecs, g.layers, q, g.top, 0, seq![g.entry->0]),
            ef,
        ).visited.len(),
        ef <= k ==> search_cost::<M>(g, q, k, ef) == search_cost::<M>(g, q, k, k),
{
}

/// Adding edges costs nothing where there is room. A node whose list is full costs the distances to
/// all that it is selected from, and the selection, whatever happened to the lists before it.
pub proof fn lemma_connection_cost<M: Metric>(
    vecs: Seq<Seq<u32>>,
    edges: Edges,
    ids: Seq<NodeId>,
    node: NodeId,
    cap: nat,
    params: HnswParams,
)
    requires
        ids.no_duplicates(),
    ensures
        (forall|i: int| 0 <= i < ids.len() ==> (#[trigger] edges[ids[i]]).len() < cap)
            ==> connection_cost::<M>(vecs, edges, ids, node, cap, params) == 0,
        ids.len() > 0 ==> connection_cost::<M>(vecs, edges, ids, node, cap, params)
            == connection_cost::<M>(vecs, edges, ids.drop_last(), node, cap, params) + if edges[
        ids.last()].len() < cap {
            0
        } else {
            edges[ids.last()].len() + 1 + selection_cost::<M>(
                vecs,
                in_order(measured::<M>(vecs, ids.last(), edges[ids.last()].push(node))),
                cap,
                params.policy(),
            )
        },
    decreases ids.len(),
{
    if ids.len() > 0 {
        let rest = ids.drop_last();
        assert(!rest.contains(ids.last())) by {
            if rest.contains(ids.last()) {
                let i = choose|i: int| 0 <= i < rest.len() && rest[i] == ids.last();
                assert(ids[i] == ids[ids.len() - 1]);
            }
        }
        assert(rest.no_duplicates());
        lemma_all_connected_lists::<M>(vecs, edges, rest, node, cap, params);
        assert(all_connected::<M>(vecs, edges, rest, node, cap, params)[ids.last()]
            == edges[ids.last()]);
        lemma_connection_cost::<M>(vecs, edges, rest, node, cap, params);
        if forall|i: int| 0 <= i < ids.len() ==> (#[trigger] edges[ids[i]]).len() < cap {
            assert forall|i: int| 0 <= i < rest.len() implies (#[trigger] edges[rest[i]]).len()
                < cap by {
                assert(edges[ids[i]].len() < cap);
            }
            assert(edges[ids[ids.len() - 1]].len() < cap);
        }
    }
}

/// The first vector is compared with nothing. A vector that is put on layer 0 of a graph with no
/// other layer costs what the beam visits, what choosing its neighbours costs, and what the edges
/// back to it cost.
pub proof fn lemma_insertion_cost<M: Metric>(
    g: Graph,
    params: HnswParams,
    v: Seq<u32>,
    level: nat,
)
    requires
        params.width() >= 1,
    ensures
        g.entry is None ==> insertion_cost::<M>(g, params, v, level) == 0,
        g.entry is Some && g.top == 0 && level == 0 ==> {
            let node = g.vecs.len() as NodeId;
            let h = grown(g, v, 0);
            let entry = seq![g.entry->0];
            let chosen = picked::<M>(h, params, node, 0, entry);
            insertion_cost::<M>(g, params, v, level) == finished::<M>(
                h.vecs[node as int],
                h.vecs,
                h.layers[0],
                entry,
                params.width(),
            ).visited.len() + selection_cost::<M>(
                h.vecs,
                in_order(near::<M>(h, params, node, 0, entry)),
                params.links(),
                params.policy(),
            ) + connection_cost::<M>(
                h.vecs,
                h.layers[0].insert(node, chosen),
                chosen,
                node,
                params.base_cap(),
                params,
            )
        },
{
    reveal_with_fuel(linking_cost, 2);
}

/// Linking on the uppermost of several layers costs what the beam visits there, what choosing the
/// neighbours costs, and what the edges back cost, up to the room that a list of that layer has;
/// linking on no layer costs nothing.
pub proof fn lemma_linking_cost<M: Metric>(
    g: Graph,
    params: HnswParams,
    node: NodeId,
    count: nat,
    entries: Seq<NodeId>,
)
    requires
        count >= 1,
        params.width() >= 1,
    ensures
        linking_cost::<M>(g, params, node, 0, entries) == 0,
        ({
            let l = count - 1;
            let found = near::<M>(g, params, node, l, entries);
            let chosen = picked::<M>(g, params, node, l, entries);
            linking_cost::<M>(g, params, node, count, entries) - linking_cost::<M>(
                linked_on::<M>(g, params, node, l, entries),
                params,
                node,
                l as nat,
                next_entries(found, node),
            ) == finished::<M>(
                g.vecs[node as int],
                g.vecs,
                g.layers[l],
                entries,
                params.width(),
            ).visited.len() + selection_cost::<M>(
                g.vecs,
                in_order(found),
                params.links(),
                params.policy(),
            ) + connection_cost::<M>(
                g.vecs,
                g.layers[l].insert(node, chosen),
                chosen,
                node,
                if l == 0 {
                    params.base_cap()
                } else {
                    params.links()
                },
                params,
            )
        }),
{
}

} // verus!
