//! Graph invariants and measured graph properties.
//!
//! [`GraphViolation`] covers what the algorithm guarantees, so [`HnswIndex::validate`] is a gate.
//! [`GraphStats`] covers what is worth measuring.

use vstd::prelude::*;

use crate::count::{lemma_apart, lemma_in_row};
use crate::first::{either_of, first_of, lemma_first_hit, lemma_first_none, lemma_first_some};
use crate::hnsw::graph::{list_ok, lists_ok, stacked, wired, Edges, Graph};
use crate::hnsw::index::{graph_takes, HnswIndex};
use crate::hnsw::layer::Layer;
use crate::hnsw::search::closed_under;
use crate::hnsw::visited::VisitedList;
use crate::NodeId;

verus! {

/// A property the algorithm guarantees, and which was found broken.
#[derive(Clone, Copy, Debug, PartialEq, Eq, Structural)]
pub enum GraphViolation {
    /// A node has more neighbours than its layer allows.
    DegreeAboveCap { layer: usize, node: NodeId, degree: usize, cap: usize },
    /// A node is missing from a layer below its level.
    LayerGap { node: NodeId, level: usize, missing: usize },
    /// A node is on a layer above its level.
    LevelMismatch { node: NodeId, recorded: usize, found: usize },
    /// The entry point is not on the top layer.
    EntryPointBelowTop { node: NodeId, level: usize, max_layer: usize },
    /// There are nodes but no entry point.
    MissingEntryPoint { nodes: usize },
    /// A node lists itself.
    SelfLoop { layer: usize, node: NodeId },
    /// A node lists a neighbour more than once.
    DuplicateNeighbor { layer: usize, node: NodeId, neighbor: NodeId },
    /// A node lists an id that is not in the index.
    NeighborOutOfRange { layer: usize, node: NodeId, neighbor: NodeId },
    /// A node lists a neighbour that is not on the layer.
    NeighborNotOnLayer { layer: usize, node: NodeId, neighbor: NodeId },
    /// A node without neighbours on layer 0 can never be reached.
    IsolatedOnLayerZero { node: NodeId },
}

/// Looks for `node` on layer `lc`, which its level says it is on.
pub open spec fn gap_check(layers: Seq<Layer>, node: int, level: int) -> spec_fn(int) -> Option<
    GraphViolation,
> {
    |lc: int|
        if lc >= layers.len() || !layers[lc]@.contains_key(node as NodeId) {
            Some(
                GraphViolation::LayerGap {
                    node: node as NodeId,
                    level: level as usize,
                    missing: lc as usize,
                },
            )
        } else {
            None
        }
}

/// Looks for `node` on layer `level + 1 + i`, which its level says it is not on.
pub open spec fn above_check(layers: Seq<Layer>, node: int, level: int) -> spec_fn(int) -> Option<
    GraphViolation,
> {
    |i: int|
        if layers[level + 1 + i]@.contains_key(node as NodeId) {
            Some(
                GraphViolation::LevelMismatch {
                    node: node as NodeId,
                    recorded: level as usize,
                    found: (level + 1 + i) as usize,
                },
            )
        } else {
            None
        }
}

/// Looks whether a node is on exactly the layers up to its level.
pub open spec fn level_check(layers: Seq<Layer>, levels: Seq<u8>) -> spec_fn(int) -> Option<
    GraphViolation,
> {
    |node: int|
        either_of(
            first_of(levels[node] + 1, gap_check(layers, node, levels[node] as int)),
            first_of(
                layers.len() - levels[node] - 1,
                above_check(layers, node, levels[node] as int),
            ),
        )
}

/// Looks at entry `k` of a neighbour list.
pub open spec fn neighbor_check(layer: Layer, l: int, node: NodeId, size: nat) -> spec_fn(
    int,
) -> Option<GraphViolation> {
    |k: int|
        {
            let list = layer@[node];
            let neighbor = list[k];
            if neighbor == node {
                Some(GraphViolation::SelfLoop { layer: l as usize, node })
            } else if neighbor >= size {
                Some(GraphViolation::NeighborOutOfRange { layer: l as usize, node, neighbor })
            } else if !layer@.contains_key(neighbor) {
                Some(GraphViolation::NeighborNotOnLayer { layer: l as usize, node, neighbor })
            } else if list.take(k).contains(neighbor) {
                Some(GraphViolation::DuplicateNeighbor { layer: l as usize, node, neighbor })
            } else {
                None
            }
        }
}

/// Looks at the neighbour list of the node in slot `slot` of layer `l`. Only a strict look minds an
/// empty list on layer 0.
pub open spec fn list_check(layer: Layer, l: int, size: nat, strict: bool) -> spec_fn(
    int,
) -> Option<GraphViolation> {
    |slot: int|
        {
            let node = layer.order()[slot];
            if layer.written_degree(node) > layer.cap() {
                Some(
                    GraphViolation::DegreeAboveCap {
                        layer: l as usize,
                        node,
                        degree: layer.written_degree(node) as usize,
                        cap: layer.cap() as usize,
                    },
                )
            } else if strict && l == 0 && size > 1 && layer@[node].len() == 0 {
                Some(GraphViolation::IsolatedOnLayerZero { node })
            } else {
                first_of(layer@[node].len() as int, neighbor_check(layer, l, node, size))
            }
        }
}

/// Looks at every list of layer `l`.
pub open spec fn layer_check(layers: Seq<Layer>, size: nat, strict: bool) -> spec_fn(
    int,
) -> Option<GraphViolation> {
    |l: int| first_of(layers[l].order().len() as int, list_check(layers[l], l, size, strict))
}

/// The level that the entry point is recorded with.
pub open spec fn entry_level(levels: Seq<u8>, entry: NodeId) -> usize {
    if entry < levels.len() {
        levels[entry as int] as usize
    } else {
        0
    }
}

/// The first violation of an index, in the order in which they are looked for: the entry point,
/// the layers of each node, then the lists of each layer.
pub open spec fn violation(index: &HnswIndex) -> Option<GraphViolation> {
    violation_of(index, true)
}

/// The same, with isolated nodes passed over unless the look is a strict one.
pub open spec fn violation_of(index: &HnswIndex, strict: bool) -> Option<GraphViolation> {
    let g = index@;
    let size = g.vecs.len();
    if size == 0 {
        None
    } else {
        match g.entry {
            None => Some(GraphViolation::MissingEntryPoint { nodes: size as usize }),
            Some(entry) => if entry_level(g.levels, entry) != g.top {
                Some(
                    GraphViolation::EntryPointBelowTop {
                        node: entry,
                        level: entry_level(g.levels, entry),
                        max_layer: g.top as usize,
                    },
                )
            } else {
                either_of(
                    first_of(size as int, level_check(index.all_layers(), g.levels)),
                    first_of(
                        index.all_layers().len() as int,
                        layer_check(index.all_layers(), size, strict),
                    ),
                )
            },
        }
    }
}

/// A list without violations is a neighbour list.
proof fn lemma_list_checked(layer: Layer, l: int, node: NodeId, size: nat)
    requires
        layer.wf(),
        layer@.contains_key(node),
        forall|n: NodeId| #[trigger] layer@.contains_key(n) ==> n < size,
    ensures
        first_of(layer@[node].len() as int, neighbor_check(layer, l, node, size)) is None
            <==> list_ok(layer@, node, layer.cap()),
{
    let list = layer@[node];
    let check = neighbor_check(layer, l, node, size);
    layer.lemma_view(node);
    lemma_first_none(list.len() as int, check);
    if first_of(list.len() as int, check) is None {
        assert forall|i: int| 0 <= i < list.len() implies layer@.contains_key(#[trigger] list[i])
            && list[i] != node by {
            assert(check(i) is None);
        }
        assert forall|i: int, j: int|
            0 <= i < list.len() && 0 <= j < list.len() && i != j implies list[i] != list[j] by {
            if i < j {
                assert(check(j) is None);
                assert(list.take(j)[i] == list[i]);
            } else {
                assert(check(i) is None);
                assert(list.take(i)[j] == list[j]);
            }
        }
    }
    if list_ok(layer@, node, layer.cap()) {
        assert forall|i: int| 0 <= i < list.len() implies (#[trigger] check(i)) is None by {
            assert(layer@.contains_key(list[i]));
            assert(list.contains(list[i]));
            if list.take(i).contains(list[i]) {
                let j = list.take(i).index_of(list[i]);
                assert(list[j] == list[i]);
            }
        }
    }
}

/// An index without violations is valid, and a valid one has none. One that can be inserted into
/// has no other violations than isolated nodes.
pub proof fn lemma_no_violation(index: &HnswIndex, strict: bool)
    requires
        index.wf(),
    ensures
        violation_of(index, strict) is None <==> if strict {
            index.valid()
        } else {
            index.insertable()
        },
{
    index.lemma_wf();
    let g = index@;
    let size = g.vecs.len();
    let layers = index.all_layers();
    let params = index.settings();
    let by_node = level_check(layers, g.levels);
    let by_layer = layer_check(layers, size, strict);
    lemma_first_none(size as int, by_node);
    lemma_first_none(layers.len() as int, by_layer);
    assert forall|l: int| 0 <= l < layers.len() implies #[trigger] g.layers[l] == layers[l]@ by {}
    assert forall|l: int| 0 <= l < layers.len() implies ((#[trigger] by_layer(l)) is None <==> (
    layers[l].capped() && lists_ok(layers[l]@, params.cap(l)) && (strict && l == 0 && size > 1
        ==> forall|n: NodeId| #[trigger] layers[l]@.contains_key(n) ==> layers[l]@[n].len() > 0)))
    by {
        let layer = layers[l];
        let check = list_check(layer, l, size, strict);
        layer.lemma_order();
        lemma_first_none(layer.order().len() as int, check);
        assert forall|slot: int| 0 <= slot < layer.order().len() implies ((
        #[trigger] check(slot)) is None <==> (layer.written_degree(layer.order()[slot])
            <= layer.cap() && list_ok(layer@, layer.order()[slot], layer.cap()) && (strict && l == 0 && size
            > 1 ==> layer@[layer.order()[slot]].len() > 0))) by {
            let node = layer.order()[slot];
            assert(layer.order().contains(node));
            assert(layer@.contains_key(node));
            lemma_list_checked(layer, l, node, size);
        }
        if by_layer(l) is None {
            assert forall|n: NodeId| #[trigger] layer@.contains_key(n) implies layer.written_degree(
                n,
            ) <= layer.cap() && list_ok(layer@, n, layer.cap()) && (strict && l == 0 && size > 1
                ==> layer@[n].len() > 0) by {
                let slot = layer.order().index_of(n);
                assert(check(slot) is None);
            }
        }
        if layer.capped() && lists_ok(layer@, params.cap(l)) && (strict && l == 0 && size > 1 ==> forall|
            n: NodeId,
        | #[trigger]
            layer@.contains_key(n) ==> layer@[n].len() > 0) {
            assert forall|slot: int| 0 <= slot < layer.order().len() implies (
            #[trigger] check(slot)) is None by {
                let node = layer.order()[slot];
                assert(layer.order().contains(node));
                assert(layer@.contains_key(node));
            }
        }
    }
    assert forall|n: int| 0 <= n < size implies ((#[trigger] by_node(n)) is None <==> (g.levels[n]
        < layers.len() && forall|l: int|
        0 <= l < layers.len() ==> (#[trigger] layers[l]@.contains_key(n as NodeId) <==> l
            <= g.levels[n]))) by {
        let level = g.levels[n] as int;
        let gaps = gap_check(layers, n, level);
        let above = above_check(layers, n, level);
        lemma_first_none(level + 1, gaps);
        lemma_first_none(layers.len() - level - 1, above);
        if by_node(n) is None {
            assert(gaps(level) is None);
            assert forall|l: int| 0 <= l < layers.len() implies (#[trigger] layers[l]@.contains_key(
                n as NodeId,
            ) <==> l <= level) by {
                if l <= level {
                    assert(gaps(l) is None);
                } else {
                    assert(above(l - level - 1) is None);
                }
            }
        }
        if level < layers.len() && forall|l: int|
            0 <= l < layers.len() ==> (#[trigger] layers[l]@.contains_key(n as NodeId) <==> l
                <= level) {
            assert forall|l: int| 0 <= l < level + 1 implies (#[trigger] gaps(l)) is None by {
                assert(layers[l]@.contains_key(n as NodeId));
            }
            assert forall|i: int| 0 <= i < layers.len() - level - 1 implies (#[trigger] above(
                i,
            )) is None by {
                assert(!layers[level + 1 + i]@.contains_key(n as NodeId));
            }
        }
    }
    if size == 0 {
        layers[0].lemma_order();
        assert forall|l: int, n: NodeId| 0 <= l < layers.len() implies !(
        #[trigger] layers[l]@.contains_key(n)) by {}
        assert forall|l: int| 0 <= l < layers.len() implies (#[trigger] layers[l]).capped()
            && lists_ok(g.layers[l], params.cap(l)) by {}
        assert(stacked(g));
        assert(wired(g, params));
        assert(index.capped());
    } else {
        if violation_of(index, strict) is None {
            assert forall|n: int| 0 <= n < g.levels.len() implies (#[trigger] g.levels[n])
                < g.layers.len() by {
                assert(by_node(n) is None);
            }
            assert forall|l: int, node: NodeId| 0 <= l < g.layers.len() implies (
            #[trigger] g.layers[l].contains_key(node) <==> node < g.vecs.len() && l
                <= g.levels[node as int]) by {
                assert(g.layers[l] == layers[l]@);
                if node < size {
                    assert(by_node(node as int) is None);
                    assert(layers[l]@.contains_key((node as int) as NodeId) <==> l
                        <= g.levels[node as int]);
                }
            }
            assert forall|l: int| 0 <= l < layers.len() implies (#[trigger] layers[l]).capped() by {
                assert(by_layer(l) is None);
            }
            assert forall|l: int| 0 <= l < g.layers.len() implies lists_ok(
                #[trigger] g.layers[l],
                params.cap(l),
            ) by {
                assert(by_layer(l) is None);
            }
            assert(by_layer(0) is None);
            assert(g.layers[0] == layers[0]@);
            assert(index.insertable());
            assert(strict ==> index.valid());
        }
        if index.insertable() && (strict ==> index.valid()) {
            assert forall|n: int| 0 <= n < size implies (#[trigger] by_node(n)) is None by {
                assert forall|l: int| 0 <= l < layers.len() implies (
                #[trigger] layers[l]@.contains_key(n as NodeId) <==> l <= g.levels[n]) by {
                    assert(g.layers[l] == layers[l]@);
                    assert(g.layers[l].contains_key(n as NodeId) <==> (n as NodeId) < g.vecs.len()
                        && l <= g.levels[(n as NodeId) as int]);
                }
            }
            assert forall|l: int| 0 <= l < layers.len() implies (#[trigger] by_layer(l)) is None by {
                assert(layers[l].capped());
                assert(lists_ok(g.layers[l], params.cap(l)));
                assert(g.layers[l] == layers[l]@);
            }
        }
    }
}

/// What the absence of violations means, said outright: every node is on exactly the layers up to
/// its level and there has a list that holds no more than the layer allows, nobody twice, not the
/// node itself and only nodes of that layer; the entry point is on the topmost layer; and with more
/// than one node nobody's list on layer 0 is empty.
pub proof fn lemma_sound_graph(index: &HnswIndex)
    requires
        index.wf(),
        violation(index) is None,
    ensures
        ({
            let g = index@;
            let size = g.vecs.len();
            &&& g.layers.len() == g.top + 1
            &&& g.levels.len() == size
            &&& size > 0 ==> g.entry is Some && g.entry->0 < size
                && g.levels[g.entry->0 as int] == g.top
            &&& forall|l: int, node: NodeId|
                0 <= l < g.layers.len() ==> (#[trigger] g.layers[l].contains_key(node) <==> node
                    < size && l <= g.levels[node as int])
            &&& forall|l: int, node: NodeId|
                #![trigger g.layers[l][node]]
                0 <= l < g.layers.len() && g.layers[l].contains_key(node) ==> {
                    let list = g.layers[l][node];
                    &&& list.len() <= if l == 0 {
                        index.settings().base_cap()
                    } else {
                        index.settings().links()
                    }
                    &&& forall|i: int, j: int|
                        0 <= i < j < list.len() ==> #[trigger] list[i] != #[trigger] list[j]
                    &&& forall|i: int|
                        0 <= i < list.len() ==> #[trigger] list[i] != node && list[i] < size && l
                            <= g.levels[list[i] as int]
                    &&& l == 0 && size > 1 ==> list.len() > 0
                }
        }),
{
    lemma_no_violation(index, true);
    index.lemma_wf();
    let g = index@;
    assert forall|l: int, node: NodeId|
        #![trigger g.layers[l][node]]
        0 <= l < g.layers.len() && g.layers[l].contains_key(node) implies {
        let list = g.layers[l][node];
        &&& list.len() <= if l == 0 {
            index.settings().base_cap()
        } else {
            index.settings().links()
        }
        &&& forall|i: int, j: int|
            0 <= i < j < list.len() ==> #[trigger] list[i] != #[trigger] list[j]
        &&& forall|i: int|
            0 <= i < list.len() ==> #[trigger] list[i] != node && list[i] < g.vecs.len() && l
                <= g.levels[list[i] as int]
        &&& l == 0 && g.vecs.len() > 1 ==> list.len() > 0
    } by {
        let list = g.layers[l][node];
        assert(lists_ok(g.layers[l], index.settings().cap(l)));
        assert(list_ok(g.layers[l], node, index.settings().cap(l)));
        assert forall|i: int| 0 <= i < list.len() implies #[trigger] list[i] != node && list[i]
            < g.vecs.len() && l <= g.levels[list[i] as int] by {
            assert(list.contains(list[i]));
            assert(g.layers[l].contains_key(list[i]));
        }
    }
}

/// The graph has the node on layer `l`.
pub open spec fn on_layer(g: Graph, l: usize, node: NodeId) -> bool {
    l < g.layers.len() && g.layers[l as int].contains_key(node)
}

/// Two places of a list hold `node`.
pub open spec fn named_twice(list: Seq<NodeId>, node: NodeId) -> bool {
    exists|i: int, j: int|
        0 <= i < j < list.len() && #[trigger] list[i] == node && #[trigger] list[j] == node
}

/// A violation that is reported is there: what it says of a node, a list or the entry point is so.
#[verifier::spinoff_prover]
#[verifier::rlimit(40)]
pub proof fn lemma_violation_is_real(index: &HnswIndex, strict: bool)
    requires
        index.wf(),
        violation_of(index, strict) is Some,
    ensures
        ({
            let g = index@;
            let size = g.vecs.len();
            match violation_of(index, strict)->0 {
                GraphViolation::MissingEntryPoint { nodes } => g.entry is None && nodes == size
                    && size > 0,
                GraphViolation::EntryPointBelowTop { node, level, max_layer } => {
                    &&& g.entry == Some(node)
                    &&& level == g.levels[node as int]
                    &&& max_layer == g.top
                    &&& level != max_layer
                },
                GraphViolation::LayerGap { node, level, missing } => {
                    &&& node < size
                    &&& level == g.levels[node as int]
                    &&& missing <= level
                    &&& !on_layer(g, missing, node)
                },
                GraphViolation::LevelMismatch { node, recorded, found } => {
                    &&& node < size
                    &&& recorded == g.levels[node as int]
                    &&& recorded < found
                    &&& on_layer(g, found, node)
                },
                GraphViolation::DegreeAboveCap { layer, node, degree, cap } => {
                    &&& on_layer(g, layer, node)
                    &&& degree == index.all_layers()[layer as int].written_degree(node)
                    &&& cap == index.settings().cap(layer as int)
                    &&& degree > cap
                },
                GraphViolation::IsolatedOnLayerZero { node } => {
                    &&& strict
                    &&& size > 1
                    &&& on_layer(g, 0, node)
                    &&& g.layers[0][node].len() == 0
                },
                GraphViolation::SelfLoop { layer, node } => on_layer(g, layer, node)
                    && g.layers[layer as int][node].contains(node),
                GraphViolation::NeighborOutOfRange { layer, node, neighbor } => on_layer(g, layer, node)
                    && g.layers[layer as int][node].contains(neighbor) && neighbor >= size,
                GraphViolation::NeighborNotOnLayer { layer, node, neighbor } => on_layer(g, layer, node)
                    && g.layers[layer as int][node].contains(neighbor) && !on_layer(g, layer, neighbor),
                GraphViolation::DuplicateNeighbor { layer, node, neighbor } => on_layer(g, layer, node)
                    && named_twice(g.layers[layer as int][node], neighbor),
            }
        }),
{
    index.lemma_wf();
    let g = index@;
    let size = g.vecs.len();
    let layers = index.all_layers();
    let by_node = level_check(layers, g.levels);
    let by_layer = layer_check(layers, size, strict);
    assert forall|l: int| 0 <= l < layers.len() implies #[trigger] g.layers[l] == layers[l]@ by {}
    if g.entry is Some && entry_level(g.levels, g.entry->0) == g.top {
        if first_of(size as int, by_node) is Some {
            let n = lemma_first_some(size as int, by_node);
            let level = g.levels[n] as int;
            let gaps = gap_check(layers, n, level);
            let above = above_check(layers, n, level);
            if first_of(level + 1, gaps) is Some {
                let l = lemma_first_some(level + 1, gaps);
            } else {
                let i = lemma_first_some(layers.len() - level - 1, above);
            }
        } else {
            let l = lemma_first_some(layers.len() as int, by_layer);
            let layer = layers[l];
            layer.lemma_order();
            let check = list_check(layer, l, size, strict);
            let slot = lemma_first_some(layer.order().len() as int, check);
            let node = layer.order()[slot];
            assert(layer.order().contains(node));
            layer.lemma_written_degree(node);
            let list = layer@[node];
            if !(layer.written_degree(node) > layer.cap()) && !(strict && l == 0 && size > 1
                && list.len() == 0) {
                let inner = neighbor_check(layer, l, node, size);
                let k = lemma_first_some(list.len() as int, inner);
                assert(list.contains(list[k]));
                if list.take(k).contains(list[k]) {
                    let j = list.take(k).index_of(list[k]);
                    assert(list[j] == list[k]);
                    assert(named_twice(list, list[k]));
                }
            }
        }
    }
}

impl<'a> HnswIndex<'a> {
    /// Checks every guaranteed invariant, returning the first violation found.
    pub fn validate(&self) -> (r: Result<(), GraphViolation>)
        requires
            self.wf(),
        ensures
            match r {
                Ok(_) => violation(self) is None && self.valid(),
                Err(v) => violation(self) == Some(v) && !self.valid(),
            },
    {
        proof {
            lemma_no_violation(self, true);
        }
        match self.first_violation(true) {
            Some(v) => Err(v),
            None => Ok(()),
        }
    }

    /// Whether vectors can be inserted into the graph, which takes everything that
    /// [`HnswIndex::validate`] looks for but for isolated nodes.
    pub fn can_insert(&self) -> (r: bool)
        requires
            self.wf(),
        ensures
            r == self.insertable(),
    {
        proof {
            lemma_no_violation(self, false);
        }
        self.first_violation(false).is_none()
    }

    fn first_violation(&self, strict: bool) -> (r: Option<GraphViolation>)
        requires
            self.wf(),
        ensures
            r == violation_of(self, strict),
    {
        proof {
            self.lemma_wf();
        }
        let count: usize = self.len();
        if count == 0 {
            return None;
        }
        let entry: NodeId = match self.entry_point() {
            None => {
                return Some(GraphViolation::MissingEntryPoint { nodes: count });
            },
            Some(entry) => entry,
        };
        let level: usize = match self.level_of(entry) {
            Some(level) => level,
            None => 0,
        };
        if level != self.max_layer() {
            return Some(
                GraphViolation::EntryPointBelowTop {
                    node: entry,
                    level,
                    max_layer: self.max_layer(),
                },
            );
        }
        match self.check_levels() {
            Some(v) => {
                return Some(v);
            },
            None => {},
        }
        self.check_lists(strict)
    }

    /// Layer membership matches the recorded level, in both directions.
    fn check_levels(&self) -> (r: Option<GraphViolation>)
        requires
            self.wf(),
        ensures
            r == first_of(
                self@.vecs.len() as int,
                level_check(self.all_layers(), self@.levels),
            ),
    {
        proof {
            self.lemma_wf();
        }
        let count: usize = self.len();
        let ghost layers = self.all_layers();
        let ghost check = level_check(layers, self@.levels);
        let slots = self.layers();
        let mut n: usize = 0;
        while n < count
            invariant
                n <= count,
                count == self@.vecs.len(),
                count <= u32::MAX,
                self@.levels.len() == count,
                layers == self.all_layers(),
                slots@ == layers,
                check == level_check(layers, self@.levels),
                forall|l: int| 0 <= l < layers.len() ==> (#[trigger] layers[l]).wf(),
                first_of(n as int, check) is None,
            decreases count - n,
        {
            let node: NodeId = n as NodeId;
            let level: usize = match self.level_of(node) {
                Some(level) => level,
                None => 0,
            };
            let ghost gaps = gap_check(layers, n as int, level as int);
            let ghost above = above_check(layers, n as int, level as int);
            let mut lc: usize = 0;
            while lc <= level
                invariant
                    lc <= level + 1,
                    n < count,
                    node == n,
                    level == self@.levels[n as int],
                    self@.levels.len() == count,
                    layers == self.all_layers(),
                    slots@ == layers,
                    gaps == gap_check(layers, n as int, level as int),
                    above == above_check(layers, n as int, level as int),
                    check == level_check(layers, self@.levels),
                    forall|l: int| 0 <= l < layers.len() ==> (#[trigger] layers[l]).wf(),
                    first_of(n as int, check) is None,
                    count == self@.vecs.len(),
                    first_of(lc as int, gaps) is None,
                decreases level + 1 - lc,
            {
                if lc >= slots.len() || !slots[lc].contains(node) {
                    proof {
                        lemma_first_hit(level + 1, gaps, lc as int);
                        lemma_first_hit(count as int, check, n as int);
                    }
                    return Some(GraphViolation::LayerGap { node, level, missing: lc });
                }
                lc += 1;
            }
            let mut lc: usize = level + 1;
            while lc < slots.len()
                invariant
                    level + 1 <= lc,
                    lc <= slots@.len() || lc == level + 1,
                    n < count,
                    node == n,
                    level == self@.levels[n as int],
                    self@.levels.len() == count,
                    layers == self.all_layers(),
                    slots@ == layers,
                    gaps == gap_check(layers, n as int, level as int),
                    above == above_check(layers, n as int, level as int),
                    check == level_check(layers, self@.levels),
                    forall|l: int| 0 <= l < layers.len() ==> (#[trigger] layers[l]).wf(),
                    first_of(n as int, check) is None,
                    count == self@.vecs.len(),
                    first_of(level + 1, gaps) is None,
                    first_of(lc - level - 1, above) is None,
                decreases slots@.len() - lc,
            {
                if slots[lc].contains(node) {
                    proof {
                        lemma_first_hit(layers.len() - level - 1, above, lc - level - 1);
                        lemma_first_hit(count as int, check, n as int);
                    }
                    return Some(
                        GraphViolation::LevelMismatch { node, recorded: level, found: lc },
                    );
                }
                proof {
                    assert(above(lc - level - 1) is None);
                }
                lc += 1;
            }
            proof {
                assert(check(n as int) is None);
            }
            n += 1;
        }
        None
    }

    /// Every list of every layer is a neighbour list.
    fn check_lists(&self, strict: bool) -> (r: Option<GraphViolation>)
        requires
            self.wf(),
        ensures
            r == first_of(
                self.all_layers().len() as int,
                layer_check(self.all_layers(), self@.vecs.len(), strict),
            ),
    {
        proof {
            self.lemma_wf();
        }
        let count: usize = self.len();
        let slots = self.layers();
        let ghost layers = self.all_layers();
        let ghost check = layer_check(layers, count as nat, strict);
        let mut seen = VisitedList::new(count);
        let mut l: usize = 0;
        while l < slots.len()
            invariant
                l <= slots@.len(),
                count == self@.vecs.len(),
                layers == self.all_layers(),
                slots@ == layers,
                check == layer_check(layers, count as nat, strict),
                seen.wf(),
                seen.room() == count,
                forall|k: int| 0 <= k < layers.len() ==> (#[trigger] layers[k]).wf(),
                forall|k: int, n: NodeId|
                    0 <= k < layers.len() && #[trigger] layers[k]@.contains_key(n) ==> n < count,
                first_of(l as int, check) is None,
            decreases slots@.len() - l,
        {
            match check_layer(&slots[l], l, count, strict, &mut seen) {
                Some(v) => {
                    proof {
                        lemma_first_hit(layers.len() as int, check, l as int);
                    }
                    return Some(v);
                },
                None => {},
            }
            l += 1;
        }
        None
    }
}

/// The first violation among the lists of one layer.
fn check_layer(
    layer: &Layer,
    l: usize,
    count: usize,
    strict: bool,
    seen: &mut VisitedList,
) -> (r: Option<GraphViolation>)
    requires
        layer.wf(),
        old(seen).wf(),
        old(seen).room() == count,
        forall|n: NodeId| #[trigger] layer@.contains_key(n) ==> n < count,
    ensures
        final(seen).wf(),
        final(seen).room() == count,
        r == first_of(layer.order().len() as int, list_check(*layer, l as int, count as nat, strict)),
{
    let ghost check = list_check(*layer, l as int, count as nat, strict);
    let nodes = layer.nodes();
    let cap: usize = layer.max_degree();
    let mut slot: usize = 0;
    while slot < nodes.len()
        invariant
            slot <= nodes@.len(),
            nodes@ == layer.order(),
            cap == layer.cap(),
            layer.wf(),
            seen.wf(),
            seen.room() == count,
            forall|node: NodeId| #[trigger] nodes@.contains(node) <==> layer@.contains_key(node),
            forall|n: NodeId| #[trigger] layer@.contains_key(n) ==> n < count,
            check == list_check(*layer, l as int, count as nat, strict),
            first_of(slot as int, check) is None,
        decreases nodes@.len() - slot,
    {
        let node: NodeId = nodes[slot];
        proof {
            assert(nodes@.contains(node));
            layer.lemma_view(node);
        }
        let degree: usize = layer.degree(node);
        if degree > cap {
            proof {
                lemma_first_hit(nodes@.len() as int, check, slot as int);
            }
            return Some(GraphViolation::DegreeAboveCap { layer: l, node, degree, cap });
        }
        let neighbors = layer.neighbors(node);
        if strict && l == 0 && count > 1 && neighbors.len() == 0 {
            proof {
                lemma_first_hit(nodes@.len() as int, check, slot as int);
            }
            return Some(GraphViolation::IsolatedOnLayerZero { node });
        }
        seen.begin();
        let ghost inner = neighbor_check(*layer, l as int, node, count as nat);
        let mut k: usize = 0;
        while k < neighbors.len()
            invariant
                k <= neighbors@.len(),
                slot < nodes@.len(),
                nodes@ == layer.order(),
                node == nodes@[slot as int],
                neighbors@ == layer@[node],
                layer.wf(),
                seen.wf(),
                seen.room() == count,
                seen@ == neighbors@.take(k as int).to_set(),
                inner == neighbor_check(*layer, l as int, node, count as nat),
                check == list_check(*layer, l as int, count as nat, strict),
                check(slot as int) == first_of(neighbors@.len() as int, inner),
                first_of(slot as int, check) is None,
                first_of(k as int, inner) is None,
                forall|n: NodeId| #[trigger] layer@.contains_key(n) ==> n < count,
            decreases neighbors@.len() - k,
        {
            let neighbor: NodeId = neighbors[k];
            let wrong: Option<GraphViolation> = if neighbor == node {
                Some(GraphViolation::SelfLoop { layer: l, node })
            } else if neighbor as usize >= count {
                Some(GraphViolation::NeighborOutOfRange { layer: l, node, neighbor })
            } else if !layer.contains(neighbor) {
                Some(GraphViolation::NeighborNotOnLayer { layer: l, node, neighbor })
            } else if !seen.visit(neighbor) {
                Some(GraphViolation::DuplicateNeighbor { layer: l, node, neighbor })
            } else {
                None
            };
            proof {
                assert(neighbors@.take(k as int).to_set().contains(neighbor) <==> neighbors@.take(
                    k as int,
                ).contains(neighbor));
                assert(wrong == inner(k as int));
            }
            if wrong.is_some() {
                proof {
                    lemma_first_hit(neighbors@.len() as int, inner, k as int);
                    lemma_first_hit(nodes@.len() as int, check, slot as int);
                }
                return wrong;
            }
            proof {
                let longer = neighbors@.take(k + 1);
                assert(longer =~= neighbors@.take(k as int).push(neighbor));
                assert(seen@ =~= longer.to_set()) by {
                    assert forall|x: NodeId| longer.to_set().contains(x) == #[trigger] neighbors@.take(
                        k as int,
                    ).to_set().insert(neighbor).contains(x) by {
                        let shorter = neighbors@.take(k as int);
                        if longer.contains(x) {
                            let i = longer.index_of(x);
                            if i < k {
                                assert(shorter[i] == x);
                            }
                        }
                        if shorter.contains(x) {
                            let i = shorter.index_of(x);
                            assert(longer[i] == x);
                        }
                        assert(longer[k as int] == neighbor);
                    }
                }
            }
            k += 1;
        }
        slot += 1;
    }
    None
}

/// Measured properties of one layer.
#[derive(Clone, Copy, Debug, PartialEq, Eq, Structural)]
pub struct LayerStats {
    pub layer: usize,
    pub nodes: usize,
    pub edges: usize,
    pub degree_cap: usize,
    pub min_degree: usize,
    pub max_degree: usize,
    pub isolated: usize,
    /// Directed edges on this layer whose reverse is absent.
    pub asymmetric_edges: usize,
    pub bytes: usize,
}

/// Measured properties of the whole graph.
#[derive(Clone, Debug, PartialEq, Eq)]
pub struct GraphStats {
    pub nodes: usize,
    pub max_layer: usize,
    pub edges: usize,
    /// Directed edges whose reverse is absent. Not a defect: selecting a saturated neighbour's
    /// list anew can drop the edge back to the node that just arrived.
    pub asymmetric_edges: usize,
    pub graph_bytes: usize,
    pub per_layer: Vec<LayerStats>,
}

/// The edges that leave the first `n` nodes of a layer.
pub open spec fn edges_from(layer: Layer, n: int) -> nat
    decreases n,
{
    if n <= 0 {
        0
    } else {
        edges_from(layer, n - 1) + layer@[layer.order()[n - 1]].len()
    }
}

/// Of the first `k` neighbours of `node`, those that do not list it.
pub open spec fn one_way_of(edges: Edges, node: NodeId, k: int) -> nat
    decreases k,
{
    if k <= 0 {
        0
    } else {
        one_way_of(edges, node, k - 1) + if edges[edges[node][k - 1]].contains(node) {
            0nat
        } else {
            1nat
        }
    }
}

/// The edges without a reverse that leave the first `n` nodes of a layer.
pub open spec fn one_way_from(layer: Layer, n: int) -> nat
    decreases n,
{
    if n <= 0 {
        0
    } else {
        let node = layer.order()[n - 1];
        one_way_from(layer, n - 1) + one_way_of(layer@, node, layer@[node].len() as int)
    }
}

/// The nodes without neighbours among the first `n` of a layer.
pub open spec fn isolated_in(layer: Layer, n: int) -> nat
    decreases n,
{
    if n <= 0 {
        0
    } else {
        isolated_in(layer, n - 1) + if layer@[layer.order()[n - 1]].len() == 0 {
            1nat
        } else {
            0nat
        }
    }
}

/// What a layer measures.
pub open spec fn measures(stats: LayerStats, layer: Layer, l: int) -> bool {
    let n = layer.order().len() as int;
    &&& stats.layer == l
    &&& stats.nodes == n
    &&& stats.edges == edges_from(layer, n)
    &&& stats.degree_cap == layer.cap()
    &&& stats.isolated == isolated_in(layer, n)
    &&& layer.takes(stats.bytes)
    &&& stats.asymmetric_edges == one_way_from(layer, n)
    &&& n == 0 ==> stats.min_degree == 0 && stats.max_degree == 0
    &&& forall|i: int|
        0 <= i < n ==> stats.min_degree <= layer@[#[trigger] layer.order()[i]].len()
            <= stats.max_degree
    &&& n > 0 ==> exists|i: int|
        0 <= i < n && layer@[#[trigger] layer.order()[i]].len() == stats.min_degree
    &&& n > 0 ==> exists|i: int|
        0 <= i < n && layer@[#[trigger] layer.order()[i]].len() == stats.max_degree
}

proof fn lemma_edges_bounded(layer: Layer, n: int)
    requires
        layer.wf(),
        0 <= n <= layer.order().len(),
    ensures
        edges_from(layer, n) <= n * layer.cap(),
        one_way_from(layer, n) <= edges_from(layer, n),
    decreases n,
{
    if n > 0 {
        lemma_edges_bounded(layer, n - 1);
        layer.lemma_order();
        let node = layer.order()[n - 1];
        assert(layer.order().contains(node));
        layer.lemma_view(node);
        lemma_one_way_bounded(layer@, node, layer@[node].len() as int);
        assert((n - 1) * layer.cap() + layer.cap() == n * layer.cap()) by (nonlinear_arith);
    }
}

proof fn lemma_one_way_bounded(edges: Edges, node: NodeId, k: int)
    requires
        k >= 0,
    ensures
        one_way_of(edges, node, k) <= k,
    decreases k,
{
    if k > 0 {
        lemma_one_way_bounded(edges, node, k - 1);
    }
}

fn lists(list: &[NodeId], node: NodeId) -> (r: bool)
    ensures
        r == list@.contains(node),
{
    let mut i: usize = 0;
    while i < list.len()
        invariant
            i <= list@.len(),
            forall|j: int| 0 <= j < i ==> list@[j] != node,
        decreases list@.len() - i,
    {
        if list[i] == node {
            return true;
        }
        i += 1;
    }
    false
}

fn layer_stats(index: usize, layer: &Layer) -> (r: LayerStats)
    requires
        layer.wf(),
        layer.capped(),
        closed_under(layer@, layer@.dom()),
        layer.raw().len() <= usize::MAX,
    ensures
        measures(r, *layer, index as int),
{
    let nodes = layer.nodes();
    let mut edges: usize = 0;
    let mut min_degree: usize = usize::MAX;
    let mut max_degree: usize = 0;
    let mut isolated: usize = 0;
    let mut asymmetric_edges: usize = 0;
    proof {
        layer.lemma_order();
        layer.lemma_raw_len();
        layer.lemma_dense_dom();
        assert(layer.order().len() * layer.cap() <= usize::MAX) by (nonlinear_arith)
            requires
                layer.order().len() * (layer.cap() + 1) <= usize::MAX,
                layer.order().len() >= 0,
        ;
    }
    let mut n: usize = 0;
    while n < nodes.len()
        invariant
            n <= nodes@.len(),
            nodes@ == layer.order(),
            layer.wf(),
            layer.capped(),
            layer.cap() < usize::MAX,
            closed_under(layer@, layer@.dom()),
            forall|node: NodeId| #[trigger] nodes@.contains(node) <==> layer@.contains_key(node),
            layer.order().len() * layer.cap() <= usize::MAX,
            edges == edges_from(*layer, n as int),
            isolated == isolated_in(*layer, n as int),
            isolated <= n,
            asymmetric_edges == one_way_from(*layer, n as int),
            forall|i: int|
                0 <= i < n ==> min_degree <= layer@[#[trigger] layer.order()[i]].len() <= max_degree,
            n > 0 ==> exists|i: int|
                0 <= i < n && layer@[#[trigger] layer.order()[i]].len() == min_degree,
            n > 0 ==> exists|i: int|
                0 <= i < n && layer@[#[trigger] layer.order()[i]].len() == max_degree,
            n == 0 ==> min_degree == usize::MAX && max_degree == 0,
        decreases nodes@.len() - n,
    {
        let node: NodeId = nodes[n];
        proof {
            assert(nodes@.contains(node));
            lemma_edges_bounded(*layer, n + 1);
            lemma_edges_bounded(*layer, n as int);
            assert((n + 1) * layer.cap() <= layer.order().len() * layer.cap()) by (nonlinear_arith)
                requires
                    n + 1 <= layer.order().len(),
            ;
        }
        let neighbors = layer.neighbors(node);
        let degree: usize = neighbors.len();
        edges = edges + degree;
        if degree < min_degree {
            min_degree = degree;
        }
        if degree > max_degree {
            max_degree = degree;
        }
        if degree == 0 {
            isolated = isolated + 1;
        }
        let ghost before = asymmetric_edges;
        let mut k: usize = 0;
        while k < neighbors.len()
            invariant
                k <= neighbors@.len(),
                neighbors@ == layer@[node],
                layer.wf(),
                layer.capped(),
                closed_under(layer@, layer@.dom()),
                layer@.contains_key(node),
                before + neighbors@.len() <= usize::MAX,
                asymmetric_edges == before + one_way_of(layer@, node, k as int),
            decreases neighbors@.len() - k,
        {
            let neighbor: NodeId = neighbors[k];
            proof {
                lemma_one_way_bounded(layer@, node, k as int);
                assert(layer@.dom().contains(layer@[node][k as int]));
            }
            if !lists(layer.neighbors(neighbor), node) {
                asymmetric_edges = asymmetric_edges + 1;
            }
            k += 1;
        }
        proof {
            assert(layer.order()[n as int] == node);
            assert(layer@[layer.order()[n as int]].len() == degree);
        }
        n += 1;
    }
    LayerStats {
        layer: index,
        nodes: nodes.len(),
        edges,
        degree_cap: layer.max_degree(),
        min_degree: if nodes.len() == 0 {
            0
        } else {
            min_degree
        },
        max_degree,
        isolated,
        asymmetric_edges,
        bytes: layer.memory_bytes(),
    }
}

/// The positions of edges that leave the first `n` nodes of a layer: a node's place in the order, and
/// a place in its list.
pub open spec fn edge_places(layer: Layer, n: int) -> Set<(int, int)> {
    Set::new(|p: (int, int)| 0 <= p.0 < n && 0 <= p.1 < layer@[layer.order()[p.0]].len())
}

/// The edge at a place leads to a node that does not list the node that it leaves.
pub open spec fn one_way(layer: Layer, p: (int, int)) -> bool {
    let node = layer.order()[p.0];
    !layer@[layer@[node][p.1]].contains(node)
}

proof fn lemma_one_way_counted(edges: Edges, node: NodeId, k: int)
    requires
        0 <= k,
    ensures
        ({
            let there = Set::new(|j: int| 0 <= j < k && !edges[edges[node][j]].contains(node));
            &&& there.finite()
            &&& one_way_of(edges, node, k) == there.len()
        }),
    decreases k,
{
    let there = Set::new(|j: int| 0 <= j < k && !edges[edges[node][j]].contains(node));
    if k == 0 {
        assert(there =~= Set::empty());
    } else {
        let fewer = Set::new(|j: int| 0 <= j < k - 1 && !edges[edges[node][j]].contains(node));
        lemma_one_way_counted(edges, node, k - 1);
        if edges[edges[node][k - 1]].contains(node) {
            assert(there =~= fewer);
        } else {
            assert(there =~= fewer.insert(k - 1));
        }
    }
}

/// What the numbers of a layer count: each place in a list is one edge, each edge whose reverse is
/// absent is one-way, and a node with an empty list is isolated.
pub proof fn lemma_layer_counted(layer: Layer, n: int)
    requires
        0 <= n <= layer.order().len(),
    ensures
        edge_places(layer, n).finite(),
        edges_from(layer, n) == edge_places(layer, n).len(),
        one_way_from(layer, n) == edge_places(layer, n).filter(
            |p: (int, int)| one_way(layer, p),
        ).len(),
        isolated_in(layer, n) == Set::new(
            |i: int| 0 <= i < n && layer@[layer.order()[i]].len() == 0,
        ).len(),
    decreases n,
{
    let all = edge_places(layer, n);
    let single = all.filter(|p: (int, int)| one_way(layer, p));
    let alone = Set::new(|i: int| 0 <= i < n && layer@[layer.order()[i]].len() == 0);
    if n == 0 {
        assert(all =~= Set::empty());
        assert(single =~= Set::empty());
        assert(alone =~= Set::empty());
    } else {
        let m = n - 1;
        lemma_layer_counted(layer, m);
        let node = layer.order()[m];
        let list = layer@[node];
        let places = vstd::set_lib::set_int_range(0, list.len() as int);
        vstd::set_lib::lemma_int_range(0, list.len() as int);
        lemma_in_row(places, m);
        let here = Set::new(|p: (int, int)| p.0 == m && places.contains(p.1));
        assert(all =~= edge_places(layer, m).union(here));
        lemma_apart(edge_places(layer, m), here);
        let apart = Set::new(|j: int| 0 <= j < list.len() && !layer@[layer@[node][j]].contains(node));
        lemma_one_way_counted(layer@, node, list.len() as int);
        lemma_in_row(apart, m);
        let here_apart = Set::new(|p: (int, int)| p.0 == m && apart.contains(p.1));
        let fewer = edge_places(layer, m).filter(|p: (int, int)| one_way(layer, p));
        assert(fewer.subset_of(edge_places(layer, m)));
        vstd::set_lib::lemma_len_subset(fewer, edge_places(layer, m));
        assert(single =~= fewer.union(here_apart));
        lemma_apart(fewer, here_apart);
        let fewer_alone = Set::new(|i: int| 0 <= i < m && layer@[layer.order()[i]].len() == 0);
        let range = vstd::set_lib::set_int_range(0, m);
        vstd::set_lib::lemma_int_range(0, m);
        assert(fewer_alone.subset_of(range));
        vstd::set_lib::lemma_len_subset(fewer_alone, range);
        if list.len() == 0 {
            assert(alone =~= fewer_alone.insert(m));
        } else {
            assert(alone =~= fewer_alone);
        }
    }
}

/// The edges of the first `n` layers.
pub open spec fn all_edges(layers: Seq<Layer>, n: int) -> nat
    decreases n,
{
    if n <= 0 {
        0
    } else {
        all_edges(layers, n - 1) + edges_from(layers[n - 1], layers[n - 1].order().len() as int)
    }
}

/// The edges without a reverse of the first `n` layers.
pub open spec fn all_one_way(layers: Seq<Layer>, n: int) -> nat
    decreases n,
{
    if n <= 0 {
        0
    } else {
        all_one_way(layers, n - 1) + one_way_from(layers[n - 1], layers[n - 1].order().len() as int)
    }
}

proof fn lemma_all_edges_grow(layers: Seq<Layer>, n: int, m: int)
    requires
        0 <= n <= m <= layers.len(),
        forall|l: int| 0 <= l < layers.len() ==> (#[trigger] layers[l]).wf(),
    ensures
        all_edges(layers, n) <= all_edges(layers, m),
        all_one_way(layers, m) <= all_edges(layers, m),
    decreases m,
{
    if m > 0 {
        assert(layers[m - 1].wf());
        lemma_edges_bounded(layers[m - 1], layers[m - 1].order().len() as int);
        if n < m {
            lemma_all_edges_grow(layers, n, m - 1);
        } else {
            lemma_all_edges_grow(layers, m - 1, m - 1);
        }
    }
}

/// What the numbers of a graph count: the edges, and the edges without a reverse, of all its layers.
pub proof fn lemma_graph_counted(layers: Seq<Layer>, n: int)
    requires
        0 <= n <= layers.len(),
    ensures
        ({
            let places = Set::new(
                |p: (int, (int, int))|
                    0 <= p.0 < n && edge_places(
                        layers[p.0],
                        layers[p.0].order().len() as int,
                    ).contains(p.1),
            );
            let single = Set::new(
                |p: (int, (int, int))| places.contains(p) && one_way(layers[p.0], p.1),
            );
            &&& places.finite() && single.finite()
            &&& all_edges(layers, n) == places.len()
            &&& all_one_way(layers, n) == single.len()
        }),
    decreases n,
{
    let places = Set::new(
        |p: (int, (int, int))|
            0 <= p.0 < n && edge_places(layers[p.0], layers[p.0].order().len() as int).contains(
                p.1,
            ),
    );
    let single = Set::new(|p: (int, (int, int))| places.contains(p) && one_way(layers[p.0], p.1));
    if n == 0 {
        assert(places =~= Set::empty());
        assert(single =~= Set::empty());
    } else {
        let m = n - 1;
        lemma_graph_counted(layers, m);
        let fewer = Set::new(
            |p: (int, (int, int))|
                0 <= p.0 < m && edge_places(layers[p.0], layers[p.0].order().len() as int).contains(
                    p.1,
                ),
        );
        let fewer_single = Set::new(
            |p: (int, (int, int))| fewer.contains(p) && one_way(layers[p.0], p.1),
        );
        let layer = layers[m];
        let size = layer.order().len() as int;
        lemma_layer_counted(layer, size);
        let all = edge_places(layer, size);
        let apart = all.filter(|p: (int, int)| one_way(layer, p));
        assert(apart.subset_of(all));
        vstd::set_lib::lemma_len_subset(apart, all);
        lemma_in_row(all, m);
        lemma_in_row(apart, m);
        let here = Set::new(|p: (int, (int, int))| p.0 == m && all.contains(p.1));
        let here_apart = Set::new(|p: (int, (int, int))| p.0 == m && apart.contains(p.1));
        assert(places =~= fewer.union(here));
        assert(single =~= fewer_single.union(here_apart));
        lemma_apart(fewer, here);
        lemma_apart(fewer_single, here_apart);
    }
}

/// No layer has an edge that leads out of it.
pub open spec fn contained(layers: Seq<Edges>) -> bool {
    forall|l: int| 0 <= l < layers.len() ==> closed_under(#[trigger] layers[l], layers[l].dom())
}

impl<'a> HnswIndex<'a> {
    /// Measures the graph: degree distribution per layer, memory, and edge asymmetry.
    pub fn graph_stats(&self) -> (r: GraphStats)
        requires
            self.wf(),
            self.capped(),
            contained(self@.layers),
            all_edges(self.all_layers(), self.all_layers().len() as int) <= usize::MAX,
        ensures
            r.nodes == self@.vecs.len(),
            r.max_layer == self@.top,
            r.edges == all_edges(self.all_layers(), self.all_layers().len() as int),
            r.asymmetric_edges == all_one_way(self.all_layers(), self.all_layers().len() as int),
            graph_takes(self.all_layers(), self@.levels.len(), r.graph_bytes),
            r.per_layer@.len() == self.all_layers().len(),
            forall|l: int|
                0 <= l < r.per_layer@.len() ==> measures(
                    #[trigger] r.per_layer@[l],
                    self.all_layers()[l],
                    l,
                ),
    {
        proof {
            self.lemma_wf();
        }
        let layers = self.layers();
        let ghost all = self.all_layers();
        let mut per_layer: Vec<LayerStats> = Vec::with_capacity(layers.len());
        let mut edges: usize = 0;
        let mut asymmetric_edges: usize = 0;
        let mut l: usize = 0;
        while l < layers.len()
            invariant
                l <= layers@.len(),
                layers@ == all,
                all == self.all_layers(),
                self.capped(),
                contained(self@.layers),
                self@.layers.len() == all.len(),
                forall|k: int| 0 <= k < all.len() ==> (#[trigger] all[k]).wf() && all[k].cap()
                    == self.settings().cap(k) && self@.layers[k] == all[k]@,
                all_edges(all, all.len() as int) <= usize::MAX,
                edges == all_edges(all, l as int),
                asymmetric_edges == all_one_way(all, l as int),
                per_layer@.len() == l,
                forall|k: int|
                    0 <= k < l ==> measures(#[trigger] per_layer@[k], all[k], k),
            decreases layers@.len() - l,
        {
            proof {
                assert(all[l as int].wf());
                assert(all[l as int].capped());
                assert(closed_under(self@.layers[l as int], self@.layers[l as int].dom()));
                lemma_all_edges_grow(all, l + 1, all.len() as int);
                lemma_all_edges_grow(all, l + 1, l + 1);
            }
            let raw: usize = layers[l].raw_neighbors().len();
            let stats = layer_stats(l, &layers[l]);
            edges = edges + stats.edges;
            asymmetric_edges = asymmetric_edges + stats.asymmetric_edges;
            per_layer.push(stats);
            l += 1;
        }
        GraphStats {
            nodes: self.len(),
            max_layer: self.max_layer(),
            edges,
            asymmetric_edges,
            graph_bytes: self.graph_bytes(),
            per_layer,
        }
    }
}

/// What the numbers of a layer say: how many nodes it has, how many places their lists have in use,
/// how many of those hold an edge without a reverse, how many lists are empty, and the lengths of
/// the shortest and the longest.
pub proof fn lemma_measured(stats: LayerStats, layer: Layer, l: int)
    requires
        layer.wf(),
        measures(stats, layer, l),
    ensures
        ({
            &&& stats.layer == l
            &&& stats.nodes == layer@.dom().len()
            &&& stats.degree_cap == layer.cap()
            &&& forall|n: NodeId| #[trigger]
                layer@.contains_key(n) ==> stats.min_degree <= layer@[n].len() <= stats.max_degree
            &&& stats.nodes > 0 ==> exists|n: NodeId| #[trigger]
                layer@.contains_key(n) && layer@[n].len() == stats.min_degree
            &&& stats.nodes > 0 ==> exists|n: NodeId| #[trigger]
                layer@.contains_key(n) && layer@[n].len() == stats.max_degree
            &&& stats.edges == edge_places(layer, layer.order().len() as int).len()
            &&& stats.asymmetric_edges == edge_places(layer, layer.order().len() as int).filter(
                |p: (int, int)| one_way(layer, p),
            ).len()
            &&& stats.isolated == Set::new(
                |i: int| 0 <= i < layer.order().len() && layer@[layer.order()[i]].len() == 0,
            ).len()
        }),
{
    let n = layer.order().len() as int;
    layer.lemma_order();
    lemma_layer_counted(layer, n);
    assert(edge_places(layer, n).filter(|p: (int, int)| one_way(layer, p)) =~= edge_places(
        layer,
        layer.order().len() as int,
    ).filter(|p: (int, int)| one_way(layer, p)));
    assert(stats.edges == edge_places(layer, layer.order().len() as int).len());
    assert(stats.nodes == layer@.dom().len());
    assert(Set::new(|i: int| 0 <= i < n && layer@[layer.order()[i]].len() == 0) =~= Set::new(
        |i: int| 0 <= i < layer.order().len() && layer@[layer.order()[i]].len() == 0,
    ));
    assert forall|m: NodeId| #[trigger] layer@.contains_key(m) implies stats.min_degree
        <= layer@[m].len() <= stats.max_degree by {
        let i = choose|i: int| 0 <= i < n && layer.order()[i] == m;
        assert(layer@[layer.order()[i]].len() >= stats.min_degree);
    }
    if n > 0 {
        let i = choose|i: int|
            0 <= i < n && layer@[#[trigger] layer.order()[i]].len() == stats.min_degree;
        assert(layer@.contains_key(layer.order()[i]));
        let j = choose|i: int|
            0 <= i < n && layer@[#[trigger] layer.order()[i]].len() == stats.max_degree;
        assert(layer@.contains_key(layer.order()[j]));
    }
}

} // verus!
