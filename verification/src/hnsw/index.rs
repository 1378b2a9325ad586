//! Insert, and the top-level search.

use vstd::prelude::*;

use crate::bits;
use crate::candidate::{self, ascending, in_order, Candidate};
use crate::error::{IndexError, VectorError};
use crate::first::{first_of, lemma_first_hit, lemma_first_none};
use crate::hnsw::cost::{
    connection_cost, descent_cost, insertion_cost, link_cost, linking_cost, reselection_cost,
    search_cost,
};
use crate::hnsw::graph::{
    self, all_connected, answer, connected, descended, entries_ok, framed, grown, inserted, linked,
    linked_on, list_ok, lists_ok, measured, near, next_entries, picked, reselected, sound, stacked,
    waiting, wired, Edges, Graph,
};
use crate::hnsw::layer::Layer;
use crate::hnsw::params::{draws, guarded, HnswParams, LevelGenerator, MAX_LEVEL};
use crate::hnsw::search::{self, found_by, scored_by, walkable, Searcher};
use crate::hnsw::select::{self, ids_of, select_neighbors};
use crate::hnsw::stats::{counted, lemma_counted, Count};
use crate::mem::{self, clamped};
use crate::metric::{stands_for, Metric, MetricKind};
use crate::vector_store::{self, VectorStore};
use crate::NodeId;

verus! {

/// A hierarchical navigable small world graph over its vectors.
///
/// Inserting appends to the store, so a node's id is its position.
#[derive(Debug)]
pub struct HnswIndex<'a> {
    vectors: VectorStore<'a>,
    params: HnswParams,
    metric: MetricKind,
    /// Layer 0 is dense; every layer above it is sparse.
    layers: Vec<Layer>,
    /// Highest layer each node reaches, by node id.
    node_levels: Vec<u8>,
    entry_point: Option<NodeId>,
    max_layer: usize,
    levels: LevelGenerator,
}

/// Everything an index is made of, as a snapshot holds it.
#[derive(Debug)]
pub struct IndexParts<'a> {
    pub vectors: VectorStore<'a>,
    pub params: HnswParams,
    pub metric: MetricKind,
    pub layers: Vec<Layer>,
    pub node_levels: Vec<u8>,
    pub entry_point: Option<NodeId>,
    pub max_layer: usize,
    pub levels_drawn: u64,
}

pub open spec fn edges_of(layers: Seq<Layer>) -> Seq<Edges> {
    layers.map_values(|layer: Layer| layer@)
}

/// The layers fit the parameters and the number of nodes.
pub open spec fn layers_fit(layers: Seq<Layer>, params: HnswParams, size: nat) -> bool {
    &&& layers.len() >= 1
    &&& layers[0].slots() == size
    &&& forall|l: int|
        0 <= l < layers.len() ==> {
            &&& (#[trigger] layers[l]).wf()
            &&& layers[l].cap() == params.cap(l)
            &&& layers[l].dense_spec() == (l == 0)
        }
    &&& forall|l: int, node: NodeId|
        0 <= l < layers.len() && #[trigger] layers[l]@.contains_key(node) ==> node < size
}

impl<'a> View for HnswIndex<'a> {
    type V = Graph;

    closed spec fn view(&self) -> Graph {
        Graph {
            vecs: self.vectors.all(),
            levels: self.node_levels@,
            layers: edges_of(self.layers@),
            entry: self.entry_point,
            top: self.max_layer as nat,
        }
    }
}

/// Every layer can be walked, and its nodes are on the layer below it too.
pub open spec fn laddered(layers: Seq<Layer>, size: nat) -> bool {
    &&& forall|l: int| 0 <= l < layers.len() ==> walkable(&#[trigger] layers[l], size)
    &&& forall|l: int, node: NodeId|
        1 <= l < layers.len() && #[trigger] layers[l]@.contains_key(node) ==> layers[l
            - 1]@.contains_key(node)
}

/// Descending through such layers stays on them.
proof fn lemma_descends<M: Metric>(
    layers: Seq<Layer>,
    vecs: Seq<Seq<u32>>,
    q: Seq<u32>,
    from: nat,
    stop: nat,
    entries: Seq<NodeId>,
)
    requires
        laddered(layers, vecs.len()),
        from < layers.len(),
        entries.len() >= 1,
        forall|i: int| 0 <= i < entries.len() ==> layers[from as int]@.contains_key(
            #[trigger] entries[i],
        ),
    ensures
        ({
            let end = if from <= stop {
                from as int
            } else {
                stop as int
            };
            let r = descended::<M>(vecs, edges_of(layers), q, from, stop, entries);
            &&& r.len() >= 1
            &&& forall|i: int| 0 <= i < r.len() ==> layers[end]@.contains_key(#[trigger] r[i])
        }),
    decreases from,
{
    if from > stop {
        let edges = layers[from as int]@;
        let found = found_by::<M>(q, vecs, edges, entries, 1);
        assert(edges_of(layers)[from as int] == edges);
        lemma_found_there::<M>(&layers[from as int], vecs, q, entries, 1);
        let next = seq![found[0].id];
        assert(layers[from as int]@.contains_key(found[0].id));
        lemma_descends::<M>(layers, vecs, q, (from - 1) as nat, stop, next);
    }
}

/// A search on a layer that can be walked finds something, on that layer.
proof fn lemma_found_there<M: Metric>(
    layer: &Layer,
    vecs: Seq<Seq<u32>>,
    q: Seq<u32>,
    entries: Seq<NodeId>,
    ef: nat,
)
    requires
        walkable(layer, vecs.len()),
        entries.len() >= 1,
        ef >= 1,
        forall|i: int| 0 <= i < entries.len() ==> layer@.contains_key(#[trigger] entries[i]),
    ensures
        ({
            let found = found_by::<M>(q, vecs, layer@, entries, ef);
            &&& 1 <= found.len() <= ef
            &&& ascending(found)
            &&& forall|i: int|
                0 <= i < found.len() ==> (#[trigger] found[i]) == search::score::<M>(
                    q,
                    vecs,
                    found[i].id,
                ) && layer@.contains_key(found[i].id)
        }),
{
    assert(entries.to_set().subset_of(layer@.dom())) by {
        assert forall|n: NodeId| entries.to_set().contains(n) implies layer@.dom().contains(n) by {
            let i = entries.index_of(n);
            assert(layer@.contains_key(entries[i]));
        }
    }
    search::lemma_found::<M>(q, vecs, layer@, entries, ef, layer@.dom());
}

/// The sum of some sizes.
pub open spec fn total_of(sizes: Seq<usize>) -> nat
    decreases sizes.len(),
{
    if sizes.len() == 0 {
        0
    } else {
        total_of(sizes.drop_last()) + sizes.last() as nat
    }
}

/// What a graph takes: its layers, and one byte for each level that there is room for.
pub open spec fn graph_total(levels: usize, layers: Seq<usize>) -> usize {
    clamped(levels + total_of(layers))
}

/// The bytes that a graph takes with room for `levels` levels and with these sizes of its layers,
/// or the largest number there is.
pub fn graph_bytes_of(levels: usize, layers: &[usize]) -> (r: usize)
    ensures
        r == graph_total(levels, layers@),
{
    let mut total: usize = levels;
    let mut l: usize = 0;
    proof {
        assert(layers@.take(0) =~= Seq::empty());
    }
    while l < layers.len()
        invariant
            l <= layers@.len(),
            total == graph_total(levels, layers@.take(l as int)),
        decreases layers@.len() - l,
    {
        proof {
            assert(layers@.take(l + 1).drop_last() =~= layers@.take(l as int));
        }
        total = total.saturating_add(layers[l]);
        l += 1;
    }
    proof {
        assert(layers@.take(l as int) =~= layers@);
    }
    total
}

/// These layers and levels can take this many bytes: what they take with some room in each of
/// their tables, which is at least what is in use.
pub open spec fn graph_takes(layers: Seq<Layer>, levels: nat, bytes: usize) -> bool {
    exists|room: usize, sizes: Seq<usize>| #[trigger]
        graph_total(room, sizes) == bytes && room >= levels && sizes.len() == layers.len()
            && forall|l: int| 0 <= l < layers.len() ==> layers[l].takes(#[trigger] sizes[l])
}

impl<'a> HnswIndex<'a> {
    pub closed spec fn settings(&self) -> HnswParams {
        self.params
    }

    pub closed spec fn kind(&self) -> MetricKind {
        self.metric
    }

    /// The dimension.
    pub closed spec fn width(&self) -> nat {
        self.vectors.width()
    }

    pub closed spec fn store(&self) -> VectorStore<'a> {
        self.vectors
    }

    pub closed spec fn all_layers(&self) -> Seq<Layer> {
        self.layers@
    }

    /// The state of the level generator.
    pub closed spec fn level_state(&self) -> (u64, bool, u64) {
        self.levels.state()
    }

    spec fn parts_fit(&self) -> bool {
        &&& self.vectors.wf()
        &&& self.params.wf()
        &&& self.params.base_cap() < usize::MAX
        &&& self.levels.wf()
        &&& self.levels.state().0 == self.params.origin()
        &&& self.levels.state().1 == (self.params.links() == 1)
        &&& self.node_levels@.len() == self.vectors.size()
        &&& layers_fit(self.layers@, self.params, self.vectors.size())
    }

    /// The parts of the index fit together.
    pub closed spec fn wf(&self) -> bool {
        &&& self.parts_fit()
        &&& self.layers@.len() == self.max_layer + 1
        &&& self.vectors.size() == 0 ==> self.max_layer == 0
        &&& match self.entry_point {
            None => true,
            Some(entry) => entry < self.vectors.size(),
        }
    }

    /// No slot of any layer holds more neighbours than it has room for.
    pub open spec fn capped(&self) -> bool {
        forall|l: int| 0 <= l < self.all_layers().len() ==> (#[trigger] self.all_layers()[l]).capped()
    }

    /// The index is one that inserts could have built: its parts fit, and its graph is sound.
    pub open spec fn valid(&self) -> bool {
        &&& self.wf()
        &&& self.capped()
        &&& sound(self@, self.settings())
    }

    /// Vectors can be inserted: the graph may have isolated nodes, but nothing that linking would
    /// stumble over.
    pub open spec fn insertable(&self) -> bool {
        &&& self.wf()
        &&& self.capped()
        &&& framed(self@, self.settings())
    }

    /// A search can walk the graph: every layer, from the entry point on the topmost one down. This
    /// is less than soundness: lists may be longer than they need to be, nodes may be cut off.
    pub open spec fn searchable(&self) -> bool {
        &&& self.wf()
        &&& laddered(self.all_layers(), self@.vecs.len())
        &&& match self@.entry {
            None => true,
            Some(entry) => self@.layers[self@.top as int].contains_key(entry),
        }
    }

    /// One more node fits into the address space.
    pub open spec fn has_room(&self) -> bool {
        (self@.vecs.len() + 1) * (self.settings().base_cap() + 1) <= usize::MAX
    }

    /// What well-formedness means for the view.
    pub proof fn lemma_wf(&self)
        requires
            self.wf(),
        ensures
            self.settings().wf(),
            self.settings().base_cap() < usize::MAX,
            self.store().wf(),
            self@.vecs == self.store().all(),
            self@.vecs.len() == self.store().size(),
            self@.vecs.len() <= u32::MAX,
            self@.levels.len() == self@.vecs.len(),
            self@.layers == edges_of(self.all_layers()),
            self@.layers.len() == self@.top + 1,
            self.all_layers().len() == self@.top + 1,
            self@.top <= usize::MAX,
            layers_fit(self.all_layers(), self.settings(), self@.vecs.len()),
            1 <= self.width() <= vector_store::MAX_DIM,
            self.store().width() == self.width(),
            forall|i: int|
                0 <= i < self@.vecs.len() ==> (#[trigger] self@.vecs[i]).len() == self.width(),
            self.level_state().0 == self.settings().origin(),
            self.level_state().1 == (self.settings().links() == 1),
            self@.vecs.len() == 0 ==> self@.top == 0,
            match self@.entry {
                None => true,
                Some(entry) => entry < self@.vecs.len(),
            },
    {
        self.vectors.lemma_wf();
    }

    /// A layer of a sound graph can be searched.
    proof fn lemma_walkable(&self, l: int)
        requires
            self.parts_fit(),
            self.capped(),
            stacked(self@),
            wired(self@, self.params),
            0 <= l < self.layers@.len(),
        ensures
            walkable(&self.layers@[l], self.vectors.size()),
    {
        let edges = self@.layers[l];
        assert(edges == self.layers@[l]@);
        assert(self.all_layers()[l].capped());
        assert(lists_ok(self@.layers[l], self.params.cap(l)));
        assert forall|n: NodeId, i: int|
            edges.dom().contains(n) && edges.contains_key(n) && 0 <= i < edges[n].len() implies edges.dom().contains(
            #[trigger] edges[n][i],
        ) by {
            assert(list_ok(edges, n, self.params.cap(l)));
            assert(edges.contains_key(edges[n][i]));
        }
    }

    /// All layers of a sound graph can be searched from the top down.
    proof fn lemma_laddered(&self)
        requires
            self.parts_fit(),
            self.capped(),
            stacked(self@),
            wired(self@, self.params),
        ensures
            laddered(self.layers@, self.vectors.size()),
    {
        assert forall|l: int| 0 <= l < self.layers@.len() implies walkable(
            &#[trigger] self.layers@[l],
            self.vectors.size(),
        ) by {
            self.lemma_walkable(l);
        }
        assert forall|l: int, node: NodeId|
            1 <= l < self.layers@.len() && #[trigger] self.layers@[l]@.contains_key(
                node,
            ) implies self.layers@[l - 1]@.contains_key(node) by {
            assert(self@.layers[l] == self.layers@[l]@);
            assert(self@.layers[l - 1] == self.layers@[l - 1]@);
            assert(self@.layers[l].contains_key(node));
            assert(self@.layers[l - 1].contains_key(node));
        }
    }

    /// An index that vectors can be inserted into can be searched.
    pub proof fn lemma_searchable(&self)
        requires
            self.insertable(),
        ensures
            self.searchable(),
    {
        self.lemma_wf();
        self.lemma_laddered();
        if self@.entry is Some {
            assert(self@.layers[self@.top as int].contains_key(self@.entry->0));
        }
    }

    pub fn new(dim: usize, metric: MetricKind, params: HnswParams) -> (r: Result<Self, IndexError>)
        requires
            params.wf(),
            params.base_cap() < usize::MAX,
        ensures
            match r {
                Ok(index) => {
                    &&& vector_store::dim_error(dim as int) is None
                    &&& index.valid()
                    &&& index@ == empty_graph()
                    &&& index.width() == dim
                    &&& index.kind() == metric
                    &&& index.settings() == params
                    &&& index.level_state() == (params.origin(), params.links() == 1, 0u64)
                },
                Err(e) => match vector_store::dim_error(dim as int) {
                    Some(v) => e == IndexError::Vector(v),
                    None => false,
                },
            },
    {
        HnswIndex::with_capacity(dim, metric, params, 0)
    }

    pub fn with_capacity(
        dim: usize,
        metric: MetricKind,
        params: HnswParams,
        capacity: usize,
    ) -> (r: Result<Self, IndexError>)
        requires
            params.wf(),
            params.base_cap() < usize::MAX,
            capacity * (params.base_cap() + 1) <= usize::MAX,
        ensures
            match r {
                Ok(index) => {
                    &&& vector_store::dim_error(dim as int) is None
                    &&& index.valid()
                    &&& index@ == empty_graph()
                    &&& index.width() == dim
                    &&& index.kind() == metric
                    &&& index.settings() == params
                    &&& index.level_state() == (params.origin(), params.links() == 1, 0u64)
                },
                Err(e) => match vector_store::dim_error(dim as int) {
                    Some(v) => e == IndexError::Vector(v),
                    None => false,
                },
            },
    {
        let vectors = match VectorStore::empty(dim) {
            Err(e) => {
                return Err(IndexError::Vector(e));
            },
            Ok(vectors) => vectors,
        };
        let mut layers: Vec<Layer> = Vec::new();
        layers.push(Layer::dense(params.max_degree(0), capacity));
        let index = HnswIndex {
            vectors,
            params,
            metric,
            layers,
            node_levels: Vec::new(),
            entry_point: None,
            max_layer: 0,
            levels: params.level_generator(),
        };
        proof {
            index.vectors.lemma_wf();
            assert(index@.layers =~= empty_graph().layers);
            assert(index@.vecs =~= empty_graph().vecs);
            assert(index@.levels =~= empty_graph().levels);
        }
        Ok(index)
    }

    pub fn dim(&self) -> (r: usize)
        ensures
            r == self.width(),
    {
        self.vectors.dim()
    }

    pub fn len(&self) -> (r: usize)
        ensures
            r == self@.vecs.len(),
    {
        self.vectors.len()
    }

    pub fn is_empty(&self) -> (r: bool)
        ensures
            r == (self@.vecs.len() == 0),
    {
        self.vectors.is_empty()
    }

    pub fn params(&self) -> (r: &HnswParams)
        ensures
            *r == self.settings(),
    {
        &self.params
    }

    pub fn metric(&self) -> (r: MetricKind)
        ensures
            r == self.kind(),
    {
        self.metric
    }

    pub fn max_layer(&self) -> (r: usize)
        ensures
            r == self@.top,
    {
        self.max_layer
    }

    pub fn entry_point(&self) -> (r: Option<NodeId>)
        ensures
            r == self@.entry,
    {
        self.entry_point
    }

    pub fn vectors(&self) -> (r: &VectorStore<'a>)
        ensures
            *r == self.store(),
            r.all() == self@.vecs,
    {
        &self.vectors
    }

    pub fn layers(&self) -> (r: &[Layer])
        ensures
            r@ == self.all_layers(),
            r@.len() == self@.layers.len(),
            forall|l: int| 0 <= l < r@.len() ==> (#[trigger] r@[l])@ == self@.layers[l],
    {
        self.layers.as_slice()
    }

    /// Highest layer `node` reaches.
    pub fn level_of(&self, node: NodeId) -> (r: Option<usize>)
        ensures
            match r {
                Some(level) => node < self@.levels.len() && level == self@.levels[node as int],
                None => node >= self@.levels.len(),
            },
    {
        if (node as usize) < self.node_levels.len() {
            Some(self.node_levels[node as usize] as usize)
        } else {
            None
        }
    }

    /// How many levels have been drawn. Inserting at an explicit level draws none, so this is not
    /// the number of vectors.
    pub fn levels_drawn(&self) -> (r: u64)
        ensures
            r == self.level_state().2,
    {
        self.levels.drawn()
    }

    /// Bytes held by the graph, excluding the vectors. How much room the allocator gave each table
    /// beyond what is in use is not said.
    pub fn graph_bytes(&self) -> (r: usize)
        ensures
            graph_takes(self.all_layers(), self@.levels.len(), r),
    {
        let mut sizes: Vec<usize> = Vec::with_capacity(self.layers.len());
        let mut l: usize = 0;
        while l < self.layers.len()
            invariant
                l <= self.layers@.len(),
                sizes@.len() == l,
                forall|k: int| 0 <= k < l ==> self.layers@[k].takes(#[trigger] sizes@[k]),
            decreases self.layers@.len() - l,
        {
            sizes.push(self.layers[l].memory_bytes());
            l += 1;
        }
        graph_bytes_of(mem::capacity_of(&self.node_levels), sizes.as_slice())
    }

    /// A searcher sized for this index.
    pub fn searcher(&self) -> (r: Searcher)
        ensures
            r.wf(),
            r.room() == if self@.vecs.len() == 0 {
                1
            } else {
                self@.vecs.len()
            },
    {
        let count: usize = self.len();
        Searcher::new(if count == 0 {
            1
        } else {
            count
        })
    }

    /// Draws the level of the next vector, without inserting one.
    pub fn draw_level<F: Fn(u64) -> usize>(&mut self, scale: &F) -> (level: usize)
        requires
            old(self).wf(),
            old(self).level_state().2 < u64::MAX,
            forall|w: u64| call_requires(*scale, (w,)),
        ensures
            draws(old(self).level_state(), *scale, level),
            level <= MAX_LEVEL,
            final(self).wf(),
            final(self)@ == old(self)@,
            old(self).capped() ==> final(self).capped(),
            final(self).all_layers() == old(self).all_layers(),
            final(self).store() == old(self).store(),
            final(self).settings() == old(self).settings(),
            final(self).kind() == old(self).kind(),
            final(self).width() == old(self).width(),
            final(self).level_state() == (
                old(self).level_state().0,
                old(self).level_state().1,
                (old(self).level_state().2 + 1) as u64,
            ),
    {
        let level: usize = self.levels.next_level(scale);
        proof {
            assert(self.all_layers() == old(self).all_layers());
        }
        level
    }

    /// Greedy descent from layer `from` to just above layer `stop`, with a beam of one.
    fn descend<M: Metric>(
        &self,
        searcher: &mut Searcher,
        query: &[u32],
        from: usize,
        stop: usize,
        entry: NodeId,
        counter: &mut impl Count,
    ) -> (entries: Vec<NodeId>)
        requires
            self.parts_fit(),
            laddered(self.layers@, self.vectors.size()),
            old(searcher).wf(),
            self.vectors.size() <= old(searcher).room(),
            query@.len() == self.vectors.width(),
            from < self.layers@.len(),
            self.layers@[from as int]@.contains_key(entry),
        ensures
            final(searcher).wf(),
            final(searcher).room() == old(searcher).room(),
            entries@ == descended::<M>(
                self@.vecs,
                self@.layers,
                query@,
                from as nat,
                stop as nat,
                seq![entry],
            ),
            final(counter).total() == counted(
                old(counter).total(),
                descent_cost::<M>(
                    self@.vecs,
                    self@.layers,
                    query@,
                    from as nat,
                    stop as nat,
                    seq![entry],
                ),
            ),
    {
        let ghost before = counter.total();
        let ghost mut spent: nat = 0;
        let mut entries: Vec<NodeId> = Vec::new();
        entries.push(entry);
        let mut lc: usize = from;
        proof {
            assert(entries@ =~= seq![entry]);
        }
        while lc > stop
            invariant
                lc <= from,
                self.parts_fit(),
                laddered(self.layers@, self.vectors.size()),
                searcher.wf(),
                searcher.room() == old(searcher).room(),
                self.vectors.size() <= old(searcher).room(),
                query@.len() == self.vectors.width(),
                from < self.layers@.len(),
                entries@.len() >= 1,
                forall|i: int|
                    0 <= i < entries@.len() ==> self.layers@[lc as int]@.contains_key(
                        #[trigger] entries@[i],
                    ),
                descended::<M>(
                    self@.vecs,
                    self@.layers,
                    query@,
                    lc as nat,
                    stop as nat,
                    entries@,
                ) == descended::<M>(
                    self@.vecs,
                    self@.layers,
                    query@,
                    from as nat,
                    stop as nat,
                    seq![entry],
                ),
                counter.total() == counted(before, spent),
                spent + descent_cost::<M>(
                    self@.vecs,
                    self@.layers,
                    query@,
                    lc as nat,
                    stop as nat,
                    entries@,
                ) == descent_cost::<M>(
                    self@.vecs,
                    self@.layers,
                    query@,
                    from as nat,
                    stop as nat,
                    seq![entry],
                ),
            decreases lc,
        {
            proof {
                assert(self@.layers[lc as int] == self.layers@[lc as int]@);
                let layer = &self.layers@[lc as int];
                let size = self.vectors.size();
                assert(walkable(layer, size));
                search::lemma_stays_below(layer, entries@, size, size);
                search::lemma_stays_below(layer, entries@, size, searcher.room());
                lemma_found_there::<M>(
                    &self.layers@[lc as int],
                    self@.vecs,
                    query@,
                    entries@,
                    1,
                );
            }
            let found = searcher.search_layer::<M>(
                &self.vectors,
                &self.layers[lc],
                query,
                entries.as_slice(),
                1,
                counter,
            );
            let mut next: Vec<NodeId> = Vec::new();
            next.push(found[0].id);
            proof {
                assert(next@ =~= seq![found@[0].id]);
                assert(self.layers@[lc as int]@.contains_key(found@[0].id));
                assert(self.layers@[lc - 1]@.contains_key(found@[0].id));
                let here = scored_by::<M>(
                    query@,
                    self@.vecs,
                    self@.layers[lc as int],
                    entries@,
                    1,
                );
                lemma_counted(before, spent, here);
                spent = spent + here;
            }
            entries = next;
            lc = lc - 1;
        }
        entries
    }

    /// The `k` nearest neighbours of `query`.
    ///
    /// `ef` is the width of the beam on layer 0, and is never less than `k`.
    pub fn search<M: Metric>(
        &self,
        searcher: &mut Searcher,
        query: &[u32],
        k: usize,
        ef: usize,
        counter: &mut impl Count,
    ) -> (r: Result<Vec<Candidate>, IndexError>)
        requires
            self.searchable(),
            stands_for::<M>(self.kind()),
            old(searcher).wf(),
        ensures
            final(searcher).wf(),
            match r {
                Ok(found) => query@.len() == self.width() && found@ == answer::<M>(
                    self@,
                    query@,
                    k as nat,
                    ef as nat,
                ),
                Err(e) => query@.len() != self.width() && e == (IndexError::DimMismatch {
                    expected: self.width() as usize,
                    found: query@.len() as usize,
                }),
            },
            final(counter).total() == counted(
                old(counter).total(),
                if r is Ok {
                    search_cost::<M>(self@, query@, k as nat, ef as nat)
                } else {
                    0
                },
            ),
    {
        proof {
            lemma_counted(counter.total(), 0, 0);
        }
        if query.len() != self.dim() {
            return Err(IndexError::DimMismatch { expected: self.dim(), found: query.len() });
        }
        let entry: NodeId = match self.entry_point {
            None => {
                return Ok(Vec::new());
            },
            Some(entry) => entry,
        };
        if k == 0 {
            return Ok(Vec::new());
        }
        let beam: usize = if ef < k {
            k
        } else {
            ef
        };
        proof {
            self.lemma_wf();
            assert(self@.layers[self@.top as int] == self.layers@[self@.top as int]@);
        }
        searcher.ensure_capacity(self.len());
        let entries = self.descend::<M>(searcher, query, self.max_layer, 0, entry, counter);
        proof {
            lemma_descends::<M>(
                self.layers@,
                self@.vecs,
                query@,
                self@.top,
                0,
                seq![entry],
            );
            let layer = &self.layers@[0];
            let size = self.vectors.size();
            assert(walkable(layer, size));
            assert(self@.layers[0] == layer@);
            search::lemma_stays_below(layer, entries@, size, size);
            search::lemma_stays_below(layer, entries@, size, searcher.room());
        }
        let mut found = searcher.search_layer::<M>(
            &self.vectors,
            &self.layers[0],
            query,
            entries.as_slice(),
            beam,
            counter,
        );
        found.truncate(k);
        Ok(found)
    }

}

/// Why `vector` cannot be inserted into an index of `size` vectors of `dim` components, if it
/// cannot.
pub open spec fn refused_at(size: nat, dim: nat, vector: Seq<u32>) -> Option<IndexError> {
    if vector.len() != dim {
        Some(IndexError::DimMismatch { expected: dim as usize, found: vector.len() as usize })
    } else {
        match vector_store::first_non_finite(vector) {
            Some(i) => Some(
                IndexError::Vector(
                    VectorError::NonFinite {
                        vector: size as usize,
                        component: i as usize,
                        value: vector[i as int],
                    },
                ),
            ),
            None => match vector_store::count_error(size as int + 1) {
                Some(e) => Some(IndexError::Vector(e)),
                None => None,
            },
        }
    }
}

impl<'a> HnswIndex<'a> {
    /// Why `vector` cannot be inserted, if it cannot.
    pub open spec fn insert_error(&self, vector: Seq<u32>) -> Option<IndexError> {
        refused_at(self@.vecs.len(), self.width(), vector)
    }

    /// Whether `vector` can be inserted.
    pub fn check_insert(&self, vector: &[u32]) -> (r: Result<(), IndexError>)
        requires
            self.wf(),
            self@.vecs.len() < usize::MAX,
        ensures
            match r {
                Ok(_) => self.insert_error(vector@) is None,
                Err(e) => self.insert_error(vector@) == Some(e),
            },
    {
        proof {
            self.lemma_wf();
        }
        if vector.len() != self.dim() {
            return Err(IndexError::DimMismatch { expected: self.dim(), found: vector.len() });
        }
        match self.vectors.check_push(vector) {
            Err(e) => Err(IndexError::Vector(e)),
            Ok(_) => Ok(()),
        }
    }

    /// What an insert leaves alone.
    pub open spec fn kept_from(&self, before: &HnswIndex<'a>) -> bool {
        &&& self.settings() == before.settings()
        &&& self.kind() == before.kind()
        &&& self.width() == before.width()
        &&& self.store().reads_mapping() == before.store().reads_mapping()
        &&& self.store().mapped() == before.store().mapped()
    }

    /// Room for a slot more on a layer of at most as many nodes as the index has.
    proof fn lemma_slot_fits(slots: int, cap: int, size: int, base: int)
        requires
            0 <= slots <= size,
            0 <= cap <= base,
            (size + 1) * (base + 1) <= usize::MAX,
        ensures
            slots * (cap + 1) + cap + 1 <= usize::MAX,
    {
        assert(slots * (cap + 1) + cap + 1 == (slots + 1) * (cap + 1)) by (nonlinear_arith);
        assert((slots + 1) * (cap + 1) <= (size + 1) * (base + 1)) by (nonlinear_arith)
            requires
                0 <= slots <= size,
                0 <= cap <= base,
        ;
    }

    /// Appends a vector and puts its node, linked to nothing, on layers `0..=level`.
    fn grow(&mut self, vector: &[u32], level: usize) -> (r: Result<(), VectorError>)
        requires
            old(self).insertable(),
            old(self).has_room(),
            level <= MAX_LEVEL,
            vector@.len() == old(self).width(),
        ensures
            match r {
                Ok(_) => {
                    &&& old(self).vectors.push_error(vector@) is None
                    &&& final(self).parts_fit()
                    &&& final(self).capped()
                    &&& final(self)@ == grown(old(self)@, vector@, level as nat)
                    &&& final(self).kept_from(old(self))
                    &&& final(self).level_state() == old(self).level_state()
                },
                Err(e) => old(self).vectors.push_error(vector@) == Some(e) && *final(self) == *old(
                    self,
                ),
            },
    {
        let ghost before = *self;
        let ghost size = self.vectors.size();
        let node: NodeId = self.vectors.len() as NodeId;
        proof {
            self.lemma_wf();
            assert(size + 1 <= usize::MAX) by {
                let cap = self.params.base_cap();
                assert(size + 1 <= (size + 1) * (cap + 1)) by (nonlinear_arith);
            }
        }
        match self.vectors.push(vector) {
            Err(e) => {
                return Err(e);
            },
            Ok(_) => {},
        }
        self.node_levels.push(level as u8);
        let ghost old_layers = self.layers@;
        while self.layers.len() <= level
            invariant
                level <= MAX_LEVEL,
                self.params == before.params,
                self.metric == before.metric,
                self.levels == before.levels,
                self.entry_point == before.entry_point,
                self.max_layer == before.max_layer,
                self.params.wf(),
                self.params.base_cap() < usize::MAX,
                self.vectors.wf(),
                self.vectors.all() == before.vectors.all().push(vector@),
                self.vectors.size() == size + 1,
                self.vectors.width() == before.vectors.width(),
                self.vectors.reads_mapping() == before.vectors.reads_mapping(),
                self.vectors.mapped() == before.vectors.mapped(),
                self.node_levels@ == before.node_levels@.push(level as u8),
                old_layers == before.layers@,
                layers_fit(old_layers, self.params, size),
                forall|l: int| 0 <= l < old_layers.len() ==> (#[trigger] old_layers[l]).capped(),
                old_layers.len() <= self.layers@.len(),
                self.layers@.len() <= old_layers.len() || self.layers@.len() <= level + 1,
                forall|l: int|
                    0 <= l < old_layers.len() ==> #[trigger] self.layers@[l] == old_layers[l],
                forall|l: int|
                    old_layers.len() <= l < self.layers@.len() ==> {
                        &&& (#[trigger] self.layers@[l]).wf()
                        &&& self.layers@[l].capped()
                        &&& self.layers@[l].cap() == self.params.cap(l)
                        &&& !self.layers@[l].dense_spec()
                        &&& self.layers@[l]@ == Map::<NodeId, Seq<NodeId>>::empty()
                        &&& self.layers@[l].slots() == 0
                    },
            decreases level + 1 - self.layers@.len(),
        {
            let lc: usize = self.layers.len();
            self.layers.push(Layer::sparse(self.params.max_degree(lc)));
        }
        let ghost base = self.layers@;
        proof {
            assert forall|l: int| 0 <= l < base.len() implies (#[trigger] base[l]).wf()
                && base[l].capped() && base[l].cap() == self.params.cap(l) && base[l].dense_spec()
                == (l == 0) && base[l].slots() <= size by {
                if l < old_layers.len() {
                    assert(base[l] == old_layers[l]);
                    HnswIndex::lemma_slots_bounded(old_layers[l], size);
                }
            }
            assert forall|l: int, n: NodeId|
                0 <= l < base.len() && #[trigger] base[l]@.contains_key(n) implies n < size by {
                if l < old_layers.len() {
                    assert(base[l] == old_layers[l]);
                    assert(old_layers[l]@.contains_key(n));
                }
            }
            assert(base[0] == old_layers[0]);
            assert(base.len() == if old_layers.len() <= level {
                level + 1
            } else {
                old_layers.len() as int
            });
        }
        let mut lc: usize = 0;
        while lc <= level
            invariant
                lc <= level + 1,
                level <= MAX_LEVEL,
                level < base.len(),
                self.params == before.params,
                self.metric == before.metric,
                self.levels == before.levels,
                self.entry_point == before.entry_point,
                self.max_layer == before.max_layer,
                self.params.wf(),
                self.params.base_cap() < usize::MAX,
                self.vectors.wf(),
                self.vectors.all() == before.vectors.all().push(vector@),
                self.vectors.size() == size + 1,
                self.vectors.width() == before.vectors.width(),
                self.vectors.reads_mapping() == before.vectors.reads_mapping(),
                self.vectors.mapped() == before.vectors.mapped(),
                self.node_levels@ == before.node_levels@.push(level as u8),
                node == size,
                size < u32::MAX,
                (size + 1) * (self.params.base_cap() + 1) <= usize::MAX,
                size + 1 <= usize::MAX,
                base[0].slots() == size,
                self.layers@.len() == base.len(),
                forall|l: int| 0 <= l < base.len() ==> {
                    &&& (#[trigger] base[l]).wf()
                    &&& base[l].capped()
                    &&& base[l].cap() == self.params.cap(l)
                    &&& base[l].dense_spec() == (l == 0)
                    &&& base[l].slots() <= size
                },
                forall|l: int, n: NodeId|
                    0 <= l < base.len() && #[trigger] base[l]@.contains_key(n) ==> n < size,
                forall|l: int| lc <= l < base.len() ==> #[trigger] self.layers@[l] == base[l],
                forall|l: int|
                    0 <= l < lc ==> {
                        &&& (#[trigger] self.layers@[l]).wf()
                        &&& self.layers@[l].capped()
                        &&& self.layers@[l].cap() == self.params.cap(l)
                        &&& self.layers@[l].dense_spec() == (l == 0)
                        &&& self.layers@[l]@ == base[l]@.insert(node, Seq::empty())
                        &&& self.layers@[l].slots() == base[l].slots() + 1
                    },
            decreases level + 1 - lc,
        {
            proof {
                assert(self.layers@[lc as int] == base[lc as int]);
                assert(!base[lc as int]@.contains_key(node));
                let layer = base[lc as int];
                layer.lemma_dense_dom();
                HnswIndex::lemma_slot_fits(
                    layer.slots(),
                    layer.cap() as int,
                    size as int,
                    self.params.base_cap() as int,
                );
                layer.lemma_raw_len();
            }
            let slot = self.layers[lc].add(node);
            lc += 1;
        }
        proof {
            let g = before@;
            let h = grown(g, vector@, level as nat);
            assert(self@.layers.len() == h.layers.len());
            assert forall|l: int| 0 <= l < h.layers.len() implies self@.layers[l] == #[trigger] h.layers[l] by {
                assert(self@.layers[l] == self.layers@[l]@);
                if l < old_layers.len() {
                    assert(base[l] == old_layers[l]);
                    assert(g.layers[l] == old_layers[l]@);
                }
                if l > level {
                    assert(self.layers@[l] == base[l]);
                }
            }
            assert(self@.layers =~= h.layers);
            assert forall|l: int, n: NodeId|
                0 <= l < self.layers@.len() && #[trigger] self.layers@[l]@.contains_key(n) implies n
                < size + 1 by {
                if l > level {
                    assert(self.layers@[l] == base[l]);
                }
                if n != node {
                    assert(base[l]@.contains_key(n));
                }
            }
            assert forall|l: int| 0 <= l < self.layers@.len() implies (#[trigger] self.layers@[l]).wf()
                && self.layers@[l].cap() == self.params.cap(l) && self.layers@[l].dense_spec() == (l
                == 0) && self.layers@[l].capped() by {
                if l > level {
                    assert(self.layers@[l] == base[l]);
                }
            }
            assert(self.layers@[0].slots() == size + 1);
        }
        Ok(())
    }

    /// A layer whose nodes are below `size` has at most `size` slots.
    proof fn lemma_slots_bounded(layer: Layer, size: nat)
        requires
            layer.wf(),
            forall|n: NodeId| #[trigger] layer@.contains_key(n) ==> n < size,
        ensures
            layer.slots() <= size,
    {
        layer.lemma_order();
        let ids = Set::new(|i: int| 0 <= i < size);
        vstd::set_lib::lemma_int_range(0, size as int);
        assert(ids =~= vstd::set_lib::set_int_range(0, size as int));
        let image = layer@.dom().map(|n: NodeId| n as int);
        assert(layer@.dom().len() <= size) by {
            let f = |n: NodeId| n as int;
            assert(vstd::relations::injective(f));
            vstd::set_lib::lemma_map_size(layer@.dom(), image, f);
            assert(image.subset_of(ids)) by {
                assert forall|i: int| image.contains(i) implies ids.contains(i) by {
                    let n = choose|n: NodeId| layer@.dom().contains(n) && f(n) == i;
                    assert(layer@.contains_key(n));
                }
            }
            vstd::set_lib::lemma_len_subset(image, ids);
        }
    }

    /// A change to one layer, seen through the view.
    proof fn lemma_layer_changed(&self, before: &HnswIndex<'a>, l: int)
        requires
            before.parts_fit(),
            before.capped(),
            0 <= l < before.layers@.len(),
            self.vectors == before.vectors,
            self.params == before.params,
            self.node_levels == before.node_levels,
            self.levels == before.levels,
            self.layers@.len() == before.layers@.len(),
            forall|k: int|
                0 <= k < self.layers@.len() && k != l ==> #[trigger] self.layers@[k]
                    == before.layers@[k],
            self.layers@[l].wf(),
            self.layers@[l].capped(),
            self.layers@[l].cap() == before.layers@[l].cap(),
            self.layers@[l].dense_spec() == before.layers@[l].dense_spec(),
            self.layers@[l].slots() == before.layers@[l].slots(),
            self.layers@[l]@.dom() == before.layers@[l]@.dom(),
        ensures
            self.parts_fit(),
            self.capped(),
            self@.layers == before@.layers.update(l, self.layers@[l]@),
            self@.vecs == before@.vecs,
            self@.levels == before@.levels,
    {
        assert(self@.layers =~= before@.layers.update(l, self.layers@[l]@));
        assert forall|k: int, n: NodeId|
            0 <= k < self.layers@.len() && #[trigger] self.layers@[k]@.contains_key(n) implies n
            < self.vectors.size() by {
            if k == l {
                assert(before.layers@[l]@.dom().contains(n));
            }
            assert(before.layers@[k]@.contains_key(n));
        }
        assert forall|k: int| 0 <= k < self.layers@.len() implies (#[trigger] self.layers@[k]).wf()
            && self.layers@[k].cap() == self.params.cap(k) && self.layers@[k].dense_spec() == (k
            == 0) && self.layers@[k].capped() by {
            assert(before.layers@[k].wf());
            assert(before.all_layers()[k].capped());
            if k != l {
                assert(self.layers@[k] == before.layers@[k]);
            }
        }
    }

    /// Selects `node`'s neighbour list on `layer` anew, with `extra` among the candidates.
    ///
    /// Distances are measured from `node`, not from the vector being inserted.
    fn reselect_neighbors<M: Metric>(
        &mut self,
        layer: usize,
        node: NodeId,
        extra: NodeId,
        counter: &mut impl Count,
    )
        requires
            old(self).parts_fit(),
            old(self).capped(),
            layer < old(self).layers@.len(),
            lists_ok(old(self)@.layers[layer as int], old(self).params.cap(layer as int)),
            old(self)@.layers[layer as int].contains_key(node),
            old(self)@.layers[layer as int].contains_key(extra),
        ensures
            final(self).parts_fit(),
            final(self).capped(),
            final(self)@ == (Graph {
                layers: old(self)@.layers.update(
                    layer as int,
                    old(self)@.layers[layer as int].insert(
                        node,
                        reselected::<M>(
                            old(self)@.vecs,
                            old(self)@.layers[layer as int],
                            node,
                            extra,
                            old(self).params.cap(layer as int),
                            old(self).params,
                        ),
                    ),
                ),
                ..old(self)@
            }),
            final(self).vectors == old(self).vectors,
            final(self).params == old(self).params,
            final(self).metric == old(self).metric,
            final(self).levels == old(self).levels,
            final(self).node_levels == old(self).node_levels,
            final(self).layers@.len() == old(self).layers@.len(),
            final(counter).total() == counted(
                old(counter).total(),
                reselection_cost::<M>(
                    old(self)@.vecs,
                    old(self)@.layers[layer as int],
                    node,
                    extra,
                    old(self).params.cap(layer as int),
                    old(self).params,
                ),
            ),
    {
        let ghost counted_before = counter.total();
        let ghost before = *self;
        let ghost edges = self@.layers[layer as int];
        let max_degree: usize = self.params.max_degree(layer);
        proof {
            self.vectors.lemma_wf();
            assert(edges == self.layers@[layer as int]@);
            assert(self.all_layers()[layer as int].capped());
            assert(list_ok(edges, node, self.params.cap(layer as int)));
        }
        let mut ids: Vec<NodeId> = vstd::slice::slice_to_vec(self.layers[layer].neighbors(node));
        ids.push(extra);
        let mut candidates: Vec<Candidate> = Vec::with_capacity(ids.len());
        let anchor = self.vectors.get(node as usize);
        proof {
            assert(ids@ =~= edges[node].push(extra));
            assert forall|i: int| 0 <= i < ids@.len() implies (#[trigger] ids@[i])
                < self.vectors.size() by {
                if i < edges[node].len() {
                    assert(edges.contains_key(edges[node][i]));
                }
                assert(self.layers@[layer as int]@.contains_key(ids@[i]));
            }
        }
        let mut i: usize = 0;
        while i < ids.len()
            invariant
                i <= ids@.len(),
                self.vectors.wf(),
                self.vectors.all().len() == self.vectors.size(),
                node < self.vectors.size(),
                anchor@ == self.vectors.all()[node as int],
                anchor@.len() == self.vectors.width(),
                forall|k: int| 0 <= k < ids@.len() ==> (#[trigger] ids@[k]) < self.vectors.size(),
                candidates@ == measured::<M>(self.vectors.all(), node, ids@.take(i as int)),
                counter.total() == counted(counted_before, i as nat),
            decreases ids@.len() - i,
        {
            counter.record(1);
            proof {
                lemma_counted(counted_before, i as nat, 1);
            }
            let id: NodeId = ids[i];
            let distance: u32 = M::distance(anchor, self.vectors.get(id as usize));
            candidates.push(Candidate::new(distance, id));
            i += 1;
            proof {
                assert(candidates@ =~= measured::<M>(
                    self.vectors.all(),
                    node,
                    ids@.take(i as int),
                ));
            }
        }
        proof {
            assert(ids@.take(i as int) =~= ids@);
            assert forall|k: int| 0 <= k < candidates@.len() implies (#[trigger] candidates@[k]).id
                < self.vectors.size() by {
                assert(candidates@[k].id == ids@[k]);
            }
        }
        let selected = select_neighbors::<M>(
            &self.vectors,
            &mut candidates,
            max_degree,
            self.params.selection(),
            counter,
        );
        proof {
            select::lemma_chosen::<M>(
                self.vectors.all(),
                in_order(measured::<M>(self.vectors.all(), node, ids@)),
                max_degree as nat,
                self.params.policy(),
            );
            candidate::lemma_in_order(measured::<M>(self.vectors.all(), node, ids@));
            assert forall|n: NodeId| #[trigger] edges.contains_key(n) implies n
                < self.vectors.size() by {
                assert(self.layers@[layer as int]@.contains_key(n));
            }
            graph::lemma_list_is_short(
                edges,
                node,
                self.params.cap(layer as int),
                self.vectors.size(),
            );
        }
        self.layers[layer].set_neighbors(node, selected.as_slice());
        proof {
            assert(self.layers@[layer as int]@.dom() =~= before.layers@[layer as int]@.dom());
            self.lemma_layer_changed(&before, layer as int);
        }
    }

    /// Links `node`, whose vector is `vector`, on layer `lc`, and returns where the search on the
    /// layer below starts.
    fn link_layer<M: Metric>(
        &mut self,
        searcher: &mut Searcher,
        vector: &[u32],
        node: NodeId,
        lc: usize,
        entry_points: &Vec<NodeId>,
        counter: &mut impl Count,
    ) -> (below: Vec<NodeId>)
        requires
            old(self).parts_fit(),
            old(self).capped(),
            lc < old(self).layers@.len(),
            waiting(old(self)@, old(self).params, node, (lc + 1) as nat),
            entries_ok(old(self)@.layers[lc as int], entry_points@, node),
            vector@ == old(self)@.vecs[node as int],
            vector@.len() == old(self).vectors.width(),
            old(searcher).wf(),
            old(self).vectors.size() <= old(searcher).room(),
        ensures
            final(searcher).wf(),
            final(searcher).room() == old(searcher).room(),
            final(self).parts_fit(),
            final(self).capped(),
            final(self)@ == linked_on::<M>(
                old(self)@,
                old(self).params,
                node,
                lc as int,
                entry_points@,
            ),
            final(self).vectors == old(self).vectors,
            final(self).params == old(self).params,
            final(self).metric == old(self).metric,
            final(self).levels == old(self).levels,
            final(self).layers@.len() == old(self).layers@.len(),
            below@ == next_entries(
                near::<M>(old(self)@, old(self).params, node, lc as int, entry_points@),
                node,
            ),
            final(counter).total() == counted(
                old(counter).total(),
                link_cost::<M>(old(self)@, old(self).params, node, lc as int, entry_points@),
            ),
    {
        let ghost counted_before = counter.total();
        let ghost before = *self;
        let ghost g = self@;
        let ghost cap = self.params.cap(lc as int);
        let ghost edges = g.layers[lc as int];
        proof {
            self.vectors.lemma_wf();
            self.lemma_walkable(lc as int);
            assert(edges == self.layers@[lc as int]@);
            graph::lemma_linked_on::<M>(g, self.params, node, lc as int, entry_points@);
            assert(edges.contains_key(node)) by {
                assert(stacked(g));
                assert(g.layers[lc as int].contains_key(node));
            }
            let layer = &self.layers@[lc as int];
            let size = self.vectors.size();
            search::lemma_stays_below(layer, entry_points@, size, size);
            search::lemma_stays_below(layer, entry_points@, size, searcher.room());
        }
        let mut candidates = searcher.search_layer::<M>(
            &self.vectors,
            &self.layers[lc],
            vector,
            entry_points.as_slice(),
            self.params.ef_construction(),
            counter,
        );
        let ghost found = candidates@;
        proof {
            assert(found == near::<M>(g, self.params, node, lc as int, entry_points@));
            candidate::lemma_ascending_is_ordered(found);
            candidate::lemma_in_order_stable(found);
            assert forall|k: int| 0 <= k < found.len() implies (#[trigger] found[k]).id
                < self.vectors.size() by {
                assert(edges.contains_key(ids_of(found)[k]));
                assert(self.layers@[lc as int]@.contains_key(found[k].id));
            }
        }
        let selected = select_neighbors::<M>(
            &self.vectors,
            &mut candidates,
            self.params.m(),
            self.params.selection(),
            counter,
        );
        let ghost chosen = selected@;
        proof {
            assert(chosen == picked::<M>(g, self.params, node, lc as int, entry_points@));
            select::lemma_chosen::<M>(
                g.vecs,
                in_order(found),
                self.params.links(),
                self.params.policy(),
            );
        }
        self.layers[lc].set_neighbors(node, selected.as_slice());
        let ghost own = edges.insert(node, chosen);
        proof {
            assert(self.layers@[lc as int]@.dom() =~= before.layers@[lc as int]@.dom());
            self.lemma_layer_changed(&before, lc as int);
            graph::lemma_picked::<M>(g, self.params, node, lc as int, entry_points@);
        }
        let ghost selected_at = counter.total();
        let mut i: usize = 0;
        while i < selected.len()
            invariant
                i <= selected@.len(),
                selected@ == chosen,
                lc < self.layers@.len(),
                self.parts_fit(),
                self.capped(),
                self.vectors == before.vectors,
                self.params == before.params,
                self.metric == before.metric,
                self.levels == before.levels,
                self.node_levels == before.node_levels,
                self.entry_point == before.entry_point,
                self.max_layer == before.max_layer,
                self.layers@.len() == before.layers@.len(),
                g == before@,
                edges == g.layers[lc as int],
                own == edges.insert(node, chosen),
                cap == before.params.cap(lc as int),
                cap >= 1,
                lists_ok(own, cap),
                own.contains_key(node),
                chosen.no_duplicates(),
                forall|k: int|
                    0 <= k < chosen.len() ==> own.contains_key(#[trigger] chosen[k]) && chosen[k]
                        != node && !own[chosen[k]].contains(node),
                self@.layers == g.layers.update(
                    lc as int,
                    all_connected::<M>(
                        g.vecs,
                        own,
                        chosen.take(i as int),
                        node,
                        cap,
                        before.params,
                    ),
                ),
                counter.total() == counted(
                    selected_at,
                    connection_cost::<M>(
                        g.vecs,
                        own,
                        chosen.take(i as int),
                        node,
                        cap,
                        before.params,
                    ),
                ),
            decreases selected@.len() - i,
        {
            let neighbor: NodeId = selected[i];
            let ghost now = *self;
            let ghost done = chosen.take(i as int);
            let ghost mid = all_connected::<M>(g.vecs, own, done, node, cap, before.params);
            proof {
                assert(chosen.take(i + 1).drop_last() =~= done);
                assert(chosen.take(i + 1).last() == neighbor);
                HnswIndex::lemma_prefix_distinct(chosen, i as int);
                assert forall|k: int| 0 <= k < done.len() implies own.contains_key(
                    #[trigger] done[k],
                ) && done[k] != node && !own[done[k]].contains(node) by {
                    assert(chosen[k] == done[k]);
                }
                graph::lemma_all_connected::<M>(g.vecs, own, done, node, cap, before.params);
                assert(own.contains_key(chosen[i as int]));
                assert(mid.dom().contains(neighbor));
                assert(mid.dom().contains(node));
                assert(self@.layers[lc as int] == mid);
                assert(self.layers@[lc as int]@ == mid);
                assert(self.all_layers()[lc as int].capped());
                assert forall|n: NodeId| #[trigger] mid.contains_key(n) implies n
                    < self.vectors.size() by {
                    assert(self.layers@[lc as int]@.contains_key(n));
                }
                self.vectors.lemma_wf();
                graph::lemma_list_is_short(mid, neighbor, cap, self.vectors.size());
                lemma_counted(
                    selected_at,
                    connection_cost::<M>(g.vecs, own, done, node, cap, before.params),
                    reselection_cost::<M>(g.vecs, mid, neighbor, node, cap, before.params),
                );
            }
            let pushed = self.layers[lc].push_neighbor(neighbor, node);
            if !pushed {
                proof {
                    assert(self.layers@ =~= now.layers@);
                    assert(self@.layers =~= now@.layers);
                    assert(self.all_layers() == now.all_layers());
                    assert(self.capped());
                }
                self.reselect_neighbors::<M>(lc, neighbor, node, counter);
            } else {
                proof {
                    assert(self.layers@[lc as int]@.dom() =~= now.layers@[lc as int]@.dom());
                    self.lemma_layer_changed(&now, lc as int);
                }
            }
            proof {
                let next = connected::<M>(g.vecs, mid, neighbor, node, cap, before.params);
                assert(self@.layers =~= g.layers.update(lc as int, next));
            }
            i += 1;
        }
        proof {
            assert(chosen.take(i as int) =~= chosen);
        }
        let mut below: Vec<NodeId> = Vec::with_capacity(candidates.len());
        let mut j: usize = 0;
        while j < candidates.len()
            invariant
                j <= candidates@.len(),
                candidates@ == found,
                below@ == ids_of(found).take(j as int),
            decreases candidates@.len() - j,
        {
            below.push(candidates[j].id);
            j += 1;
            proof {
                assert(below@ =~= ids_of(found).take(j as int));
            }
        }
        if below.len() == 0 {
            below.push(node);
        }
        proof {
            assert(below@ =~= next_entries(found, node));
        }
        below
    }

    proof fn lemma_prefix_distinct(s: Seq<NodeId>, n: int)
        requires
            s.no_duplicates(),
            0 <= n <= s.len(),
        ensures
            s.take(n).no_duplicates(),
    {
        assert forall|i: int, j: int|
            0 <= i < s.take(n).len() && 0 <= j < s.take(n).len() && i != j implies s.take(n)[i]
            != s.take(n)[j] by {
            assert(s[i] != s[j]);
        }
    }

    /// Inserts `vector` at an explicit level, as replaying a log does.
    pub fn insert_at_level<M: Metric>(
        &mut self,
        searcher: &mut Searcher,
        vector: &[u32],
        level: usize,
        counter: &mut impl Count,
    ) -> (r: Result<NodeId, IndexError>)
        requires
            old(self).insertable(),
            old(self).has_room(),
            stands_for::<M>(old(self).kind()),
            old(searcher).wf(),
        ensures
            final(self).insertable(),
            old(self).valid() ==> final(self).valid(),
            final(searcher).wf(),
            final(self).kept_from(old(self)),
            final(self).level_state() == old(self).level_state(),
            match r {
                Ok(node) => {
                    &&& old(self).insert_error(vector@) is None
                    &&& node == old(self)@.vecs.len()
                    &&& final(self)@ == inserted::<M>(
                        old(self)@,
                        old(self).settings(),
                        vector@,
                        guarded(level) as nat,
                    )
                },
                Err(e) => old(self).insert_error(vector@) == Some(e) && *final(self) == *old(self),
            },
            final(counter).total() == counted(
                old(counter).total(),
                if r is Ok {
                    insertion_cost::<M>(
                        old(self)@,
                        old(self).settings(),
                        vector@,
                        guarded(level) as nat,
                    )
                } else {
                    0
                },
            ),
    {
        let ghost counted_before = counter.total();
        proof {
            lemma_counted(counted_before, 0, 0);
        }
        if vector.len() != self.dim() {
            return Err(IndexError::DimMismatch { expected: self.dim(), found: vector.len() });
        }
        let level: usize = if level < MAX_LEVEL {
            level
        } else {
            MAX_LEVEL
        };
        let ghost g = self@;
        let ghost params = self.params;
        let node: NodeId = self.vectors.len() as NodeId;
        proof {
            self.lemma_wf();
        }
        match self.grow(vector, level) {
            Err(e) => {
                return Err(IndexError::Vector(e));
            },
            Ok(_) => {},
        }
        let ghost h = self@;
        searcher.ensure_capacity(self.vectors.len());
        proof {
            self.vectors.lemma_wf();
            graph::lemma_grown(g, params, vector@, level as nat);
            graph::lemma_inserted_sound::<M>(g, params, vector@, level as nat);
        }
        let entry: NodeId = match self.entry_point {
            None => {
                let ghost unentered = *self;
                self.entry_point = Some(node);
                self.max_layer = level;
                proof {
                    assert(self@ == inserted::<M>(g, params, vector@, level as nat));
                    assert(self.all_layers() == unentered.all_layers());
                    assert forall|l: int| 0 <= l < self.all_layers().len() implies (
                    #[trigger] self.all_layers()[l]).capped() by {
                        assert(unentered.all_layers()[l].capped());
                    }
                }
                return Ok(node);
            },
            Some(entry) => entry,
        };
        proof {
            graph::lemma_start::<M>(g, params, vector@, level as nat);
            self.lemma_laddered();
            assert(self@.layers[self.max_layer as int] == self.layers@[self.max_layer as int]@);
        }
        let mut entry_points = self.descend::<M>(
            searcher,
            vector,
            self.max_layer,
            level,
            entry,
            counter,
        );
        let ghost start = entry_points@;
        let ghost top = self.max_layer;
        let ghost descended_at = counter.total();
        let ghost mut spent: nat = 0;
        let mut count: usize = if level < self.max_layer {
            level + 1
        } else {
            self.max_layer + 1
        };
        let ghost total = count as nat;
        while count > 0
            invariant
                count <= total,
                count <= self.layers@.len(),
                self.parts_fit(),
                self.capped(),
                self.params == params,
                self.metric == old(self).metric,
                self.level_state() == old(self).level_state(),
                self.vectors.width() == old(self).vectors.width(),
                self.vectors.reads_mapping() == old(self).vectors.reads_mapping(),
                self.vectors.mapped() == old(self).vectors.mapped(),
                self.max_layer == top,
                self@.entry == h.entry,
                searcher.wf(),
                self.vectors.size() <= searcher.room(),
                waiting(self@, params, node, count as nat),
                count >= 1 ==> entries_ok(self@.layers[count - 1], entry_points@, node),
                self@.vecs == h.vecs,
                vector@ == h.vecs[node as int],
                vector@.len() == self.vectors.width(),
                linked::<M>(self@, params, node, count as nat, entry_points@) == linked::<M>(
                    h,
                    params,
                    node,
                    total,
                    start,
                ),
                counter.total() == counted(descended_at, spent),
                spent + linking_cost::<M>(self@, params, node, count as nat, entry_points@)
                    == linking_cost::<M>(h, params, node, total, start),
            decreases count,
        {
            let ghost now = self@;
            proof {
                graph::lemma_linked_on::<M>(now, params, node, count - 1, entry_points@);
            }
            let below = self.link_layer::<M>(
                searcher,
                vector,
                node,
                count - 1,
                &entry_points,
                counter,
            );
            proof {
                if count >= 2 {
                    assert forall|i: int|
                        0 <= i < below@.len() implies self@.layers[count - 2].contains_key(
                        #[trigger] below@[i],
                    ) && below@[i] != node by {
                        assert(now.layers[count - 1].contains_key(below@[i]));
                        assert(now.layers[count - 2].contains_key(below@[i]));
                        assert(self@.layers[count - 2] == now.layers[count - 2]);
                    }
                }
            }
            proof {
                let here = link_cost::<M>(now, params, node, count - 1, entry_points@);
                lemma_counted(descended_at, spent, here);
                spent = spent + here;
            }
            entry_points = below;
            count = count - 1;
        }
        proof {
            lemma_counted(
                counted_before,
                descent_cost::<M>(h.vecs, h.layers, vector@, g.top, level as nat, seq![entry]),
                spent,
            );
        }
        let ghost unraised = *self;
        if level > self.max_layer {
            self.max_layer = level;
            self.entry_point = Some(node);
        }
        proof {
            assert(self@ == inserted::<M>(g, params, vector@, level as nat));
            assert(self.all_layers() == unraised.all_layers());
            assert forall|l: int| 0 <= l < self.all_layers().len() implies (
            #[trigger] self.all_layers()[l]).capped() by {
                assert(unraised.all_layers()[l].capped());
            }
        }
        Ok(node)
    }

    /// Inserts `vector`, drawing its level from the seeded generator. `scale` makes a level of a
    /// uniformly distributed word.
    pub fn insert<M: Metric, F: Fn(u64) -> usize>(
        &mut self,
        searcher: &mut Searcher,
        vector: &[u32],
        counter: &mut impl Count,
        scale: &F,
    ) -> (r: Result<NodeId, IndexError>)
        requires
            old(self).insertable(),
            old(self).has_room(),
            old(self).level_state().2 < u64::MAX,
            stands_for::<M>(old(self).kind()),
            old(searcher).wf(),
            forall|w: u64| call_requires(*scale, (w,)),
        ensures
            final(self).insertable(),
            old(self).valid() ==> final(self).valid(),
            final(searcher).wf(),
            final(self).kept_from(old(self)),
            final(self).level_state() == (
                old(self).level_state().0,
                old(self).level_state().1,
                (old(self).level_state().2 + 1) as u64,
            ),
            match r {
                Ok(node) => {
                    &&& old(self).insert_error(vector@) is None
                    &&& node == old(self)@.vecs.len()
                    &&& exists|level: usize| #[trigger]
                        draws(old(self).level_state(), *scale, level) && final(self)@ == inserted::<
                            M,
                        >(old(self)@, old(self).settings(), vector@, guarded(level) as nat)
                            && final(counter).total() == counted(
                            old(counter).total(),
                            insertion_cost::<M>(
                                old(self)@,
                                old(self).settings(),
                                vector@,
                                guarded(level) as nat,
                            ),
                        )
                },
                Err(e) => {
                    &&& old(self).insert_error(vector@) == Some(e)
                    &&& final(self)@ == old(self)@
                    &&& final(counter).total() == old(counter).total()
                },
            },
    {
        proof {
            lemma_counted(counter.total(), 0, 0);
        }
        let level: usize = self.draw_level(scale);
        self.insert_at_level::<M>(searcher, vector, level, counter)
    }
}

/// A node of a stored layer that the index does not hold.
pub open spec fn unknown_node_check(layer: Layer, l: int, size: nat) -> spec_fn(int) -> Option<
    IndexError,
> {
    |i: int|
        if layer.order()[i] >= size {
            Some(IndexError::UnknownNode { layer: l as usize, node: layer.order()[i] })
        } else {
            None
        }
}

/// What is wrong with stored layer `l`, if anything is.
pub open spec fn stored_layer_check(
    layers: Seq<Layer>,
    params: HnswParams,
    size: nat,
) -> spec_fn(int) -> Option<IndexError> {
    |l: int|
        if layers[l].cap() != params.cap(l) {
            Some(
                IndexError::PartMismatch {
                    part: "max_degree",
                    found: layers[l].cap() as usize,
                    expected: params.cap(l) as usize,
                },
            )
        } else if layers[l].dense_spec() != (l == 0) {
            Some(
                IndexError::PartMismatch {
                    part: "dense layers",
                    found: l as usize,
                    expected: 0,
                },
            )
        } else if l == 0 && layers[l].slots() != size {
            Some(
                IndexError::PartMismatch {
                    part: "layer 0",
                    found: layers[l].slots() as usize,
                    expected: size as usize,
                },
            )
        } else {
            first_of(layers[l].order().len() as int, unknown_node_check(layers[l], l, size))
        }
}

/// Why stored parts do not make an index, if they do not.
pub open spec fn parts_error(
    size: nat,
    params: HnswParams,
    layers: Seq<Layer>,
    levels: nat,
    entry: Option<NodeId>,
    top: int,
) -> Option<IndexError> {
    if levels != size {
        Some(
            IndexError::PartMismatch {
                part: "node_levels",
                found: levels as usize,
                expected: size as usize,
            },
        )
    } else if layers.len() != top + 1 {
        Some(
            IndexError::PartMismatch {
                part: "layers",
                found: layers.len() as usize,
                expected: (top + 1) as usize,
            },
        )
    } else if size == 0 && top != 0 {
        Some(IndexError::PartMismatch { part: "max_layer", found: top as usize, expected: 0 })
    } else if entry is Some && entry->0 >= size {
        Some(
            IndexError::PartMismatch {
                part: "entry_point",
                found: entry->0 as usize,
                expected: size as usize,
            },
        )
    } else {
        first_of(layers.len() as int, stored_layer_check(layers, params, size))
    }
}

impl<'a> HnswIndex<'a> {
    /// Puts an index together from its stored parts. Sizes and ids are checked; whether the edges
    /// make a sound graph is for [`Self::validate`], which costs a pass over all of them.
    pub fn from_parts(parts: IndexParts<'a>) -> (r: Result<Self, IndexError>)
        requires
            parts.vectors.wf(),
            parts.params.wf(),
            parts.params.base_cap() < usize::MAX,
            parts.max_layer < usize::MAX,
            forall|l: int| 0 <= l < parts.layers@.len() ==> (#[trigger] parts.layers@[l]).wf(),
        ensures
            match r {
                Ok(index) => {
                    &&& parts_error(
                        parts.vectors.size(),
                        parts.params,
                        parts.layers@,
                        parts.node_levels@.len(),
                        parts.entry_point,
                        parts.max_layer as int,
                    ) is None
                    &&& index.wf()
                    &&& index.store() == parts.vectors
                    &&& index.settings() == parts.params
                    &&& index.kind() == parts.metric
                    &&& index.all_layers() == parts.layers@
                    &&& index@ == (Graph {
                        vecs: parts.vectors.all(),
                        levels: parts.node_levels@,
                        layers: edges_of(parts.layers@),
                        entry: parts.entry_point,
                        top: parts.max_layer as nat,
                    })
                    &&& index.level_state() == (
                        parts.params.origin(),
                        parts.params.links() == 1,
                        parts.levels_drawn,
                    )
                },
                Err(e) => parts_error(
                    parts.vectors.size(),
                    parts.params,
                    parts.layers@,
                    parts.node_levels@.len(),
                    parts.entry_point,
                    parts.max_layer as int,
                ) == Some(e),
            },
    {
        let ghost size = parts.vectors.size();
        let count: usize = parts.vectors.len();
        proof {
            parts.vectors.lemma_wf();
        }
        if parts.node_levels.len() != count {
            return Err(
                IndexError::PartMismatch {
                    part: "node_levels",
                    found: parts.node_levels.len(),
                    expected: count,
                },
            );
        }
        if parts.layers.len() != parts.max_layer + 1 {
            return Err(
                IndexError::PartMismatch {
                    part: "layers",
                    found: parts.layers.len(),
                    expected: parts.max_layer + 1,
                },
            );
        }
        if count == 0 && parts.max_layer != 0 {
            return Err(
                IndexError::PartMismatch {
                    part: "max_layer",
                    found: parts.max_layer,
                    expected: 0,
                },
            );
        }
        if let Some(entry) = parts.entry_point {
            if entry as usize >= count {
                return Err(
                    IndexError::PartMismatch {
                        part: "entry_point",
                        found: entry as usize,
                        expected: count,
                    },
                );
            }
        }
        let ghost check = stored_layer_check(parts.layers@, parts.params, size);
        let mut l: usize = 0;
        while l < parts.layers.len()
            invariant
                l <= parts.layers@.len(),
                count == size,
                size == parts.vectors.size(),
                size <= u32::MAX,
                check == stored_layer_check(parts.layers@, parts.params, size),
                parts.node_levels@.len() == size,
                parts.layers@.len() == parts.max_layer + 1,
                size == 0 ==> parts.max_layer == 0,
                parts.entry_point is Some ==> parts.entry_point->0 < size,
                forall|k: int| 0 <= k < parts.layers@.len() ==> (#[trigger] parts.layers@[k]).wf(),
                first_of(l as int, check) is None,
            decreases parts.layers@.len() - l,
        {
            let ghost layer = parts.layers@[l as int];
            let cap: usize = parts.layers[l].max_degree();
            if cap != parts.params.max_degree(l) {
                proof {
                    lemma_first_hit(parts.layers@.len() as int, check, l as int);
                }
                return Err(
                    IndexError::PartMismatch {
                        part: "max_degree",
                        found: cap,
                        expected: parts.params.max_degree(l),
                    },
                );
            }
            if parts.layers[l].is_dense() != (l == 0) {
                proof {
                    lemma_first_hit(parts.layers@.len() as int, check, l as int);
                }
                return Err(
                    IndexError::PartMismatch { part: "dense layers", found: l, expected: 0 },
                );
            }
            let slots: usize = parts.layers[l].len();
            if l == 0 && slots != count {
                proof {
                    lemma_first_hit(parts.layers@.len() as int, check, l as int);
                }
                return Err(
                    IndexError::PartMismatch { part: "layer 0", found: slots, expected: count },
                );
            }
            let nodes = parts.layers[l].nodes();
            let ghost inner = unknown_node_check(layer, l as int, size);
            let mut i: usize = 0;
            while i < nodes.len()
                invariant
                    i <= nodes@.len(),
                    count == size,
                    l < parts.layers@.len(),
                    layer == parts.layers@[l as int],
                    nodes@ == layer.order(),
                    size == parts.vectors.size(),
                    check == stored_layer_check(parts.layers@, parts.params, size),
                    inner == unknown_node_check(layer, l as int, size),
                    check(l as int) == first_of(nodes@.len() as int, inner),
                    parts.node_levels@.len() == size,
                    parts.layers@.len() == parts.max_layer + 1,
                    size == 0 ==> parts.max_layer == 0,
                    parts.entry_point is Some ==> parts.entry_point->0 < size,
                    first_of(l as int, check) is None,
                    first_of(i as int, inner) is None,
                decreases nodes@.len() - i,
            {
                if nodes[i] as usize >= count {
                    proof {
                        lemma_first_hit(nodes@.len() as int, inner, i as int);
                        lemma_first_hit(parts.layers@.len() as int, check, l as int);
                    }
                    return Err(IndexError::UnknownNode { layer: l, node: nodes[i] });
                }
                i += 1;
            }
            l += 1;
        }
        proof {
            lemma_first_none(parts.layers@.len() as int, check);
            assert forall|k: int| 0 <= k < parts.layers@.len() implies (
            #[trigger] parts.layers@[k]).wf() && parts.layers@[k].cap() == parts.params.cap(k)
                && parts.layers@[k].dense_spec() == (k == 0) && (k == 0 ==> parts.layers@[k].slots()
                == size) by {
                assert(check(k) is None);
            }
            assert forall|k: int, n: NodeId|
                0 <= k < parts.layers@.len() && #[trigger] parts.layers@[k]@.contains_key(n) implies n
                < size by {
                assert(check(k) is None);
                let layer = parts.layers@[k];
                let inner = unknown_node_check(layer, k, size);
                lemma_first_none(layer.order().len() as int, inner);
                layer.lemma_order();
                let i = layer.order().index_of(n);
                assert(inner(i) is None);
            }
        }
        let levels = parts.params.restored_level_generator(parts.levels_drawn);
        Ok(
            HnswIndex {
                vectors: parts.vectors,
                params: parts.params,
                metric: parts.metric,
                layers: parts.layers,
                node_levels: parts.node_levels,
                entry_point: parts.entry_point,
                max_layer: parts.max_layer,
                levels,
            },
        )
    }
}

impl<'a> HnswIndex<'a> {
    /// What a search returns: no more than `k` candidates, nearest first and each node once, all
    /// of them nodes of the index with their distance from the query, and at least one if there is
    /// one to find.
    pub proof fn lemma_answer<M: Metric>(&self, q: Seq<u32>, k: nat, ef: nat)
        requires
            self.searchable(),
        ensures
            ascending(answer::<M>(self@, q, k, ef)),
            answer::<M>(self@, q, k, ef).len() <= k,
            forall|i: int|
                0 <= i < answer::<M>(self@, q, k, ef).len() ==> (#[trigger] answer::<M>(
                    self@,
                    q,
                    k,
                    ef,
                )[i]).id < self@.vecs.len() && answer::<M>(self@, q, k, ef)[i] == search::score::<
                    M,
                >(q, self@.vecs, answer::<M>(self@, q, k, ef)[i].id),
            forall|i: int, j: int|
                0 <= i < j < answer::<M>(self@, q, k, ef).len() ==> (#[trigger] answer::<M>(
                    self@,
                    q,
                    k,
                    ef,
                )[i]).id != (#[trigger] answer::<M>(self@, q, k, ef)[j]).id,
            k >= 1 && self@.entry is Some ==> answer::<M>(self@, q, k, ef).len() >= 1,
    {
        let r = answer::<M>(self@, q, k, ef);
        if self@.entry is Some && k > 0 {
            let entry = self@.entry->0;
            let beam = if ef < k {
                k
            } else {
                ef
            };
            let start = descended::<M>(self@.vecs, self@.layers, q, self@.top, 0, seq![entry]);
            let found = found_by::<M>(q, self@.vecs, self@.layers[0], start, beam);
            self.lemma_wf();
            assert(self@.layers[self@.top as int] == self.layers@[self@.top as int]@);
            lemma_descends::<M>(self.layers@, self@.vecs, q, self@.top, 0, seq![entry]);
            assert(walkable(&self.layers@[0], self.vectors.size()));
            assert(self@.layers[0] == self.layers@[0]@);
            lemma_found_there::<M>(&self.layers@[0], self@.vecs, q, start, beam);
            assert forall|i: int| 0 <= i < r.len() implies (#[trigger] r[i]).id < self@.vecs.len()
                && r[i] == search::score::<M>(q, self@.vecs, r[i].id) by {
                assert(r[i] == found[i]);
                assert(self.layers@[0]@.contains_key(found[i].id));
            }
            assert forall|i: int, j: int| 0 <= i < j < r.len() implies candidate::before(
                #[trigger] r[i],
                #[trigger] r[j],
            ) by {
                assert(candidate::before(found[i], found[j]));
            }
            search::lemma_found_distinct::<M>(q, self@.vecs, r);
        }
    }
}

impl<'a> HnswIndex<'a> {
    /// How near the answer of a search is. It has as many candidates as were asked for or as can be
    /// reached on layer 0 from where the descent ends. None of them comes after that node, after the
    /// entry point or after a neighbour of an answer that is left out, unless `k` others are nearer.
    /// With a beam for everything that can be reached, nothing that is left out is nearer at all.
    pub proof fn lemma_answer_nearest<M: Metric>(&self, q: Seq<u32>, k: nat, ef: nat)
        requires
            self.searchable(),
            self@.entry is Some,
            k >= 1,
        ensures
            ({
                let r = answer::<M>(self@, q, k, ef);
                let base = self@.layers[0];
                let start = descended::<M>(
                    self@.vecs,
                    self@.layers,
                    q,
                    self@.top,
                    0,
                    seq![self@.entry->0],
                );
                let reached = search::reachable(base, start);
                let kept = |n: NodeId|
                    r.contains(search::score::<M>(q, self@.vecs, n)) || (r.len() == k
                        && candidate::before(r.last(), search::score::<M>(q, self@.vecs, n)));
                &&& base.dom().finite()
                &&& start.len() == 1
                &&& reached.subset_of(base.dom())
                &&& r.len() == if k < reached.len() {
                    k
                } else {
                    reached.len()
                }
                &&& kept(start[0])
                &&& !candidate::before(
                    search::score::<M>(q, self@.vecs, self@.entry->0),
                    r[0],
                )
                &&& forall|i: int, j: int|
                    0 <= i < r.len() && 0 <= j < base[r[i].id].len() ==> kept(
                        #[trigger] base[r[i].id][j],
                    )
                &&& ef >= reached.len() ==> forall|n: NodeId| #[trigger]
                    reached.contains(n) ==> kept(n)
            }),
    {
        let r = answer::<M>(self@, q, k, ef);
        let entry = self@.entry->0;
        let base = self@.layers[0];
        let beam = if ef < k {
            k
        } else {
            ef
        };
        let vecs = self@.vecs;
        let start = descended::<M>(vecs, self@.layers, q, self@.top, 0, seq![entry]);
        let reached = search::reachable(base, start);
        let found = found_by::<M>(q, vecs, base, start, beam);
        self.lemma_wf();
        assert(self@.layers[self@.top as int] == self.layers@[self@.top as int]@);
        lemma_descends::<M>(self.layers@, vecs, q, self@.top, 0, seq![entry]);
        assert forall|l: int| 0 <= l < self@.layers.len() implies (
        #[trigger] self@.layers[l]).dom().finite() && search::closed_under(
            self@.layers[l],
            self@.layers[l].dom(),
        ) by {
            assert(self@.layers[l] == self.layers@[l]@);
            assert(walkable(&self.layers@[l], self.vectors.size()));
            self.layers@[l].lemma_order();
        }
        assert forall|l: int, n: NodeId|
            0 < l <= self@.top && #[trigger] self@.layers[l].contains_key(n) implies self@.layers[l
            - 1].contains_key(n) by {
            assert(self@.layers[l] == self.layers@[l]@);
            assert(self@.layers[l - 1] == self.layers@[l - 1]@);
        }
        assert(base == self.layers@[0]@);
        let first = seq![entry];
        if self@.top > 0 {
            graph::lemma_descended_optimum::<M>(vecs, self@.layers, q, self@.top, 0, first);
            assert(!candidate::before(
                search::score::<M>(q, vecs, first[0]),
                search::score::<M>(q, vecs, start[0]),
            ));
        } else {
            assert(start == first);
        }
        assert(start.to_set().subset_of(base.dom())) by {
            assert forall|n: NodeId| start.to_set().contains(n) implies base.dom().contains(n) by {
                let i = start.index_of(n);
                assert(self.layers@[0]@.contains_key(start[i]));
            }
        }
        search::lemma_reachable(base, start, base.dom());
        graph::lemma_answer_is_nearest::<M>(self@, q, k, ef, beam);
        self.lemma_answer::<M>(q, k, ef);
        search::lemma_nearest_of_scored::<M>(q, vecs, base, start, beam);
        search::lemma_found_exactly::<M>(q, vecs, base, start, beam);
        let scored = search::finished::<M>(q, vecs, base, start, beam).visited;
        assert(scored.contains(start[0]));
        assert(r[0] == search::score::<M>(q, vecs, start[0]) || candidate::before(
            r[0],
            search::score::<M>(q, vecs, start[0]),
        ));
        let at_entry = search::score::<M>(q, vecs, entry);
        let at_start = search::score::<M>(q, vecs, start[0]);
        if candidate::before(at_entry, r[0]) {
            if r[0] != at_start {
                candidate::lemma_before_transitive(at_entry, r[0], at_start);
            }
        }
        assert forall|n: NodeId| #[trigger] scored.contains(n) implies r.contains(
            search::score::<M>(q, vecs, n),
        ) || (r.len() == k && candidate::before(r.last(), search::score::<M>(q, vecs, n))) by {}
        assert forall|i: int, j: int| 0 <= i < r.len() && 0 <= j < base[r[i].id].len() implies
            r.contains(search::score::<M>(q, vecs, #[trigger] base[r[i].id][j])) || (r.len() == k
            && candidate::before(r.last(), search::score::<M>(q, vecs, base[r[i].id][j]))) by {
            assert(r[i] == found[i]);
            assert(scored.contains(base[found[i].id][j]));
        }
        if ef >= reached.len() {
            assert forall|n: NodeId| #[trigger] reached.contains(n) implies r.contains(
                search::score::<M>(q, vecs, n),
            ) || (r.len() == k && candidate::before(
                r.last(),
                search::score::<M>(q, vecs, n),
            )) by {
                let c = search::score::<M>(q, vecs, n);
                assert(found.contains(c));
                let at = found.index_of(c);
                assert(found[at].id == n);
                assert(scored.contains(found[at].id));
            }
        }
    }
}

/// Asking for fewer neighbours gives the nearest of them: with a beam that is wide enough for both,
/// the shorter answer is the leading part of the longer one.
pub proof fn lemma_fewer_asked<M: Metric>(g: Graph, q: Seq<u32>, fewer: nat, k: nat, ef: nat)
    requires
        fewer <= k <= ef,
    ensures
        ({
            let short = answer::<M>(g, q, fewer, ef);
            let long = answer::<M>(g, q, k, ef);
            &&& short.len() == if fewer < long.len() {
                fewer
            } else {
                long.len()
            }
            &&& short == long.take(short.len() as int)
        }),
{
    let short = answer::<M>(g, q, fewer, ef);
    let long = answer::<M>(g, q, k, ef);
    assert(short =~= long.take(short.len() as int));
}

/// A beam narrower than `k` is widened to `k`.
pub proof fn lemma_beam_is_clamped<M: Metric>(g: Graph, q: Seq<u32>, k: nat, ef: nat)
    requires
        ef <= k,
    ensures
        answer::<M>(g, q, k, ef) == answer::<M>(g, q, k, k),
{
}

/// The graph of an index that holds nothing.
pub open spec fn empty_graph() -> Graph {
    Graph {
        vecs: Seq::empty(),
        levels: Seq::empty(),
        layers: seq![Map::empty()],
        entry: None,
        top: 0,
    }
}

/// A vector can be inserted if and only if it has the right number of components, all of them are
/// finite, and there is a number left for it. The refusal names the first component that is not
/// finite.
pub proof fn lemma_refused(size: nat, dim: nat, vector: Seq<u32>)
    requires
        size < usize::MAX,
        dim <= usize::MAX,
        vector.len() <= usize::MAX,
    ensures
        refused_at(size, dim, vector) is None <==> {
            &&& vector.len() == dim
            &&& forall|i: int| 0 <= i < vector.len() ==> bits::finite(#[trigger] vector[i])
            &&& size < 0xFFFF_FFFF
        },
        match refused_at(size, dim, vector) {
            Some(IndexError::DimMismatch { expected, found }) => expected == dim && found
                == vector.len() && expected != found,
            Some(IndexError::Vector(VectorError::NonFinite { vector: at, component, value })) => {
                &&& at == size
                &&& component < vector.len()
                &&& value == vector[component as int]
                &&& !bits::finite(value)
                &&& forall|i: int| 0 <= i < component ==> bits::finite(#[trigger] vector[i])
            },
            Some(IndexError::Vector(VectorError::TooManyVectors { count })) => count == size + 1
                && size >= 0xFFFF_FFFF,
            Some(_) => false,
            None => true,
        },
{
    vector_store::lemma_first_non_finite(vector);
}

/// Stored parts make an index if and only if they agree with each other: a level for every vector, a
/// layer for every level up to the topmost, none above the first without a vector, an entry point
/// that there is a vector for, and layers with the right room and kind that name only nodes that
/// there are vectors for.
pub proof fn lemma_parts_accepted(
    size: nat,
    params: HnswParams,
    layers: Seq<Layer>,
    levels: nat,
    entry: Option<NodeId>,
    top: int,
)
    ensures
        parts_error(size, params, layers, levels, entry, top) is None <==> {
            &&& levels == size
            &&& layers.len() == top + 1
            &&& size == 0 ==> top == 0
            &&& entry matches Some(node) ==> node < size
            &&& forall|l: int|
                0 <= l < layers.len() ==> {
                    &&& (#[trigger] layers[l]).cap() == if l == 0 {
                        params.base_cap()
                    } else {
                        params.links()
                    }
                    &&& layers[l].dense_spec() == (l == 0)
                    &&& l == 0 ==> layers[l].slots() == size
                    &&& forall|i: int|
                        0 <= i < layers[l].order().len() ==> (#[trigger] layers[l].order()[i]) < size
                }
        },
{
    let check = stored_layer_check(layers, params, size);
    lemma_first_none(layers.len() as int, check);
    assert forall|l: int| 0 <= l < layers.len() implies ((#[trigger] check(l)) is None <==> {
        &&& layers[l].cap() == if l == 0 {
            params.base_cap()
        } else {
            params.links()
        }
        &&& layers[l].dense_spec() == (l == 0)
        &&& l == 0 ==> layers[l].slots() == size
        &&& forall|i: int|
            0 <= i < layers[l].order().len() ==> (#[trigger] layers[l].order()[i]) < size
    }) by {
        let inner = unknown_node_check(layers[l], l, size);
        let n = layers[l].order().len() as int;
        lemma_first_none(n, inner);
        if first_of(n, inner) is None {
            assert forall|i: int| 0 <= i < n implies (#[trigger] layers[l].order()[i]) < size by {
                assert(inner(i) is None);
            }
        }
        if forall|i: int| 0 <= i < n ==> (#[trigger] layers[l].order()[i]) < size {
            assert forall|i: int| 0 <= i < n implies (#[trigger] inner(i)) is None by {
                assert(layers[l].order()[i] < size);
            }
        }
    }
    if forall|l: int| 0 <= l < layers.len() ==> (#[trigger] check(l)) is None {
        assert forall|l: int| 0 <= l < layers.len() implies {
            &&& (#[trigger] layers[l]).cap() == if l == 0 {
                params.base_cap()
            } else {
                params.links()
            }
            &&& layers[l].dense_spec() == (l == 0)
            &&& l == 0 ==> layers[l].slots() == size
            &&& forall|i: int|
                0 <= i < layers[l].order().len() ==> (#[trigger] layers[l].order()[i]) < size
        } by {
            assert(check(l) is None);
        }
    } else {
        let l = choose|l: int| 0 <= l < layers.len() && !((#[trigger] check(l)) is None);
        assert(layers[l].cap() == layers[l].cap());
    }
}

} // verus!
