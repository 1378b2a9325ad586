//! Neighbour storage for one layer of the graph.
//!
//! Adjacency lives in a single flat `Vec`, one fixed-capacity slot per node:
//!
//! ```text
//! [ degree, n0, n1, ..., n_{max_degree-1} ][ degree, n0, ... ] ...
//! ```
//!
//! Layer 0 holds every node, and there the slot is the node id. Layers above it are sparse: they
//! keep a table from node to slot and allocate slots only for the nodes they hold.

use vstd::prelude::*;

use crate::mem::{self, clamped};
use crate::NodeId;

verus! {

/// Marks a node absent from a sparse layer. No slot has this index: slots are bounded by the
/// number of nodes.
pub const NO_SLOT: u32 = 0xFFFF_FFFF;

/// A layer's two arrays do not describe a layer.
#[derive(Clone, Copy, Debug, PartialEq, Eq, Structural)]
pub enum LayerShapeError {
    /// The adjacency array does not divide into slots.
    RaggedAdjacency { len: usize, stride: usize },
    /// A dense layer carries a slot table.
    DenseLayerHasSlotTable { len: usize },
    /// As many nodes as slots were expected.
    SlotCountMismatch { nodes: usize, slots: usize },
    /// A node occupies two slots.
    DuplicateNode { node: NodeId },
}

/// Adjacency for a single layer.
#[derive(Debug)]
pub struct Layer {
    /// Node to slot for a sparse layer, nothing on a dense one.
    slot_of: Option<Vec<u32>>,
    /// Slot to node for a sparse layer, empty on a dense one.
    nodes: Vec<NodeId>,
    /// Flat adjacency, `max_degree + 1` entries per slot.
    neighbors: Vec<NodeId>,
    max_degree: usize,
}

/// The neighbour list in slot `slot` of a flat adjacency array: as many entries as the degree at
/// the head of the slot says, and never more than the slot has room for.
pub open spec fn slot_list(raw: Seq<NodeId>, stride: int, slot: int) -> Seq<NodeId> {
    let start = slot * stride;
    let degree = if raw[start] < stride {
        raw[start] as int
    } else {
        stride - 1
    };
    raw.subrange(start + 1, start + 1 + degree)
}

pub proof fn lemma_slot_bounds(slot: int, stride: int, slots: int)
    requires
        0 <= slot < slots,
        stride >= 1,
    ensures
        0 <= slot * stride,
        slot * stride + stride <= slots * stride,
{
    assert(slot * stride + stride == (slot + 1) * stride) by (nonlinear_arith);
    assert((slot + 1) * stride <= slots * stride) by (nonlinear_arith)
        requires
            slot + 1 <= slots,
            stride >= 1,
    ;
    assert(0 <= slot * stride) by (nonlinear_arith)
        requires
            0 <= slot,
            stride >= 1,
    ;
}

/// Distinct slots do not overlap.
pub proof fn lemma_slots_apart(a: int, b: int, stride: int)
    requires
        a < b,
        stride >= 1,
    ensures
        a * stride + stride <= b * stride,
{
    assert(a * stride + stride == (a + 1) * stride) by (nonlinear_arith);
    assert((a + 1) * stride <= b * stride) by (nonlinear_arith)
        requires
            a + 1 <= b,
            stride >= 1,
    ;
}

pub proof fn lemma_exact_division(slots: int, stride: int)
    requires
        slots >= 0,
        stride >= 1,
    ensures
        (slots * stride) / stride == slots,
        (slots * stride) % stride == 0,
{
    vstd::arithmetic::div_mod::lemma_div_multiples_vanish(slots, stride);
    vstd::arithmetic::div_mod::lemma_mod_multiples_basic(slots, stride);
    assert(slots * stride == stride * slots) by (nonlinear_arith);
}

impl View for Layer {
    type V = Map<NodeId, Seq<NodeId>>;

    /// The nodes on the layer, each with its neighbour list.
    closed spec fn view(&self) -> Map<NodeId, Seq<NodeId>> {
        Map::new(
            |node: NodeId| self.slot_at(node) is Some,
            |node: NodeId| slot_list(self.neighbors@, self.slots_of_stride(), self.slot_at(node)->0),
        )
    }
}

/// What a layer's tables take, at four bytes to an entry.
pub open spec fn table_bytes(slots: usize, nodes: usize, raw: usize) -> usize {
    clamped(4 * (slots + nodes + raw))
}

/// The bytes that a layer takes with room for `slots` entries in the table that finds a node's
/// slot, for `nodes` in the table of the slots' nodes and for `raw` neighbours, or the largest
/// number there is.
pub fn bytes_of(slots: usize, nodes: usize, raw: usize) -> (r: usize)
    ensures
        r == table_bytes(slots, nodes, raw),
{
    mem::bytes_for(slots, 4).saturating_add(mem::bytes_for(nodes, 4)).saturating_add(
        mem::bytes_for(raw, 4),
    )
}

impl Layer {
    spec fn slots_of_stride(&self) -> int {
        self.max_degree + 1
    }

    spec fn slot_at(&self, node: NodeId) -> Option<int> {
        match self.slot_of {
            None => if node < self.slots() {
                Some(node as int)
            } else {
                None
            },
            Some(table) => if node < table@.len() && table@[node as int] != NO_SLOT {
                Some(table@[node as int] as int)
            } else {
                None
            },
        }
    }

    /// Number of slots, which is the number of nodes on the layer.
    pub closed spec fn slots(&self) -> int {
        self.neighbors@.len() as int / (self.max_degree + 1)
    }

    /// The most neighbours a node may have.
    pub closed spec fn cap(&self) -> nat {
        self.max_degree as nat
    }

    pub closed spec fn dense_spec(&self) -> bool {
        self.slot_of is None
    }

    /// The flat adjacency array.
    pub closed spec fn raw(&self) -> Seq<NodeId> {
        self.neighbors@
    }

    /// Slot to node, empty on a dense layer.
    pub closed spec fn table(&self) -> Seq<NodeId> {
        self.nodes@
    }

    /// The nodes in insertion order.
    pub open spec fn order(&self) -> Seq<NodeId> {
        if self.dense_spec() {
            Seq::new(self.slots() as nat, |i: int| i as NodeId)
        } else {
            self.table()
        }
    }

    /// The degree written in `node`'s slot.
    pub closed spec fn written_degree(&self, node: NodeId) -> nat {
        self.neighbors@[self.slot_at(node)->0 * (self.max_degree + 1)] as nat
    }

    /// The arrays fit together: the adjacency divides into slots, and on a sparse layer the table
    /// from nodes to slots is the inverse of the one from slots to nodes.
    pub closed spec fn wf(&self) -> bool {
        &&& self.max_degree < usize::MAX
        &&& self.neighbors@.len() == self.slots() * (self.max_degree + 1)
        &&& 0 <= self.slots() <= u32::MAX
        &&& match self.slot_of {
            None => self.nodes@.len() == 0,
            Some(table) => {
                &&& self.nodes@.len() == self.slots()
                &&& forall|slot: int|
                    0 <= slot < self.nodes@.len() ==> (#[trigger] self.nodes@[slot]) < table@.len()
                        && table@[self.nodes@[slot] as int] == slot
                &&& forall|node: int|
                    0 <= node < table@.len() && #[trigger] table@[node] != NO_SLOT ==> table@[node]
                        < self.nodes@.len() && self.nodes@[table@[node] as int] == node
            },
        }
    }

    /// Every slot holds no more neighbours than it has room for.
    pub open spec fn capped(&self) -> bool {
        forall|node: NodeId| #[trigger]
            self@.contains_key(node) ==> self.written_degree(node) <= self.cap()
    }

    proof fn lemma_slot_at(&self, node: NodeId)
        requires
            self.wf(),
            self.slot_at(node) is Some,
        ensures
            0 <= self.slot_at(node)->0 < self.slots(),
            0 <= self.slot_at(node)->0 * (self.max_degree + 1),
            self.slot_at(node)->0 * (self.max_degree + 1) + self.max_degree + 1
                <= self.neighbors@.len(),
    {
        if self.slot_of is Some {
            let table = self.slot_of->0;
            assert(table@[node as int] != NO_SLOT);
        }
        lemma_slot_bounds(self.slot_at(node)->0, self.max_degree + 1, self.slots());
    }

    /// Two nodes on the layer have different slots.
    proof fn lemma_slots_differ(&self, a: NodeId, b: NodeId)
        requires
            self.wf(),
            self.slot_at(a) is Some,
            self.slot_at(b) is Some,
            a != b,
        ensures
            self.slot_at(a)->0 != self.slot_at(b)->0,
    {
        if self.slot_of is Some {
            let table = self.slot_of->0;
            assert(table@[a as int] != NO_SLOT);
            assert(table@[b as int] != NO_SLOT);
        }
    }

    /// What a well-formed layer guarantees of its view.
    pub proof fn lemma_view(&self, node: NodeId)
        requires
            self.wf(),
            self@.contains_key(node),
        ensures
            self@[node].len() <= self.cap(),
            self.written_degree(node) <= self.cap() ==> self@[node].len() == self.written_degree(
                node,
            ),
    {
        self.lemma_slot_at(node);
    }

    /// A degree is written as one entry of the adjacency array.
    pub proof fn lemma_written_degree(&self, node: NodeId)
        ensures
            self.written_degree(node) <= u32::MAX,
    {
    }

    /// The nodes of [`Self::order`] are exactly the nodes of the view, each once.
    pub proof fn lemma_order(&self)
        requires
            self.wf(),
        ensures
            self.order().len() == self.slots(),
            self.order().no_duplicates(),
            forall|node: NodeId| #[trigger] self@.contains_key(node) <==> self.order().contains(node),
            self@.dom().finite(),
            self@.dom().len() == self.slots(),
    {
        let order = self.order();
        if self.slot_of is None {
            assert forall|node: NodeId| #[trigger] self@.contains_key(node) implies order.contains(
                node,
            ) by {
                assert(order[node as int] == node);
            }
        } else {
            let table = self.slot_of->0;
            assert forall|i: int, j: int| 0 <= i < j < order.len() implies order[i] != order[j] by {
                assert(table@[self.nodes@[i] as int] == i);
                assert(table@[self.nodes@[j] as int] == j);
            }
            assert forall|node: NodeId| #[trigger] self@.contains_key(node) implies order.contains(
                node,
            ) by {
                assert(table@[node as int] != NO_SLOT);
                assert(order[table@[node as int] as int] == node);
            }
            assert forall|node: NodeId| order.contains(node) implies #[trigger] self@.contains_key(
                node,
            ) by {
                let i = order.index_of(node);
                assert(table@[self.nodes@[i] as int] == i);
            }
        }
        assert(self@.dom() =~= order.to_set());
        order.unique_seq_to_set();
    }

    /// A dense layer holds the node ids from zero up, a sparse one those of its table.
    pub proof fn lemma_dense_dom(&self)
        requires
            self.wf(),
        ensures
            self.dense_spec() ==> forall|node: NodeId| #[trigger]
                self@.contains_key(node) <==> node < self.slots(),
            0 <= self.slots() <= u32::MAX,
            self.cap() < usize::MAX,
    {
    }

    /// Only a sparse layer has a table, with one node for each slot.
    pub proof fn lemma_table(&self)
        requires
            self.wf(),
        ensures
            self.table().len() == if self.dense_spec() {
                0
            } else {
                self.slots()
            },
    {
    }

    /// The adjacency array is as long as its slots.
    pub proof fn lemma_raw_len(&self)
        requires
            self.wf(),
        ensures
            self.raw().len() == self.slots() * (self.cap() + 1),
    {
    }

    /// Layer 0: every node is present, slot index equals node id.
    pub fn dense(max_degree: usize, capacity: usize) -> (r: Self)
        requires
            max_degree < usize::MAX,
            capacity * (max_degree + 1) <= usize::MAX,
        ensures
            r.wf(),
            r.capped(),
            r.dense_spec(),
            r.cap() == max_degree,
            r@ == Map::<NodeId, Seq<NodeId>>::empty(),
            r.raw().len() == 0,
            r.slots() == 0,
    {
        let r = Layer {
            slot_of: None,
            nodes: Vec::new(),
            neighbors: Vec::with_capacity(capacity * (max_degree + 1)),
            max_degree,
        };
        proof {
            lemma_exact_division(0, max_degree + 1);
            assert(r@ =~= Map::<NodeId, Seq<NodeId>>::empty());
        }
        r
    }

    /// Layers above 0: only the nodes assigned to this layer get a slot.
    pub fn sparse(max_degree: usize) -> (r: Self)
        requires
            max_degree < usize::MAX,
        ensures
            r.wf(),
            r.capped(),
            !r.dense_spec(),
            r.cap() == max_degree,
            r@ == Map::<NodeId, Seq<NodeId>>::empty(),
            r.raw().len() == 0,
            r.slots() == 0,
    {
        let r = Layer {
            slot_of: Some(Vec::new()),
            nodes: Vec::new(),
            neighbors: Vec::new(),
            max_degree,
        };
        proof {
            lemma_exact_division(0, max_degree + 1);
            assert(r@ =~= Map::<NodeId, Seq<NodeId>>::empty());
        }
        r
    }

    pub fn max_degree(&self) -> (r: usize)
        ensures
            r == self.cap(),
    {
        self.max_degree
    }

    /// Number of nodes present in this layer.
    pub fn len(&self) -> (r: usize)
        requires
            self.wf(),
        ensures
            r == self@.dom().len(),
            r == self.slots(),
    {
        proof {
            self.lemma_order();
        }
        if self.slot_of.is_some() {
            self.nodes.len()
        } else {
            self.neighbors.len() / self.stride()
        }
    }

    pub fn is_empty(&self) -> (r: bool)
        requires
            self.wf(),
        ensures
            r == (self@.dom().len() == 0),
    {
        self.len() == 0
    }

    pub fn is_dense(&self) -> (r: bool)
        ensures
            r == self.dense_spec(),
    {
        self.slot_of.is_none()
    }

    fn stride(&self) -> (r: usize)
        requires
            self.wf(),
        ensures
            r == self.max_degree + 1,
    {
        self.max_degree + 1
    }

    fn slot(&self, node: NodeId) -> (r: Option<usize>)
        requires
            self.wf(),
        ensures
            match r {
                Some(slot) => self.slot_at(node) == Some(slot as int),
                None => self.slot_at(node) is None,
            },
    {
        match &self.slot_of {
            None => {
                let slot: usize = node as usize;
                if slot < self.neighbors.len() / self.stride() {
                    Some(slot)
                } else {
                    None
                }
            },
            Some(table) => {
                if (node as usize) < table.len() && table[node as usize] != NO_SLOT {
                    Some(table[node as usize] as usize)
                } else {
                    None
                }
            },
        }
    }

    pub fn contains(&self, node: NodeId) -> (r: bool)
        requires
            self.wf(),
        ensures
            r == self@.contains_key(node),
    {
        self.slot(node).is_some()
    }

    /// Adds `node` with an empty neighbour list and returns its slot.
    pub fn add(&mut self, node: NodeId) -> (slot: usize)
        requires
            old(self).wf(),
            !old(self)@.contains_key(node),
            old(self).dense_spec() ==> node == old(self).slots(),
            old(self).slots() < u32::MAX,
            node < usize::MAX,
            old(self).raw().len() + old(self).cap() + 1 <= usize::MAX,
        ensures
            final(self).wf(),
            final(self)@ == old(self)@.insert(node, Seq::empty()),
            old(self).capped() ==> final(self).capped(),
            final(self).dense_spec() == old(self).dense_spec(),
            final(self).cap() == old(self).cap(),
            final(self).slots() == old(self).slots() + 1,
            slot == old(self).slots(),
            final(self).raw() == old(self).raw() + Seq::new(old(self).cap() + 1, |i: int| 0u32),
            !old(self).dense_spec() ==> final(self).table() == old(self).table().push(node),
    {
        let ghost before = *self;
        proof {
            self.lemma_order();
        }
        let slot: usize = self.len();
        let stride: usize = self.stride();
        if let Some(table) = &mut self.slot_of {
            let needed: usize = node as usize + 1;
            if table.len() < needed {
                table.resize(needed, NO_SLOT);
            }
            table[node as usize] = slot as u32;
            self.nodes.push(node);
        }
        let filled: usize = self.neighbors.len() + stride;
        self.neighbors.resize(filled, 0);
        proof {
            let stride = stride as int;
            let slots = before.slots();
            assert(slots * stride + stride == (slots + 1) * stride) by (nonlinear_arith);
            lemma_exact_division(slots + 1, stride);
            assert(self.neighbors@ =~= before.neighbors@ + Seq::new(
                (before.cap() + 1) as nat,
                |i: int| 0u32,
            ));
            assert forall|n: NodeId| #[trigger] before.slot_at(n) is Some implies self.slot_at(n)
                == before.slot_at(n) && n != node by {
                if before.slot_of is Some {
                    assert(before.slot_of->0@[n as int] != NO_SLOT);
                }
                assert(before@.contains_key(n));
            }
            if self.slot_of is Some {
                let table = self.slot_of->0;
                let old_table = before.slot_of->0;
                assert forall|s: int| 0 <= s < self.nodes@.len() implies (
                #[trigger] self.nodes@[s]) < table@.len() && table@[self.nodes@[s] as int] == s by {
                    if s < before.nodes@.len() {
                        assert(before.nodes@[s] == self.nodes@[s]);
                        assert(before.slot_at(before.nodes@[s]) is Some);
                    }
                }
                assert forall|n: int|
                    0 <= n < table@.len() && #[trigger] table@[n] != NO_SLOT implies table@[n]
                    < self.nodes@.len() && self.nodes@[table@[n] as int] == n by {
                    if n != node {
                        assert(n < old_table@.len());
                        assert(old_table@[n] == table@[n]);
                    }
                }
            }
            assert(self.slot_at(node) == Some(slots));
            assert forall|n: NodeId| before.slot_at(n) is None && n != node implies #[trigger]
                self.slot_at(n) is None by {
                if before.slot_of is Some {
                    if n < before.slot_of->0@.len() {
                        assert(self.slot_of->0@[n as int] == before.slot_of->0@[n as int]);
                    }
                }
            }
            assert forall|n: NodeId| #[trigger] before.slot_at(n) is Some implies slot_list(
                self.neighbors@,
                stride,
                self.slot_at(n)->0,
            ) == slot_list(before.neighbors@, stride, before.slot_at(n)->0) by {
                before.lemma_slot_at(n);
                let at = before.slot_at(n)->0 * stride;
                assert(self.neighbors@[at] == before.neighbors@[at]);
            }
            assert(slot_list(self.neighbors@, stride, slots) =~= Seq::empty());
            assert(self@ =~= before@.insert(node, Seq::empty()));
            if before.capped() {
                assert forall|n: NodeId| #[trigger] self@.contains_key(n) implies self.written_degree(n)
                    <= self.cap() by {
                    if n != node {
                        assert(before@.contains_key(n));
                        before.lemma_slot_at(n);
                    }
                }
            }
        }
        slot
    }

    /// Where the slot of a node on the layer starts in the adjacency array.
    fn start_of(&self, node: NodeId) -> (r: usize)
        requires
            self.wf(),
            self@.contains_key(node),
        ensures
            r == self.slot_at(node)->0 * (self.max_degree + 1),
            r + self.max_degree + 1 <= self.neighbors@.len(),
            self.neighbors@.len() <= usize::MAX,
    {
        proof {
            self.lemma_slot_at(node);
        }
        let total: usize = self.neighbors.len();
        let slot: usize = match self.slot(node) {
            Some(slot) => slot,
            None => 0,
        };
        slot * self.stride()
    }

    /// Neighbours of `node`.
    pub fn neighbors(&self, node: NodeId) -> (r: &[NodeId])
        requires
            self.wf(),
            self@.contains_key(node),
            self.capped() || self.written_degree(node) <= self.cap(),
        ensures
            r@ == self@[node],
    {
        proof {
            self.lemma_slot_at(node);
        }
        let start: usize = self.start_of(node);
        let degree: usize = self.neighbors[start] as usize;
        vstd::slice::slice_subrange(self.neighbors.as_slice(), start + 1, start + 1 + degree)
    }

    pub fn degree(&self, node: NodeId) -> (r: usize)
        requires
            self.wf(),
            self@.contains_key(node),
        ensures
            r == self.written_degree(node),
            self.capped() ==> r == self@[node].len(),
    {
        proof {
            self.lemma_slot_at(node);
            self.lemma_view(node);
        }
        self.neighbors[self.start_of(node)] as usize
    }

    /// What a write inside one slot leaves of the layer.
    proof fn lemma_slot_written(&self, before: &Layer, node: NodeId)
        requires
            before.wf(),
            before@.contains_key(node),
            self.slot_of == before.slot_of,
            self.nodes == before.nodes,
            self.max_degree == before.max_degree,
            self.neighbors@.len() == before.neighbors@.len(),
            forall|i: int|
                0 <= i < before.neighbors@.len() && !(before.slot_at(node)->0 * (before.max_degree
                    + 1) <= i < before.slot_at(node)->0 * (before.max_degree + 1)
                    + before.max_degree + 1) ==> self.neighbors@[i] == before.neighbors@[i],
            self.neighbors@[before.slot_at(node)->0 * (before.max_degree + 1)] <= before.max_degree,
        ensures
            self.wf(),
            self@ == before@.insert(
                node,
                slot_list(self.neighbors@, before.max_degree + 1, before.slot_at(node)->0),
            ),
            before.capped() ==> self.capped(),
            self.slots() == before.slots(),
    {
        let stride = before.max_degree + 1;
        before.lemma_slot_at(node);
        assert(forall|n: NodeId| self.slot_at(n) == before.slot_at(n));
        assert forall|n: NodeId| #[trigger] before@.contains_key(n) && n != node implies slot_list(
            self.neighbors@,
            stride,
            self.slot_at(n)->0,
        ) == slot_list(before.neighbors@, stride, before.slot_at(n)->0) && self.written_degree(n)
            == before.written_degree(n) by {
            before.lemma_slots_differ(node, n);
            before.lemma_slot_at(n);
            let a = before.slot_at(n)->0;
            let b = before.slot_at(node)->0;
            if a < b {
                lemma_slots_apart(a, b, stride);
            } else {
                lemma_slots_apart(b, a, stride);
            }
            assert(slot_list(self.neighbors@, stride, a) =~= slot_list(before.neighbors@, stride, a));
        }
        let after = before@.insert(
            node,
            slot_list(self.neighbors@, stride, before.slot_at(node)->0),
        );
        assert(self.slots() == before.slots());
        assert forall|n: NodeId| self@.contains_key(n) == #[trigger] after.contains_key(n) by {
            assert(self.slot_at(n) == before.slot_at(n));
        }
        assert forall|n: NodeId| #[trigger] after.contains_key(n) implies self@[n] == after[n] by {
            assert(self.slot_at(n) == before.slot_at(n));
            if n != node {
                assert(before@.contains_key(n));
            }
        }
        assert(self@ =~= after);
        if before.capped() {
            assert forall|n: NodeId| #[trigger] self@.contains_key(n) implies self.written_degree(n)
                <= self.cap() by {
                assert(before@.contains_key(n));
            }
        }
    }

    /// Replaces the neighbour list of `node`.
    pub fn set_neighbors(&mut self, node: NodeId, neighbors: &[NodeId])
        requires
            old(self).wf(),
            old(self)@.contains_key(node),
            neighbors@.len() <= old(self).cap(),
            neighbors@.len() <= u32::MAX,
        ensures
            final(self).wf(),
            final(self)@ == old(self)@.insert(node, neighbors@),
            old(self).capped() ==> final(self).capped(),
            final(self).dense_spec() == old(self).dense_spec(),
            final(self).cap() == old(self).cap(),
            final(self).slots() == old(self).slots(),
            final(self).table() == old(self).table(),
            final(self).raw().len() == old(self).raw().len(),
    {
        let ghost before = *self;
        proof {
            self.lemma_slot_at(node);
        }
        let start: usize = self.start_of(node);
        let count: usize = neighbors.len();
        self.neighbors[start] = count as NodeId;
        let mut i: usize = 0;
        while i < count
            invariant
                i <= count,
                count == neighbors@.len(),
                count <= before.max_degree,
                before.wf(),
                start + before.max_degree + 1 <= before.neighbors@.len() <= usize::MAX,
                self.slot_of == before.slot_of,
                self.nodes == before.nodes,
                self.max_degree == before.max_degree,
                self.neighbors@.len() == before.neighbors@.len(),
                self.neighbors@[start as int] == count,
                forall|j: int| 0 <= j < i ==> self.neighbors@[start + 1 + j] == neighbors@[j],
                forall|j: int|
                    0 <= j < before.neighbors@.len() && !(start <= j < start + before.max_degree
                        + 1) ==> self.neighbors@[j] == before.neighbors@[j],
            decreases count - i,
        {
            self.neighbors[start + 1 + i] = neighbors[i];
            i += 1;
        }
        proof {
            self.lemma_slot_written(&before, node);
            assert(slot_list(self.neighbors@, before.max_degree + 1, before.slot_at(node)->0)
                =~= neighbors@);
        }
    }

    /// Appends one neighbour if there is room, and reports whether there was.
    pub fn push_neighbor(&mut self, node: NodeId, neighbor: NodeId) -> (r: bool)
        requires
            old(self).wf(),
            old(self).capped(),
            old(self)@.contains_key(node),
            old(self)@[node].len() < u32::MAX,
        ensures
            r == (old(self)@[node].len() < old(self).cap()),
            r ==> final(self)@ == old(self)@.insert(node, old(self)@[node].push(neighbor)),
            !r ==> *final(self) == *old(self),
            final(self).wf(),
            final(self).capped(),
            final(self).dense_spec() == old(self).dense_spec(),
            final(self).cap() == old(self).cap(),
            final(self).slots() == old(self).slots(),
            final(self).table() == old(self).table(),
            final(self).raw().len() == old(self).raw().len(),
    {
        let ghost before = *self;
        proof {
            self.lemma_slot_at(node);
            self.lemma_view(node);
        }
        let start: usize = self.start_of(node);
        let degree: usize = self.neighbors[start] as usize;
        if degree >= self.max_degree {
            return false;
        }
        self.neighbors[start + 1 + degree] = neighbor;
        self.neighbors[start] = (degree + 1) as NodeId;
        proof {
            self.lemma_slot_written(&before, node);
            assert(slot_list(self.neighbors@, before.max_degree + 1, before.slot_at(node)->0)
                =~= before@[node].push(neighbor));
        }
        true
    }

    /// Every node in this layer, in insertion order.
    pub fn nodes(&self) -> (r: Vec<NodeId>)
        requires
            self.wf(),
        ensures
            r@ == self.order(),
            r@.no_duplicates(),
            forall|node: NodeId| #[trigger] r@.contains(node) <==> self@.contains_key(node),
    {
        proof {
            self.lemma_order();
        }
        let count: usize = self.len();
        let mut r: Vec<NodeId> = Vec::with_capacity(count);
        let mut i: usize = 0;
        while i < count
            invariant
                i <= count,
                self.wf(),
                count == self.slots(),
                count == self.order().len(),
                r@ =~= self.order().take(i as int),
            decreases count - i,
        {
            if self.slot_of.is_some() {
                r.push(self.nodes[i]);
            } else {
                r.push(i as NodeId);
            }
            i += 1;
        }
        proof {
            assert(r@ =~= self.order());
        }
        r
    }

    /// How far the table that finds a node's slot reaches.
    pub closed spec fn reach(&self) -> nat {
        match self.slot_of {
            Some(table) => table@.len(),
            None => 0,
        }
    }

    /// This layer's tables can take this many bytes: what they take with some room in each of
    /// them, which is at least what is in use. A dense layer has no table that finds slots.
    pub open spec fn takes(&self, bytes: usize) -> bool {
        exists|slots: usize, nodes: usize, raw: usize| #[trigger]
            table_bytes(slots, nodes, raw) == bytes && slots >= self.reach() && nodes
                >= self.table().len() && raw >= self.raw().len() && (self.dense_spec() ==> slots
                == 0)
    }

    /// Bytes held by this layer's tables. How much room the allocator gave each of them beyond
    /// what is in use is not said.
    pub fn memory_bytes(&self) -> (r: usize)
        ensures
            self.takes(r),
    {
        let slots: usize = match &self.slot_of {
            Some(table) => mem::capacity_of(table),
            None => 0,
        };
        bytes_of(slots, mem::capacity_of(&self.nodes), mem::capacity_of(&self.neighbors))
    }

    /// The flat adjacency array, exactly as it is laid out in memory.
    pub fn raw_neighbors(&self) -> (r: &[NodeId])
        ensures
            r@ == self.raw(),
    {
        self.neighbors.as_slice()
    }

    /// Slot to node for a sparse layer; empty for a dense one, where it is the identity.
    pub fn slot_nodes(&self) -> (r: &[NodeId])
        ensures
            r@ == self.table(),
    {
        self.nodes.as_slice()
    }

    /// Rebuilds a layer from the two arrays that [`Self::raw_neighbors`] and [`Self::slot_nodes`]
    /// return. Only the shape is checked: whether the contents make a graph is for
    /// [`crate::hnsw::index::HnswIndex::validate`].
    pub fn from_parts(
        max_degree: usize,
        dense: bool,
        nodes: Vec<NodeId>,
        neighbors: Vec<NodeId>,
    ) -> (r: Result<Self, LayerShapeError>)
        requires
            max_degree < usize::MAX,
            neighbors@.len() / ((max_degree + 1) as nat) <= u32::MAX,
            forall|i: int| 0 <= i < nodes@.len() ==> nodes@[i] < usize::MAX,
        ensures
            match r {
                Ok(layer) => {
                    &&& layer.wf()
                    &&& layer.cap() == max_degree
                    &&& layer.dense_spec() == dense
                    &&& layer.raw() == neighbors@
                    &&& layer.table() == nodes@
                    &&& shape_error(max_degree, dense, nodes@, neighbors@) is None
                },
                Err(e) => shape_error(max_degree, dense, nodes@, neighbors@) == Some(e),
            },
    {
        let stride: usize = max_degree + 1;
        if neighbors.len() % stride != 0 {
            return Err(LayerShapeError::RaggedAdjacency { len: neighbors.len(), stride });
        }
        let slots: usize = neighbors.len() / stride;
        proof {
            assert(neighbors@.len() == slots * stride) by {
                vstd::arithmetic::div_mod::lemma_fundamental_div_mod(
                    neighbors@.len() as int,
                    stride as int,
                );
                assert(slots * stride == stride * slots) by (nonlinear_arith);
            }
        }
        if dense {
            if nodes.len() != 0 {
                return Err(LayerShapeError::DenseLayerHasSlotTable { len: nodes.len() });
            }
            return Ok(Layer { slot_of: None, nodes, neighbors, max_degree });
        }
        if nodes.len() != slots {
            return Err(LayerShapeError::SlotCountMismatch { nodes: nodes.len(), slots });
        }
        let mut table: Vec<u32> = Vec::new();
        let mut slot: usize = 0;
        while slot < slots
            invariant
                slot <= slots,
                slots == nodes@.len(),
                slots <= u32::MAX,
                max_degree < usize::MAX,
                stride == max_degree + 1,
                neighbors@.len() == slots * stride,
                slots == neighbors@.len() / (stride as nat),
                neighbors@.len() % (stride as nat) == 0,
                !dense,
                forall|i: int| 0 <= i < nodes@.len() ==> nodes@[i] < usize::MAX,
                forall|s: int|
                    0 <= s < slot ==> (#[trigger] nodes@[s]) < table@.len()
                        && table@[nodes@[s] as int] == s,
                forall|node: int|
                    0 <= node < table@.len() && #[trigger] table@[node] != NO_SLOT ==> table@[node]
                        < slot && nodes@[table@[node] as int] == node,
                first_duplicate(nodes@.take(slot as int)) is None,
            decreases slots - slot,
        {
            let node: NodeId = nodes[slot];
            let ghost earlier = table@;
            let needed: usize = node as usize + 1;
            if table.len() < needed {
                table.resize(needed, NO_SLOT);
            }
            proof {
                assert(nodes@.take(slot + 1).drop_last() =~= nodes@.take(slot as int));
                assert forall|n: int|
                    0 <= n < table@.len() && #[trigger] table@[n] != NO_SLOT implies n
                    < earlier.len() && table@[n] == earlier[n] by {}
            }
            if table[node as usize] != NO_SLOT {
                proof {
                    let s = table@[node as int] as int;
                    assert(nodes@.take(slot as int)[s] == node);
                    lemma_first_duplicate_extends(nodes@, slot + 1);
                }
                return Err(LayerShapeError::DuplicateNode { node });
            }
            proof {
                if nodes@.take(slot as int).contains(node) {
                    let s = nodes@.take(slot as int).index_of(node);
                    assert(nodes@[s] == node);
                }
            }
            table[node as usize] = slot as u32;
            slot += 1;
        }
        proof {
            assert(nodes@.take(slots as int) =~= nodes@);
        }
        Ok(Layer { slot_of: Some(table), nodes, neighbors, max_degree })
    }
}

/// The first node of `nodes` that an earlier entry already names.
pub open spec fn first_duplicate(nodes: Seq<NodeId>) -> Option<NodeId>
    decreases nodes.len(),
{
    if nodes.len() == 0 {
        None
    } else {
        match first_duplicate(nodes.drop_last()) {
            Some(node) => Some(node),
            None => if nodes.drop_last().contains(nodes.last()) {
                Some(nodes.last())
            } else {
                None
            },
        }
    }
}

proof fn lemma_first_duplicate_extends(nodes: Seq<NodeId>, upto: int)
    requires
        0 <= upto <= nodes.len(),
        first_duplicate(nodes.take(upto)) is Some,
    ensures
        first_duplicate(nodes) == first_duplicate(nodes.take(upto)),
    decreases nodes.len() - upto,
{
    if upto < nodes.len() {
        assert(nodes.take(upto + 1).drop_last() =~= nodes.take(upto));
        lemma_first_duplicate_extends(nodes, upto + 1);
    } else {
        assert(nodes.take(upto) =~= nodes);
    }
}

/// A table names no node twice exactly when there is no first duplicate.
pub proof fn lemma_first_duplicate(nodes: Seq<NodeId>)
    ensures
        first_duplicate(nodes) is None <==> nodes.no_duplicates(),
    decreases nodes.len(),
{
    if nodes.len() > 0 {
        let rest = nodes.drop_last();
        lemma_first_duplicate(rest);
        if nodes.no_duplicates() {
            assert(rest.no_duplicates());
            if rest.contains(nodes.last()) {
                let i = rest.index_of(nodes.last());
                assert(nodes[i] == nodes[nodes.len() - 1]);
            }
        } else if first_duplicate(nodes) is None {
            assert(rest.no_duplicates() && !rest.contains(nodes.last()));
            assert forall|i: int, j: int| 0 <= i < j < nodes.len() implies nodes[i] != nodes[j] by {
                assert(rest[i] == nodes[i]);
                if j < rest.len() {
                    assert(rest[j] == nodes[j]);
                }
            }
        }
    }
}

/// The first duplicate is an entry that an earlier one equals, and before which nobody is named
/// twice.
pub proof fn lemma_first_duplicate_found(nodes: Seq<NodeId>)
    ensures
        first_duplicate(nodes) matches Some(node) ==> exists|i: int, j: int|
            0 <= i < j < nodes.len() && #[trigger] nodes[i] == node && #[trigger] nodes[j] == node
                && nodes.take(j).no_duplicates(),
    decreases nodes.len(),
{
    if nodes.len() > 0 {
        let rest = nodes.drop_last();
        lemma_first_duplicate_found(rest);
        if let Some(node) = first_duplicate(rest) {
            let (i, j) = choose|i: int, j: int|
                0 <= i < j < rest.len() && #[trigger] rest[i] == node && #[trigger] rest[j] == node
                    && rest.take(j).no_duplicates();
            assert(nodes[i] == node && nodes[j] == node);
            assert(nodes.take(j) =~= rest.take(j));
        } else {
            lemma_first_duplicate(rest);
            if rest.contains(nodes.last()) {
                let i = rest.index_of(nodes.last());
                let j = nodes.len() - 1;
                assert(nodes[i] == nodes.last() && nodes[j] == nodes.last());
                assert(nodes.take(j) =~= rest);
            }
        }
    }
}

/// Two arrays describe a layer just when the adjacency divides into slots and either the layer is
/// dense and has no table, or the table names one node for each slot, nobody twice.
pub proof fn lemma_shape_error(
    max_degree: usize,
    dense: bool,
    nodes: Seq<NodeId>,
    neighbors: Seq<NodeId>,
)
    ensures
        shape_error(max_degree, dense, nodes, neighbors) is None <==> {
            &&& neighbors.len() as int % (max_degree + 1) == 0
            &&& dense ==> nodes.len() == 0
            &&& !dense ==> nodes.len() == neighbors.len() as int / (max_degree + 1)
                && nodes.no_duplicates()
        },
{
    lemma_first_duplicate(nodes);
}

/// Why two arrays do not describe a layer, if they do not: the adjacency has to divide into
/// slots, a dense layer has no table, a sparse one names each node once and has one per slot.
pub open spec fn shape_error(
    max_degree: usize,
    dense: bool,
    nodes: Seq<NodeId>,
    neighbors: Seq<NodeId>,
) -> Option<LayerShapeError> {
    let stride = (max_degree + 1) as nat;
    let slots = neighbors.len() / stride;
    if neighbors.len() % stride != 0 {
        Some(
            LayerShapeError::RaggedAdjacency { len: neighbors.len() as usize, stride: stride as usize },
        )
    } else if dense {
        if nodes.len() != 0 {
            Some(LayerShapeError::DenseLayerHasSlotTable { len: nodes.len() as usize })
        } else {
            None
        }
    } else if nodes.len() != slots {
        Some(
            LayerShapeError::SlotCountMismatch { nodes: nodes.len() as usize, slots: slots as usize },
        )
    } else {
        match first_duplicate(nodes) {
            Some(node) => Some(LayerShapeError::DuplicateNode { node }),
            None => None,
        }
    }
}

/// A layer comes back from its own two arrays: [`Layer::from_parts`] can be asked, it accepts them,
/// and what it accepts them as has the same nodes in the same order, with the same neighbours.
pub proof fn lemma_layer_round_trip(layer: &Layer, back: &Layer)
    requires
        layer.wf(),
        back.wf(),
        back.cap() == layer.cap(),
        back.dense_spec() == layer.dense_spec(),
        back.raw() == layer.raw(),
        back.table() == layer.table(),
    ensures
        layer.cap() < usize::MAX,
        layer.raw().len() / (layer.cap() + 1) <= u32::MAX,
        forall|i: int| 0 <= i < layer.table().len() ==> #[trigger] layer.table()[i] < usize::MAX,
        shape_error(layer.cap() as usize, layer.dense_spec(), layer.table(), layer.raw()) is None,
        back@ == layer@,
        back.order() == layer.order(),
        forall|node: NodeId| #[trigger]
            layer@.contains_key(node) ==> back.written_degree(node) == layer.written_degree(node),
{
    if layer.slot_of is Some {
        let table = layer.slot_of->0;
        assert(table.len() == table@.len());
        assert forall|i: int| 0 <= i < layer.table().len() implies #[trigger] layer.table()[i]
            < usize::MAX by {
            assert(layer.nodes@[i] < table@.len());
        }
    }
    layer.lemma_order();
    back.lemma_order();
    lemma_exact_division(layer.slots(), layer.max_degree + 1);
    lemma_first_duplicate(layer.table());
    assert forall|node: NodeId| layer.slot_at(node) == back.slot_at(node) by {
        assert(layer@.contains_key(node) <==> layer.order().contains(node));
        assert(back@.contains_key(node) <==> back.order().contains(node));
        if layer.slot_of is Some && layer.slot_at(node) is Some {
            let a = layer.slot_of->0;
            let b = back.slot_of->0;
            assert(a@[node as int] != NO_SLOT);
            assert(b@[node as int] != NO_SLOT);
            assert(layer.nodes@[a@[node as int] as int] == node);
            assert(back.nodes@[b@[node as int] as int] == node);
        }
    }
    assert(back@ =~= layer@);
}

/// A call that changes a layer.
pub enum Change {
    Add { node: NodeId },
    Replace { node: NodeId, neighbors: Seq<NodeId> },
    Push { node: NodeId, neighbor: NodeId },
}

/// A layer with room for `cap` neighbours per node takes this call: a node is added once, and gets
/// neighbours only after that.
pub open spec fn allowed(lists: Map<NodeId, Seq<NodeId>>, cap: nat, change: Change) -> bool {
    match change {
        Change::Add { node } => !lists.contains_key(node),
        Change::Replace { node, neighbors } => lists.contains_key(node) && neighbors.len() <= cap,
        Change::Push { node, neighbor } => lists.contains_key(node),
    }
}

/// The lists after a call.
pub open spec fn changed(
    lists: Map<NodeId, Seq<NodeId>>,
    cap: nat,
    change: Change,
) -> Map<NodeId, Seq<NodeId>> {
    match change {
        Change::Add { node } => lists.insert(node, Seq::empty()),
        Change::Replace { node, neighbors } => lists.insert(node, neighbors),
        Change::Push { node, neighbor } => if lists[node].len() < cap {
            lists.insert(node, lists[node].push(neighbor))
        } else {
            lists
        },
    }
}

/// The lists of a layer that started empty and took these calls, if it took them all.
pub open spec fn history(cap: nat, changes: Seq<Change>) -> Option<Map<NodeId, Seq<NodeId>>>
    decreases changes.len(),
{
    if changes.len() == 0 {
        Some(Map::empty())
    } else {
        match history(cap, changes.drop_last()) {
            Some(lists) if allowed(lists, cap, changes.last()) => Some(
                changed(lists, cap, changes.last()),
            ),
            _ => None,
        }
    }
}

/// The nodes that these calls add, in order.
pub open spec fn added(changes: Seq<Change>) -> Seq<NodeId>
    decreases changes.len(),
{
    if changes.len() == 0 {
        Seq::empty()
    } else {
        match changes.last() {
            Change::Add { node } => added(changes.drop_last()).push(node),
            _ => added(changes.drop_last()),
        }
    }
}

/// After any calls, a layer holds exactly the nodes that were added, each of them once, and no
/// list is longer than the cap.
pub proof fn lemma_holds_what_was_added(cap: nat, changes: Seq<Change>)
    requires
        history(cap, changes) is Some,
    ensures
        ({
            let lists = history(cap, changes)->0;
            let nodes = added(changes);
            &&& forall|node: NodeId| #[trigger] lists.contains_key(node) <==> nodes.contains(node)
            &&& nodes.no_duplicates()
            &&& lists.dom().finite()
            &&& lists.dom().len() == nodes.len()
            &&& forall|node: NodeId| #[trigger]
                lists.contains_key(node) ==> lists[node].len() <= cap
        }),
    decreases changes.len(),
{
    if changes.len() > 0 {
        let rest = changes.drop_last();
        let before = history(cap, rest)->0;
        let lists = history(cap, changes)->0;
        let nodes = added(rest);
        lemma_holds_what_was_added(cap, rest);
        match changes.last() {
            Change::Add { node } => {
                let more = added(changes);
                assert forall|n: NodeId| #[trigger] lists.contains_key(n) <==> more.contains(n) by {
                    if more.contains(n) {
                        let i = more.index_of(n);
                        if i < nodes.len() {
                            assert(nodes.contains(nodes[i]));
                        }
                    }
                    if nodes.contains(n) {
                        assert(more[nodes.index_of(n)] == n);
                    }
                    assert(more[nodes.len() as int] == node);
                }
                assert(!nodes.contains(node));
                assert(lists.dom() =~= before.dom().insert(node));
            },
            Change::Replace { node, .. } => {
                assert(lists.dom() =~= before.dom());
            },
            Change::Push { node, .. } => {
                assert(lists.dom() =~= before.dom());
            },
        }
    }
}

} // verus!
