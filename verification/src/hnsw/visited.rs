//! Per-query visited set.
//!
//! Every node has a stamp and each query gets a new epoch. Marking is a store, testing is a load
//! and a comparison, and clearing is a step of the epoch.

use vstd::prelude::*;

use crate::mem::{self, list_bytes};
use crate::NodeId;

verus! {

/// Epoch-stamped membership set over a fixed node range.
#[derive(Debug)]
pub struct VisitedList {
    marks: Vec<u16>,
    epoch: u16,
}

impl View for VisitedList {
    type V = Set<NodeId>;

    /// The nodes marked since the current query began.
    closed spec fn view(&self) -> Set<NodeId> {
        Set::new(|node: NodeId| node < self.marks@.len() && self.marks@[node as int] == self.epoch)
    }
}

impl VisitedList {
    /// How many nodes there is room for.
    pub closed spec fn room(&self) -> nat {
        self.marks@.len()
    }

    /// Whether a query has begun.
    pub closed spec fn begun(&self) -> bool {
        self.epoch != 0
    }

    /// No stamp is ahead of the epoch.
    pub closed spec fn wf(&self) -> bool {
        forall|i: int| 0 <= i < self.marks@.len() ==> self.marks@[i] <= self.epoch
    }

    /// Every marked node is one that there is room for; before the first query, all of them are
    /// marked.
    pub proof fn lemma_marked(&self)
        requires
            self.wf(),
        ensures
            forall|node: NodeId| #[trigger] self@.contains(node) ==> node < self.room(),
            !self.begun() ==> self@ == Set::new(|node: NodeId| node < self.room()),
    {
        if !self.begun() {
            assert forall|node: NodeId| node < self.room() implies self@.contains(node) by {
                assert(self.marks@[node as int] <= self.epoch);
            }
            assert(self@ =~= Set::new(|node: NodeId| node < self.room()));
        }
    }

    /// Room for `capacity` nodes. [`Self::begin`] comes before the first use: until then the
    /// zeroed stamps equal the epoch, and every node counts as visited.
    pub fn new(capacity: usize) -> (r: Self)
        ensures
            r.wf(),
            r.room() == capacity,
            !r.begun(),
            r@ == Set::new(|node: NodeId| node < capacity),
    {
        let mut marks: Vec<u16> = Vec::new();
        marks.resize(capacity, 0);
        let r = VisitedList { marks, epoch: 0 };
        proof {
            assert(r@ =~= Set::new(|node: NodeId| node < capacity));
        }
        r
    }

    pub fn capacity(&self) -> (r: usize)
        ensures
            r == self.room(),
    {
        self.marks.len()
    }

    /// Grows to hold at least `capacity` nodes. Existing stamps are preserved.
    pub fn ensure_capacity(&mut self, capacity: usize)
        requires
            old(self).wf(),
        ensures
            final(self).wf(),
            final(self).room() == if old(self).room() < capacity {
                capacity as nat
            } else {
                old(self).room()
            },
            final(self).begun() == old(self).begun(),
            old(self).begun() ==> final(self)@ == old(self)@,
            !old(self).begun() ==> final(self)@ == Set::new(
                |node: NodeId| node < final(self).room(),
            ),
    {
        if self.marks.len() < capacity {
            let ghost before = self.marks@;
            self.marks.resize(capacity, 0);
            proof {
                assert forall|i: int| 0 <= i < before.len() implies #[trigger] self.marks@[i] == before[i] by {
                    assert(self.marks@.subrange(0, before.len() as int)[i] == before[i]);
                }
                assert forall|i: int| before.len() <= i < self.marks@.len() implies self.marks@[i]
                    == 0 by {}
                if self.epoch != 0 {
                    assert(self@ =~= old(self)@);
                }
            }
        }
        proof {
            self.lemma_marked();
        }
    }

    /// Starts a new query, discarding everything the previous one marked.
    pub fn begin(&mut self)
        requires
            old(self).wf(),
        ensures
            final(self).wf(),
            final(self).room() == old(self).room(),
            final(self).begun(),
            final(self)@ == Set::<NodeId>::empty(),
    {
        self.epoch = self.epoch.wrapping_add(1);
        if self.epoch == 0 {
            // The epoch wrapped: stamps from a full cycle ago would be mistaken for this query's.
            let mut i: usize = 0;
            while i < self.marks.len()
                invariant
                    i <= self.marks@.len(),
                    self.marks@.len() == old(self).marks@.len(),
                    forall|j: int| 0 <= j < i ==> self.marks@[j] == 0,
                decreases self.marks@.len() - i,
            {
                self.marks[i] = 0;
                i += 1;
            }
            self.epoch = 1;
        }
        proof {
            assert(self@ =~= Set::<NodeId>::empty());
        }
    }

    /// Marks `node` visited and reports whether it was not already marked.
    pub fn visit(&mut self, node: NodeId) -> (r: bool)
        requires
            old(self).wf(),
            node < old(self).room(),
        ensures
            final(self).wf(),
            final(self).room() == old(self).room(),
            final(self).begun() == old(self).begun(),
            r == !old(self)@.contains(node),
            final(self)@ == old(self)@.insert(node),
    {
        if self.marks[node as usize] == self.epoch {
            proof {
                assert(self@ =~= old(self)@.insert(node));
            }
            false
        } else {
            self.marks[node as usize] = self.epoch;
            proof {
                assert(self@ =~= old(self)@.insert(node));
            }
            true
        }
    }

    /// Bytes held by the stamps: two for each that the allocator gave room for, which is at least
    /// one for each node. How many more is not said.
    pub fn memory_bytes(&self) -> (r: usize)
        ensures
            exists|stamps: usize| #[trigger]
                list_bytes(stamps, 2) == r && stamps >= self.room(),
    {
        mem::bytes_for(mem::capacity_of(&self.marks), 2)
    }

    pub fn is_visited(&self, node: NodeId) -> (r: bool)
        requires
            node < self.room(),
        ensures
            r == self@.contains(node),
    {
        self.marks[node as usize] == self.epoch
    }
}

} // verus!
