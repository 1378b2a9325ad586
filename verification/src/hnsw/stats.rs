//! Distance-computation counting.
//!
//! What an index changes is how many distances get computed at all, and that is what is counted
//! here. Counting sits in the hottest loop, so the counter that everything uses by default keeps
//! nothing and costs nothing; a [`Tally`] in its place counts.

use vstd::prelude::*;

verus! {

/// A count after `n` more, if anything is counted. It stays at the largest number there is.
pub open spec fn counted(total: Option<u64>, n: nat) -> Option<u64> {
    match total {
        None => None,
        Some(c) => Some(
            if c + n <= u64::MAX {
                (c + n) as u64
            } else {
                u64::MAX
            },
        ),
    }
}

/// Counting in two steps is counting in one.
pub proof fn lemma_counted(total: Option<u64>, a: nat, b: nat)
    ensures
        counted(total, 0) == total,
        counted(counted(total, a), b) == counted(total, a + b),
{
}

/// Where distance computations are reported.
pub trait Count {
    /// What has been counted, if anything is.
    spec fn total(&self) -> Option<u64>;

    /// Records `n` distance computations.
    fn record(&mut self, n: u64)
        ensures
            final(self).total() == counted(old(self).total(), n as nat),
    ;
}

/// Counts nothing at all: no byte is kept and nothing is paid.
#[derive(Clone, Copy, Debug, PartialEq, Eq, Structural)]
pub struct DistanceCounter {}

impl Default for DistanceCounter {
    fn default() -> (r: Self)
        ensures
            r == (DistanceCounter {  }),
    {
        DistanceCounter {  }
    }
}

impl Count for DistanceCounter {
    open spec fn total(&self) -> Option<u64> {
        None
    }

    fn record(&mut self, n: u64) {
    }
}

impl DistanceCounter {
    pub fn new() -> (r: Self)
        ensures
            r.total() is None,
    {
        DistanceCounter {  }
    }

    /// Records `n` distance computations.
    pub fn record(&mut self, n: u64)
        ensures
            *final(self) == *old(self),
    {
    }

    /// The count, which is `None` here: an option and not a bare zero, so that a search that was
    /// not counted cannot be mistaken for one that computed nothing.
    pub fn count(&self) -> (r: Option<u64>)
        ensures
            r == self.total(),
    {
        None
    }

    pub fn reset(&mut self)
        ensures
            *final(self) == (DistanceCounter {  }),
    {
        *self = DistanceCounter {  };
    }
}

/// Counts distance computations.
#[derive(Clone, Copy, Debug, PartialEq, Eq, Structural)]
pub struct Tally {
    count: u64,
}

impl Count for Tally {
    closed spec fn total(&self) -> Option<u64> {
        Some(self.count)
    }

    fn record(&mut self, n: u64) {
        self.count = self.count.saturating_add(n);
    }
}

impl Tally {
    pub fn new() -> (r: Self)
        ensures
            r.total() == Some(0u64),
    {
        Tally { count: 0 }
    }

    /// Records `n` distance computations.
    pub fn record(&mut self, n: u64)
        ensures
            final(self).total() == counted(old(self).total(), n as nat),
    {
        self.count = self.count.saturating_add(n);
    }

    pub fn count(&self) -> (r: Option<u64>)
        ensures
            r == self.total(),
    {
        Some(self.count)
    }

    pub fn reset(&mut self)
        ensures
            final(self).total() == Some(0u64),
    {
        self.count = 0;
    }
}

} // verus!
