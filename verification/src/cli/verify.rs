//! Checking exact neighbour lists against a published one.

use vstd::prelude::*;

use crate::ground_truth::DistanceAgreement;

verus! {

/// What a ground truth check comes to.
///
/// The criterion is the distance profile: at every rank the distance to our neighbour equals the
/// distance to theirs. Ids cannot be required to agree, because ties may be broken either way,
/// and a tie across the last rank leaves even the set of neighbours open.
#[derive(Clone, Copy, Debug, PartialEq, Eq, Structural)]
pub struct Verdict {
    /// The reference kernel reproduces the published distances.
    pub reference_is_exact: bool,
    /// The fast kernel reproduces the reference's distances.
    pub kernels_agree: bool,
}

impl Verdict {
    pub fn of(published: &DistanceAgreement, kernels: &DistanceAgreement) -> (r: Self)
        ensures
            r.reference_is_exact == (published.differing_positions
                == published.equivalent_positions),
            r.kernels_agree == (kernels.differing_positions == kernels.equivalent_positions),
    {
        Verdict {
            reference_is_exact: published.is_equivalent(),
            kernels_agree: kernels.is_equivalent(),
        }
    }

    pub fn failed(&self) -> (r: bool)
        ensures
            r == !(self.reference_is_exact && self.kernels_agree),
    {
        !(self.reference_is_exact && self.kernels_agree)
    }
}

/// A few ids either side of `rank`: from the one before it to three behind it.
pub fn window(ids: &[i32], rank: usize) -> (r: Vec<i32>)
    requires
        rank <= ids@.len() + 1,
        rank + 4 <= usize::MAX,
    ensures
        ({
            let start = if rank == 0 {
                0
            } else {
                rank - 1
            };
            let end = if rank + 4 < ids@.len() {
                rank + 4
            } else {
                ids@.len() as int
            };
            r@ == ids@.subrange(start, end)
        }),
{
    let start: usize = rank.saturating_sub(1);
    let end: usize = if rank + 4 < ids.len() {
        rank + 4
    } else {
        ids.len()
    };
    vstd::slice::slice_to_vec(vstd::slice::slice_subrange(ids, start, end))
}

} // verus!
