//! Counting the elements of sets.

use vstd::prelude::*;

verus! {

/// A row of a table has as many positions in the table as it has by itself.
pub proof fn lemma_in_row<A>(row: Set<A>, at: int)
    requires
        row.finite(),
    ensures
        ({
            let there = Set::new(|p: (int, A)| p.0 == at && row.contains(p.1));
            &&& there.finite()
            &&& there.len() == row.len()
        }),
    decreases row.len(),
{
    let there = Set::new(|p: (int, A)| p.0 == at && row.contains(p.1));
    if row.len() == 0 {
        assert(there =~= Set::empty());
    } else {
        let one = row.choose();
        let rest = row.remove(one);
        lemma_in_row(rest, at);
        let fewer = Set::new(|p: (int, A)| p.0 == at && rest.contains(p.1));
        assert(there =~= fewer.insert((at, one)));
    }
}

/// Sets without anything in common have as many elements together as each by itself.
pub proof fn lemma_apart<A>(a: Set<A>, b: Set<A>)
    requires
        a.finite(),
        b.finite(),
        a.disjoint(b),
    ensures
        a.union(b).finite(),
        a.union(b).len() == a.len() + b.len(),
{
    vstd::set_lib::lemma_set_disjoint_lens(a, b);
}

} // verus!
