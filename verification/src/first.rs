//! The first of a run of checks that finds something.

use vstd::prelude::*;

verus! {

/// What the first of the checks `0..n` to find something finds.
pub open spec fn first_of<V>(n: int, check: spec_fn(int) -> Option<V>) -> Option<V>
    decreases n,
{
    if n <= 0 {
        None
    } else {
        match first_of(n - 1, check) {
            Some(v) => Some(v),
            None => check(n - 1),
        }
    }
}

/// What the first of two checks to find something finds.
pub open spec fn either_of<V>(a: Option<V>, b: Option<V>) -> Option<V> {
    match a {
        Some(v) => Some(v),
        None => b,
    }
}

/// The first check that finds something decides.
pub proof fn lemma_first_hit<V>(n: int, check: spec_fn(int) -> Option<V>, at: int)
    requires
        0 <= at < n,
        first_of(at, check) is None,
        check(at) is Some,
    ensures
        first_of(n, check) == check(at),
    decreases n,
{
    if n - 1 > at {
        lemma_first_hit(n - 1, check, at);
    }
}

/// Nothing is found exactly when no check finds anything.
pub proof fn lemma_first_none<V>(n: int, check: spec_fn(int) -> Option<V>)
    ensures
        first_of(n, check) is None <==> forall|i: int| 0 <= i < n ==> (#[trigger] check(i)) is None,
    decreases n,
{
    if n > 0 {
        lemma_first_none(n - 1, check);
        if first_of(n, check) is None {
            assert forall|i: int| 0 <= i < n implies (#[trigger] check(i)) is None by {
                if i == n - 1 {
                    assert(check(n - 1) is None);
                }
            }
        } else if forall|i: int| 0 <= i < n ==> (#[trigger] check(i)) is None {
            assert(check(n - 1) is None);
        }
    }
}

/// What is found is found by some check that no earlier one precedes in finding something.
pub proof fn lemma_first_some<V>(n: int, check: spec_fn(int) -> Option<V>) -> (at: int)
    requires
        first_of(n, check) is Some,
    ensures
        0 <= at < n,
        check(at) == first_of(n, check),
        forall|i: int| 0 <= i < at ==> (#[trigger] check(i)) is None,
    decreases n,
{
    if first_of(n - 1, check) is Some {
        lemma_first_some(n - 1, check)
    } else {
        lemma_first_none(n - 1, check);
        n - 1
    }
}

/// Checks that find the same find the same first.
pub proof fn lemma_first_same<V>(
    n: int,
    check: spec_fn(int) -> Option<V>,
    other: spec_fn(int) -> Option<V>,
)
    requires
        forall|i: int| 0 <= i < n ==> (#[trigger] check(i)) == other(i),
    ensures
        first_of(n, check) == first_of(n, other),
    decreases n,
{
    if n > 0 {
        lemma_first_same(n - 1, check, other);
        assert(check(n - 1) == other(n - 1));
    }
}

} // verus!
