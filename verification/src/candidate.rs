//! A scored node, and sequences of them in order.

use vstd::prelude::*;

use crate::bits;
use crate::NodeId;

verus! {

/// A node and its distance to a query, ordered by distance and then by id.
///
/// The distance is kept as its position in the total order of numbers, so that the derived order
/// on the two integers is the order of candidates. The id breaks ties, which makes every ranking
/// in the crate deterministic.
#[derive(Clone, Copy, Debug, PartialEq, Eq, PartialOrd, Ord, Hash, Structural)]
pub struct Candidate {
    /// Position of the distance in the total order of numbers.
    pub rank: u32,
    pub id: NodeId,
}

/// `a` comes before `b`: it is nearer, or equally near with the smaller id.
pub open spec fn before(a: Candidate, b: Candidate) -> bool {
    a.rank < b.rank || (a.rank == b.rank && a.id < b.id)
}

impl Candidate {
    /// The bits of the distance.
    pub open spec fn dist_bits(self) -> u32 {
        bits::rank_bits(self.rank)
    }

    /// The candidate with the given distance bits and id.
    pub open spec fn of(dist: u32, id: NodeId) -> Candidate {
        Candidate { rank: bits::total_rank(dist), id }
    }

    pub fn new(dist: u32, id: NodeId) -> (r: Candidate)
        ensures
            r == Candidate::of(dist, id),
            r.dist_bits() == dist,
    {
        proof {
            bits::lemma_rank_round_trip(dist);
        }
        Candidate { rank: bits::to_rank(dist), id }
    }

    /// The bits of the distance.
    pub fn dist(&self) -> (r: u32)
        ensures
            r == self.dist_bits(),
    {
        bits::from_rank(self.rank)
    }

    pub fn is_before(&self, other: &Candidate) -> (r: bool)
        ensures
            r == before(*self, *other),
    {
        self.rank < other.rank || (self.rank == other.rank && self.id < other.id)
    }
}

/// The order is total: of two candidates one comes first, or they are the same.
pub proof fn lemma_before_total(a: Candidate, b: Candidate)
    ensures
        before(a, b) || before(b, a) || a == b,
        !(before(a, b) && before(b, a)),
        !before(a, a),
{
}

pub proof fn lemma_before_transitive(a: Candidate, b: Candidate, c: Candidate)
    requires
        before(a, b),
        before(b, c),
    ensures
        before(a, c),
{
}

/// A nearer candidate comes before a further one, whatever their ids; at the same distance the
/// smaller id comes first. Where the distances are not ordered as numbers, the total order of their
/// bits decides.
pub proof fn lemma_before_by_distance(a: Candidate, b: Candidate)
    ensures
        bits::less(a.dist_bits(), b.dist_bits()) ==> before(a, b),
        a.dist_bits() == b.dist_bits() ==> (before(a, b) <==> a.id < b.id),
        a.dist_bits() != b.dist_bits() ==> (before(a, b) <==> bits::total_rank(a.dist_bits())
            < bits::total_rank(b.dist_bits())),
        Candidate::of(a.dist_bits(), a.id) == a,
{
    bits::lemma_rank_round_trip(a.rank);
    bits::lemma_rank_round_trip(b.rank);
    if bits::less(a.dist_bits(), b.dist_bits()) {
        bits::lemma_less_agrees_with_rank(a.dist_bits(), b.dist_bits());
    }
}

/// Nearest first, and no candidate twice.
pub open spec fn ascending(s: Seq<Candidate>) -> bool {
    forall|i: int, j: int| 0 <= i < j < s.len() ==> before(#[trigger] s[i], #[trigger] s[j])
}

/// Nearest first, where a candidate may occur more than once.
pub open spec fn ordered(s: Seq<Candidate>) -> bool {
    forall|i: int, j: int| 0 <= i < j < s.len() ==> !before(#[trigger] s[j], #[trigger] s[i])
}

pub proof fn lemma_ascending_is_ordered(s: Seq<Candidate>)
    requires
        ascending(s),
    ensures
        ordered(s),
{
    assert forall|i: int, j: int| 0 <= i < j < s.len() implies !before(
        #[trigger] s[j],
        #[trigger] s[i],
    ) by {
        assert(before(s[i], s[j]));
    }
}

/// How many leading candidates of `s` come before `c`.
pub open spec fn place(s: Seq<Candidate>, c: Candidate) -> nat
    decreases s.len(),
{
    if s.len() == 0 {
        0
    } else if before(s.last(), c) {
        s.len()
    } else {
        place(s.drop_last(), c)
    }
}

/// `s` with `c` put in its place.
pub open spec fn placed(s: Seq<Candidate>, c: Candidate) -> Seq<Candidate> {
    s.insert(place(s, c) as int, c)
}

pub proof fn lemma_place(s: Seq<Candidate>, c: Candidate)
    requires
        ordered(s),
    ensures
        place(s, c) <= s.len(),
        forall|i: int| 0 <= i < place(s, c) ==> before(#[trigger] s[i], c),
        forall|i: int| place(s, c) <= i < s.len() ==> !before(#[trigger] s[i], c),
    decreases s.len(),
{
    if s.len() > 0 && !before(s.last(), c) {
        let t = s.drop_last();
        lemma_place(t, c);
        assert forall|i: int| place(s, c) <= i < s.len() implies !before(#[trigger] s[i], c) by {
            if i < t.len() {
                assert(s[i] == t[i]);
            }
        }
        assert forall|i: int| 0 <= i < place(s, c) implies before(#[trigger] s[i], c) by {
            assert(s[i] == t[i]);
        }
    }
}

/// A position that splits `s` around `c` is the place of `c`.
pub proof fn lemma_place_unique(s: Seq<Candidate>, c: Candidate, at: nat)
    requires
        ordered(s),
        at <= s.len(),
        forall|i: int| 0 <= i < at ==> before(#[trigger] s[i], c),
        forall|i: int| at <= i < s.len() ==> !before(#[trigger] s[i], c),
    ensures
        place(s, c) == at,
{
    lemma_place(s, c);
    if place(s, c) < at {
        assert(before(s[place(s, c) as int], c));
    }
    if at < place(s, c) {
        assert(before(s[at as int], c));
    }
}

/// Putting a new candidate in its place keeps the order.
pub proof fn lemma_placed(s: Seq<Candidate>, c: Candidate)
    requires
        ascending(s),
        !s.contains(c),
    ensures
        ascending(placed(s, c)),
        placed(s, c).len() == s.len() + 1,
        placed(s, c).to_set() == s.to_set().insert(c),
        forall|x: Candidate| #[trigger] placed(s, c).contains(x) <==> s.contains(x) || x == c,
{
    lemma_ascending_is_ordered(s);
    lemma_place(s, c);
    let at = place(s, c) as int;
    let t = placed(s, c);
    assert forall|i: int, j: int| 0 <= i < j < t.len() implies before(
        #[trigger] t[i],
        #[trigger] t[j],
    ) by {
        let a = if i < at { i } else { i - 1 };
        let b = if j < at { j } else { j - 1 };
        if i == at {
            assert(t[j] == s[b]);
            assert(!before(s[b], c));
            assert(s[b] != c);
            lemma_before_total(s[b], c);
        } else if j == at {
            assert(t[i] == s[a]);
        } else {
            assert(t[i] == s[a] && t[j] == s[b]);
        }
    }
    assert forall|x: Candidate| #[trigger] t.contains(x) <==> s.contains(x) || x == c by {
        if t.contains(x) {
            let i = t.index_of(x);
            if i < at {
                assert(s[i] == x);
            } else if i > at {
                assert(s[i - 1] == x);
            }
        }
        if s.contains(x) {
            let i = s.index_of(x);
            if i < at {
                assert(t[i] == x);
            } else {
                assert(t[i + 1] == x);
            }
        }
        if x == c {
            assert(t[at] == c);
        }
    }
    assert(t.to_set() =~= s.to_set().insert(c));
}

/// The same of a list in which candidates may repeat.
pub proof fn lemma_placed_ordered(s: Seq<Candidate>, c: Candidate)
    requires
        ordered(s),
    ensures
        ordered(placed(s, c)),
        placed(s, c).to_multiset() == s.to_multiset().insert(c),
        placed(s, c).len() == s.len() + 1,
{
    lemma_place(s, c);
    let at = place(s, c) as int;
    let t = placed(s, c);
    vstd::seq_lib::to_multiset_insert(s, at, c);
    assert forall|i: int, j: int| 0 <= i < j < t.len() implies !before(
        #[trigger] t[j],
        #[trigger] t[i],
    ) by {
        let a = if i < at { i } else { i - 1 };
        let b = if j < at { j } else { j - 1 };
        if i == at {
            assert(t[j] == s[b]);
        } else if j == at {
            assert(t[i] == s[a]);
        } else {
            assert(t[i] == s[a] && t[j] == s[b]);
        }
    }
}

/// The candidates of `s` in order.
pub open spec fn in_order(s: Seq<Candidate>) -> Seq<Candidate>
    decreases s.len(),
{
    if s.len() == 0 {
        Seq::empty()
    } else {
        placed(in_order(s.drop_last()), s.last())
    }
}

/// Ordering keeps exactly the candidates that were there.
pub proof fn lemma_in_order(s: Seq<Candidate>)
    ensures
        ordered(in_order(s)),
        in_order(s).to_multiset() == s.to_multiset(),
        in_order(s).len() == s.len(),
        forall|x: Candidate| #[trigger] in_order(s).contains(x) <==> s.contains(x),
    decreases s.len(),
{
    if s.len() > 0 {
        lemma_in_order(s.drop_last());
        lemma_placed_ordered(in_order(s.drop_last()), s.last());
        vstd::seq_lib::to_multiset_build(s.drop_last(), s.last());
        assert(s =~= s.drop_last().push(s.last()));
    } else {
        assert(in_order(s) =~= s);
    }
    assert forall|x: Candidate| #[trigger] in_order(s).contains(x) <==> s.contains(x) by {
        vstd::seq_lib::to_multiset_contains(s, x);
        vstd::seq_lib::to_multiset_contains(in_order(s), x);
    }
}

/// The order in which candidates arrive does not matter once they are put in order.
pub proof fn lemma_in_order_canonical(s: Seq<Candidate>, t: Seq<Candidate>)
    requires
        s.to_multiset() == t.to_multiset(),
    ensures
        in_order(s) == in_order(t),
{
    lemma_in_order(s);
    lemma_in_order(t);
    let leq = |a: Candidate, b: Candidate| !before(b, a);
    assert(vstd::relations::sorted_by(in_order(s), leq));
    assert(vstd::relations::sorted_by(in_order(t), leq));
    vstd::seq_lib::lemma_sorted_unique(in_order(s), in_order(t), leq);
}

/// Candidates that are already in order stay as they are.
pub proof fn lemma_in_order_stable(s: Seq<Candidate>)
    requires
        ordered(s),
    ensures
        in_order(s) == s,
{
    lemma_in_order(s);
    let leq = |a: Candidate, b: Candidate| !before(b, a);
    assert(vstd::relations::sorted_by(in_order(s), leq));
    assert(vstd::relations::sorted_by(s, leq));
    vstd::seq_lib::lemma_sorted_unique(in_order(s), s, leq);
}

/// Puts `c` in its place among the candidates from `from` on.
pub fn place_after(list: &mut Vec<Candidate>, from: usize, c: Candidate)
    requires
        from <= old(list)@.len(),
        ordered(old(list)@.skip(from as int)),
        old(list)@.len() < usize::MAX,
    ensures
        final(list)@ == old(list)@.take(from as int) + placed(old(list)@.skip(from as int), c),
{
    let ghost tail = list@.skip(from as int);
    let mut low: usize = from;
    let mut high: usize = list.len();
    while low < high
        invariant
            from <= low <= high <= list@.len(),
            list@ == old(list)@,
            tail == list@.skip(from as int),
            ordered(tail),
            forall|i: int| 0 <= i < low - from ==> before(#[trigger] tail[i], c),
            forall|i: int| high - from <= i < tail.len() ==> !before(#[trigger] tail[i], c),
        decreases high - low,
    {
        let mid: usize = low + (high - low) / 2;
        let ghost at = mid - from;
        assert(list@[mid as int] == tail[at]);
        if list[mid].is_before(&c) {
            proof {
                assert forall|i: int| 0 <= i < at + 1 implies before(#[trigger] tail[i], c) by {
                    if i < at {
                        assert(!before(tail[at], tail[i]));
                    }
                }
            }
            low = mid + 1;
        } else {
            proof {
                assert forall|i: int| at <= i < tail.len() implies !before(#[trigger] tail[i], c) by {
                    if i > at && before(tail[i], c) {
                        assert(!before(tail[i], tail[at]));
                    }
                }
            }
            high = mid;
        }
    }
    proof {
        lemma_place_unique(tail, c, (low - from) as nat);
    }
    list.insert(low, c);
    proof {
        assert(list@ =~= old(list)@.take(from as int) + placed(tail, c));
    }
}

/// Puts `c` in its place in an ordered list.
pub fn place_in(list: &mut Vec<Candidate>, c: Candidate)
    requires
        ordered(old(list)@),
        old(list)@.len() < usize::MAX,
    ensures
        final(list)@ == placed(old(list)@, c),
{
    proof {
        assert(list@.skip(0) =~= list@);
        assert(list@.take(0) + placed(list@, c) =~= placed(list@, c));
    }
    place_after(list, 0, c);
}

/// Puts a list of candidates in order.
pub fn put_in_order(list: &mut Vec<Candidate>)
    ensures
        final(list)@ == in_order(old(list)@),
{
    let mut sorted: Vec<Candidate> = Vec::with_capacity(list.len());
    let mut i: usize = 0;
    while i < list.len()
        invariant
            i <= list@.len(),
            list@ == old(list)@,
            sorted@ == in_order(list@.take(i as int)),
        decreases list@.len() - i,
    {
        proof {
            lemma_in_order(list@.take(i as int));
            assert(list@.take(i + 1).drop_last() =~= list@.take(i as int));
        }
        place_in(&mut sorted, list[i]);
        i += 1;
    }
    proof {
        assert(list@.take(i as int) =~= list@);
    }
    std::mem::swap(list, &mut sorted);
}

} // verus!
