//! Distance metrics.
//!
//! One sentence holds for every metric: the value is a distance, and smaller always means closer.

use vstd::prelude::*;

use crate::bits;
use crate::error::VectorError;
use crate::text::same;
use crate::vector_store::{
    first_non_finite, lemma_first_non_finite, lemma_first_non_finite_at, VectorStore,
};

verus! {

/// A distance function over equal-length vectors, given and returned as bit patterns.
///
/// Implementations do the floating-point work. All that is asked of one is that its results
/// depend on nothing but the vectors it is handed. An implementation outside verified code leaves
/// the three functions that name its results as they are, and nothing is known of them; one inside
/// defines them, and is held to them.
pub trait Metric {
    /// The name of the metric in reports.
    const NAME: &'static str;

    /// The bits of the reference distance between two vectors.
    closed spec fn reference(a: Seq<u32>, b: Seq<u32>) -> u32 {
        arbitrary()
    }

    /// The bits of the distance that the fast kernel computes.
    closed spec fn fast(a: Seq<u32>, b: Seq<u32>) -> u32 {
        arbitrary()
    }

    /// What preprocessing makes of a vector, and whether it accepts it.
    closed spec fn preprocessed(v: Seq<u32>) -> (Seq<u32>, Result<(), VectorError>) {
        arbitrary()
    }

    /// Reference kernel.
    fn distance_scalar(a: &[u32], b: &[u32]) -> (r: u32)
        requires
            a@.len() == b@.len(),
        ensures
            r == Self::reference(a@, b@),
    ;

    /// Fast kernel.
    fn distance(a: &[u32], b: &[u32]) -> (r: u32)
        requires
            a@.len() == b@.len(),
        ensures
            r == Self::fast(a@, b@),
    ;

    /// Transformation every vector goes through before it enters an index.
    fn preprocess(vector: &mut [u32]) -> (r: Result<(), VectorError>)
        ensures
            (final(vector)@, r) == Self::preprocessed(old(vector)@),
            final(vector)@.len() == old(vector)@.len(),
    ;
}

/// Which distance function a collection uses.
#[derive(Clone, Copy, Debug, PartialEq, Eq, Structural)]
pub enum MetricKind {
    /// Squared euclidean distance.
    L2Squared,
    /// Cosine distance over vectors normalised at insert time.
    Cosine,
    /// Negated inner product.
    Dot,
}

/// The on-disk tag of a metric.
pub open spec fn metric_tag(kind: MetricKind) -> u8 {
    match kind {
        MetricKind::L2Squared => 0,
        MetricKind::Cosine => 1,
        MetricKind::Dot => 2,
    }
}

/// The metric with an on-disk tag.
pub open spec fn tagged_metric(tag: u8) -> Option<MetricKind> {
    if tag == 0 {
        Some(MetricKind::L2Squared)
    } else if tag == 1 {
        Some(MetricKind::Cosine)
    } else if tag == 2 {
        Some(MetricKind::Dot)
    } else {
        None
    }
}

/// The name of a metric in reports and on the command line.
pub open spec fn metric_name(kind: MetricKind) -> Seq<char> {
    match kind {
        MetricKind::L2Squared => "l2squared"@,
        MetricKind::Cosine => "cosine"@,
        MetricKind::Dot => "dot"@,
    }
}

/// The metric that a name stands for, with the aliases that are accepted.
pub open spec fn named_metric(name: Seq<char>) -> Option<MetricKind> {
    if name == "l2"@ || name == "l2squared"@ {
        Some(MetricKind::L2Squared)
    } else if name == "cosine"@ || name == "angular"@ {
        Some(MetricKind::Cosine)
    } else if name == "dot"@ || name == "ip"@ {
        Some(MetricKind::Dot)
    } else {
        None
    }
}

/// A tag stands for the metric that it was written for, and for no other.
pub proof fn lemma_metric_tag_round_trip(kind: MetricKind, tag: u8)
    ensures
        tagged_metric(metric_tag(kind)) == Some(kind),
        tagged_metric(tag) == Some(kind) ==> tag == metric_tag(kind),
        tag > 2 ==> tagged_metric(tag) is None,
{
}

/// A metric's own name parses back to it.
pub proof fn lemma_metric_name_round_trip(kind: MetricKind)
    ensures
        named_metric(metric_name(kind)) == Some(kind),
{
    reveal_strlit("l2");
    reveal_strlit("l2squared");
    reveal_strlit("cosine");
    reveal_strlit("angular");
    reveal_strlit("dot");
    reveal_strlit("ip");
    assert("dot"@[0] != "l2"@[0]);
    assert("dot"@.len() != "l2squared"@.len());
    assert("cosine"@.len() == 6);
    assert("dot"@.len() == 3);
    assert("angular"@.len() == 7);
}

/// The names that stand for a metric, and no others.
pub proof fn lemma_metric_names(name: Seq<char>)
    ensures
        named_metric(name) == Some(MetricKind::L2Squared) <==> name == "l2"@ || name
            == "l2squared"@,
        named_metric(name) == Some(MetricKind::Cosine) <==> name == "cosine"@ || name
            == "angular"@,
        named_metric(name) == Some(MetricKind::Dot) <==> name == "dot"@ || name == "ip"@,
        metric_tag(MetricKind::L2Squared) == 0,
        metric_tag(MetricKind::Cosine) == 1,
        metric_tag(MetricKind::Dot) == 2,
{
    reveal_strlit("l2");
    reveal_strlit("l2squared");
    reveal_strlit("cosine");
    reveal_strlit("angular");
    reveal_strlit("dot");
    reveal_strlit("ip");
    assert("l2"@[0] != "ip"@[0]);
    assert("l2"@.len() == 2 && "ip"@.len() == 2 && "dot"@.len() == 3 && "cosine"@.len() == 6
        && "angular"@.len() == 7 && "l2squared"@.len() == 9);
}

impl MetricKind {
    /// On-disk encoding.
    pub fn as_u8(self) -> (r: u8)
        ensures
            r == metric_tag(self),
    {
        match self {
            MetricKind::L2Squared => 0,
            MetricKind::Cosine => 1,
            MetricKind::Dot => 2,
        }
    }

    /// Inverse of [`Self::as_u8`]. `None` for an unrecognised tag.
    pub fn from_u8(tag: u8) -> (r: Option<Self>)
        ensures
            r == tagged_metric(tag),
    {
        match tag {
            0 => Some(MetricKind::L2Squared),
            1 => Some(MetricKind::Cosine),
            2 => Some(MetricKind::Dot),
            _ => None,
        }
    }

    pub fn name(self) -> (r: &'static str)
        ensures
            r@ == metric_name(self),
    {
        match self {
            MetricKind::L2Squared => "l2squared",
            MetricKind::Cosine => "cosine",
            MetricKind::Dot => "dot",
        }
    }

    pub fn parse(name: &str) -> (r: Option<Self>)
        ensures
            r == named_metric(name@),
    {
        if same(name, "l2") || same(name, "l2squared") {
            Some(MetricKind::L2Squared)
        } else if same(name, "cosine") || same(name, "angular") {
            Some(MetricKind::Cosine)
        } else if same(name, "dot") || same(name, "ip") {
            Some(MetricKind::Dot)
        } else {
            None
        }
    }
}

/// `M` is the metric of this kind.
pub open spec fn stands_for<M: Metric>(kind: MetricKind) -> bool {
    M::NAME@ == metric_name(kind)
}

/// Whether `M` is the metric of this kind.
pub fn is_metric<M: Metric>(kind: MetricKind) -> (r: bool)
    ensures
        r == stands_for::<M>(kind),
{
    same(M::NAME, kind.name())
}

/// Every component is a zero, of either sign.
pub open spec fn all_zero(v: Seq<u32>) -> bool {
    forall|i: int| 0 <= i < v.len() ==> bits::zero(#[trigger] v[i])
}

/// Why a vector has no direction, if it has none.
pub open spec fn direction_error(v: Seq<u32>) -> Option<VectorError> {
    match first_non_finite(v) {
        Some(i) => Some(
            VectorError::NonFinite { vector: 0, component: i as usize, value: v[i as int] },
        ),
        None => if all_zero(v) {
            Some(VectorError::ZeroVector { vector: 0 })
        } else {
            None
        },
    }
}

/// Refuses a vector that cannot be scaled to unit length: one with a component that is not finite,
/// and the zero vector.
pub fn check_direction(v: &[u32]) -> (r: Result<(), VectorError>)
    ensures
        match r {
            Ok(_) => direction_error(v@) is None,
            Err(e) => direction_error(v@) == Some(e),
        },
{
    let mut zero = true;
    let mut i: usize = 0;
    while i < v.len()
        invariant
            i <= v@.len(),
            forall|j: int| 0 <= j < i ==> bits::finite(#[trigger] v@[j]),
            zero == forall|j: int| 0 <= j < i ==> bits::zero(#[trigger] v@[j]),
        decreases v@.len() - i,
    {
        if !bits::is_finite(v[i]) {
            proof {
                lemma_first_non_finite_at(v@, i as int);
            }
            return Err(VectorError::NonFinite { vector: 0, component: i, value: v[i] });
        }
        zero = zero && bits::is_zero(v[i]);
        i += 1;
    }
    proof {
        lemma_first_non_finite(v@);
    }
    if zero {
        Err(VectorError::ZeroVector { vector: 0 })
    } else {
        Ok(())
    }
}

/// The first of `all` that `M` refuses.
pub open spec fn first_refused<M: Metric>(all: Seq<Seq<u32>>) -> Option<int>
    decreases all.len(),
{
    if all.len() == 0 {
        None
    } else {
        match first_refused::<M>(all.drop_last()) {
            Some(i) => Some(i),
            None => if M::preprocessed(all.last()).1 is Err {
                Some(all.len() - 1)
            } else {
                None
            },
        }
    }
}

/// The first refused vector is refused and none before it is.
pub proof fn lemma_first_refused<M: Metric>(all: Seq<Seq<u32>>)
    ensures
        match first_refused::<M>(all) {
            Some(i) => {
                &&& 0 <= i < all.len()
                &&& M::preprocessed(all[i]).1 is Err
                &&& forall|j: int| 0 <= j < i ==> M::preprocessed(#[trigger] all[j]).1 is Ok
            },
            None => forall|j: int|
                0 <= j < all.len() ==> M::preprocessed(#[trigger] all[j]).1 is Ok,
        },
    decreases all.len(),
{
    if all.len() > 0 {
        let rest = all.drop_last();
        lemma_first_refused::<M>(rest);
        match first_refused::<M>(all) {
            Some(i) => {
                assert forall|j: int| 0 <= j < i implies M::preprocessed(
                    #[trigger] all[j],
                ).1 is Ok by {
                    assert(rest[j] == all[j]);
                }
            },
            None => {
                assert forall|j: int| 0 <= j < all.len() implies M::preprocessed(
                    #[trigger] all[j],
                ).1 is Ok by {
                    if j < rest.len() {
                        assert(rest[j] == all[j]);
                    }
                }
            },
        }
    }
}

/// Preprocessing changes every vector up to the first that is refused, that one included, and none
/// behind it; with none refused, all of them.
pub proof fn lemma_all_preprocessed<M: Metric>(all: Seq<Seq<u32>>, i: int)
    requires
        0 <= i < all.len(),
    ensures
        all_preprocessed::<M>(all).len() == all.len(),
        (forall|j: int| 0 <= j < i ==> M::preprocessed(#[trigger] all[j]).1 is Ok)
            ==> all_preprocessed::<M>(all)[i] == M::preprocessed(all[i]).0,
        (exists|j: int| 0 <= j < i && M::preprocessed(#[trigger] all[j]).1 is Err)
            ==> all_preprocessed::<M>(all)[i] == all[i],
{
    lemma_first_refused::<M>(all);
    if exists|j: int| 0 <= j < i && M::preprocessed(#[trigger] all[j]).1 is Err {
        let j = choose|j: int| 0 <= j < i && M::preprocessed(#[trigger] all[j]).1 is Err;
        assert(first_refused::<M>(all) is Some);
    }
}

/// A vector has a direction just when all of its components are finite and one of them is not a
/// zero.
pub proof fn lemma_direction_error(v: Seq<u32>)
    requires
        v.len() <= usize::MAX,
    ensures
        direction_error(v) is None <==> (forall|i: int|
            0 <= i < v.len() ==> bits::finite(#[trigger] v[i])) && exists|i: int|
            0 <= i < v.len() && !bits::zero(#[trigger] v[i]),
        match direction_error(v) {
            None => true,
            Some(VectorError::NonFinite { vector, component, value }) => {
                &&& vector == 0
                &&& component < v.len()
                &&& value == v[component as int]
                &&& !bits::finite(value)
                &&& forall|i: int| 0 <= i < component ==> bits::finite(#[trigger] v[i])
            },
            Some(VectorError::ZeroVector { vector }) => vector == 0 && forall|i: int|
                0 <= i < v.len() ==> bits::zero(#[trigger] v[i]),
            _ => false,
        },
{
    lemma_first_non_finite(v);
}

/// A collection after preprocessing: every vector before the first refused one, and that one, as
/// `M` leaves it, the others untouched.
pub open spec fn all_preprocessed<M: Metric>(all: Seq<Seq<u32>>) -> Seq<Seq<u32>> {
    let reached = match first_refused::<M>(all) {
        Some(i) => i,
        None => all.len() as int,
    };
    Seq::new(
        all.len(),
        |i: int|
            if i <= reached {
                M::preprocessed(all[i]).0
            } else {
                all[i]
            },
    )
}

proof fn lemma_first_refused_extends<M: Metric>(all: Seq<Seq<u32>>, upto: int)
    requires
        0 <= upto <= all.len(),
        first_refused::<M>(all.take(upto)) is Some,
    ensures
        first_refused::<M>(all) == first_refused::<M>(all.take(upto)),
    decreases all.len() - upto,
{
    if upto < all.len() {
        assert(all.take(upto + 1).drop_last() =~= all.take(upto));
        lemma_first_refused_extends::<M>(all, upto + 1);
    } else {
        assert(all.take(upto) =~= all);
    }
}

/// Applies `M::preprocess` to every vector in a store, in place, and stops at the first one that
/// is refused.
pub fn preprocess_all<M: Metric>(store: &mut VectorStore) -> (r: Result<(), VectorError>)
    requires
        old(store).wf(),
    ensures
        final(store).wf(),
        final(store).width() == old(store).width(),
        final(store).size() == old(store).size(),
        match r {
            Ok(_) => {
                &&& !old(store).reads_mapping()
                &&& first_refused::<M>(old(store).all()) is None
                &&& final(store).all() == all_preprocessed::<M>(old(store).all())
            },
            Err(e) => if old(store).reads_mapping() {
                e == VectorError::ReadOnlyStorage && *final(store) == *old(store)
            } else {
                match first_refused::<M>(old(store).all()) {
                    Some(i) => {
                        &&& 0 <= i < old(store).size()
                        &&& e == M::preprocessed(old(store).all()[i]).1->Err_0.pointed_at(i as usize)
                        &&& final(store).all() == all_preprocessed::<M>(old(store).all())
                    },
                    None => false,
                }
            },
        },
{
    let ghost all = store.all();
    proof {
        store.lemma_wf();
    }
    if store.is_mapped() {
        return Err(VectorError::ReadOnlyStorage);
    }
    let count: usize = store.len();
    let mut index: usize = 0;
    while index < count
        invariant
            index <= count,
            count == all.len(),
            count == store.size(),
            store.wf(),
            !store.reads_mapping(),
            store.width() == old(store).width(),
            store.size() == old(store).size(),
            !old(store).reads_mapping(),
            all == old(store).all(),
            first_refused::<M>(all.take(index as int)) is None,
            store.all() == Seq::new(
                all.len(),
                |i: int|
                    if i < index {
                        M::preprocessed(all[i]).0
                    } else {
                        all[i]
                    },
            ),
        decreases count - index,
    {
        proof {
            store.lemma_wf();
            assert(all.take(index + 1).drop_last() =~= all.take(index as int));
        }
        let mut vector: Vec<u32> = vstd::slice::slice_to_vec(store.get(index));
        let outcome = M::preprocess(vector.as_mut_slice());
        store.set_row(index, &vector);
        match outcome {
            Err(e) => {
                proof {
                    lemma_first_refused_extends::<M>(all, index + 1);
                    assert(store.all() =~= all_preprocessed::<M>(all));
                }
                return Err(e.at_vector(index));
            },
            Ok(_) => {},
        }
        proof {
            assert(store.all() =~= Seq::new(
                all.len(),
                |i: int|
                    if i < index + 1 {
                        M::preprocessed(all[i]).0
                    } else {
                        all[i]
                    },
            ));
        }
        index += 1;
    }
    proof {
        assert(all.take(count as int) =~= all);
        assert(store.all() =~= all_preprocessed::<M>(all));
    }
    Ok(())
}

} // verus!
