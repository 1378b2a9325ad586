//! Build parameters and layer assignment.

use rand::rngs::StdRng;
use rand::{RngExt, SeedableRng};
use vstd::prelude::*;

use crate::error::{IndexError, MAX_M};
use crate::hnsw::select::SelectionPolicy;

verus! {

/// Upper bound on the level a node can be assigned.
pub const MAX_LEVEL: usize = 32;

/// How an HNSW graph is built.
#[derive(Clone, Copy, Debug, PartialEq, Eq, Structural)]
pub struct HnswParams {
    m: usize,
    max_degree0: usize,
    ef_construction: usize,
    seed: u64,
    selection: SelectionPolicy,
}

/// Why parameters cannot build a usable graph, if they cannot.
pub open spec fn params_error(m: int, max_degree0: int, ef_construction: int) -> Option<
    IndexError,
> {
    if m == 0 {
        Some(IndexError::ZeroM)
    } else if m > MAX_M {
        Some(IndexError::MTooLarge { m: m as usize })
    } else if max_degree0 < m {
        Some(IndexError::MaxDegreeTooSmall { m: m as usize, max_degree0: max_degree0 as usize })
    } else if ef_construction == 0 {
        Some(IndexError::ZeroEfConstruction)
    } else {
        None
    }
}

/// The parameters that build a usable graph: at least one link and no more than the limit, room for
/// them on layer 0, and a candidate list that is not empty. What is refused is what is wrong first.
pub proof fn lemma_params_error(m: int, max_degree0: int, ef_construction: int)
    requires
        0 <= m <= usize::MAX,
        0 <= max_degree0 <= usize::MAX,
        0 <= ef_construction,
    ensures
        params_error(m, max_degree0, ef_construction) is None <==> 1 <= m <= MAX_M && m
            <= max_degree0 && ef_construction >= 1,
        match params_error(m, max_degree0, ef_construction) {
            None => true,
            Some(IndexError::ZeroM) => m == 0,
            Some(IndexError::MTooLarge { m: given }) => given == m && m > MAX_M,
            Some(IndexError::MaxDegreeTooSmall { m: given, max_degree0: room }) => given == m && room
                == max_degree0 && 1 <= m <= MAX_M && max_degree0 < m,
            Some(IndexError::ZeroEfConstruction) => ef_construction == 0 && 1 <= m <= MAX_M && m
                <= max_degree0,
            _ => false,
        },
{
}

/// A level is kept as it is up to the limit, and cut down to it above.
pub proof fn lemma_guarded(level: usize)
    ensures
        guarded(level) <= 32,
        level <= 32 ==> guarded(level) == level,
        level > 32 ==> guarded(level) == 32,
{
}

impl HnswParams {
    /// Connections a new node makes per layer.
    pub closed spec fn links(&self) -> nat {
        self.m as nat
    }

    /// Cap on the degree of layer 0.
    pub closed spec fn base_cap(&self) -> nat {
        self.max_degree0 as nat
    }

    /// Candidate list size during construction.
    pub closed spec fn width(&self) -> nat {
        self.ef_construction as nat
    }

    /// Seed for layer assignment.
    pub closed spec fn origin(&self) -> u64 {
        self.seed
    }

    /// How neighbours are chosen.
    pub closed spec fn policy(&self) -> SelectionPolicy {
        self.selection
    }

    /// Degree cap of a layer.
    pub open spec fn cap(&self, layer: int) -> nat {
        if layer == 0 {
            self.base_cap()
        } else {
            self.links()
        }
    }

    /// The parameters build a usable graph.
    pub open spec fn wf(&self) -> bool {
        &&& params_error(self.links() as int, self.base_cap() as int, self.width() as int) is None
        &&& self.base_cap() <= usize::MAX
        &&& self.width() <= usize::MAX
    }

    /// The parameters that a set of values makes, or why they are refused.
    pub open spec fn checked(
        r: Result<HnswParams, IndexError>,
        m: int,
        max_degree0: int,
        ef_construction: int,
        seed: u64,
        policy: SelectionPolicy,
    ) -> bool {
        match r {
            Ok(p) => {
                &&& params_error(m, max_degree0, ef_construction) is None
                &&& p.wf()
                &&& p.links() == m
                &&& p.base_cap() == max_degree0
                &&& p.width() == ef_construction
                &&& p.origin() == seed
                &&& p.policy() == policy
            },
            Err(e) => params_error(m, max_degree0, ef_construction) == Some(e),
        }
    }

    /// Parameters are the values they were made of.
    pub proof fn lemma_same(self, other: HnswParams)
        requires
            self.links() == other.links(),
            self.base_cap() == other.base_cap(),
            self.width() == other.width(),
            self.origin() == other.origin(),
            self.policy() == other.policy(),
        ensures
            self == other,
    {
    }

    /// Defaults derived from `m`: twice as many edges on layer 0, a candidate list of 200, seed
    /// zero and the whole selection heuristic.
    pub fn new(m: usize) -> (r: Result<Self, IndexError>)
        ensures
            HnswParams::checked(
                r,
                m as int,
                2 * m,
                200,
                0,
                SelectionPolicy { heuristic: true, keep_pruned: true },
            ),
    {
        if m == 0 {
            return Err(IndexError::ZeroM);
        }
        if m > MAX_M {
            return Err(IndexError::MTooLarge { m });
        }
        let p = HnswParams {
            m,
            max_degree0: 2 * m,
            ef_construction: 200,
            seed: 0,
            selection: SelectionPolicy { heuristic: true, keep_pruned: true },
        };
        p.finish()
    }

    /// Overrides how neighbours are chosen.
    pub fn with_selection(self, selection: SelectionPolicy) -> (r: Result<Self, IndexError>)
        ensures
            HnswParams::checked(
                r,
                self.links() as int,
                self.base_cap() as int,
                self.width() as int,
                self.origin(),
                selection,
            ),
    {
        let p = HnswParams { selection, ..self };
        p.finish()
    }

    pub fn with_max_degree0(self, max_degree0: usize) -> (r: Result<Self, IndexError>)
        ensures
            HnswParams::checked(
                r,
                self.links() as int,
                max_degree0 as int,
                self.width() as int,
                self.origin(),
                self.policy(),
            ),
    {
        let p = HnswParams { max_degree0, ..self };
        p.finish()
    }

    pub fn with_ef_construction(self, ef_construction: usize) -> (r: Result<Self, IndexError>)
        ensures
            HnswParams::checked(
                r,
                self.links() as int,
                self.base_cap() as int,
                ef_construction as int,
                self.origin(),
                self.policy(),
            ),
    {
        let p = HnswParams { ef_construction, ..self };
        p.finish()
    }

    pub fn with_seed(self, seed: u64) -> (r: Result<Self, IndexError>)
        ensures
            HnswParams::checked(
                r,
                self.links() as int,
                self.base_cap() as int,
                self.width() as int,
                seed,
                self.policy(),
            ),
    {
        let p = HnswParams { seed, ..self };
        p.finish()
    }

    fn finish(self) -> (r: Result<Self, IndexError>)
        ensures
            HnswParams::checked(
                r,
                self.links() as int,
                self.base_cap() as int,
                self.width() as int,
                self.origin(),
                self.policy(),
            ),
    {
        if self.m == 0 {
            return Err(IndexError::ZeroM);
        }
        if self.m > MAX_M {
            return Err(IndexError::MTooLarge { m: self.m });
        }
        if self.max_degree0 < self.m {
            return Err(
                IndexError::MaxDegreeTooSmall { m: self.m, max_degree0: self.max_degree0 },
            );
        }
        if self.ef_construction == 0 {
            return Err(IndexError::ZeroEfConstruction);
        }
        Ok(self)
    }

    pub fn m(&self) -> (r: usize)
        ensures
            r == self.links(),
    {
        self.m
    }

    pub fn max_degree0(&self) -> (r: usize)
        ensures
            r == self.base_cap(),
    {
        self.max_degree0
    }

    pub fn ef_construction(&self) -> (r: usize)
        ensures
            r == self.width(),
    {
        self.ef_construction
    }

    pub fn seed(&self) -> (r: u64)
        ensures
            r == self.origin(),
    {
        self.seed
    }

    pub fn selection(&self) -> (r: SelectionPolicy)
        ensures
            r == self.policy(),
    {
        self.selection
    }

    /// Layer 0 gets `max_degree0`, every layer above it gets `M`.
    pub fn max_degree(&self, layer: usize) -> (r: usize)
        ensures
            r == self.cap(layer as int),
    {
        if layer == 0 {
            self.max_degree0
        } else {
            self.m
        }
    }

    /// A generator for this configuration's layer assignment.
    pub fn level_generator(&self) -> (r: LevelGenerator)
        ensures
            r.wf(),
            r.state() == (self.origin(), self.links() == 1, 0u64),
    {
        LevelGenerator::new(self.seed, self.m == 1)
    }

    /// A generator fast-forwarded past `drawn` levels.
    pub fn restored_level_generator(&self, drawn: u64) -> (r: LevelGenerator)
        ensures
            r.wf(),
            r.state() == (self.origin(), self.links() == 1, drawn),
    {
        LevelGenerator::restore(self.seed, self.m == 1, drawn)
    }
}

impl Default for HnswParams {
    /// `M` of 16 and what follows from it.
    fn default() -> (r: Self)
        ensures
            r.wf(),
            r.links() == 16,
            r.base_cap() == 32,
            r.width() == 200,
            r.origin() == 0,
            r.policy() == (SelectionPolicy { heuristic: true, keep_pruned: true }),
    {
        HnswParams {
            m: 16,
            max_degree0: 32,
            ef_construction: 200,
            seed: 0,
            selection: SelectionPolicy { heuristic: true, keep_pruned: true },
        }
    }
}

/// The generator behind layer assignment.
#[verifier::external_type_specification]
#[verifier::external_body]
pub struct ExStdRng(StdRng);

/// The seed a generator was made from, and how many 64-bit words it has produced.
pub uninterp spec fn rng_position(rng: StdRng) -> (u64, nat);

/// Word number `at` of the generator that `rand::rngs::StdRng::seed_from_u64` makes from `seed`.
/// That generator is a ChaCha stream under a key made from the seed, so its words depend on the
/// seed and the position alone, as long as the same version of the crate is linked.
pub uninterp spec fn rng_word(seed: u64, at: nat) -> u64;

/// Calls `rand::SeedableRng::seed_from_u64` for `StdRng`: a generator at the start of the
/// sequence that the seed determines.
#[verifier::external_body]
fn seeded(seed: u64) -> (rng: StdRng)
    ensures
        rng_position(rng) == (seed, 0nat),
{
    StdRng::seed_from_u64(seed)
}

/// Calls `rand::RngExt::random` on a `StdRng` for a `u64`: the next word of its sequence, which
/// moves on by one.
#[verifier::external_body]
fn next_word(rng: &mut StdRng) -> (word: u64)
    requires
        rng_position(*old(rng)).1 < u64::MAX,
    ensures
        word == rng_word(rng_position(*old(rng)).0, rng_position(*old(rng)).1),
        rng_position(*final(rng)) == (
            rng_position(*old(rng)).0,
            (rng_position(*old(rng)).1 + 1) as nat,
        ),
{
    rng.random::<u64>()
}

/// Draws the level a new node is inserted at.
///
/// A level comes from one word of a seeded generator, so that an index can be built twice the
/// same. The thinning of the layers, `floor(-ln(U) / ln(M))` for a uniform `U`, is floating-point
/// arithmetic and is handed in. With `M` of one the graph is flat: every level is zero and no
/// word is used.
#[derive(Debug)]
pub struct LevelGenerator {
    rng: StdRng,
    seed: u64,
    flat: bool,
    drawn: u64,
}

/// The least of a level and the guard.
pub open spec fn guarded(level: usize) -> usize {
    if level < MAX_LEVEL {
        level
    } else {
        MAX_LEVEL
    }
}

/// Whether `level` is what a generator in the given state draws, with `scale` turning a word into
/// a level.
pub open spec fn draws<F: Fn(u64) -> usize>(
    state: (u64, bool, u64),
    scale: F,
    level: usize,
) -> bool {
    if state.1 {
        level == 0
    } else {
        exists|raw: usize|
            call_ensures(scale, (rng_word(state.0, state.2 as nat),), raw) && level == #[trigger] guarded(
                raw,
            )
    }
}

/// Where `scale` is a function of the word, generators in the same state draw the same level.
pub proof fn lemma_draws_deterministic<F: Fn(u64) -> usize>(
    state: (u64, bool, u64),
    scale: F,
    a: usize,
    b: usize,
)
    requires
        forall|w: u64, x: usize, y: usize|
            call_ensures(scale, (w,), x) && call_ensures(scale, (w,), y) ==> x == y,
        draws(state, scale, a),
        draws(state, scale, b),
    ensures
        a == b,
        a <= MAX_LEVEL,
{
}

/// Levels that a generator draws one after the other, starting in the given state.
pub open spec fn draws_all<F: Fn(u64) -> usize>(
    state: (u64, bool, u64),
    scale: F,
    levels: Seq<usize>,
) -> bool {
    forall|i: int|
        0 <= i < levels.len() ==> draws(
            (state.0, state.1, (state.2 + i) as u64),
            scale,
            #[trigger] levels[i],
        )
}

/// A restored generator goes on where the first one was: what it draws is what the first one draws
/// after `first`, and no level is above the guard.
pub proof fn lemma_restored_continues<F: Fn(u64) -> usize>(
    seed: u64,
    flat: bool,
    scale: F,
    first: Seq<usize>,
    later: Seq<usize>,
    restored: Seq<usize>,
)
    requires
        first.len() + later.len() <= u64::MAX,
        later.len() == restored.len(),
        forall|w: u64, x: usize, y: usize|
            call_ensures(scale, (w,), x) && call_ensures(scale, (w,), y) ==> x == y,
        draws_all((seed, flat, 0), scale, first + later),
        draws_all((seed, flat, first.len() as u64), scale, restored),
    ensures
        restored == later,
        forall|i: int| 0 <= i < restored.len() ==> #[trigger] restored[i] <= MAX_LEVEL,
{
    assert forall|i: int| 0 <= i < restored.len() implies restored[i] == later[i]
        && #[trigger] restored[i] <= MAX_LEVEL by {
        let whole = first + later;
        let at = first.len() + i;
        assert(whole[at] == later[i]);
        assert(draws((seed, flat, at as u64), scale, whole[at]));
        assert(draws((seed, flat, (first.len() as u64 + i) as u64), scale, restored[i]));
        lemma_draws_deterministic((seed, flat, at as u64), scale, later[i], restored[i]);
    }
    assert(restored =~= later);
}

impl LevelGenerator {
    /// The seed, whether the graph is flat, and how many levels have been drawn. Everything that
    /// the generator will draw follows from these.
    pub closed spec fn state(&self) -> (u64, bool, u64) {
        (self.seed, self.flat, self.drawn)
    }

    pub closed spec fn wf(&self) -> bool {
        rng_position(self.rng) == (
            self.seed,
            if self.flat {
                0nat
            } else {
                self.drawn as nat
            },
        )
    }

    pub fn new(seed: u64, flat: bool) -> (r: Self)
        ensures
            r.wf(),
            r.state() == (seed, flat, 0u64),
    {
        LevelGenerator { rng: seeded(seed), seed, flat, drawn: 0 }
    }

    /// Re-creates the state a generator reaches after `drawn` levels, by drawing them again.
    pub fn restore(seed: u64, flat: bool, drawn: u64) -> (r: Self)
        ensures
            r.wf(),
            r.state() == (seed, flat, drawn),
    {
        let mut generator = LevelGenerator::new(seed, flat);
        while generator.drawn < drawn
            invariant
                generator.wf(),
                generator.drawn <= drawn,
                generator.seed == seed,
                generator.flat == flat,
            decreases drawn - generator.drawn,
        {
            let word = generator.step();
        }
        generator
    }

    /// How many levels this generator has produced.
    pub fn drawn(&self) -> (r: u64)
        ensures
            r == self.state().2,
    {
        self.drawn
    }

    /// Counts one draw and returns the word that decides it, if one does.
    fn step(&mut self) -> (word: Option<u64>)
        requires
            old(self).wf(),
            old(self).drawn < u64::MAX,
        ensures
            final(self).wf(),
            final(self).state() == (old(self).seed, old(self).flat, (old(self).drawn + 1) as u64),
            word == if old(self).flat {
                None
            } else {
                Some(rng_word(old(self).seed, old(self).drawn as nat))
            },
    {
        self.drawn = self.drawn + 1;
        if self.flat {
            None
        } else {
            Some(next_word(&mut self.rng))
        }
    }

    /// The level for the next node. `scale` makes a level of a uniformly distributed word.
    pub fn next_level<F: Fn(u64) -> usize>(&mut self, scale: &F) -> (level: usize)
        requires
            old(self).wf(),
            old(self).state().2 < u64::MAX,
            forall|w: u64| call_requires(*scale, (w,)),
        ensures
            final(self).wf(),
            final(self).state() == (
                old(self).state().0,
                old(self).state().1,
                (old(self).state().2 + 1) as u64,
            ),
            level <= MAX_LEVEL,
            draws(old(self).state(), *scale, level),
    {
        match self.step() {
            None => 0,
            Some(word) => {
                let raw: usize = scale(word);
                let level: usize = if raw < MAX_LEVEL {
                    raw
                } else {
                    MAX_LEVEL
                };
                assert(level == guarded(raw));
                level
            },
        }
    }
}

/// What is drawn is never above the guard, and is what the word scales to where that is not. With a
/// single link to a node there is nothing but the first layer.
pub proof fn lemma_draws<F: Fn(u64) -> usize>(state: (u64, bool, u64), scale: F, level: usize)
    requires
        draws(state, scale, level),
    ensures
        level <= 32,
        state.1 ==> level == 0,
        !state.1 && level < 32 ==> call_ensures(
            scale,
            (rng_word(state.0, state.2 as nat),),
            level,
        ),
        !state.1 && level == 32 ==> exists|raw: usize|
            raw >= 32 && #[trigger] call_ensures(
                scale,
                (rng_word(state.0, state.2 as nat),),
                raw,
            ),
{
}

} // verus!
