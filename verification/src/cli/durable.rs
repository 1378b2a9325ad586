//! Ingesting into a collection that outlives the process.

use vstd::prelude::*;
use vstd::string::StringExecFns;

use crate::cli::bench::built;
use crate::cli::datasets::ArgError;
use crate::error::IndexError;
use crate::hnsw::graph::{lemma_inserted_appends, Graph};
use crate::hnsw::index::{empty_graph, refused_at};
use crate::hnsw::params::{guarded, lemma_guarded, HnswParams};
use crate::hnsw::select::SelectionPolicy;
use crate::metric::Metric;
use crate::store::error::RecoveryError;
use crate::store::recovery::{self, all_applied};
use crate::store::wal::{Interval, Operation, SyncPolicy};
use crate::text::{self, decimal, number};

verus! {

/// What an ingest is asked to do.
#[derive(Clone, Copy, Debug, PartialEq, Eq)]
pub struct IngestArgs {
    /// Connections per node per layer.
    pub m: usize,
    /// Candidate list size during construction.
    pub ef_construction: usize,
    /// Seed for layer assignment.
    pub seed: u64,
    /// Ingest only so many vectors.
    pub limit: Option<usize>,
    /// Checkpoint after every so many inserts.
    pub checkpoint_every: Option<usize>,
}

impl IngestArgs {
    /// The parameters to build with.
    pub fn params(&self) -> (r: Result<HnswParams, IndexError>)
        ensures
            HnswParams::checked(
                r,
                self.m as int,
                2 * self.m,
                self.ef_construction as int,
                self.seed,
                SelectionPolicy { heuristic: true, keep_pruned: true },
            ),
    {
        build_params(
            self.m,
            self.ef_construction,
            self.seed,
            SelectionPolicy { heuristic: true, keep_pruned: true },
        )
    }

    /// Whether a checkpoint is due after the insert at `position`.
    pub fn checkpoint_due(&self, position: usize) -> (r: bool)
        requires
            position < usize::MAX,
        ensures
            r == match self.checkpoint_every {
                Some(every) => every > 0 && (position + 1) % (every as int) == 0,
                None => false,
            },
    {
        match self.checkpoint_every {
            Some(every) => every > 0 && (position + 1) % every == 0,
            None => false,
        }
    }
}

/// Parameters from what a command line gives, and defaults for the rest.
pub fn build_params(m: usize, ef_construction: usize, seed: u64, selection: SelectionPolicy) -> (r:
    Result<HnswParams, IndexError>)
    ensures
        HnswParams::checked(r, m as int, 2 * m, ef_construction as int, seed, selection),
{
    let p = match HnswParams::new(m) {
        Err(e) => {
            return Err(e);
        },
        Ok(p) => p,
    };
    let p = match p.with_ef_construction(ef_construction) {
        Err(e) => {
            return Err(e);
        },
        Ok(p) => p,
    };
    let p = match p.with_seed(seed) {
        Err(e) => {
            return Err(e);
        },
        Ok(p) => p,
    };
    p.with_selection(selection)
}

/// Whether a text starts with another.
pub open spec fn starts_with(s: Seq<char>, prefix: Seq<char>) -> bool {
    prefix.len() <= s.len() && s.take(prefix.len() as int) == prefix
}

/// The policy that a text stands for: `always`, `every:N` or `never`.
pub open spec fn policy_of(s: Seq<char>) -> Result<SyncPolicy, ArgError> {
    if s == "always"@ {
        Ok(SyncPolicy::Always)
    } else if s == "never"@ {
        Ok(SyncPolicy::Never)
    } else if starts_with(s, "every:"@) {
        match number(s.skip("every:"@.len() as int), u32::MAX as nat) {
            None => Err(ArgError::PolicyNotANumber),
            Some(n) => if n == 0 {
                Err(ArgError::PolicyZero)
            } else {
                Ok(SyncPolicy::EveryN(Interval::of(n as u32)))
            },
        }
    } else {
        Err(ArgError::UnknownPolicy)
    }
}

/// Parses `always`, `every:N` or `never`.
pub fn sync_policy(spec: &str) -> (r: Result<SyncPolicy, ArgError>)
    ensures
        r == policy_of(spec@),
{
    if text::same(spec, "always") {
        return Ok(SyncPolicy::Always);
    }
    if text::same(spec, "never") {
        return Ok(SyncPolicy::Never);
    }
    let chars = text::chars_of(spec);
    let prefix = text::chars_of("every:");
    let count: usize = prefix.len();
    if chars.len() < count {
        return Err(ArgError::UnknownPolicy);
    }
    let mut i: usize = 0;
    while i < count
        invariant
            i <= count,
            count == prefix@.len(),
            count <= chars@.len(),
            chars@ == spec@,
            prefix@ == "every:"@,
            spec@ != "always"@,
            spec@ != "never"@,
            forall|j: int| 0 <= j < i ==> chars@[j] == prefix@[j],
        decreases count - i,
    {
        if chars[i] != prefix[i] {
            proof {
                if starts_with(spec@, "every:"@) {
                    assert(spec@.take(count as int)[i as int] == chars@[i as int]);
                }
            }
            return Err(ArgError::UnknownPolicy);
        }
        i += 1;
    }
    proof {
        assert(spec@.take(count as int) =~= "every:"@);
        assert(chars@.subrange(count as int, chars@.len() as int) =~= spec@.skip(count as int));
    }
    let digits = vstd::slice::slice_subrange(chars.as_slice(), count, chars.len());
    match text::parse_number(digits, 0xFFFF_FFFF) {
        None => Err(ArgError::PolicyNotANumber),
        Some(n) => match Interval::new(n as u32) {
            None => Err(ArgError::PolicyZero),
            Some(interval) => Ok(SyncPolicy::EveryN(interval)),
        },
    }
}

/// What stands for each policy: its name, or `every:` and a number of records that is not zero. What
/// does not is told apart by whether it starts that way and whether a number follows.
pub proof fn lemma_policy_of(s: Seq<char>, n: u32)
    ensures
        policy_of(s) == Ok::<SyncPolicy, ArgError>(SyncPolicy::Always) <==> s == "always"@,
        policy_of(s) == Ok::<SyncPolicy, ArgError>(SyncPolicy::Never) <==> s == "never"@,
        policy_of("every:"@ + decimal(n as nat)) == if n == 0 {
            Err::<SyncPolicy, ArgError>(ArgError::PolicyZero)
        } else {
            Ok(SyncPolicy::EveryN(Interval::of(n)))
        },
        policy_of(s) == Err::<SyncPolicy, ArgError>(ArgError::UnknownPolicy) <==> s != "always"@
            && s != "never"@ && !"every:"@.is_prefix_of(s),
        policy_of(s) == Err::<SyncPolicy, ArgError>(ArgError::PolicyNotANumber)
            <==> "every:"@.is_prefix_of(s) && number(s.skip(6), u32::MAX as nat) is None,
        policy_of(s) == Err::<SyncPolicy, ArgError>(ArgError::PolicyZero)
            <==> "every:"@.is_prefix_of(s) && number(s.skip(6), u32::MAX as nat) == Some(0nat),
{
    reveal_strlit("always");
    reveal_strlit("never");
    reveal_strlit("every:");
    text::lemma_number_reads_back(n as nat, u32::MAX as nat);
    let t = "every:"@ + decimal(n as nat);
    assert(t.take(6) =~= "every:"@);
    assert(t.skip(6) =~= decimal(n as nat));
    assert(t[0] == 'e');
    assert("always"@[0] == 'a' && "never"@[0] == 'n' && "every:"@[0] == 'e');
    if "every:"@.is_prefix_of(s) {
        assert(s.take(6) =~= "every:"@);
        assert(s[0] == 'e');
    }
    if starts_with(s, "every:"@) {
        assert("every:"@.is_prefix_of(s)) by {
            assert(s.subrange(0, 6) =~= s.take(6));
        }
    }
}

/// The records of the first `n` inserts of a build.
pub open spec fn insert_records(
    vecs: Seq<Seq<u32>>,
    levels: Seq<usize>,
    ids: Seq<u64>,
    n: nat,
) -> Seq<Operation> {
    Seq::new(
        n,
        |i: int| Operation::Insert {
            external_id: ids[i],
            level: guarded(levels[i]) as u8,
            vector: vecs[i],
            metadata: Seq::empty(),
        },
    )
}

/// Replaying the log of an ingest gives the graph that building the index in memory gives: the same
/// vectors at the same levels, whatever ids they were given.
pub proof fn lemma_log_of_build<M: Metric>(
    params: HnswParams,
    dim: nat,
    vecs: Seq<Seq<u32>>,
    levels: Seq<usize>,
    ids: Seq<u64>,
    first: int,
    n: nat,
)
    requires
        n <= vecs.len(),
        n <= levels.len(),
        n <= u32::MAX,
        forall|i: int| 0 <= i < n ==> refused_at(i as nat, dim, #[trigger] vecs[i]) is None,
    ensures
        all_applied::<M>(
            empty_graph(),
            params,
            dim as int,
            first,
            insert_records(vecs, levels, ids, n),
        ) == Ok::<Graph, RecoveryError>(built::<M>(params, vecs, levels, n)),
        built::<M>(params, vecs, levels, n).vecs.len() == n,
    decreases n,
{
    if n > 0 {
        let m = (n - 1) as nat;
        lemma_log_of_build::<M>(params, dim, vecs, levels, ids, first, m);
        let ops = insert_records(vecs, levels, ids, m);
        let all = insert_records(vecs, levels, ids, n);
        assert(all =~= ops.push(all[n - 1]));
        recovery::lemma_one_more_applied::<M>(
            empty_graph(),
            params,
            dim as int,
            first,
            ops,
            all[n - 1],
        );
        lemma_guarded(levels[n - 1]);
        lemma_inserted_appends::<M>(
            built::<M>(params, vecs, levels, m),
            params,
            vecs[n - 1],
            guarded(levels[n - 1]) as nat,
        );
        assert(refused_at(m, dim, vecs[n - 1]) is None);
    }
}

/// A policy in words.
pub open spec fn policy_text(policy: SyncPolicy) -> Seq<char> {
    match policy {
        SyncPolicy::Always => "always"@,
        SyncPolicy::EveryN(n) => "every "@ + decimal(n.length() as nat) + " records"@,
        SyncPolicy::Never => "never"@,
    }
}

pub fn describe(policy: SyncPolicy) -> (r: String)
    ensures
        r@ == policy_text(policy),
{
    match policy {
        SyncPolicy::Always => "always".to_owned(),
        SyncPolicy::EveryN(n) => {
            let mut out = "every ".to_owned();
            text::push_decimal(&mut out, n.get() as u64);
            out.append(" records");
            out
        },
        SyncPolicy::Never => "never".to_owned(),
    }
}

/// How a policy is described: by its name, and with the number of records where it has one.
pub proof fn lemma_policy_text(policy: SyncPolicy)
    ensures
        policy == SyncPolicy::Always ==> policy_text(policy) == "always"@,
        policy == SyncPolicy::Never ==> policy_text(policy) == "never"@,
        policy matches SyncPolicy::EveryN(n) ==> {
            let text = policy_text(policy);
            &&& "every "@.is_prefix_of(text)
            &&& text.len() == 6 + decimal(n.length() as nat).len() + 8
            &&& text.subrange(6, text.len() - 8) == decimal(n.length() as nat)
            &&& text.skip(text.len() - 8) == " records"@
        },
{
    if let SyncPolicy::EveryN(n) = policy {
        let text = policy_text(policy);
        reveal_strlit("every ");
        reveal_strlit(" records");
        assert("every "@.len() == 6 && " records"@.len() == 8);
        assert(text.subrange(0, 6) =~= "every "@);
        assert(text.subrange(6, text.len() - 8) =~= decimal(n.length() as nat));
        assert(text.skip(text.len() - 8) =~= " records"@);
    }
}

} // verus!
