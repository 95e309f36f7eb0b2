use vstd::prelude::*;

verus! {

/// Whether a package's recorded artifact can be reused (`Skip`) or the
/// package must be rebuilt (`Rebuild`).
#[derive(Clone, Copy, PartialEq, Eq, Structural, Debug)]
pub enum StalenessDecision {
    Skip,
    Rebuild,
}

/// A dependency artifact forces a rebuild when it is missing (no timestamp
/// could be read) or when it is newer than the package's own artifact.
pub open spec fn dep_forces_rebuild(dep: Option<u64>, own: u64) -> bool {
    match dep {
        None => true,
        Some(t) => t > own,
    }
}

/// The staleness rule: rebuild when the package has no readable recorded
/// artifact, or when any dependency artifact is missing or newer than the
/// package's own; otherwise the artifact is reused.
pub open spec fn decide_spec(recorded: Option<u64>, deps: Seq<Option<u64>>) -> StalenessDecision {
    match recorded {
        None => StalenessDecision::Rebuild,
        Some(own) => if exists|k: int|
            0 <= k < deps.len() && dep_forces_rebuild(#[trigger] deps[k], own) {
            StalenessDecision::Rebuild
        } else {
            StalenessDecision::Skip
        },
    }
}

/// Decide whether one package must be rebuilt.
///
/// `recorded` is the last-modified timestamp of the package's recorded
/// artifact, `None` when no artifact is recorded or its file cannot be read.
/// `dep_times` holds one entry per dependency artifact, `None` when that
/// artifact is missing.
pub fn decide(recorded: Option<u64>, dep_times: &Vec<Option<u64>>) -> (d: StalenessDecision)
    ensures
        d == decide_spec(recorded, dep_times@),
{
    match recorded {
        None => StalenessDecision::Rebuild,
        Some(own) => {
            let mut k: usize = 0;
            while k < dep_times.len()
                invariant
                    recorded == Some(own),
                    k <= dep_times@.len(),
                    forall|t: int|
                        0 <= t < k ==> !dep_forces_rebuild(#[trigger] dep_times@[t], own),
                decreases dep_times@.len() - k,
            {
                let force = match dep_times[k] {
                    None => true,
                    Some(t) => t > own,
                };
                if force {
                    proof {
                        assert(dep_forces_rebuild(dep_times@[k as int], own));
                        assert(exists|t: int|
                            0 <= t < dep_times@.len() && dep_forces_rebuild(
                                #[trigger] dep_times@[t],
                                own,
                            ));
                    }
                    return StalenessDecision::Rebuild;
                }
                k += 1;
            }
            StalenessDecision::Skip
        },
    }
}

/// Staleness is idempotent: when nothing is rebuilt between two evaluations,
/// so no recorded artifact and no dependency timestamp changes, a package
/// whose first evaluation said `Skip` is again evaluated as `Skip`.
pub proof fn lemma_staleness_idempotent(
    recorded: Option<u64>,
    deps: Seq<Option<u64>>,
    recorded_again: Option<u64>,
    deps_again: Seq<Option<u64>>,
)
    requires
        recorded_again == recorded,
        deps_again == deps,
        decide_spec(recorded, deps) == StalenessDecision::Skip,
    ensures
        decide_spec(recorded_again, deps_again) == StalenessDecision::Skip,
{
}

/// Forward invalidation: when a dependency's artifact is newer than the
/// package's recorded artifact, the package is rebuilt.
pub proof fn lemma_forward_invalidation(own: u64, deps: Seq<Option<u64>>, k: int, dep_time: u64)
    requires
        0 <= k < deps.len(),
        deps[k] == Some(dep_time),
        dep_time > own,
    ensures
        decide_spec(Some(own), deps) == StalenessDecision::Rebuild,
{
    assert(dep_forces_rebuild(deps[k], own));
}

} // verus!
