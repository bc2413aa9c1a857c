//! Width policy: the admission bound of a pass.
use vstd::prelude::*;

verus! {

/// The default width for a host that reports `parallelism` hardware lanes:
/// that count, and never less than one.
pub open spec fn width_policy(parallelism: nat) -> nat {
    if parallelism == 0 {
        1
    } else {
        parallelism
    }
}

/// Default width derived from the host's reported parallelism.
pub fn automatic_width(parallelism: usize) -> (r: usize)
    ensures
        r >= 1,
        r == width_policy(parallelism as nat),
{
    if parallelism == 0 {
        1
    } else {
        parallelism
    }
}

/// Picks the width of one pass: `n` when the caller gave one, else what
/// the policy `automatic` returns; the policy is consulted only then.
pub fn resolve_width<F: FnOnce() -> usize>(n: Option<usize>, automatic: F) -> (r: usize)
    requires
        n is None ==> automatic.requires(()),
    ensures
        n is Some ==> r == n->0,
        n is None ==> automatic.ensures((), r),
{
    match n {
        Some(w) => w,
        None => automatic(),
    }
}

/// The policy's width is at least one for every host.
pub proof fn lemma_policy_width_positive(parallelism: nat)
    ensures
        width_policy(parallelism) >= 1,
{
}

/// A pass without an explicit width, whose policy is `automatic_width`,
/// runs at exactly the policy's width, and that width is at least one.
pub fn default_pass_width(parallelism: usize) -> (r: usize)
    ensures
        r == width_policy(parallelism as nat),
        r >= 1,
{
    let policy = || -> (w: usize)
        ensures
            w == width_policy(parallelism as nat),
        { automatic_width(parallelism) };
    resolve_width(None, policy)
}

} // verus!
