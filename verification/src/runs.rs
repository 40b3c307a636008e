//! Numbers that tell one run of background work from the runs that it replaced.
//!
//! Whoever starts a run hands out a new number with it. What comes back under any other number
//! than the last one is from a run that has been replaced.

use vstd::prelude::*;

verus! {

/// The number that follows `run`.
pub open spec fn run_after(run: u64) -> u64 {
    if run == u64::MAX {
        0
    } else {
        (run + 1) as u64
    }
}

/// The number that follows `run`.
pub fn next_run(run: u64) -> (next: u64)
    ensures
        next == run_after(run),
{
    if run == u64::MAX {
        0
    } else {
        run + 1
    }
}

/// The number that is handed out `count` runs after `run`.
pub open spec fn runs_after(run: u64, count: nat) -> u64
    decreases count,
{
    if count == 0 {
        run
    } else {
        run_after(runs_after(run, (count - 1) as nat))
    }
}

proof fn lemma_runs_after(run: u64, count: nat)
    requires
        count <= u64::MAX,
    ensures
        runs_after(run, count) == if run + count <= u64::MAX {
            run + count
        } else {
            run + count - u64::MAX - 1
        },
    decreases count,
{
    if count > 0 {
        lemma_runs_after(run, (count - 1) as nat);
    }
}

/// A number does not come back for as long as numbers last: every later run, up to the largest
/// count there is, has another one.
pub proof fn law_run_numbers_do_not_repeat(run: u64, count: nat)
    requires
        0 < count <= u64::MAX,
    ensures
        runs_after(run, count) != run,
{
    lemma_runs_after(run, count);
}

} // verus!
