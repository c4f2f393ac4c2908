//! Applying a nice value to the processes of an application: what each
//! attempt came to, and the tally of those outcomes.
use vstd::prelude::*;

use crate::process::ProcessIdentity;

verus! {

/// What became of the attempt to change one process's priority.
#[derive(Clone, Copy, Debug, PartialEq, Eq)]
pub enum ApplyOutcome {
    /// The priority was changed.
    Changed,
    /// The process had exited, or its PID now belongs to another process.
    Stale,
    /// The system refused: raising the priority needs authorization.
    Denied,
    /// The change failed for another reason.
    Failed,
}

/// How many processes each outcome came to.
#[derive(Debug)]
pub struct ApplyResult {
    pub changed: usize,
    pub stale: usize,
    pub denied: usize,
    pub failed: usize,
}

impl Default for ApplyResult {
    fn default() -> (r: Self)
        ensures
            r.changed == 0 && r.stale == 0 && r.denied == 0 && r.failed == 0,
    {
        ApplyResult { changed: 0, stale: 0, denied: 0, failed: 0 }
    }
}

/// How many of `outcomes` equal `kind`.
pub open spec fn count_of(outcomes: Seq<ApplyOutcome>, kind: ApplyOutcome) -> nat
    decreases outcomes.len(),
{
    if outcomes.len() == 0 {
        0
    } else {
        count_of(outcomes.drop_last(), kind) + if outcomes.last() == kind {
            1nat
        } else {
            0nat
        }
    }
}

/// Every attempt is counted exactly once: the four counts of a tally add up
/// to the number of processes tried.
pub proof fn law_every_attempt_counted_once(outcomes: Seq<ApplyOutcome>)
    ensures
        count_of(outcomes, ApplyOutcome::Changed) + count_of(outcomes, ApplyOutcome::Stale)
            + count_of(outcomes, ApplyOutcome::Denied) + count_of(outcomes, ApplyOutcome::Failed)
            == outcomes.len(),
    decreases outcomes.len(),
{
    if outcomes.len() > 0 {
        law_every_attempt_counted_once(outcomes.drop_last());
    }
}

/// Whether a process may still be changed: its start time, read again just
/// before the change, is the one it had when it was listed. `None` means it
/// could not be read (the process is gone).
pub fn is_still_running(identity: &ProcessIdentity, observed_start_time: Option<u64>) -> (r: bool)
    ensures
        r == (observed_start_time == Some(identity.start_time)),
{
    match observed_start_time {
        Some(t) => t == identity.start_time,
        None => false,
    }
}

/// The outcome of a `setpriority` call: its return code, and whether the
/// error it reported was a permission error.
pub fn change_outcome(code: i32, permission_denied: bool) -> (r: ApplyOutcome)
    ensures
        r == if code == 0 {
            ApplyOutcome::Changed
        } else if permission_denied {
            ApplyOutcome::Denied
        } else {
            ApplyOutcome::Failed
        },
{
    if code == 0 {
        ApplyOutcome::Changed
    } else if permission_denied {
        ApplyOutcome::Denied
    } else {
        ApplyOutcome::Failed
    }
}

/// Counts the outcomes of the attempts on an application's processes.
pub fn tally(outcomes: &Vec<ApplyOutcome>) -> (r: ApplyResult)
    ensures
        r.changed == count_of(outcomes@, ApplyOutcome::Changed),
        r.stale == count_of(outcomes@, ApplyOutcome::Stale),
        r.denied == count_of(outcomes@, ApplyOutcome::Denied),
        r.failed == count_of(outcomes@, ApplyOutcome::Failed),
{
    let mut r = ApplyResult::default();
    let mut i: usize = 0;
    while i < outcomes.len()
        invariant
            i <= outcomes.len(),
            r.changed == count_of(outcomes@.take(i as int), ApplyOutcome::Changed),
            r.stale == count_of(outcomes@.take(i as int), ApplyOutcome::Stale),
            r.denied == count_of(outcomes@.take(i as int), ApplyOutcome::Denied),
            r.failed == count_of(outcomes@.take(i as int), ApplyOutcome::Failed),
        decreases outcomes.len() - i,
    {
        proof {
            law_every_attempt_counted_once(outcomes@.take(i as int));
            assert(outcomes@.take(i + 1).drop_last() =~= outcomes@.take(i as int));
        }
        match outcomes[i] {
            ApplyOutcome::Changed => r.changed += 1,
            ApplyOutcome::Stale => r.stale += 1,
            ApplyOutcome::Denied => r.denied += 1,
            ApplyOutcome::Failed => r.failed += 1,
        }
        i += 1;
    }
    assert(outcomes@.take(i as int) =~= outcomes@);
    r
}

} // verus!
