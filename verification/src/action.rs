//! Actions: one scheduled unit of work in a run, and the context shared by
//! every action of a run.

use vstd::prelude::*;

verus! {

/// Profiling directive for a run.
#[derive(Clone, Copy, PartialEq, Eq, Structural, Debug)]
pub enum ProfileType {
    Cpu,
    Heap,
}

/// Read-mostly value threaded through one whole run.
pub struct ActionContext {
    /// Arguments passed through to the underlying commands.
    pub passthrough_args: Vec<String>,
    /// The targets the caller asked for, as opposed to pulled-in
    /// dependencies.
    pub primary_targets: Vec<String>,
    /// Optional profiling mode.
    pub profile: Option<ProfileType>,
    /// The touched-file set affectedness checks read.
    pub touched_files: Vec<String>,
}

/// Outcome of one scheduled action. A status is terminal: once a run has
/// assigned it to an action, it never changes.
#[derive(Clone, Copy, PartialEq, Eq, Structural, Debug)]
pub enum ActionStatus {
    Cached,
    Failed,
    FailedAndAbort,
    Invalid,
    Passed,
    Skipped,
}

/// Whether dependents of an action with this status become eligible.
/// `Failed` keeps its dependents from running; `FailedAndAbort` ends the
/// whole run.
pub open spec fn status_proceeds(s: ActionStatus) -> bool {
    s != ActionStatus::Failed && s != ActionStatus::FailedAndAbort
}

/// True exactly for the statuses that mark a failed action.
pub fn status_is_failure(status: ActionStatus) -> (r: bool)
    ensures
        r == !status_proceeds(status),
{
    match status {
        ActionStatus::Failed | ActionStatus::FailedAndAbort => true,
        _ => false,
    }
}

/// One action's record in a run report: its label, its terminal status,
/// an optional error text and an optional duration in milliseconds.
pub struct Action {
    pub label: String,
    pub status: ActionStatus,
    pub error: Option<String>,
    pub duration_ms: Option<u64>,
}

/// The status an automatic project-sync action reports: mutating tracked
/// files is fine locally but only a warning in continuous integration,
/// where such changes should have been committed; touching nothing means
/// the action was not needed at all.
pub fn sync_outcome(mutated_files: bool, is_ci: bool) -> (r: ActionStatus)
    ensures
        mutated_files && is_ci ==> r == ActionStatus::Invalid,
        mutated_files && !is_ci ==> r == ActionStatus::Passed,
        !mutated_files ==> r == ActionStatus::Skipped,
{
    if mutated_files {
        if is_ci {
            ActionStatus::Invalid
        } else {
            ActionStatus::Passed
        }
    } else {
        ActionStatus::Skipped
    }
}

} // verus!
