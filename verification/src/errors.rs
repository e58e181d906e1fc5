//! Error values surfaced while building graphs.

use vstd::prelude::*;

verus! {

/// Failures while looking projects up or loading them into the graph.
#[derive(Debug, Clone, PartialEq, Eq)]
pub enum ProjectError {
    /// The requested project ID has no entry in the discovery map.
    UnconfiguredID(String),
    /// The named project exists but does not define the named task.
    UnconfiguredTask(String, String),
}

/// Failures while forming or reading a target identifier.
#[derive(Debug, Clone, PartialEq, Eq)]
pub enum TargetError {
    /// The text is not of the `project:task` form.
    InvalidFormat(String),
}

/// Failures while inserting targets into the action graph.
#[derive(Debug, Clone, PartialEq, Eq)]
pub enum DepGraphError {
    Project(ProjectError),
    Target(TargetError),
}

} // verus!
