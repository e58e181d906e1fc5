//! Plain values behind the command-line surface. The argument parser
//! itself lives outside the library; these are the shapes it fills in.

use vstd::prelude::*;

verus! {

/// Which touched-file states a query asks for.
#[derive(Clone, Copy, PartialEq, Eq, Structural, Debug)]
pub enum TouchedStatus {
    Added,
    All,
    Deleted,
    Modified,
    Staged,
    Unstaged,
    Untracked,
}

impl Default for TouchedStatus {
    fn default() -> (r: Self)
        ensures
            r == TouchedStatus::All,
    {
        TouchedStatus::All
    }
}

/// The query operations: inspect projects of the project graph, or the
/// touched files between two revisions.
pub enum QueryCommands {
    Projects {
        id: Option<String>,
        language: Option<String>,
        source: Option<String>,
        tasks: Option<String>,
        type_of: Option<String>,
    },
    TouchedFiles {
        base: Option<String>,
        default_branch: bool,
        head: Option<String>,
        local: bool,
        status: TouchedStatus,
    },
}

} // verus!
