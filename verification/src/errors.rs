//! Error kinds surfaced by the engine.

use vstd::prelude::*;

verus! {

/// Why an operation was refused. Every failing operation leaves the branch
/// state exactly as it was.
#[derive(Clone, Copy, PartialEq, Eq, Structural, Debug)]
pub enum EngineError {
    /// A requested hunk is not currently claimed by the branch.
    Ownership,
    /// A reset target is not an ancestor of the branch's head.
    InvalidTarget,
    /// The object store failed while writing a tree or commit.
    Object,
    /// The named branch does not exist.
    BranchNotFound,
}

impl EngineError {
    /// A short description of the error.
    pub fn describe(&self) -> (r: &'static str)
        ensures
            r@ == self.spec_describe(),
    {
        match self {
            EngineError::Ownership => "hunk not owned by branch",
            EngineError::InvalidTarget => "target is not an ancestor",
            EngineError::Object => "object store failure",
            EngineError::BranchNotFound => "branch not found",
        }
    }

    pub open spec fn spec_describe(self) -> Seq<char> {
        match self {
            EngineError::Ownership => "hunk not owned by branch"@,
            EngineError::InvalidTarget => "target is not an ancestor"@,
            EngineError::Object => "object store failure"@,
            EngineError::BranchNotFound => "branch not found"@,
        }
    }
}

} // verus!
