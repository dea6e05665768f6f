//! Errors of building and saving a maze.

use vstd::prelude::*;

verus! {

/// A combination of options that no maze can be built from.
#[derive(Debug, Clone)]
pub struct BuildError {
    pub reason: String,
}

/// Writing a formatted maze out failed.
#[derive(Debug, Clone)]
pub struct MazeSaveError {
    pub reason: String,
}

pub open spec fn build_error_prefix() -> Seq<char> {
    "Cannot build maze. Reason: "@
}

pub open spec fn no_entropy_reason() -> Seq<char> {
    "the operating system gave no entropy to seed the generator"@
}

pub open spec fn save_error_prefix() -> Seq<char> {
    "Cannot save maze. Reason: "@
}

impl BuildError {
    /// The error for an algorithm named `name` that takes no start coordinates.
    pub fn no_start_coords(name: &str) -> (r: BuildError)
        ensures
            r.reason@ == "Algorithm `"@ + name@ + "` doesn't support `start_coords`"@,
    {
        let mut reason = String::from_str("Algorithm `");
        reason.append(name);
        reason.append("` doesn't support `start_coords`");
        BuildError { reason }
    }

    /// The error for an unseeded build when the system gave no entropy.
    pub fn no_entropy() -> (r: BuildError)
        ensures
            r.reason@ == no_entropy_reason(),
    {
        BuildError { reason: String::from_str("the operating system gave no entropy to seed the generator") }
    }

    /// Returns the message shown for this error.
    pub fn to_string(&self) -> (r: String)
        ensures
            r@ == build_error_prefix() + self.reason@,
    {
        let mut s = String::from_str("Cannot build maze. Reason: ");
        s.append(self.reason.as_str());
        s
    }
}

impl MazeSaveError {
    pub fn reason(reason: String) -> (r: MazeSaveError)
        ensures
            r.reason@ == reason@,
    {
        MazeSaveError { reason }
    }

    /// Returns the message shown for this error.
    pub fn to_string(&self) -> (r: String)
        ensures
            r@ == save_error_prefix() + self.reason@,
    {
        let mut s = String::from_str("Cannot save maze. Reason: ");
        s.append(self.reason.as_str());
        s
    }
}

} // verus!
