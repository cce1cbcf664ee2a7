//! What stands in for the disk index benchmarks where they are not built in: stubs that match
//! no input and say which feature is missing.

use vstd::prelude::*;

verus! {

/// How well a benchmark fits an input; lower is better.
#[derive(Clone, Copy, Debug, PartialEq, Eq, Structural)]
pub struct MatchScore(pub u32);

/// How far a benchmark is from fitting an input; lower is closer.
#[derive(Clone, Copy, Debug, PartialEq, Eq, Structural)]
pub struct FailureScore(pub u32);

/// The stub for filtered searches in a disk index.
#[derive(Clone, Copy, Debug, PartialEq, Eq, Structural)]
pub struct Stub;

impl Stub {
    /// Returns how well the stub fits an input: none does, and none is closer than another.
    pub fn try_match(&self) -> (score: Result<MatchScore, FailureScore>)
        ensures
            score == Err::<MatchScore, FailureScore>(FailureScore(0)),
    {
        Err(FailureScore(0))
    }

    /// Returns the line that says what is missing.
    pub fn description(&self) -> (line: &'static str)
        ensures
            line@ == "Requires the \"disk-index\" feature\n"@,
    {
        "Requires the \"disk-index\" feature\n"
    }
}

/// Returns the names under which stubs are registered, in that order: the one for searches, and
/// the one for filtered searches.
pub fn stub_names() -> (names: (&'static str, &'static str))
    ensures
        names.0@ == "disk-index"@,
        names.1@ == "disk-index-filter"@,
{
    ("disk-index", "disk-index-filter")
}

} // verus!
