//! What a solve is configured with.

use vstd::prelude::*;

verus! {

/// The search strategy.
#[derive(Debug, Clone, Copy, PartialEq, Eq, Hash, Structural)]
pub enum SolverType {
    Classic,
    Hybrid,
}

/// What is said of a name that is no strategy's.
pub const UNKNOWN_SOLVER: &'static str =
    "The only supported frontier types are 'classic' and 'hybrid'";

impl SolverType {
    /// The strategy that `s` names: `classic` or `hybrid`, in lower case.
    pub fn from_str(s: &str) -> (res: Result<SolverType, &'static str>)
        ensures
            s@ == "classic"@ ==> res == Ok::<SolverType, &'static str>(SolverType::Classic),
            s@ == "hybrid"@ ==> res == Ok::<SolverType, &'static str>(SolverType::Hybrid),
            s@ != "classic"@ && s@ != "hybrid"@ ==> res == Err::<SolverType, &'static str>(
                UNKNOWN_SOLVER,
            ),
    {
        proof {
            reveal_strlit("classic");
            reveal_strlit("hybrid");
            assert("classic"@.len() != "hybrid"@.len());
        }
        let name = s.to_owned();
        if name == "classic".to_owned() {
            Ok(SolverType::Classic)
        } else if name == "hybrid".to_owned() {
            Ok(SolverType::Hybrid)
        } else {
            Err(UNKNOWN_SOLVER)
        }
    }

    /// The name of the strategy, as `from_str` reads it.
    pub fn name(&self) -> (s: String)
        ensures
            s@ == match *self {
                SolverType::Classic => "classic"@,
                SolverType::Hybrid => "hybrid"@,
            },
    {
        match self {
            SolverType::Classic => "classic".to_owned(),
            SolverType::Hybrid => "hybrid".to_owned(),
        }
    }
}

/// The configuration of a solve.
#[derive(Debug, Clone)]
pub struct Solve {
    /// The path to the instance file.
    pub instance: String,
    /// The most nodes that a layer of a diagram may hold.
    pub width: usize,
    /// The time allowed, in seconds.
    pub timeout: u64,
    /// The number of worker threads.
    pub threads: usize,
    /// The number of meta-items that the items are clustered into.
    pub n_meta_items: usize,
    /// Whether states are bounded through the compressed problem.
    pub compression_bound: bool,
    /// Whether decisions are ordered through the compressed problem.
    pub compression_heuristic: bool,
    /// The search strategy.
    pub solver: SolverType,
}

} // verus!
