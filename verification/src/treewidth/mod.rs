//! Treewidth upper bounds by greedy vertex elimination, and the FlowCutter
//! oracle that cross-checks them.

pub mod elimination;
pub mod adjacency;
pub mod min_heap;
pub mod native;
pub mod scan;
pub mod flowcutter;
pub mod subprocess;
pub mod forest;
pub mod complete;

pub use flowcutter::ensure_oracle_available;
pub use flowcutter::TwError;

use vstd::prelude::*;
use crate::graph::Graph;

verus! {

/// An upper bound on the treewidth of `g`, from the heap-driven min-degree
/// and min-fill heuristics (see `native::native_bound`).
pub fn compute(g: &Graph) -> (tw: u32)
    requires
        g.wf(),
        g.n <= u32::MAX,
    ensures
        native::native_bound(g, tw),
{
    native::compute(g)
}

/// The treewidth that the FlowCutter oracle gives for `g`; in this library
/// the oracle is unavailable and that error comes back.
pub fn compute_oracle(g: &Graph) -> (r: Result<u32, TwError>)
    ensures
        r matches Err(TwError::OracleUnavailable(msg)) && msg@ == flowcutter::unavailable_reason(),
{
    flowcutter::compute_oracle(g)
}

/// The treewidth heuristics on offer.
pub enum Solver {
    /// Min-degree and min-fill elimination with a linear scan per step.
    Native,
}

impl Solver {
    /// An upper bound on the treewidth of `g` from the chosen heuristics.
    pub fn compute(&self, g: &Graph) -> (tw: u32)
        requires
            g.wf(),
            g.n <= u32::MAX,
        ensures
            match self {
                Solver::Native => scan::scan_bound(g, tw),
            },
    {
        match self {
            Solver::Native => scan::compute(g),
        }
    }
}

} // verus!
