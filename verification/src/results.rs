//! Result of executing a workload: how many transactions applied cleanly and
//! how many failed.

use vstd::prelude::*;

verus! {

/// Counters for one executed workload.
#[derive(Debug, Clone, Copy, PartialEq, Eq, Structural)]
pub struct ExecutionResult {
    /// Number of successfully executed transactions.
    pub successful: usize,
    /// Number of failed transactions (validation error or invalid signature).
    pub failed: usize,
}

impl ExecutionResult {
    /// Creates a new execution result.
    pub fn new(successful: usize, failed: usize) -> (r: Self)
        ensures
            r == (ExecutionResult { successful, failed }),
    {
        Self { successful, failed }
    }

    /// Total number of transactions processed.
    pub fn total(&self) -> (r: usize)
        requires
            self.successful + self.failed <= usize::MAX,
        ensures
            r == self.successful + self.failed,
    {
        self.successful + self.failed
    }
}

impl Default for ExecutionResult {
    /// The empty result: nothing executed yet.
    fn default() -> (r: Self)
        ensures
            r == (ExecutionResult { successful: 0, failed: 0 }),
    {
        Self { successful: 0, failed: 0 }
    }
}

} // verus!
