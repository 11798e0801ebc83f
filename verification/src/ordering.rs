//! Transaction ordering requirements.

use vstd::prelude::*;

verus! {

/// Whether transactions must be executed in the exact order they appear in
/// the batch, or may be reordered for performance.
#[derive(Debug, Clone, Copy, PartialEq, Eq, Structural)]
pub enum OrderingMode {
    /// Strict ordering: transactions execute in the exact order given.
    Strict,
    /// Loose ordering: transactions may be reordered for performance, with
    /// per-sender order preserved.
    Loose,
}

impl OrderingMode {
    /// Returns true if strict ordering is required.
    pub fn is_strict(&self) -> (r: bool)
        ensures
            r == (*self == OrderingMode::Strict),
    {
        match self {
            OrderingMode::Strict => true,
            OrderingMode::Loose => false,
        }
    }

    /// Returns true if loose ordering is allowed.
    pub fn is_loose(&self) -> (r: bool)
        ensures
            r == (*self == OrderingMode::Loose),
    {
        match self {
            OrderingMode::Strict => false,
            OrderingMode::Loose => true,
        }
    }
}

impl Default for OrderingMode {
    /// The default mode is strict ordering.
    fn default() -> (r: Self)
        ensures
            r == OrderingMode::Strict,
    {
        OrderingMode::Strict
    }
}

} // verus!
