use vstd::prelude::*;

verus! {

/// Why a table or sampler could not be built.
///
/// The kinds are checked in declaration order, so at most one applies to an input.
#[derive(Debug, Clone, Copy, PartialEq, Eq, Structural)]
pub enum ProbError {
    /// The weight (or item) sequence has no elements.
    Empty,
    /// The weight at `index` is negative; `value` is that weight.
    Negative { index: usize, value: i64 },
    /// Every weight is zero, so the total is zero.
    ZeroSum,
}

} // verus!
