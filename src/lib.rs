//! Weighted random selection from a fixed discrete distribution in O(1) per draw,
//! using Walker's alias method over integer weights.
//!
//! Build a table once from weights (or a count, for equal odds), then draw from it
//! as often as needed with a caller-supplied random source. Tables never change
//! after construction.

use rand::rngs::StdRng;
use vstd::prelude::*;

pub mod error;
pub mod odds;
pub mod odds_text;
mod rng;
pub mod sampler;
pub mod staticdt;
pub mod table;
pub mod uniform;
pub mod walker;

pub use error::ProbError;
pub use odds::{OddsError, Share};
pub use sampler::UniformSampler;
pub use staticdt::StaticDropTable;
pub use table::DropTable;
pub use uniform::{UniformEnum, UniformTable};
pub use walker::{AliasTable, Bucket, WeightedSampler};

use crate::table::built_result_pairs;

verus! {

/// A source of outcome indices: a number of outcomes and a draw among them.
pub trait IndexSampler {
    /// Number of outcomes.
    spec fn spec_len(&self) -> nat;

    /// Number of outcomes; at least one.
    fn len(&self) -> (r: usize)
        ensures
            r == self.spec_len(),
            r > 0,
    ;

    /// Draws one outcome index.
    fn sample_index(&self, rng: &mut StdRng) -> (r: usize)
        ensures
            r < self.spec_len(),
    ;
}

/// A type whose values come with weights: `ENTRIES` lists every value with its
/// weight, in a fixed order.
pub trait WeightedEnum: Sized + 'static {
    /// All `(value, weight)` pairs.
    const ENTRIES: &'static [(Self, i64)];

    /// A drop table over `ENTRIES`, in their order; fails as
    /// `DropTable::from_pairs` does.
    fn droptable() -> (r: Result<DropTable<Self>, ProbError>) where Self: Copy
        ensures
            built_result_pairs(Self::ENTRIES@, r),
    {
        let entries = Self::ENTRIES;
        let mut pairs: Vec<(Self, i64)> = Vec::with_capacity(entries.len());
        let mut i: usize = 0;
        while i < entries.len()
            invariant
                0 <= i <= entries@.len(),
                pairs@ == entries@.take(i as int),
            decreases entries@.len() - i,
        {
            pairs.push(entries[i]);
            i = i + 1;
            assert(pairs@ == entries@.take(i as int));
        }
        assert(pairs@ == entries@);
        DropTable::from_pairs(pairs)
    }
}

} // verus!
