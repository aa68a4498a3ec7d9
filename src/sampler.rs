use crate::error::ProbError;
use crate::rng::draw_below;
use crate::walker::AliasTable;
use crate::IndexSampler;
use rand::rngs::StdRng;
use vstd::prelude::*;

verus! {

/// Picks an index in `0..n` with equal probability.
#[derive(Debug, Clone, Copy)]
pub struct UniformSampler {
    n: usize,
}

impl UniformSampler {
    #[verifier::type_invariant]
    spec fn inv(&self) -> bool {
        self.n > 0
    }

    /// A sampler over `n` outcomes; `Empty` when `n` is zero.
    pub fn new(n: usize) -> (r: Result<Self, ProbError>)
        ensures
            match r {
                Ok(s) => n > 0 && s.spec_len() == n,
                Err(e) => n == 0 && e == ProbError::Empty,
            },
    {
        if n == 0 {
            return Err(ProbError::Empty);
        }
        Ok(UniformSampler { n })
    }
}

impl IndexSampler for UniformSampler {
    closed spec fn spec_len(&self) -> nat {
        self.n as nat
    }

    fn len(&self) -> (r: usize) {
        proof {
            use_type_invariant(self);
        }
        self.n
    }

    fn sample_index(&self, rng: &mut StdRng) -> (r: usize) {
        proof {
            use_type_invariant(self);
        }
        draw_below(rng, self.n as u128) as usize
    }
}

impl IndexSampler for AliasTable {
    open spec fn spec_len(&self) -> nat {
        self@.len()
    }

    fn len(&self) -> (r: usize) {
        AliasTable::len(self)
    }

    fn sample_index(&self, rng: &mut StdRng) -> (r: usize) {
        AliasTable::sample_index(self, rng)
    }
}

} // verus!
