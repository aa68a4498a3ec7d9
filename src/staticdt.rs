use crate::IndexSampler;
use rand::rngs::StdRng;
use vstd::prelude::*;

verus! {

/// Items that live for the whole program, drawn through an index sampler: the
/// table stores only the sampler and a borrow of the items, and never allocates.
#[derive(Debug)]
pub struct StaticDropTable<S: IndexSampler, T: 'static> {
    sampler: S,
    items: &'static [T],
}

impl<S: IndexSampler, T> View for StaticDropTable<S, T> {
    type V = Seq<T>;

    closed spec fn view(&self) -> Seq<T> {
        self.items@
    }
}

impl<S: IndexSampler, T> StaticDropTable<S, T> {
    /// The sampler that picks the index of the item drawn.
    pub closed spec fn sampler_spec(&self) -> S {
        self.sampler
    }

    #[verifier::type_invariant]
    spec fn inv(&self) -> bool {
        self.items@.len() == self.sampler.spec_len()
    }

    /// Pairs `sampler` with `items`, which must hold one item per outcome.
    pub fn new(sampler: S, items: &'static [T]) -> (r: Self)
        requires
            items@.len() == sampler.spec_len(),
        ensures
            r@ == items@,
            r.sampler_spec() == sampler,
    {
        StaticDropTable { sampler, items }
    }

    /// Number of items.
    pub fn len(&self) -> (r: usize)
        ensures
            r == self@.len(),
            r > 0,
    {
        proof {
            use_type_invariant(self);
        }
        self.sampler.len()
    }

    /// Draws an item by reference.
    pub fn sample(&self, rng: &mut StdRng) -> (r: &'static T)
        ensures
            exists|k: int| 0 <= k < self@.len() && *r == #[trigger] self@[k],
    {
        proof {
            use_type_invariant(self);
        }
        let i = self.sampler.sample_index(rng);
        let r = &self.items[i];
        assert(*r == self@[i as int]);
        r
    }

    /// Draws an item by value.
    pub fn sample_owned(&self, rng: &mut StdRng) -> (r: T) where T: Copy
        ensures
            exists|k: int| 0 <= k < self@.len() && r == #[trigger] self@[k],
    {
        proof {
            use_type_invariant(self);
        }
        let i = self.sampler.sample_index(rng);
        let r = self.items[i];
        assert(r == self@[i as int]);
        r
    }

    /// The items, in order.
    pub fn items(&self) -> (r: &'static [T])
        ensures
            r@ == self@,
    {
        self.items
    }
}

} // verus!
