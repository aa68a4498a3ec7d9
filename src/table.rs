use crate::error::ProbError;
use crate::uniform::clone_all;
use crate::walker::{built_result, AliasTable};
use rand::rngs::StdRng;
use vstd::prelude::*;

verus! {

/// The weights of a sequence of `(item, weight)` pairs, in order.
pub open spec fn weights_of<T>(pairs: Seq<(T, i64)>) -> Seq<i64> {
    pairs.map_values(|p: (T, i64)| p.1)
}

/// The items of a sequence of `(item, weight)` pairs, in order.
pub open spec fn items_of<T>(pairs: Seq<(T, i64)>) -> Seq<T> {
    pairs.map_values(|p: (T, i64)| p.0)
}

/// What building a drop table from `pairs` yields: the items in order, and
/// the outcome of building an alias table from the weights.
pub open spec fn built_result_pairs<T>(pairs: Seq<(T, i64)>, r: Result<DropTable<T>, ProbError>) -> bool {
    match r {
        Ok(t) => t@ == items_of(pairs) && built_result(weights_of(pairs), Ok(t.sampler())),
        Err(e) => built_result(weights_of(pairs), Err(e)),
    }
}

/// Items drawn with their weights' odds: item `i` and outcome `i` of the alias
/// table belong together.
#[derive(Debug)]
pub struct DropTable<T> {
    alias: AliasTable,
    items: Vec<T>,
}

impl<T> View for DropTable<T> {
    type V = Seq<T>;

    closed spec fn view(&self) -> Seq<T> {
        self.items@
    }
}

impl<T: Clone> Clone for DropTable<T> {
    fn clone(&self) -> (r: Self)
        ensures
            r@.len() == self@.len(),
            forall|k: int| 0 <= k < self@.len() ==> cloned(self@[k], #[trigger] r@[k]),
            r.sampler()@ == self.sampler()@,
            r.sampler().total() == self.sampler().total(),
    {
        proof {
            use_type_invariant(self);
        }
        DropTable { alias: self.alias.clone(), items: clone_all(self.items.as_slice()) }
    }
}

impl<T> DropTable<T> {
    /// The alias table that picks the index of the item drawn.
    pub closed spec fn sampler(&self) -> AliasTable {
        self.alias
    }

    #[verifier::type_invariant]
    spec fn inv(&self) -> bool {
        self.items@.len() == self.alias@.len()
    }

    /// Builds from `(item, weight)` pairs, keeping their order; fails as
    /// `AliasTable::new` does on the weights.
    pub fn from_pairs(pairs: Vec<(T, i64)>) -> (r: Result<Self, ProbError>)
        ensures
            built_result_pairs(pairs@, r),
    {
        let ghost orig = pairs@;
        let mut pairs = pairs;
        let mut rev_items: Vec<T> = Vec::new();
        let mut rev_weights: Vec<i64> = Vec::new();
        while pairs.len() > 0
            invariant
                pairs@.len() <= orig.len(),
                pairs@ == orig.take(pairs@.len() as int),
                rev_items@.len() == orig.len() - pairs@.len(),
                rev_weights@.len() == rev_items@.len(),
                forall|k: int|
                    0 <= k < rev_items@.len() ==> #[trigger] rev_items@[k] == orig[orig.len() - 1
                        - k].0 && rev_weights@[k] == orig[orig.len() - 1 - k].1,
            decreases pairs@.len(),
        {
            match pairs.pop() {
                Some(p) => {
                    let (t, w) = p;
                    rev_items.push(t);
                    rev_weights.push(w);
                },
                None => {},
            }
        }
        let mut items: Vec<T> = Vec::new();
        let mut weights: Vec<i64> = Vec::new();
        while rev_items.len() > 0
            invariant
                rev_weights@.len() == rev_items@.len(),
                items@.len() == orig.len() - rev_items@.len(),
                weights@.len() == items@.len(),
                forall|k: int|
                    0 <= k < rev_items@.len() ==> #[trigger] rev_items@[k] == orig[orig.len() - 1
                        - k].0 && rev_weights@[k] == orig[orig.len() - 1 - k].1,
                forall|k: int|
                    0 <= k < items@.len() ==> #[trigger] items@[k] == orig[k].0 && weights@[k]
                        == orig[k].1,
            decreases rev_items@.len(),
        {
            let ghost ri = rev_items@;
            let t = rev_items.pop().unwrap();
            let w = rev_weights.pop().unwrap();
            items.push(t);
            weights.push(w);
            assert forall|k: int| 0 <= k < rev_items@.len() implies #[trigger] rev_items@[k]
                == orig[orig.len() - 1 - k].0 && rev_weights@[k] == orig[orig.len() - 1 - k].1 by {
                assert(rev_items@[k] == ri[k]);
            }
        }
        assert(items@ =~= items_of(orig));
        assert forall|k: int| 0 <= k < weights@.len() implies weights@[k] == weights_of(orig)[k] by {
            assert(items@[k] == orig[k].0);
        }
        assert(weights@ =~= weights_of(orig));
        match AliasTable::new(weights.as_slice()) {
            Ok(alias) => Ok(DropTable { alias, items }),
            Err(e) => Err(e),
        }
    }

    /// Draws an item by reference, with its weight's odds; only items of
    /// positive weight come out.
    pub fn sample<'a>(&'a self, rng: &mut StdRng) -> (r: &'a T)
        ensures
            exists|b: int, u: int|
                0 <= b < self@.len() && 0 <= u < self.sampler().total() && *r == self@[
                    #[trigger] self.sampler().pick_spec(b, u)],
            exists|k: int|
                0 <= k < self@.len() && self.sampler().mass(k) > 0 && *r == #[trigger] self@[k],
    {
        proof {
            use_type_invariant(self);
        }
        let k = self.alias.sample_index(rng);
        let r = &self.items[k];
        proof {
            let (b, u) = choose|b: int, u: int|
                0 <= b < self.alias@.len() && 0 <= u < self.alias.total() && k
                    == #[trigger] self.alias.pick_spec(b, u);
            assert(*r == self@[self.sampler().pick_spec(b, u)]);
        }
        r
    }

    /// Draws an item and returns a clone of it.
    pub fn sample_owned(&self, rng: &mut StdRng) -> (r: T) where T: Clone
        ensures
            exists|b: int, u: int|
                0 <= b < self@.len() && 0 <= u < self.sampler().total() && cloned(
                    self@[#[trigger] self.sampler().pick_spec(b, u)],
                    r,
                ),
            exists|k: int|
                0 <= k < self@.len() && self.sampler().mass(k) > 0 && cloned(
                    #[trigger] self@[k],
                    r,
                ),
    {
        proof {
            use_type_invariant(self);
        }
        let k = self.alias.sample_index(rng);
        let r = self.items[k].clone();
        proof {
            let (b, u) = choose|b: int, u: int|
                0 <= b < self.alias@.len() && 0 <= u < self.alias.total() && k
                    == #[trigger] self.alias.pick_spec(b, u);
            assert(cloned(self@[self.sampler().pick_spec(b, u)], r));
        }
        r
    }

    /// Number of items.
    pub fn len(&self) -> (r: usize)
        ensures
            r == self@.len(),
            r > 0,
    {
        proof {
            use_type_invariant(self);
        }
        self.alias.len()
    }

    /// Whether there are no items: never, for a built table.
    pub fn is_empty(&self) -> (r: bool)
        ensures
            r == (self@.len() == 0),
            !r,
    {
        proof {
            use_type_invariant(self);
        }
        self.alias.is_empty()
    }
}

} // verus!
