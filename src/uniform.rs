use crate::error::ProbError;
use crate::rng::draw_below;
use crate::sampler::UniformSampler;
use crate::staticdt::StaticDropTable;
use rand::rngs::StdRng;
use vstd::prelude::*;

verus! {

/// Clones every item of `items`, in order.
pub(crate) fn clone_all<T: Clone>(items: &[T]) -> (r: Vec<T>)
    ensures
        r@.len() == items@.len(),
        forall|k: int| 0 <= k < items@.len() ==> cloned(items@[k], #[trigger] r@[k]),
{
    let mut v: Vec<T> = Vec::with_capacity(items.len());
    let mut i: usize = 0;
    while i < items.len()
        invariant
            0 <= i <= items@.len(),
            v@.len() == i,
            forall|k: int| 0 <= k < i ==> cloned(items@[k], #[trigger] v@[k]),
        decreases items@.len() - i,
    {
        let x = items[i].clone();
        v.push(x);
        i = i + 1;
    }
    v
}

/// Items drawn with equal odds: only the items are stored, and a draw is one
/// uniform index over them.
#[derive(Debug)]
pub struct UniformTable<T> {
    items: Vec<T>,
}

impl<T> View for UniformTable<T> {
    type V = Seq<T>;

    closed spec fn view(&self) -> Seq<T> {
        self.items@
    }
}

impl<T: Clone> Clone for UniformTable<T> {
    fn clone(&self) -> (r: Self)
        ensures
            r@.len() == self@.len(),
            forall|k: int| 0 <= k < self@.len() ==> cloned(self@[k], #[trigger] r@[k]),
    {
        proof {
            use_type_invariant(self);
        }
        UniformTable { items: clone_all(self.items.as_slice()) }
    }
}

impl<T> UniformTable<T> {
    #[verifier::type_invariant]
    spec fn inv(&self) -> bool {
        self.items@.len() > 0
    }

    /// Builds from `items`, in order; `Empty` when there are none.
    pub fn from_items(items: Vec<T>) -> (r: Result<Self, ProbError>)
        ensures
            match r {
                Ok(t) => items@.len() > 0 && t@ == items@,
                Err(e) => items@.len() == 0 && e == ProbError::Empty,
            },
    {
        if items.len() == 0 {
            return Err(ProbError::Empty);
        }
        Ok(UniformTable { items })
    }

    /// Builds from an array, cloning its items; `Empty` when `N` is zero.
    pub fn from_array<const N: usize>(items: [T; N]) -> (r: Result<Self, ProbError>) where T: Clone
        ensures
            match r {
                Ok(t) => N > 0 && t@.len() == N && forall|k: int|
                    0 <= k < N ==> cloned(items@[k], #[trigger] t@[k]),
                Err(e) => N == 0 && e == ProbError::Empty,
            },
    {
        if N == 0 {
            return Err(ProbError::Empty);
        }
        let v = clone_all(items.as_slice());
        Ok(UniformTable { items: v })
    }

    /// Number of items.
    pub fn len(&self) -> (r: usize)
        ensures
            r == self@.len(),
            r > 0,
    {
        proof {
            use_type_invariant(self);
        }
        self.items.len()
    }

    /// Whether there are no items: never, for a built table.
    pub fn is_empty(&self) -> (r: bool)
        ensures
            r == (self@.len() == 0),
            !r,
    {
        proof {
            use_type_invariant(self);
        }
        self.items.len() == 0
    }

    /// Draws an item by reference, every item with the same odds.
    pub fn sample<'a>(&'a self, rng: &mut StdRng) -> (r: &'a T)
        ensures
            exists|k: int| 0 <= k < self@.len() && *r == #[trigger] self@[k],
    {
        proof {
            use_type_invariant(self);
        }
        let i = draw_below(rng, self.items.len() as u128) as usize;
        let r = &self.items[i];
        assert(*r == self@[i as int]);
        r
    }

    /// Draws an item and returns a clone of it.
    pub fn sample_owned(&self, rng: &mut StdRng) -> (r: T) where T: Clone
        ensures
            exists|k: int| 0 <= k < self@.len() && cloned(#[trigger] self@[k], r),
    {
        proof {
            use_type_invariant(self);
        }
        let i = draw_below(rng, self.items.len() as u128) as usize;
        let r = self.items[i].clone();
        assert(cloned(self@[i as int], r));
        r
    }

    /// The items, in order.
    pub fn as_slice(&self) -> (r: &[T])
        ensures
            r@ == self@,
    {
        self.items.as_slice()
    }
}

/// A type whose values are drawn with equal odds: `VARS` lists every value, in a
/// fixed order.
pub trait UniformEnum: Sized + 'static {
    /// All values.
    const VARS: &'static [Self];

    /// A table over `VARS` that borrows them and allocates nothing; `Empty` when
    /// there are none.
    fn droptable() -> (r: Result<StaticDropTable<UniformSampler, Self>, ProbError>) where
        Self: Copy + 'static,

        ensures
            match r {
                Ok(t) => Self::VARS@.len() > 0 && t@ == Self::VARS@,
                Err(e) => Self::VARS@.len() == 0 && e == ProbError::Empty,
            },
    {
        match UniformSampler::new(Self::VARS.len()) {
            Ok(sampler) => Ok(StaticDropTable::new(sampler, Self::VARS)),
            Err(e) => Err(e),
        }
    }

    /// A table that owns clones of `VARS`; `Empty` when there are none.
    fn droptable_stateful() -> (r: Result<UniformTable<Self>, ProbError>) where Self: Clone
        ensures
            match r {
                Ok(t) => Self::VARS@.len() > 0 && t@.len() == Self::VARS@.len() && forall|k: int|
                    0 <= k < t@.len() ==> cloned(Self::VARS@[k], #[trigger] t@[k]),
                Err(e) => Self::VARS@.len() == 0 && e == ProbError::Empty,
            },
    {
        let v = clone_all(Self::VARS);
        UniformTable::from_items(v)
    }
}

} // verus!
