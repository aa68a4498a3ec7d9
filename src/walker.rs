//! Walker's alias method over non-negative integer weights.
//!
//! With `n` outcomes and weight total `W`, the table holds one bucket per outcome.
//! A draw picks a bucket `b` uniformly in `[0, n)` and a coin `u` uniformly in
//! `[0, W)`; it returns `b` when `u < prob[b]` and `alias[b]` otherwise. All
//! `n * W` pairs `(b, u)` are equally likely, and construction arranges that
//! exactly `n * w[j]` of them yield outcome `j`: the chance of `j` is `w[j] / W`,
//! exactly, with no rounding anywhere.

use crate::error::ProbError;
use crate::rng::draw_below;
use rand::rngs::StdRng;
use vstd::prelude::*;

verus! {

/// Largest weight a caller can pass.
pub open spec fn max_weight() -> int {
    0x7fff_ffff_ffff_ffff
}

/// Strict upper bound on every weight total and every scaled weight: `2^127`.
pub open spec fn scaled_bound() -> int {
    0x8000_0000_0000_0000_0000_0000_0000_0000
}

/// Sum of a weight sequence.
pub open spec fn weight_sum(w: Seq<i64>) -> int
    decreases w.len(),
{
    if w.len() == 0 {
        0
    } else {
        weight_sum(w.drop_last()) + w.last()
    }
}

/// Every weight is non-negative.
pub open spec fn all_nonneg(w: Seq<i64>) -> bool {
    forall|k: int| 0 <= k < w.len() ==> w[k] >= 0
}

/// One bucket of the table: it keeps its own index for coins below `prob`
/// (out of the weight total) and hands the draw to `alias` otherwise.
#[derive(Debug, Clone, Copy, PartialEq, Eq, Structural)]
pub struct Bucket {
    pub prob: u128,
    pub alias: usize,
}

/// Number of coins `u` in `[0, total)` for which bucket `b` yields outcome `j`.
pub open spec fn bucket_mass(bk: Bucket, total: int, b: int, j: int) -> int {
    (if b == j {
        bk.prob as int
    } else {
        0
    }) + (if bk.alias as int == j {
        total - bk.prob
    } else {
        0
    })
}

/// Number of pairs `(b, u)` with `b < k` and `u < total` that yield outcome `j`.
pub open spec fn mass_upto(bs: Seq<Bucket>, total: int, j: int, k: int) -> int
    decreases k,
{
    if k <= 0 {
        0
    } else {
        mass_upto(bs, total, j, k - 1) + bucket_mass(bs[k - 1], total, k - 1, j)
    }
}

/// Sum of `scaled` over the indices listed in `list`.
spec fn list_sum(scaled: Seq<u128>, list: Seq<usize>) -> int
    decreases list.len(),
{
    if list.len() == 0 {
        0
    } else {
        list_sum(scaled, list.drop_last()) + scaled[list.last() as int]
    }
}

/// Changing one bucket changes the count for `j` by the difference of that
/// bucket's own counts.
proof fn lemma_mass_update(bs: Seq<Bucket>, total: int, j: int, k: int, s: int, nb: Bucket)
    requires
        0 <= s < k <= bs.len(),
    ensures
        mass_upto(bs.update(s, nb), total, j, k) == mass_upto(bs, total, j, k) - bucket_mass(
            bs[s],
            total,
            s,
            j,
        ) + bucket_mass(nb, total, s, j),
    decreases k,
{
    if k - 1 > s {
        lemma_mass_update(bs, total, j, k - 1, s, nb);
    } else {
        lemma_mass_frame(bs, bs.update(s, nb), total, j, k - 1);
    }
}

/// Two bucket sequences that agree below `k` have the same counts below `k`.
proof fn lemma_mass_frame(a: Seq<Bucket>, b: Seq<Bucket>, total: int, j: int, k: int)
    requires
        0 <= k <= a.len(),
        k <= b.len(),
        forall|i: int| 0 <= i < k ==> a[i] == b[i],
    ensures
        mass_upto(a, total, j, k) == mass_upto(b, total, j, k),
    decreases k,
{
    if k > 0 {
        lemma_mass_frame(a, b, total, j, k - 1);
    }
}

/// A count over buckets whose `prob` never exceeds the total is at least the
/// count of any single bucket among them.
proof fn lemma_mass_ge_bucket(bs: Seq<Bucket>, total: int, j: int, k: int, b: int)
    requires
        0 <= b < k <= bs.len(),
        forall|i: int| 0 <= i < k ==> #[trigger] bs[i].prob <= total,
    ensures
        mass_upto(bs, total, j, k) >= bucket_mass(bs[b], total, b, j),
    decreases k,
{
    if k - 1 > b {
        lemma_mass_ge_bucket(bs, total, j, k - 1, b);
    } else {
        lemma_mass_nonneg(bs, total, j, k - 1);
    }
}

proof fn lemma_mass_nonneg(bs: Seq<Bucket>, total: int, j: int, k: int)
    requires
        0 <= k <= bs.len(),
        forall|i: int| 0 <= i < k ==> #[trigger] bs[i].prob <= total,
    ensures
        mass_upto(bs, total, j, k) >= 0,
    decreases k,
{
    if k > 0 {
        lemma_mass_nonneg(bs, total, j, k - 1);
    }
}

/// Buckets not yet filled in (`prob` 0, alias `n`) yield no outcome below `n`.
proof fn lemma_mass_idle(bs: Seq<Bucket>, total: int, j: int, k: int, n: usize)
    requires
        0 <= k <= bs.len(),
        0 <= j < n,
        forall|i: int| 0 <= i < k ==> #[trigger] bs[i] == (Bucket { prob: 0, alias: n }),
    ensures
        mass_upto(bs, total, j, k) == 0,
    decreases k,
{
    if k > 0 {
        lemma_mass_idle(bs, total, j, k - 1, n);
    }
}

/// Lists that read the same values have the same sum.
proof fn lemma_list_sum_frame(a: Seq<u128>, b: Seq<u128>, list: Seq<usize>)
    requires
        forall|k: int| 0 <= k < list.len() ==> a[list[k] as int] == b[list[k] as int],
    ensures
        list_sum(a, list) == list_sum(b, list),
    decreases list.len(),
{
    if list.len() > 0 {
        let d = list.drop_last();
        lemma_list_sum_frame(a, b, d);
    }
}

/// A sum of values each below `t` is at most `len * (t - 1)`.
proof fn lemma_list_sum_below(scaled: Seq<u128>, list: Seq<usize>, t: int)
    requires
        forall|k: int| 0 <= k < list.len() ==> scaled[#[trigger] list[k] as int] < t,
    ensures
        list_sum(scaled, list) <= list.len() * (t - 1),
    decreases list.len(),
{
    if list.len() > 0 {
        let d = list.drop_last();
        assert forall|k: int| 0 <= k < d.len() implies scaled[#[trigger] d[k] as int] < t by {
        }
        lemma_list_sum_below(scaled, d, t);
        assert(d.len() * (t - 1) + (t - 1) == list.len() * (t - 1)) by (nonlinear_arith)
            requires
                d.len() + 1 == list.len(),
        ;
    }
}

/// A sum of values each at least `t` is at least `len * t`, and equals it only
/// when every value equals `t`.
proof fn lemma_list_sum_above(scaled: Seq<u128>, list: Seq<usize>, t: int)
    requires
        forall|k: int| 0 <= k < list.len() ==> scaled[#[trigger] list[k] as int] >= t,
    ensures
        list_sum(scaled, list) >= list.len() * t,
        list_sum(scaled, list) == list.len() * t ==> forall|k: int|
            0 <= k < list.len() ==> scaled[#[trigger] list[k] as int] == t,
    decreases list.len(),
{
    if list.len() > 0 {
        let d = list.drop_last();
        assert forall|k: int| 0 <= k < d.len() implies scaled[#[trigger] d[k] as int] >= t by {
        }
        lemma_list_sum_above(scaled, d, t);
        let last = list[list.len() - 1];
        assert(d.len() * t + t == list.len() * t) by (nonlinear_arith)
            requires
                d.len() + 1 == list.len(),
        ;
        if list_sum(scaled, list) == list.len() * t {
            assert forall|k: int| 0 <= k < list.len() implies scaled[#[trigger] list[k] as int]
                == t by {
                if k < d.len() {
                    assert(d[k] == list[k]);
                }
            }
        }
    }
}

/// Sum of a sequence of counts.
pub open spec fn count_sum(c: Seq<usize>) -> int
    decreases c.len(),
{
    if c.len() == 0 {
        0
    } else {
        count_sum(c.drop_last()) + c.last()
    }
}

proof fn lemma_count_sum_update(c: Seq<usize>, k: int, v: usize)
    requires
        0 <= k < c.len(),
    ensures
        count_sum(c.update(k, v)) == count_sum(c) - c[k] + v,
    decreases c.len(),
{
    let u = c.update(k, v);
    if k < c.len() - 1 {
        assert(u.drop_last() == c.drop_last().update(k, v));
        lemma_count_sum_update(c.drop_last(), k, v);
    } else {
        assert(u.drop_last() == c.drop_last());
    }
}

/// Whatever a draw yields has at least one pair `(bucket, coin)` behind it.
proof fn lemma_pick_has_mass(t: &AliasTable, b: int, u: int)
    requires
        t.wf(),
        0 <= b < t@.len(),
        0 <= u < t.total(),
    ensures
        t.mass(t.pick_spec(b, u)) > 0,
{
    let j = t.pick_spec(b, u);
    lemma_mass_ge_bucket(t@, t.total() as int, j, t@.len() as int, b);
}

/// An alias table: one bucket per outcome, all keep-probabilities over one
/// common denominator, the weight total.
#[derive(Debug)]
pub struct AliasTable {
    buckets: Vec<Bucket>,
    total: u128,
}

/// What building from `w` yields: `Empty` on no weights, else `Negative` at the
/// first negative weight, else `ZeroSum` when all are zero, else a table that
/// samples `w`.
pub open spec fn built_result(w: Seq<i64>, r: Result<AliasTable, ProbError>) -> bool {
    match r {
        Err(ProbError::Empty) => w.len() == 0,
        Err(ProbError::Negative { index, value }) => {
            &&& 0 <= index < w.len()
            &&& value == w[index as int]
            &&& value < 0
            &&& forall|k: int| 0 <= k < index ==> w[k] >= 0
        },
        Err(ProbError::ZeroSum) => {
            &&& w.len() > 0
            &&& all_nonneg(w)
            &&& weight_sum(w) == 0
        },
        Ok(t) => {
            &&& w.len() > 0
            &&& all_nonneg(w)
            &&& weight_sum(w) > 0
            &&& t.built_from(w)
        },
    }
}

impl Clone for AliasTable {
    fn clone(&self) -> (r: AliasTable)
        ensures
            r@ == self@,
            r.total() == self.total(),
    {
        proof {
            use_type_invariant(self);
        }
        let mut buckets: Vec<Bucket> = Vec::with_capacity(self.buckets.len());
        let mut i: usize = 0;
        while i < self.buckets.len()
            invariant
                0 <= i <= self@.len(),
                buckets@ == self@.take(i as int),
            decreases self@.len() - i,
        {
            buckets.push(self.buckets[i]);
            i = i + 1;
        }
        assert forall|b: int| 0 <= b < buckets@.len() implies #[trigger] buckets@[b].prob <= self.total
            && buckets@[b].alias < buckets@.len() by {
        }
        AliasTable { buckets, total: self.total }
    }
}

/// The weighted sampler of this library.
pub type WeightedSampler = AliasTable;

impl View for AliasTable {
    type V = Seq<Bucket>;

    closed spec fn view(&self) -> Seq<Bucket> {
        self.buckets@
    }
}

impl AliasTable {
    /// The weight total: the denominator of every bucket's `prob`.
    pub closed spec fn total(&self) -> nat {
        self.total as nat
    }

    /// At least one bucket, a positive total, each `prob` at most the total and
    /// each alias a valid outcome.
    pub open spec fn wf(&self) -> bool {
        &&& self@.len() > 0
        &&& self.total() > 0
        &&& forall|b: int|
            0 <= b < self@.len() ==> (#[trigger] self@[b]).prob <= self.total() && self@[b].alias
                < self@.len()
    }

    /// Builds the table for `weights` in O(n).
    ///
    /// Fails with `Empty` on no weights, else with `Negative` at the first
    /// negative weight, else with `ZeroSum` when every weight is zero.
    pub fn new(weights: &[i64]) -> (r: Result<AliasTable, ProbError>)
        ensures
            built_result(weights@, r),
    {
        let n = weights.len();
        if n == 0 {
            return Err(ProbError::Empty);
        }
        // Validate and total the weights.
        let mut sum: u128 = 0;
        let mut i: usize = 0;
        while i < n
            invariant
                n == weights@.len(),
                0 <= i <= n,
                forall|k: int| 0 <= k < i ==> weights@[k] >= 0,
                sum == weight_sum(weights@.take(i as int)),
                sum <= i * max_weight(),
            decreases n - i,
        {
            let w = weights[i];
            if w < 0 {
                return Err(ProbError::Negative { index: i, value: w });
            }
            assert(weights@.take(i + 1).drop_last() == weights@.take(i as int));
            sum = sum + w as u128;
            i = i + 1;
        }
        assert(weights@.take(n as int) == weights@);
        if sum == 0 {
            return Err(ProbError::ZeroSum);
        }
        let total = sum;
        let ghost w = weights@;
        let ghost nn = n as int;
        // Scale by n so that the average weight is the total, and sort the
        // outcomes into light (below the total) and heavy ones.
        let mut scaled: Vec<u128> = Vec::with_capacity(n);
        let mut buckets: Vec<Bucket> = Vec::with_capacity(n);
        let mut small: Vec<usize> = Vec::new();
        let mut large: Vec<usize> = Vec::new();
        let mut i: usize = 0;
        while i < n
            invariant
                n == w.len(),
                w == weights@,
                nn == n,
                all_nonneg(w),
                0 < total < scaled_bound(),
                0 <= i <= n,
                scaled@.len() == i,
                buckets@.len() == i,
                forall|k: int| 0 <= k < i ==> #[trigger] scaled@[k] == nn * w[k],
                forall|k: int| 0 <= k < i ==> #[trigger] scaled@[k] < scaled_bound(),
                forall|k: int|
                    0 <= k < i ==> #[trigger] buckets@[k] == (Bucket { prob: 0, alias: n }) && (
                    small@.contains(k as usize) || large@.contains(k as usize)),
                forall|k: int| 0 <= k < small@.len() ==> #[trigger] small@[k] < i,
                forall|k: int| 0 <= k < large@.len() ==> #[trigger] large@[k] < i,
                small@.no_duplicates(),
                large@.no_duplicates(),
                forall|k: int| 0 <= k < small@.len() ==> !large@.contains(#[trigger] small@[k]),
                forall|k: int| 0 <= k < small@.len() ==> scaled@[#[trigger] small@[k] as int] < total,
                forall|k: int| 0 <= k < large@.len() ==> scaled@[#[trigger] large@[k] as int] >= total,
                small@.len() + large@.len() == i,
                list_sum(scaled@, small@) + list_sum(scaled@, large@) == nn * weight_sum(w.take(i as int)),
            decreases n - i,
        {
            let wi = weights[i];
            assert(nn * wi <= 0xffff_ffff_ffff_ffff * max_weight()) by (nonlinear_arith)
                requires
                    0 <= wi <= max_weight(),
                    0 <= nn <= 0xffff_ffff_ffff_ffff,
            ;
            let v: u128 = (n as u128) * (wi as u128);
            let ghost old_scaled = scaled@;
            let ghost old_small = small@;
            let ghost old_large = large@;
            let ghost old_buckets = buckets@;
            scaled.push(v);
            buckets.push(Bucket { prob: 0, alias: n });
            proof {
                lemma_list_sum_frame(old_scaled, scaled@, old_small);
                lemma_list_sum_frame(old_scaled, scaled@, old_large);
                assert(w.take(i + 1).drop_last() == w.take(i as int));
                assert(nn * weight_sum(w.take(i + 1)) == nn * weight_sum(w.take(i as int)) + nn * wi)
                    by (nonlinear_arith)
                    requires
                        weight_sum(w.take(i + 1)) == weight_sum(w.take(i as int)) + wi,
                ;
            }
            if v < total {
                small.push(i);
                assert(small@.drop_last() == old_small);
            } else {
                large.push(i);
                assert(large@.drop_last() == old_large);
            }
            proof {
                assert forall|k: int| 0 <= k <= i implies #[trigger] buckets@[k] == (Bucket {
                    prob: 0,
                    alias: n,
                }) && (small@.contains(k as usize) || large@.contains(k as usize)) by {
                    if k < i {
                        assert(old_buckets[k] == buckets@[k]);
                        if old_small.contains(k as usize) {
                            let m = choose|m: int| 0 <= m < old_small.len() && old_small[m] == k as usize;
                        } else {
                            let m = choose|m: int| 0 <= m < old_large.len() && old_large[m] == k as usize;
                        }
                    } else if v < total {
                        assert(small@[small@.len() - 1] == i);
                    } else {
                        assert(large@[large@.len() - 1] == i);
                    }
                }
            }
            i = i + 1;
        }
        proof {
            assert forall|j: int| 0 <= j < n implies #[trigger] mass_upto(buckets@, total as int, j, nn) == 0 by {
                lemma_mass_idle(buckets@, total as int, j, nn, n);
            }
        }
        // Pair each light outcome with a heavy one that tops up its bucket.
        while small.len() > 0 && large.len() > 0
            invariant
                n == w.len(),
                w == weights@,
                nn == n,
                0 < total < scaled_bound(),
                total == weight_sum(w),
                scaled@.len() == n,
                buckets@.len() == n,
                forall|k: int| 0 <= k < n ==> #[trigger] scaled@[k] < scaled_bound(),
                forall|k: int|
                    0 <= k < n ==> ((#[trigger] buckets@[k]).alias == n <==> (small@.contains(
                        k as usize,
                    ) || large@.contains(k as usize))),
                forall|k: int|
                    0 <= k < n ==> (#[trigger] buckets@[k]).alias == n ==> buckets@[k].prob == 0,
                forall|k: int|
                    0 <= k < n ==> (#[trigger] buckets@[k]).alias != n ==> buckets@[k].alias < n
                        && buckets@[k].prob <= total,
                forall|k: int| 0 <= k < small@.len() ==> #[trigger] small@[k] < n,
                forall|k: int| 0 <= k < large@.len() ==> #[trigger] large@[k] < n,
                small@.no_duplicates(),
                large@.no_duplicates(),
                forall|k: int| 0 <= k < small@.len() ==> !large@.contains(#[trigger] small@[k]),
                forall|k: int| 0 <= k < small@.len() ==> scaled@[#[trigger] small@[k] as int] < total,
                forall|k: int| 0 <= k < large@.len() ==> scaled@[#[trigger] large@[k] as int] >= total,
                list_sum(scaled@, small@) + list_sum(scaled@, large@) == (small@.len() + large@.len())
                    * total,
                forall|j: int|
                    0 <= j < n ==> #[trigger] mass_upto(buckets@, total as int, j, nn) + (if buckets@[j].alias
                        == n {
                        scaled@[j] as int
                    } else {
                        0
                    }) == nn * w[j],
            decreases small@.len() + large@.len(),
        {
            let ghost old_small = small@;
            let ghost old_large = large@;
            let ghost old_scaled = scaled@;
            let ghost old_buckets = buckets@;
            let ghost count = small@.len() + large@.len();
            let s = small.pop().unwrap();
            let l = large.pop().unwrap();
            proof {
                assert(!small@.contains(s)) by {
                    if small@.contains(s) {
                        let k = choose|k: int| 0 <= k < small@.len() && small@[k] == s;
                    }
                }
                assert(!large@.contains(l)) by {
                    if large@.contains(l) {
                        let k = choose|k: int| 0 <= k < large@.len() && large@[k] == l;
                    }
                }
                assert(!small@.contains(l)) by {
                    if small@.contains(l) {
                        let k = choose|k: int| 0 <= k < small@.len() && small@[k] == l;
                    }
                }
                assert(!large@.contains(s)) by {
                    if large@.contains(s) {
                        let k = choose|k: int| 0 <= k < large@.len() && large@[k] == s;
                    }
                }
            }
            let ps = scaled[s];
            let sl = scaled[l];
            let nb = Bucket { prob: ps, alias: l };
            buckets.set(s, nb);
            let nl: u128 = (sl - total) + ps;
            scaled.set(l, nl);
            proof {
                lemma_list_sum_frame(old_scaled, scaled@, small@);
                lemma_list_sum_frame(old_scaled, scaled@, large@);
                assert forall|j: int| 0 <= j < n implies #[trigger] mass_upto(buckets@, total as int, j, nn) + (if buckets@[j].alias
                        == n {
                        scaled@[j] as int
                    } else {
                        0
                    }) == nn * w[j] by {
                    lemma_mass_update(old_buckets, total as int, j, nn, s as int, nb);
                }
            }
            if nl < total {
                small.push(l);
                assert(small@.drop_last() == old_small.drop_last());
            } else {
                large.push(l);
                assert(large@.drop_last() == old_large.drop_last());
            }
            proof {
                assert((count - 1) * total == count * total - total) by (nonlinear_arith);
                assert forall|k: int|
                    0 <= k < n implies ((#[trigger] buckets@[k]).alias == n <==> (small@.contains(
                        k as usize,
                    ) || large@.contains(k as usize))) by {
                    if k != s && k != l {
                        if old_small.contains(k as usize) {
                            let m = choose|m: int| 0 <= m < old_small.len() && old_small[m] == k as usize;
                            assert(small@.contains(k as usize)) by {
                                if nl < total {
                                    assert(small@[m] == k as usize);
                                } else {
                                    assert(small@[m] == k as usize);
                                }
                            }
                        }
                        if old_large.contains(k as usize) {
                            let m = choose|m: int| 0 <= m < old_large.len() && old_large[m] == k as usize;
                            assert(large@[m] == k as usize);
                        }
                        if small@.contains(k as usize) {
                            let m = choose|m: int| 0 <= m < small@.len() && small@[m] == k as usize;
                            if m < old_small.len() - 1 {
                            }
                        }
                        if large@.contains(k as usize) {
                            let m = choose|m: int| 0 <= m < large@.len() && large@[m] == k as usize;
                            if m < old_large.len() - 1 {
                            }
                        }
                    } else if k == l {
                        if nl < total {
                            assert(small@[small@.len() - 1] == l);
                        } else {
                        }
                    }
                }
            }
        }
        proof {
            if large@.len() == 0 && small@.len() > 0 {
                lemma_list_sum_below(scaled@, small@, total as int);
                assert(small@.len() * (total - 1) < small@.len() * total) by (nonlinear_arith)
                    requires
                        small@.len() > 0,
                ;
            }
            lemma_list_sum_above(scaled@, large@, total as int);
        }
        // What is left is heavy with exactly the total: those buckets keep themselves.
        while large.len() > 0
            invariant
                n == w.len(),
                w == weights@,
                nn == n,
                0 < total < scaled_bound(),
                total == weight_sum(w),
                scaled@.len() == n,
                buckets@.len() == n,
                forall|k: int| 0 <= k < n ==> ((#[trigger] buckets@[k]).alias == n <==> large@.contains(k as usize)),
                forall|k: int|
                    0 <= k < n ==> (#[trigger] buckets@[k]).alias == n ==> buckets@[k].prob == 0,
                forall|k: int|
                    0 <= k < n ==> (#[trigger] buckets@[k]).alias != n ==> buckets@[k].alias < n
                        && buckets@[k].prob <= total,
                forall|k: int| 0 <= k < large@.len() ==> #[trigger] large@[k] < n,
                large@.no_duplicates(),
                forall|k: int| 0 <= k < large@.len() ==> scaled@[#[trigger] large@[k] as int] == total,
                forall|j: int|
                    0 <= j < n ==> #[trigger] mass_upto(buckets@, total as int, j, nn) + (if buckets@[j].alias
                        == n {
                        scaled@[j] as int
                    } else {
                        0
                    }) == nn * w[j],
            decreases large@.len(),
        {
            let ghost old_large = large@;
            let ghost old_buckets = buckets@;
            let i = large.pop().unwrap();
            proof {
                assert(!large@.contains(i)) by {
                    if large@.contains(i) {
                        let k = choose|k: int| 0 <= k < large@.len() && large@[k] == i;
                    }
                }
            }
            let nb = Bucket { prob: total, alias: i };
            buckets.set(i, nb);
            proof {
                assert forall|j: int| 0 <= j < n implies #[trigger] mass_upto(buckets@, total as int, j, nn) + (if buckets@[j].alias
                        == n {
                        scaled@[j] as int
                    } else {
                        0
                    }) == nn * w[j] by {
                    lemma_mass_update(old_buckets, total as int, j, nn, i as int, nb);
                }
                assert forall|k: int|
                    0 <= k < n implies ((#[trigger] buckets@[k]).alias == n <==> large@.contains(k as usize)) by {
                    if k != i {
                        if old_large.contains(k as usize) {
                            let m = choose|m: int| 0 <= m < old_large.len() && old_large[m] == k as usize;
                            assert(large@[m] == k as usize);
                        }
                        if large@.contains(k as usize) {
                            let m = choose|m: int| 0 <= m < large@.len() && large@[m] == k as usize;
                        }
                    }
                }
            }
        }
        let t = AliasTable { buckets, total };
        assert forall|j: int| 0 <= j < w.len() implies #[trigger] t.mass(j) == w.len() * w[j] by {
        }
        Ok(t)
    }

    /// The outcome for bucket `bucket` and coin `coin`: the bucket itself when
    /// the coin falls below its `prob`, else its alias.
    pub fn sample_with(&self, bucket: usize, coin: u128) -> (r: usize)
        requires
            bucket < self@.len(),
            coin < self.total(),
        ensures
            r == self.pick_spec(bucket as int, coin as int),
            r < self@.len(),
            self.mass(r as int) > 0,
    {
        proof {
            use_type_invariant(self);
            lemma_pick_has_mass(self, bucket as int, coin as int);
        }
        let bk = self.buckets[bucket];
        if coin < bk.prob {
            bucket
        } else {
            bk.alias
        }
    }

    /// Draws one outcome index in O(1): a uniform bucket, then a uniform coin
    /// below the weight total. Only outcomes of positive weight come out.
    pub fn sample_index(&self, rng: &mut StdRng) -> (r: usize)
        ensures
            r < self@.len(),
            self.mass(r as int) > 0,
            exists|b: int, u: int|
                0 <= b < self@.len() && 0 <= u < self.total() && r == #[trigger] self.pick_spec(b, u),
    {
        proof {
            use_type_invariant(self);
        }
        let n = self.buckets.len();
        let b = draw_below(rng, n as u128) as usize;
        let u = draw_below(rng, self.total);
        let r = self.sample_with(b, u);
        r
    }

    /// Draws `draws` outcomes and counts how often each index came out.
    pub fn sample_counts(&self, rng: &mut StdRng, draws: usize) -> (counts: Vec<usize>)
        ensures
            counts@.len() == self@.len(),
            count_sum(counts@) == draws,
            forall|j: int| 0 <= j < counts@.len() && counts@[j] > 0 ==> #[trigger] self.mass(j) > 0,
    {
        proof {
            use_type_invariant(self);
        }
        let n = self.buckets.len();
        let mut counts: Vec<usize> = Vec::with_capacity(n);
        let mut i: usize = 0;
        while i < n
            invariant
                n == self@.len(),
                0 <= i <= n,
                counts@.len() == i,
                forall|j: int| 0 <= j < i ==> #[trigger] counts@[j] == 0,
                count_sum(counts@) == 0,
            decreases n - i,
        {
            let ghost old_counts = counts@;
            counts.push(0);
            assert(counts@.drop_last() == old_counts);
            i = i + 1;
        }
        let mut d: usize = 0;
        while d < draws
            invariant
                n == self@.len(),
                0 <= d <= draws,
                counts@.len() == n,
                count_sum(counts@) == d,
                forall|j: int| 0 <= j < n ==> #[trigger] counts@[j] <= d,
                forall|j: int| 0 <= j < n && counts@[j] > 0 ==> #[trigger] self.mass(j) > 0,
            decreases draws - d,
        {
            let k = self.sample_index(rng);
            let c = counts[k];
            proof {
                lemma_count_sum_update(counts@, k as int, (c + 1) as usize);
            }
            counts.set(k, c + 1);
            d = d + 1;
        }
        counts
    }

    /// Number of outcomes.
    pub fn len(&self) -> (r: usize)
        ensures
            r == self@.len(),
            r > 0,
    {
        proof {
            use_type_invariant(self);
        }
        self.buckets.len()
    }

    /// Whether there are no outcomes: never, for a built table.
    pub fn is_empty(&self) -> (r: bool)
        ensures
            r == (self@.len() == 0),
            !r,
    {
        proof {
            use_type_invariant(self);
        }
        self.buckets.len() == 0
    }

    #[verifier::type_invariant]
    spec fn inv(&self) -> bool {
        self.wf()
    }

    /// The outcome of bucket `b` with coin `u`.
    pub open spec fn pick_spec(&self, b: int, u: int) -> int {
        if u < self@[b].prob {
            b
        } else {
            self@[b].alias as int
        }
    }

    /// Number of the `len * total` equally likely pairs `(bucket, coin)` that yield `j`.
    pub open spec fn mass(&self, j: int) -> int {
        mass_upto(self@, self.total() as int, j, self@.len() as int)
    }

    /// The table samples the weights `w`: outcome `j` comes from exactly
    /// `w.len() * w[j]` of the `w.len() * weight_sum(w)` pairs, so its chance is
    /// `w[j] / weight_sum(w)`.
    pub open spec fn built_from(&self, w: Seq<i64>) -> bool {
        &&& self.wf()
        &&& self@.len() == w.len()
        &&& self.total() == weight_sum(w)
        &&& forall|j: int| 0 <= j < w.len() ==> #[trigger] self.mass(j) == w.len() * w[j]
    }
}

} // verus!

verus! {

proof fn lemma_weight_sum_scaled(w1: Seq<i64>, w2: Seq<i64>, c: int)
    requires
        w1.len() == w2.len(),
        forall|j: int| 0 <= j < w1.len() ==> w2[j] == c * w1[j],
    ensures
        weight_sum(w2) == c * weight_sum(w1),
    decreases w1.len(),
{
    if w1.len() > 0 {
        let d1 = w1.drop_last();
        let d2 = w2.drop_last();
        assert forall|j: int| 0 <= j < d1.len() implies d2[j] == c * d1[j] by {
        }
        lemma_weight_sum_scaled(d1, d2, c);
        assert(c * weight_sum(d1) + c * w1.last() == c * (weight_sum(d1) + w1.last()))
            by (nonlinear_arith);
    }
}

/// Scale invariance: when every weight of `w2` is the same positive multiple `c`
/// of the matching weight of `w1`, the two tables give every outcome the same
/// chance. The chance of `j` is `mass(j) / (len * total)` and both tables have the
/// same length, so this is the cross-multiplied equality of those fractions.
pub proof fn lemma_scale_invariance(
    t1: &AliasTable,
    w1: Seq<i64>,
    t2: &AliasTable,
    w2: Seq<i64>,
    c: int,
)
    requires
        t1.built_from(w1),
        t2.built_from(w2),
        c > 0,
        w1.len() == w2.len(),
        forall|j: int| 0 <= j < w1.len() ==> w2[j] == c * w1[j],
    ensures
        t1@.len() == t2@.len(),
        forall|j: int|
            0 <= j < w1.len() ==> #[trigger] t1.mass(j) * t2.total() == t2.mass(j) * t1.total(),
{
    lemma_weight_sum_scaled(w1, w2, c);
    assert forall|j: int| 0 <= j < w1.len() implies #[trigger] t1.mass(j) * t2.total() == t2.mass(j)
        * t1.total() by {
        let n = w1.len() as int;
        let a = w1[j] as int;
        let s1 = weight_sum(w1);
        assert((n * a) * (c * s1) == (n * (c * a)) * s1) by (nonlinear_arith);
    }
}

/// A table of one outcome yields index 0 for every bucket and every coin.
pub proof fn lemma_singleton(t: &AliasTable, w: Seq<i64>)
    requires
        t.built_from(w),
        w.len() == 1,
    ensures
        forall|b: int, u: int|
            0 <= b < t@.len() && 0 <= u < t.total() ==> #[trigger] t.pick_spec(b, u) == 0,
{
    assert forall|b: int, u: int| 0 <= b < t@.len() && 0 <= u < t.total() implies #[trigger] t.pick_spec(
        b,
        u,
    ) == 0 by {
    }
}

} // verus!
