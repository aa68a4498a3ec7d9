//! Turning per-tag odds into weights.
//!
//! Each tag states its chance as a fraction `num / den`, or is the one "rest" tag
//! that takes whatever chance the others leave. The fractions are brought over a
//! common denominator `D` (built from least common multiples), so every weight is
//! an exact integer: tag `i` with odds `num / den` gets `num * (D / den)`, and the
//! rest tag gets `D` minus the others. The weights then total `D`, and each tag's
//! chance in a table built from them is exactly its fraction.

use crate::walker::weight_sum;
use vstd::arithmetic::div_mod::{lemma_fundamental_div_mod, lemma_mod_multiples_basic};
use vstd::prelude::*;

verus! {

/// How one tag's chance is given.
#[derive(Debug, Clone, Copy, PartialEq, Eq, Structural)]
pub enum Share {
    /// The chance `num / den`.
    Odds { num: u64, den: u64 },
    /// Whatever chance the other tags leave.
    Rest,
}

/// Why a set of shares could not be turned into weights.
#[derive(Debug, Clone, Copy, PartialEq, Eq, Structural)]
pub enum OddsError {
    /// The odds at `index` have a zero numerator or denominator.
    NotPositive { index: usize },
    /// More than one tag is the rest tag.
    ManyRests,
    /// The common denominator, or a tag's weight over it, exceeds `i64::MAX`.
    TooLarge,
    /// With a rest tag: the other tags' odds add up to more than one.
    OverOne,
    /// Without a rest tag: the odds do not add up to exactly one.
    NotOne,
}

/// Largest weight a tag can get.
pub open spec fn max_share_weight() -> int {
    0x7fff_ffff_ffff_ffff
}

/// Greatest common divisor, by Euclid's algorithm.
pub open spec fn gcd(a: nat, b: nat) -> nat
    decreases b,
{
    if b == 0 {
        a
    } else {
        gcd(b, a % b)
    }
}

/// Least common multiple of `d` and `b`.
pub open spec fn lcm(d: nat, b: nat) -> nat {
    (d / gcd(d, b)) * b
}

/// The share has a positive numerator and denominator, or is the rest tag.
pub open spec fn positive(s: Share) -> bool {
    match s {
        Share::Odds { num, den } => num > 0 && den > 0,
        Share::Rest => true,
    }
}

pub open spec fn all_positive(s: Seq<Share>) -> bool {
    forall|k: int| 0 <= k < s.len() ==> #[trigger] positive(s[k])
}

/// Number of rest tags.
pub open spec fn rest_count(s: Seq<Share>) -> nat
    decreases s.len(),
{
    if s.len() == 0 {
        0
    } else {
        rest_count(s.drop_last()) + if s.last() is Rest {
            1nat
        } else {
            0nat
        }
    }
}

/// The common denominator: the least common multiple of all denominators (1
/// when there are none).
pub open spec fn common_den(s: Seq<Share>) -> nat
    decreases s.len(),
{
    if s.len() == 0 {
        1
    } else {
        match s.last() {
            Share::Odds { num, den } => lcm(common_den(s.drop_last()), den as nat),
            Share::Rest => common_den(s.drop_last()),
        }
    }
}

/// The weight of odds `s` over denominator `d`; none for the rest tag.
pub open spec fn scaled_share(s: Share, d: nat) -> int {
    match s {
        Share::Odds { num, den } => num * (d / den as nat),
        Share::Rest => 0,
    }
}

/// Sum of the weights of all odds over denominator `d`.
pub open spec fn known_sum(s: Seq<Share>, d: nat) -> int
    decreases s.len(),
{
    if s.len() == 0 {
        0
    } else {
        known_sum(s.drop_last(), d) + scaled_share(s.last(), d)
    }
}

/// The common denominator and every weight over it fit in an `i64`.
pub open spec fn fits(s: Seq<Share>) -> bool {
    &&& common_den(s) <= max_share_weight()
    &&& forall|k: int| 0 <= k < s.len() ==> #[trigger] scaled_share(s[k], common_den(s)) <= max_share_weight()
}

/// The weight of tag `i`: its odds over the common denominator, or, for the
/// rest tag, what the others leave of it.
pub open spec fn share_weight(s: Seq<Share>, i: int) -> int {
    match s[i] {
        Share::Odds { num, den } => scaled_share(s[i], common_den(s)),
        Share::Rest => common_den(s) - known_sum(s, common_den(s)),
    }
}

/// What resolving `s` yields: `NotPositive` at the first bad odds, else
/// `ManyRests`, else `TooLarge`, else `OverOne` or `NotOne` when the odds do not
/// leave a chance of exactly one in all, else the weights.
pub open spec fn resolved(s: Seq<Share>, r: Result<Vec<i64>, OddsError>) -> bool {
    match r {
        Err(OddsError::NotPositive { index }) => {
            &&& 0 <= index < s.len()
            &&& !positive(s[index as int])
            &&& forall|k: int| 0 <= k < index ==> #[trigger] positive(s[k])
        },
        Err(OddsError::ManyRests) => all_positive(s) && rest_count(s) > 1,
        Err(OddsError::TooLarge) => all_positive(s) && rest_count(s) <= 1 && !fits(s),
        Err(OddsError::OverOne) => {
            &&& all_positive(s)
            &&& rest_count(s) == 1
            &&& fits(s)
            &&& known_sum(s, common_den(s)) > common_den(s)
        },
        Err(OddsError::NotOne) => {
            &&& all_positive(s)
            &&& rest_count(s) == 0
            &&& fits(s)
            &&& known_sum(s, common_den(s)) != common_den(s)
        },
        Ok(ws) => {
            &&& all_positive(s)
            &&& rest_count(s) <= 1
            &&& fits(s)
            &&& known_sum(s, common_den(s)) <= common_den(s)
            &&& (rest_count(s) == 0 ==> known_sum(s, common_den(s)) == common_den(s))
            &&& ws@.len() == s.len()
            &&& forall|i: int| 0 <= i < s.len() ==> #[trigger] ws@[i] == share_weight(s, i)
        },
    }
}


/// Euclid's result divides both arguments.
proof fn lemma_gcd_divides(a: nat, b: nat)
    requires
        a > 0,
    ensures
        gcd(a, b) > 0,
        a % gcd(a, b) == 0,
        b % gcd(a, b) == 0,
    decreases b,
{
    if b == 0 {
        assert(a % a == 0) by {
            lemma_mod_multiples_basic(1, a as int);
        }
        assert(0nat % a == 0) by {
            lemma_mod_multiples_basic(0, a as int);
        }
    } else {
        let r = a % b;
        lemma_gcd_divides(b, r);
        let g = gcd(a, b);
        lemma_fundamental_div_mod(a as int, b as int);
        lemma_fundamental_div_mod(b as int, g as int);
        lemma_fundamental_div_mod(r as int, g as int);
        let q1 = a as int / b as int;
        let q2 = b as int / g as int;
        let q3 = r as int / g as int;
        let x = q2 * q1 + q3;
        assert(a as int == x * g) by (nonlinear_arith)
            requires
                a as int == b as int * q1 + r,
                b as int == g * q2,
                r as int == g * q3,
                x == q2 * q1 + q3,
        ;
        lemma_mod_multiples_basic(x, g as int);
    }
}

/// `x * m` keeps every divisor of `x`.
proof fn lemma_mod_scale(x: int, e: int, m: int)
    requires
        e > 0,
        x % e == 0,
    ensures
        (x * m) % e == 0,
{
    lemma_fundamental_div_mod(x, e);
    assert(x * m == ((x / e) * m) * e) by (nonlinear_arith)
        requires
            x == e * (x / e) + x % e,
            x % e == 0,
    ;
    lemma_mod_multiples_basic((x / e) * m, e);
}

/// The least common multiple of `d` and `b` is `d` times a positive factor and a
/// multiple of `b`.
proof fn lemma_lcm(d: nat, b: nat)
    requires
        d > 0,
        b > 0,
    ensures
        lcm(d, b) == d * (b / gcd(d, b)),
        b / gcd(d, b) >= 1,
        lcm(d, b) >= d,
        lcm(d, b) % b == 0,
{
    lemma_gcd_divides(d, b);
    let g = gcd(d, b);
    lemma_fundamental_div_mod(d as int, g as int);
    lemma_fundamental_div_mod(b as int, g as int);
    assert(b / g >= 1) by (nonlinear_arith)
        requires
            b as int == g * (b as int / g as int),
            b > 0,
            g > 0,
    ;
    assert((d / g) * b == d * (b / g)) by (nonlinear_arith)
        requires
            d as int == g * (d as int / g as int),
            b as int == g * (b as int / g as int),
    ;
    assert(d * (b / g) >= d) by (nonlinear_arith)
        requires
            b / g >= 1,
    ;
    lemma_mod_multiples_basic((d / g) as int, b as int);
}

/// Over positive shares the common denominator is positive and a multiple of
/// every denominator.
proof fn lemma_common_den(s: Seq<Share>)
    requires
        all_positive(s),
    ensures
        common_den(s) >= 1,
        forall|k: int|
            0 <= k < s.len() && s[k] is Odds ==> common_den(s) % (#[trigger] s[k]->den as nat) == 0,
    decreases s.len(),
{
    if s.len() > 0 {
        let p = s.drop_last();
        lemma_common_den(p);
        let d = common_den(p);
        assert(positive(s[s.len() - 1]));
        let m: int = match s.last() {
            Share::Odds { num, den } => {
                lemma_lcm(d, den as nat);
                (den as nat / gcd(d, den as nat)) as int
            },
            Share::Rest => 1,
        };
        assert forall|k: int| 0 <= k < s.len() && s[k] is Odds implies common_den(s) % (
        #[trigger] s[k]->den as nat) == 0 by {
            if k < p.len() {
                assert(p[k] == s[k]);
                assert(positive(s[k]));
                lemma_mod_scale(d as int, s[k]->den as int, m);
            }
        }
    }
}

/// The common denominator of a prefix never exceeds that of a longer prefix.
proof fn lemma_common_den_grows(s: Seq<Share>, i: int, j: int)
    requires
        all_positive(s),
        0 <= i <= j <= s.len(),
    ensures
        common_den(s.take(i)) <= common_den(s.take(j)),
    decreases j - i,
{
    if i < j {
        lemma_common_den_grows(s, i, j - 1);
        let p = s.take(j);
        assert(p.drop_last() == s.take(j - 1));
        lemma_common_den(s.take(j - 1));
        assert(positive(s[j - 1]));
        match s[j - 1] {
            Share::Odds { num, den } => {
                lemma_lcm(common_den(s.take(j - 1)), den as nat);
            },
            Share::Rest => {},
        }
    }
}

proof fn lemma_weight_sum_update(w: Seq<i64>, k: int, v: i64)
    requires
        0 <= k < w.len(),
    ensures
        weight_sum(w.update(k, v)) == weight_sum(w) - w[k] + v,
    decreases w.len(),
{
    let u = w.update(k, v);
    if k < w.len() - 1 {
        assert(u.drop_last() == w.drop_last().update(k, v));
        lemma_weight_sum_update(w.drop_last(), k, v);
    } else {
        assert(u.drop_last() == w.drop_last());
    }
}

/// Euclid's algorithm.
fn gcd_u64(a: u64, b: u64) -> (r: u64)
    requires
        a > 0,
    ensures
        r == gcd(a as nat, b as nat),
        r > 0,
{
    let mut x = a;
    let mut y = b;
    while y != 0
        invariant
            x > 0,
            gcd(x as nat, y as nat) == gcd(a as nat, b as nat),
        decreases y,
    {
        let t = x % y;
        x = y;
        y = t;
    }
    x
}


/// Turns `shares` into integer weights, one per tag and in order, over the
/// common denominator of all odds; fails as `resolved` says.
pub fn resolve_shares(shares: &[Share]) -> (r: Result<Vec<i64>, OddsError>)
    ensures
        resolved(shares@, r),
{
    let n = shares.len();
    let ghost s = shares@;
    // Every odds must be positive; count the rest tags.
    let mut rests: usize = 0;
    let mut rest_at: usize = 0;
    let mut i: usize = 0;
    while i < n
        invariant
            n == s.len(),
            s == shares@,
            0 <= i <= n,
            forall|k: int| 0 <= k < i ==> #[trigger] positive(s[k]),
            rests == rest_count(s.take(i as int)),
            rests <= i,
            rests > 0 ==> rest_at < i && s[rest_at as int] is Rest,
            forall|k: int|
                0 <= k < i && (#[trigger] s[k]) is Rest ==> rests >= 1 && (rests == 1 ==> k
                    == rest_at),
        decreases n - i,
    {
        match shares[i] {
            Share::Odds { num, den } => {
                if num == 0 || den == 0 {
                    return Err(OddsError::NotPositive { index: i });
                }
            },
            Share::Rest => {
                rests = rests + 1;
                rest_at = i;
            },
        }
        assert(s.take(i + 1).drop_last() == s.take(i as int));
        i = i + 1;
    }
    assert(s.take(n as int) == s);
    if rests > 1 {
        return Err(OddsError::ManyRests);
    }
    // The common denominator, one least common multiple at a time.
    let mut d: u64 = 1;
    let mut i: usize = 0;
    while i < n
        invariant
            n == s.len(),
            s == shares@,
            0 <= i <= n,
            all_positive(s),
            rests == rest_count(s),
            rests <= 1,
            rests > 0 ==> rest_at < n && s[rest_at as int] is Rest,
            forall|k: int|
                0 <= k < n && (#[trigger] s[k]) is Rest ==> rests == 1 && k == rest_at,
            d as nat == common_den(s.take(i as int)),
            1 <= d <= max_share_weight(),
        decreases n - i,
    {
        assert(s.take(i + 1).drop_last() == s.take(i as int));
        assert(positive(s[i as int]));
        match shares[i] {
            Share::Odds { num, den } => {
                let g = gcd_u64(d, den);
                let q = d / g;
                assert(q as int * den as int <= 0xffff_ffff_ffff_ffff * 0xffff_ffff_ffff_ffff)
                    by (nonlinear_arith)
                    requires
                        q <= 0xffff_ffff_ffff_ffff,
                        den <= 0xffff_ffff_ffff_ffff,
                ;
                let nd: u128 = (q as u128) * (den as u128);
                if nd > 0x7fff_ffff_ffff_ffff {
                    proof {
                        lemma_common_den_grows(s, i + 1, n as int);
                        assert(s.take(n as int) == s);
                    }
                    return Err(OddsError::TooLarge);
                }
                proof {
                    lemma_lcm(d as nat, den as nat);
                }
                d = nd as u64;
            },
            Share::Rest => {},
        }
        i = i + 1;
    }
    // Each odds over the common denominator.
    let mut ws: Vec<i64> = Vec::with_capacity(n);
    let mut sum: u128 = 0;
    let mut i: usize = 0;
    while i < n
        invariant
            n == s.len(),
            s == shares@,
            0 <= i <= n,
            all_positive(s),
            rests == rest_count(s),
            rests <= 1,
            rests > 0 ==> rest_at < n && s[rest_at as int] is Rest,
            forall|k: int|
                0 <= k < n && (#[trigger] s[k]) is Rest ==> rests == 1 && k == rest_at,
            d as nat == common_den(s),
            1 <= d <= max_share_weight(),
            ws@.len() == i,
            forall|k: int| 0 <= k < i ==> #[trigger] ws@[k] == scaled_share(s[k], d as nat),
            forall|k: int| 0 <= k < i ==> #[trigger] scaled_share(s[k], d as nat) <= max_share_weight(),
            sum == known_sum(s.take(i as int), d as nat),
            sum == weight_sum(ws@),
            sum <= i * max_share_weight(),
        decreases n - i,
    {
        assert(s.take(i + 1).drop_last() == s.take(i as int));
        assert(positive(s[i as int]));
        let ghost before = ws@;
        match shares[i] {
            Share::Odds { num, den } => {
                let q = d / den;
                assert(num as int * q as int <= 0xffff_ffff_ffff_ffff * 0xffff_ffff_ffff_ffff)
                    by (nonlinear_arith)
                    requires
                        q <= 0xffff_ffff_ffff_ffff,
                        num <= 0xffff_ffff_ffff_ffff,
                ;
                let v: u128 = (num as u128) * (q as u128);
                if v > 0x7fff_ffff_ffff_ffff {
                    assert(scaled_share(s[i as int], common_den(s)) > max_share_weight());
                    return Err(OddsError::TooLarge);
                }
                ws.push(v as i64);
                sum = sum + v;
            },
            Share::Rest => {
                ws.push(0);
            },
        }
        assert(ws@.drop_last() == before);
        i = i + 1;
    }
    if rests == 1 {
        if sum > d as u128 {
            return Err(OddsError::OverOne);
        }
        let rv = (d as u128 - sum) as i64;
        ws.set(rest_at, rv);
    } else {
        if sum != d as u128 {
            return Err(OddsError::NotOne);
        }
    }
    Ok(ws)
}

/// Resolved weights total the common denominator, and each tag with odds
/// `num / den` gets exactly that fraction of the total: `w * den == num * total`.
pub proof fn lemma_resolved_chances(s: Seq<Share>, ws: Vec<i64>)
    requires
        resolved(s, Ok(ws)),
    ensures
        weight_sum(ws@) == common_den(s),
        common_den(s) > 0,
        forall|i: int|
            0 <= i < s.len() && s[i] is Odds ==> #[trigger] ws@[i] * (s[i]->den as int) == (
            s[i]->num as int) * common_den(s),
{
    let d = common_den(s);
    lemma_common_den(s);
    lemma_resolved_prefix(s, ws@, s.len() as int);
    assert(ws@.take(s.len() as int) == ws@);
    assert(s.take(s.len() as int) == s);
    if rest_count(s) == 0 {
    } else {
        assert(rest_count(s) * (d - known_sum(s, d)) == d - known_sum(s, d)) by (nonlinear_arith)
            requires
                rest_count(s) == 1,
        ;
    }
    assert forall|i: int| 0 <= i < s.len() && s[i] is Odds implies #[trigger] ws@[i] * (
    s[i]->den as int) == (s[i]->num as int) * d by {
        assert(positive(s[i]));
        let den = s[i]->den as int;
        let num = s[i]->num as int;
        lemma_fundamental_div_mod(d as int, den);
        assert(num * (d as int / den) * den == num * d) by (nonlinear_arith)
            requires
                d as int == den * (d as int / den) + d as int % den,
                d as int % den == 0,
        ;
    }
}

/// Over a prefix, the weights total the odds of that prefix plus the rest tag's
/// weight once per rest tag in it.
proof fn lemma_resolved_prefix(s: Seq<Share>, ws: Seq<i64>, k: int)
    requires
        0 <= k <= s.len(),
        ws.len() == s.len(),
        forall|i: int| 0 <= i < s.len() ==> #[trigger] ws[i] == share_weight(s, i),
    ensures
        weight_sum(ws.take(k)) == known_sum(s.take(k), common_den(s)) + rest_count(s.take(k)) * (
        common_den(s) - known_sum(s, common_den(s))),
    decreases k,
{
    let d = common_den(s);
    let e = d - known_sum(s, d);
    if k > 0 {
        lemma_resolved_prefix(s, ws, k - 1);
        assert(ws.take(k).drop_last() == ws.take(k - 1));
        assert(s.take(k).drop_last() == s.take(k - 1));
        let c = rest_count(s.take(k - 1)) as int;
        if s[k - 1] is Rest {
            assert((c + 1) * e == c * e + e) by (nonlinear_arith);
        } else {
        }
    } else {
        assert(rest_count(s.take(0)) == 0);
        assert(known_sum(s.take(0), d) == 0);
    }
}

} // verus!
