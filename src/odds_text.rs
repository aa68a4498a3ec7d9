//! Reading odds written as text: `"A/B"`, with `A` and `B` positive whole
//! numbers, optional ASCII spaces around either, and an optional `+` sign.

use crate::odds::Share;
use vstd::prelude::*;
use vstd::string::StringSliceAdditionalSpecFns;

verus! {

/// Why an odds text could not be read.
#[derive(Debug, Clone, Copy, PartialEq, Eq, Structural)]
pub enum OddsTextError {
    /// The text is not two parts around exactly one `/`.
    Shape,
    /// A part is not a whole number that fits in a `u64`.
    Number,
    /// A part is zero.
    NotPositive,
}

/// ASCII white space: space, tab, line feed, vertical tab, form feed, carriage return.
pub open spec fn is_space(c: u8) -> bool {
    c == 32 || (9 <= c && c <= 13)
}

/// `s` without its leading white space.
pub open spec fn trim_start(s: Seq<u8>) -> Seq<u8>
    decreases s.len(),
{
    if s.len() > 0 && is_space(s[0]) {
        trim_start(s.drop_first())
    } else {
        s
    }
}

/// `s` without its trailing white space.
pub open spec fn trim_end(s: Seq<u8>) -> Seq<u8>
    decreases s.len(),
{
    if s.len() > 0 && is_space(s.last()) {
        trim_end(s.drop_last())
    } else {
        s
    }
}

/// `s` without white space at either end.
pub open spec fn trim(s: Seq<u8>) -> Seq<u8> {
    trim_end(trim_start(s))
}

/// Number of `/` in `s`.
pub open spec fn slash_count(s: Seq<u8>) -> nat
    decreases s.len(),
{
    if s.len() == 0 {
        0
    } else {
        slash_count(s.drop_last()) + if s.last() == 47 {
            1nat
        } else {
            0nat
        }
    }
}

/// Index of the first `/` in `s` (its length when there is none).
pub open spec fn first_slash(s: Seq<u8>) -> int
    decreases s.len(),
{
    if s.len() == 0 || s[0] == 47 {
        0
    } else {
        1 + first_slash(s.drop_first())
    }
}

pub open spec fn is_digit(c: u8) -> bool {
    48 <= c && c <= 57
}

pub open spec fn all_digits(s: Seq<u8>) -> bool {
    forall|k: int| 0 <= k < s.len() ==> #[trigger] is_digit(s[k])
}

/// The value of a string of decimal digits.
pub open spec fn digits_value(s: Seq<u8>) -> nat
    decreases s.len(),
{
    if s.len() == 0 {
        0
    } else {
        digits_value(s.drop_last()) * 10 + (s.last() - 48) as nat
    }
}

/// `s` without one leading `+`.
pub open spec fn unsigned_text(s: Seq<u8>) -> Seq<u8> {
    if s.len() > 0 && s[0] == 43 {
        s.drop_first()
    } else {
        s
    }
}

/// `s` is a whole number (optionally signed `+`) that fits in a `u64`.
pub open spec fn number_ok(s: Seq<u8>) -> bool {
    let u = unsigned_text(s);
    &&& u.len() > 0
    &&& all_digits(u)
    &&& digits_value(u) <= u64::MAX
}

/// The value of a whole number text.
pub open spec fn number_of(s: Seq<u8>) -> nat {
    digits_value(unsigned_text(s))
}

/// What reading `s` as odds yields: the text, trimmed, must be two parts around
/// one `/`; each part, trimmed, a whole number; both positive.
pub open spec fn odds_text_result(s: Seq<u8>, r: Result<Share, OddsTextError>) -> bool {
    let t = trim(s);
    let i = first_slash(t);
    let a = trim(t.take(i));
    let b = trim(t.skip(i + 1));
    match r {
        Err(OddsTextError::Shape) => slash_count(t) != 1,
        Err(OddsTextError::Number) => slash_count(t) == 1 && !(number_ok(a) && number_ok(b)),
        Err(OddsTextError::NotPositive) => {
            &&& slash_count(t) == 1
            &&& number_ok(a)
            &&& number_ok(b)
            &&& (number_of(a) == 0 || number_of(b) == 0)
        },
        Ok(sh) => {
            &&& slash_count(t) == 1
            &&& number_ok(a)
            &&& number_ok(b)
            &&& number_of(a) > 0
            &&& number_of(b) > 0
            &&& sh == (Share::Odds { num: number_of(a) as u64, den: number_of(b) as u64 })
        },
    }
}

/// Bounds of `s[lo..hi]` without white space at either end.
fn trim_bounds(s: &[u8], lo: usize, hi: usize) -> (r: (usize, usize))
    requires
        lo <= hi <= s@.len(),
    ensures
        lo <= r.0 <= r.1 <= hi,
        s@.subrange(r.0 as int, r.1 as int) == trim(s@.subrange(lo as int, hi as int)),
{
    let mut a = lo;
    while a < hi && is_space_byte(s[a])
        invariant
            lo <= a <= hi <= s@.len(),
            trim_start(s@.subrange(lo as int, hi as int)) == trim_start(
                s@.subrange(a as int, hi as int),
            ),
        decreases hi - a,
    {
        assert(s@.subrange(a as int, hi as int).drop_first() == s@.subrange(a + 1, hi as int));
        a = a + 1;
    }
    let mut b = hi;
    while b > a && is_space_byte(s[b - 1])
        invariant
            lo <= a <= b <= hi <= s@.len(),
            trim_end(s@.subrange(a as int, hi as int)) == trim_end(s@.subrange(a as int, b as int)),
        decreases b - a,
    {
        assert(s@.subrange(a as int, b as int).drop_last() == s@.subrange(a as int, b - 1));
        b = b - 1;
    }
    (a, b)
}

fn is_space_byte(c: u8) -> (r: bool)
    ensures
        r == is_space(c),
{
    c == 32 || (9 <= c && c <= 13)
}


/// Digit strings only grow in value as digits are appended.
proof fn lemma_digits_grow(u: Seq<u8>, m: int, n: int)
    requires
        all_digits(u),
        0 <= m <= n <= u.len(),
    ensures
        digits_value(u.take(m)) <= digits_value(u.take(n)),
    decreases n - m,
{
    if m < n {
        lemma_digits_grow(u, m, n - 1);
        assert(u.take(n).drop_last() == u.take(n - 1));
    }
}

/// The whole number in `s[lo..hi]`, trimmed; `None` when it is not one.
fn parse_number(s: &[u8], lo: usize, hi: usize) -> (r: Option<u64>)
    requires
        lo <= hi <= s@.len(),
    ensures
        match r {
            Some(v) => number_ok(trim(s@.subrange(lo as int, hi as int))) && v == number_of(
                trim(s@.subrange(lo as int, hi as int)),
            ),
            None => !number_ok(trim(s@.subrange(lo as int, hi as int))),
        },
{
    let (a, b) = trim_bounds(s, lo, hi);
    let ghost t = s@.subrange(a as int, b as int);
    let mut p = a;
    if p < b && s[p] == 43 {
        p = p + 1;
    }
    let ghost u = s@.subrange(p as int, b as int);
    if p == b {
        return None;
    }
    let mut v: u64 = 0;
    let mut k = p;
    while k < b
        invariant
            lo <= a <= p <= k <= b <= hi <= s@.len(),
            u == s@.subrange(p as int, b as int),
            u == unsigned_text(trim(s@.subrange(lo as int, hi as int))),
            u.take(k - p) == s@.subrange(p as int, k as int),
            all_digits(s@.subrange(p as int, k as int)),
            v == digits_value(s@.subrange(p as int, k as int)),
        decreases b - k,
    {
        let c = s[k];
        assert(s@.subrange(p as int, k + 1).drop_last() == s@.subrange(p as int, k as int));
        assert(u.take(k + 1 - p) == s@.subrange(p as int, k + 1));
        if c < 48 || c > 57 {
            assert(!is_digit(u[k - p]));
            return None;
        }
        let nv: u128 = (v as u128) * 10 + (c - 48) as u128;
        if nv > 0xffff_ffff_ffff_ffff {
            proof {
                if all_digits(u) {
                    lemma_digits_grow(u, k + 1 - p, u.len() as int);
                    assert(u.take(u.len() as int) == u);
                }
            }
            return None;
        }
        v = nv as u64;
        k = k + 1;
    }
    Some(v)
}

/// The first `/` of a text is where no earlier byte is one and this byte is.
proof fn lemma_first_slash(t: Seq<u8>, j: int)
    requires
        0 <= j < t.len(),
        t[j] == 47,
        forall|k: int| 0 <= k < j ==> t[k] != 47,
    ensures
        first_slash(t) == j,
    decreases j,
{
    if j > 0 {
        let d = t.drop_first();
        lemma_first_slash(d, j - 1);
    }
}

/// Reads odds written as `"A/B"`: both parts whole numbers above zero, with
/// white space allowed around the text and around either part.
pub fn parse_odds(text: &str) -> (r: Result<Share, OddsTextError>)
    ensures
        odds_text_result(text.spec_bytes(), r),
{
    let s = text.as_bytes();
    let (lo, hi) = trim_bounds(s, 0, s.len());
    assert(s@.subrange(0, s@.len() as int) == s@);
    let ghost t = s@.subrange(lo as int, hi as int);
    let mut count: usize = 0;
    let mut first: usize = hi;
    let mut i = lo;
    while i < hi
        invariant
            lo <= i <= hi <= s@.len(),
            t == s@.subrange(lo as int, hi as int),
            count == slash_count(s@.subrange(lo as int, i as int)),
            count <= i - lo,
            count == 0 ==> forall|k: int| lo <= k < i ==> s@[k] != 47,
            count > 0 ==> lo <= first < i && s@[first as int] == 47 && forall|k: int|
                lo <= k < first ==> s@[k] != 47,
        decreases hi - i,
    {
        assert(s@.subrange(lo as int, i + 1).drop_last() == s@.subrange(lo as int, i as int));
        if s[i] == 47 {
            if count == 0 {
                first = i;
            }
            count = count + 1;
        }
        i = i + 1;
    }
    if count != 1 {
        return Err(OddsTextError::Shape);
    }
    proof {
        lemma_first_slash(t, first - lo);
        assert(t.take(first - lo) == s@.subrange(lo as int, first as int));
        assert(t.skip(first - lo + 1) == s@.subrange(first + 1, hi as int));
    }
    let a = parse_number(s, lo, first);
    let b = parse_number(s, first + 1, hi);
    match (a, b) {
        (Some(num), Some(den)) => {
            if num == 0 || den == 0 {
                Err(OddsTextError::NotPositive)
            } else {
                Ok(Share::Odds { num, den })
            }
        },
        _ => Err(OddsTextError::Number),
    }
}

} // verus!
