//! Reading exact numbers from text: an integer, a decimal, or a fraction,
//! with an optional sign and `_` separators.
use vstd::prelude::*;
use vstd::arithmetic::power::pow;

use crate::num::decimal::{all_digits, decimal_value, ten_to};
use crate::text::chars_of;
use crate::num::fraction::{reduce, signed};
use crate::num::rational::Rational;
use crate::num::uint::BigUint;

verus! {

/// The Unicode `White_Space` property: the space, tab to carriage return,
/// next line, no-break space, the ogham space mark, the spaces from en quad
/// to hair space, the line and paragraph separators, the narrow no-break
/// space, the medium mathematical space and the ideographic space.
pub open spec fn white_space(c: char) -> bool {
    ||| c == ' '
    ||| ('\t' <= c && c <= '\r')
    ||| c == '\u{85}'
    ||| c == '\u{a0}'
    ||| c == '\u{1680}'
    ||| ('\u{2000}' <= c && c <= '\u{200a}')
    ||| c == '\u{2028}'
    ||| c == '\u{2029}'
    ||| c == '\u{202f}'
    ||| c == '\u{205f}'
    ||| c == '\u{3000}'
}

/// `char::is_whitespace`, which its documentation describes as testing for
/// the Unicode `White_Space` property, spelled out above.
#[verifier::external_body]
pub fn is_whitespace(c: char) -> (r: bool)
    ensures
        r == white_space(c),
{
    c.is_whitespace()
}

/// `s` with every `c` taken out.
pub open spec fn remove_char(s: Seq<char>, c: char) -> Seq<char>
    decreases s.len(),
{
    if s.len() == 0 {
        s
    } else if s.last() == c {
        remove_char(s.drop_last(), c)
    } else {
        remove_char(s.drop_last(), c).push(s.last())
    }
}

/// `s` without its leading white space.
pub open spec fn trim_start(s: Seq<char>) -> Seq<char>
    decreases s.len(),
{
    if s.len() > 0 && white_space(s[0]) {
        trim_start(s.drop_first())
    } else {
        s
    }
}

/// `s` without its trailing white space.
pub open spec fn trim_end(s: Seq<char>) -> Seq<char>
    decreases s.len(),
{
    if s.len() > 0 && white_space(s.last()) {
        trim_end(s.drop_last())
    } else {
        s
    }
}

/// Where `c` first occurs in `s`.
pub open spec fn first_index(s: Seq<char>, c: char) -> Option<nat>
    decreases s.len(),
{
    if s.len() == 0 {
        None
    } else if s[0] == c {
        Some(0)
    } else {
        match first_index(s.drop_first(), c) {
            Some(i) => Some(i + 1),
            None => None,
        }
    }
}

/// The number a non-empty run of digits spells.
pub open spec fn digits_value(s: Seq<char>) -> Option<nat> {
    if s.len() > 0 && all_digits(s) {
        Some(decimal_value(s))
    } else {
        None
    }
}

/// As `digits_value`, but an empty run counts as zero.
pub open spec fn optional_digits_value(s: Seq<char>) -> Option<nat> {
    if s.len() == 0 {
        Some(0)
    } else {
        digits_value(s)
    }
}

/// An unsigned literal as a numerator and a denominator: `n`, `n/d`, or
/// `w.f` (either side of the point may be empty), which is `wf / 10^|f|`.
pub open spec fn unsigned_parts(s: Seq<char>) -> Option<(nat, nat)> {
    if s.len() == 0 {
        None
    } else {
        match first_index(s, '/') {
            Some(i) => match (digits_value(s.take(i as int)), digits_value(s.skip(i + 1int))) {
                (Some(n), Some(d)) => Some((n, d)),
                _ => None,
            },
            None => match first_index(s, '.') {
                None => match digits_value(s) {
                    Some(n) => Some((n, 1nat)),
                    None => None,
                },
                Some(i) => {
                    let whole = s.take(i as int);
                    let frac = s.skip(i + 1int);
                    if first_index(frac, '.') is Some {
                        None
                    } else {
                        match (optional_digits_value(whole), optional_digits_value(frac)) {
                            (Some(a), Some(b)) => Some((a * ten_to(frac.len()) + b, ten_to(frac.len()))),
                            _ => None,
                        }
                    }
                },
            },
        }
    }
}

/// A leading `-` or `+`, taken off.
pub open spec fn split_sign(s: Seq<char>) -> (bool, Seq<char>) {
    if s.len() > 0 && s[0] == '-' {
        (true, s.drop_first())
    } else if s.len() > 0 && s[0] == '+' {
        (false, s.drop_first())
    } else {
        (false, s)
    }
}

/// The value a literal spells, in lowest terms: separators dropped, white
/// space trimmed, then an optional sign and an unsigned literal with a
/// non-zero denominator.
pub open spec fn literal_value(text: Seq<char>) -> Option<(int, nat)> {
    let body = trim_end(trim_start(remove_char(text, '_')));
    let (negative, rest) = split_sign(body);
    match unsigned_parts(rest) {
        Some((n, d)) => if d > 0 {
            Some(reduce(signed(negative, n), d))
        } else {
            None
        },
        None => None,
    }
}

proof fn lemma_first_index(s: Seq<char>, c: char, k: int)
    requires
        0 <= k <= s.len(),
        forall|j: int| 0 <= j < k ==> s[j] != c,
    ensures
        k < s.len() && s[k] == c ==> first_index(s, c) == Some(k as nat),
        k == s.len() ==> first_index(s, c) is None,
    decreases k,
{
    if k > 0 {
        let t = s.drop_first();
        assert forall|j: int| 0 <= j < k - 1 implies t[j] != c by {
            assert(t[j] == s[j + 1]);
        }
        lemma_first_index(t, c, k - 1);
        assert(s[0] != c);
    }
}

pub proof fn lemma_pow_ten(k: nat)
    ensures
        pow(10, k) == ten_to(k),
    decreases k,
{
    vstd::arithmetic::power::lemma_pow0(10);
    if k > 0 {
        lemma_pow_ten((k - 1) as nat);
        vstd::arithmetic::power::lemma_pow_adds(10, 1, (k - 1) as nat);
        vstd::arithmetic::power::lemma_pow1(10);
    }
}

/// The first place in `chars[lo..hi]` that holds `c`.
fn find_char(chars: &Vec<char>, lo: usize, hi: usize, c: char) -> (r: Option<usize>)
    requires
        lo <= hi <= chars@.len(),
    ensures
        match r {
            Some(i) => lo <= i < hi && first_index(chars@.subrange(lo as int, hi as int), c) == Some(
                (i - lo) as nat,
            ),
            None => first_index(chars@.subrange(lo as int, hi as int), c) is None,
        },
{
    let ghost s = chars@.subrange(lo as int, hi as int);
    let mut i = lo;
    while i < hi
        invariant
            lo <= i <= hi <= chars@.len(),
            s == chars@.subrange(lo as int, hi as int),
            forall|j: int| 0 <= j < i - lo ==> s[j] != c,
        decreases hi - i,
    {
        if chars[i] == c {
            proof {
                lemma_first_index(s, c, i - lo);
            }
            return Some(i);
        }
        i = i + 1;
    }
    proof {
        lemma_first_index(s, c, i - lo);
    }
    None
}

/// The characters without the `_` separators.
pub(crate) fn without_separators(chars: &Vec<char>) -> (r: Vec<char>)
    ensures
        r@ == remove_char(chars@, '_'),
        r@.len() <= chars@.len(),
{
    let mut cleaned: Vec<char> = Vec::new();
    let mut i: usize = 0;
    while i < chars.len()
        invariant
            i <= chars@.len(),
            cleaned@ == remove_char(chars@.take(i as int), '_'),
            cleaned@.len() <= i,
        decreases chars@.len() - i,
    {
        proof {
            assert(chars@.take(i as int + 1).drop_last() =~= chars@.take(i as int));
        }
        if chars[i] != '_' {
            cleaned.push(chars[i]);
        }
        i = i + 1;
    }
    proof {
        assert(chars@.take(chars@.len() as int) =~= chars@);
    }
    cleaned
}

/// The range left once white space is trimmed from both ends.
pub(crate) fn trimmed_range(chars: &Vec<char>) -> (r: (usize, usize))
    ensures
        r.0 <= r.1 <= chars@.len(),
        chars@.subrange(r.0 as int, r.1 as int) == trim_end(trim_start(chars@)),
{
    let ghost cl = chars@;
    let n = chars.len();
    let mut lo: usize = 0;
    proof {
        assert(cl.subrange(0, n as int) =~= cl);
    }
    while lo < n && is_whitespace(chars[lo])
        invariant
            cl == chars@,
            n == cl.len(),
            lo <= n,
            trim_start(cl) == trim_start(cl.subrange(lo as int, n as int)),
        decreases n - lo,
    {
        proof {
            assert(cl.subrange(lo as int, n as int).drop_first() =~= cl.subrange(lo + 1, n as int));
        }
        lo = lo + 1;
    }
    let mut hi: usize = n;
    proof {
        assert(trim_start(cl) == cl.subrange(lo as int, n as int));
    }
    while hi > lo && is_whitespace(chars[hi - 1])
        invariant
            cl == chars@,
            n == cl.len(),
            lo <= hi <= n,
            trim_end(trim_start(cl)) == trim_end(cl.subrange(lo as int, hi as int)),
        decreases hi,
    {
        proof {
            assert(cl.subrange(lo as int, hi as int).drop_last() =~= cl.subrange(lo as int, hi - 1));
        }
        hi = hi - 1;
    }
    (lo, hi)
}

/// Ten to the power `k`.
fn ten_power(k: usize) -> (r: BigUint)
    ensures
        r@ == ten_to(k as nat),
{
    let ten = BigUint::from_u64(10);
    let mut out = BigUint::one();
    let mut i: usize = 0;
    while i < k
        invariant
            i <= k,
            ten@ == 10,
            out@ == ten_to(i as nat),
        decreases k - i,
    {
        out = out.mul(&ten);
        proof {
            assert(ten_to((i + 1) as nat) == 10 * ten_to(i as nat));
        }
        i = i + 1;
    }
    out
}

/// Read the unsigned literal `chars[lo..hi]` as a numerator and a
/// denominator.
fn unsigned_literal(chars: &Vec<char>, lo: usize, hi: usize) -> (r: Option<(BigUint, BigUint)>)
    requires
        lo <= hi <= chars@.len(),
    ensures
        match r {
            Some((n, d)) => unsigned_parts(chars@.subrange(lo as int, hi as int)) == Some((n@, d@)),
            None => unsigned_parts(chars@.subrange(lo as int, hi as int)) is None,
        },
{
    let ghost rest = chars@.subrange(lo as int, hi as int);
    if lo == hi {
        return None;
    }
    match find_char(chars, lo, hi, '/') {
        Some(slash) => {
            proof {
                assert(rest.take(slash - lo) =~= chars@.subrange(lo as int, slash as int));
                assert(rest.skip(slash - lo + 1) =~= chars@.subrange(slash + 1, hi as int));
            }
            // A fraction may not itself contain a decimal point.
            let num = match BigUint::parse_digits(chars, lo, slash) {
                Some(v) => v,
                None => {
                    return None;
                },
            };
            let den = match BigUint::parse_digits(chars, slash + 1, hi) {
                Some(v) => v,
                None => {
                    return None;
                },
            };
            Some((num, den))
        },
        None => match find_char(chars, lo, hi, '.') {
            None => match BigUint::parse_digits(chars, lo, hi) {
                Some(v) => Some((v, BigUint::one())),
                None => None,
            },
            Some(point) => {
                let ghost whole = rest.take(point - lo);
                let ghost frac = rest.skip(point - lo + 1);
                proof {
                    assert(whole =~= chars@.subrange(lo as int, point as int));
                    assert(frac =~= chars@.subrange(point + 1, hi as int));
                }
                if find_char(chars, point + 1, hi, '.').is_some() {
                    return None;
                }
                // "1.25" is 125/100, then reduced.
                let whole_value = if point == lo {
                    BigUint::zero()
                } else {
                    match BigUint::parse_digits(chars, lo, point) {
                        Some(v) => v,
                        None => {
                            return None;
                        },
                    }
                };
                let frac_value = if point + 1 == hi {
                    BigUint::zero()
                } else {
                    match BigUint::parse_digits(chars, point + 1, hi) {
                        Some(v) => v,
                        None => {
                            return None;
                        },
                    }
                };
                let places = hi - point - 1;
                let scale = ten_power(places);
                proof {
                    lemma_pow_ten(places as nat);
                }
                Some((whole_value.mul(&scale).add(&frac_value), scale))
            },
        },
    }
}

impl Rational {
    /// Parse a literal: an integer, a decimal, or a fraction, with an
    /// optional sign, `_` separators anywhere, and white space around.
    pub fn parse(text: &str) -> (r: Option<Rational>)
        requires
        ensures
            match r {
                Some(x) => literal_value(text@) == Some(x@),
                None => literal_value(text@) is None,
            },
    {
        let chars = chars_of(text);
        let cleaned = without_separators(&chars);
        let (lo, hi) = trimmed_range(&cleaned);
        let ghost body = cleaned@.subrange(lo as int, hi as int);
        let mut negative = false;
        let mut start = lo;
        if lo < hi && cleaned[lo] == '-' {
            negative = true;
            start = lo + 1;
        } else if lo < hi && cleaned[lo] == '+' {
            start = lo + 1;
        }
        let ghost rest = cleaned@.subrange(start as int, hi as int);
        proof {
            assert(split_sign(body) == (negative, rest)) by {
                if start > lo {
                    assert(body.drop_first() =~= rest);
                } else {
                    assert(body =~= rest);
                }
            }
        }
        match unsigned_literal(&cleaned, start, hi) {
            Some((num, den)) => Rational::new(negative, num, den),
            None => None,
        }
    }
}

} // verus!

verus! {

/// Taking out a character that is not there changes nothing.
pub proof fn lemma_remove_absent(s: Seq<char>, c: char)
    requires
        forall|i: int| 0 <= i < s.len() ==> s[i] != c,
    ensures
        remove_char(s, c) == s,
    decreases s.len(),
{
    if s.len() > 0 {
        lemma_remove_absent(s.drop_last(), c);
        assert(s.drop_last().push(s.last()) =~= s);
    }
}

/// Where a character first occurs, when everything before it is different.
pub proof fn lemma_first_index_at(s: Seq<char>, c: char, k: int)
    requires
        0 <= k <= s.len(),
        forall|j: int| 0 <= j < k ==> s[j] != c,
    ensures
        k < s.len() && s[k] == c ==> first_index(s, c) == Some(k as nat),
        k == s.len() ==> first_index(s, c) is None,
{
    lemma_first_index(s, c, k);
}

} // verus!
