//! Decimal text for unsigned integers: reading digits in, writing them out.
use vstd::prelude::*;
use vstd::arithmetic::div_mod::*;
use vstd::arithmetic::mul::*;

use crate::num::uint::BigUint;
use crate::text::chars_of;

verus! {

broadcast use vstd::string::group_string_axioms;

/// An ASCII decimal digit.
pub open spec fn is_digit(c: char) -> bool {
    '0' <= c && c <= '9'
}

/// What a digit character stands for.
pub open spec fn digit_of(c: char) -> nat {
    (c as int - '0' as int) as nat
}

/// The character of a digit below ten.
pub open spec fn digit_char(d: nat) -> char {
    ('0' as int + d) as char
}

/// Every character is a digit.
pub open spec fn all_digits(s: Seq<char>) -> bool {
    forall|i: int| 0 <= i < s.len() ==> is_digit(#[trigger] s[i])
}

/// The number a string of digits spells, most significant first.
pub open spec fn decimal_value(s: Seq<char>) -> nat
    decreases s.len(),
{
    if s.len() == 0 {
        0
    } else {
        decimal_value(s.drop_last()) * 10 + digit_of(s.last())
    }
}

/// The usual decimal spelling of `n`: no leading zeros, and `0` for zero.
pub open spec fn decimal_chars(n: nat) -> Seq<char>
    decreases n,
{
    if n < 10 {
        seq![digit_char(n)]
    } else {
        decimal_chars(n / 10).push(digit_char(n % 10))
    }
}

/// The last `k` decimal digits of `x`, padded with zeros on the left.
pub open spec fn padded_digits(x: nat, k: nat) -> Seq<char>
    decreases k,
{
    if k == 0 {
        Seq::empty()
    } else {
        padded_digits(x / 10, (k - 1) as nat).push(digit_char(x % 10))
    }
}

/// Ten to the `k`.
pub open spec fn ten_to(k: nat) -> nat
    decreases k,
{
    if k == 0 {
        1
    } else {
        10 * ten_to((k - 1) as nat)
    }
}

/// A spelling is canonical when it is the one `decimal_chars` gives: digits
/// only, at least one, and no leading zero unless it is the only digit.
pub open spec fn canonical_decimal(s: Seq<char>) -> bool {
    &&& s.len() > 0
    &&& all_digits(s)
    &&& (s[0] == '0' ==> s.len() == 1)
}

proof fn lemma_digit_char(d: nat)
    requires
        d < 10,
    ensures
        is_digit(digit_char(d)),
        digit_of(digit_char(d)) == d,
{
}

pub proof fn lemma_ten_to_pos(k: nat)
    ensures
        ten_to(k) > 0,
    decreases k,
{
    if k > 0 {
        lemma_ten_to_pos((k - 1) as nat);
    }
}

/// Spelling `a` followed by `k` padded digits of `r` spells `a * 10^k + r`.
pub proof fn lemma_decimal_concat(a: nat, r: nat, k: nat)
    requires
        a > 0,
        r < ten_to(k),
    ensures
        decimal_chars(a * ten_to(k) + r) == decimal_chars(a) + padded_digits(r, k),
    decreases k,
{
    if k == 0 {
        assert(padded_digits(r, 0) =~= Seq::<char>::empty());
        assert(decimal_chars(a) + padded_digits(r, 0) =~= decimal_chars(a));
    } else {
        let n = a * ten_to(k) + r;
        let t = ten_to((k - 1) as nat);
        lemma_ten_to_pos((k - 1) as nat);
        assert(ten_to(k) == 10 * t);
        assert(r / 10 < t) by {
            lemma_div_strict_upper_bound(r, t);
        }
        lemma_fundamental_div_mod(r as int, 10);
        assert(n == (a * t + r / 10) * 10 + r % 10) by (nonlinear_arith)
            requires
                n == a * (10 * t) + r,
                r == 10 * (r / 10) + r % 10,
        ;
        lemma_mod_bound(r as int, 10);
        lemma_fundamental_div_mod_converse(n as int, 10, (a * t + r / 10) as int, (r % 10) as int);
        assert(a * t >= 1) by (nonlinear_arith)
            requires
                a > 0,
                t > 0,
        ;
        assert(n >= 10);
        lemma_decimal_concat(a, r / 10, (k - 1) as nat);
        assert(decimal_chars(n) == decimal_chars(n / 10).push(digit_char(n % 10)));
        assert(decimal_chars(a) + padded_digits(r, k) =~= (decimal_chars(a) + padded_digits(r / 10, (k - 1) as nat)).push(
            digit_char(r % 10),
        ));
    }
}

proof fn lemma_div_strict_upper_bound(r: nat, t: nat)
    requires
        r < 10 * t,
    ensures
        r / 10 < t,
{
    lemma_fundamental_div_mod(r as int, 10);
}

/// The spelling of `n` has digits only, and reads back as `n`.
pub proof fn lemma_decimal_round_trip(n: nat)
    ensures
        canonical_decimal(decimal_chars(n)),
        decimal_value(decimal_chars(n)) == n,
    decreases n,
{
    if n < 10 {
        lemma_digit_char(n);
        let s = decimal_chars(n);
        assert(s.drop_last() =~= Seq::<char>::empty());
        assert(decimal_value(s) == decimal_value(s.drop_last()) * 10 + digit_of(s.last()));
    } else {
        lemma_decimal_round_trip(n / 10);
        lemma_digit_char(n % 10);
        let s = decimal_chars(n);
        let p = decimal_chars(n / 10);
        assert(s.drop_last() =~= p);
        lemma_fundamental_div_mod(n as int, 10);
        assert(s[0] == p[0]);
        if p[0] == '0' {
            assert(n / 10 == 0) by {
                if n / 10 > 0 {
                    lemma_leading_digit(n / 10);
                }
            }
        }
    }
}

/// The spelling of a positive number does not start with zero.
proof fn lemma_leading_digit(n: nat)
    requires
        n > 0,
    ensures
        decimal_chars(n)[0] != '0',
    decreases n,
{
    if n < 10 {
    } else {
        lemma_leading_digit(n / 10);
        assert(decimal_chars(n)[0] == decimal_chars(n / 10)[0]);
    }
}

/// A canonical spelling is the spelling of the number it reads as.
pub proof fn lemma_canonical_decimal(s: Seq<char>)
    requires
        canonical_decimal(s),
    ensures
        decimal_chars(decimal_value(s)) == s,
    decreases s.len(),
{
    let v = decimal_value(s);
    let last = s.last();
    assert(is_digit(last));
    if s.len() == 1 {
        assert(s.drop_last() =~= Seq::<char>::empty());
        assert(decimal_value(s.drop_last()) == 0);
        assert(v == digit_of(last));
        assert(digit_char(digit_of(last)) == last);
        assert(decimal_chars(v) =~= s);
    } else {
        let p = s.drop_last();
        assert(p[0] == s[0]);
        assert(canonical_decimal(p));
        lemma_canonical_decimal(p);
        let pv = decimal_value(p);
        lemma_value_positive(p);
        let d = digit_of(last);
        assert(v == pv * 10 + d);
        lemma_fundamental_div_mod_converse(v as int, 10, pv as int, d as int);
        assert(digit_char(d) == last);
        assert(decimal_chars(v) == decimal_chars(pv).push(digit_char(d)));
        assert(decimal_chars(v) =~= s);
    }
}

/// A canonical spelling of more than one digit stands for a positive number.
proof fn lemma_value_positive(s: Seq<char>)
    requires
        canonical_decimal(s),
        s[0] != '0',
    ensures
        decimal_value(s) > 0,
    decreases s.len(),
{
    if s.len() == 1 {
        assert(s.drop_last() =~= Seq::<char>::empty());
    } else {
        let p = s.drop_last();
        assert(p[0] == s[0]);
        lemma_value_positive(p);
    }
}

} // verus!

verus! {

/// The value of a digit character.
fn digit_value(c: char) -> (r: u32)
    requires
        is_digit(c),
    ensures
        r == digit_of(c),
{
    (c as u32) - 48
}

/// The one-character string of a digit.
pub(crate) fn digit_str(d: u32) -> (r: &'static str)
    requires
        d < 10,
    ensures
        r@ == seq![digit_char(d as nat)],
{
    proof {
        reveal_strlit("0");
        reveal_strlit("1");
        reveal_strlit("2");
        reveal_strlit("3");
        reveal_strlit("4");
        reveal_strlit("5");
        reveal_strlit("6");
        reveal_strlit("7");
        reveal_strlit("8");
        reveal_strlit("9");
    }
    let r = if d == 0 {
        "0"
    } else if d == 1 {
        "1"
    } else if d == 2 {
        "2"
    } else if d == 3 {
        "3"
    } else if d == 4 {
        "4"
    } else if d == 5 {
        "5"
    } else if d == 6 {
        "6"
    } else if d == 7 {
        "7"
    } else if d == 8 {
        "8"
    } else {
        "9"
    };
    proof {
        assert(r@ =~= seq![digit_char(d as nat)]);
    }
    r
}

/// Append the decimal spelling of `x`.
pub(crate) fn push_decimal(out: &mut String, x: u128)
    ensures
        final(out)@ == old(out)@ + decimal_chars(x as nat),
    decreases x,
{
    if x >= 10 {
        push_decimal(out, x / 10);
    }
    out.append(digit_str((x % 10) as u32));
    proof {
        if x >= 10 {
            assert(old(out)@ + decimal_chars(x as nat) =~= old(out)@ + decimal_chars((x / 10) as nat)
                + seq![digit_char((x % 10) as nat)]);
        } else {
            assert(decimal_chars(x as nat) == seq![digit_char(x as nat)]);
        }
    }
}

/// Append the last `k` decimal digits of `x`, padded with zeros.
fn push_padded(out: &mut String, x: u32, k: u32)
    ensures
        final(out)@ == old(out)@ + padded_digits(x as nat, k as nat),
    decreases k,
{
    if k > 0 {
        push_padded(out, x / 10, k - 1);
        out.append(digit_str(x % 10));
        proof {
            assert(old(out)@ + padded_digits(x as nat, k as nat) =~= old(out)@ + padded_digits(
                (x / 10) as nat,
                (k - 1) as nat,
            ) + seq![digit_char((x % 10) as nat)]);
        }
    } else {
        proof {
            assert(old(out)@ + padded_digits(x as nat, 0) =~= old(out)@);
        }
    }
}

/// The number the base-`10^9` chunks spell, least significant first.
pub open spec fn chunks_value(c: Seq<u32>) -> nat
    decreases c.len(),
{
    if c.len() == 0 {
        0
    } else {
        chunks_value(c.drop_last()) + (c.last() as nat) * ten_to((9 * (c.len() - 1)) as nat)
    }
}

proof fn lemma_ten_to_adds(j: nat, k: nat)
    ensures
        ten_to(j + k) == ten_to(j) * ten_to(k),
    decreases k,
{
    if k == 0 {
        assert(ten_to(0) == 1);
        assert(ten_to(j) * 1 == ten_to(j));
    } else {
        lemma_ten_to_adds(j, (k - 1) as nat);
        assert((j + k - 1) as nat == j + (k - 1) as nat);
        assert(ten_to(j + k) == 10 * ten_to((j + k - 1) as nat));
        assert(ten_to(j) * (10 * ten_to((k - 1) as nat)) == 10 * (ten_to(j) * ten_to((k - 1) as nat)))
            by (nonlinear_arith);
    }
}

proof fn lemma_ten_to_nine()
    ensures
        ten_to(9) == 1_000_000_000,
{
    reveal_with_fuel(ten_to, 10);
}

/// The chunks below the top, and the top one at its weight.
proof fn lemma_chunks_push(c: Seq<u32>, x: u32)
    ensures
        chunks_value(c.push(x)) == chunks_value(c) + x * ten_to(9 * c.len()),
{
    assert(c.push(x).drop_last() =~= c);
}

/// The chunks are all below `10^9`, so their value is below the next weight.
proof fn lemma_chunks_bound(c: Seq<u32>)
    requires
        forall|i: int| 0 <= i < c.len() ==> c[i] < 1_000_000_000,
    ensures
        chunks_value(c) < ten_to(9 * c.len()),
    decreases c.len(),
{
    lemma_ten_to_nine();
    if c.len() > 0 {
        let p = c.drop_last();
        lemma_chunks_bound(p);
        let w = ten_to(9 * p.len());
        lemma_ten_to_adds(9 * p.len(), 9);
        assert(9 * c.len() == 9 * p.len() + 9);
        assert(chunks_value(p) + c.last() * w < w * 1_000_000_000) by (nonlinear_arith)
            requires
                chunks_value(p) < w,
                c.last() < 1_000_000_000,
        ;
    }
}

impl BigUint {
    /// Read a string of decimal digits. `None` unless there is at least one
    /// character and every character is a digit.
    pub fn parse_decimal(text: &str) -> (r: Option<BigUint>)
        ensures
            r is Some <==> text@.len() > 0 && all_digits(text@),
            r matches Some(v) ==> v@ == decimal_value(text@),
    {
        let chars = chars_of(text);
        proof {
            assert(chars@.subrange(0, chars@.len() as int) =~= text@);
        }
        BigUint::parse_digits(&chars, 0, chars.len())
    }

    /// Read the digits `chars[lo..hi]`. `None` unless the range is not empty
    /// and holds only digits.
    pub(crate) fn parse_digits(chars: &Vec<char>, lo: usize, hi: usize) -> (r: Option<BigUint>)
        requires
            lo <= hi <= chars@.len(),
        ensures
            r is Some <==> hi > lo && all_digits(chars@.subrange(lo as int, hi as int)),
            r matches Some(v) ==> v@ == decimal_value(chars@.subrange(lo as int, hi as int)),
    {
        let ghost s = chars@.subrange(lo as int, hi as int);
        if lo == hi {
            return None;
        }
        let mut i: usize = lo;
        while i < hi
            invariant
                lo <= i <= hi <= chars@.len(),
                s == chars@.subrange(lo as int, hi as int),
                forall|j: int| 0 <= j < i - lo ==> is_digit(#[trigger] s[j]),
            decreases hi - i,
        {
            let c = chars[i];
            if c < '0' || c > '9' {
                proof {
                    assert(!is_digit(s[i - lo]));
                }
                return None;
            }
            proof {
                assert(is_digit(s[i - lo]));
            }
            i = i + 1;
        }
        let mut out = BigUint::zero();
        i = lo;
        proof {
            assert(s.subrange(0, 0) =~= Seq::<char>::empty());
        }
        while i < hi
            invariant
                lo <= i <= hi <= chars@.len(),
                s == chars@.subrange(lo as int, hi as int),
                all_digits(s),
                out@ == decimal_value(s.subrange(0, i - lo)),
            decreases hi - i,
        {
            let c = chars[i];
            proof {
                assert(is_digit(s[i - lo]));
                let t = s.subrange(0, i - lo + 1);
                assert(t.drop_last() =~= s.subrange(0, i - lo));
                assert(t.last() == s[i - lo]);
            }
            out = out.mul_small_add(10, digit_value(c));
            i = i + 1;
        }
        proof {
            assert(s.subrange(0, hi - lo) =~= s);
        }
        Some(out)
    }

    /// The decimal spelling: no leading zeros, and `0` for zero.
    pub fn to_decimal(&self) -> (r: String)
        ensures
            r@ == decimal_chars(self@),
    {
        if self.is_zero() {
            let mut out = String::new();
            out.append(digit_str(0));
            proof {
                assert(out@ =~= decimal_chars(0));
            }
            return out;
        }
        // Nine digits at a time: the largest power of ten inside a limb.
        let mut digits: Vec<u32> = Vec::new();
        let mut v = self.clone();
        proof {
            lemma_ten_to_nine();
            assert(ten_to(0) == 1);
            assert(9 * digits@.len() == 0);
            assert(chunks_value(digits@) == 0);
            assert(v@ == self@);
        }
        while !v.is_zero()
            invariant
                self@ > 0,
                ten_to(9) == 1_000_000_000,
                self@ == v@ * ten_to(9 * digits@.len()) + chunks_value(digits@),
                forall|i: int| 0 <= i < digits@.len() ==> digits@[i] < 1_000_000_000,
                v@ == 0 ==> digits@.len() > 0 && digits@.last() > 0,
            decreases v@,
        {
            let (q, r) = v.divmod_small(1_000_000_000);
            proof {
                let k = 9 * digits@.len();
                lemma_fundamental_div_mod(v@ as int, 1_000_000_000);
                lemma_mod_bound(v@ as int, 1_000_000_000);
                lemma_chunks_push(digits@, r);
                lemma_ten_to_adds(k, 9);
                assert(9 * (digits@.len() + 1) == k + 9);
                let w = ten_to(k);
                assert(v@ * w == q@ * (w * 1_000_000_000) + r * w) by (nonlinear_arith)
                    requires
                        v@ == 1_000_000_000 * q@ + r,
                ;
                lemma_mul_is_commutative(w as int, 1_000_000_000);
                if q@ == 0 {
                    assert(r == v@);
                }
            }
            digits.push(r);
            v = q;
        }
        let ghost total = self@;
        let top = digits.pop().unwrap();
        let mut out = String::new();
        push_decimal(&mut out, top as u128);
        let ghost mut high: nat = top as nat;
        proof {
            lemma_chunks_push(digits@, top);
            assert(v@ == 0);
            assert(out@ =~= decimal_chars(high));
        }
        while digits.len() > 0
            invariant
                ten_to(9) == 1_000_000_000,
                high > 0,
                out@ == decimal_chars(high),
                total == high * ten_to(9 * digits@.len()) + chunks_value(digits@),
                forall|i: int| 0 <= i < digits@.len() ==> digits@[i] < 1_000_000_000,
            decreases digits@.len(),
        {
            let chunk = digits.pop().unwrap();
            proof {
                let m = digits@.len();
                lemma_chunks_push(digits@, chunk);
                lemma_ten_to_adds(9, 9 * m);
                assert(9 * (m + 1) == 9 + 9 * m);
                let w = ten_to(9 * m);
                assert(high * (1_000_000_000 * w) + chunk * w == (high * 1_000_000_000 + chunk) * w)
                    by (nonlinear_arith);
                lemma_decimal_concat(high, chunk as nat, 9);
                assert(high * 1_000_000_000 + chunk > 0) by (nonlinear_arith)
                    requires
                        high > 0,
                ;
            }
            push_padded(&mut out, chunk, 9);
            proof {
                high = high * 1_000_000_000 + chunk as nat;
            }
        }
        proof {
            assert(ten_to(0) == 1);
            assert(digits@ =~= Seq::<u32>::empty());
            assert(9 * digits@.len() == 0);
            assert(chunks_value(digits@) == 0);
            assert(ten_to(9 * digits@.len()) == 1);
            assert(high * ten_to(9 * digits@.len()) == high) by (nonlinear_arith)
                requires
                    ten_to(9 * digits@.len()) == 1,
            ;
            assert(total == high * ten_to(9 * digits@.len()) + chunks_value(digits@));
            assert(total == high);
        }
        out
    }
}

} // verus!

verus! {

/// Reading two runs of digits one after the other.
pub proof fn lemma_decimal_value_concat(a: Seq<char>, b: Seq<char>)
    ensures
        decimal_value(a + b) == decimal_value(a) * ten_to(b.len()) + decimal_value(b),
    decreases b.len(),
{
    if b.len() == 0 {
        assert(a + b =~= a);
        assert(decimal_value(a) * 1 == decimal_value(a));
    } else {
        let b0 = b.drop_last();
        lemma_decimal_value_concat(a, b0);
        assert((a + b).drop_last() =~= a + b0);
        assert((a + b).last() == b.last());
        let t = ten_to(b0.len());
        assert(ten_to(b.len()) == 10 * t);
        let va = decimal_value(a);
        let vb0 = decimal_value(b0);
        assert((va * t + vb0) * 10 == va * (10 * t) + vb0 * 10) by (nonlinear_arith);
    }
}

/// Leading zeros read as nothing.
pub proof fn lemma_zero_digits_value(s: Seq<char>)
    requires
        forall|i: int| 0 <= i < s.len() ==> s[i] == '0',
    ensures
        decimal_value(s) == 0,
    decreases s.len(),
{
    if s.len() > 0 {
        lemma_zero_digits_value(s.drop_last());
    }
}

} // verus!
