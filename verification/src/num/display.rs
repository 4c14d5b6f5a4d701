//! Writing rational numbers out exactly, in a form that reads back in.
use vstd::prelude::*;
use vstd::arithmetic::power::pow;

use crate::num::decimal::{
    all_digits, canonical_decimal, decimal_chars, decimal_value, is_digit, lemma_decimal_round_trip,
    lemma_decimal_value_concat, lemma_ten_to_pos, lemma_zero_digits_value, ten_to,
};
use crate::num::fraction::{lemma_reduce_lowest, lemma_reduce_same, lowest_terms, magnitude, reduce, signed};
use crate::num::literal::{
    first_index, lemma_first_index_at, lemma_pow_ten, lemma_remove_absent, literal_value, split_sign, trim_end,
    trim_start, unsigned_parts, white_space,
};
use crate::num::limbs::bit_len;
use crate::num::rational::Rational;
use crate::num::uint::{lemma_bit_len_mono, lemma_multiplicity_bits, lemma_multiplicity_split, multiplicity, BigUint};

verus! {

broadcast use vstd::string::group_string_axioms;

/// `k` zero characters.
pub open spec fn zeros(k: nat) -> Seq<char> {
    Seq::new(k, |i: int| '0')
}

/// The digits of a terminating decimal, with enough leading zeros that at
/// least one digit stands before the point.
pub open spec fn pad_to(digits: Seq<char>, places: nat) -> Seq<char> {
    if digits.len() <= places {
        zeros((places - digits.len() + 1) as nat) + digits
    } else {
        digits
    }
}

/// How a non-negative rational number `n/d` is written: an integer as its
/// digits; a fraction whose denominator has no prime factor but two and five
/// as a terminating decimal; any other as `n/d`.
pub open spec fn unsigned_display(n: nat, d: nat) -> Seq<char> {
    let twos = multiplicity(d, 2);
    let rest = d / (pow(2, twos) as nat);
    let fives = multiplicity(rest, 5);
    if d == 1 {
        decimal_chars(n)
    } else if rest / (pow(5, fives) as nat) != 1 {
        decimal_chars(n) + seq!['/'] + decimal_chars(d)
    } else {
        let places = if twos > fives {
            twos
        } else {
            fives
        };
        let extra = pow(2, (places - twos) as nat) * pow(5, (places - fives) as nat);
        let padded = pad_to(decimal_chars((n * extra) as nat), places);
        let split = padded.len() - places;
        padded.take(split) + seq!['.'] + padded.skip(split)
    }
}

/// How a rational number is written: a leading `-` when it is negative,
/// then its magnitude.
pub open spec fn display_chars(f: (int, nat)) -> Seq<char> {
    let sign = if f.0 < 0 {
        seq!['-']
    } else {
        Seq::<char>::empty()
    };
    sign + unsigned_display(magnitude(f.0), f.1)
}

/// Digits are ASCII.
proof fn lemma_decimal_ascii(n: nat)
    ensures
        vstd::utf8::is_ascii_chars(decimal_chars(n)),
{
    lemma_decimal_round_trip(n);
    let s = decimal_chars(n);
    assert forall|i: int| 0 <= i < s.len() implies '\0' <= #[trigger] s[i] <= '\u{7f}' by {
        assert(crate::num::decimal::is_digit(s[i]));
    }
}

/// The decimal spelling of a number, and that it is ASCII.
fn decimal_string(v: &BigUint) -> (r: String)
    ensures
        r@ == decimal_chars(v@),
        r.is_ascii(),
{
    let s = v.to_decimal();
    proof {
        lemma_decimal_ascii(v@);
    }
    s
}

/// Append `k` zeros.
fn push_zeros(out: &mut String, k: usize)
    ensures
        final(out)@ == old(out)@ + zeros(k as nat),
{
    let mut i: usize = 0;
    proof {
        reveal_strlit("0");
        assert(old(out)@ + zeros(0) =~= old(out)@);
    }
    while i < k
        invariant
            i <= k,
            out@ == old(out)@ + zeros(i as nat),
            "0"@ == seq!['0'],
        decreases k - i,
    {
        out.append("0");
        proof {
            assert(old(out)@ + zeros((i + 1) as nat) =~= old(out)@ + zeros(i as nat) + seq!['0']);
        }
        i = i + 1;
    }
}

/// Digits with a decimal point put in front of the last `places` of them.
pub open spec fn with_point(digits: Seq<char>, places: nat) -> Seq<char> {
    let padded = pad_to(digits, places);
    let split = padded.len() - places;
    padded.take(split) + seq!['.'] + padded.skip(split)
}

/// Write `digits` with a decimal point before the last `places` of them.
fn point_string(digits: &String, places: usize) -> (r: String)
    requires
        digits.is_ascii(),
    ensures
        r@ == with_point(digits@, places as nat),
{
    proof {
        reveal_strlit(".");
        reveal_strlit("0");
    }
    let len = digits.as_str().unicode_len();
    let mut out = String::new();
    if len <= places {
        out.append("0");
        out.append(".");
        push_zeros(&mut out, places - len);
        out.append(digits.as_str());
        proof {
            let padded = pad_to(digits@, places as nat);
            assert(padded =~= zeros((places - len + 1) as nat) + digits@);
            assert(padded.take(1) =~= seq!['0']);
            assert(padded.skip(1) =~= zeros((places - len) as nat) + digits@);
            assert(out@ =~= with_point(digits@, places as nat));
        }
    } else {
        let split = len - places;
        out.append(digits.as_str().substring_ascii(0, split));
        out.append(".");
        out.append(digits.as_str().substring_ascii(split, len));
        proof {
            assert(out@ =~= with_point(digits@, places as nat));
        }
    }
    out
}

/// Write the non-negative number `num/den`.
fn unsigned_string(num: &BigUint, den: &BigUint) -> (r: String)
    requires
        den@ > 0,
        bit_len(den@) <= u32::MAX,
    ensures
        r@ == unsigned_display(num@, den@),
{
    proof {
        reveal_strlit("/");
    }
    if den.is_one() {
        return decimal_string(num);
    }
    proof {
        lemma_multiplicity_bits(den@, 2);
    }
    let (rest, twos) = den.factor_out(2);
    proof {
        vstd::arithmetic::power::lemma_pow_positive(2, twos as nat);
        vstd::arithmetic::div_mod::lemma_div_by_multiple(rest@ as int, pow(2, twos as nat));
        assert(rest@ <= den@) by (nonlinear_arith)
            requires
                den@ == rest@ * pow(2, twos as nat),
                pow(2, twos as nat) > 0,
                den@ > 0,
        ;
        lemma_bit_len_mono(rest@, den@);
    }
    let ghost rest1 = rest@;
    proof {
        lemma_multiplicity_bits(rest@, 5);
    }
    let (rest, fives) = rest.factor_out(5);
    proof {
        vstd::arithmetic::power::lemma_pow_positive(5, fives as nat);
        vstd::arithmetic::div_mod::lemma_div_by_multiple(rest@ as int, pow(5, fives as nat));
        assert(rest1 / (pow(5, fives as nat) as nat) == rest@);
    }
    if !rest.is_one() {
        let mut out = decimal_string(num);
        let d = decimal_string(den);
        out.append("/");
        out.append(d.as_str());
        return out;
    }
    // Scale up to a denominator of exactly 10^places.
    let places = if twos > fives {
        twos
    } else {
        fives
    };
    let extra = BigUint::pow_small(2, places - twos).mul(&BigUint::pow_small(5, places - fives));
    let digits = decimal_string(&num.mul(&extra));
    point_string(&digits, places as usize)
}

impl Rational {
    /// Write the number exactly, in a form that reads back as the same
    /// number.
    ///
    /// A fraction whose denominator is only twos and fives has a terminating
    /// decimal expansion, and reads better as one. Anything else is written
    /// as a fraction, because no decimal would be exact.
    pub fn to_string(&self) -> (r: String)
        requires
            bit_len(self@.1) <= u32::MAX,
        ensures
            r@ == display_chars(self@),
    {
        proof {
            reveal_strlit("-");
        }
        let mut out = String::new();
        if self.is_negative() {
            out.append("-");
        }
        let rest = unsigned_string(self.numerator(), self.denominator());
        out.append(rest.as_str());
        proof {
            assert(out@ =~= display_chars(self@));
        }
        out
    }
}

} // verus!

verus! {

/// Characters a written number is made of.
pub open spec fn number_char(c: char) -> bool {
    is_digit(c) || c == '/' || c == '.' || c == '-'
}

proof fn lemma_digits_are_number_chars(s: Seq<char>)
    requires
        all_digits(s),
    ensures
        forall|i: int| 0 <= i < s.len() ==> number_char(#[trigger] s[i]) && s[i] != '/' && s[i] != '.',
{
    assert forall|i: int| 0 <= i < s.len() implies number_char(#[trigger] s[i]) && s[i] != '/' && s[i]
        != '.' by {
        assert(is_digit(s[i]));
    }
}

/// What a written fraction with a point reads back as.
proof fn lemma_point_parts(digits: Seq<char>, places: nat)
    requires
        canonical_decimal(digits),
        places > 0,
    ensures
        ({
            let u = with_point(digits, places);
            &&& u.len() > 0
            &&& is_digit(u[0])
            &&& is_digit(u.last())
            &&& forall|i: int| 0 <= i < u.len() ==> number_char(#[trigger] u[i]) && u[i] != '-'
            &&& unsigned_parts(u) == Some((decimal_value(digits), ten_to(places)))
        }),
{
    let padded = pad_to(digits, places);
    let split = (padded.len() - places) as int;
    let whole = padded.take(split);
    let frac = padded.skip(split);
    let u = with_point(digits, places);
    // The padded digits are all digits and read as the digits.
    if digits.len() <= places {
        let z = zeros((places - digits.len() + 1) as nat);
        assert(padded == z + digits);
        assert forall|i: int| 0 <= i < z.len() implies z[i] == '0' by {}
        lemma_zero_digits_value(z);
        lemma_decimal_value_concat(z, digits);
        assert forall|i: int| 0 <= i < padded.len() implies is_digit(#[trigger] padded[i]) by {
            if i < z.len() {
                assert(padded[i] == '0');
            } else {
                assert(padded[i] == digits[i - z.len()]);
            }
        }
    }
    assert(all_digits(padded));
    assert(decimal_value(padded) == decimal_value(digits));
    assert(padded =~= whole + frac);
    lemma_decimal_value_concat(whole, frac);
    assert(frac.len() == places);
    assert(split >= 1);
    assert(u =~= whole + seq!['.'] + frac);
    assert forall|i: int| 0 <= i < u.len() implies number_char(#[trigger] u[i]) && u[i] != '-' && (i != split
        ==> is_digit(u[i])) by {
        if i < split {
            assert(u[i] == padded[i]);
        } else if i > split {
            assert(u[i] == padded[i - 1]);
        }
    }
    // No slash; the first point is the one put in.
    lemma_first_index_at(u, '/', u.len() as int);
    lemma_first_index_at(u, '.', split);
    assert(u.take(split) =~= whole);
    assert(u.skip(split + 1) =~= frac);
    assert forall|j: int| 0 <= j < frac.len() implies frac[j] != '.' by {
        assert(is_digit(frac[j]));
    }
    lemma_first_index_at(frac, '.', frac.len() as int);
    assert(all_digits(whole));
    assert(all_digits(frac));
    assert(is_digit(u[0]));
    assert(u.last() == frac.last());
    assert(is_digit(u.last()));
}

/// A written non-negative number is plain, starts and ends with a digit, and
/// reads back as a fraction equal to the one written, whatever the sign.
proof fn lemma_unsigned_round_trip(neg: bool, n: nat, d: nat)
    requires
        lowest_terms((signed(neg, n), d)),
        n == 0 ==> !neg,
    ensures
        ({
            let u = unsigned_display(n, d);
            &&& u.len() > 0
            &&& is_digit(u[0])
            &&& is_digit(u.last())
            &&& forall|i: int| 0 <= i < u.len() ==> number_char(#[trigger] u[i]) && u[i] != '-'
            &&& unsigned_parts(u) matches Some((a, b)) && b > 0 && reduce(signed(neg, a), b) == (
                signed(neg, n),
                d,
            )
        }),
{
    let u = unsigned_display(n, d);
    lemma_decimal_round_trip(n);
    lemma_decimal_round_trip(d);
    lemma_reduce_lowest((signed(neg, n), d));
    let twos = multiplicity(d, 2);
    lemma_multiplicity_split(d, 2);
    let p2 = pow(2, twos);
    let rest = d / (p2 as nat);
    let fives = multiplicity(rest, 5);
    lemma_multiplicity_split(rest, 5);
    let p5 = pow(5, fives);
    if d == 1 {
        let dn = decimal_chars(n);
        lemma_digits_are_number_chars(dn);
        lemma_first_index_at(dn, '/', dn.len() as int);
        lemma_first_index_at(dn, '.', dn.len() as int);
        assert(unsigned_parts(u) == Some((n, 1nat)));
    } else if rest / (p5 as nat) != 1 {
        let dn = decimal_chars(n);
        let dd = decimal_chars(d);
        lemma_digits_are_number_chars(dn);
        lemma_digits_are_number_chars(dd);
        assert(u =~= dn + seq!['/'] + dd);
        assert forall|i: int| 0 <= i < u.len() implies number_char(#[trigger] u[i]) && u[i] != '-' by {
            if i < dn.len() {
                assert(u[i] == dn[i]);
            } else if i > dn.len() {
                assert(u[i] == dd[i - dn.len() - 1]);
            }
        }
        lemma_first_index_at(u, '/', dn.len() as int);
        assert(u.take(dn.len() as int) =~= dn);
        assert(u.skip(dn.len() + 1int) =~= dd);
        assert(unsigned_parts(u) == Some((n, d)));
        assert(is_digit(u[0]));
        assert(u.last() == dd.last());
    } else {
        let places = if twos > fives {
            twos
        } else {
            fives
        };
        let e2 = pow(2, (places - twos) as nat);
        let e5 = pow(5, (places - fives) as nat);
        let extra = e2 * e5;
        vstd::arithmetic::power::lemma_pow_positive(2, (places - twos) as nat);
        vstd::arithmetic::power::lemma_pow_positive(5, (places - fives) as nat);
        assert(extra > 0) by (nonlinear_arith)
            requires
                extra == e2 * e5,
                e2 > 0,
                e5 > 0,
        ;
        // d is 2^twos * 5^fives, so d * extra is 10^places.
        assert(rest == p5 * 1);
        assert(d == p2 * p5);
        if places == 0 {
            vstd::arithmetic::power::lemma_pow0(2);
            vstd::arithmetic::power::lemma_pow0(5);
            assert(d == 1);
        }
        let m = (n * extra) as nat;
        lemma_decimal_round_trip(m);
        lemma_point_parts(decimal_chars(m), places);
        vstd::arithmetic::power::lemma_pow_adds(2, twos, (places - twos) as nat);
        vstd::arithmetic::power::lemma_pow_adds(5, fives, (places - fives) as nat);
        vstd::arithmetic::power::lemma_pow_distributes(2, 5, places);
        lemma_pow_ten(places);
        lemma_ten_to_pos(places);
        assert(d * extra == ten_to(places)) by (nonlinear_arith)
            requires
                d == p2 * p5,
                extra == e2 * e5,
                pow(2, places) == p2 * e2,
                pow(5, places) == p5 * e5,
                pow(10, places) == pow(2, places) * pow(5, places),
                pow(10, places) == ten_to(places),
        ;
        assert(signed(neg, m) * d == signed(neg, n) * ten_to(places)) by (nonlinear_arith)
            requires
                m == n * extra,
                d * extra == ten_to(places),
        ;
        lemma_reduce_same(signed(neg, m), ten_to(places), signed(neg, n), d);
    }
}

/// Printing, then parsing what was printed, gives back the same number.
pub proof fn lemma_display_round_trip(f: (int, nat))
    requires
        lowest_terms(f),
    ensures
        literal_value(display_chars(f)) == Some(f),
{
    let neg = f.0 < 0;
    let n = magnitude(f.0);
    assert(f.0 == signed(neg, n));
    let u = unsigned_display(n, f.1);
    let s = display_chars(f);
    lemma_unsigned_round_trip(neg, n, f.1);
    if neg {
        assert(s =~= seq!['-'] + u);
        assert(s.drop_first() =~= u);
        assert(s.last() == u.last());
    } else {
        assert(s =~= u);
    }
    assert forall|i: int| 0 <= i < s.len() implies #[trigger] s[i] != '_' by {
        if neg && i > 0 {
            assert(s[i] == u[i - 1]);
        }
    }
    lemma_remove_absent(s, '_');
    assert(trim_start(s) == s);
    assert(trim_end(s) == s);
    assert(split_sign(s) == (neg, u));
}

} // verus!
