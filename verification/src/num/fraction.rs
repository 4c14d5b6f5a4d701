//! Fractions as pairs of a signed numerator and a positive denominator, the
//! model that `Rational` is specified over, and the facts about lowest terms
//! that make its equality structural.
use vstd::prelude::*;
use vstd::arithmetic::div_mod::*;
use vstd::arithmetic::mul::*;

use crate::num::gcd::{
    divides, gcd_of, lemma_divisor_le, lemma_gcd_divides, lemma_gcd_greatest,
    lemma_gcd_pos, lemma_gcd_scale,
};

verus! {

/// The size of an integer.
pub open spec fn magnitude(n: int) -> nat {
    if n < 0 {
        (-n) as nat
    } else {
        n as nat
    }
}

/// A magnitude with a sign put back.
pub open spec fn signed(negative: bool, m: nat) -> int {
    if negative {
        -m
    } else {
        m as int
    }
}

/// In lowest terms: a positive denominator sharing no factor with the
/// numerator. Zero is `0/1`.
pub open spec fn lowest_terms(f: (int, nat)) -> bool {
    f.1 > 0 && gcd_of(magnitude(f.0), f.1) == 1
}

/// `n/d` reduced to lowest terms.
pub open spec fn reduce(n: int, d: nat) -> (int, nat) {
    let g = gcd_of(magnitude(n), d);
    (signed(n < 0, magnitude(n) / g), d / g)
}

/// Two fractions name the same number.
pub open spec fn same_value(a: (int, nat), b: (int, nat)) -> bool {
    a.0 * b.1 == b.0 * a.1
}

/// The sum, in lowest terms.
pub open spec fn frac_add(a: (int, nat), b: (int, nat)) -> (int, nat) {
    reduce(a.0 * b.1 + b.0 * a.1, a.1 * b.1)
}

/// The negation.
pub open spec fn frac_neg(a: (int, nat)) -> (int, nat) {
    (-a.0, a.1)
}

/// The difference, in lowest terms.
pub open spec fn frac_sub(a: (int, nat), b: (int, nat)) -> (int, nat) {
    frac_add(a, frac_neg(b))
}

/// The product, in lowest terms.
pub open spec fn frac_mul(a: (int, nat), b: (int, nat)) -> (int, nat) {
    reduce(a.0 * b.0, a.1 * b.1)
}

/// The quotient, in lowest terms, for a non-zero divisor.
pub open spec fn frac_div(a: (int, nat), b: (int, nat)) -> (int, nat) {
    reduce(signed(b.0 < 0, 1) * a.0 * b.1, a.1 * magnitude(b.0))
}

/// Integer division rounded toward zero.
pub open spec fn trunc_div(n: int, d: nat) -> int {
    signed(n < 0, magnitude(n) / d)
}

/// The integer part, rounded toward zero.
pub open spec fn frac_trunc(a: (int, nat)) -> (int, nat) {
    (trunc_div(a.0, a.1), 1)
}

/// The truncated remainder: `a - b * trunc(a / b)`.
pub open spec fn frac_rem(a: (int, nat), b: (int, nat)) -> (int, nat) {
    frac_sub(a, frac_mul(b, frac_trunc(frac_div(a, b))))
}

proof fn lemma_magnitude(n: int)
    ensures
        n == signed(n < 0, magnitude(n)),
        magnitude(n) == 0 <==> n == 0,
{
}

/// Reducing gives a fraction in lowest terms with the same value.
pub proof fn lemma_reduce(n: int, d: nat)
    requires
        d > 0,
    ensures
        lowest_terms(reduce(n, d)),
        same_value(reduce(n, d), (n, d)),
        reduce(n, d).0 == 0 <==> n == 0,
{
    let m = magnitude(n);
    let g = gcd_of(m, d);
    lemma_gcd_pos(m, d);
    lemma_gcd_divides(m, d);
    lemma_fundamental_div_mod(m as int, g as int);
    lemma_fundamental_div_mod(d as int, g as int);
    let a = m / g;
    let b = d / g;
    assert(m == g * a);
    assert(d == g * b);
    lemma_gcd_scale(a, b, g);
    assert(g * gcd_of(a, b) == g * 1);
    lemma_mul_equality_converse(g as int, gcd_of(a, b) as int, 1);
    assert(b > 0) by (nonlinear_arith)
        requires
            d == g * b,
            d > 0,
    ;
    assert(magnitude(signed(n < 0, a)) == a);
    let r = reduce(n, d);
    assert(r.0 * d == n * b) by (nonlinear_arith)
        requires
            r.0 == signed(n < 0, a),
            n == signed(n < 0, m),
            m == g * a,
            d == g * b,
    ;
    lemma_magnitude(n);
    if n != 0 {
        assert(a > 0) by (nonlinear_arith)
            requires
                m == g * a,
                m > 0,
        ;
    }
}

/// Equal fractions in lowest terms are the same pair: this is why two
/// numbers kept in lowest terms are equal exactly when their parts are.
pub proof fn lemma_lowest_terms_unique(a: (int, nat), b: (int, nat))
    requires
        lowest_terms(a),
        lowest_terms(b),
        same_value(a, b),
    ensures
        a == b,
{
    lemma_denominator_divides(a, b);
    lemma_denominator_divides(b, a);
    lemma_divisor_le(a.1, b.1);
    lemma_divisor_le(b.1, a.1);
    assert(a.1 == b.1);
    assert(a.1 * a.0 == a.1 * b.0) by (nonlinear_arith)
        requires
            a.0 * b.1 == b.0 * a.1,
            a.1 == b.1,
    ;
    lemma_mul_equality_converse(a.1 as int, a.0, b.0);
}

/// In `a = b`, the denominator of `a` divides that of `b`.
proof fn lemma_denominator_divides(a: (int, nat), b: (int, nat))
    requires
        lowest_terms(a),
        b.1 > 0,
        same_value(a, b),
    ensures
        divides(a.1, b.1),
{
    let na = magnitude(a.0);
    let nb = magnitude(b.0);
    assert(na * b.1 == nb * a.1) by (nonlinear_arith)
        requires
            a.0 * b.1 == b.0 * a.1,
            na == magnitude(a.0),
            nb == magnitude(b.0),
            a.1 > 0,
            b.1 > 0,
    ;
    lemma_gcd_scale(na, a.1, b.1);
    assert(b.1 * gcd_of(na, a.1) == b.1);
    // a.1 divides b.1 * na = nb * a.1, and b.1 * a.1.
    lemma_mod_multiples_basic(nb as int, a.1 as int);
    lemma_mod_multiples_basic(b.1 as int, a.1 as int);
    assert(b.1 * na == nb * a.1) by (nonlinear_arith)
        requires
            na * b.1 == nb * a.1,
    ;
    lemma_gcd_greatest(b.1 * na, b.1 * a.1, a.1);
}

/// Fractions with the same value reduce to the same pair.
pub proof fn lemma_reduce_same(n1: int, d1: nat, n2: int, d2: nat)
    requires
        d1 > 0,
        d2 > 0,
        n1 * d2 == n2 * d1,
    ensures
        reduce(n1, d1) == reduce(n2, d2),
{
    lemma_reduce(n1, d1);
    lemma_reduce(n2, d2);
    let r1 = reduce(n1, d1);
    let r2 = reduce(n2, d2);
    // r1 ~ (n1, d1) ~ (n2, d2) ~ r2, and every denominator is positive.
    assert(r1.0 * r2.1 == r2.0 * r1.1) by (nonlinear_arith)
        requires
            r1.0 * d1 == n1 * r1.1,
            r2.0 * d2 == n2 * r2.1,
            n1 * d2 == n2 * d1,
            d1 > 0,
            d2 > 0,
    ;
    lemma_lowest_terms_unique(r1, r2);
}

/// A fraction already in lowest terms reduces to itself.
pub proof fn lemma_reduce_lowest(a: (int, nat))
    requires
        lowest_terms(a),
    ensures
        reduce(a.0, a.1) == a,
{
    lemma_reduce(a.0, a.1);
    lemma_lowest_terms_unique(reduce(a.0, a.1), a);
}

} // verus!
