//! Greatest common divisors of natural numbers, by Euclid's algorithm.
use vstd::prelude::*;
use vstd::arithmetic::div_mod::*;
use vstd::arithmetic::mul::*;

verus! {

/// `c` divides `n`; zero divides only zero.
pub open spec fn divides(c: nat, n: nat) -> bool {
    if c == 0 {
        n == 0
    } else {
        n % c == 0
    }
}

/// A multiple of `c` is divisible by it.
proof fn lemma_multiple_divides(c: nat, k: int)
    requires
        k >= 0,
    ensures
        divides(c, (c * k) as nat),
{
    if c > 0 {
        lemma_mod_multiples_basic(k, c as int);
        lemma_mul_is_commutative(k, c as int);
    }
}

/// What `c` divides is `c` times its quotient.
proof fn lemma_divides_exact(c: nat, n: nat)
    requires
        c > 0,
        divides(c, n),
    ensures
        n == c * (n / c),
{
    lemma_fundamental_div_mod(n as int, c as int);
}

/// Euclid's algorithm: the greatest common divisor of `a` and `b`, with
/// `gcd_of(a, 0) == a`.
pub open spec fn gcd_of(a: nat, b: nat) -> nat
    decreases b,
{
    if b == 0 {
        a
    } else {
        gcd_of(b, a % b)
    }
}

/// Divisibility through the remainder: whatever divides `b` and `a % b`
/// divides `a`, and whatever divides `a` and `b` divides `a % b`.
proof fn lemma_divides_mod(a: nat, b: nat, c: nat)
    requires
        b > 0,
        divides(c, b),
    ensures
        divides(c, a % b) ==> divides(c, a),
        divides(c, a) ==> divides(c, a % b),
{
    assert(c > 0);
    lemma_divides_exact(c, b);
    let kb = b / c;
    lemma_fundamental_div_mod(a as int, b as int);
    lemma_mod_bound(a as int, b as int);
    let q = a / b;
    let r = a % b;
    if divides(c, r) {
        lemma_divides_exact(c, r);
        let kr = r / c;
        assert(a == c * (kb * q + kr)) by (nonlinear_arith)
            requires
                b == c * kb,
                r == c * kr,
                a == b * q + r,
        ;
        lemma_multiple_divides(c, (kb * q + kr) as int);
    }
    if divides(c, a) {
        lemma_divides_exact(c, a);
        let ka = a / c;
        assert(r == c * (ka - kb * q)) by (nonlinear_arith)
            requires
                b == c * kb,
                a == c * ka,
                a == b * q + r,
        ;
        assert(ka - kb * q >= 0) by (nonlinear_arith)
            requires
                r == c * (ka - kb * q),
                r >= 0,
                c > 0,
        ;
        lemma_multiple_divides(c, ka - kb * q);
    }
}

/// The greatest common divisor divides both numbers.
pub proof fn lemma_gcd_divides(a: nat, b: nat)
    ensures
        divides(gcd_of(a, b), a),
        divides(gcd_of(a, b), b),
    decreases b,
{
    if b == 0 {
        if a > 0 {
            lemma_mod_self_0(a as int);
            lemma_small_mod(0, a);
        }
    } else {
        lemma_mod_bound(a as int, b as int);
        lemma_gcd_divides(b, a % b);
        lemma_divides_mod(a, b, gcd_of(a, b));
    }
}

/// Every common divisor divides the greatest common divisor.
pub proof fn lemma_gcd_greatest(a: nat, b: nat, c: nat)
    requires
        divides(c, a),
        divides(c, b),
    ensures
        divides(c, gcd_of(a, b)),
    decreases b,
{
    if b > 0 {
        lemma_mod_bound(a as int, b as int);
        lemma_divides_mod(a, b, c);
        lemma_gcd_greatest(b, a % b, c);
    }
}

/// The greatest common divisor is zero only for two zeros.
pub proof fn lemma_gcd_pos(a: nat, b: nat)
    requires
        a > 0 || b > 0,
    ensures
        gcd_of(a, b) > 0,
        gcd_of(a, b) <= a || a == 0,
        gcd_of(a, b) <= b || b == 0,
{
    lemma_gcd_divides(a, b);
    let g = gcd_of(a, b);
    lemma_divisor_le(g, a);
    lemma_divisor_le(g, b);
}

/// A divisor of a positive number is no larger than it.
pub proof fn lemma_divisor_le(c: nat, n: nat)
    requires
        divides(c, n),
    ensures
        n > 0 ==> c <= n,
{
    if n > 0 {
        lemma_divides_exact(c, n);
        let k = n / c;
        assert(k > 0) by (nonlinear_arith)
            requires
                n == c * k,
                n > 0,
        ;
        assert(c * k >= c) by (nonlinear_arith)
            requires
                k > 0,
        ;
    }
}

/// Scaling both numbers scales their greatest common divisor.
pub proof fn lemma_gcd_scale(a: nat, b: nat, k: nat)
    requires
        k > 0,
    ensures
        gcd_of(k * a, k * b) == k * gcd_of(a, b),
    decreases b,
{
    if b == 0 {
        assert(k * b == 0);
    } else {
        lemma_fundamental_div_mod(a as int, b as int);
        lemma_mod_bound(a as int, b as int);
        let q = a / b;
        let r = a % b;
        assert(k * a == q * (k * b) + k * r) by (nonlinear_arith)
            requires
                a == b * q + r,
        ;
        assert(k * r < k * b) by (nonlinear_arith)
            requires
                r < b,
                k > 0,
        ;
        assert(k * b > 0) by (nonlinear_arith)
            requires
                k > 0,
                b > 0,
        ;
        lemma_fundamental_div_mod_converse((k * a) as int, (k * b) as int, q as int, (k * r) as int);
        assert((k * a) % (k * b) == k * r);
        lemma_gcd_scale(b, r, k);
    }
}

} // verus!

verus! {

/// Everything shares only one with one.
pub proof fn lemma_gcd_one(x: nat)
    ensures
        gcd_of(x, 1) == 1,
{
    assert(x % 1 == 0);
    assert(gcd_of(x, 1) == gcd_of(1, 0));
}

/// Zero shares all of `d` with `d`.
pub proof fn lemma_gcd_zero_left(d: nat)
    ensures
        gcd_of(0, d) == d,
{
    if d > 0 {
        assert(0nat % d == 0) by {
            lemma_small_mod(0, d);
        }
        assert(gcd_of(0, d) == gcd_of(d, 0));
    }
}

} // verus!
