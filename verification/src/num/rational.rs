//! Exact rational numbers: a sign, a numerator and a denominator, all
//! arbitrary-precision.
//!
//! Every value is kept in lowest terms with a positive denominator, so
//! equality is structural and `1/3 * 3` is exactly `1`. Nothing here
//! overflows; the only arithmetic failure is division by zero.
use vstd::prelude::*;
use std::cmp::Ordering;

use crate::num::fraction::{
    frac_add, frac_div, frac_mul, frac_neg, frac_rem, frac_sub, frac_trunc, lemma_lowest_terms_unique,
    lemma_reduce, lemma_reduce_lowest, lowest_terms, magnitude, reduce, same_value, signed, trunc_div,
};
use crate::num::gcd::{gcd_of, lemma_gcd_one, lemma_gcd_pos, lemma_gcd_zero_left};
use crate::num::uint::BigUint;

verus! {

/// A rational number in lowest terms.
#[derive(Debug)]
pub struct Rational {
    /// Zero is never negative, so every value has one representation.
    negative: bool,
    num: BigUint,
    /// Never zero, and shares no factor with `num`.
    den: BigUint,
}

impl View for Rational {
    /// The signed numerator and the denominator.
    type V = (int, nat);

    closed spec fn view(&self) -> (int, nat) {
        (signed(self.negative, self.num@), self.den@)
    }
}

/// How two integers compare.
pub open spec fn compare_ints(a: int, b: int) -> Ordering {
    if a < b {
        Ordering::Less
    } else if a == b {
        Ordering::Equal
    } else {
        Ordering::Greater
    }
}

/// Products of signed magnitudes.
proof fn lemma_signed_mul(s1: bool, a: nat, s2: bool, b: nat)
    ensures
        signed(s1, a) * signed(s2, b) == signed(s1 != s2, a * b),
        signed(s1, a) * (b as int) == signed(s1, a * b),
{
    if s1 {
        if s2 {
            assert((-a) * (-b) == a * b) by (nonlinear_arith);
        } else {
            assert((-a) * b == -(a * b)) by (nonlinear_arith);
        }
        assert((-a) * b == -(a * b)) by (nonlinear_arith);
    } else if s2 {
        assert(a * (-b) == -(a * b)) by (nonlinear_arith);
    }
}

/// Sums of signed magnitudes, by how their signs and sizes compare.
proof fn lemma_signed_sum(s1: bool, a: nat, s2: bool, b: nat)
    ensures
        s1 == s2 ==> signed(s1, a) + signed(s2, b) == signed(s1, a + b),
        s1 != s2 && a > b ==> signed(s1, a) + signed(s2, b) == signed(s1, (a - b) as nat),
        s1 != s2 && a < b ==> signed(s1, a) + signed(s2, b) == signed(s2, (b - a) as nat),
        s1 != s2 && a == b ==> signed(s1, a) + signed(s2, b) == 0,
{
}

/// Zero over anything reduces to `0/1`.
proof fn lemma_reduce_zero(d: nat)
    requires
        d > 0,
    ensures
        reduce(0, d) == (0int, 1nat),
{
    lemma_gcd_zero_left(d);
    vstd::arithmetic::div_mod::lemma_div_by_self(d as int);
}

/// An integer over one is already reduced.
proof fn lemma_reduce_integer(n: int)
    ensures
        reduce(n, 1) == (n, 1nat),
{
    lemma_gcd_one(magnitude(n));
}

impl Rational {
    #[verifier::type_invariant]
    spec fn wf(self) -> bool {
        &&& self.den@ > 0
        &&& gcd_of(self.num@, self.den@) == 1
        &&& (self.num@ == 0 ==> !self.negative)
    }

    pub fn zero() -> (r: Self)
        ensures
            r@ == (0int, 1nat),
    {
        let den = BigUint::one();
        proof {
            lemma_gcd_zero_left(1);
        }
        Rational { negative: false, num: BigUint::zero(), den }
    }

    pub fn one() -> (r: Self)
        ensures
            r@ == (1int, 1nat),
    {
        proof {
            lemma_gcd_one(1);
        }
        Rational { negative: false, num: BigUint::one(), den: BigUint::one() }
    }

    /// Build from parts, reducing to lowest terms. `None` if `den` is zero.
    pub fn new(negative: bool, num: BigUint, den: BigUint) -> (r: Option<Self>)
        ensures
            r is None <==> den@ == 0,
            r matches Some(x) ==> x@ == reduce(signed(negative, num@), den@),
    {
        if den.is_zero() {
            return None;
        }
        if num.is_zero() {
            proof {
                lemma_reduce_zero(den@);
            }
            return Some(Rational::zero());
        }
        let g = num.gcd(&den);
        proof {
            lemma_gcd_pos(num@, den@);
        }
        let n = num.divmod(&g).unwrap().0;
        let d = den.divmod(&g).unwrap().0;
        proof {
            let v = signed(negative, num@);
            assert(magnitude(v) == num@);
            lemma_reduce(v, den@);
            assert(magnitude(reduce(v, den@).0) == n@);
        }
        Some(Rational { negative, num: n, den: d })
    }

    pub fn from_i64(v: i64) -> (r: Self)
        ensures
            r@ == (v as int, 1nat),
    {
        let m: u64 = if v >= 0 {
            v as u64
        } else {
            (-(v as i128)) as u64
        };
        proof {
            lemma_gcd_one(m as nat);
        }
        Rational { negative: v < 0, num: BigUint::from_u64(m), den: BigUint::one() }
    }

    pub fn is_zero(&self) -> (r: bool)
        ensures
            r == (self@.0 == 0),
    {
        self.num.is_zero()
    }

    pub fn is_negative(&self) -> (r: bool)
        ensures
            r == (self@.0 < 0),
    {
        proof {
            use_type_invariant(self);
        }
        self.negative
    }

    /// The size of the numerator; the sign is kept apart.
    pub fn numerator(&self) -> (r: &BigUint)
        ensures
            r@ == magnitude(self@.0),
    {
        &self.num
    }

    pub fn denominator(&self) -> (r: &BigUint)
        ensures
            r@ == self@.1,
            r@ > 0,
    {
        proof {
            use_type_invariant(self);
        }
        &self.den
    }

    pub fn is_integer(&self) -> (r: bool)
        ensures
            r == (self@.1 == 1),
    {
        self.den.is_one()
    }

    pub fn neg(&self) -> (r: Rational)
        ensures
            r@ == frac_neg(self@),
    {
        proof {
            use_type_invariant(self);
        }
        if self.is_zero() {
            return self.clone();
        }
        Rational { negative: !self.negative, num: self.num.clone(), den: self.den.clone() }
    }

    pub fn abs(&self) -> (r: Rational)
        ensures
            r@ == (magnitude(self@.0) as int, self@.1),
    {
        proof {
            use_type_invariant(self);
        }
        Rational { negative: false, num: self.num.clone(), den: self.den.clone() }
    }
}

impl Clone for Rational {
    fn clone(&self) -> (r: Self)
        ensures
            r@ == self@,
    {
        proof {
            use_type_invariant(self);
        }
        Rational { negative: self.negative, num: self.num.clone(), den: self.den.clone() }
    }
}

} // verus!

verus! {

/// The parts of a value: its magnitude over its denominator.
proof fn lemma_parts(neg: bool, m: nat, d: nat)
    requires
        m == 0 ==> !neg,
    ensures
        magnitude(signed(neg, m)) == m,
        signed(neg, m) < 0 <==> neg,
{
}

impl Rational {
    pub fn add(&self, other: &Rational) -> (r: Rational)
        ensures
            r@ == frac_add(self@, other@),
    {
        proof {
            use_type_invariant(self);
            use_type_invariant(other);
        }
        // a/b + c/d over the common denominator b*d, with the sign worked
        // out from the two cross products rather than from the inputs.
        let left = self.num.mul(&other.den);
        let right = other.num.mul(&self.den);
        let den = self.den.mul(&other.den);
        proof {
            lemma_signed_mul(self.negative, self.num@, false, other.den@);
            lemma_signed_mul(other.negative, other.num@, false, self.den@);
            lemma_signed_sum(self.negative, left@, other.negative, right@);
            assert(den@ > 0) by (nonlinear_arith)
                requires
                    den@ == self.den@ * other.den@,
                    self.den@ > 0,
                    other.den@ > 0,
            ;
        }
        if self.negative == other.negative {
            Rational::new(self.negative, left.add(&right), den).unwrap()
        } else {
            match left.cmp_to(&right) {
                Ordering::Equal => {
                    proof {
                        lemma_reduce_zero(den@);
                    }
                    Rational::zero()
                },
                Ordering::Greater => Rational::new(self.negative, left.sub(&right).unwrap(), den).unwrap(),
                Ordering::Less => Rational::new(other.negative, right.sub(&left).unwrap(), den).unwrap(),
            }
        }
    }

    pub fn sub(&self, other: &Rational) -> (r: Rational)
        ensures
            r@ == frac_sub(self@, other@),
    {
        self.add(&other.neg())
    }

    pub fn mul(&self, other: &Rational) -> (r: Rational)
        ensures
            r@ == frac_mul(self@, other@),
    {
        proof {
            use_type_invariant(self);
            use_type_invariant(other);
            lemma_signed_mul(self.negative, self.num@, other.negative, other.num@);
            assert(self.den@ * other.den@ > 0) by (nonlinear_arith)
                requires
                    self.den@ > 0,
                    other.den@ > 0,
            ;
        }
        Rational::new(self.negative != other.negative, self.num.mul(&other.num), self.den.mul(&other.den)).unwrap()
    }

    /// `None` when `other` is zero.
    pub fn div(&self, other: &Rational) -> (r: Option<Rational>)
        ensures
            r is None <==> other@.0 == 0,
            r matches Some(x) ==> x@ == frac_div(self@, other@),
    {
        proof {
            use_type_invariant(self);
            use_type_invariant(other);
        }
        if other.is_zero() {
            return None;
        }
        proof {
            lemma_parts(other.negative, other.num@, other.den@);
            lemma_signed_mul(self.negative, self.num@, false, other.den@);
            lemma_signed_mul(other.negative, 1, self.negative, self.num@ * other.den@);
            assert(signed(other.negative, 1) * signed(self.negative, self.num@) * other.den@ == signed(
                other.negative,
                1,
            ) * (signed(self.negative, self.num@) * other.den@)) by (nonlinear_arith);
            assert(self.den@ * other.num@ > 0) by (nonlinear_arith)
                requires
                    self.den@ > 0,
                    other.num@ > 0,
            ;
        }
        Rational::new(self.negative != other.negative, self.num.mul(&other.den), self.den.mul(&other.num))
    }

    /// The integer part, rounded toward zero.
    pub fn trunc(&self) -> (r: Rational)
        ensures
            r@ == frac_trunc(self@),
    {
        proof {
            use_type_invariant(self);
        }
        let q = self.num.divmod(&self.den).unwrap().0;
        proof {
            lemma_parts(self.negative, self.num@, self.den@);
            lemma_reduce_integer(signed(self.negative, q@));
        }
        Rational::new(self.negative, q, BigUint::one()).unwrap()
    }

    /// Truncated remainder: `self - other * trunc(self / other)`, as the
    /// integer types do it. `None` when `other` is zero.
    pub fn rem(&self, other: &Rational) -> (r: Option<Rational>)
        ensures
            r is None <==> other@.0 == 0,
            r matches Some(x) ==> x@ == frac_rem(self@, other@),
    {
        match self.div(other) {
            None => None,
            Some(quotient) => {
                let q = quotient.trunc();
                Some(self.sub(&other.mul(&q)))
            },
        }
    }

    pub fn cmp_to(&self, other: &Rational) -> (r: Ordering)
        ensures
            r == compare_ints(self@.0 * other@.1, other@.0 * self@.1),
    {
        proof {
            use_type_invariant(self);
            use_type_invariant(other);
            lemma_signed_mul(self.negative, self.num@, false, other.den@);
            lemma_signed_mul(other.negative, other.num@, false, self.den@);
        }
        if !self.negative && other.negative {
            proof {
                assert(other.num@ * self.den@ > 0) by (nonlinear_arith)
                    requires
                        other.num@ > 0,
                        self.den@ > 0,
                ;
            }
            return Ordering::Greater;
        }
        if self.negative && !other.negative {
            proof {
                assert(self.num@ * other.den@ > 0) by (nonlinear_arith)
                    requires
                        self.num@ > 0,
                        other.den@ > 0,
                ;
            }
            return Ordering::Less;
        }
        // Same sign: compare the cross products, and flip if both are negative.
        let left = self.num.mul(&other.den);
        let right = other.num.mul(&self.den);
        let ord = left.cmp_to(&right);
        if self.negative {
            match ord {
                Ordering::Less => Ordering::Greater,
                Ordering::Equal => Ordering::Equal,
                Ordering::Greater => Ordering::Less,
            }
        } else {
            ord
        }
    }
}

impl PartialEq for Rational {
    fn eq(&self, other: &Self) -> (r: bool) {
        proof {
            use_type_invariant(self);
            use_type_invariant(other);
        }
        self.negative == other.negative && self.num == other.num && self.den == other.den
    }
}

impl vstd::std_specs::cmp::PartialEqSpecImpl for Rational {
    open spec fn obeys_eq_spec() -> bool {
        true
    }

    open spec fn eq_spec(&self, other: &Self) -> bool {
        self@ == other@
    }
}

impl Eq for Rational {}

} // verus!
