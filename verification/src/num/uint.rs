//! Arbitrary-precision unsigned integers.
//!
//! Limbs are `u32`, little-endian, with no trailing zeros, so an empty limb
//! vector is zero and every value has exactly one representation. Products fit
//! in `u64`, which keeps every intermediate inside a primitive.
use vstd::prelude::*;
use vstd::arithmetic::div_mod::*;
use vstd::arithmetic::mul::*;
use vstd::arithmetic::power::pow;
use vstd::arithmetic::power2::*;
use vstd::bits::{
    lemma_u32_pow2_no_overflow, lemma_u32_shl_is_mul, lemma_u32_shr_is_div, lemma_u64_pow2_no_overflow,
    lemma_u64_shl_is_mul,
};
use vstd::std_specs::bits::{axiom_u32_leading_zeros, u32_leading_zeros};
use std::cmp::Ordering;

use crate::num::gcd::gcd_of;

use crate::num::limbs::{
    base, bit_len, lemma_bit_len_bounds, lemma_pow2_increases, bpow, digit, lemma_bit_len_unique, lemma_bpow_pow2, lemma_less_at, lemma_push_carry,
    lemma_shorter_smaller, lemma_update_carry, is_trimmed, lemma_bpow_mono, lemma_bpow_pos, lemma_bpow_small, lemma_bpow_succ, lemma_canonical,
    lemma_trimmed_lower, lemma_val_drop_zero, lemma_val_push, lemma_val_upto_beyond, lemma_val_upto_bound,
    lemma_val_upto_ext, lemma_val_update, lemma_val_prepend, lemma_digit_weight, lemma_bpow_adds, lemma_val_split, limbs_value, val_upto,
};

verus! {

/// An unsigned integer of any size.
#[derive(Debug)]
pub struct BigUint {
    /// Least significant limb first. Never ends in a zero limb.
    limbs: Vec<u32>,
}

impl View for BigUint {
    type V = nat;

    closed spec fn view(&self) -> nat {
        limbs_value(self.limbs@)
    }
}

/// Drop trailing zero limbs; the value is unchanged.
fn trim(limbs: &mut Vec<u32>)
    ensures
        is_trimmed(final(limbs)@),
        limbs_value(final(limbs)@) == limbs_value(old(limbs)@),
        final(limbs)@.len() <= old(limbs)@.len(),
{
    while limbs.len() > 0 && limbs[limbs.len() - 1] == 0
        invariant
            limbs_value(limbs@) == limbs_value(old(limbs)@),
            limbs@.len() <= old(limbs)@.len(),
        decreases limbs.len(),
    {
        proof {
            lemma_val_drop_zero(limbs@);
        }
        limbs.pop();
    }
}

/// The split of a `u64` into two limbs.
pub proof fn lemma_u64_halves(v: u64)
    ensures
        (v as u32) as nat + ((v >> 32u64) as u32) as nat * base() == v as nat,
{
    assert((v as u32) as u64 + ((v >> 32u64) as u32) as u64 * 0x1_0000_0000u64 == v) by (bit_vector);
}

impl BigUint {
    #[verifier::type_invariant]
    spec fn wf(self) -> bool {
        is_trimmed(self.limbs@)
    }

    /// The limbs, least significant first.
    pub closed spec fn limb_seq(self) -> Seq<u32> {
        self.limbs@
    }

    pub fn zero() -> (r: Self)
        ensures
            r@ == 0,
    {
        BigUint { limbs: Vec::new() }
    }

    pub fn one() -> (r: Self)
        ensures
            r@ == 1,
    {
        let r = BigUint { limbs: vec![1] };
        proof {
            lemma_val_push(Seq::<u32>::empty(), 1u32);
            assert(r.limbs@ =~= Seq::<u32>::empty().push(1u32));
        }
        r
    }

    pub fn from_u64(v: u64) -> (r: Self)
        ensures
            r@ == v,
    {
        let mut limbs = vec![v as u32, (v >> 32) as u32];
        proof {
            let e = Seq::<u32>::empty();
            assert(limbs@ =~= e.push(v as u32).push((v >> 32u64) as u32));
            lemma_val_push(e, v as u32);
            lemma_val_push(e.push(v as u32), (v >> 32u64) as u32);
            lemma_u64_halves(v);
            lemma_bpow_small();
        }
        trim(&mut limbs);
        BigUint { limbs }
    }

    /// Build from limbs, least significant first, dropping trailing zeros.
    pub fn from_limbs(limbs: Vec<u32>) -> (r: Self)
        ensures
            r@ == limbs_value(limbs@),
    {
        let mut limbs = limbs;
        trim(&mut limbs);
        BigUint { limbs }
    }

    pub fn limbs(&self) -> (r: &[u32])
        ensures
            r@ == self.limb_seq(),
            is_trimmed(r@),
            limbs_value(r@) == self@,
    {
        proof {
            use_type_invariant(self);
        }
        self.limbs.as_slice()
    }

    pub fn is_zero(&self) -> (r: bool)
        ensures
            r == (self@ == 0),
    {
        proof {
            use_type_invariant(self);
            if self.limbs@.len() > 0 {
                lemma_trimmed_lower(self.limbs@);
                lemma_bpow_pos((self.limbs@.len() - 1) as nat);
            }
        }
        self.limbs.len() == 0
    }

    pub fn is_one(&self) -> (r: bool)
        ensures
            r == (self@ == 1),
    {
        proof {
            use_type_invariant(self);
            let one = Seq::<u32>::empty().push(1u32);
            lemma_val_push(Seq::<u32>::empty(), 1u32);
            if self@ == 1 {
                lemma_canonical(self.limbs@, one);
            }
            if self.limbs@.len() == 1 && self.limbs@[0] == 1 {
                assert(self.limbs@ =~= one);
            }
        }
        self.limbs.len() == 1 && self.limbs[0] == 1
    }

    /// The value as a `u64`, if it fits.
    pub fn to_u64(&self) -> (r: Option<u64>)
        ensures
            r == (if self@ <= u64::MAX { Some(self@ as u64) } else { None::<u64> }),
    {
        proof {
            use_type_invariant(self);
        }
        let n = self.limbs.len();
        if n == 0 {
            assert(self@ == 0);
            Some(0)
        } else if n == 1 {
            proof {
                assert(self.limbs@ =~= Seq::<u32>::empty().push(self.limbs@[0]));
                lemma_val_push(Seq::<u32>::empty(), self.limbs@[0]);
                lemma_bpow_small();
                let x = self.limbs@[0];
                let e = Seq::<u32>::empty();
                assert(limbs_value(e) == 0);
                assert(limbs_value(e.push(x)) == x * bpow(0));
                assert(x * bpow(0) == x);
                assert(limbs_value(self.limbs@) == limbs_value(e.push(x)));
                assert(self@ == self.limbs@[0]);
            }
            Some(self.limbs[0] as u64)
        } else if n == 2 {
            let lo = self.limbs[0];
            let hi = self.limbs[1];
            proof {
                let e = Seq::<u32>::empty();
                assert(self.limbs@ =~= e.push(lo).push(hi));
                lemma_val_push(e, lo);
                lemma_val_push(e.push(lo), hi);
                lemma_bpow_small();
                assert((lo as u64) | ((hi as u64) << 32u64) == lo as u64 + hi as u64 * 0x1_0000_0000u64)
                    by (bit_vector);
                assert(self@ == lo as u64 + hi as u64 * 0x1_0000_0000u64);
            }
            Some(lo as u64 | ((hi as u64) << 32))
        } else {
            proof {
                lemma_trimmed_lower(self.limbs@);
                lemma_bpow_mono(2, (n - 1) as nat);
                lemma_bpow_small();
            }
            None
        }
    }
}

} // verus!

verus! {

/// How two numbers compare, as an `Ordering`.
pub open spec fn ordering_of(a: nat, b: nat) -> Ordering {
    if a < b {
        Ordering::Less
    } else if a == b {
        Ordering::Equal
    } else {
        Ordering::Greater
    }
}

impl BigUint {
    /// Position of the highest set bit, plus one. Zero has zero bits.
    pub fn bits(&self) -> (r: usize)
        requires
            bit_len(self@) <= usize::MAX,
        ensures
            r == bit_len(self@),
    {
        proof {
            use_type_invariant(self);
        }
        let n = self.limbs.len();
        if n == 0 {
            0
        } else {
            let top = self.limbs[n - 1];
            let lz = top.leading_zeros();
            proof {
                lemma_top_bits(top);
                lemma_value_bits(self.limbs@, lz);
            }
            (n - 1) * 32 + (32 - lz as usize)
        }
    }

    pub fn cmp_to(&self, other: &BigUint) -> (r: Ordering)
        ensures
            r == ordering_of(self@, other@),
    {
        proof {
            use_type_invariant(self);
            use_type_invariant(other);
        }
        let n = self.limbs.len();
        let m = other.limbs.len();
        if n < m {
            proof {
                lemma_shorter_smaller(self.limbs@, other.limbs@);
            }
            return Ordering::Less;
        }
        if m < n {
            proof {
                lemma_shorter_smaller(other.limbs@, self.limbs@);
            }
            return Ordering::Greater;
        }
        // Same length, so compare from the most significant limb down.
        let mut i = n;
        while i > 0
            invariant
                i <= n,
                n == self.limbs@.len(),
                n == other.limbs@.len(),
                forall|j: int| i <= j < n ==> self.limbs@[j] == other.limbs@[j],
            decreases i,
        {
            let a = self.limbs[i - 1];
            let b = other.limbs[i - 1];
            if a < b {
                proof {
                    lemma_less_at(self.limbs@, other.limbs@, i - 1);
                }
                return Ordering::Less;
            }
            if b < a {
                proof {
                    lemma_less_at(other.limbs@, self.limbs@, i - 1);
                }
                return Ordering::Greater;
            }
            i = i - 1;
        }
        proof {
            assert(self.limbs@ =~= other.limbs@);
        }
        Ordering::Equal
    }

    pub fn add(&self, other: &BigUint) -> (r: BigUint)
        ensures
            r@ == self@ + other@,
    {
        let la = self.limbs.len();
        let lb = other.limbs.len();
        let n = if la < lb { lb } else { la };
        let mut out: Vec<u32> = Vec::new();
        let mut carry: u64 = 0;
        let mut i: usize = 0;
        while i < n
            invariant
                la == self.limbs@.len(),
                lb == other.limbs@.len(),
                n >= la,
                n >= lb,
                i <= n,
                out@.len() == i,
                carry <= 1,
                limbs_value(out@) + carry * bpow(i as nat) == val_upto(self.limbs@, i as nat)
                    + val_upto(other.limbs@, i as nat),
            decreases n - i,
        {
            let a: u64 = if i < la { self.limbs[i] as u64 } else { 0 };
            let b: u64 = if i < lb { other.limbs[i] as u64 } else { 0 };
            let sum = a + b + carry;
            proof {
                assert(a == digit(self.limbs@, i as int));
                assert(b == digit(other.limbs@, i as int));
                lemma_push_carry(out@, sum);
                lemma_distribute3(a as int, b as int, carry as int, bpow(i as nat) as int);
                assert(sum >> 32u64 <= 1) by (bit_vector)
                    requires
                        sum <= 0x1_ffff_ffffu64,
                ;
            }
            out.push(sum as u32);
            carry = sum >> 32;
            i = i + 1;
        }
        if carry != 0 {
            proof {
                lemma_val_push(out@, carry as u32);
            }
            out.push(carry as u32);
        }
        proof {
            lemma_val_upto_beyond(self.limbs@, n as nat);
            lemma_val_upto_beyond(other.limbs@, n as nat);
        }
        BigUint::from_limbs(out)
    }
}

/// `(a + b + c) * w` spread over its terms.
pub proof fn lemma_distribute3(a: int, b: int, c: int, w: int)
    ensures
        (a + b + c) * w == a * w + b * w + c * w,
{
    assert((a + b + c) * w == a * w + b * w + c * w) by (nonlinear_arith);
}

/// The top limb's leading zeros place its highest set bit.
pub proof fn lemma_top_bits(top: u32)
    requires
        top != 0,
    ensures
        u32_leading_zeros(top) < 32,
        pow2((31 - u32_leading_zeros(top)) as nat) <= top,
        top < pow2((32 - u32_leading_zeros(top)) as nat),
{
    axiom_u32_leading_zeros(top);
    let lz = u32_leading_zeros(top);
    let k = (31 - lz) as u32;
    lemma_u32_shr_is_div(top, k);
    assert((top >> k) & 1u32 != 0u32 ==> top >> k != 0u32) by (bit_vector);
    lemma_pow2_pos(k as nat);
    lemma_div_non_zero(top as int, pow2(k as nat) as int);
    if lz > 0 {
        let k2 = (32 - lz) as u32;
        lemma_u32_shr_is_div(top, k2);
        lemma_pow2_pos(k2 as nat);
        lemma_div_zero_small(top as int, pow2(k2 as nat) as int);
    } else {
        lemma2_to64();
    }
}

pub proof fn lemma_div_non_zero(x: int, d: int)
    requires
        d > 0,
        x >= 0,
        x / d != 0,
    ensures
        d <= x,
{
    if x < d {
        lemma_fundamental_div_mod_converse(x, d, 0, x);
    }
}

pub proof fn lemma_div_zero_small(x: int, d: int)
    requires
        d > 0,
        x >= 0,
        x / d == 0,
    ensures
        x < d,
{
    lemma_fundamental_div_mod(x, d);
    lemma_mod_bound(x, d);
}

/// The bit length of a trimmed number, from the leading zeros of its top limb.
pub proof fn lemma_value_bits(s: Seq<u32>, lz: u32)
    requires
        is_trimmed(s),
        s.len() > 0,
        lz == u32_leading_zeros(s.last()),
        lz < 32,
        pow2((31 - lz) as nat) <= s.last(),
        s.last() < pow2((32 - lz) as nat),
    ensures
        bit_len(limbs_value(s)) == (s.len() - 1) * 32 + (32 - lz),
{
    let k = (s.len() - 1) as nat;
    let top = s.last() as nat;
    let low = val_upto(s, k);
    let w = bpow(k);
    assert(limbs_value(s) == low + digit(s, k as int) * w);
    assert(digit(s, k as int) == top);
    lemma_val_upto_bound(s, k);
    lemma_bpow_pow2(k);
    let b = ((s.len() - 1) * 32 + (32 - lz)) as nat;
    lemma_pow2_adds(32 * k, (31 - lz) as nat);
    lemma_pow2_adds(32 * k, (32 - lz) as nat);
    assert(32 * k + (31 - lz) == b - 1);
    assert(32 * k + (32 - lz) == b);
    let p1 = pow2((31 - lz) as nat);
    let p2 = pow2((32 - lz) as nat);
    assert(w * p1 <= low + top * w) by (nonlinear_arith)
        requires
            p1 <= top,
            low >= 0,
    ;
    assert(low + top * w < w * p2) by (nonlinear_arith)
        requires
            top < p2,
            low < w,
            top >= 0,
    ;
    lemma_mul_is_commutative(w as int, p1 as int);
    lemma_mul_is_commutative(w as int, p2 as int);
    lemma_bit_len_unique(limbs_value(s), b);
}

} // verus!

verus! {

/// `n` zero limbs.
fn zeros(n: usize) -> (r: Vec<u32>)
    ensures
        r@.len() == n,
        forall|i: int| 0 <= i < n ==> r@[i] == 0,
        limbs_value(r@) == 0,
{
    let mut out: Vec<u32> = Vec::new();
    let mut i: usize = 0;
    while i < n
        invariant
            i <= n,
            out@.len() == i,
            forall|k: int| 0 <= k < i ==> out@[k] == 0,
            limbs_value(out@) == 0,
        decreases n - i,
    {
        proof {
            lemma_val_push(out@, 0u32);
        }
        out.push(0);
        i = i + 1;
    }
    out
}

/// `a - b` over limbs, for `a >= b`.
fn sub_limbs(a: &Vec<u32>, b: &Vec<u32>) -> (r: Vec<u32>)
    requires
        is_trimmed(b@),
        limbs_value(a@) >= limbs_value(b@),
    ensures
        limbs_value(r@) == limbs_value(a@) - limbs_value(b@),
{
    if a.len() < b.len() {
        proof {
            lemma_shorter_smaller(a@, b@);
        }
    }
    let la = a.len();
    let lb = b.len();
    let mut out: Vec<u32> = Vec::new();
    let mut borrow: i64 = 0;
    let mut i: usize = 0;
    while i < la
        invariant
            la == a@.len(),
            lb == b@.len(),
            lb <= la,
            i <= la,
            out@.len() == i,
            0 <= borrow <= 1,
            limbs_value(out@) == val_upto(a@, i as nat) - val_upto(b@, i as nat) + borrow * bpow(
                i as nat,
            ),
        decreases la - i,
    {
        let x = a[i] as i64;
        let y: i64 = if i < lb { b[i] as i64 } else { 0 };
        let mut diff = x - y - borrow;
        let ghost old_borrow = borrow;
        if diff < 0 {
            diff = diff + 0x1_0000_0000;
            borrow = 1;
        } else {
            borrow = 0;
        }
        proof {
            assert(y == digit(b@, i as int));
            assert(x == digit(a@, i as int));
            lemma_val_push(out@, diff as u32);
            lemma_bpow_succ(i as nat);
            let w = bpow(i as nat);
            assert((diff as u32) as int == diff);
            assert(diff == x - y - old_borrow + borrow * base());
            assert(diff * w == x * w - y * w - old_borrow * w + borrow * (w * base())) by (nonlinear_arith)
                requires
                    diff == x - y - old_borrow + borrow * base(),
            ;
            assert(val_upto(a@, (i + 1) as nat) == val_upto(a@, i as nat) + x * w);
            assert(val_upto(b@, (i + 1) as nat) == val_upto(b@, i as nat) + y * w);
        }
        out.push(diff as u32);
        i = i + 1;
    }
    proof {
        lemma_val_upto_beyond(b@, la as nat);
        lemma_val_upto_bound(out@, la as nat);
        if borrow == 1 {
            assert(false);
        }
    }
    out
}

impl BigUint {
    /// `self - other`, or `None` if that would go below zero.
    pub fn sub(&self, other: &BigUint) -> (r: Option<BigUint>)
        ensures
            match r {
                Some(d) => self@ >= other@ && d@ == self@ - other@,
                None => self@ < other@,
            },
    {
        proof {
            use_type_invariant(self);
            use_type_invariant(other);
        }
        match self.cmp_to(other) {
            Ordering::Less => None,
            _ => Some(BigUint::from_limbs(sub_limbs(&self.limbs, &other.limbs))),
        }
    }

    pub fn mul(&self, other: &BigUint) -> (r: BigUint)
        ensures
            r@ == self@ * other@,
    {
        proof {
            use_type_invariant(self);
            use_type_invariant(other);
        }
        if self.is_zero() || other.is_zero() {
            return BigUint::zero();
        }
        let la = self.limbs.len();
        let lb = other.limbs.len();
        let mut out = zeros(la);
        let mut tail = zeros(lb);
        proof {
            lemma_concat_zeros(out@, tail@);
        }
        out.append(&mut tail);
        let total = out.len();
        let ghost b = other.limbs@;
        let ghost a = self.limbs@;
        let ghost vb = limbs_value(b);
        proof {
            assert(val_upto(a, 0) == 0);
            assert(0 * vb == 0);
        }
        let mut i: usize = 0;
        while i < la
            invariant
                la == a.len(),
                lb == b.len(),
                total == la + lb,
                a == self.limbs@,
                b == other.limbs@,
                vb == limbs_value(b),
                out@.len() == la + lb,
                i <= la,
                limbs_value(out@) == val_upto(a, i as nat) * vb,
            decreases la - i,
        {
            let x = self.limbs[i] as u64;
            let mut carry: u64 = 0;
            let mut j: usize = 0;
            proof {
                assert(val_upto(b, 0) == 0);
                assert(x * 0 * bpow(i as nat) == 0) by (nonlinear_arith);
                assert(0 * bpow(i as nat) == 0);
            }
            while j < lb
                invariant
                    la == a.len(),
                    lb == b.len(),
                    b == other.limbs@,
                    a == self.limbs@,
                    total == la + lb,
                    vb == limbs_value(b),
                    out@.len() == la + lb,
                    i < la,
                    j <= lb,
                    x == a[i as int],
                    carry < 0x1_0000_0000,
                    limbs_value(out@) + carry * bpow((i + j) as nat) == val_upto(a, i as nat) * vb
                        + x * val_upto(b, j as nat) * bpow(i as nat),
                decreases lb - j,
            {
                let y = other.limbs[j] as u64;
                let idx = i + j;
                let o = out[idx] as u64;
                proof {
                    assert(x * y <= 0xffff_fffe_0000_0001u64) by (nonlinear_arith)
                        requires
                            x < 0x1_0000_0000u64,
                            y < 0x1_0000_0000u64,
                    ;
                }
                let cur = o + x * y + carry;
                proof {
                    lemma_update_carry(out@, idx as int, cur);
                    lemma_bpow_adds(i as nat, j as nat);
                    assert(digit(b, j as int) == y);
                    let wi = bpow(i as nat);
                    let wj = bpow(j as nat);
                    assert(x * (val_upto(b, j as nat) + y * wj) * wi == x * val_upto(b, j as nat) * wi + (x
                        * y) * (wi * wj)) by (nonlinear_arith);
                    assert((o + x * y + carry) * (wi * wj) == o * (wi * wj) + (x * y) * (wi * wj) + carry * (
                    wi * wj)) by (nonlinear_arith);
                    assert(cur >> 32u64 < 0x1_0000_0000u64) by (bit_vector);
                }
                out.set(idx, cur as u32);
                carry = cur >> 32;
                j = j + 1;
            }
            // Propagate what is left of the carry.
            let mut idx = i + lb;
            proof {
                lemma_val_upto_beyond(b, lb as nat);
                assert(val_upto(a, (i + 1) as nat) == val_upto(a, i as nat) + x * bpow(i as nat));
                let wi = bpow(i as nat);
                assert(val_upto(a, i as nat) * vb + x * vb * wi == (val_upto(a, i as nat) + x * wi) * vb)
                    by (nonlinear_arith);
                lemma_val_upto_bound(a, (i + 1) as nat);
                lemma_val_upto_bound(b, lb as nat);
                lemma_product_bound(val_upto(a, (i + 1) as nat), vb, (i + 1) as nat, lb as nat);
                lemma_bpow_mono((i + 1 + lb) as nat, (la + lb) as nat);
            }
            while carry != 0
                invariant
                    out@.len() == la + lb,
                    total == la + lb,
                    i + lb <= idx <= la + lb,
                    carry < 0x1_0000_0000,
                    limbs_value(out@) + carry * bpow(idx as nat) == val_upto(a, (i + 1) as nat) * vb,
                    val_upto(a, (i + 1) as nat) * vb < bpow((la + lb) as nat),
                decreases la + lb - idx,
            {
                if idx >= total {
                    proof {
                        lemma_bpow_mono((la + lb) as nat, idx as nat);
                        assert(carry * bpow(idx as nat) >= bpow(idx as nat)) by (nonlinear_arith)
                            requires
                                carry >= 1,
                        ;
                    }
                    assert(false);
                }
                let o = out[idx] as u64;
                let cur = o + carry;
                proof {
                    lemma_update_carry(out@, idx as int, cur);
                    assert(cur >> 32u64 < 0x1_0000_0000u64) by (bit_vector);
                    let w = bpow(idx as nat);
                    assert((o + carry) * w == o * w + carry * w) by (nonlinear_arith);
                }
                out.set(idx, cur as u32);
                carry = cur >> 32;
                idx = idx + 1;
            }
            i = i + 1;
        }
        proof {
            lemma_val_upto_beyond(a, la as nat);
        }
        BigUint::from_limbs(out)
    }
}

/// Zero limbs followed by zero limbs are still zero.
proof fn lemma_concat_zeros(a: Seq<u32>, b: Seq<u32>)
    requires
        forall|i: int| 0 <= i < a.len() ==> a[i] == 0,
        forall|i: int| 0 <= i < b.len() ==> b[i] == 0,
    ensures
        limbs_value(a + b) == 0,
{
    let c = a + b;
    assert forall|i: int| 0 <= i < c.len() implies digit(c, i) == digit(Seq::<u32>::empty(), i) by {
        if i < a.len() {
            assert(c[i] == a[i]);
        } else {
            assert(c[i] == b[i - a.len()]);
        }
    }
    lemma_val_upto_ext(c, Seq::<u32>::empty(), c.len());
    lemma_val_upto_beyond(Seq::<u32>::empty(), c.len());
}

/// A product of an `m`-limb and an `n`-limb value fits in `m + n` limbs.
proof fn lemma_product_bound(x: nat, y: nat, m: nat, n: nat)
    requires
        x < bpow(m),
        y < bpow(n),
    ensures
        x * y < bpow(m + n),
{
    lemma_bpow_adds(m, n);
    lemma_bpow_pos(n);
    assert(x * y < bpow(m) * bpow(n)) by (nonlinear_arith)
        requires
            x < bpow(m),
            y < bpow(n),
            y >= 0,
            x >= 0,
    ;
}

} // verus!

verus! {

/// One step of a left shift by `bs` bits: the shifted limb with the bits
/// carried in from below, and the bits carried out above.
proof fn lemma_shl_bits(limb: u32, c: u32, bs: u32)
    requires
        1 <= bs <= 31,
        c < (1u32 << bs),
    ensures
        ((limb << bs) | c) as u64 + ((limb >> ((32u32 - bs) as u32)) as u64) * 0x1_0000_0000u64 == (limb as u64)
            * (1u64 << (bs as u64)) + c as u64,
        (limb >> ((32u32 - bs) as u32)) < (1u32 << bs),
        (1u32 << bs) as u64 == (1u64 << (bs as u64)),
{
    assert(((limb << bs) | c) as u64 + ((limb >> ((32u32 - bs) as u32)) as u64) * 0x1_0000_0000u64 == (limb as u64)
        * (1u64 << (bs as u64)) + c as u64 && (limb >> ((32u32 - bs) as u32)) < (1u32 << bs) && (1u32 << bs) as u64
        == (1u64 << (bs as u64))) by (bit_vector)
        requires
            1 <= bs <= 31,
            c < (1u32 << bs),
    ;
}

/// The low `bs` bits.
pub open spec fn low_mask(bs: u32) -> u32 {
    ((1u32 << bs) - 1u32) as u32
}

/// One step of a right shift by `bs` bits: the limb's high bits joined by the
/// next limb's low bits.
proof fn lemma_shr_bits(x: u32, y: u32, bs: u32)
    requires
        1 <= bs <= 31,
    ensures
        ((x >> bs) as u64) * ((1u32 << bs) as u64) + (x & low_mask(bs)) as u64 == x as u64,
        ((x >> bs) | (y << ((32u32 - bs) as u32))) as u64 == (x >> bs) as u64 + (y & low_mask(bs)) as u64
            * (1u64 << ((32u64 - bs as u64) as u64)),
        (1u64 << ((32u64 - bs as u64) as u64)) * ((1u32 << bs) as u64) == 0x1_0000_0000u64,
        (x & low_mask(bs)) < (1u32 << bs),
        (y & low_mask(bs)) < (1u32 << bs),
{
    assert(((x >> bs) as u64) * ((1u32 << bs) as u64) + (x & low_mask(bs)) as u64 == x as u64
        && ((x >> bs) | (y << ((32u32 - bs) as u32))) as u64 == (x >> bs) as u64 + (y & low_mask(bs)) as u64
        * (1u64 << ((32u64 - bs as u64) as u64)) && (1u64 << ((32u64 - bs as u64) as u64)) * ((1u32 << bs) as u64)
        == 0x1_0000_0000u64 && (x & low_mask(bs)) < (1u32 << bs) && (y & low_mask(bs)) < (
    1u32 << bs)) by (bit_vector)
        requires
            1 <= bs <= 31,
    ;
}

/// `2^n` split at a limb boundary.
proof fn lemma_shift_weight(n: nat, ls: nat, bs: nat)
    requires
        ls == n / 32,
        bs == n % 32,
    ensures
        pow2(n) == bpow(ls) * pow2(bs),
{
    lemma_bpow_pow2(ls);
    assert(n == 32 * ls + bs);
    lemma_pow2_adds(32 * ls, bs);
}

impl BigUint {
    pub fn shl(&self, n: usize) -> (r: BigUint)
        ensures
            r@ == self@ * pow2(n as nat),
    {
        proof {
            lemma_shift_weight(n as nat, (n / 32) as nat, (n % 32) as nat);
            lemma_mul_is_commutative(bpow((n / 32) as nat) as int, pow2((n % 32) as nat) as int);
        }
        self.shl_parts(n / 32, (n % 32) as u32)
    }

    /// Shift left by whole limbs and then by bits within a limb.
    fn shl_parts(&self, limb_shift: usize, bit_shift: u32) -> (r: BigUint)
        requires
            bit_shift < 32,
        ensures
            r@ == self@ * (pow2(bit_shift as nat) * bpow(limb_shift as nat)),
    {
        proof {
            use_type_invariant(self);
        }
        if self.is_zero() {
            return BigUint::zero();
        }
        let ghost p = pow2(bit_shift as nat);
        proof {
            lemma_pow2_pos(bit_shift as nat);
            if bit_shift > 0 {
                lemma_u64_pow2_no_overflow(bit_shift as nat);
                lemma_u64_shl_is_mul(1u64, bit_shift as u64);
                lemma_u32_pow2_no_overflow(bit_shift as nat);
                lemma_u32_shl_is_mul(1u32, bit_shift);
            } else {
                lemma2_to64();
            }
        }
        let mut out = zeros(limb_shift);
        let mut carry: u32 = 0;
        let len = self.limbs.len();
        let ghost s = self.limbs@;
        let ghost wl = bpow(limb_shift as nat);
        let mut i: usize = 0;
        proof {
            assert(val_upto(s, 0) == 0);
            assert(0 * p * wl == 0) by (nonlinear_arith);
        }
        while i < len
            invariant
                len == s.len(),
                s == self.limbs@,
                i <= len,
                out@.len() == limb_shift + i,
                bit_shift < 32,
                p == pow2(bit_shift as nat),
                p > 0,
                bit_shift > 0 ==> (1u64 << (bit_shift as u64)) == p,
                bit_shift > 0 ==> (1u32 << bit_shift) == p,
                bit_shift == 0 ==> p == 1,
                wl == bpow(limb_shift as nat),
                carry < p,
                limbs_value(out@) + carry * bpow((limb_shift + i) as nat) == val_upto(s, i as nat) * p * wl,
            decreases len - i,
        {
            let limb = self.limbs[i];
            let ghost old_carry = carry;
            let ghost w = bpow((limb_shift + i) as nat);
            let d: u32;
            if bit_shift == 0 {
                d = limb;
            } else {
                proof {
                    lemma_shl_bits(limb, carry, bit_shift);
                }
                d = (limb << bit_shift) | carry;
                carry = (limb >> (32 - bit_shift)) as u32;
            }
            proof {
                lemma_val_push(out@, d);
                lemma_bpow_succ((limb_shift + i) as nat);
                lemma_bpow_adds(limb_shift as nat, i as nat);
                assert(digit(s, i as int) == limb);
                let wi = bpow(i as nat);
                assert(w == wl * wi);
                assert(d + carry * base() == limb * p + old_carry);
                assert(d * w + carry * (w * base()) == (limb * p + old_carry) * w) by (nonlinear_arith)
                    requires
                        d + carry * base() == limb * p + old_carry,
                ;
                assert((limb * p + old_carry) * w == old_carry * w + limb * wi * p * wl) by (nonlinear_arith)
                    requires
                        w == wl * wi,
                ;
                assert(val_upto(s, i as nat) * p * wl + limb * wi * p * wl == (val_upto(s, i as nat) + limb
                    * wi) * p * wl) by (nonlinear_arith);
            }
            out.push(d);
            i = i + 1;
        }
        if carry != 0 {
            proof {
                lemma_val_push(out@, carry);
            }
            out.push(carry);
        }
        proof {
            lemma_val_upto_beyond(s, len as nat);
            assert(limbs_value(s) * p * wl == limbs_value(s) * (p * wl)) by (nonlinear_arith);
        }
        BigUint::from_limbs(out)
    }

    pub fn shr(&self, n: usize) -> (r: BigUint)
        ensures
            r@ == self@ / pow2(n as nat),
    {
        proof {
            use_type_invariant(self);
        }
        let limb_shift = n / 32;
        let bit_shift = (n % 32) as u32;
        let len = self.limbs.len();
        let ghost s = self.limbs@;
        proof {
            lemma_shift_weight(n as nat, limb_shift as nat, bit_shift as nat);
            lemma_pow2_pos(bit_shift as nat);
            lemma_bpow_pos(limb_shift as nat);
        }
        if limb_shift >= len {
            proof {
                lemma_val_upto_bound(s, len as nat);
                lemma_bpow_mono(len as nat, limb_shift as nat);
                assert(bpow(limb_shift as nat) <= bpow(limb_shift as nat) * pow2(bit_shift as nat))
                    by (nonlinear_arith)
                    requires
                        pow2(bit_shift as nat) > 0,
                ;
                lemma_fundamental_div_mod_converse(limbs_value(s) as int, pow2(n as nat) as int, 0, limbs_value(s) as int);
            }
            return BigUint::zero();
        }
        let ghost p = pow2(bit_shift as nat);
        proof {
            if bit_shift > 0 {
                lemma_u32_pow2_no_overflow(bit_shift as nat);
                lemma_u32_shl_is_mul(1u32, bit_shift);
                lemma_u64_pow2_no_overflow((32 - bit_shift) as nat);
                lemma_u64_shl_is_mul(1u64, (32 - bit_shift) as u64);
            } else {
                lemma2_to64();
            }
        }
        let mask: u32 = if bit_shift == 0 { 0 } else { (1u32 << bit_shift) - 1 };
        proof {
            assert(s[limb_shift as int] & 0u32 == 0u32) by (bit_vector);
        }
        let mut out: Vec<u32> = Vec::new();
        let mut i = limb_shift;
        let ghost first_low = s[limb_shift as int] & mask;
        proof {
            assert(s.subrange(limb_shift as int, limb_shift as int) =~= Seq::<u32>::empty());
            assert(limbs_value(Seq::<u32>::empty()) == 0);
            assert(bpow(0) == 1);
            if bit_shift > 0 {
                lemma_shr_bits(s[limb_shift as int], 0u32, bit_shift);
            }
            assert(0 * p == 0);
            assert(first_low * bpow(0) == first_low) by (nonlinear_arith)
                requires
                    bpow(0) == 1,
            ;
        }
        while i < len
            invariant
                len == s.len(),
                s == self.limbs@,
                limb_shift < len,
                limb_shift <= i <= len,
                out@.len() == i - limb_shift,
                bit_shift < 32,
                p == pow2(bit_shift as nat),
                bit_shift > 0 ==> (1u32 << bit_shift) == p && mask == low_mask(bit_shift),
                bit_shift > 0 ==> (1u64 << ((32u64 - bit_shift as u64) as u64)) == pow2((32 - bit_shift) as nat),
                bit_shift == 0 ==> p == 1 && mask == 0,
                first_low == s[limb_shift as int] & mask,
                first_low < p,
                limbs_value(out@) * p + first_low == limbs_value(s.subrange(limb_shift as int, i as int))
                    + (if i < len { s[i as int] & mask } else { 0u32 }) * bpow((i - limb_shift) as nat),
            decreases len - i,
        {
            let x = self.limbs[i];
            let y: u32 = if i + 1 < len { self.limbs[i + 1] } else { 0 };
            let mut v = x >> bit_shift;
            if bit_shift > 0 {
                if i + 1 < len {
                    v = v | (y << (32 - bit_shift));
                } else {
                    proof {
                        assert(x >> bit_shift == (x >> bit_shift) | (0u32 << ((32u32 - bit_shift) as u32))) by (bit_vector);
                    }
                }
            }
            proof {
                let j = (i - limb_shift) as nat;
                let w = bpow(j);
                let lo_x = (x & mask) as nat;
                let lo_y = (y & mask) as nat;
                if bit_shift > 0 {
                    lemma_shr_bits(x, y, bit_shift);
                    assert(v * p == x - lo_x + lo_y * base()) by (nonlinear_arith)
                        requires
                            v == (x >> bit_shift) as nat + lo_y * pow2((32 - bit_shift) as nat),
                            (x >> bit_shift) as nat * p + lo_x == x,
                            pow2((32 - bit_shift) as nat) * p == base(),
                    ;
                } else {
                    assert(x >> 0u32 == x) by (bit_vector);
                    assert(x & 0u32 == 0u32) by (bit_vector);
                    assert(y & 0u32 == 0u32) by (bit_vector);
                    assert(v == x && lo_x == 0 && lo_y == 0 && p == 1);
                    assert(v * p == x - lo_x + lo_y * base()) by (nonlinear_arith)
                        requires
                            v == x,
                            lo_x == 0,
                            lo_y == 0,
                            p == 1,
                    ;
                }
                lemma_val_push(out@, v);
                let sub_i = s.subrange(limb_shift as int, i as int);
                assert(s.subrange(limb_shift as int, (i + 1) as int) =~= sub_i.push(x));
                lemma_val_push(sub_i, x);
                lemma_bpow_succ(j);
                assert((limbs_value(out@) + v * w) * p == limbs_value(out@) * p + (v * p) * w) by (nonlinear_arith);
                assert((x - lo_x + lo_y * base()) * w == x * w - lo_x * w + lo_y * (w * base())) by (nonlinear_arith);
                if i + 1 < len {
                    assert(y == s[i + 1]);
                } else {
                    assert(lo_y == 0) by {
                        assert(0u32 & mask == 0u32) by (bit_vector);
                    }
                }
            }
            out.push(v);
            i = i + 1;
        }
        proof {
            let h = limbs_value(s.subrange(limb_shift as int, len as int));
            lemma_val_split(s, limb_shift as nat);
            lemma_val_upto_bound(s, limb_shift as nat);
            let wl = bpow(limb_shift as nat);
            assert(0 * bpow((len - limb_shift) as nat) == 0);
            lemma_fundamental_div_mod_converse(limbs_value(out@) as int, 1, limbs_value(out@) as int, 0);
            lemma_mul_is_commutative(wl as int, h as int);
            lemma_fundamental_div_mod_converse(limbs_value(s) as int, wl as int, h as int, val_upto(s, limb_shift as nat) as int);
            lemma_fundamental_div_mod_converse(h as int, p as int, limbs_value(out@) as int, first_low as int);
            lemma_div_denominator(limbs_value(s) as int, wl as int, p as int);
        }
        BigUint::from_limbs(out)
    }
}

} // verus!

verus! {

impl Clone for BigUint {
    fn clone(&self) -> (r: Self)
        ensures
            r@ == self@,
    {
        proof {
            use_type_invariant(self);
        }
        let limbs = self.limbs.clone();
        proof {
            assert(limbs@ =~= self.limbs@);
        }
        BigUint { limbs }
    }
}

impl PartialEq for BigUint {
    fn eq(&self, other: &Self) -> (r: bool) {
        proof {
            use_type_invariant(self);
            use_type_invariant(other);
        }
        let n = self.limbs.len();
        if n != other.limbs.len() {
            proof {
                if self@ == other@ {
                    lemma_canonical(self.limbs@, other.limbs@);
                }
            }
            return false;
        }
        let mut i: usize = 0;
        while i < n
            invariant
                n == self.limbs@.len(),
                n == other.limbs@.len(),
                is_trimmed(self.limbs@),
                is_trimmed(other.limbs@),
                i <= n,
                forall|j: int| 0 <= j < i ==> self.limbs@[j] == other.limbs@[j],
            decreases n - i,
        {
            if self.limbs[i] != other.limbs[i] {
                proof {
                    if self@ == other@ {
                        lemma_canonical(self.limbs@, other.limbs@);
                    }
                }
                return false;
            }
            i = i + 1;
        }
        proof {
            assert(self.limbs@ =~= other.limbs@);
        }
        true
    }
}

impl vstd::std_specs::cmp::PartialEqSpecImpl for BigUint {
    open spec fn obeys_eq_spec() -> bool {
        true
    }

    open spec fn eq_spec(&self, other: &Self) -> bool {
        self@ == other@
    }
}

impl Eq for BigUint {}

/// Bits `0..=b` of `x` are clear.
pub open spec fn low_clear(x: u32, b: u32) -> bool {
    (x as u64) & (((2u64 << (b as u64)) - 1u64) as u64) == 0
}

/// Every bit of `q` at or below position `i`, counted across the whole
/// number, is clear.
pub open spec fn clear_through(q: Seq<u32>, i: nat) -> bool {
    &&& i / 32 < q.len()
    &&& forall|j: int| 0 <= j < i / 32 ==> q[j] == 0
    &&& low_clear(q[(i / 32) as int], (i % 32) as u32)
}

/// Setting a bit that is clear adds its weight, and leaves the bits below it
/// clear.
proof fn lemma_or_bit(x: u32, b: u32)
    requires
        b < 32,
        low_clear(x, b),
    ensures
        (x | (1u32 << b)) as u64 == x as u64 + (1u64 << (b as u64)),
        b > 0 ==> low_clear(x | (1u32 << b), (b - 1) as u32),
        b > 0 ==> low_clear(x, (b - 1) as u32),
{
    assert((x | (1u32 << b)) as u64 == x as u64 + (1u64 << (b as u64))) by (bit_vector)
        requires
            b < 32,
            (x as u64) & (((2u64 << (b as u64)) - 1u64) as u64) == 0,
    ;
    assert(b > 0 ==> ((x | (1u32 << b)) as u64) & (((2u64 << ((b - 1) as u32) as u64) - 1u64) as u64) == 0
        && (x as u64) & (((2u64 << ((b - 1) as u32) as u64) - 1u64) as u64) == 0) by (bit_vector)
        requires
            b < 32,
            (x as u64) & (((2u64 << (b as u64)) - 1u64) as u64) == 0,
    ;
}

/// Zero has every bit clear.
proof fn lemma_zero_clear(b: u32)
    ensures
        low_clear(0, b),
{
    assert((0u32 as u64) & (((2u64 << (b as u64)) - 1u64) as u64) == 0) by (bit_vector);
}

/// Powers of two below `2^32` as shifts.
proof fn lemma_pow2_shift(b: u32)
    requires
        b < 32,
    ensures
        (1u64 << (b as u64)) == pow2(b as nat),
        (1u32 << b) == pow2(b as nat),
{
    lemma_u64_pow2_no_overflow(b as nat);
    lemma_u64_shl_is_mul(1u64, b as u64);
    lemma_u32_pow2_no_overflow(b as nat);
    lemma_u32_shl_is_mul(1u32, b);
}

/// Set bit `b` of limb `k` in a number whose bits at and below that position
/// are clear.
fn set_bit(q: &mut Vec<u32>, k: usize, b: u32)
    requires
        b < 32,
        clear_through(old(q)@, (32 * k + b) as nat),
    ensures
        final(q)@.len() == old(q)@.len(),
        limbs_value(final(q)@) == limbs_value(old(q)@) + pow2((32 * k + b) as nat),
        32 * k + b > 0 ==> clear_through(final(q)@, (32 * k + b - 1) as nat),
{
    let ghost i: nat = (32 * k + b) as nat;
    proof {
        assert(i / 32 == k && i % 32 == b);
    }
    let x = q[k];
    proof {
        lemma_pow2_shift(b);
        lemma_or_bit(x, b);
    }
    let y = x | (1u32 << b);
    q.set(k, y);
    proof {
        let old_q = old(q)@;
        let w = bpow(k as nat);
        lemma_val_update(old_q, k as int, y, old_q.len());
        lemma_bpow_pow2(k as nat);
        lemma_pow2_adds(32 * k as nat, b as nat);
        assert(y == x + pow2(b as nat));
        assert(y * w == x * w + pow2(b as nat) * w) by (nonlinear_arith)
            requires
                y == x + pow2(b as nat),
        ;
        lemma_mul_is_commutative(pow2(b as nat) as int, w as int);
        if i > 0 {
            if b > 0 {
                assert((i - 1) / 32 == k);
                assert((i - 1) % 32 == b - 1);
            } else {
                assert((i - 1) / 32 == k - 1);
                assert(final(q)@[k - 1] == 0);
                lemma_zero_clear(31u32);
            }
        }
    }
}

/// Moving down one bit keeps the bits below clear.
proof fn lemma_clear_step(q: Seq<u32>, i: nat)
    requires
        clear_through(q, i),
        i > 0,
    ensures
        clear_through(q, (i - 1) as nat),
{
    let k = i / 32;
    let b = (i % 32) as u32;
    lemma_or_bit(q[k as int], b);
    if b > 0 {
        assert((i - 1) / 32 == k);
        assert((i - 1) % 32 == b - 1);
    } else {
        assert((i - 1) / 32 == k - 1);
        lemma_zero_clear(31u32);
    }
}

/// Division by a non-zero limb.
proof fn lemma_div_limb_step(rem: nat, limb: nat, d: nat)
    requires
        d > 0,
        d < base(),
        rem < d,
        limb < base(),
    ensures
        (rem * base() + limb) / d < base(),
        rem * base() + limb < 0x1_0000_0000_0000_0000,
{
    assert(rem * base() + limb < d * base()) by (nonlinear_arith)
        requires
            rem < d,
            limb < base(),
    ;
    assert(d * base() < 0x1_0000_0000_0000_0000) by (nonlinear_arith)
        requires
            d < base(),
    ;
    lemma_div_strict_upper(rem * base() + limb, d, base());
}

proof fn lemma_div_strict_upper(x: nat, d: nat, b: nat)
    requires
        d > 0,
        x < d * b,
    ensures
        x / d < b,
{
    lemma_fundamental_div_mod(x as int, d as int);
    if x / d >= b {
        assert(d * (x / d) >= d * b) by (nonlinear_arith)
            requires
                x / d >= b,
                d > 0,
        ;
    }
}

impl BigUint {
    /// Divide by a value that fits in a limb.
    pub(crate) fn divmod_small(&self, divisor: u32) -> (r: (BigUint, u32))
        requires
            divisor != 0,
        ensures
            r.0@ == self@ / (divisor as nat),
            r.1 == self@ % (divisor as nat),
    {
        proof {
            use_type_invariant(self);
        }
        let n = self.limbs.len();
        let mut out = zeros(n);
        let mut rem: u64 = 0;
        let ghost s = self.limbs@;
        let d = divisor as u64;
        let mut i = n;
        proof {
            assert(s.subrange(n as int, n as int) =~= Seq::<u32>::empty());
            assert(out@.subrange(n as int, n as int) =~= Seq::<u32>::empty());
            assert(limbs_value(Seq::<u32>::empty()) == 0);
            assert(0 * d == 0);
        }
        while i > 0
            invariant
                n == s.len(),
                s == self.limbs@,
                out@.len() == n,
                i <= n,
                d == divisor,
                d > 0,
                rem < d,
                limbs_value(s.subrange(i as int, n as int)) == limbs_value(out@.subrange(i as int, n as int))
                    * d + rem,
            decreases i,
        {
            let limb = self.limbs[i - 1];
            proof {
                lemma_div_limb_step(rem as nat, limb as nat, d as nat);
                assert((rem << 32u64) | (limb as u64) == rem * 0x1_0000_0000u64 + limb as u64) by (bit_vector)
                    requires
                        rem < 0x1_0000_0000u64,
                ;
            }
            let cur = (rem << 32) | limb as u64;
            let q = cur / d;
            let ghost old_out = out@;
            let ghost old_rem = rem;
            out.set(i - 1, q as u32);
            rem = cur % d;
            proof {
                let hi_s = s.subrange(i as int, n as int);
                let hi_o = old_out.subrange(i as int, n as int);
                assert(s.subrange(i - 1, n as int) =~= seq![limb] + hi_s);
                assert(out@.subrange(i - 1, n as int) =~= seq![q as u32] + hi_o);
                lemma_val_prepend(s.subrange(i - 1, n as int), limb, hi_s);
                lemma_val_prepend(out@.subrange(i - 1, n as int), q as u32, hi_o);
                lemma_fundamental_div_mod(cur as int, d as int);
                let vo = limbs_value(hi_o);
                assert(limb + base() * (vo * d + old_rem) == (q + base() * vo) * d + rem) by (nonlinear_arith)
                    requires
                        cur == old_rem * base() + limb,
                        cur == d * q + rem,
                ;
            }
            i = i - 1;
        }
        proof {
            assert(s.subrange(0, n as int) =~= s);
            assert(out@.subrange(0, n as int) =~= out@);
            lemma_fundamental_div_mod_converse(limbs_value(s) as int, d as int, limbs_value(out@) as int, rem as int);
        }
        (BigUint::from_limbs(out), rem as u32)
    }

    /// `self * factor + addend`.
    pub(crate) fn mul_small_add(&self, factor: u32, addend: u32) -> (r: BigUint)
        ensures
            r@ == self@ * factor + addend,
    {
        let n = self.limbs.len();
        let mut out: Vec<u32> = Vec::new();
        let mut carry = addend as u64;
        let ghost s = self.limbs@;
        let mut i: usize = 0;
        proof {
            assert(val_upto(s, 0) == 0);
            assert(0 * factor == 0);
            lemma_bpow_small();
        }
        while i < n
            invariant
                n == s.len(),
                s == self.limbs@,
                i <= n,
                out@.len() == i,
                carry < 0x1_0000_0000,
                limbs_value(out@) + carry * bpow(i as nat) == val_upto(s, i as nat) * factor + addend,
            decreases n - i,
        {
            let limb = self.limbs[i];
            proof {
                assert(limb as u64 * factor as u64 <= 0xffff_fffe_0000_0001u64) by (nonlinear_arith)
                    requires
                        limb < 0x1_0000_0000u64,
                        factor < 0x1_0000_0000u64,
                ;
            }
            let cur = limb as u64 * factor as u64 + carry;
            proof {
                lemma_push_carry(out@, cur);
                assert(cur >> 32u64 < 0x1_0000_0000u64) by (bit_vector);
                assert(digit(s, i as int) == limb);
                let w = bpow(i as nat);
                assert((limb * factor + carry) * w == carry * w + (limb * w) * factor) by (nonlinear_arith);
                assert(val_upto(s, i as nat) * factor + (limb * w) * factor == (val_upto(s, i as nat) + limb
                    * w) * factor) by (nonlinear_arith);
            }
            out.push(cur as u32);
            carry = cur >> 32;
            i = i + 1;
        }
        let ghost before = limbs_value(out@) + carry * bpow(n as nat);
        while carry != 0
            invariant
                carry < 0x1_0000_0000,
                limbs_value(out@) + carry * bpow(out@.len()) == val_upto(s, n as nat) * factor + addend,
            decreases carry,
        {
            proof {
                lemma_push_carry(out@, carry);
                assert(carry >> 32u64 == 0) by (bit_vector)
                    requires
                        carry < 0x1_0000_0000u64,
                ;
                assert((carry as u32) as u64 == carry) by (bit_vector)
                    requires
                        carry < 0x1_0000_0000u64,
                ;
            }
            out.push(carry as u32);
            carry = carry >> 32;
        }
        proof {
            lemma_val_upto_beyond(s, n as nat);
            assert(0 * bpow(out@.len()) == 0);
        }
        BigUint::from_limbs(out)
    }
}

} // verus!

verus! {

/// A larger number needs at least as many bits.
pub proof fn lemma_bit_len_mono(a: nat, b: nat)
    requires
        a <= b,
    ensures
        bit_len(a) <= bit_len(b),
{
    lemma_bit_len_bounds(a);
    lemma_bit_len_bounds(b);
    if bit_len(a) > bit_len(b) {
        lemma_pow2_increases(bit_len(b), (bit_len(a) - 1) as nat);
    }
}

/// Long division starts with a remainder below twice the shifted divisor.
proof fn lemma_divmod_start(x: nat, d: nat, shift: nat)
    requires
        d > 0,
        bit_len(d) <= bit_len(x),
        shift == bit_len(x) - bit_len(d),
    ensures
        x < d * pow2(shift + 1),
{
    lemma_bit_len_bounds(x);
    lemma_bit_len_bounds(d);
    let bd = bit_len(d);
    assert(bd > 0);
    lemma_pow2_adds((bd - 1) as nat, shift + 1);
    assert((bd - 1) as nat + shift + 1 == bit_len(x));
    lemma_mul_inequality(pow2((bd - 1) as nat) as int, d as int, pow2(shift + 1) as int);
}

/// One step of long division: taking the shifted divisor away when it fits
/// keeps the quotient and remainder in balance and the remainder below it.
proof fn lemma_divmod_take(rem: nat, q: nat, d: nat, p: nat, x: nat)
    requires
        rem + q * d == x,
        d * p <= rem,
        rem < d * (2 * p),
    ensures
        (rem - d * p) + (q + p) * d == x,
        rem - d * p < d * p,
{
    assert((q + p) * d == q * d + d * p) by (nonlinear_arith);
    assert(d * (2 * p) == 2 * (d * p)) by (nonlinear_arith);
}

/// Halving the shifted divisor moves it down one bit.
proof fn lemma_divmod_halve(d: nat, i: nat)
    requires
        i > 0,
    ensures
        d * pow2(i) / pow2(1) == d * pow2((i - 1) as nat),
        d * pow2(i) == d * (2 * pow2((i - 1) as nat)),
{
    lemma_pow2_unfold(i);
    lemma2_to64();
    let p = pow2((i - 1) as nat);
    assert(d * (2 * p) == (d * p) * 2) by (nonlinear_arith);
    lemma_div_multiples_vanish((d * p) as int, 2);
}

/// The shifted divisor at bit `i`, in terms of the one at `i + 1`.
proof fn lemma_pow2_double(d: nat, i: nat)
    ensures
        d * pow2(i + 1) == d * (2 * pow2(i)),
{
    lemma_pow2_unfold(i + 1);
}

/// Quotient and remainder from the balance of a finished long division.
proof fn lemma_divmod_end(rem: nat, q: nat, d: nat, x: nat)
    requires
        d > 0,
        rem + q * d == x,
        rem < d,
    ensures
        q == x / d,
        rem == x % d,
{
    lemma_mul_is_commutative(q as int, d as int);
    lemma_fundamental_div_mod_converse(x as int, d as int, q as int, rem as int);
}

/// A number smaller than the divisor is its own remainder.
proof fn lemma_divmod_small_case(x: nat, d: nat)
    requires
        x < d,
    ensures
        x / d == 0,
        x % d == x,
{
    lemma_fundamental_div_mod_converse(x as int, d as int, 0, x as int);
}

/// All limbs zero, so every bit up to the top of the last limb is clear.
proof fn lemma_zeros_clear(q: Seq<u32>, i: nat)
    requires
        q.len() == i / 32 + 1,
        forall|j: int| 0 <= j < q.len() ==> q[j] == 0,
    ensures
        clear_through(q, i),
{
    lemma_zero_clear((i % 32) as u32);
}

impl BigUint {
    /// `self < other`.
    fn less_than(&self, other: &BigUint) -> (r: bool)
        ensures
            r == (self@ < other@),
    {
        match self.cmp_to(other) {
            Ordering::Less => true,
            _ => false,
        }
    }
}

impl BigUint {
    /// The number of significant bits in the top limb, from 1 to 32.
    fn top_bits(&self) -> (r: u32)
        requires
            self@ > 0,
        ensures
            1 <= r <= 32,
            bit_len(self@) == 32 * (self.limb_seq().len() - 1) + r,
            self.limb_seq().len() > 0,
    {
        proof {
            use_type_invariant(self);
        }
        let n = self.limbs.len();
        let top = self.limbs[n - 1];
        let lz = top.leading_zeros();
        proof {
            lemma_top_bits(top);
            lemma_value_bits(self.limbs@, lz);
        }
        32 - lz
    }
}

impl BigUint {
    /// Quotient and remainder, by binary long division: one shift and subtract
    /// per bit. `None` when dividing by zero.
    pub fn divmod(&self, divisor: &BigUint) -> (r: Option<(BigUint, BigUint)>)
        ensures
            match r {
                None => divisor@ == 0,
                Some((q, m)) => divisor@ != 0 && q@ == self@ / divisor@ && m@ == self@ % divisor@,
            },
    {
        if divisor.is_zero() {
            return None;
        }
        if self.less_than(divisor) {
            proof {
                lemma_divmod_small_case(self@, divisor@);
            }
            return Some((BigUint::zero(), self.clone()));
        }
        let ghost x = self@;
        let ghost d = divisor@;
        proof {
            lemma_bit_len_mono(d, x);
        }
        // The shift that lines the divisor's top bit up with ours, split into
        // whole limbs and the bits left over.
        let ts = self.top_bits();
        let td = divisor.top_bits();
        let ls = self.limbs.len();
        let ld = divisor.limbs.len();
        let (limb_shift, bit_shift) = if ts >= td {
            (ls - ld, ts - td)
        } else {
            (ls - ld - 1, ts + 32 - td)
        };
        let ghost shift: nat = (32 * limb_shift + bit_shift) as nat;
        proof {
            assert(shift == bit_len(x) - bit_len(d));
            lemma_bpow_pow2(limb_shift as nat);
            lemma_pow2_adds(bit_shift as nat, 32 * limb_shift as nat);
        }
        let mut window = divisor.shl_parts(limb_shift, bit_shift);
        let mut rem = self.clone();
        let mut quotient = zeros(limb_shift + 1);
        proof {
            lemma_divmod_start(x, d, shift);
            lemma_zeros_clear(quotient@, shift);
            assert(0 * d == 0);
        }
        // Bits still to do: every bit of the limbs below `j`, and in limb `j`
        // the bits up to `top`.
        let mut j = limb_shift + 1;
        let mut top = bit_shift;
        while j > 0
            invariant
                d == divisor@,
                d > 0,
                j <= limb_shift + 1,
                top < 32,
                quotient@.len() == limb_shift + 1,
                j > 0 ==> window@ == d * pow2((32 * (j - 1) + top) as nat),
                j > 0 ==> clear_through(quotient@, (32 * (j - 1) + top) as nat),
                rem@ + limbs_value(quotient@) * d == x,
                j > 0 ==> rem@ < d * pow2((32 * (j - 1) + top + 1) as nat),
                j == 0 ==> rem@ < d,
            decreases j,
        {
            let jl = j - 1;
            let mut b = top + 1;
            while b > 0
                invariant
                    d == divisor@,
                    d > 0,
                    jl < j,
                    j <= limb_shift + 1,
                    b <= 32,
                    quotient@.len() == limb_shift + 1,
                    b > 0 ==> window@ == d * pow2((32 * jl + b - 1) as nat),
                    b > 0 ==> clear_through(quotient@, (32 * jl + b - 1) as nat),
                    jl > 0 && b == 0 ==> window@ == d * pow2((32 * jl - 1) as nat),
                    jl > 0 && b == 0 ==> clear_through(quotient@, (32 * jl - 1) as nat),
                    rem@ + limbs_value(quotient@) * d == x,
                    rem@ < d * pow2((32 * jl + b) as nat),
                decreases b,
            {
                let bi = b - 1;
                let ghost i: nat = (32 * jl + bi) as nat;
                let ghost p = pow2(i);
                proof {
                    lemma_pow2_double(d, i);
                }
                if !rem.less_than(&window) {
                    let taken = rem.sub(&window).unwrap();
                    proof {
                        lemma_divmod_take(rem@, limbs_value(quotient@), d, p, x);
                    }
                    rem = taken;
                    set_bit(&mut quotient, jl, bi);
                } else {
                    proof {
                        if i > 0 {
                            lemma_clear_step(quotient@, i);
                        }
                    }
                }
                proof {
                    if i > 0 {
                        lemma_divmod_halve(d, i);
                    }
                }
                window = window.shr(1);
                b = bi;
            }
            proof {
                if jl == 0 {
                    lemma2_to64();
                    assert(32 * jl + b == 0);
                    assert(d * pow2(0) == d) by (nonlinear_arith)
                        requires
                            pow2(0) == 1,
                    ;
                }
            }
            j = jl;
            top = 31;
        }
        proof {
            lemma_divmod_end(rem@, limbs_value(quotient@), d, x);
        }
        Some((BigUint::from_limbs(quotient), rem))
    }
}

} // verus!

verus! {

/// How many times `f` divides `n`; zero for zero.
pub open spec fn multiplicity(n: nat, f: nat) -> nat
    decreases n,
{
    if f >= 2 && n > 0 && n % f == 0 {
        proof {
            lemma_div_decreases(n as int, f as int);
        }
        1 + multiplicity(n / f, f)
    } else {
        0
    }
}

/// A number is its largest power of `f` times what is left.
pub proof fn lemma_multiplicity_split(n: nat, f: nat)
    requires
        f >= 2,
    ensures
        pow(f as int, multiplicity(n, f)) > 0,
        n == pow(f as int, multiplicity(n, f)) * (n / (pow(f as int, multiplicity(n, f)) as nat)),
    decreases n,
{
    let m = multiplicity(n, f);
    reveal(pow);
    if n > 0 && n % f == 0 {
        let q = n / f;
        lemma_div_decreases(n as int, f as int);
        lemma_multiplicity_split(q, f);
        let m1 = multiplicity(q, f);
        let p1 = pow(f as int, m1);
        assert(m == m1 + 1);
        assert(pow(f as int, m) == f * p1);
        lemma_fundamental_div_mod(n as int, f as int);
        lemma_div_denominator(n as int, f as int, p1);
        assert(f * p1 > 0) by (nonlinear_arith)
            requires
                f >= 2,
                p1 > 0,
        ;
        let r = q / (p1 as nat);
        assert(n == (f * p1) * r) by (nonlinear_arith)
            requires
                n == f * q,
                q == p1 * r,
        ;
        assert(n / ((f * p1) as nat) == r);
        assert(pow(f as int, m) as nat == (f * p1) as nat);
    } else {
        assert(m == 0);
        assert(pow(f as int, 0) == 1);
        assert(n / 1 == n);
    }
}

/// A power of a base of at least two is at least the same power of two.
pub proof fn lemma_pow_ge_pow2(f: nat, c: nat)
    requires
        f >= 2,
    ensures
        pow(f as int, c) >= pow2(c),
        pow(f as int, c) > 0,
    decreases c,
{
    reveal(pow);
    lemma_pow2_pos(c);
    if c == 0 {
        lemma2_to64();
    } else {
        lemma_pow_ge_pow2(f, (c - 1) as nat);
        lemma_pow2_unfold(c);
        let p = pow(f as int, (c - 1) as nat);
        assert(f * p >= 2 * pow2((c - 1) as nat)) by (nonlinear_arith)
            requires
                f >= 2,
                p >= pow2((c - 1) as nat),
                pow2((c - 1) as nat) >= 0,
        ;
    }
}

/// One more factor taken out: the quotient times one more power.
proof fn lemma_factor_step(x: nat, v: nat, q: nat, f: nat, c: nat)
    requires
        f >= 2,
        x == v * pow(f as int, c),
        v == f * q,
        v > 0,
    ensures
        x == q * pow(f as int, c + 1),
{
    let p = pow(f as int, c);
    reveal(pow);
    assert(pow(f as int, c + 1) == f * p);
    assert(x == q * (f * p)) by (nonlinear_arith)
        requires
            x == v * p,
            v == f * q,
    ;
    lemma_pow_ge_pow2(f, c + 1);
    assert(q > 0) by (nonlinear_arith)
        requires
            v == f * q,
            v > 0,
    ;
    assert(q * (f * p) >= f * p) by (nonlinear_arith)
        requires
            q > 0,
            f * p >= 0,
    ;
}

/// Each factor taken out halves the number at least, so a number holds no
/// more factors than it has bits.
pub proof fn lemma_multiplicity_bits(n: nat, f: nat)
    requires
        f >= 2,
    ensures
        multiplicity(n, f) <= bit_len(n),
    decreases n,
{
    if n > 0 && n % f == 0 {
        lemma_div_decreases(n as int, f as int);
        lemma_multiplicity_bits(n / f, f);
        lemma_div_is_ordered_by_denominator(n as int, 2, f as int);
        lemma_bit_len_mono(n / f, n / 2);
    }
}

impl BigUint {
    /// The greatest common divisor, by Euclid's algorithm.
    pub fn gcd(&self, other: &BigUint) -> (r: BigUint)
        ensures
            r@ == gcd_of(self@, other@),
    {
        let mut a = self.clone();
        let mut b = other.clone();
        while !b.is_zero()
            invariant
                gcd_of(a@, b@) == gcd_of(self@, other@),
            decreases b@,
        {
            let (_, r) = a.divmod(&b).unwrap();
            proof {
                lemma_mod_bound(a@ as int, b@ as int);
            }
            a = b;
            b = r;
        }
        a
    }

    /// Remove every factor of `factor`, returning what is left and how many
    /// came out. Zero has no factors to give.
    pub fn factor_out(&self, factor: u32) -> (r: (BigUint, u32))
        requires
            factor >= 2,
            multiplicity(self@, factor as nat) <= u32::MAX,
        ensures
            self@ == 0 ==> r.0@ == 0 && r.1 == 0,
            self@ > 0 ==> self@ == r.0@ * pow(factor as int, r.1 as nat) && r.0@ % (factor as nat) != 0,
            r.1 == multiplicity(self@, factor as nat),
    {
        let mut v = self.clone();
        let mut count: u32 = 0;
        proof {
            lemma_pow_ge_pow2(factor as nat, 0);
            reveal(pow);
            assert(pow(factor as int, 0) == 1);
        }
        loop
            invariant
                factor >= 2,
                multiplicity(self@, factor as nat) <= u32::MAX,
                self@ == v@ * pow(factor as int, count as nat),
                self@ == 0 ==> count == 0,
                multiplicity(self@, factor as nat) == count + multiplicity(v@, factor as nat),
            decreases v@,
        {
            let (q, r) = v.divmod_small(factor);
            proof {
                lemma_pow_ge_pow2(factor as nat, count as nat);
                lemma_fundamental_div_mod(v@ as int, factor as int);
            }
            if r != 0 || v.is_zero() {
                proof {
                    let p = pow(factor as int, count as nat);
                    if self@ == 0 {
                        assert(v@ == 0) by (nonlinear_arith)
                            requires
                                v@ * p == 0,
                                p > 0,
                        ;
                    }
                    if self@ > 0 && v@ == 0 {
                        assert(v@ * p == 0);
                    }
                }
                return (v, count);
            }
            proof {
                let p = pow(factor as int, count as nat);
                assert(v@ * p > 0) by (nonlinear_arith)
                    requires
                        v@ > 0,
                        p > 0,
                ;
                lemma_factor_step(self@, v@, q@, factor as nat, count as nat);
                assert(q@ < v@) by (nonlinear_arith)
                    requires
                        v@ == factor * q@,
                        v@ > 0,
                        factor >= 2,
                ;
            }
            v = q;
            count = count + 1;
        }
    }

    /// `base` raised to `exp`.
    pub fn pow_small(base: u32, exp: u32) -> (r: BigUint)
        ensures
            r@ == pow(base as int, exp as nat),
    {
        let mut out = BigUint::one();
        let mut i: u32 = 0;
        proof {
            reveal(pow);
        }
        while i < exp
            invariant
                i <= exp,
                out@ == pow(base as int, i as nat),
            decreases exp - i,
        {
            proof {
                reveal(pow);
                assert(pow(base as int, (i + 1) as nat) == base * pow(base as int, i as nat));
                lemma_mul_is_commutative(base as int, pow(base as int, i as nat));
            }
            out = out.mul_small_add(base, 0);
            i = i + 1;
        }
        out
    }
}

} // verus!

verus! {

/// Dividing a product by one of its factors gives the other back with
/// nothing over: `divmod` undoes `mul` for a non-zero divisor.
pub proof fn lemma_divmod_undoes_mul(x: &BigUint, d: &BigUint)
    requires
        d@ != 0,
    ensures
        (x@ * d@) / d@ == x@,
        (x@ * d@) % d@ == 0,
{
    lemma_div_multiples_vanish(x@ as int, d@ as int);
    lemma_mod_multiples_basic(x@ as int, d@ as int);
    lemma_mul_is_commutative(x@ as int, d@ as int);
}

/// Shifting left and then right by the same amount gives the value back:
/// `shr` undoes `shl`.
pub proof fn lemma_shr_undoes_shl(x: &BigUint, k: nat)
    ensures
        (x@ * pow2(k)) / pow2(k) == x@,
{
    lemma_pow2_pos(k);
    lemma_div_multiples_vanish(x@ as int, pow2(k) as int);
    lemma_mul_is_commutative(x@ as int, pow2(k) as int);
}

} // verus!
