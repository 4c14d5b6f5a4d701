//! The mathematical reading of a little-endian sequence of 32-bit limbs.
use vstd::prelude::*;
use vstd::arithmetic::div_mod::*;
use vstd::arithmetic::mul::*;
use vstd::arithmetic::power2::*;

verus! {

/// One limb's worth of range: 2^32.
pub open spec fn base() -> nat {
    0x1_0000_0000
}

/// `base()` raised to the `k`th power: the weight of limb `k`.
pub open spec fn bpow(k: nat) -> nat
    decreases k,
{
    if k == 0 {
        1
    } else {
        base() * bpow((k - 1) as nat)
    }
}

/// Limb `i` of `s`, reading missing limbs as zero.
pub open spec fn digit(s: Seq<u32>, i: int) -> nat {
    if 0 <= i < s.len() {
        s[i] as nat
    } else {
        0
    }
}

/// The value of the lowest `n` limbs of `s`.
pub open spec fn val_upto(s: Seq<u32>, n: nat) -> nat
    decreases n,
{
    if n == 0 {
        0
    } else {
        val_upto(s, (n - 1) as nat) + digit(s, n - 1) * bpow((n - 1) as nat)
    }
}

/// The number a limb sequence stands for.
pub open spec fn limbs_value(s: Seq<u32>) -> nat {
    val_upto(s, s.len())
}

/// No trailing zero limb, so every number has exactly one representation.
pub open spec fn is_trimmed(s: Seq<u32>) -> bool {
    s.len() == 0 || s.last() != 0
}

/// The first few weights, spelled out.
pub proof fn lemma_bpow_small()
    ensures
        bpow(0) == 1,
        bpow(1) == base(),
        bpow(2) == base() * base(),
{
    assert(bpow(0) == 1);
    assert(bpow(1) == base() * bpow(0));
    assert(bpow(2) == base() * bpow(1));
}

pub proof fn lemma_bpow_pos(k: nat)
    ensures
        bpow(k) > 0,
    decreases k,
{
    if k > 0 {
        lemma_bpow_pos((k - 1) as nat);
        lemma_mul_strictly_positive(base() as int, bpow((k - 1) as nat) as int);
    }
}

pub proof fn lemma_bpow_succ(k: nat)
    ensures
        bpow(k + 1) == bpow(k) * base(),
        bpow(k + 1) > bpow(k),
{
    lemma_bpow_pos(k);
    assert(bpow(k + 1) == base() * bpow(k));
    lemma_mul_is_commutative(base() as int, bpow(k) as int);
}

pub proof fn lemma_bpow_mono(j: nat, k: nat)
    requires
        j <= k,
    ensures
        bpow(j) <= bpow(k),
    decreases k - j,
{
    if j < k {
        lemma_bpow_mono(j, (k - 1) as nat);
        lemma_bpow_succ((k - 1) as nat);
    }
}

pub proof fn lemma_bpow_adds(j: nat, k: nat)
    ensures
        bpow(j + k) == bpow(j) * bpow(k),
    decreases k,
{
    if k == 0 {
        assert(bpow(j) * 1 == bpow(j));
    } else {
        lemma_bpow_adds(j, (k - 1) as nat);
        assert(bpow(j + k) == base() * bpow((j + k - 1) as nat));
        assert(bpow(k) == base() * bpow((k - 1) as nat));
        lemma_mul_is_associative(base() as int, bpow(j) as int, bpow((k - 1) as nat) as int);
        lemma_mul_is_commutative(base() as int, bpow(j) as int);
        lemma_mul_is_associative(bpow(j) as int, base() as int, bpow((k - 1) as nat) as int);
    }
}

/// A digit times its weight stays below the next weight.
pub proof fn lemma_digit_weight(d: nat, k: nat)
    requires
        d < base(),
    ensures
        d * bpow(k) < bpow(k + 1),
        d * bpow(k) + bpow(k) <= bpow(k + 1),
{
    lemma_bpow_succ(k);
    lemma_bpow_pos(k);
    lemma_mul_inequality(d as int + 1, base() as int, bpow(k) as int);
    lemma_mul_is_distributive_add_other_way(bpow(k) as int, d as int, 1);
    lemma_mul_is_commutative(base() as int, bpow(k) as int);
}

pub proof fn lemma_val_upto_bound(s: Seq<u32>, n: nat)
    ensures
        val_upto(s, n) < bpow(n),
    decreases n,
{
    if n == 0 {
    } else {
        let k = (n - 1) as nat;
        lemma_val_upto_bound(s, k);
        lemma_digit_weight(digit(s, k as int), k);
    }
}

/// Only the digits below `n` matter.
pub proof fn lemma_val_upto_ext(s: Seq<u32>, t: Seq<u32>, n: nat)
    requires
        forall|i: int| 0 <= i < n ==> digit(s, i) == digit(t, i),
    ensures
        val_upto(s, n) == val_upto(t, n),
    decreases n,
{
    if n > 0 {
        lemma_val_upto_ext(s, t, (n - 1) as nat);
        assert(digit(s, n - 1) == digit(t, n - 1));
    }
}

/// Reading past the end only adds zero limbs.
pub proof fn lemma_val_upto_beyond(s: Seq<u32>, n: nat)
    requires
        n >= s.len(),
    ensures
        val_upto(s, n) == limbs_value(s),
    decreases n,
{
    if n > s.len() {
        lemma_val_upto_beyond(s, (n - 1) as nat);
        assert(digit(s, n - 1) == 0);
    }
}

/// Appending a limb adds it at the next weight.
pub proof fn lemma_val_push(s: Seq<u32>, x: u32)
    ensures
        limbs_value(s.push(x)) == limbs_value(s) + x * bpow(s.len()),
{
    let t = s.push(x);
    assert forall|i: int| 0 <= i < s.len() implies digit(s, i) == digit(t, i) by {}
    lemma_val_upto_ext(s, t, s.len());
    assert(digit(t, s.len() as int) == x);
}

/// A trailing zero limb adds nothing.
pub proof fn lemma_val_drop_zero(s: Seq<u32>)
    requires
        s.len() > 0,
        s.last() == 0,
    ensures
        limbs_value(s.drop_last()) == limbs_value(s),
{
    let p = s.drop_last();
    assert(s =~= p.push(0u32));
    lemma_val_push(p, 0u32);
}

/// Rewriting one limb changes the value by the difference at its weight.
pub proof fn lemma_val_update(s: Seq<u32>, i: int, x: u32, n: nat)
    requires
        0 <= i < s.len(),
        i < n,
    ensures
        val_upto(s.update(i, x), n) + s[i] * bpow(i as nat) == val_upto(s, n) + x * bpow(i as nat),
    decreases n,
{
    let t = s.update(i, x);
    if n == i + 1 {
        assert forall|j: int| 0 <= j < i implies digit(s, j) == digit(t, j) by {}
        lemma_val_upto_ext(s, t, i as nat);
    } else {
        lemma_val_update(s, i, x, (n - 1) as nat);
        assert(digit(s, n - 1) == digit(t, n - 1));
    }
}

/// Two digit strings of the same length and value agree digit for digit.
pub proof fn lemma_val_upto_injective(s: Seq<u32>, t: Seq<u32>, n: nat)
    requires
        val_upto(s, n) == val_upto(t, n),
    ensures
        forall|i: int| 0 <= i < n ==> digit(s, i) == digit(t, i),
    decreases n,
{
    if n > 0 {
        let k = (n - 1) as nat;
        lemma_val_upto_bound(s, k);
        lemma_val_upto_bound(t, k);
        lemma_bpow_pos(k);
        lemma_mul_is_commutative(digit(s, k as int) as int, bpow(k) as int);
        lemma_mul_is_commutative(digit(t, k as int) as int, bpow(k) as int);
        lemma_fundamental_div_mod_converse(
            val_upto(s, n) as int,
            bpow(k) as int,
            digit(s, k as int) as int,
            val_upto(s, k) as int,
        );
        lemma_fundamental_div_mod_converse(
            val_upto(t, n) as int,
            bpow(k) as int,
            digit(t, k as int) as int,
            val_upto(t, k) as int,
        );
        lemma_val_upto_injective(s, t, k);
    }
}

/// A trimmed sequence whose top limb is non-zero is at least the weight of
/// that limb.
pub proof fn lemma_trimmed_lower(s: Seq<u32>)
    requires
        is_trimmed(s),
        s.len() > 0,
    ensures
        limbs_value(s) >= bpow((s.len() - 1) as nat),
{
    let k = (s.len() - 1) as nat;
    assert(limbs_value(s) == val_upto(s, k) + digit(s, k as int) * bpow(k));
    lemma_bpow_pos(k);
    lemma_mul_inequality(1, digit(s, k as int) as int, bpow(k) as int);
}

/// Trimmed limb sequences are canonical: equal values, equal limbs.
pub proof fn lemma_canonical(s: Seq<u32>, t: Seq<u32>)
    requires
        is_trimmed(s),
        is_trimmed(t),
        limbs_value(s) == limbs_value(t),
    ensures
        s == t,
{
    if s.len() < t.len() {
        lemma_trimmed_lower(t);
        lemma_val_upto_bound(s, s.len());
        lemma_bpow_mono(s.len(), (t.len() - 1) as nat);
        assert(false);
    } else if t.len() < s.len() {
        lemma_trimmed_lower(s);
        lemma_val_upto_bound(t, t.len());
        lemma_bpow_mono(t.len(), (s.len() - 1) as nat);
        assert(false);
    } else {
        lemma_val_upto_injective(s, t, s.len());
        assert forall|i: int| 0 <= i < s.len() implies s[i] == t[i] by {
            assert(digit(s, i) == digit(t, i));
        }
        assert(s =~= t);
    }
}

/// The value splits at any limb boundary: low limbs plus high limbs shifted.
pub proof fn lemma_val_split(s: Seq<u32>, k: nat)
    requires
        k <= s.len(),
    ensures
        limbs_value(s) == val_upto(s, k) + bpow(k) * limbs_value(s.subrange(k as int, s.len() as int)),
    decreases s.len() - k,
{
    let hi = s.subrange(k as int, s.len() as int);
    if k == s.len() {
        assert(hi.len() == 0);
        assert(limbs_value(hi) == 0);
    } else {
        lemma_val_split(s, (k + 1) as nat);
        let hi1 = s.subrange(k + 1 as int, s.len() as int);
        // hi = [s[k]] ++ hi1, so value(hi) = s[k] + base * value(hi1)
        lemma_val_prepend(hi, s[k as int], hi1);
        lemma_bpow_succ(k);
        lemma_mul_is_distributive_add(bpow(k) as int, s[k as int] as int, (base() * limbs_value(hi1)) as int);
        lemma_mul_is_associative(bpow(k) as int, base() as int, limbs_value(hi1) as int);
        lemma_mul_is_commutative(bpow(k) as int, s[k as int] as int);
        assert(digit(s, k as int) == s[k as int]);
    }
}

/// Value of a sequence written as a first limb followed by the rest.
pub proof fn lemma_val_prepend(s: Seq<u32>, x: u32, rest: Seq<u32>)
    requires
        s =~= seq![x] + rest,
    ensures
        limbs_value(s) == x + base() * limbs_value(rest),
    decreases rest.len(),
{
    if rest.len() == 0 {
        assert(limbs_value(rest) == 0);
        assert(s.len() == 1);
        assert(val_upto(s, 0) == 0);
        assert(digit(s, 0) == x);
        assert(bpow(0) == 1);
        assert(limbs_value(s) == val_upto(s, 1));
        assert(val_upto(s, 1) == val_upto(s, 0) + digit(s, 0) * bpow(0));
        assert(limbs_value(s) == x as nat);
    } else {
        let r0 = rest.drop_last();
        let last = rest.last();
        let s0 = s.drop_last();
        assert(s0 =~= seq![x] + r0);
        lemma_val_prepend(s0, x, r0);
        assert(rest =~= r0.push(last));
        assert(s =~= s0.push(last));
        lemma_val_push(r0, last);
        lemma_val_push(s0, last);
        assert(bpow(s0.len()) == base() * bpow(r0.len()));
        lemma_mul_is_associative(last as int, base() as int, bpow(r0.len()) as int);
        lemma_mul_is_commutative(last as int, base() as int);
        lemma_mul_is_associative(base() as int, last as int, bpow(r0.len()) as int);
        lemma_mul_is_distributive_add(base() as int, limbs_value(r0) as int, (last * bpow(r0.len())) as int);
        assert(limbs_value(s) == limbs_value(s0) + last * bpow(s0.len()));
        assert(limbs_value(rest) == limbs_value(r0) + last * bpow(r0.len()));
        assert(last * bpow(s0.len()) == base() * (last * bpow(r0.len())));
    }
}

} // verus!

verus! {

/// How many bits `n` needs: the position of its highest set bit, plus one.
pub open spec fn bit_len(n: nat) -> nat
    decreases n,
{
    if n == 0 {
        0
    } else {
        1 + bit_len(n / 2)
    }
}

pub proof fn lemma_bit_len_bounds(n: nat)
    ensures
        n < pow2(bit_len(n)),
        n > 0 ==> pow2((bit_len(n) - 1) as nat) <= n,
    decreases n,
{
    lemma2_to64();
    if n > 0 {
        lemma_bit_len_bounds(n / 2);
        let b = bit_len(n / 2);
        assert(bit_len(n) == b + 1);
        lemma_pow2_unfold(b + 1);
        if n / 2 > 0 {
            lemma_pow2_unfold(b);
        }
    }
}

/// The bit length is the one `b` with `2^(b-1) <= n < 2^b`.
pub proof fn lemma_bit_len_unique(n: nat, b: nat)
    requires
        n < pow2(b),
        b > 0 ==> pow2((b - 1) as nat) <= n,
    ensures
        bit_len(n) == b,
{
    lemma_bit_len_bounds(n);
    let c = bit_len(n);
    if c < b {
        lemma_pow2_increases(c, (b - 1) as nat);
    } else if c > b {
        lemma_pow2_increases(b, (c - 1) as nat);
    }
    if b == 0 {
        assert(pow2(0) == 1) by {
            lemma2_to64();
        }
    }
}

pub proof fn lemma_pow2_increases(e1: nat, e2: nat)
    requires
        e1 <= e2,
    ensures
        pow2(e1) <= pow2(e2),
{
    if e1 < e2 {
        lemma_pow2_strictly_increases(e1, e2);
    }
}

/// A limb weight is a power of two.
pub proof fn lemma_bpow_pow2(k: nat)
    ensures
        bpow(k) == pow2(32 * k),
    decreases k,
{
    if k == 0 {
        assert(pow2(0) == 1) by {
            lemma2_to64();
        }
    } else {
        lemma_bpow_pow2((k - 1) as nat);
        lemma_pow2_adds(32, (32 * (k - 1)) as nat);
        assert(pow2(32) == base()) by {
            lemma2_to64();
        }
        assert(32 * k == 32 + 32 * (k - 1)) by (nonlinear_arith)
            requires
                k > 0,
        ;
    }
}

/// Carrying a `u64` into the next limb: the low half is written, the high
/// half carries on at the next weight.
pub proof fn lemma_push_carry(out: Seq<u32>, sum: u64)
    ensures
        limbs_value(out.push(sum as u32)) + (sum >> 32u64) as nat * bpow(out.len() + 1) == limbs_value(
            out,
        ) + sum * bpow(out.len()),
{
    let k = out.len();
    lemma_val_push(out, sum as u32);
    lemma_u64_split(sum);
    lemma_bpow_succ(k);
    let lo = (sum as u32) as nat;
    let hi = (sum >> 32u64) as nat;
    let w = bpow(k);
    assert(lo * w + hi * (w * base()) == (lo + hi * base()) * w) by (nonlinear_arith);
    assert(lo + hi * base() == sum);
}

/// The two halves of a `u64`, as limb values.
pub proof fn lemma_u64_split(v: u64)
    ensures
        (v as u32) as nat + ((v >> 32u64) as u32) as nat * base() == v as nat,
        (v >> 32u64) as nat == ((v >> 32u64) as u32) as nat,
        (v as u32) as nat == v as nat % base(),
        (v >> 32u64) as nat == v as nat / base(),
{
    assert((v as u32) as u64 + ((v >> 32u64) as u32) as u64 * 0x1_0000_0000u64 == v) by (bit_vector);
    assert((v >> 32u64) == ((v >> 32u64) as u32) as u64) by (bit_vector);
    lemma_fundamental_div_mod_converse(
        v as int,
        base() as int,
        ((v >> 32u64) as u32) as int,
        (v as u32) as int,
    );
}

} // verus!

verus! {

/// Same length, same limbs above `i`, and a smaller limb at `i`: a smaller value.
pub proof fn lemma_less_at(a: Seq<u32>, b: Seq<u32>, i: int)
    requires
        a.len() == b.len(),
        0 <= i < a.len(),
        forall|j: int| i < j < a.len() ==> a[j] == b[j],
        a[i] < b[i],
    ensures
        limbs_value(a) < limbs_value(b),
{
    let n = a.len();
    let k = (i + 1) as nat;
    lemma_val_split(a, k);
    lemma_val_split(b, k);
    assert(a.subrange(k as int, n as int) =~= b.subrange(k as int, n as int));
    let w = bpow(i as nat);
    lemma_val_upto_bound(a, i as nat);
    assert(val_upto(a, k) == val_upto(a, i as nat) + digit(a, i) * w);
    assert(val_upto(b, k) == val_upto(b, i as nat) + digit(b, i) * w);
    let x = digit(a, i);
    let y = digit(b, i);
    assert(x + 1 <= y);
    assert(x * w + w <= y * w) by (nonlinear_arith)
        requires
            x + 1 <= y,
    ;
}

/// A trimmed number with more limbs is larger.
pub proof fn lemma_shorter_smaller(a: Seq<u32>, b: Seq<u32>)
    requires
        is_trimmed(b),
        a.len() < b.len(),
    ensures
        limbs_value(a) < limbs_value(b),
{
    lemma_trimmed_lower(b);
    lemma_val_upto_bound(a, a.len());
    lemma_bpow_mono(a.len(), (b.len() - 1) as nat);
}

} // verus!

verus! {

/// Rewriting limb `idx` with the low half of `cur` and carrying the high half
/// to the next weight is the same as adding `cur` at `idx` after removing
/// what was there.
pub proof fn lemma_update_carry(out: Seq<u32>, idx: int, cur: u64)
    requires
        0 <= idx < out.len(),
    ensures
        limbs_value(out.update(idx, cur as u32)) + (cur >> 32u64) as nat * bpow((idx + 1) as nat)
            + out[idx] * bpow(idx as nat) == limbs_value(out) + cur * bpow(idx as nat),
{
    let k = idx as nat;
    lemma_val_update(out, idx, cur as u32, out.len());
    lemma_u64_split(cur);
    lemma_bpow_succ(k);
    let lo = (cur as u32) as nat;
    let hi = (cur >> 32u64) as nat;
    let w = bpow(k);
    assert(lo * w + hi * (w * base()) == (lo + hi * base()) * w) by (nonlinear_arith);
}

} // verus!
