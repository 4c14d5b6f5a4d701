//! IEEE 754 binary16, as raw bits.
//!
//! There is no half-precision type to compute with, so half values are kept
//! as `u16` bits and widened to binary32 bits to compute on, rounding back to
//! half precision after every operation. These conversions work on the bits
//! alone.
use vstd::prelude::*;

verus! {

/// The binary16 bits nearest to the binary32 value with bits `bits`,
/// rounding to nearest with ties to even. Infinities stay infinities, a NaN
/// stays a NaN, a value too large becomes an infinity of its sign, and one
/// too small becomes a zero of its sign.
pub open spec fn half_of_single(bits: u32) -> u16 {
    let sign = ((bits >> 16u32) & 0x8000u32) as u16;
    let exp = ((bits >> 23u32) & 0xffu32) as int;
    let mantissa = bits & 0x007f_ffffu32;
    let unbiased = exp - 127 + 15;
    if exp == 0xff {
        sign | 0x7c00u16 | (if mantissa != 0 {
            0x0200u16
        } else {
            0u16
        })
    } else if unbiased >= 0x1f {
        sign | 0x7c00u16
    } else if unbiased < -10 {
        sign
    } else if unbiased <= 0 {
        let m = mantissa | 0x0080_0000u32;
        let shift = (14 - unbiased) as u32;
        let half = (m >> shift) as u16;
        let round_bit = 1u32 << (shift - 1) as u32;
        let up = (m & round_bit) != 0 && (m & ((3 * round_bit - 1) as u32)) != 0;
        sign | (if up {
            (half + 1) as u16
        } else {
            half
        })
    } else {
        let half = sign | ((unbiased as u16) << 10u16) | ((mantissa >> 13u32) as u16);
        let low = mantissa & 0x1fffu32;
        if low > 0x1000 || (low == 0x1000 && (mantissa & 0x2000u32) != 0) {
            (half + 1) as u16
        } else {
            half
        }
    }
}

/// How far a subnormal half mantissa shifts left before its leading bit
/// reaches the implicit-bit position.
pub open spec fn normal_shift(m: u32) -> nat
    decreases 0x800 - m,
{
    if m == 0 || m >= 0x400 || (m & 0x400u32) != 0 {
        0
    } else {
        1 + normal_shift((m * 2) as u32)
    }
}

/// The binary32 bits of the same value as the binary16 bits `half`. Every
/// half value is exactly a single value, subnormals included.
pub open spec fn single_of_half(half: u16) -> u32 {
    let sign = ((half & 0x8000u16) as u32) << 16u32;
    let exp = ((half >> 10u16) & 0x1fu16) as u32;
    let mantissa = (half & 0x03ffu16) as u32;
    if exp == 0 && mantissa == 0 {
        sign
    } else if exp == 0 {
        let k = normal_shift(mantissa);
        let m = (((mantissa as int) * pow2k(k)) as u32) & 0x03ffu32;
        sign | (((113 - k) as u32) << 23u32) | (m << 13u32)
    } else if exp == 0x1f {
        sign | 0x7f80_0000u32 | (mantissa << 13u32)
    } else {
        sign | (((exp + 112) as u32) << 23u32) | (mantissa << 13u32)
    }
}

/// Two to the power `k`.
pub open spec fn pow2k(k: nat) -> int
    decreases k,
{
    if k == 0 {
        1
    } else {
        2 * pow2k((k - 1) as nat)
    }
}

/// Round binary32 bits to binary16 bits, to nearest with ties to even.
pub fn half_from_single(bits: u32) -> (r: u16)
    ensures
        r == half_of_single(bits),
{
    let sign = ((bits >> 16) & 0x8000) as u16;
    let e32 = (bits >> 23) & 0xff;
    assert(e32 <= 0xff) by (bit_vector)
        requires
            e32 == (bits >> 23) & 0xff,
    ;
    let exp = e32 as i32;
    let mantissa = bits & 0x007f_ffff;
    if exp == 0xff {
        let m: u16 = if mantissa != 0 {
            0x0200
        } else {
            0
        };
        return sign | 0x7c00 | m;
    }
    let unbiased = exp - 127 + 15;
    if unbiased >= 0x1f {
        return sign | 0x7c00;
    }
    if unbiased <= 0 {
        if unbiased < -10 {
            return sign;
        }
        let m = mantissa | 0x0080_0000;
        let shift = (14 - unbiased) as u32;
        let mut half = (m >> shift) as u16;
        let sh1: u32 = shift - 1;
        let round_bit = 1u32 << sh1;
        assert(1 <= round_bit <= 0x0080_0000) by (bit_vector)
            requires
                round_bit == 1u32 << sh1,
                13 <= sh1 <= 23,
        ;
        assert(half < 0x400) by (bit_vector)
            requires
                half == (m >> shift) as u16,
                m == mantissa | 0x0080_0000u32,
                mantissa == bits & 0x007f_ffffu32,
                14 <= shift <= 24,
        ;
        if (m & round_bit) != 0 && (m & (3 * round_bit - 1)) != 0 {
            half = half + 1;
        }
        return sign | half;
    }
    let top = unbiased as u16;
    let mut half = sign | (top << 10) | ((mantissa >> 13) as u16);
    assert(half < 0xffff) by (bit_vector)
        requires
            half == sign | (top << 10u16) | ((mantissa >> 13u32) as u16),
            sign == ((bits >> 16u32) & 0x8000u32) as u16,
            mantissa == bits & 0x007f_ffffu32,
            1 <= top < 0x1f,
    ;
    if (mantissa & 0x1fff) > 0x1000 || ((mantissa & 0x1fff) == 0x1000 && (mantissa & 0x2000) != 0) {
        half = half + 1;
    }
    half
}

/// Widen binary16 bits to the binary32 bits of the same value.
pub fn single_from_half(half: u16) -> (r: u32)
    ensures
        r == single_of_half(half),
{
    let sign = ((half & 0x8000) as u32) << 16;
    let exp = ((half >> 10) & 0x1f) as u32;
    let mantissa = (half & 0x03ff) as u32;
    assert(mantissa <= 0x3ff && exp <= 0x1f) by (bit_vector)
        requires
            mantissa == (half & 0x03ffu16) as u32,
            exp == ((half >> 10u16) & 0x1fu16) as u32,
    ;
    if exp == 0 {
        if mantissa == 0 {
            return sign;
        }
        // A subnormal half: shift its leading bit up to the implicit-bit
        // position, lowering the exponent one step per shift.
        let mut m = mantissa;
        let mut k: u32 = 0;
        while (m & 0x0400) == 0
            invariant
                0 < m < 0x800,
                k <= 10,
                m as int == mantissa as int * pow2k(k as nat),
                k + normal_shift(m) == normal_shift(mantissa),
                0 < mantissa <= 0x3ff,
            decreases 0x800 - m,
        {
            assert(m < 0x400) by (bit_vector)
                requires
                    (m & 0x0400u32) == 0,
                    m < 0x800,
            ;
            assert(k < 10) by {
                if k >= 10 {
                    assert(pow2k(k as nat) >= 1024) by {
                        lemma_pow2k_ge(k as nat);
                    }
                    assert(mantissa as int * pow2k(k as nat) >= 1024) by (nonlinear_arith)
                        requires
                            mantissa >= 1,
                            pow2k(k as nat) >= 1024,
                    ;
                }
            }
            proof {
                assert(pow2k((k + 1) as nat) == 2 * pow2k(k as nat));
                assert(mantissa as int * (2 * pow2k(k as nat)) == 2 * (mantissa as int * pow2k(k as nat)))
                    by (nonlinear_arith);
            }
            m = m * 2;
            k = k + 1;
        }
        assert(normal_shift(m) == 0);
        let low = m & 0x03ff;
        let exp32 = (113 - k) << 23;
        return sign | exp32 | (low << 13);
    }
    if exp == 0x1f {
        return sign | 0x7f80_0000 | (mantissa << 13);
    }
    sign | ((exp + 112) << 23) | (mantissa << 13)
}

proof fn lemma_pow2k_ge(k: nat)
    requires
        k >= 10,
    ensures
        pow2k(k) >= 1024,
    decreases k,
{
    reveal_with_fuel(pow2k, 11);
    if k > 10 {
        lemma_pow2k_ge((k - 1) as nat);
    }
}

proof fn lemma_pow2k_is_pow2(k: nat)
    ensures
        pow2k(k) == vstd::arithmetic::power2::pow2(k),
    decreases k,
{
    if k == 0 {
        vstd::arithmetic::power2::lemma2_to64();
    } else {
        lemma_pow2k_is_pow2((k - 1) as nat);
        vstd::arithmetic::power2::lemma_pow2_unfold(k);
    }
}

/// A subnormal half mantissa, shifted by `normal_shift`, lands on the
/// implicit-bit position.
proof fn lemma_normal_shift(m: u32)
    requires
        1 <= m < 0x400,
    ensures
        1 <= normal_shift(m) <= 10,
        0x400 <= m * pow2k(normal_shift(m)) < 0x800,
    decreases 0x400 - m,
{
    assert((m & 0x400u32) == 0) by (bit_vector)
        requires
            m < 0x400,
    ;
    let m2 = (m * 2) as u32;
    if m2 >= 0x400 {
        assert(normal_shift(m) == 1);
        assert(pow2k(1) == 2) by {
            reveal_with_fuel(pow2k, 2);
        }
    } else {
        lemma_normal_shift(m2);
        let k = normal_shift(m2);
        assert(pow2k(k + 1) == 2 * pow2k(k));
        if k + 1 > 10 {
            lemma_pow2k_ge(k);
            assert(m * pow2k(k + 1) >= 2048) by (nonlinear_arith)
                requires
                    m >= 1,
                    pow2k(k + 1) >= 2048,
            ;
        }
        assert(m * pow2k(k + 1) == m2 * pow2k(k)) by (nonlinear_arith)
            requires
                m2 == m * 2,
                pow2k(k + 1) == 2 * pow2k(k),
        ;
    }
}

/// The bits a subnormal half widens to, read back as a binary32 value.
proof fn lemma_subnormal_bits(m: u32, k: u32, p: u32, s: u32)
    by (bit_vector)
    requires
        1 <= k <= 10,
        m < 0x400,
        p == m << k,
        0x400 <= p < 0x800,
        s == 0 || s == 0x8000_0000,
    ensures
        ((s | (((113 - k) as u32) << 23u32) | ((p & 0x3ff) << 13u32)) >> 16u32) & 0x8000 == s >> 16u32,
        ((s | (((113 - k) as u32) << 23u32) | ((p & 0x3ff) << 13u32)) >> 23u32) & 0xff == 113 - k,
        (((s | (((113 - k) as u32) << 23u32) | ((p & 0x3ff) << 13u32)) & 0x007f_ffff) | 0x0080_0000) >> ((13 + k) as u32) == m,
        (((s | (((113 - k) as u32) << 23u32) | ((p & 0x3ff) << 13u32)) & 0x007f_ffff) | 0x0080_0000) & (1u32 << ((12 + k) as u32))
            == 0,
{
}

/// The bits a normal half widens to, read back as a binary32 value.
proof fn lemma_normal_bits(e: u32, m: u32, s: u32)
    by (bit_vector)
    requires
        1 <= e <= 30,
        m < 0x400,
        s == 0 || s == 0x8000_0000,
    ensures
        ((s | (((e + 112) as u32) << 23u32) | (m << 13u32)) >> 16u32) & 0x8000 == s >> 16u32,
        ((s | (((e + 112) as u32) << 23u32) | (m << 13u32)) >> 23u32) & 0xff == e + 112,
        (s | (((e + 112) as u32) << 23u32) | (m << 13u32)) & 0x007f_ffff == m << 13u32,
        (m << 13u32) >> 13u32 == m,
        (m << 13u32) & 0x1fff == 0,
{
}

/// How a half's bits divide into sign, exponent and mantissa.
proof fn lemma_half_fields(h: u16)
    by (bit_vector)
    ensures
        (h & 0x03ff) <= 0x3ff,
        ((h >> 10u16) & 0x1f) <= 0x1f,
        ((h >> 10u16) & 0x1f) == 0 && (h & 0x03ff) == 0 ==> h == (h & 0x8000),
        ((h >> 10u16) & 0x1f) == 0 ==> h == ((h & 0x8000) | ((h & 0x03ff) as u32) as u16),
        ((h >> 10u16) & 0x1f) == 0x1f && (h & 0x03ff) == 0 ==> h == ((h & 0x8000) | 0x7c00u16 | 0u16),
        h == ((h & 0x8000) | ((((h >> 10u16) & 0x1f) as u32) as u16) << 10u16 | ((((h & 0x03ff) as u32) << 13u32)
            >> 13u32) as u16),
        ((h & 0x8000) as u32) << 16u32 == 0 || ((h & 0x8000) as u32) << 16u32 == 0x8000_0000,
        (((((h & 0x8000) as u32) << 16u32) >> 16u32) & 0x8000u32) as u16 == h & 0x8000,
        ((((h & 0x8000) as u32) << 16u32) >> 16u32) as u16 == h & 0x8000,
        ((((h & 0x8000) as u32) << 16u32) >> 23u32) & 0xff == 0,
        (((h & 0x8000) as u32) << 16u32) & 0x007f_ffff == 0,
        (((((h & 0x8000) as u32) << 16u32) | 0x7f80_0000u32) >> 23u32) & 0xff == 0xff,
        ((((((h & 0x8000) as u32) << 16u32) | 0x7f80_0000u32) >> 16u32) & 0x8000) as u16 == h & 0x8000,
        ((((h & 0x8000) as u32) << 16u32) | 0x7f80_0000u32) & 0x007f_ffff == 0,
{
}

/// Every half value other than a NaN is exactly a single value: widening
/// it and rounding back gives the same bits.
pub proof fn lemma_half_round_trip(h: u16)
    requires
        !(((h >> 10u16) & 0x1f) == 0x1f && (h & 0x03ff) != 0),
    ensures
        half_of_single(single_of_half(h)) == h,
{
    lemma_half_fields(h);
    let sign = ((h & 0x8000u16) as u32) << 16u32;
    let exp = ((h >> 10u16) & 0x1fu16) as u32;
    let mantissa = (h & 0x03ffu16) as u32;
    let b = single_of_half(h);
    if exp == 0 && mantissa == 0 {
        assert(b == sign);
        assert(half_of_single(b) == h);
    } else if exp == 0 {
        lemma_normal_shift(mantissa);
        let k = normal_shift(mantissa);
        let p = ((mantissa as int) * pow2k(k)) as u32;
        lemma_pow2k_is_pow2(k);
        vstd::bits::lemma_u32_pow2_no_overflow(k);
        vstd::bits::lemma_u32_shl_is_mul(mantissa, k as u32);
        lemma_subnormal_bits(mantissa, k as u32, p, sign);
        assert(b == sign | (((113 - k) as u32) << 23u32) | ((p & 0x03ffu32) << 13u32));
        assert(half_of_single(b) == h);
    } else if exp == 0x1f {
        assert(b == sign | 0x7f80_0000u32 | (mantissa << 13u32));
        assert(sign | 0x7f80_0000u32 | (mantissa << 13u32) == sign | 0x7f80_0000u32) by (bit_vector)
            requires
                mantissa == 0,
        ;
        assert(half_of_single(b) == h);
    } else {
        lemma_normal_bits(exp, mantissa, sign);
        assert(b == sign | (((exp + 112) as u32) << 23u32) | (mantissa << 13u32));
        assert(half_of_single(b) == h);
    }
}

/// Snap binary32 bits to the nearest value half precision holds.
pub fn round_single(bits: u32) -> (r: u32)
    ensures
        r == single_of_half(half_of_single(bits)),
{
    single_from_half(half_from_single(bits))
}

/// Rounding to half precision settles at once: a value already rounded
/// rounds to itself, unless it is a NaN.
pub proof fn lemma_round_settles(bits: u32)
    requires
        !(((half_of_single(bits) >> 10u16) & 0x1f) == 0x1f && (half_of_single(bits) & 0x03ff) != 0),
    ensures
        single_of_half(half_of_single(single_of_half(half_of_single(bits)))) == single_of_half(half_of_single(bits)),
{
    lemma_half_round_trip(half_of_single(bits));
}

} // verus!
