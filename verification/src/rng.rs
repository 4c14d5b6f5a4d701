//! A small deterministic generator, so a failing case can always be
//! reproduced from its seed alone.
//!
//! xorshift64*: not for anything that needs to be unpredictable, entirely
//! adequate for choosing between grammar alternatives.
use vstd::prelude::*;

verus! {

/// The multiplier that spreads a seed over the state.
pub const SEED_MIX: u64 = 0x9E37_79B9_7F4A_7C15;

/// The multiplier applied to each state on the way out.
pub const OUTPUT_MIX: u64 = 0x2545_F491_4F6C_DD1D;

/// The state a seed starts from. It is odd, so never zero.
pub open spec fn seed_state(seed: u64) -> u64 {
    ((seed * SEED_MIX) % 0x1_0000_0000_0000_0000) as u64 | 1
}

/// One xorshift step of the state.
pub open spec fn step(x: u64) -> u64 {
    let a = x ^ (x >> 12u64);
    let b = a ^ (a << 25u64);
    b ^ (b >> 27u64)
}

/// What the generator hands out for a state it has just stepped to.
pub open spec fn output(x: u64) -> u64 {
    ((x * OUTPUT_MIX) % 0x1_0000_0000_0000_0000) as u64
}

/// A generator.
pub struct Rng(u64);

impl Rng {
    /// The state never collapses to zero.
    #[verifier::type_invariant]
    spec fn nonzero(self) -> bool {
        self.0 != 0
    }

    /// The current state.
    pub closed spec fn state(&self) -> u64 {
        self.0
    }

    pub fn new(seed: u64) -> (r: Self)
        ensures
            r.state() == seed_state(seed),
    {
        // The state must never be zero, or the sequence collapses.
        let x = seed.wrapping_mul(SEED_MIX) | 1;
        proof {
            let w = seed.wrapping_mul(SEED_MIX);
            assert(w | 1u64 != 0u64) by (bit_vector);
        }
        Rng(x)
    }

    /// Step the state and hand out a number.
    fn next(&mut self) -> (r: u64)
        ensures
            final(self).state() == step(old(self).state()),
            r == output(final(self).state()),
    {
        proof {
            use_type_invariant(&*self);
        }
        let mut x = self.0;
        let ghost x0 = x;
        x = x ^ (x >> 12);
        x = x ^ (x << 25);
        x = x ^ (x >> 27);
        proof {
            lemma_step_nonzero(x0);
        }
        self.0 = x;
        x.wrapping_mul(OUTPUT_MIX)
    }

    /// A number in `0..n`. Returns 0 when `n` is 0, without stepping.
    pub fn below(&mut self, n: usize) -> (r: usize)
        ensures
            n == 0 ==> r == 0 && final(self).state() == old(self).state(),
            n > 0 ==> r < n && final(self).state() == step(old(self).state()) && r == output(
                final(self).state(),
            ) % (n as u64),
    {
        if n == 0 {
            return 0;
        }
        (self.next() % n as u64) as usize
    }

    /// A number in `lo..=hi`; just `lo` when the range is empty or one wide.
    pub fn between(&mut self, lo: i64, hi: i64) -> (r: i64)
        requires
            hi <= lo || hi - lo + 1 <= i64::MAX,
        ensures
            hi <= lo ==> r == lo && final(self).state() == old(self).state(),
            hi > lo ==> {
                &&& lo <= r <= hi
                &&& final(self).state() == step(old(self).state())
                &&& r == lo + output(final(self).state()) % ((hi - lo + 1) as u64)
            },
    {
        if hi <= lo {
            return lo;
        }
        let width = (hi - lo + 1) as u64;
        let x = self.next() % width;
        lo + x as i64
    }

    /// True with probability `num / den`.
    pub fn chance(&mut self, num: u32, den: u32) -> (r: bool)
        ensures
            den == 0 ==> r == (num > 0) && final(self).state() == old(self).state(),
            den > 0 ==> r == ((output(step(old(self).state())) % (den as u64)) < num)
                && final(self).state() == step(old(self).state()),
    {
        self.below(den as usize) < num as usize
    }

    /// One of `xs`, chosen by the next number.
    pub fn pick<'a, T>(&mut self, xs: &'a [T]) -> (r: &'a T)
        requires
            xs@.len() > 0,
        ensures
            final(self).state() == step(old(self).state()),
            *r == xs@[(output(final(self).state()) % (xs@.len() as u64)) as int],
    {
        &xs[self.below(xs.len())]
    }
}

/// A step never reaches zero from a non-zero state: xorshift is a
/// permutation that fixes zero.
pub proof fn lemma_step_nonzero(x: u64)
    requires
        x != 0,
    ensures
        step(x) != 0,
{
    let a = x ^ (x >> 12u64);
    let b = a ^ (a << 25u64);
    let c = b ^ (b >> 27u64);
    assert(x != 0 ==> a != 0) by (bit_vector)
        requires
            a == x ^ (x >> 12u64),
    ;
    assert(a != 0 ==> b != 0) by (bit_vector)
        requires
            b == a ^ (a << 25u64),
    ;
    assert(b != 0 ==> c != 0) by (bit_vector)
        requires
            c == b ^ (b >> 27u64),
    ;
}

} // verus!
