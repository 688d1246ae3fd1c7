//! The deterministic SplitMix64 generator and the bounded draws the matmul
//! search makes from it.

use vstd::prelude::*;

verus! {

/// The SplitMix64 state increment (the 64-bit golden ratio).
pub const GOLDEN_GAMMA: u64 = 0x9E37_79B9_7F4A_7C15;
/// First SplitMix64 finaliser multiplier.
pub const MIX_1: u64 = 0xBF58_476D_1CE4_E5B9;
/// Second SplitMix64 finaliser multiplier.
pub const MIX_2: u64 = 0x94D0_49BB_1331_11EB;

/// The state after one step: `state + γ (mod 2⁶⁴)`.
pub open spec fn step(state: u64) -> u64 {
    vstd::wrapping::u64_specs::wrapping_add(state, GOLDEN_GAMMA)
}

/// The SplitMix64 output finaliser applied to a stepped state.
#[verifier::opaque]
pub open spec fn mix(z0: u64) -> u64 {
    let z1 = vstd::wrapping::u64_specs::wrapping_mul(z0 ^ (z0 >> 30u64), MIX_1);
    let z2 = vstd::wrapping::u64_specs::wrapping_mul(z1 ^ (z1 >> 27u64), MIX_2);
    z2 ^ (z2 >> 31u64)
}

/// The `k`-th state of a stream started at `seed` (`state_after(seed, 0) == seed`).
pub open spec fn state_after(seed: u64, k: nat) -> u64
    decreases k,
{
    if k == 0 {
        seed
    } else {
        step(state_after(seed, (k - 1) as nat))
    }
}

/// The value `next_u64` returns from a generator in state `state`.
pub open spec fn next_value(state: u64) -> u64 {
    mix(step(state))
}

/// The accepted outputs of an unbiased draw over `0..n`: those below the
/// largest multiple of `n` that fits, so each residue is equally likely.
pub open spec fn zone(n: u64) -> u64 {
    (u64::MAX - u64::MAX % n) as u64
}

/// The unbiased draw over `0..n` from state `st` with `fuel` redraws left:
/// an output in the zone is taken `mod n`; an output above it is drawn
/// again. The value and the state after it.
pub open spec fn below_from(st: u64, n: u64, fuel: nat) -> (u64, u64)
    decreases fuel,
{
    let x = next_value(st);
    if x < zone(n) || fuel == 0 {
        (x % n, step(st))
    } else {
        below_from(step(st), n, (fuel - 1) as nat)
    }
}

/// The unbiased draw over `0..n` from state `st`, redrawing up to
/// `u64::MAX` times. The stream takes every value once in each run of
/// `2⁶⁴` outputs, so a draw in the zone always comes well before the last
/// redraw.
pub open spec fn below_spec(st: u64, n: u64) -> (u64, u64) {
    below_from(st, n, u64::MAX as nat)
}

/// An unbiased draw lands in `0..n`.
pub proof fn lemma_below_spec_range(st: u64, n: u64)
    requires
        n > 0,
    ensures
        below_spec(st, n).0 < n,
{
    lemma_below_from_range(st, n, u64::MAX as nat);
}

proof fn lemma_below_from_range(st: u64, n: u64, fuel: nat)
    requires
        n > 0,
    ensures
        below_from(st, n, fuel).0 < n,
    decreases fuel,
{
    if !(next_value(st) < zone(n) || fuel == 0) {
        lemma_below_from_range(step(st), n, (fuel - 1) as nat);
    }
}

/// The ternary coefficient selected by a draw `i ∈ {0, 1, 2}`.
pub open spec fn ternary_of(i: int) -> i8 {
    if i == 0 {
        -1i8
    } else if i == 1 {
        0i8
    } else {
        1i8
    }
}

/// The SplitMix64 pseudo-random stream: a single `u64` of state.
#[derive(Debug)]
pub struct SplitMix64 {
    state: u64,
}

impl View for SplitMix64 {
    type V = u64;

    closed spec fn view(&self) -> u64 {
        self.state
    }
}

impl Clone for SplitMix64 {
    /// A generator in the same state: it yields the same stream.
    fn clone(&self) -> (r: SplitMix64)
        ensures
            r@ == self@,
    {
        SplitMix64 { state: self.state }
    }
}

impl SplitMix64 {
    /// A generator whose stream is fully determined by `seed`.
    pub fn new(seed: u64) -> (r: SplitMix64)
        ensures
            r@ == seed,
    {
        SplitMix64 { state: seed }
    }

    /// The generator's state: `SplitMix64::new` of it resumes the same
    /// stream.
    pub fn state(&self) -> (r: u64)
        ensures
            r == self@,
    {
        self.state
    }

    /// The next 64-bit output.
    pub fn next_u64(&mut self) -> (r: u64)
        ensures
            final(self)@ == step(old(self)@),
            r == mix(final(self)@),
    {
        reveal(mix);
        self.state = self.state.wrapping_add(GOLDEN_GAMMA);
        let mut z = self.state;
        z = (z ^ (z >> 30u64)).wrapping_mul(MIX_1);
        z = (z ^ (z >> 27u64)).wrapping_mul(MIX_2);
        z ^ (z >> 31u64)
    }

    /// A value in `0..n`: the next output reduced `mod n`.
    pub fn below_usize(&mut self, n: usize) -> (r: usize)
        requires
            n > 0,
        ensures
            final(self)@ == step(old(self)@),
            r == next_value(old(self)@) % (n as u64),
            r < n,
    {
        let x = self.next_u64();
        (x % (n as u64)) as usize
    }

    /// An unbiased value in `0..n`: outputs above the largest multiple of
    /// `n` that fits are drawn again (see `below_spec`).
    pub fn below(&mut self, n: u64) -> (r: u64)
        requires
            n > 0,
        ensures
            (r, final(self)@) == below_spec(old(self)@, n),
            r < n,
    {
        let accept = u64::MAX - u64::MAX % n;
        let mut redraws: u64 = 0;
        loop
            invariant
                n > 0,
                accept == zone(n),
                below_from(self@, n, (u64::MAX - redraws) as nat) == below_spec(old(self)@, n),
            decreases u64::MAX - redraws,
        {
            let ghost before = self@;
            let x = self.next_u64();
            assert(x == next_value(before));
            if x < accept || redraws == u64::MAX {
                assert(below_from(before, n, (u64::MAX - redraws) as nat) == (x % n, self@));
                return x % n;
            }
            assert(below_from(before, n, (u64::MAX - redraws) as nat) == below_from(
                self@,
                n,
                (u64::MAX - (redraws + 1)) as nat,
            ));
            redraws = redraws + 1;
        }
    }

    /// A uniform ternary coefficient in `{-1, 0, +1}`.
    pub fn ternary(&mut self) -> (r: i8)
        ensures
            final(self)@ == step(old(self)@),
            r == ternary_of((next_value(old(self)@) % 3) as int),
            -1 <= r <= 1,
    {
        let i = self.below_usize(3);
        if i == 0 {
            -1
        } else if i == 1 {
            0
        } else {
            1
        }
    }
}

} // verus!
