//! A tiny deterministic PRNG (`SplitMix64`): the same seed produces the same
//! stream on every platform.

use vstd::prelude::*;

verus! {

/// The `SplitMix64` finalizer: spreads the bits of a counter over the word.
pub open spec fn mixed(z: u64) -> u64 {
    let a = (z ^ (z >> 30)).wrapping_mul(0xBF58_476D_1CE4_E5B9);
    let b = (a ^ (a >> 27)).wrapping_mul(0x94D0_49BB_1331_11EB);
    b ^ (b >> 31)
}

/// The finalizer on its own, for callers that already have a word to spread.
pub fn mix64(z: u64) -> (out: u64)
    ensures
        out == mixed(z),
{
    let a: u64 = (z ^ (z >> 30)).wrapping_mul(0xBF58_476D_1CE4_E5B9);
    let b: u64 = (a ^ (a >> 27)).wrapping_mul(0x94D0_49BB_1331_11EB);
    b ^ (b >> 31)
}

/// How far the counter moves with each number drawn.
pub open spec fn advanced(state: u64) -> u64 {
    state.wrapping_add(0x9E37_79B9_7F4A_7C15)
}

/// `SplitMix64`. Its view is the counter.
pub struct Rng {
    state: u64,
}

impl Clone for Rng {
    fn clone(&self) -> (copy: Self)
        ensures
            copy@ == self@,
    {
        Rng { state: self.state }
    }
}

impl View for Rng {
    type V = u64;

    closed spec fn view(&self) -> u64 {
        self.state
    }
}

impl Rng {
    pub fn new(seed: u64) -> (rng: Self)
        ensures
            rng@ == seed,
    {
        Self { state: seed }
    }

    pub fn next_u64(&mut self) -> (n: u64)
        ensures
            final(self)@ == advanced(old(self)@),
            n == mixed(advanced(old(self)@)),
    {
        self.state = self.state.wrapping_add(0x9E37_79B9_7F4A_7C15);
        mix64(self.state)
    }

    /// Uniform integer in `[0, bound)`. `bound` must be non zero.
    pub fn below(&mut self, bound: u64) -> (n: u64)
        requires
            bound != 0,
        ensures
            n < bound,
            n == mixed(advanced(old(self)@)) % bound,
            final(self)@ == advanced(old(self)@),
    {
        self.next_u64() % bound
    }

    /// A `usize` index in `[0, len)`.
    pub fn index(&mut self, len: usize) -> (i: usize)
        requires
            len != 0,
        ensures
            i < len,
            i == mixed(advanced(old(self)@)) % (len as u64),
            final(self)@ == advanced(old(self)@),
    {
        self.below(len as u64) as usize
    }

    /// The top 53 bits of the next number: the numerator of a fraction in
    /// `[0, 1)` over two to the 53.
    pub fn unit_numerator(&mut self) -> (n: u64)
        ensures
            n < 0x20_0000_0000_0000,
            n == mixed(advanced(old(self)@)) >> 11,
            final(self)@ == advanced(old(self)@),
    {
        let word: u64 = self.next_u64();
        assert(word >> 11 < 0x20_0000_0000_0000u64) by (bit_vector);
        word >> 11
    }
}

/// The counter after `n` numbers have been drawn from `seed`.
pub open spec fn state_after(seed: u64, n: nat) -> u64
    decreases n,
{
    if n == 0 {
        seed
    } else {
        advanced(state_after(seed, (n - 1) as nat))
    }
}

/// The stream is determined by the seed: drawing `n` numbers and then `m` more
/// gives the number that `n + m` draws in a row would have given.
pub proof fn law_stream_is_determined_by_seed(seed: u64, n: nat, m: nat)
    ensures
        state_after(state_after(seed, n), m) == state_after(seed, n + m),
    decreases m,
{
    if m > 0 {
        law_stream_is_determined_by_seed(seed, n, (m - 1) as nat);
    }
}

/// Drawing moves the counter by the golden ratio of the word and mixes it, by folding
/// the high bits in and multiplying twice and folding once more.
pub proof fn law_draws_follow_split_mix(z: u64)
    ensures
        advanced(z) == z.wrapping_add(0x9E37_79B9_7F4A_7C15),
        ({
            let a = (z ^ (z >> 30)).wrapping_mul(0xBF58_476D_1CE4_E5B9);
            let b = (a ^ (a >> 27)).wrapping_mul(0x94D0_49BB_1331_11EB);
            mixed(z) == b ^ (b >> 31)
        }),
{
}

} // verus!
