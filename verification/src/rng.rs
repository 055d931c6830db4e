use vstd::prelude::*;

verus! {

/// The SplitMix64 increment.
pub const GOLDEN_GAMMA: u64 = 0x9E37_79B9_7F4A_7C15;

/// The denominator of a uniform draw: `unit_bits` counts in units of
/// `1 / UNIT_SCALE`, as the 53-bit mantissa of a double does.
pub const UNIT_SCALE: u64 = 0x20_0000_0000_0000;

/// The state after one step from `state`.
#[verifier::opaque]
pub open spec fn next_state(state: u64) -> u64 {
    vstd::wrapping::u64_specs::wrapping_add(state, GOLDEN_GAMMA)
}

/// SplitMix64's output function applied to a state.
#[verifier::opaque]
pub open spec fn mix(state: u64) -> u64 {
    let z1 = vstd::wrapping::u64_specs::wrapping_mul(state ^ (state >> 30u64), 0xBF58_476D_1CE4_E5B9u64);
    let z2 = vstd::wrapping::u64_specs::wrapping_mul(z1 ^ (z1 >> 27u64), 0x94D0_49BB_1331_11EBu64);
    z2 ^ (z2 >> 31u64)
}

/// A deterministic pseudo-random generator (SplitMix64): the whole stream is
/// a function of the seed.
pub struct Rng {
    state: u64,
}

impl View for Rng {
    type V = u64;

    closed spec fn view(&self) -> u64 {
        self.state
    }
}

impl Rng {
    pub fn new(seed: u64) -> (r: Self)
        ensures
            r@ == seed ^ GOLDEN_GAMMA,
    {
        Self { state: seed ^ GOLDEN_GAMMA }
    }

    /// The next raw 64-bit value.
    pub fn next_u64(&mut self) -> (r: u64)
        ensures
            final(self)@ == next_state(old(self)@),
            r == mix(final(self)@),
    {
        proof {
            reveal(next_state);
            reveal(mix);
        }
        self.state = self.state.wrapping_add(GOLDEN_GAMMA);
        let mut z = self.state;
        z = (z ^ (z >> 30)).wrapping_mul(0xBF58_476D_1CE4_E5B9);
        z = (z ^ (z >> 27)).wrapping_mul(0x94D0_49BB_1331_11EB);
        z ^ (z >> 31)
    }

    /// The top 53 bits of the next raw value: a uniform draw in `[0, 1)`,
    /// counted in units of `1 / UNIT_SCALE`.
    pub fn unit_bits(&mut self) -> (r: u64)
        ensures
            final(self)@ == next_state(old(self)@),
            r == mix(final(self)@) >> 11u64,
            r < UNIT_SCALE,
    {
        let x = self.next_u64();
        assert(x >> 11u64 < 0x20_0000_0000_0000u64) by (bit_vector);
        x >> 11
    }

    /// `true` with probability `threshold / UNIT_SCALE`: the next draw of
    /// `unit_bits` falls below `threshold`.
    pub fn chance_scaled(&mut self, threshold: u64) -> (r: bool)
        ensures
            final(self)@ == next_state(old(self)@),
            r == (mix(final(self)@) >> 11u64 < threshold),
    {
        self.unit_bits() < threshold
    }

    /// An integer in `[lo, hi]`.
    pub fn range(&mut self, lo: i64, hi: i64) -> (r: i64)
        requires
            lo <= hi,
            hi - lo < i64::MAX,
        ensures
            final(self)@ == next_state(old(self)@),
            r == lo + mix(final(self)@) % ((hi - lo + 1) as u64),
            lo <= r <= hi,
    {
        let span = (hi - lo + 1) as u64;
        let x = self.next_u64();
        lo + (x % span) as i64
    }

    /// An index in `[0, n)`.
    pub fn below(&mut self, n: usize) -> (r: usize)
        requires
            n > 0,
        ensures
            final(self)@ == next_state(old(self)@),
            r == mix(final(self)@) % (n as u64),
            r < n,
    {
        (self.next_u64() % n as u64) as usize
    }
}

/// The generator state after `k` draws from state `s`.
pub open spec fn state_after(s: u64, k: nat) -> u64
    decreases k,
{
    if k == 0 {
        s
    } else {
        next_state(state_after(s, (k - 1) as nat))
    }
}

/// Law: SplitMix64 in closed form. `k` draws advance the state by `k`
/// increments modulo 2^64, so the `k`-th draw of `Rng::new(seed)` returns
/// `mix((seed ^ GOLDEN_GAMMA) + k * GOLDEN_GAMMA)`, the sum taken modulo
/// 2^64; equal seeds give equal streams.
pub proof fn law_state_after_draws(s: u64, k: nat)
    ensures
        state_after(s, k) as int == (s + k * GOLDEN_GAMMA) % 0x1_0000_0000_0000_0000int,
    decreases k,
{
    let m: int = 0x1_0000_0000_0000_0000int;
    if k == 0 {
        assert(s as int % m == s as int) by (nonlinear_arith)
            requires
                0 <= s < m,
        ;
    } else {
        law_state_after_draws(s, (k - 1) as nat);
        let prev = state_after(s, (k - 1) as nat);
        reveal(next_state);
        assert(next_state(prev) as int == (prev + GOLDEN_GAMMA) % m);
        let a: int = s + (k - 1) * GOLDEN_GAMMA;
        vstd::arithmetic::div_mod::lemma_add_mod_noop(a, GOLDEN_GAMMA as int, m);
        assert(GOLDEN_GAMMA as int % m == GOLDEN_GAMMA as int);
        assert(prev as int % m == prev as int);
        assert(a + GOLDEN_GAMMA == s + k * GOLDEN_GAMMA) by (nonlinear_arith)
            requires
                a == s + (k - 1) * GOLDEN_GAMMA,
        ;
    }
}

} // verus!
