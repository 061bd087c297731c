//! The random source. Every draw is a step of a linear-congruential
//! generator held in plain view, so a render is a deterministic function
//! of its seed; machine entropy enters only through `from_entropy`.
use vstd::prelude::*;

verus! {

/// One generator step.
pub open spec fn next_state_s(s: u64) -> u64 {
    ((s * 6364136223846793005 + 1442695040888963407) % 0x10000000000000000) as u64
}

/// The generator state after `n` steps.
pub open spec fn state_n(s: u64, n: nat) -> u64
    decreases n,
{
    if n == 0 {
        s
    } else {
        next_state_s(state_n(s, (n - 1) as nat))
    }
}

/// The unit draw a state yields: a fixed-point scalar in `[0, 1)`.
pub open spec fn unit_from_s(s: u64) -> int {
    ((s / 0x200000000) % 1000) as int
}

/// A per-pixel seed, so a pixel's value does not depend on which worker
/// renders it.
pub open spec fn pixel_seed_s(base: u64, index: u64) -> u64 {
    ((base + index * 0x9E3779B97F4A7C15) % 0x10000000000000000) as u64
}

pub struct Sampler {
    pub state: u64,
}

impl Sampler {
    pub fn new(seed: u64) -> (r: Sampler)
        ensures
            r.state == seed,
    {
        Sampler { state: seed }
    }

    /// The sampler for one pixel of a frame.
    pub fn for_pixel(base: u64, index: u64) -> (r: Sampler)
        ensures
            r.state == pixel_seed_s(base, index),
    {
        let w: u128 = (base as u128) + (index as u128) * 0x9E3779B97F4A7C15;
        Sampler { state: (w % 0x10000000000000000) as u64 }
    }

    /// A sampler seeded from machine entropy.
    pub fn from_entropy() -> (r: Sampler) {
        Sampler { state: entropy_u64() }
    }

    /// Advances the state and yields a fixed-point draw in `[0, 1)`.
    pub fn next_unit(&mut self) -> (r: i64)
        ensures
            final(self).state == next_state_s(old(self).state),
            r == unit_from_s(final(self).state),
            0 <= r < 1000,
    {
        let w: u128 = (self.state as u128) * 6364136223846793005 + 1442695040888963407;
        self.state = (w % 0x10000000000000000) as u64;
        ((self.state / 0x200000000) % 1000) as i64
    }
}

/// Relies on rand::random: a machine-entropy word; nothing is promised of
/// its value, so callers state only what holds of every outcome.
#[verifier::external_body]
fn entropy_u64() -> u64 {
    rand::random()
}

} // verus!
