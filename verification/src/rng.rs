//! The injected randomness capability. A draw is a fixed-point fraction:
//! an integer in `[0, RAND_UNIT)` standing for a uniform value in `[0, 1)`.
//! Deterministic sources (a fixed value, a seeded generator) are fully
//! specified, so simulations driven by them are reproducible; the entropy
//! source draws from macroquad's global generator and promises nothing
//! beyond the range of its draws.

use vstd::prelude::*;

verus! {

/// One whole unit in fixed-point: draws and probabilities lie in
/// `[0, RAND_UNIT)` and `[0, RAND_UNIT]` respectively.
pub const RAND_UNIT: u32 = 1000000;

/// Multiplier of the linear-congruential step behind `RandSource::Seeded`.
pub const LCG_MUL: u32 = 1103515245;

/// Increment of the linear-congruential step behind `RandSource::Seeded`.
pub const LCG_ADD: u32 = 12345;

/// The linear-congruential successor of seed state `s`.
pub open spec fn lcg_next(s: u32) -> u32 {
    ((s * LCG_MUL + LCG_ADD) % 0x1_0000_0000) as u32
}

/// The draw in `[0, RAND_UNIT)` that seed state `s` yields.
pub open spec fn unit_of(s: u32) -> u32 {
    s % RAND_UNIT
}

/// A source of uniform draws in `[0, RAND_UNIT)`.
///
/// `Fixed` always yields the same value; `Seeded` walks a
/// linear-congruential sequence from a seed; `Entropy` draws from
/// macroquad's global pseudo-random generator.
#[derive(Clone, Copy, PartialEq, Eq, Structural, Debug)]
pub enum RandSource {
    /// Always yields the held value; the value must lie in `[0, RAND_UNIT)`.
    Fixed(u32),
    /// Yields the linear-congruential sequence starting from this state.
    Seeded(u32),
    /// Yields draws from macroquad's global generator.
    Entropy,
}

/// The draw and the successor state that one `next_unit` call on a
/// deterministic source yields. The `Entropy` arm is never relied on:
/// nothing is promised of an entropy draw beyond its range.
pub open spec fn spec_next(s: RandSource) -> (u32, RandSource) {
    match s {
        RandSource::Fixed(v) => (v, s),
        RandSource::Seeded(st) => (unit_of(lcg_next(st)), RandSource::Seeded(lcg_next(st))),
        RandSource::Entropy => (0u32, s),
    }
}

/// Relies on macroquad::rand::rand: one `u32` from macroquad's global
/// pseudo-random generator (seeded by the caller through
/// macroquad::rand::srand). The value depends on that process-wide state,
/// so nothing is promised of it.
#[verifier::external_body]
fn entropy_raw() -> u32 {
    macroquad::rand::rand()
}

impl RandSource {
    /// A fixed value held by a `Fixed` source lies below `RAND_UNIT`.
    pub open spec fn wf(self) -> bool {
        match self {
            RandSource::Fixed(v) => v < RAND_UNIT,
            _ => true,
        }
    }

    /// True of the sources whose draws are a function of their own state.
    pub open spec fn deterministic(self) -> bool {
        !(self is Entropy)
    }

    /// Draws one value in `[0, RAND_UNIT)` and advances the source. On a
    /// deterministic source the draw and the new state are exactly
    /// `spec_next` of the old state.
    pub fn next_unit(&mut self) -> (d: u32)
        requires
            old(self).wf(),
        ensures
            final(self).wf(),
            d < RAND_UNIT,
            final(self).deterministic() == old(self).deterministic(),
            old(self).deterministic() ==> (d, *final(self)) == spec_next(*old(self)),
    {
        match *self {
            RandSource::Fixed(v) => v,
            RandSource::Seeded(st) => {
                let wide: u64 = (st as u64) * 1103515245u64 + 12345u64;
                let next: u32 = (wide % 0x1_0000_0000u64) as u32;
                *self = RandSource::Seeded(next);
                next % RAND_UNIT
            },
            RandSource::Entropy => entropy_raw() % RAND_UNIT,
        }
    }
}

} // verus!
