//! Tower-height sampling. A level generator is a pluggable policy; the
//! default draws a geometric height with ratio one half from a random word,
//! so expected tower heights stay logarithmic.
use vstd::prelude::*;

use crate::MAX_LEVEL;

verus! {

/// A policy for sampling the height of a new node's tower.
///
/// A height outside `1..=MAX_LEVEL` would be a caller bug; the contract
/// makes every implementation rule it out.
pub trait LevelGenerator {
    fn random_level(&mut self) -> (level: usize)
        ensures
            1 <= level <= MAX_LEVEL,
    ;
}

/// The default policy: a geometric distribution with ratio one half,
/// capped at `MAX_LEVEL`.
#[derive(Default, Debug, Clone, Copy)]
pub struct DefaultGenerator;

/// Relies on rand::random: draws one uniformly random word from the
/// thread-local generator. Nothing is promised of the value.
#[verifier::external_body]
fn random_bits() -> u64 {
    rand::random::<u64>()
}

/// The height encoded by a word of random bits: one more than the number of
/// consecutive low one-bits, capped at `MAX_LEVEL`. Each further level is
/// reached with probability one half.
fn level_from_bits(bits: u64) -> (level: usize)
    ensures
        1 <= level <= MAX_LEVEL,
{
    let mut level: usize = 1;
    let mut rest: u64 = bits;
    while level < MAX_LEVEL && rest & 1u64 == 1u64
        invariant
            1 <= level <= MAX_LEVEL,
        decreases MAX_LEVEL - level,
    {
        level += 1;
        rest = rest >> 1u64;
    }
    level
}

impl LevelGenerator for DefaultGenerator {
    fn random_level(&mut self) -> (level: usize)
        ensures
            1 <= level <= MAX_LEVEL,
    {
        level_from_bits(random_bits())
    }
}

} // verus!
