//! The seeded random source that every generator draws from.
use vstd::prelude::*;
use vstd::string::StringSliceAdditionalSpecFns;
use rand::{Rng, SeedableRng};
use rand_chacha::ChaCha8Rng;
use std::ops::Range;

use crate::dice::{dice_fits, dice_of, dice_total, parse_dice, roll_sum};

verus! {

#[verifier::external_type_specification]
#[verifier::external_body]
pub struct ExChaCha8Rng(rand_chacha::ChaCha8Rng);

/// The seed a fresh `GameRNG` starts from.
pub const DEFAULT_SEED: u64 = 10;

/// Relies on rand_core's `SeedableRng::seed_from_u64` for `ChaCha8Rng`: a
/// generator whose stream is fixed by the seed.
#[verifier::external_body]
fn chacha_seeded(seed: u64) -> ChaCha8Rng {
    ChaCha8Rng::seed_from_u64(seed)
}

/// Relies on rand's `Rng::gen_range` on `u64` with the exclusive range
/// `0 .. n`: the value lies in that range. It panics on an empty range,
/// which `requires` leaves out.
#[verifier::external_body]
fn chacha_gen_below(rng: &mut ChaCha8Rng, n: u64) -> (r: u64)
    requires
        n > 0,
    ensures
        r < n,
{
    rng.gen_range(0..n)
}

/// Relies on rand's `Rng::gen` for `i32`: any value of the type.
#[verifier::external_body]
fn chacha_gen_i32(rng: &mut ChaCha8Rng) -> i32 {
    rng.gen::<i32>()
}

/// A deterministic pseudo-random source: the same seed gives the same
/// sequence of draws.
pub struct GameRNG {
    rng_generator: ChaCha8Rng,
}

impl GameRNG {
    /// A source seeded with `DEFAULT_SEED`.
    pub fn new() -> GameRNG {
        GameRNG { rng_generator: chacha_seeded(DEFAULT_SEED) }
    }

    /// A source seeded with `seed`.
    pub fn with_seed(seed: u64) -> GameRNG {
        GameRNG { rng_generator: chacha_seeded(seed) }
    }

    /// Any `i32`.
    pub fn rand_i32(&mut self) -> i32 {
        chacha_gen_i32(&mut self.rng_generator)
    }

    /// A value drawn uniformly from `range.start .. range.end`.
    pub fn rand_range(&mut self, range: Range<i32>) -> (r: i32)
        requires
            range.start < range.end,
        ensures
            range.start <= r < range.end,
    {
        let span = (range.end as i64 - range.start as i64) as u64;
        let k = chacha_gen_below(&mut self.rng_generator, span);
        (range.start as i64 + k as i64) as i32
    }

    /// A value drawn uniformly from `low ..= high`.
    pub fn rand_range_incl(&mut self, low: i32, high: i32) -> (r: i32)
        requires
            low <= high,
        ensures
            low <= r <= high,
    {
        let span = (high as i64 - low as i64 + 1) as u64;
        let k = chacha_gen_below(&mut self.rng_generator, span);
        (low as i64 + k as i64) as i32
    }

    /// An index drawn uniformly from `0 .. n`.
    pub fn rand_index(&mut self, n: usize) -> (r: usize)
        requires
            n > 0,
        ensures
            r < n,
    {
        chacha_gen_below(&mut self.rng_generator, n as u64) as usize
    }

    /// Rolls the dice that `dice_str` spells in the notation `NdM+K` (see
    /// `parse_dice`): the sum of `N` draws from `1 ..= M`, plus `K`, as
    /// `dice_total` adds them. `None`
    /// when the text is not such an expression or a total might not fit in
    /// an `i32`.
    pub fn rand_dice(&mut self, dice_str: &str) -> (r: Option<i32>)
        ensures
            r is Some <==> (dice_of(dice_str.spec_bytes()) matches Some(d) && dice_fits(d)),
            r matches Some(v) ==> (dice_of(dice_str.spec_bytes()) matches Some(d) && d.count
                + d.modifier <= v <= d.count * d.sides + d.modifier),
    {
        let bytes = dice_str.as_bytes();
        let d = match parse_dice(bytes) {
            Some(d) => d,
            None => {
                return None;
            },
        };
        if d.sides < 1 || d.count < 0 {
            return None;
        }
        assert(0 <= d.count * d.sides <= 0x7fff_ffff * 0x7fff_ffff) by (nonlinear_arith)
            requires
                0 <= d.count <= 0x7fff_ffff,
                1 <= d.sides <= 0x7fff_ffff,
        ;
        let lo = d.count as i64 + d.modifier as i64;
        let hi = d.count as i64 * d.sides as i64 + d.modifier as i64;
        if hi > i32::MAX as i64 || lo < i32::MIN as i64 {
            return None;
        }
        let mut rolls: Vec<i32> = Vec::new();
        let mut i: i32 = 0;
        while i < d.count
            invariant
                0 <= i <= d.count,
                d.sides >= 1,
                rolls@.len() == i,
                forall|j: int| 0 <= j < rolls@.len() ==> 1 <= #[trigger] rolls@[j] <= d.sides,
                i <= roll_sum(rolls@) <= i * d.sides,
                d.count * d.sides <= 0x1_0000_0000,
            decreases d.count - i,
        {
            let roll = self.rand_range_incl(1, d.sides);
            assert((i + 1) * d.sides == i * d.sides + d.sides) by (nonlinear_arith);
            assert((i + 1) * d.sides <= d.count * d.sides) by (nonlinear_arith)
                requires
                    i + 1 <= d.count,
                    d.sides >= 1,
            ;
            let ghost prev = rolls@;
            rolls.push(roll);
            assert(rolls@.drop_last() =~= prev);
            i = i + 1;
        }
        Some(dice_total(&rolls, d.modifier))
    }
}

} // verus!
