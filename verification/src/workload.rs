//! The synthetic workload: which operations a thread performs, on which keys.

use crate::binary64;
use crate::binary64::Binary64;
use vstd::prelude::*;

verus! {

/// One half.
pub const HALF_BITS: u64 = 0x3FE0_0000_0000_0000;

/// 256.0.
pub const BYTE_RANGE_BITS: u64 = 0x4070_0000_0000_0000;

/// 65536.0.
pub const SHORT_RANGE_BITS: u64 = 0x40F0_0000_0000_0000;

/// One step of a linear congruential generator.
pub open spec fn lcg_step(x: u64, factor: int, increment: int) -> u64 {
    ((x * factor + increment) % 0x1_0000_0000_0000_0000) as u64
}

/// The next state of the generator that draws operations.
pub open spec fn next_draw(rng: u64) -> u64 {
    lcg_step(rng, 6364136223846793005, 1442695040888963407)
}

/// The next state of the generator that decides on snapshots.
pub open spec fn next_extra_draw(rng: u64) -> u64 {
    lcg_step(rng, 2862933555777941757, 3037000493)
}

/// `x * factor + increment`, kept to a word.
fn step(x: u64, factor: u64, increment: u64) -> (r: u64)
    ensures
        r == lcg_step(x, factor as int, increment as int),
{
    let multiplied: u64 = x.wrapping_mul(factor);
    proof {
        let modulus = 0x1_0000_0000_0000_0000int;
        vstd::arithmetic::div_mod::lemma_add_mod_noop(
            (x * factor) as int,
            increment as int,
            modulus,
        );
        vstd::arithmetic::div_mod::lemma_small_mod(increment as nat, modulus as nat);
        assert(multiplied == (x * factor) % modulus);
    }
    multiplied.wrapping_add(increment)
}

/// Draws a word.
pub fn lcg(rng: &mut u64) -> (r: u64)
    ensures
        *final(rng) == next_draw(*old(rng)),
        r == *final(rng),
{
    *rng = step(*rng, 6364136223846793005, 1442695040888963407);
    *rng
}

/// Draws a word that decides on a snapshot.
pub fn lcg_extra(rng: &mut u64) -> (r: u64)
    ensures
        *final(rng) == next_extra_draw(*old(rng)),
        r == *final(rng),
{
    *rng = step(*rng, 2862933555777941757, 3037000493);
    *rng
}

/// How keys and operations are distributed.
#[derive(Clone, Copy, Debug)]
pub struct Workload {
    /// Keys are drawn from zero up to this.
    pub key_range: u64,
    /// Share of insertions.
    pub insert_fraction: Binary64,
}

/// The key that a word draws.
pub open spec fn key_of(draw: u64, key_range: u64) -> u64 {
    (draw / 0x2_0000_0000) % key_range
}

/// Whether a word draws an insertion.
pub open spec fn draws_insert(draw: u64, fraction: Binary64) -> bool {
    (draw / 0x2_0000) % 0x100 < binary64::truncated(
        binary64::product(fraction, binary64::word(BYTE_RANGE_BITS)),
    )
}

/// Whether a word draws a snapshot.
pub open spec fn draws_snapshot(draw: u64, fraction: Binary64) -> bool {
    draw % 0x1_0000 < binary64::truncated(
        binary64::product(fraction, binary64::word(SHORT_RANGE_BITS)),
    )
}

impl Workload {
    /// Twenty million keys, as many insertions as deletions.
    pub fn standard() -> (r: Self)
        ensures
            r.key_range == 20_000_000,
            r.insert_fraction.bits == HALF_BITS,
    {
        Workload { key_range: 20_000_000, insert_fraction: Binary64::from_bits(HALF_BITS) }
    }

    /// Draws the next operation: its key, and whether it is an insertion.
    pub fn next_op(&self, rng: &mut u64) -> (op: (u64, bool))
        requires
            self.key_range != 0,
        ensures
            *final(rng) == next_draw(*old(rng)),
            op.0 == key_of(*final(rng), self.key_range),
            op.1 == draws_insert(*final(rng), self.insert_fraction),
    {
        let draw: u64 = lcg(rng);
        let key: u64 = (draw / 0x2_0000_0000) % self.key_range;
        let limit: u64 = self.insert_fraction.times(Binary64::from_bits(BYTE_RANGE_BITS)).to_u64();
        (key, (draw / 0x2_0000) % 0x100 < limit)
    }
}

/// Decides whether the next operation is a snapshot.
pub fn next_is_snapshot(rng: &mut u64, snap_fraction: Binary64) -> (r: bool)
    ensures
        *final(rng) == next_extra_draw(*old(rng)),
        r == draws_snapshot(*final(rng), snap_fraction),
{
    let draw: u64 = lcg_extra(rng);
    let limit: u64 = snap_fraction.times(Binary64::from_bits(SHORT_RANGE_BITS)).to_u64();
    draw % 0x1_0000 < limit
}

/// Every key that is drawn lies in the range, and differs from the upper bits of
/// its word by a multiple of the range.
pub proof fn keys_stay_in_range(draw: u64, key_range: u64)
    requires
        key_range != 0,
    ensures
        key_of(draw, key_range) < key_range,
        key_of(draw, key_range) <= draw / 0x2_0000_0000,
        (draw / 0x2_0000_0000 - key_of(draw, key_range)) % (key_range as int) == 0,
{
    let upper = (draw / 0x2_0000_0000) as int;
    let range = key_range as int;
    vstd::arithmetic::div_mod::lemma_fundamental_div_mod(upper, range);
    vstd::arithmetic::div_mod::lemma_mod_multiples_basic(upper / range, range);
    assert(upper - upper % range == (upper / range) * range) by (nonlinear_arith)
        requires
            upper == range * (upper / range) + upper % range,
    ;
    vstd::arithmetic::div_mod::lemma_mod_decreases(upper as nat, range as nat);
}

} // verus!
