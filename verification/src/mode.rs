//! Which way of freeing fits the snapshot pressure.

use crate::binary64;
use crate::binary64::Binary64;
use crate::rounding;
use crate::params::{HYSTERESIS_BITS, SPI_SNAP_HEAVY_BITS, SPI_WRITE_HEAVY_BITS};
use vstd::arithmetic::power2::*;
use vstd::prelude::*;

verus! {

/// How eagerly retired nodes are freed.
#[derive(Clone, Copy, Debug, PartialEq, Eq, Structural)]
pub enum GcMode {
    /// Few snapshots: free more than is retired, and advance the epoch.
    AggressiveEbr,
    /// Some snapshots: free as much as is retired, and advance the epoch.
    AmortisedFree,
    /// Many snapshots: free nothing but a forced batch now and then, and leave
    /// the epoch alone.
    ConservativeHold,
}

pub open spec fn write_heavy() -> Binary64 {
    binary64::word(SPI_WRITE_HEAVY_BITS)
}

pub open spec fn snap_heavy() -> Binary64 {
    binary64::word(SPI_SNAP_HEAVY_BITS)
}

pub open spec fn half_band() -> Binary64 {
    binary64::word(HYSTERESIS_BITS)
}

/// The mode for a pressure, without regard to the one before.
pub open spec fn mode_at(spi: Binary64) -> GcMode {
    if binary64::at_most(spi, write_heavy()) {
        GcMode::AggressiveEbr
    } else if binary64::at_most(spi, snap_heavy()) {
        GcMode::AmortisedFree
    } else {
        GcMode::ConservativeHold
    }
}

/// Whether the pressure is above a limit by more than the dead band.
pub open spec fn clears_upward(spi: Binary64, limit: Binary64) -> bool {
    binary64::less(binary64::sum(limit, half_band()), spi)
}

/// Whether the pressure is below a limit by more than the dead band.
pub open spec fn clears_downward(spi: Binary64, limit: Binary64) -> bool {
    binary64::less(spi, binary64::difference(limit, half_band()))
}

/// The mode that follows `prev`: it changes only where the pressure clears the
/// limit in between by more than the dead band.
pub open spec fn mode_after(spi: Binary64, prev: GcMode) -> GcMode {
    match prev {
        GcMode::AggressiveEbr => if clears_upward(spi, snap_heavy()) {
            GcMode::ConservativeHold
        } else if clears_upward(spi, write_heavy()) {
            GcMode::AmortisedFree
        } else {
            GcMode::AggressiveEbr
        },
        GcMode::AmortisedFree => if clears_downward(spi, write_heavy()) {
            GcMode::AggressiveEbr
        } else if clears_upward(spi, snap_heavy()) {
            GcMode::ConservativeHold
        } else {
            GcMode::AmortisedFree
        },
        GcMode::ConservativeHold => if clears_downward(spi, write_heavy()) {
            GcMode::AggressiveEbr
        } else if clears_downward(spi, snap_heavy()) {
            GcMode::AmortisedFree
        } else {
            GcMode::ConservativeHold
        },
    }
}

/// Classifies a pressure where there is no mode to hold on to yet.
pub fn select_gc_mode(spi: Binary64) -> (mode: GcMode)
    ensures
        mode == mode_at(spi),
{
    if spi.is_at_most(Binary64::from_bits(SPI_WRITE_HEAVY_BITS)) {
        GcMode::AggressiveEbr
    } else if spi.is_at_most(Binary64::from_bits(SPI_SNAP_HEAVY_BITS)) {
        GcMode::AmortisedFree
    } else {
        GcMode::ConservativeHold
    }
}

/// Classifies a pressure, holding on to `prev` within the dead band around each
/// limit, so that noise there does not flip the mode.
pub fn select_gc_mode_with_hysteresis(spi: Binary64, prev: GcMode) -> (mode: GcMode)
    ensures
        mode == mode_after(spi, prev),
{
    let write_heavy: Binary64 = Binary64::from_bits(SPI_WRITE_HEAVY_BITS);
    let snap_heavy: Binary64 = Binary64::from_bits(SPI_SNAP_HEAVY_BITS);
    let half_band: Binary64 = Binary64::from_bits(HYSTERESIS_BITS);
    match prev {
        GcMode::AggressiveEbr => {
            if snap_heavy.plus(half_band).is_less(spi) {
                GcMode::ConservativeHold
            } else if write_heavy.plus(half_band).is_less(spi) {
                GcMode::AmortisedFree
            } else {
                GcMode::AggressiveEbr
            }
        },
        GcMode::AmortisedFree => {
            if spi.is_less(write_heavy.minus(half_band)) {
                GcMode::AggressiveEbr
            } else if snap_heavy.plus(half_band).is_less(spi) {
                GcMode::ConservativeHold
            } else {
                GcMode::AmortisedFree
            }
        },
        GcMode::ConservativeHold => {
            if spi.is_less(write_heavy.minus(half_band)) {
                GcMode::AggressiveEbr
            } else if spi.is_less(snap_heavy.minus(half_band)) {
                GcMode::AmortisedFree
            } else {
                GcMode::ConservativeHold
            }
        },
    }
}

/// The four ends of the dead bands, as words.
proof fn lemma_band_ends()
    ensures
        binary64::sum(write_heavy(), half_band()).bits == 0x3FD6_6666_6666_6666,
        binary64::difference(write_heavy(), half_band()).bits == 0x3FD0_0000_0000_0000,
        binary64::sum(snap_heavy(), half_band()).bits == 0x3FE4_CCCC_CCCC_CCCD,
        binary64::difference(snap_heavy(), half_band()).bits == 0x3FE1_9999_9999_9999,
{
    let p = pow2(1017);
    lemma2_to64();
    lemma2_to64_rest();
    lemma_pow2_pos(1017);
    lemma_pow2_adds(1017, 3);
    lemma_pow2_adds(1017, 4);
    let wh = 0x13_3333_3333_3333nat;
    let h = 0x19_9999_9999_999Anat;
    assert(write_heavy().value() == wh * (8 * p));
    assert(snap_heavy().value() == wh * (16 * p));
    assert(half_band().value() == h * p);
    assert(binary64::negated(half_band()).value() == -(h * p));
    rounding::lemma_rounded_long(8 * wh + h, 1017, 56);
    assert(wh * (8 * p) + h * p == (8 * wh + h) * p) by (nonlinear_arith);
    rounding::lemma_rounded_long((8 * wh - h) as nat, 1017, 55);
    assert(wh * (8 * p) - h * p == (8 * wh - h) * p) by (nonlinear_arith);
    rounding::lemma_rounded_long(16 * wh + h, 1017, 57);
    assert(wh * (16 * p) + h * p == (16 * wh + h) * p) by (nonlinear_arith);
    rounding::lemma_rounded_long((16 * wh - h) as nat, 1017, 57);
    assert(wh * (16 * p) - h * p == (16 * wh - h) * p) by (nonlinear_arith);
    assert((8 * wh - h) * p > 0 && (16 * wh - h) * p > 0) by (nonlinear_arith)
        requires
            8 * wh - h > 0,
            16 * wh - h > 0,
            p > 0,
    ;
}

/// The limits and the ends of their dead bands, in order.
proof fn lemma_limits_in_order()
    ensures
        ({
            let low = binary64::difference(write_heavy(), half_band());
            let high = binary64::sum(write_heavy(), half_band());
            let snap_low = binary64::difference(snap_heavy(), half_band());
            let snap_high = binary64::sum(snap_heavy(), half_band());
            &&& low.value() < write_heavy().value() < high.value() < snap_low.value()
                < snap_heavy().value() < snap_high.value()
            &&& !low.is_nan() && !high.is_nan() && !snap_low.is_nan() && !snap_high.is_nan()
        }),
{
    lemma_band_ends();
    binary64::lemma_units_order(0x3FD0_0000_0000_0000, SPI_WRITE_HEAVY_BITS as nat);
    binary64::lemma_units_order(SPI_WRITE_HEAVY_BITS as nat, 0x3FD6_6666_6666_6666);
    binary64::lemma_units_order(0x3FD6_6666_6666_6666, 0x3FE1_9999_9999_9999);
    binary64::lemma_units_order(0x3FE1_9999_9999_9999, SPI_SNAP_HEAVY_BITS as nat);
    binary64::lemma_units_order(SPI_SNAP_HEAVY_BITS as nat, 0x3FE4_CCCC_CCCC_CCCD);
}

/// Whether a pressure lies in the dead band around a limit.
pub open spec fn in_dead_band(spi: Binary64, limit: Binary64) -> bool {
    !spi.is_nan() && !clears_upward(spi, limit) && !clears_downward(spi, limit)
}

/// The mode after a sequence of pressures.
pub open spec fn mode_after_all(samples: Seq<Binary64>, prev: GcMode) -> GcMode
    decreases samples.len(),
{
    if samples.len() == 0 {
        prev
    } else {
        mode_after(samples.last(), mode_after_all(samples.drop_last(), prev))
    }
}

/// Noise within the dead band around a limit never changes a mode on either
/// side of that limit, however long it lasts.
pub proof fn noise_never_flips_the_mode(samples: Seq<Binary64>, limit: Binary64, prev: GcMode)
    requires
        limit == write_heavy() && prev != GcMode::ConservativeHold || limit == snap_heavy() && prev
            != GcMode::AggressiveEbr,
        forall|i: int| 0 <= i < samples.len() ==> in_dead_band(#[trigger] samples[i], limit),
    ensures
        mode_after_all(samples, prev) == prev,
    decreases samples.len(),
{
    if samples.len() > 0 {
        noise_never_flips_the_mode(samples.drop_last(), limit, prev);
        lemma_limits_in_order();
        assert(in_dead_band(samples[samples.len() - 1], limit));
    }
}

/// From whichever mode, the first pressure within a dead band settles the mode
/// for all that stay within it.
pub proof fn dead_band_settles_at_once(
    first: Binary64,
    later: Binary64,
    limit: Binary64,
    prev: GcMode,
)
    requires
        limit == write_heavy() || limit == snap_heavy(),
        in_dead_band(first, limit),
        in_dead_band(later, limit),
    ensures
        mode_after(later, mode_after(first, prev)) == mode_after(first, prev),
{
    lemma_limits_in_order();
}

/// A pressure that stays the same changes the mode at most once.
pub proof fn steady_pressure_settles(spi: Binary64, prev: GcMode)
    ensures
        mode_after(spi, mode_after(spi, prev)) == mode_after(spi, prev),
{
    lemma_limits_in_order();
}

/// Outside both dead bands the mode before does not matter: it is the one that
/// the pressure alone selects. So a real shift takes effect with one sample.
pub proof fn a_clear_shift_takes_effect(spi: Binary64, prev: GcMode)
    requires
        !spi.is_nan(),
        !in_dead_band(spi, write_heavy()),
        !in_dead_band(spi, snap_heavy()),
    ensures
        mode_after(spi, prev) == mode_at(spi),
        clears_upward(spi, snap_heavy()) ==> mode_after(spi, prev) == GcMode::ConservativeHold,
        clears_downward(spi, write_heavy()) ==> mode_after(spi, prev) == GcMode::AggressiveEbr,
{
    lemma_limits_in_order();
}

} // verus!
