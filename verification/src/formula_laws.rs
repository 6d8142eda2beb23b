//! What the formulas of the library come to, as real numbers.
//!
//! The estimates are computed with rounding. Each law here says how near a result
//! is to the exact value of the formula that it stands for, with all constants
//! written out.

use crate::access::{Access, MemOrder, Place};
use crate::accuracy;
use crate::accuracy::{apart, half_step, number};
use crate::bench;
use crate::binary64;
use crate::binary64::Binary64;
use crate::local::Local;
use crate::mode;
use crate::mode::GcMode;
use crate::params::{
    ALPHA_BITS, HYSTERESIS_BITS, SIM_BASE_FREE_NS_BITS, SIM_CONTENDED_FREE_NS_BITS,
    SPI_EMA_ALPHA_BITS, SPI_SNAP_HEAVY_BITS, SPI_WRITE_HEAVY_BITS, TREND_THRESHOLD_BITS,
    TREND_WEIGHT_BITS,
};
use crate::pressure_laws;
use crate::rounding;
use crate::runs;
use crate::scc;
use crate::system;
use vstd::arithmetic::power2::*;
use vstd::prelude::*;

verus! {

/// One part of a whole, as a real number.
pub open spec fn share(part: u64, whole: int) -> real {
    part as real / whole as real
}

/// Words from one up, rounded.
proof fn lemma_word_near(n: u64)
    ensures
        ({
            let x = binary64::from_whole(n as nat);
            &&& pressure_laws::nonnegative(x)
            &&& !x.negative()
            &&& number(x) <= n as real + half_step(2real * n as real)
            &&& n as real <= number(x) + half_step(2real * number(x))
            &&& n > 0 ==> number(x) >= 1real / 2real && x.value() > 0
            &&& n == 0 ==> x.value() == 0 && number(x) == 0real
        }),
{
    accuracy::lemma_whole_near(n as nat);
    let x = binary64::from_whole(n as nat);
    if n == 0 {
        pressure_laws::lemma_one();
        binary64::lemma_rounded_zero(1);
        assert(0 * binary64::one_in_units() == 0) by (nonlinear_arith);
        accuracy::lemma_zero();
    } else {
        accuracy::lemma_nonnegative(x);
        if x.value() == 0 {
            accuracy::lemma_zero();
        }
    }
}

/// A quotient of words is the share, but for three roundings; where it is zero
/// it is so exactly.
proof fn lemma_share_near(part: u64, whole: u64)
    requires
        whole > 0,
    ensures
        ({
            let x = binary64::quotient(
                binary64::from_whole(part as nat),
                binary64::from_whole(whole as nat),
            );
            &&& pressure_laws::nonnegative(x)
            &&& !x.negative()
            &&& number(x) >= 0real
            &&& apart(number(x) * whole as real, part as real) <= half_step(6real * part as real)
        }),
{
    let a = binary64::from_whole(part as nat);
    let b = binary64::from_whole(whole as nat);
    let x = binary64::quotient(a, b);
    lemma_word_near(part);
    lemma_word_near(whole);
    let p = part as real;
    let t = whole as real;
    let na = number(a);
    let nb = number(b);
    assert(p <= 18446744073709551615real);
    assert(na <= 36893488147419103232real);
    assert(na <= accuracy::ceiling() * nb) by (nonlinear_arith)
        requires
            na <= 36893488147419103232real,
            nb >= 1real / 2real,
    ;
    accuracy::lemma_quotient_near(a, b);
    let q = na / nb;
    let r = number(x);
    assert(q * nb == na) by (nonlinear_arith)
        requires
            q == na / nb,
            nb > 0real,
    ;
    if part == 0 {
        accuracy::lemma_zero_quotient(a, b);
        assert(r * t == 0real) by (nonlinear_arith)
            requires
                r == 0real,
        ;
    } else {
        let qt = q * t;
        assert(qt <= na + half_step(2real * na)) by (nonlinear_arith)
            requires
                qt == q * t,
                q * nb == na,
                t <= nb + half_step(2real * nb),
                q >= 0real,
        ;
        assert(na <= qt + half_step(2real * qt)) by (nonlinear_arith)
            requires
                qt == q * t,
                q * nb == na,
                nb <= t + half_step(2real * t),
                q >= 0real,
        ;
        let g = accuracy::grain();
        assert(r * t <= qt + half_step(qt) + g * t) by (nonlinear_arith)
            requires
                qt == q * t,
                r <= q + half_step(q) + g,
                t > 0real,
        ;
        assert(r * t >= qt - half_step(qt) - g * t) by (nonlinear_arith)
            requires
                qt == q * t,
                r >= q - half_step(q) - g,
                t > 0real,
        ;
        assert(g * t <= half_step(1real / 100real)) by (nonlinear_arith)
            requires
                g == accuracy::grain(),
                t <= 18446744073709551615real,
        ;
    }
}

/// For every window of writes and snapshots, the pressure sampled is the share of
/// snapshots among the operations and one more: times their number it gives the
/// snapshots back, but for rounding.
pub proof fn sampled_pressure_is_the_share_of_snapshots(writes: u64, snaps: u64)
    requires
        0 < writes + snaps < u64::MAX,
    ensures
        apart(
            number(system::window_pressure(writes, snaps)) * (writes + snaps + 1) as real,
            snaps as real,
        ) <= half_step(6real * snaps as real),
        apart(
            number(system::window_pressure(writes, snaps)),
            share(snaps, writes + snaps + 1),
        ) <= half_step(6real),
        writes + snaps + 1 < 0x20_0000_0000_0000 ==> accuracy::near(
            system::window_pressure(writes, snaps),
            share(snaps, writes + snaps + 1),
        ),
{
    let whole = (writes + snaps + 1) as u64;
    lemma_share_near(snaps, whole);
    if whole < 0x20_0000_0000_0000 {
        lemma_short_share_near(snaps, whole);
    }
    lemma_share_apart(number(system::window_pressure(writes, snaps)), snaps, whole);
}

proof fn lemma_share_apart(r: real, part: u64, whole: u64)
    requires
        part <= whole,
        whole > 0,
        apart(r * whole as real, part as real) <= half_step(6real * part as real),
    ensures
        apart(r, share(part, whole as int)) <= half_step(6real),
        0real <= share(part, whole as int) <= 1real,
{
    let p = part as real;
    let t = whole as real;
    let s = p / t;
    let e = half_step(6real);
    assert(s * t == p && 0real <= s <= 1real) by (nonlinear_arith)
        requires
            s == p / t,
            t > 0real,
            0real <= p <= t,
    ;
    assert(r - s <= e && s - r <= e) by (nonlinear_arith)
        requires
            s * t == p,
            0real <= s <= 1real,
            r * t - p <= e * p,
            p - r * t <= e * p,
            t > 0real,
            e > 0real,
    ;
}

/// A whole number of no more than 53 digits is exact.
proof fn lemma_short_word(n: nat)
    requires
        n < 0x20_0000_0000_0000,
    ensures
        pressure_laws::nonnegative(binary64::from_whole(n)),
        !binary64::from_whole(n).negative(),
        number(binary64::from_whole(n)) == n as real,
{
    pressure_laws::lemma_from_whole(n);
    pressure_laws::lemma_one();
    let x = binary64::from_whole(n);
    accuracy::lemma_whole_near(n);
    accuracy::lemma_nonnegative(x);
    let u = binary64::one_in_units() as real;
    let r = number(x);
    let one = binary64::one_in_units();
    assert(r == n as real) by (nonlinear_arith)
        requires
            r * u == (n * one) as real,
            u == one as real,
            u > 0real,
    ;
}

/// A quotient of short words is rounded once.
proof fn lemma_short_share_near(part: u64, whole: u64)
    requires
        part <= whole,
        0 < whole < 0x20_0000_0000_0000,
    ensures
        ({
            let x = binary64::quotient(
                binary64::from_whole(part as nat),
                binary64::from_whole(whole as nat),
            );
            accuracy::near(x, share(part, whole as int))
        }),
{
    let a = binary64::from_whole(part as nat);
    let b = binary64::from_whole(whole as nat);
    lemma_short_word(part as nat);
    lemma_short_word(whole as nat);
    lemma_word_near(whole);
    assert(number(a) <= accuracy::ceiling() * number(b)) by (nonlinear_arith)
        requires
            number(a) <= number(b),
            number(b) > 0real,
    ;
    accuracy::lemma_quotient_near(a, b);
}

/// At the same number of snapshots, the pressure sampled falls with every write
/// more, as long as there are no more than two to the 50 operations.
pub proof fn sampled_pressure_falls_with_writes(fewer: u64, more: u64, snaps: u64)
    requires
        fewer < more,
        snaps > 0,
        more + snaps < 0x4_0000_0000_0000,
    ensures
        number(system::window_pressure(more, snaps)) < number(
            system::window_pressure(fewer, snaps),
        ),
{
    sampled_pressure_is_the_share_of_snapshots(fewer, snaps);
    sampled_pressure_is_the_share_of_snapshots(more, snaps);
    let n = (fewer + snaps + 1) as real;
    let m = (more + snaps + 1) as real;
    let k = snaps as real;
    let a = k / n;
    let b = k / m;
    let g = accuracy::grain();
    let x = number(system::window_pressure(fewer, snaps));
    let y = number(system::window_pressure(more, snaps));
    assert(a * n == k && b * m == k && a > 0real && b > 0real) by (nonlinear_arith)
        requires
            a == k / n,
            b == k / m,
            n > 0real,
            m > 0real,
            k > 0real,
    ;
    // The shares differ by at least one part in the number of operations.
    assert(a - b >= a / m) by (nonlinear_arith)
        requires
            a * n == k,
            b * m == k,
            m >= n + 1real,
            n > 0real,
            a > 0real,
            b > 0real,
    ;
    assert(a / m >= half_step(7real * a)) by (nonlinear_arith)
        requires
            m <= 1125899906842624real,
            m > 0real,
            a > 0real,
    ;
    assert(a >= 1real / 1125899906842624real) by (nonlinear_arith)
        requires
            a * n == k,
            k >= 1real,
            0real < n <= 1125899906842624real,
    ;
    assert(b < a);
}

/// The weight of a new sample: 0.15.
proof fn lemma_sample_weight()
    ensures
        ({
            let weight = binary64::word(SPI_EMA_ALPHA_BITS);
            &&& pressure_laws::nonnegative(weight)
            &&& !weight.negative()
            &&& apart(number(weight), 15real / 100real) <= half_step(1real / 2real)
        }),
{
    lemma2_to64_rest();
    accuracy::lemma_constant(SPI_EMA_ALPHA_BITS, 1020, 0x3_3333_3333_3333, 0x80_0000_0000_0000);
}

/// One.
proof fn lemma_unit_number()
    ensures
        pressure_laws::nonnegative(binary64::word(binary64::ONE)),
        !binary64::word(binary64::ONE).negative(),
        number(binary64::word(binary64::ONE)) == 1real,
{
    lemma2_to64();
    lemma2_to64_rest();
    accuracy::lemma_constant(binary64::ONE, 1023, 0, 0x10_0000_0000_0000);
}

/// Numbers between zero and one.
pub proof fn lemma_in_unit_range(x: Binary64)
    requires
        pressure_laws::in_unit_range(x),
    ensures
        pressure_laws::nonnegative(x),
        0real <= number(x) <= 1real,
{
    pressure_laws::lemma_one();
    lemma_unit_number();
    let one = binary64::word(binary64::ONE);
    binary64::lemma_units_order(binary64::ONE as nat, x.magnitude());
    binary64::lemma_units_order(0, x.magnitude());
    accuracy::lemma_nonnegative(x);
    accuracy::lemma_order(x, one);
}

/// Factors that are near each other give products that are.
proof fn lemma_nearby_factor(x: real, a: real, b: real, off: real)
    requires
        0real <= x <= 1real,
        apart(a, b) <= off,
    ensures
        apart(x * a, x * b) <= off,
{
    assert(x * a - x * b <= off && x * b - x * a <= off) by (nonlinear_arith)
        requires
            0real <= x <= 1real,
            a - b <= off,
            b - a <= off,
    ;
}

/// Sampling moves the smoothed pressure by 0.15 of the way towards the share of
/// snapshots, but for rounding, publishes it and its change, and empties the
/// window.
pub proof fn sampling_smooths_the_pressure<V, F, W>(t: Local<V, F, W>)
    requires
        pressure_laws::in_unit_range(t.spi_ema),
        system::may_resample(t),
        t.win_writes > 0 || t.win_snaps > 0,
    ensures
        ({
            let r = system::resampled(t);
            let sampled = share(t.win_snaps, t.win_writes + t.win_snaps + 1);
            let before = number(t.spi_ema);
            let spi_ema = number(r.spi_ema);
            let exact = before * (85real / 100real) + sampled * (15real / 100real);
            let published = Binary64 { bits: r.trace.last()->Store_value };
            &&& apart(spi_ema, exact) <= half_step(10real)
            &&& before <= sampled ==> before - half_step(10real) <= spi_ema <= sampled + half_step(
                10real,
            )
            &&& sampled <= before ==> sampled - half_step(10real) <= spi_ema <= before + half_step(
                10real,
            )
            &&& r.win_writes == 0 && r.win_snaps == 0
            &&& published.is_finite()
            &&& apart(number(published), spi_ema - before) <= half_step(3real)
            &&& r.trace == t.trace + seq![
                Access::Store {
                    at: Place::ApproxSpi,
                    order: MemOrder::Relaxed,
                    value: r.spi_ema.bits,
                },
                Access::Store {
                    at: Place::DeltaSpi,
                    order: MemOrder::Relaxed,
                    value: published.bits,
                },
            ]
        }),
{
    let whole = (t.win_writes + t.win_snaps + 1) as u64;
    sampled_pressure_is_the_share_of_snapshots(t.win_writes, t.win_snaps);
    lemma_share_apart(
        number(system::window_pressure(t.win_writes, t.win_snaps)),
        t.win_snaps,
        whole,
    );
    lemma_smoothed(t.spi_ema, t.win_writes, t.win_snaps);
    lemma_in_unit_range(t.spi_ema);
    let r = system::resampled(t);
    lemma_delta(r.spi_ema, t.spi_ema);
    assert(r.trace.last()->Store_value == binary64::difference(r.spi_ema, t.spi_ema).bits);
}

#[verifier::rlimit(30)]
proof fn lemma_smoothed(previous: Binary64, writes: u64, snaps: u64)
    requires
        pressure_laws::in_unit_range(previous),
        0 < writes + snaps < u64::MAX,
    ensures
        ({
            let x = system::smoothed_pressure(previous, writes, snaps);
            let sampled = share(snaps, writes + snaps + 1);
            &&& pressure_laws::nonnegative(x)
            &&& number(x) <= 2real
            &&& apart(
                number(x),
                number(previous) * (85real / 100real) + sampled * (15real / 100real),
            ) <= half_step(10real)
        }),
{
    reveal(system::smoothed_pressure);
    lemma_sample_weight();
    lemma_unit_number();
    lemma_in_unit_range(previous);
    sampled_pressure_is_the_share_of_snapshots(writes, snaps);
    let whole = (writes + snaps + 1) as u64;
    lemma_share_near(snaps, whole);
    let one = binary64::word(binary64::ONE);
    let weight = binary64::word(SPI_EMA_ALPHA_BITS);
    let keep = binary64::difference(one, weight);
    let sample = system::window_pressure(writes, snaps);
    lemma_share_apart(number(sample), snaps, whole);
    let before = number(previous);
    let sampled = share(snaps, whole as int);
    accuracy::lemma_difference_near(one, weight);
    let k = number(keep);
    let a = number(weight);
    let s = number(sample);
    lemma_terms(before, k, sampled, s, a);
    accuracy::lemma_product_near(previous, keep);
    accuracy::lemma_product_near(sample, weight);
    let kept = binary64::product(previous, keep);
    let taken = binary64::product(sample, weight);
    accuracy::lemma_sum_near(kept, taken);
}

/// The two terms of a smoothed number.
proof fn lemma_terms(before: real, keep: real, sampled: real, sample: real, weight: real)
    requires
        0real <= before <= 1real,
        0real <= sampled <= 1real,
        apart(keep, 85real / 100real) <= half_step(2real),
        apart(weight, 15real / 100real) <= half_step(1real / 2real),
        apart(sample, sampled) <= half_step(6real),
    ensures
        apart(before * keep, before * (85real / 100real)) <= half_step(2real),
        apart(sample * weight, sampled * (15real / 100real)) <= half_step(2real),
        before * keep <= 86real / 100real,
        sample * weight <= 16real / 100real,
{
    lemma_nearby_factor(before, keep, 85real / 100real, half_step(2real));
    lemma_nearby_factor(sampled, weight, 15real / 100real, half_step(1real / 2real));
    let x = sample * weight;
    let y = sampled * weight;
    let off = half_step(6real) * (16real / 100real);
    assert(x - y <= off && y - x <= off) by (nonlinear_arith)
        requires
            x == sample * weight,
            y == sampled * weight,
            off == half_step(6real) * (16real / 100real),
            sample - sampled <= half_step(6real),
            sampled - sample <= half_step(6real),
            0real <= weight <= 16real / 100real,
    ;
}

/// The difference of two numbers up to a little more than one.
proof fn lemma_delta(a: Binary64, b: Binary64)
    requires
        pressure_laws::nonnegative(a),
        pressure_laws::nonnegative(b),
        number(a) <= 2real,
        number(b) <= 2real,
    ensures
        binary64::difference(a, b).is_finite(),
        apart(number(binary64::difference(a, b)), number(a) - number(b)) <= half_step(3real),
{
    accuracy::lemma_nonnegative(a);
    accuracy::lemma_nonnegative(b);
    accuracy::lemma_signed_difference_near(a, b);
}

/// A pressure that no sample of which exceeds `top` does not settle above it: once
/// it is no higher than that, but for rounding, it stays so.
pub proof fn pressure_keeps_below_its_samples<V, F, W>(t: Local<V, F, W>, top: real)
    requires
        pressure_laws::in_unit_range(t.spi_ema),
        system::may_resample(t),
        t.win_writes > 0 || t.win_snaps > 0,
        share(t.win_snaps, t.win_writes + t.win_snaps + 1) <= top,
        number(t.spi_ema) <= top + half_step(100real),
    ensures
        number(system::resampled(t).spi_ema) <= top + half_step(100real),
{
    sampling_smooths_the_pressure(t);
}

/// A pressure that no sample of which is below `bottom` does not settle below it.
pub proof fn pressure_keeps_above_its_samples<V, F, W>(t: Local<V, F, W>, bottom: real)
    requires
        pressure_laws::in_unit_range(t.spi_ema),
        system::may_resample(t),
        t.win_writes > 0 || t.win_snaps > 0,
        share(t.win_snaps, t.win_writes + t.win_snaps + 1) >= bottom,
        number(t.spi_ema) >= bottom - half_step(100real),
    ensures
        number(system::resampled(t).spi_ema) >= bottom - half_step(100real),
{
    sampling_smooths_the_pressure(t);
}

/// The limits between the modes: 0.30, 0.60 and 0.05.
proof fn lemma_limits()
    ensures
        pressure_laws::nonnegative(mode::write_heavy()),
        pressure_laws::nonnegative(mode::snap_heavy()),
        pressure_laws::nonnegative(mode::half_band()),
        apart(number(mode::write_heavy()), 30real / 100real) <= half_step(1real / 2real),
        apart(number(mode::snap_heavy()), 60real / 100real) <= half_step(1real / 2real),
        apart(number(mode::half_band()), 5real / 100real) <= half_step(1real / 2real),
{
    lemma2_to64_rest();
    accuracy::lemma_constant(
        SPI_WRITE_HEAVY_BITS,
        1021,
        0x3_3333_3333_3333,
        0x40_0000_0000_0000,
    );
    accuracy::lemma_constant(
        SPI_SNAP_HEAVY_BITS,
        1022,
        0x3_3333_3333_3333,
        0x20_0000_0000_0000,
    );
    accuracy::lemma_constant(
        HYSTERESIS_BITS,
        1018,
        0x9_9999_9999_999A,
        0x200_0000_0000_0000,
    );
}

/// The mode that a pressure selects alone: the first up to 0.30, the second up to
/// 0.60, and the third above, but for the rounding of these limits.
pub proof fn modes_are_divided_at_their_limits(spi: Binary64)
    requires
        spi.is_finite(),
    ensures
        ({
            let x = number(spi);
            let off = half_step(1real);
            &&& x <= 30real / 100real - off ==> mode::mode_at(spi) == GcMode::AggressiveEbr
            &&& 30real / 100real + off <= x <= 60real / 100real - off ==> mode::mode_at(spi)
                == GcMode::AmortisedFree
            &&& 60real / 100real + off <= x ==> mode::mode_at(spi) == GcMode::ConservativeHold
        }),
{
    lemma_limits();
    accuracy::lemma_order(spi, mode::write_heavy());
    accuracy::lemma_order(spi, mode::snap_heavy());
}

/// The mode that follows another one changes where the pressure has passed the
/// limit between them by 0.05: upwards at 0.35 and 0.65, downwards at 0.25 and
/// 0.55, but for the rounding of these limits.
pub proof fn modes_change_beyond_the_dead_band(spi: Binary64, prev: GcMode)
    requires
        spi.is_finite(),
    ensures
        ({
            let x = number(spi);
            let off = half_step(2real);
            let next = mode::mode_after(spi, prev);
            let low = if prev == GcMode::AggressiveEbr {
                35real / 100real
            } else {
                25real / 100real
            };
            let high = if prev == GcMode::ConservativeHold {
                55real / 100real
            } else {
                65real / 100real
            };
            &&& x <= low - off ==> next == GcMode::AggressiveEbr
            &&& low + off <= x <= high - off ==> next == GcMode::AmortisedFree
            &&& high + off <= x ==> next == GcMode::ConservativeHold
        }),
{
    lemma_limits();
    let band = mode::half_band();
    accuracy::lemma_nonnegative(mode::write_heavy());
    accuracy::lemma_nonnegative(mode::snap_heavy());
    accuracy::lemma_nonnegative(band);
    accuracy::lemma_sum_near(mode::write_heavy(), band);
    accuracy::lemma_sum_near(mode::snap_heavy(), band);
    accuracy::lemma_difference_near(mode::write_heavy(), band);
    accuracy::lemma_difference_near(mode::snap_heavy(), band);
    accuracy::lemma_order(binary64::sum(mode::write_heavy(), band), spi);
    accuracy::lemma_order(binary64::sum(mode::snap_heavy(), band), spi);
    accuracy::lemma_order(spi, binary64::difference(mode::write_heavy(), band));
    accuracy::lemma_order(spi, binary64::difference(mode::snap_heavy(), band));
}

/// What is not a number selects the third mode where there is none before it,
/// and changes none.
pub proof fn no_number_changes_no_mode(spi: Binary64, prev: GcMode)
    requires
        spi.is_nan(),
    ensures
        mode::mode_at(spi) == GcMode::ConservativeHold,
        mode::mode_after(spi, prev) == prev,
{
}

/// The stride is 16 writes and four times as many more for each unit of pressure,
/// to the nearest whole number, but for rounding.
pub proof fn stride_is_linear_in_the_pressure(spi: Binary64)
    requires
        pressure_laws::nonnegative(spi),
        number(spi) <= 1125899906842624real,
    ensures
        apart(system::epoch_stride(spi) as real, 16real + 64real * number(spi)) <= 1real / 2real
            + half_step(500real + 500real * number(spi)),
{
    reveal(system::epoch_stride);
    accuracy::lemma_nonnegative(spi);
    lemma_unit_number();
    lemma2_to64();
    lemma2_to64_rest();
    accuracy::lemma_constant(ALPHA_BITS, 1025, 0, 0x4_0000_0000_0000);
    lemma_short_word(16);
    let alpha = binary64::word(ALPHA_BITS);
    let one = binary64::word(binary64::ONE);
    let base = binary64::from_whole(16);
    let part = binary64::product(alpha, spi);
    assert(number(alpha) * number(spi) == 4real * number(spi));
    accuracy::lemma_product_near(alpha, spi);
    accuracy::lemma_sum_near(one, part);
    let factor = binary64::sum(one, part);
    assert(number(base) * number(factor) == 16real * number(factor));
    accuracy::lemma_product_near(base, factor);
    accuracy::lemma_nearest_whole(binary64::product(base, factor));
}

/// A product with one factor below zero and one not below it has no whole part.
proof fn lemma_negative_product(a: Binary64, b: Binary64)
    requires
        a.is_nan() || a.negative(),
        !b.negative(),
    ensures
        binary64::product(a, b).is_nan() || binary64::product(a, b).negative(),
        binary64::product(b, a).is_nan() || binary64::product(b, a).negative(),
{
    pressure_laws::lemma_one();
    let x = rounding::units(a.magnitude());
    let y = rounding::units(b.magnitude());
    let one = binary64::one_in_units();
    assert(rounding::rounded(x * y, one) <= rounding::INFINITY);
    assert(rounding::rounded(y * x, one) <= rounding::INFINITY);
}

/// Where the pressure is above one, a batch is a single node.
pub proof fn batches_beyond_all_pressure_are_single(spi: Binary64, delta_spi: Binary64)
    requires
        spi.is_finite(),
        1real < number(spi) <= accuracy::ceiling() / 2real,
        delta_spi.is_finite(),
        -1real <= number(delta_spi) <= 1real,
    ensures
        system::batch_size(spi, delta_spi) == 1,
{
    reveal(system::batch_size);
    lemma_unit_number();
    lemma_short_word(64);
    lemma2_to64();
    lemma2_to64_rest();
    accuracy::lemma_zero();
    let one = binary64::word(binary64::ONE);
    let most = binary64::from_whole(64);
    let rest = binary64::difference(one, spi);
    accuracy::lemma_order(one, spi);
    accuracy::lemma_signed_difference_near(one, spi);
    lemma_below_one(spi);
    lemma_negative_product(rest, most);
    let steady = binary64::product(most, rest);
    accuracy::lemma_constant(TREND_WEIGHT_BITS, 1022, 0, 0x20_0000_0000_0000);
    accuracy::lemma_constant(TREND_THRESHOLD_BITS, 1018, 0x9_9999_9999_999A, 0x200_0000_0000_0000);
    accuracy::lemma_order(binary64::word(TREND_THRESHOLD_BITS), delta_spi);
    if binary64::less(binary64::word(TREND_THRESHOLD_BITS), delta_spi) {
        let weight = binary64::word(TREND_WEIGHT_BITS);
        let d = number(delta_spi);
        let half = number(weight);
        accuracy::lemma_order(binary64::word(0), delta_spi);
        assert(half == 1real / 2real);
        assert(d * half == d / 2real) by (nonlinear_arith)
            requires
                half == 1real / 2real,
        ;
        let cut = binary64::product(delta_spi, weight);
        accuracy::lemma_product_near(delta_spi, weight);
        accuracy::lemma_difference_near(one, cut);
        lemma_negative_product(steady, binary64::difference(one, cut));
    }
}

/// One less a number above one is below zero.
proof fn lemma_below_one(x: Binary64)
    requires
        x.is_finite(),
        x.value() > binary64::word(binary64::ONE).value(),
    ensures
        binary64::difference(binary64::word(binary64::ONE), x).negative(),
{
    pressure_laws::lemma_one();
    let one = binary64::word(binary64::ONE);
    accuracy::lemma_negated(x);
    let other = binary64::negated(x);
    let exact = one.value() + other.value();
    assert(exact < 0);
    assert(rounding::rounded(vstd::math::abs(exact), 1) <= rounding::INFINITY);
}

/// The part of the largest batch that a trend leaves: all of it up to a rise of
/// 0.05, and half of the rise less above.
pub open spec fn trend_factor(rise: real) -> real {
    if rise > 5real / 100real {
        1real - rise / 2real
    } else {
        1real
    }
}

/// A batch is 64 nodes, less the share of the pressure, less half of what the
/// pressure rises by where that is more than 0.05: the whole part of that, and at
/// least one.
pub proof fn batches_shrink_with_pressure_and_trend(spi: Binary64, delta_spi: Binary64)
    requires
        pressure_laws::in_unit_range(spi),
        delta_spi.is_finite(),
        -1real <= number(delta_spi) <= 1real,
        apart(number(delta_spi), 5real / 100real) > half_step(1real),
    ensures
        ({
            let k = system::batch_size(spi, delta_spi) as real;
            let exact = 64real * (1real - number(spi)) * trend_factor(number(delta_spi));
            let off = half_step(1000real);
            &&& k >= 1real
            &&& k > 1real ==> k <= exact + off
            &&& exact - off < k + 1real
        }),
{
    reveal(system::batch_size);
    lemma_in_unit_range(spi);
    lemma_unit_number();
    lemma_short_word(64);
    lemma2_to64();
    lemma2_to64_rest();
    accuracy::lemma_constant(TREND_THRESHOLD_BITS, 1018, 0x9_9999_9999_999A, 0x200_0000_0000_0000);
    accuracy::lemma_constant(TREND_WEIGHT_BITS, 1022, 0, 0x20_0000_0000_0000);
    let one = binary64::word(binary64::ONE);
    let most = binary64::from_whole(64);
    let rest = binary64::difference(one, spi);
    accuracy::lemma_difference_near(one, spi);
    assert(number(most) * number(rest) == 64real * number(rest));
    accuracy::lemma_product_near(most, rest);
    let steady = binary64::product(most, rest);
    let threshold = binary64::word(TREND_THRESHOLD_BITS);
    accuracy::lemma_order(threshold, delta_spi);
    accuracy::lemma_truncated(steady);
    let x = 64real * (1real - number(spi));
    assert(apart(number(steady), x) <= half_step(200real));
    if number(delta_spi) > 5real / 100real {
        let weight = binary64::word(TREND_WEIGHT_BITS);
        assert(delta_spi.value() >= 0) by {
            accuracy::lemma_zero();
            accuracy::lemma_order(binary64::word(0), delta_spi);
        }
        let cut = binary64::product(delta_spi, weight);
        let d = number(delta_spi);
        let half = number(weight);
        assert(half == 1real / 2real);
        assert(d * half == d / 2real) by (nonlinear_arith)
            requires
                half == 1real / 2real,
        ;
        accuracy::lemma_product_near(delta_spi, weight);
        accuracy::lemma_difference_near(one, cut);
        let factor = binary64::difference(one, cut);
        let f = number(factor);
        let g = 1real - number(delta_spi) / 2real;
        assert(apart(f, g) <= half_step(4real));
        let s = number(steady);
        assert(s * f <= 70real) by (nonlinear_arith)
            requires
                0real <= s <= 65real,
                0real <= f <= 1real + half_step(4real),
        ;
        accuracy::lemma_product_near(steady, factor);
        let y = s * f;
        let z = x * g;
        assert(y - z <= half_step(600real) && z - y <= half_step(600real)) by (nonlinear_arith)
            requires
                y == s * f,
                z == x * g,
                0real <= s <= 65real,
                0real <= g <= 1real,
                s - x <= half_step(200real),
                x - s <= half_step(200real),
                f - g <= half_step(4real),
                g - f <= half_step(4real),
        ;
        accuracy::lemma_truncated(binary64::product(steady, factor));
    }
}

/// The share of snapshots that an open window served; none where there was none.
pub open spec fn hit_share(hits: u64, total: u64) -> real {
    if total == 0 {
        0real
    } else {
        share(hits, total as int)
    }
}

/// The hit rate is the hits divided by the total, but for rounding.
pub proof fn hit_rate_is_the_share_of_hits(hits: u64, total: u64)
    requires
        hits <= total,
    ensures
        pressure_laws::nonnegative(scc::rate(hits, total)),
        apart(number(scc::rate(hits, total)), hit_share(hits, total)) <= half_step(6real),
        0real <= hit_share(hits, total) <= 1real,
{
    reveal(scc::rate);
    accuracy::lemma_zero();
    if total > 0 {
        lemma_share_near(hits, total);
        lemma_share_apart(number(scc::rate(hits, total)), hits, total);
    }
}

/// How far a latency is below two milliseconds, as a share of that.
pub open spec fn latency_room(latency_ns: u64) -> real {
    if latency_ns >= 2_000_000 {
        0real
    } else {
        1real - latency_ns as real / 2000000real
    }
}

proof fn lemma_headroom(latency_ns: u64)
    ensures
        pressure_laws::nonnegative(scc::headroom(latency_ns)),
        apart(number(scc::headroom(latency_ns)), latency_room(latency_ns)) <= half_step(10real),
{
    lemma_unit_number();
    lemma_share_near(latency_ns, 2_000_000);
    let one = binary64::word(binary64::ONE);
    let used = binary64::quotient(
        binary64::from_whole(latency_ns as nat),
        binary64::from_whole(2_000_000),
    );
    accuracy::lemma_order(used, one);
    let least = binary64::lesser(used, one);
    accuracy::lemma_nonnegative(used);
    accuracy::lemma_difference_near(one, least);
}

/// The part of its range that a new window is wider by: 0.6 of the hit rate and 0.4
/// of how far the latency is below two milliseconds, and no more than all of it.
pub open spec fn exact_factor(hit_rate: real, latency_ns: u64) -> real {
    let factor = hit_rate * (6real / 10real) + latency_room(latency_ns) * (4real / 10real);
    if factor < 1real {
        factor
    } else {
        1real
    }
}

/// The hit rate times its weight.
proof fn lemma_hit_part(hit_rate: Binary64)
    requires
        pressure_laws::nonnegative(hit_rate),
        number(hit_rate) <= 36893488147419103232real,
    ensures
        ({
            let x = binary64::product(hit_rate, binary64::word(scc::HIT_RATE_WEIGHT_BITS));
            &&& pressure_laws::nonnegative(x)
            &&& number(x) >= 0real
            &&& number(hit_rate) >= 0real
            &&& apart(number(x), number(hit_rate) * (6real / 10real)) <= half_step(
                2real * number(hit_rate) + 1real / 1000real,
            )
        }),
{
    lemma2_to64_rest();
    accuracy::lemma_nonnegative(hit_rate);
    accuracy::lemma_constant(
        scc::HIT_RATE_WEIGHT_BITS,
        1022,
        0x3_3333_3333_3333,
        0x20_0000_0000_0000,
    );
    let a = binary64::word(scc::HIT_RATE_WEIGHT_BITS);
    let h = number(hit_rate);
    let w = number(a);
    let r = h * w;
    assert(r - h * (6real / 10real) <= half_step(h) && h * (6real / 10real) - r <= half_step(h))
        by (nonlinear_arith)
        requires
            r == h * w,
            h >= 0real,
            w - 6real / 10real <= half_step(1real / 2real),
            6real / 10real - w <= half_step(1real / 2real),
    ;
    accuracy::lemma_product_near(hit_rate, a);
}

/// The headroom times its weight.
proof fn lemma_room_part(latency_ns: u64)
    ensures
        ({
            let y = binary64::product(
                scc::headroom(latency_ns),
                binary64::word(scc::HEADROOM_WEIGHT_BITS),
            );
            &&& pressure_laws::nonnegative(y)
            &&& number(y) >= 0real
            &&& apart(number(y), latency_room(latency_ns) * (4real / 10real)) <= half_step(13real)
            &&& 0real <= latency_room(latency_ns) <= 1real
        }),
{
    lemma_headroom(latency_ns);
    lemma2_to64_rest();
    accuracy::lemma_constant(
        scc::HEADROOM_WEIGHT_BITS,
        1021,
        0x9_9999_9999_999A,
        0x40_0000_0000_0000,
    );
    lemma_weighted(
        scc::headroom(latency_ns),
        binary64::word(scc::HEADROOM_WEIGHT_BITS),
        latency_room(latency_ns),
        4real / 10real,
    );
}

/// The factor of a width.
proof fn lemma_factor(hit_rate: Binary64, latency_ns: u64)
    requires
        pressure_laws::nonnegative(hit_rate),
        number(hit_rate) <= 36893488147419103232real,
    ensures
        ({
            let factor = scc::width_factor(hit_rate, latency_ns);
            &&& pressure_laws::nonnegative(factor)
            &&& 0real <= number(factor) <= 1real
            &&& apart(number(factor), exact_factor(number(hit_rate), latency_ns)) <= half_step(
                20real,
            )
        }),
{
    lemma_hit_part(hit_rate);
    lemma_room_part(latency_ns);
    lemma_unit_number();
    accuracy::lemma_zero();
    let zero = binary64::word(0);
    let one = binary64::word(binary64::ONE);
    let x = binary64::product(hit_rate, binary64::word(scc::HIT_RATE_WEIGHT_BITS));
    let y = binary64::product(
        scc::headroom(latency_ns),
        binary64::word(scc::HEADROOM_WEIGHT_BITS),
    );
    accuracy::lemma_sum_near(x, y);
    let mixed = binary64::sum(x, y);
    accuracy::lemma_order(mixed, zero);
    accuracy::lemma_order(one, mixed);
}

/// A new window is a tenth of a millisecond wide, and up to 4.9 milliseconds
/// wider. The width is the whole part of that, but for rounding.
pub proof fn width_is_linear_in_hit_rate_and_latency(hit_rate: Binary64, latency_ns: u64)
    requires
        pressure_laws::nonnegative(hit_rate),
        number(hit_rate) <= 36893488147419103232real,
    ensures
        ({
            let width = scc::window_width(hit_rate, latency_ns) as real;
            let exact = 100000real + 4900000real * exact_factor(number(hit_rate), latency_ns);
            let off = half_step(200000000real);
            width <= exact + off && exact < width + 1real + off
        }),
{
    reveal(scc::window_width);
    lemma_factor(hit_rate, latency_ns);
    let factor = scc::width_factor(hit_rate, latency_ns);
    let range = binary64::from_whole(4_900_000);
    let least = binary64::from_whole(100_000);
    lemma_short_word(4_900_000);
    lemma_short_word(100_000);
    assert(number(factor) * number(range) == 4900000real * number(factor));
    accuracy::lemma_product_near(factor, range);
    let added = binary64::product(factor, range);
    accuracy::lemma_sum_near(least, added);
    accuracy::lemma_truncated(binary64::sum(least, added));
}

/// The width by the hits and the snapshots that were counted.
pub proof fn width_is_linear_in_hits_and_latency(hits: u64, total: u64, latency_ns: u64)
    requires
        hits <= total,
    ensures
        ({
            let width = scc::window_width(scc::rate(hits, total), latency_ns) as real;
            let factor = hit_share(hits, total) * (6real / 10real) + latency_room(latency_ns) * (
            4real / 10real);
            let exact = 100000real + 4900000real * factor;
            let off = half_step(300000000real);
            width <= exact + off && exact < width + 1real + off
        }),
{
    hit_rate_is_the_share_of_hits(hits, total);
    width_is_linear_in_hit_rate_and_latency(scc::rate(hits, total), latency_ns);
}

/// A share times a weight.
proof fn lemma_weighted(x: Binary64, weight: Binary64, exact: real, w: real)
    requires
        pressure_laws::nonnegative(x),
        pressure_laws::nonnegative(weight),
        0real <= exact <= 1real,
        apart(number(x), exact) <= half_step(10real),
        apart(number(weight), w) <= half_step(1real / 2real),
        0real <= w <= 1real,
    ensures
        pressure_laws::nonnegative(binary64::product(x, weight)),
        number(binary64::product(x, weight)) >= 0real,
        apart(number(binary64::product(x, weight)), exact * w) <= half_step(13real),
        exact * w <= 1real,
{
    accuracy::lemma_nonnegative(x);
    accuracy::lemma_nonnegative(weight);
    let p = number(x);
    let q = number(weight);
    let r = p * q;
    let e = exact * w;
    assert(r - e <= half_step(11real) && e - r <= half_step(11real) && e <= 1real)
        by (nonlinear_arith)
        requires
            r == p * q,
            e == exact * w,
            0real <= exact <= 1real,
            0real <= w <= 1real,
            0real <= p,
            0real <= q,
            p - exact <= half_step(10real),
            exact - p <= half_step(10real),
            q - w <= half_step(1real / 2real),
            w - q <= half_step(1real / 2real),
    ;
    accuracy::lemma_product_near(x, weight);
}

/// A word times a weight of at most one.
proof fn lemma_weighted_word(n: u64, weight: Binary64, w: real)
    requires
        pressure_laws::nonnegative(weight),
        apart(number(weight), w) <= half_step(1real / 2real),
        0real <= w <= 9real / 10real,
    ensures
        ({
            let x = binary64::product(binary64::from_whole(n as nat), weight);
            &&& pressure_laws::nonnegative(x)
            &&& number(x) >= 0real
            &&& apart(number(x), n as real * w) <= half_step(4real * n as real + 1real / 1000real)
            &&& n as real * w <= n as real
        }),
{
    let a = binary64::from_whole(n as nat);
    accuracy::lemma_whole_near(n as nat);
    accuracy::lemma_nonnegative(weight);
    let p = number(a);
    let q = number(weight);
    let m = n as real;
    let g = accuracy::grain();
    let r = p * q;
    let e = m * w;
    assert(r - e <= half_step(2real * m) + g && e - r <= half_step(2real * m) + g && 0real <= e
        <= m) by (nonlinear_arith)
        requires
            r == p * q,
            e == m * w,
            m >= 0real,
            p >= 0real,
            0real <= q <= 1real,
            0real <= w <= 9real / 10real,
            g > 0real,
            p - m <= half_step(m) + g,
            m - p <= half_step(m) + g,
            q - w <= half_step(1real / 2real),
            w - q <= half_step(1real / 2real),
    ;
    accuracy::lemma_product_near(a, weight);
}

/// The smoothed latency is nine tenths of what it was and one tenth of the new
/// one: the whole part of that, but for rounding.
pub proof fn latency_is_smoothed_by_a_tenth(previous: u64, ns: u64)
    ensures
        ({
            let smoothed = scc::smoothed_latency(previous, ns) as real;
            let exact = previous as real * (9real / 10real) + ns as real * (1real / 10real);
            let off = half_step(10real * (previous as real + ns as real) + 1real);
            smoothed <= exact + off && exact < smoothed + 1real + off
        }),
{
    lemma2_to64_rest();
    accuracy::lemma_constant(
        scc::LATENCY_KEEP_BITS,
        1022,
        0xC_CCCC_CCCC_CCCD,
        0x20_0000_0000_0000,
    );
    accuracy::lemma_constant(
        scc::LATENCY_NEW_BITS,
        1019,
        0x9_9999_9999_999A,
        0x100_0000_0000_0000,
    );
    let keep = binary64::word(scc::LATENCY_KEEP_BITS);
    let new = binary64::word(scc::LATENCY_NEW_BITS);
    lemma_weighted_word(previous, keep, 9real / 10real);
    lemma_weighted_word(ns, new, 1real / 10real);
    let kept = binary64::product(binary64::from_whole(previous as nat), keep);
    let taken = binary64::product(binary64::from_whole(ns as nat), new);
    accuracy::lemma_sum_near(kept, taken);
    accuracy::lemma_truncated(binary64::sum(kept, taken));
}

/// A number that is a whole one.
proof fn lemma_whole_value(x: Binary64, n: nat)
    requires
        pressure_laws::nonnegative(x),
        number(x) == n as real,
    ensures
        x.value() == n * binary64::one_in_units(),
{
    accuracy::lemma_nonnegative(x);
    let one = binary64::one_in_units();
    let u = one as real;
    assert((n * one) as real == n as real * u) by (nonlinear_arith)
        requires
            u == one as real,
    ;
}

/// Products of whole numbers are rounded whole numbers.
proof fn lemma_whole_product(x: Binary64, y: Binary64, a: nat, b: nat)
    requires
        pressure_laws::nonnegative(x) && pressure_laws::nonnegative(y),
        !x.negative() && !y.negative(),
        number(x) == a as real,
        number(y) == b as real,
    ensures
        binary64::product(x, y) == binary64::from_whole(a * b),
{
    pressure_laws::lemma_one();
    lemma_whole_value(x, a);
    lemma_whole_value(y, b);
    accuracy::lemma_nonnegative(x);
    accuracy::lemma_nonnegative(y);
    let one = binary64::one_in_units();
    assert((a * one) * (b * one) == (a * b * one) * one) by (nonlinear_arith);
    rounding::lemma_rounded_scaled(a * b * one, 1, one);
}

/// Sums of whole numbers are rounded whole numbers.
proof fn lemma_whole_sum(x: Binary64, y: Binary64, a: nat, b: nat)
    requires
        pressure_laws::nonnegative(x) && pressure_laws::nonnegative(y),
        !x.negative() && !y.negative(),
        number(x) == a as real,
        number(y) == b as real,
    ensures
        binary64::sum(x, y) == binary64::from_whole(a + b),
{
    lemma_whole_value(x, a);
    lemma_whole_value(y, b);
    let one = binary64::one_in_units();
    assert(a * one + b * one == (a + b) * one) by (nonlinear_arith);
}

/// Freeing takes 20 nanoseconds for each node, and 150 more for each other thread
/// that is freeing too: exactly, where the whole of it has no more than 53 binary
/// digits.
pub proof fn bursts_cost_by_nodes_and_rivals(others: u64, n: nat)
    requires
        (20 + 150 * others) * n < 0x20_0000_0000_0000,
        n > 0,
    ensures
        bench::burst_ns(others, n) == (20 + 150 * others) * n,
{
    let rivals = others as nat;
    let each = (20 + 150 * rivals) as nat;
    assert(each <= each * n && n <= each * n) by (nonlinear_arith)
        requires
            n > 0,
            each > 0,
    ;
    lemma2_to64();
    lemma2_to64_rest();
    accuracy::lemma_constant(SIM_BASE_FREE_NS_BITS, 1027, 0x4_0000_0000_0000, 0x1_0000_0000_0000);
    accuracy::lemma_constant(
        SIM_CONTENDED_FREE_NS_BITS,
        1030,
        0x2_C000_0000_0000,
        0x2000_0000_0000,
    );
    let base = binary64::word(SIM_BASE_FREE_NS_BITS);
    let contended = binary64::word(SIM_CONTENDED_FREE_NS_BITS);
    let count = binary64::from_whole(rivals);
    lemma_short_word(rivals);
    lemma_whole_product(contended, count, 150, rivals);
    lemma_short_word(150 * rivals);
    lemma_whole_sum(base, binary64::from_whole(150 * rivals), 20, 150 * rivals);
    lemma_short_word(each);
    lemma_short_word(n);
    lemma_whole_product(binary64::from_whole(each), binary64::from_whole(n), each, n);
    lemma_short_truncated(each * n);
}

/// A whole number of no more than 53 digits is its own whole part.
proof fn lemma_short_truncated(n: nat)
    requires
        n < 0x20_0000_0000_0000,
    ensures
        binary64::truncated(binary64::from_whole(n)) == n,
{
    lemma_short_word(n);
    accuracy::lemma_truncated(binary64::from_whole(n));
}

/// The wait before a retry starts at one millisecond and doubles with every
/// failure, up to 32.
pub proof fn waits_double_up_to_a_limit(fail_streak: u32)
    ensures
        system::retry_wait(0) == 1,
        fail_streak < u32::MAX ==> system::retry_wait((fail_streak + 1) as u32) == (if 2
            * system::retry_wait(fail_streak) <= 32 {
            2 * system::retry_wait(fail_streak)
        } else {
            32
        }),
{
    lemma2_to64();
    lemma_pow2_unfold((fail_streak + 1) as nat);
}

/// Whether `x` is `exact` but for so many roundings.
pub open spec fn close(x: real, exact: real, roundings: real) -> bool {
    apart(x, exact) <= half_step(roundings * exact)
}

proof fn lemma_close_scaled(x: real, y: real, n: real, c: real)
    requires
        close(x, y, n),
        c >= 0real,
    ensures
        close(x * c, y * c, n),
{
    let a = x * c;
    let b = y * c;
    let off = n * y;
    assert(a - b <= half_step(off * c) && b - a <= half_step(off * c)) by (nonlinear_arith)
        requires
            a == x * c,
            b == y * c,
            x - y <= half_step(off),
            y - x <= half_step(off),
            c >= 0real,
    ;
    assert(off * c == n * b) by (nonlinear_arith)
        requires
            off == n * y,
            b == y * c,
    ;
}

proof fn lemma_close_joined(x: real, y: real, z: real, m: real, n: real)
    requires
        close(x, y, m),
        close(y, z, n),
        0real <= m <= 64real,
        0real <= n <= 64real,
        z >= 0real,
    ensures
        close(x, z, m + n + 1real),
{
    let a = n * z;
    assert(0real <= a <= 64real * z) by (nonlinear_arith)
        requires
            a == n * z,
            0real <= n <= 64real,
            z >= 0real,
    ;
    let b = m * y;
    assert(b <= m * z + half_step(4096real * z)) by (nonlinear_arith)
        requires
            b == m * y,
            y - z <= half_step(64real * z),
            0real <= m <= 64real,
            z >= 0real,
    ;
    assert(half_step(4096real * z) <= z);
    assert((m + n + 1real) * z == m * z + a + z) by (nonlinear_arith)
        requires
            a == n * z,
    ;
}

/// A rounding of a number that is not too small.
proof fn lemma_close_near(x: Binary64, exact: real)
    requires
        accuracy::near(x, exact),
        exact >= 1real / accuracy::ceiling(),
    ensures
        close(number(x), exact, 2real),
{
}

proof fn lemma_close_word(n: u64)
    requires
        n > 0,
    ensures
        ({
            let x = binary64::from_whole(n as nat);
            &&& pressure_laws::nonnegative(x)
            &&& !x.negative()
            &&& x.value() > 0
            &&& number(x) >= 1real / 2real
            &&& number(x) <= 36893488147419103232real
            &&& close(number(x), n as real, 2real)
            &&& close(n as real, number(x), 3real)
        }),
{
    accuracy::lemma_whole_near(n as nat);
    lemma_word_near(n);
    lemma_close_near(binary64::from_whole(n as nat), n as real);
}

/// So many seconds and nanoseconds, in seconds.
pub open spec fn exact_seconds(secs: u64, nanos: u32) -> real {
    secs as real + nanos as real / 1000000000real
}

/// One thousand million and one million are exact.
proof fn lemma_decimal_constants()
    ensures
        pressure_laws::nonnegative(binary64::word(bench::NANOS_PER_SEC_BITS)),
        !binary64::word(bench::NANOS_PER_SEC_BITS).negative(),
        binary64::word(bench::NANOS_PER_SEC_BITS).value() > 0,
        number(binary64::word(bench::NANOS_PER_SEC_BITS)) == 1000000000real,
        pressure_laws::nonnegative(binary64::word(bench::MILLION_BITS)),
        !binary64::word(bench::MILLION_BITS).negative(),
        binary64::word(bench::MILLION_BITS).value() > 0,
        number(binary64::word(bench::MILLION_BITS)) == 1000000real,
        pressure_laws::nonnegative(binary64::word(bench::PERCENT_BITS)),
        !binary64::word(bench::PERCENT_BITS).negative(),
        number(binary64::word(bench::PERCENT_BITS)) == 100real,
{
    lemma2_to64();
    lemma2_to64_rest();
    accuracy::lemma_constant(bench::NANOS_PER_SEC_BITS, 1052, 0xD_CD65_0000_0000, 0x80_0000);
    accuracy::lemma_constant(bench::MILLION_BITS, 1042, 0xE_8480_0000_0000, 0x2_0000_0000);
    accuracy::lemma_constant(bench::PERCENT_BITS, 1029, 0x9_0000_0000_0000, 0x4000_0000_0000);
    accuracy::lemma_zero();
}

/// A duration is its seconds and its nanoseconds, but for rounding.
pub proof fn durations_are_in_seconds(secs: u64, nanos: u32)
    requires
        secs > 0 || nanos > 0,
    ensures
        pressure_laws::nonnegative(bench::seconds(secs, nanos)),
        close(number(bench::seconds(secs, nanos)), exact_seconds(secs, nanos), 4real),
{
    lemma_decimal_constants();
    let a = binary64::from_whole(secs as nat);
    let b = binary64::from_whole(nanos as nat);
    let billion = binary64::word(bench::NANOS_PER_SEC_BITS);
    accuracy::lemma_whole_near(secs as nat);
    lemma_short_word(nanos as nat);
    accuracy::lemma_quotient_near(b, billion);
    accuracy::lemma_sum_near(a, binary64::quotient(b, billion));
}

/// A duration that is not zero.
proof fn lemma_duration(secs: u64, nanos: u32)
    requires
        secs > 0 || nanos > 0,
    ensures
        ({
            let d = bench::seconds(secs, nanos);
            let exact = exact_seconds(secs, nanos);
            &&& pressure_laws::nonnegative(d)
            &&& !d.negative()
            &&& d.value() > 0
            &&& 1real / 2000000000real <= number(d) <= 36893488147419103232real
            &&& close(exact, number(d), 5real)
            &&& exact > 0real
            &&& binary64::less(binary64::word(0), d)
        }),
{
    durations_are_in_seconds(secs, nanos);
    lemma_decimal_constants();
    let a = binary64::from_whole(secs as nat);
    let b = binary64::from_whole(nanos as nat);
    let billion = binary64::word(bench::NANOS_PER_SEC_BITS);
    accuracy::lemma_whole_near(secs as nat);
    lemma_short_word(nanos as nat);
    accuracy::lemma_quotient_near(b, billion);
    accuracy::lemma_sum_near(a, binary64::quotient(b, billion));
    accuracy::lemma_zero();
    let d = bench::seconds(secs, nanos);
    accuracy::lemma_order(binary64::word(0), d);
    accuracy::lemma_nonnegative(d);
}

/// A quotient that is neither too large nor too small, times its divisor.
proof fn lemma_close_quotient(a: Binary64, b: Binary64)
    requires
        pressure_laws::nonnegative(a),
        pressure_laws::nonnegative(b),
        b.value() > 0,
        number(a) <= accuracy::ceiling() * number(b),
        number(a) > 0real,
        number(b) <= accuracy::ceiling() * number(a),
    ensures
        ({
            let x = binary64::quotient(a, b);
            &&& pressure_laws::nonnegative(x)
            &&& number(x) > 0real
            &&& close(number(x) * number(b), number(a), 2real)
        }),
{
    let p = number(a);
    let q = number(b);
    accuracy::lemma_quotient_near(a, b);
    let r = p / q;
    assert(r * q == p) by (nonlinear_arith)
        requires
            r == p / q,
            q > 0real,
    ;
    assert(r >= 1real / accuracy::ceiling()) by (nonlinear_arith)
        requires
            r * q == p,
            q <= accuracy::ceiling() * p,
            q > 0real,
            p > 0real,
    ;
    let x = binary64::quotient(a, b);
    lemma_close_near(x, r);
    lemma_close_scaled(number(x), r, 2real, q);
}

/// The throughput times the duration, in millions, gives the operations back, but
/// for rounding.
pub proof fn throughput_is_operations_over_time(ops: u64, secs: u64, nanos: u32)
    requires
        secs > 0 || nanos > 0,
        ops > 0,
    ensures
        close(
            number(bench::throughput(ops, bench::seconds(secs, nanos))) * 1000000real
                * exact_seconds(secs, nanos),
            ops as real,
            20real,
        ),
{
    lemma_decimal_constants();
    lemma_duration(secs, nanos);
    lemma_close_word(ops);
    let d = bench::seconds(secs, nanos);
    let o = binary64::from_whole(ops as nat);
    let million = binary64::word(bench::MILLION_BITS);
    let rate = binary64::quotient(o, d);
    let x = bench::throughput(ops, d);
    let s = exact_seconds(secs, nanos);
    lemma_close_quotient(o, d);
    let r = number(rate);
    let nd = number(d);
    let no = number(o);
    assert(r <= accuracy::ceiling() && 1000000real <= accuracy::ceiling() * r)
        by (nonlinear_arith)
        requires
            r * nd <= no + half_step(2real * no),
            no - half_step(2real * no) <= r * nd,
            1real / 2real <= no <= 36893488147419103232real,
            1real / 2000000000real <= nd <= 36893488147419103232real,
            r > 0real,
    ;
    lemma_close_quotient(rate, million);
    let m = number(x) * 1000000real;
    lemma_close_scaled(m, r, 2real, s);
    lemma_close_scaled(s, nd, 5real, r);
    assert(s * r == r * s && nd * r == r * nd) by (nonlinear_arith);
    lemma_close_joined(m * s, r * s, r * nd, 2real, 5real);
    lemma_close_joined(m * s, r * nd, no, 8real, 2real);
    lemma_close_joined(m * s, no, ops as real, 11real, 2real);
}

/// A product that is neither too large nor too small.
proof fn lemma_close_product(a: Binary64, b: Binary64)
    requires
        pressure_laws::nonnegative(a),
        pressure_laws::nonnegative(b),
        number(a) * number(b) <= accuracy::ceiling(),
        number(a) * number(b) >= 1real / accuracy::ceiling(),
    ensures
        pressure_laws::nonnegative(binary64::product(a, b)),
        number(binary64::product(a, b)) > 0real,
        binary64::product(a, b).value() > 0,
        close(number(binary64::product(a, b)), number(a) * number(b), 2real),
        close(number(a) * number(b), number(binary64::product(a, b)), 3real),
{
    accuracy::lemma_product_near(a, b);
    let x = binary64::product(a, b);
    lemma_close_near(x, number(a) * number(b));
    accuracy::lemma_zero();
}

/// The share of time in frees, in percent: times the duration of all threads, a
/// single one where there is none, it gives a hundred times the time spent
/// freeing, but for rounding. It is zero where no time has passed.
pub proof fn time_in_free_is_a_percentage(free_ns: u64, secs: u64, nanos: u32, threads: usize)
    ensures
        secs == 0 && nanos == 0 ==> bench::percent_in_free(
            free_ns,
            bench::seconds(secs, nanos),
            threads,
        ) == binary64::word(0),
        free_ns > 0 && (secs > 0 || nanos > 0) ==> close(
            number(bench::percent_in_free(free_ns, bench::seconds(secs, nanos), threads)) * (
            exact_seconds(secs, nanos) * (if threads == 0 {
                1real
            } else {
                threads as real
            })) * 1000000000real,
            100real * free_ns as real,
            40real,
        ),
{
    if secs == 0 && nanos == 0 {
        lemma_no_time();
    }
    if free_ns > 0 && (secs > 0 || nanos > 0) {
        let counted: u64 = if threads == 0 {
            1
        } else {
            threads as u64
        };
        lemma_percentage(free_ns, secs, nanos, counted);
        lemma_duration(secs, nanos);
    }
}

/// No time is zero seconds.
proof fn lemma_no_time()
    ensures
        !binary64::less(binary64::word(0), bench::seconds(0, 0)),
{
    lemma_decimal_constants();
    lemma_short_word(0);
    let a = binary64::from_whole(0);
    let billion = binary64::word(bench::NANOS_PER_SEC_BITS);
    accuracy::lemma_nonnegative(a);
    pressure_laws::lemma_one();
    pressure_laws::lemma_from_whole(0);
    accuracy::lemma_zero_quotient(a, billion);
    let q = binary64::quotient(a, billion);
    assert(a.value() == 0) by {
        assert(0 * binary64::one_in_units() == 0) by (nonlinear_arith);
    }
    accuracy::lemma_quotient_near(a, billion);
    binary64::lemma_rounded_zero(1);
    assert(bench::seconds(0, 0) == binary64::signed(false, 0));
}

proof fn lemma_percentage(free_ns: u64, secs: u64, nanos: u32, counted: u64)
    requires
        free_ns > 0,
        secs > 0 || nanos > 0,
        counted > 0,
    ensures
        ({
            let d = bench::seconds(secs, nanos);
            let x = binary64::quotient(
                binary64::product(
                    binary64::word(bench::PERCENT_BITS),
                    binary64::quotient(
                        binary64::from_whole(free_ns as nat),
                        binary64::word(bench::NANOS_PER_SEC_BITS),
                    ),
                ),
                binary64::product(d, binary64::from_whole(counted as nat)),
            );
            close(
                number(x) * (exact_seconds(secs, nanos) * counted as real) * 1000000000real,
                100real * free_ns as real,
                40real,
            )
        }),
{
    lemma_decimal_constants();
    lemma_duration(secs, nanos);
    lemma_close_word(free_ns);
    lemma_close_word(counted);
    let d = bench::seconds(secs, nanos);
    let billion = binary64::word(bench::NANOS_PER_SEC_BITS);
    let percent = binary64::word(bench::PERCENT_BITS);
    let f = binary64::from_whole(free_ns as nat);
    let t = binary64::from_whole(counted as nat);
    let q = binary64::quotient(f, billion);
    let p = binary64::product(percent, q);
    let all = binary64::product(d, t);
    let x = binary64::quotient(p, all);
    let nf = number(f);
    let nd = number(d);
    let nt = number(t);
    lemma_close_quotient(f, billion);
    let nq = number(q);
    assert(1real / 4000000000real <= nq <= 73786976294838206464real);
    lemma_close_product(percent, q);
    let np = number(p);
    assert(number(percent) * nq == 100real * nq);
    let dt = nd * nt;
    assert(1real / 4000000000real <= dt <= 1361129467683753853853498429727072845824real)
        by (nonlinear_arith)
        requires
            dt == nd * nt,
            1real / 2000000000real <= nd <= 36893488147419103232real,
            1real / 2real <= nt <= 36893488147419103232real,
    ;
    lemma_close_product(d, t);
    let na = number(all);
    lemma_close_quotient(p, all);
    let nx = number(x);
    let s = exact_seconds(secs, nanos);
    let c = counted as real;
    let st = s * c;
    // The time of all threads.
    lemma_close_scaled(s, nd, 5real, c);
    lemma_close_scaled(c, nt, 3real, nd);
    assert(c * nd == nd * c && nt * nd == nd * nt) by (nonlinear_arith);
    lemma_close_joined(st, nd * c, dt, 5real, 3real);
    lemma_close_joined(st, dt, na, 9real, 3real);
    // The share of it.
    lemma_close_scaled(st, na, 13real, nx);
    assert(st * nx == nx * st && na * nx == nx * na) by (nonlinear_arith);
    lemma_close_joined(nx * st, nx * na, np, 13real, 2real);
    lemma_close_joined(nx * st, np, 100real * nq, 16real, 2real);
    lemma_close_scaled(nx * st, 100real * nq, 19real, 1000000000real);
    let left = nx * st * 1000000000real;
    let middle = 100real * nq * 1000000000real;
    assert(close(middle, 100real * nf, 2real));
    lemma_close_joined(left, middle, 100real * nf, 19real, 2real);
    assert(close(100real * nf, 100real * free_ns as real, 2real));
    lemma_close_joined(left, 100real * nf, 100real * free_ns as real, 22real, 2real);
}

/// A batch is never empty. What is not a number gives a batch of a single node, and
/// no stride.
pub proof fn batches_are_never_empty(spi: Binary64, delta_spi: Binary64)
    ensures
        system::batch_size(spi, delta_spi) >= 1,
        spi.is_nan() ==> system::batch_size(spi, delta_spi) == 1,
        spi.is_nan() ==> system::epoch_stride(spi) == 0,
{
    reveal(system::batch_size);
    reveal(system::epoch_stride);
}

/// The batches that a table lists: 64 nodes up to a pressure of 0.30, one up to
/// 0.60, and none above, but for the rounding of these limits.
pub proof fn listed_batches_follow_the_modes(spi: Binary64)
    requires
        spi.is_finite(),
    ensures
        ({
            let x = number(spi);
            let off = half_step(1real);
            let listed = runs::batch_in(mode::mode_at(spi));
            &&& x <= 30real / 100real - off ==> listed == 64
            &&& 30real / 100real + off <= x <= 60real / 100real - off ==> listed == 1
            &&& 60real / 100real + off <= x ==> listed == 0
        }),
{
    modes_are_divided_at_their_limits(spi);
}

} // verus!
