//! Bounds that the estimates of the library keep.

use crate::bench;
use crate::binary64;
use crate::binary64::Binary64;
use crate::local::Local;
use crate::params::{
    ALPHA_BITS, BASE_STRIDE, MAX_BATCH, MIN_BATCH, SCC_MAX_WINDOW_NS, SCC_MIN_WINDOW_NS,
    SCC_TARGET_P99_NS, SIM_BASE_FREE_NS_BITS, SIM_CONTENDED_FREE_NS_BITS, SPI_EMA_ALPHA_BITS, TREND_THRESHOLD_BITS, TREND_WEIGHT_BITS,
};
use crate::rounding;
use crate::scc;
use crate::system;
use vstd::arithmetic::div_mod::*;
use vstd::arithmetic::mul::*;
use vstd::arithmetic::power2::*;
use vstd::prelude::*;

verus! {

/// Whether a number lies between zero and one.
pub open spec fn in_unit_range(x: Binary64) -> bool {
    !x.is_nan() && 0 <= x.value() <= binary64::one_in_units()
}

/// Whether a number is finite and not below zero.
pub open spec fn nonnegative(x: Binary64) -> bool {
    x.is_finite() && 0 <= x.value()
}

proof fn lemma_signed(negative: bool, magnitude: nat)
    requires
        magnitude <= rounding::INFINITY,
    ensures
        binary64::signed(negative, magnitude).magnitude() == magnitude,
        binary64::signed(negative, magnitude).negative() == negative,
{
}

/// One is as many units as it should be.
pub proof fn lemma_one()
    ensures
        binary64::word(binary64::ONE).value() == binary64::one_in_units(),
        rounding::units(binary64::ONE as nat) == binary64::one_in_units(),
        binary64::one_in_units() > 0,
        rounding::units(0) == 0,
{
    rounding::lemma_pow2_127();
    lemma_pow2_adds(52, 1022);
    lemma_pow2_pos(1074);
}

/// A nonnegative number is its magnitude in units; a sign stands only before zero.
proof fn lemma_nonnegative(x: Binary64)
    requires
        !x.is_nan(),
        0 <= x.value(),
    ensures
        x.value() == rounding::units(x.magnitude()),
        x.negative() ==> x.magnitude() == 0,
{
    lemma_one();
    binary64::lemma_units_order(0, x.magnitude());
}

proof fn lemma_unit(x: Binary64)
    requires
        in_unit_range(x),
    ensures
        nonnegative(x),
        x.magnitude() <= binary64::ONE,
{
    lemma_nonnegative(x);
    lemma_one();
    binary64::lemma_units_order(binary64::ONE as nat, x.magnitude());
}

/// A word that has no more than 53 digits is itself as a binary64 number.
pub proof fn lemma_from_whole(n: nat)
    requires
        n < 0x20_0000_0000_0000,
    ensures
        nonnegative(binary64::from_whole(n)),
        !binary64::from_whole(n).negative(),
        binary64::from_whole(n).value() == n * binary64::one_in_units(),
{
    lemma_one();
    let one = binary64::one_in_units();
    if n == 0 {
        lemma_mul_basics(one as int);
        binary64::lemma_rounded_zero(1);
    } else {
        let length = rounding::bit_length(n);
        rounding::lemma_bit_length(n);
        rounding::lemma_pow2_127();
        if length > 53 {
            rounding::lemma_pow2_split(53, (length - 1) as nat);
        }
        let e = (length + 1021) as nat;
        let up = (53 - length) as nat;
        rounding::lemma_rounded_shifted(n, 1074);
        let significand = n * pow2(up);
        rounding::lemma_bit_length_shifted_up(n, up);
        rounding::lemma_bit_length(significand);
        binary64::lemma_units_assembled(e, significand);
        lemma_pow2_adds(up, e);
        lemma2_to64();
        rounding::lemma_nearest_even_exact(n, 1);
        assert(rounding::rounded(n * one, 1) == e * rounding::EXPONENT_STEP + significand);
        lemma_signed(false, rounding::rounded(n * one, 1));
        assert(significand * pow2(e) == n * one) by (nonlinear_arith)
            requires
                significand == n * pow2(up),
                one == pow2(up) * pow2(e),
        ;
    }
}

/// The product of two nonnegative numbers lies between two that bound it.
proof fn lemma_product(a: Binary64, b: Binary64, low: Binary64, high: Binary64)
    requires
        nonnegative(a),
        nonnegative(b),
        nonnegative(low),
        nonnegative(high),
        low.value() == 0 || low.value() * binary64::one_in_units() <= a.value() * b.value(),
        a.value() * b.value() <= high.value() * binary64::one_in_units(),
    ensures
        nonnegative(binary64::product(a, b)),
        low.value() <= binary64::product(a, b).value() <= high.value(),
{
    lemma_one();
    lemma_nonnegative(a);
    lemma_nonnegative(b);
    lemma_nonnegative(low);
    lemma_nonnegative(high);
    let exact = rounding::units(a.magnitude()) * rounding::units(b.magnitude());
    let one = binary64::one_in_units();
    if low.value() == 0 {
        lemma_mul_basics(one as int);
    }
    rounding::lemma_rounded_at_most(exact, one, high.magnitude());
    rounding::lemma_rounded_at_least(exact, one, low.magnitude());
    let magnitude = rounding::rounded(exact, one);
    let negative = a.negative() != b.negative();
    lemma_signed(negative, magnitude);
    binary64::lemma_units_order(magnitude, high.magnitude());
    binary64::lemma_units_order(low.magnitude(), magnitude);
    if negative {
        lemma_mul_basics(rounding::units(a.magnitude()) as int);
        lemma_mul_basics(rounding::units(b.magnitude()) as int);
        assert(exact == 0);
        binary64::lemma_rounded_zero(one);
    }
}

/// The sum of two numbers lies between two that bound it.
proof fn lemma_sum(a: Binary64, b: Binary64, low: Binary64, high: Binary64)
    requires
        a.is_finite(),
        b.is_finite(),
        nonnegative(low),
        nonnegative(high),
        low.value() <= a.value() + b.value() <= high.value(),
    ensures
        nonnegative(binary64::sum(a, b)),
        low.value() <= binary64::sum(a, b).value() <= high.value(),
{
    lemma_one();
    lemma_nonnegative(low);
    lemma_nonnegative(high);
    let exact = (a.value() + b.value()) as nat;
    rounding::lemma_rounded_at_most(exact, 1, high.magnitude());
    rounding::lemma_rounded_at_least(exact, 1, low.magnitude());
    let magnitude = rounding::rounded(exact, 1);
    lemma_signed(false, magnitude);
    lemma_signed(true, magnitude);
    binary64::lemma_units_order(magnitude, high.magnitude());
    binary64::lemma_units_order(low.magnitude(), magnitude);
    if exact == 0 {
        binary64::lemma_rounded_zero(1);
    }
}

/// Taking a number in the unit range from one leaves one in the unit range.
proof fn lemma_one_minus(x: Binary64)
    requires
        in_unit_range(x),
    ensures
        in_unit_range(binary64::difference(binary64::word(binary64::ONE), x)),
{
    lemma_unit(x);
    lemma_one();
    lemma_signed(!x.negative(), x.magnitude());
    let zero = binary64::word(0);
    let one = binary64::word(binary64::ONE);
    lemma_sum(one, binary64::negated(x), zero, one);
}

/// A quotient of words, the divisor not zero and the larger one, lies in the
/// unit range; one of any words is finite and not below zero.
proof fn lemma_share(part: u64, total: u64)
    requires
        total > 0,
    ensures
        nonnegative(
            binary64::quotient(
                binary64::from_whole(part as nat),
                binary64::from_whole(total as nat),
            ),
        ),
        binary64::quotient(
            binary64::from_whole(part as nat),
            binary64::from_whole(total as nat),
        ).magnitude() <= 0x4410_0000_0000_0000,
        part <= total ==> in_unit_range(
            binary64::quotient(
                binary64::from_whole(part as nat),
                binary64::from_whole(total as nat),
            ),
        ),
{
    lemma_one();
    let one = binary64::one_in_units();
    let a = binary64::from_whole(part as nat);
    let b = binary64::from_whole(total as nat);
    lemma_word(part);
    lemma_word(total);
    let exact = rounding::units(a.magnitude()) * one;
    let divisor = rounding::units(b.magnitude());
    assert(divisor >= one) by {
        assert(total * one >= one) by (nonlinear_arith)
            requires
                total >= 1,
                one > 0,
        ;
        rounding::lemma_rounded_at_least(total as nat * one, 1, binary64::ONE as nat);
        binary64::lemma_units_order(b.magnitude(), binary64::ONE as nat);
    }
    let bound = 0x4410_0000_0000_0000nat;
    assert(rounding::units(a.magnitude()) <= rounding::units(bound)) by {
        binary64::lemma_units_order(bound, a.magnitude());
    }
    assert(exact <= rounding::units(bound) * divisor) by (nonlinear_arith)
        requires
            exact == rounding::units(a.magnitude()) * one,
            rounding::units(a.magnitude()) <= rounding::units(bound),
            one <= divisor,
    ;
    rounding::lemma_rounded_at_most(exact, divisor, bound);
    let magnitude = rounding::rounded(exact, divisor);
    lemma_signed(false, magnitude);
    if part <= total {
        assert(part * one <= total * one) by (nonlinear_arith)
            requires
                part <= total,
        ;
        rounding::lemma_rounded_monotone(part as nat * one, 1, total as nat * one, 1);
        binary64::lemma_units_order(b.magnitude(), a.magnitude());
        assert(exact <= rounding::units(binary64::ONE as nat) * divisor) by (nonlinear_arith)
            requires
                exact == rounding::units(a.magnitude()) * one,
                rounding::units(a.magnitude()) <= divisor,
                rounding::units(binary64::ONE as nat) == one,
        ;
        rounding::lemma_rounded_at_most(exact, divisor, binary64::ONE as nat);
        binary64::lemma_units_order(binary64::ONE as nat, magnitude);
    }
    if a.magnitude() == 0 {
        lemma_mul_basics(one as int);
    }
}

/// A word as a binary64 number is at most two to the 64.
proof fn lemma_word(n: u64)
    ensures
        nonnegative(binary64::from_whole(n as nat)),
        !binary64::from_whole(n as nat).negative(),
        binary64::from_whole(n as nat).magnitude() <= 0x43F0_0000_0000_0000,
        binary64::from_whole(n as nat).magnitude() == rounding::rounded(
            n as nat * binary64::one_in_units(),
            1,
        ),
{
    lemma_one();
    let one = binary64::one_in_units();
    let bound = 0x43F0_0000_0000_0000nat;
    assert(rounding::units(bound) == 0x1_0000_0000_0000_0000 * one) by {
        rounding::lemma_pow2_127();
        lemma2_to64();
        lemma_pow2_adds(52, 1086);
        lemma_pow2_adds(64, 1074);
    }
    assert(n * one <= 0x1_0000_0000_0000_0000 * one) by (nonlinear_arith)
        requires
            n <= 0x1_0000_0000_0000_0000,
            one > 0,
    ;
    rounding::lemma_rounded_at_most(n as nat * one, 1, bound);
    lemma_signed(false, rounding::rounded(n as nat * one, 1));
}

/// Taking a sample keeps the smoothed pressure between zero and one.
pub proof fn pressure_stays_in_range<V, F, W>(t: Local<V, F, W>)
    requires
        in_unit_range(t.spi_ema),
        system::may_resample(t),
    ensures
        in_unit_range(system::resampled(t).spi_ema),
{
    if t.win_writes == 0 && t.win_snaps == 0 {
        return;
    }
    reveal(system::smoothed_pressure);
    lemma_one();
    lemma_unit(t.spi_ema);
    let one = binary64::one_in_units();
    let zero = binary64::word(0);
    let weight = binary64::word(SPI_EMA_ALPHA_BITS);
    let keep = binary64::difference(binary64::word(binary64::ONE), weight);
    let pressure = system::window_pressure(t.win_writes, t.win_snaps);
    // 0.15, and 0.85 as the difference of one and that.
    let p = pow2(1019);
    let w = 0x13_3333_3333_3333nat;
    let k = 0x6C_CCCC_CCCC_CCCDnat;
    assert(weight.value() == w * p && keep.value() == 0x1B_3333_3333_3333 * (4 * p) && one
        == 0x80_0000_0000_0000 * p && keep.is_finite() && !keep.negative()) by {
        lemma2_to64();
        lemma2_to64_rest();
        lemma_pow2_adds(1019, 55);
        lemma_pow2_adds(1019, 2);
        lemma_signed(true, SPI_EMA_ALPHA_BITS as nat);
        assert(binary64::negated(weight).value() == -(w * p));
        assert(0x80_0000_0000_0000 * p - w * p == k * p) by (nonlinear_arith)
            requires
                w == 0x13_3333_3333_3333,
                k == 0x6C_CCCC_CCCC_CCCD,
        ;
        lemma_pow2_pos(1019);
        lemma_mul_strictly_positive(k as int, p as int);
        rounding::lemma_rounded_long(k, 1019, 55);
        assert(keep.bits == 0x3FEB_3333_3333_3333);
    }
    lemma_share(t.win_snaps, (t.win_writes + t.win_snaps + 1) as u64);
    lemma_unit(pressure);
    lemma_pow2_pos(1019);
    assert(0 <= t.spi_ema.value() * keep.value() <= keep.value() * one) by (nonlinear_arith)
        requires
            0 <= t.spi_ema.value() <= one,
            0 <= keep.value(),
    ;
    lemma_product(t.spi_ema, keep, zero, keep);
    assert(0 <= pressure.value() * weight.value() <= weight.value() * one) by (nonlinear_arith)
        requires
            0 <= pressure.value() <= one,
            0 <= weight.value(),
    ;
    lemma_product(pressure, weight, zero, weight);
    lemma_sum(
        binary64::product(t.spi_ema, keep),
        binary64::product(pressure, weight),
        zero,
        binary64::word(binary64::ONE),
    );
}

/// Between zero and one of pressure the stride lies between its base and five
/// times that, the least without pressure and the most with nothing but
/// snapshots.
pub proof fn stride_stays_in_range(spi: Binary64)
    requires
        in_unit_range(spi),
    ensures
        BASE_STRIDE <= system::epoch_stride(spi) <= 5 * BASE_STRIDE,
        spi.value() == 0 ==> system::epoch_stride(spi) == BASE_STRIDE,
        spi.value() == binary64::one_in_units() ==> system::epoch_stride(spi) == 5 * BASE_STRIDE,
{
    reveal(system::epoch_stride);
    lemma_one();
    lemma_unit(spi);
    let one = binary64::one_in_units();
    let zero = binary64::word(0);
    let unit = binary64::word(binary64::ONE);
    let alpha = binary64::word(ALPHA_BITS);
    assert(alpha.value() == 4 * one) by {
        lemma2_to64();
        lemma2_to64_rest();
        lemma_pow2_adds(52, 1024);
        lemma_pow2_adds(2, 1074);
    }
    let slope = binary64::product(alpha, spi);
    let a = spi.value();
    assert(0 <= (4 * one) * a <= (4 * one) * one && (a == one ==> (4 * one) * a == (4 * one) * one)
        && (a == 0 ==> (4 * one) * a == 0)) by (nonlinear_arith)
        requires
            0 <= a <= one,
    ;
    lemma_mul_basics(one as int);
    lemma_product(alpha, spi, if a == one { alpha } else { zero }, if a == 0 { zero } else { alpha });
    lemma_from_whole(5);
    let five = binary64::from_whole(5);
    let grown = binary64::sum(unit, slope);
    lemma_sum(unit, slope, if a == one { five } else { unit }, if a == 0 { unit } else { five });
    lemma_from_whole(16);
    lemma_from_whole(80);
    let base = binary64::from_whole(16);
    let most = binary64::from_whole(80);
    let g = grown.value();
    assert((16 * one) * one <= (16 * one) * g <= (80 * one) * one && (g == one ==> (16 * one) * g
        == (16 * one) * one) && (g == 5 * one ==> (16 * one) * g == (80 * one) * one))
        by (nonlinear_arith)
        requires
            one <= g <= 5 * one,
    ;
    let stride = binary64::product(base, grown);
    lemma_product(
        base,
        grown,
        if a == one { most } else { base },
        if a == 0 { base } else { most },
    );
    lemma_nonnegative(stride);
    let u = rounding::units(stride.magnitude());
    let whole = (2 * u + one) / (2 * one);
    assert(16 <= whole <= 80 && (u == 16 * one ==> whole == 16) && (u == 80 * one ==> whole == 80))
        by (nonlinear_arith)
        requires
            16 * one <= u <= 80 * one,
            one > 0,
            whole == (2 * u + one) / (2 * one),
    ;
    if stride.negative() {
        assert(u == 0);
    }
}

/// With the smoothed pressure between zero and one, nothing stops a write from
/// closing its window.
pub proof fn windows_can_be_closed<V, F, W>(t: Local<V, F, W>)
    requires
        in_unit_range(t.spi_ema),
        system::may_resample(t),
    ensures
        system::may_reclaim(system::resampled(t)),
        system::epoch_stride(system::resampled(t).spi_ema) != 0,
{
    pressure_stays_in_range(t);
    stride_stays_in_range(system::resampled(t).spi_ema);
}

/// Two to the 66 and one are no more than two to the 67.
proof fn lemma_large()
    ensures
        rounding::units(0x4410_0000_0000_0000) + binary64::one_in_units() <= rounding::units(
            0x4420_0000_0000_0000,
        ),
{
    let p = pow2(1088);
    let q = pow2(1022);
    rounding::lemma_pow2_127();
    lemma_pow2_unfold(1089);
    lemma_pow2_adds(52, 1022);
    rounding::lemma_pow2_split(1022, 1088);
    let small = rounding::units(0x4410_0000_0000_0000);
    let large = rounding::units(0x4420_0000_0000_0000);
    let one = binary64::one_in_units();
    assert(small == 0x10_0000_0000_0000 * p);
    assert(large == 0x10_0000_0000_0000 * (2 * p));
    assert(small + one <= large) by (nonlinear_arith)
        requires
            small == 0x10_0000_0000_0000 * p,
            large == 0x10_0000_0000_0000 * (2 * p),
            one == 0x10_0000_0000_0000 * q,
            q <= p,
    ;
}

/// The numbers that the width of a window is computed from, in range.
proof fn lemma_width_terms(hit_rate: Binary64, latency_ns: u64)
    requires
        nonnegative(hit_rate),
        hit_rate.magnitude() <= 0x4410_0000_0000_0000,
    ensures
        ({
            let room = scc::headroom(latency_ns);
            let hit_part = binary64::product(
                hit_rate,
                binary64::word(scc::HIT_RATE_WEIGHT_BITS),
            );
            let room_part = binary64::product(room, binary64::word(scc::HEADROOM_WEIGHT_BITS));
            let factor = scc::width_factor(hit_rate, latency_ns);
            let added = binary64::product(factor, window_range());
            let width = binary64::sum(narrowest(), added);
            &&& in_unit_range(room)
            &&& nonnegative(hit_part)
            &&& nonnegative(room_part)
            &&& nonnegative(binary64::sum(hit_part, room_part))
            &&& in_unit_range(factor)
            &&& nonnegative(added)
            &&& nonnegative(width)
            &&& narrowest().value() <= width.value() <= widest().value()
        }),
        narrowest().value() == SCC_MIN_WINDOW_NS * binary64::one_in_units(),
        widest().value() == SCC_MAX_WINDOW_NS * binary64::one_in_units(),
        window_range().value() == widest().value() - narrowest().value(),
        nonnegative(narrowest()) && nonnegative(widest()) && nonnegative(window_range()),
{
    lemma_one();
    let one = binary64::one_in_units();
    let zero = binary64::word(0);
    let unit = binary64::word(binary64::ONE);
    lemma_share(latency_ns, SCC_TARGET_P99_NS);
    let used = binary64::quotient(
        binary64::from_whole(latency_ns as nat),
        binary64::from_whole(SCC_TARGET_P99_NS as nat),
    );
    lemma_one_minus(binary64::lesser(used, unit));
    let room = scc::headroom(latency_ns);
    lemma_unit(room);
    let hit_weight = binary64::word(scc::HIT_RATE_WEIGHT_BITS);
    let room_weight = binary64::word(scc::HEADROOM_WEIGHT_BITS);
    binary64::lemma_units_order(scc::HIT_RATE_WEIGHT_BITS as nat, binary64::ONE as nat);
    binary64::lemma_units_order(scc::HEADROOM_WEIGHT_BITS as nat, binary64::ONE as nat);
    let h = hit_rate.value();
    let r = room.value();
    assert(0 <= h * hit_weight.value() <= h * one) by (nonlinear_arith)
        requires
            0 <= h,
            0 <= hit_weight.value() <= one,
    ;
    lemma_product(hit_rate, hit_weight, zero, hit_rate);
    assert(0 <= r * room_weight.value() <= one * one) by (nonlinear_arith)
        requires
            0 <= r <= one,
            0 <= room_weight.value() <= one,
    ;
    lemma_product(room, room_weight, zero, unit);
    // Two to the 67 is enough.
    let large = binary64::word(0x4420_0000_0000_0000);
    lemma_nonnegative(hit_rate);
    binary64::lemma_units_order(0x4410_0000_0000_0000, hit_rate.magnitude());
    lemma_large();
    lemma_sum(
        binary64::product(hit_rate, hit_weight),
        binary64::product(room, room_weight),
        zero,
        large,
    );
    let factor = scc::width_factor(hit_rate, latency_ns);
    assert(in_unit_range(factor));
    lemma_unit(factor);
    lemma_from_whole((SCC_MAX_WINDOW_NS - SCC_MIN_WINDOW_NS) as nat);
    lemma_from_whole(SCC_MIN_WINDOW_NS as nat);
    lemma_from_whole(SCC_MAX_WINDOW_NS as nat);
    let range = window_range();
    let f = factor.value();
    assert(0 <= f * range.value() <= range.value() * one) by (nonlinear_arith)
        requires
            0 <= f <= one,
            0 <= range.value(),
    ;
    lemma_product(factor, range, zero, range);
    lemma_sum(narrowest(), binary64::product(factor, range), narrowest(), widest());
}

/// The limits of the width of a window, and what lies between them.
spec fn narrowest() -> Binary64 {
    binary64::from_whole(SCC_MIN_WINDOW_NS as nat)
}

spec fn widest() -> Binary64 {
    binary64::from_whole(SCC_MAX_WINDOW_NS as nat)
}

spec fn window_range() -> Binary64 {
    binary64::from_whole((SCC_MAX_WINDOW_NS - SCC_MIN_WINDOW_NS) as nat)
}

/// The width is the whole part of a number between its limits.
proof fn lemma_width(hit_rate: Binary64, latency_ns: u64)
    requires
        nonnegative(hit_rate),
        hit_rate.magnitude() <= 0x4410_0000_0000_0000,
    ensures
        ({
            let added = binary64::product(
                scc::width_factor(hit_rate, latency_ns),
                window_range(),
            );
            let width = binary64::sum(narrowest(), added);
            &&& !width.negative()
            &&& scc::window_width(hit_rate, latency_ns) == width.value()
                / binary64::one_in_units() as int
            &&& SCC_MIN_WINDOW_NS <= scc::window_width(hit_rate, latency_ns) <= SCC_MAX_WINDOW_NS
        }),
{
    reveal(scc::window_width);
    lemma_one();
    lemma_width_terms(hit_rate, latency_ns);
    let one = binary64::one_in_units();
    let added = binary64::product(scc::width_factor(hit_rate, latency_ns), window_range());
    let width = binary64::sum(narrowest(), added);
    lemma_nonnegative(width);
    let u = rounding::units(width.magnitude());
    let whole = u / one;
    assert(100_000 <= whole <= 5_000_000 && u > 0) by (nonlinear_arith)
        requires
            100_000 * one <= u <= 5_000_000 * one,
            one > 0,
            whole == u / one,
    ;
}

/// The width of every window lies between the two limits, whatever the counts
/// and the latency.
pub proof fn width_stays_in_range(hits: u64, total: u64, latency_ns: u64)
    ensures
        SCC_MIN_WINDOW_NS <= scc::window_width(scc::rate(hits, total), latency_ns)
            <= SCC_MAX_WINDOW_NS,
{
    reveal(scc::rate);
    lemma_one();
    if total > 0 {
        lemma_share(hits, total);
    }
    lemma_width(scc::rate(hits, total), latency_ns);
}

/// Larger words are no smaller as binary64 numbers.
proof fn lemma_word_order(less: u64, more: u64)
    requires
        less <= more,
    ensures
        binary64::from_whole(less as nat).value() <= binary64::from_whole(more as nat).value(),
{
    lemma_one();
    lemma_word(less);
    lemma_word(more);
    let one = binary64::one_in_units();
    let a = binary64::from_whole(less as nat);
    let b = binary64::from_whole(more as nat);
    assert(less * one <= more * one) by (nonlinear_arith)
        requires
            less <= more,
    ;
    rounding::lemma_rounded_monotone(less as nat * one, 1, more as nat * one, 1);
    binary64::lemma_units_order(b.magnitude(), a.magnitude());
}

/// More latency leaves no more headroom.
proof fn lemma_headroom_order(less: u64, more: u64)
    requires
        less <= more,
    ensures
        scc::headroom(more).value() <= scc::headroom(less).value(),
{
    lemma_one();
    let one = binary64::one_in_units();
    let unit = binary64::word(binary64::ONE);
    let target = binary64::from_whole(SCC_TARGET_P99_NS as nat);
    lemma_word(less);
    lemma_word(more);
    lemma_word(SCC_TARGET_P99_NS);
    lemma_from_whole(SCC_TARGET_P99_NS as nat);
    lemma_share(less, SCC_TARGET_P99_NS);
    lemma_share(more, SCC_TARGET_P99_NS);
    let a = binary64::from_whole(less as nat);
    let b = binary64::from_whole(more as nat);
    lemma_word_order(less, more);
    let d = rounding::units(target.magnitude());
    assert(d > 0) by (nonlinear_arith)
        requires
            d == 2_000_000 * one,
            one > 0,
    ;
    let n = rounding::units(a.magnitude()) * one;
    let m = rounding::units(b.magnitude()) * one;
    assert(n * d <= m * d) by (nonlinear_arith)
        requires
            n == rounding::units(a.magnitude()) * one,
            m == rounding::units(b.magnitude()) * one,
            rounding::units(a.magnitude()) <= rounding::units(b.magnitude()),
            d > 0,
    ;
    rounding::lemma_rounded_monotone(n, d, m, d);
    let used = binary64::quotient(a, target);
    let more_used = binary64::quotient(b, target);
    lemma_signed(false, rounding::rounded(n, d));
    lemma_signed(false, rounding::rounded(m, d));
    binary64::lemma_units_order(rounding::rounded(m, d), rounding::rounded(n, d));
    lemma_nonnegative(used);
    lemma_nonnegative(more_used);
    assert(used.value() <= more_used.value());
    let x = binary64::lesser(used, unit);
    let y = binary64::lesser(more_used, unit);
    assert(in_unit_range(x) && in_unit_range(y) && x.value() <= y.value());
    lemma_unit(x);
    lemma_unit(y);
    lemma_one_minus(x);
    lemma_one_minus(y);
    lemma_unit(scc::headroom(less));
    lemma_unit(scc::headroom(more));
    lemma_signed(!x.negative(), x.magnitude());
    lemma_signed(!y.negative(), y.magnitude());
    lemma_sum_order(unit, binary64::negated(y), binary64::negated(x));
}

/// Sums keep the order of both parts.
proof fn lemma_sums_order(a: Binary64, b: Binary64, c: Binary64, d: Binary64)
    requires
        nonnegative(a) && nonnegative(b) && nonnegative(c) && nonnegative(d),
        a.value() <= c.value(),
        b.value() <= d.value(),
        nonnegative(binary64::sum(a, b)),
        nonnegative(binary64::sum(c, d)),
    ensures
        binary64::sum(a, b).value() <= binary64::sum(c, d).value(),
{
    lemma_one();
    let p = (a.value() + b.value()) as nat;
    let q = (c.value() + d.value()) as nat;
    rounding::lemma_rounded_monotone(p, 1, q, 1);
    lemma_signed(p == 0 && a.negative() && b.negative(), rounding::rounded(p, 1));
    lemma_signed(q == 0 && c.negative() && d.negative(), rounding::rounded(q, 1));
    lemma_nonnegative(binary64::sum(a, b));
    lemma_nonnegative(binary64::sum(c, d));
    binary64::lemma_units_order(rounding::rounded(q, 1), rounding::rounded(p, 1));
}

/// A window is no narrower with a higher hit rate and less latency.
proof fn lemma_width_order(lower: Binary64, higher: Binary64, more_ns: u64, less_ns: u64)
    requires
        in_unit_range(lower),
        in_unit_range(higher),
        lower.value() <= higher.value(),
        less_ns <= more_ns,
    ensures
        scc::window_width(lower, more_ns) <= scc::window_width(higher, less_ns),
{
    lemma_one();
    lemma_unit(lower);
    lemma_unit(higher);
    lemma_width_terms(lower, more_ns);
    lemma_width_terms(higher, less_ns);
    lemma_width(lower, more_ns);
    lemma_width(higher, less_ns);
    lemma_headroom_order(less_ns, more_ns);
    let hit_weight = binary64::word(scc::HIT_RATE_WEIGHT_BITS);
    let room_weight = binary64::word(scc::HEADROOM_WEIGHT_BITS);
    let room = scc::headroom(less_ns);
    let tighter = scc::headroom(more_ns);
    lemma_unit(room);
    lemma_unit(tighter);
    binary64::lemma_units_order(0, scc::HIT_RATE_WEIGHT_BITS as nat);
    binary64::lemma_units_order(0, scc::HEADROOM_WEIGHT_BITS as nat);
    lemma_same_product(lower, hit_weight);
    lemma_same_product(higher, hit_weight);
    lemma_product_order(hit_weight, lower, higher);
    lemma_same_product(tighter, room_weight);
    lemma_same_product(room, room_weight);
    lemma_product_order(room_weight, tighter, room);
    lemma_sums_order(
        binary64::product(lower, hit_weight),
        binary64::product(tighter, room_weight),
        binary64::product(higher, hit_weight),
        binary64::product(room, room_weight),
    );
    let small = scc::width_factor(lower, more_ns);
    let large = scc::width_factor(higher, less_ns);
    assert(small.value() <= large.value());
    lemma_unit(small);
    lemma_unit(large);
    lemma_same_product(small, window_range());
    lemma_same_product(large, window_range());
    lemma_product_order(window_range(), small, large);
    let added = binary64::product(small, window_range());
    let more_added = binary64::product(large, window_range());
    lemma_sum_order(narrowest(), added, more_added);
    lemma_div_is_ordered(
        binary64::sum(narrowest(), added).value(),
        binary64::sum(narrowest(), more_added).value(),
        binary64::one_in_units() as int,
    );
}

/// A window is wider the more snapshots share one, and narrower the more latency
/// there is, within the two limits. It is the widest where every snapshot shares
/// one and there is no latency, and the narrowest where none does and the latency
/// has reached its target.
pub proof fn width_follows_hits_and_latency(
    lower: Binary64,
    higher: Binary64,
    less_ns: u64,
    more_ns: u64,
)
    requires
        in_unit_range(lower),
        in_unit_range(higher),
        lower.value() <= higher.value(),
        less_ns <= more_ns,
    ensures
        SCC_MIN_WINDOW_NS <= scc::window_width(lower, more_ns) <= scc::window_width(
            higher,
            more_ns,
        ) <= scc::window_width(higher, less_ns) <= SCC_MAX_WINDOW_NS,
        higher.value() == binary64::one_in_units() && less_ns == 0 ==> scc::window_width(
            higher,
            less_ns,
        ) == SCC_MAX_WINDOW_NS,
        lower.value() == 0 && more_ns >= SCC_TARGET_P99_NS ==> scc::window_width(lower, more_ns)
            == SCC_MIN_WINDOW_NS,
{
    lemma_unit(lower);
    lemma_unit(higher);
    lemma_one();
    lemma_width(lower, more_ns);
    lemma_width(higher, less_ns);
    lemma_width_order(lower, higher, more_ns, more_ns);
    lemma_width_order(higher, higher, more_ns, less_ns);
    if higher.value() == binary64::one_in_units() && less_ns == 0 {
        lemma_widest(higher);
    }
    if lower.value() == 0 && more_ns >= SCC_TARGET_P99_NS {
        lemma_narrowest(lower, more_ns);
    }
}

/// The widest window.
proof fn lemma_widest(hit_rate: Binary64)
    requires
        in_unit_range(hit_rate),
        hit_rate.value() == binary64::one_in_units(),
    ensures
        scc::window_width(hit_rate, 0) == SCC_MAX_WINDOW_NS,
{
    lemma_one();
    lemma_unit(hit_rate);
    lemma_width_terms(hit_rate, 0);
    lemma_width(hit_rate, 0);
    let one = binary64::one_in_units();
    let zero = binary64::word(0);
    let unit = binary64::word(binary64::ONE);
    let hit_weight = binary64::word(scc::HIT_RATE_WEIGHT_BITS);
    let room_weight = binary64::word(scc::HEADROOM_WEIGHT_BITS);
    let room = scc::headroom(0);
    assert(room.value() == one) by {
        lemma_from_whole(0);
        lemma_from_whole(SCC_TARGET_P99_NS as nat);
        lemma_mul_basics(one as int);
        let target = binary64::from_whole(SCC_TARGET_P99_NS as nat);
        let none = binary64::from_whole(0);
        lemma_nonnegative(none);
        lemma_nonnegative(target);
        let d = rounding::units(target.magnitude());
        assert(d > 0) by (nonlinear_arith)
            requires
                d == 2_000_000 * one,
                one > 0,
        ;
        if none.magnitude() > 0 {
            binary64::lemma_units_increase(0, none.magnitude());
        }
        if target.magnitude() == 0 {
            assert(d == 0);
        }
        binary64::lemma_rounded_zero(d);
        let used = binary64::quotient(none, target);
        assert(used.bits == 0);
        lemma_sum(unit, binary64::negated(used), unit, unit);
    }
    lemma_unit(room);
    // The two weights make one.
    let p = pow2(1020);
    lemma2_to64();
    lemma2_to64_rest();
    lemma_pow2_adds(1020, 54);
    lemma_pow2_unfold(1021);
    assert(hit_weight.value() == 0x13_3333_3333_3333 * (2 * p));
    assert(room_weight.value() == 0x19_9999_9999_999A * p);
    assert(one == 0x40_0000_0000_0000 * p);
    assert(hit_weight.value() + room_weight.value() == one) by (nonlinear_arith)
        requires
            hit_weight.value() == 0x13_3333_3333_3333 * (2 * p),
            room_weight.value() == 0x19_9999_9999_999A * p,
            one == 0x40_0000_0000_0000 * p,
    ;
    lemma_pow2_pos(1020);
    lemma_mul_is_commutative(one as int, hit_weight.value());
    lemma_mul_is_commutative(one as int, room_weight.value());
    lemma_product(hit_rate, hit_weight, hit_weight, hit_weight);
    lemma_product(room, room_weight, room_weight, room_weight);
    lemma_sum(
        binary64::product(hit_rate, hit_weight),
        binary64::product(room, room_weight),
        unit,
        unit,
    );
    let factor = scc::width_factor(hit_rate, 0);
    assert(factor.value() == one);
    lemma_unit(factor);
    lemma_mul_is_commutative(one as int, window_range().value());
    lemma_product(factor, window_range(), window_range(), window_range());
    let added = binary64::product(factor, window_range());
    lemma_sum(narrowest(), added, widest(), widest());
    lemma_div_multiples_vanish(SCC_MAX_WINDOW_NS as int, one as int);
    lemma_mul_is_commutative(SCC_MAX_WINDOW_NS as int, one as int);
}

/// The narrowest window.
proof fn lemma_narrowest(hit_rate: Binary64, latency_ns: u64)
    requires
        in_unit_range(hit_rate),
        hit_rate.value() == 0,
        latency_ns >= SCC_TARGET_P99_NS,
    ensures
        scc::window_width(hit_rate, latency_ns) == SCC_MIN_WINDOW_NS,
{
    lemma_one();
    lemma_unit(hit_rate);
    lemma_width_terms(hit_rate, latency_ns);
    lemma_width(hit_rate, latency_ns);
    let one = binary64::one_in_units();
    let zero = binary64::word(0);
    let unit = binary64::word(binary64::ONE);
    let hit_weight = binary64::word(scc::HIT_RATE_WEIGHT_BITS);
    let room_weight = binary64::word(scc::HEADROOM_WEIGHT_BITS);
    binary64::lemma_units_order(0, scc::HIT_RATE_WEIGHT_BITS as nat);
    binary64::lemma_units_order(0, scc::HEADROOM_WEIGHT_BITS as nat);
    let room = scc::headroom(latency_ns);
    assert(room.value() == 0) by {
        lemma_headroom_order(SCC_TARGET_P99_NS, latency_ns);
        let target = binary64::from_whole(SCC_TARGET_P99_NS as nat);
        lemma_from_whole(SCC_TARGET_P99_NS as nat);
        lemma_share(SCC_TARGET_P99_NS, SCC_TARGET_P99_NS);
        lemma_nonnegative(target);
        let d = rounding::units(target.magnitude());
        assert(d > 0) by (nonlinear_arith)
            requires
                d == 2_000_000 * one,
                one > 0,
        ;
        lemma_mul_is_commutative(d as int, one as int);
        rounding::lemma_rounded_at_least(d * one, d, binary64::ONE as nat);
        rounding::lemma_rounded_at_most(d * one, d, binary64::ONE as nat);
        let used = binary64::quotient(target, target);
        if target.magnitude() == 0 {
            assert(d == 0);
        }
        assert(used.bits == binary64::ONE);
        lemma_signed(true, binary64::ONE as nat);
        lemma_sum(unit, binary64::negated(unit), zero, zero);
        lemma_width_terms(hit_rate, SCC_TARGET_P99_NS);
    }
    lemma_unit(room);
    lemma_mul_basics(hit_weight.value());
    lemma_mul_basics(room_weight.value());
    lemma_mul_basics(one as int);
    lemma_product(hit_rate, hit_weight, zero, zero);
    lemma_product(room, room_weight, zero, zero);
    lemma_sum(
        binary64::product(hit_rate, hit_weight),
        binary64::product(room, room_weight),
        zero,
        zero,
    );
    let factor = scc::width_factor(hit_rate, latency_ns);
    assert(factor.value() == 0);
    lemma_unit(factor);
    lemma_mul_basics(window_range().value());
    lemma_product(factor, window_range(), zero, zero);
    let added = binary64::product(factor, window_range());
    lemma_sum(narrowest(), added, narrowest(), narrowest());
    lemma_div_multiples_vanish(SCC_MIN_WINDOW_NS as int, one as int);
    lemma_mul_is_commutative(SCC_MIN_WINDOW_NS as int, one as int);
}

/// What the continuous policy would free if the pressure did not rise.
spec fn steady_batch(spi: Binary64) -> Binary64 {
    binary64::product(
        binary64::from_whole(MAX_BATCH as nat),
        binary64::difference(binary64::word(binary64::ONE), spi),
    )
}

proof fn lemma_steady_batch(spi: Binary64)
    requires
        in_unit_range(spi),
    ensures
        nonnegative(steady_batch(spi)),
        !steady_batch(spi).negative(),
        steady_batch(spi).value() <= 64 * binary64::one_in_units(),
        spi.value() == 0 ==> steady_batch(spi).value() == 64 * binary64::one_in_units(),
        spi.value() == binary64::one_in_units() ==> steady_batch(spi).value() == 0,
{
    lemma_one();
    lemma_unit(spi);
    lemma_one_minus(spi);
    let one = binary64::one_in_units();
    let zero = binary64::word(0);
    let unit = binary64::word(binary64::ONE);
    let room = binary64::difference(unit, spi);
    lemma_unit(room);
    lemma_signed(!spi.negative(), spi.magnitude());
    let r = room.value();
    let exact = one - spi.value();
    if spi.value() == 0 {
        lemma_sum(unit, binary64::negated(spi), unit, unit);
    }
    if spi.value() == one {
        lemma_sum(unit, binary64::negated(spi), zero, zero);
    }
    assert(!room.negative()) by {
        lemma_signed(false, rounding::rounded(vstd::math::abs(exact), 1));
        rounding::lemma_rounded_at_most(exact as nat, 1, binary64::ONE as nat);
    }
    lemma_from_whole(64);
    let most = binary64::from_whole(64);
    let m = most.value();
    assert(0 <= m * r <= m * one && (r == one ==> m * r == m * one) && (r == 0 ==> m * r == 0))
        by (nonlinear_arith)
        requires
            0 <= r <= one,
            0 <= m,
    ;
    lemma_mul_basics(one as int);
    lemma_product(most, room, if r == one { most } else { zero }, if r == 0 { zero } else { most });
    let exact_product = rounding::units(most.magnitude()) * rounding::units(room.magnitude());
    lemma_nonnegative(most);
    lemma_nonnegative(room);
    rounding::lemma_rounded_at_most(exact_product, one, most.magnitude());
    lemma_signed(false, rounding::rounded(exact_product, one));
}

/// The whole part keeps the order.
proof fn lemma_truncated_at_most(a: Binary64, b: Binary64)
    requires
        nonnegative(b),
        !b.negative(),
        a.is_nan() || a.negative() || a.value() <= b.value(),
    ensures
        binary64::truncated(a) <= binary64::truncated(b),
{
    lemma_one();
    if !a.is_nan() && !a.negative() {
        lemma_div_is_ordered(a.value(), b.value(), binary64::one_in_units() as int);
    }
}

/// Between zero and one of pressure a batch has at least the smallest size and
/// at most the largest, whatever the trend. Without pressure and trend it has
/// the largest, with nothing but snapshots the smallest, and a rise of the
/// pressure never makes it larger.
pub proof fn batch_stays_in_range(spi: Binary64, delta_spi: Binary64)
    requires
        in_unit_range(spi),
    ensures
        MIN_BATCH <= system::batch_size(spi, delta_spi) <= MAX_BATCH,
        system::batch_size(spi, delta_spi) <= system::batch_size(spi, binary64::word(0)),
        spi.value() == 0 ==> system::batch_size(spi, binary64::word(0)) == MAX_BATCH,
        spi.value() == binary64::one_in_units() ==> system::batch_size(spi, delta_spi)
            == MIN_BATCH,
{
    reveal(system::batch_size);
    lemma_one();
    let one = binary64::one_in_units();
    let unit = binary64::word(binary64::ONE);
    let zero = binary64::word(0);
    let threshold = binary64::word(TREND_THRESHOLD_BITS);
    let weight = binary64::word(TREND_WEIGHT_BITS);
    let steady = steady_batch(spi);
    lemma_steady_batch(spi);
    lemma_nonnegative(steady);
    binary64::lemma_units_order(0, TREND_THRESHOLD_BITS as nat);
    assert(!binary64::less(threshold, zero));
    let u = rounding::units(steady.magnitude());
    assert(u / one <= 64 && (u == 64 * one ==> u / one == 64) && (u == 0 ==> u / one == 0))
        by (nonlinear_arith)
        requires
            u <= 64 * one,
            one > 0,
    ;
    if binary64::less(threshold, delta_spi) {
        let cut = binary64::product(delta_spi, weight);
        let factor = binary64::difference(unit, cut);
        let batch = binary64::product(steady, factor);
        assert(!delta_spi.negative());
        // A cut of more than everything leaves a negative factor or none.
        lemma_cut(delta_spi);
        if !factor.is_nan() && !factor.negative() {
            lemma_unit(factor);
            let f = factor.value();
            assert(0 <= steady.value() * f <= steady.value() * one) by (nonlinear_arith)
                requires
                    0 <= f <= one,
                    0 <= steady.value(),
            ;
            lemma_product(steady, factor, zero, steady);
        } else {
            lemma_negative_product(steady, factor);
        }
        lemma_truncated_at_most(batch, steady);
    }
}

/// One less a positive share is at most one, is negative, or is not a number.
proof fn lemma_cut(delta_spi: Binary64)
    requires
        !delta_spi.is_nan(),
        !delta_spi.negative(),
    ensures
        ({
            let cut = binary64::product(delta_spi, binary64::word(TREND_WEIGHT_BITS));
            let factor = binary64::difference(binary64::word(binary64::ONE), cut);
            factor.is_nan() || factor.negative() || in_unit_range(factor)
        }),
{
    lemma_one();
    let one = binary64::one_in_units();
    let unit = binary64::word(binary64::ONE);
    let weight = binary64::word(TREND_WEIGHT_BITS);
    let cut = binary64::product(delta_spi, weight);
    if delta_spi.is_finite() {
        let exact = rounding::units(delta_spi.magnitude()) * rounding::units(weight.magnitude());
        lemma_signed(false, rounding::rounded(exact, one));
        assert(!cut.negative() && !cut.is_nan());
    } else {
        lemma_signed(false, rounding::INFINITY as nat);
    }
    lemma_signed(true, cut.magnitude());
    if cut.is_finite() {
        let left = one - cut.value();
        if left >= 0 {
            lemma_sum(unit, binary64::negated(cut), binary64::word(0), unit);
        } else {
            lemma_signed(true, rounding::rounded(vstd::math::abs(left), 1));
        }
    }
}

/// A product with a negative factor is negative or not a number.
proof fn lemma_negative_product(a: Binary64, b: Binary64)
    requires
        nonnegative(a),
        !a.negative(),
        b.is_nan() || b.negative(),
    ensures
        binary64::product(a, b).is_nan() || binary64::product(a, b).negative(),
{
    lemma_one();
    if b.is_finite() {
        let exact = rounding::units(a.magnitude()) * rounding::units(b.magnitude());
        lemma_signed(true, rounding::rounded(exact, binary64::one_in_units()));
    } else {
        lemma_signed(true, rounding::INFINITY as nat);
    }
}

/// Products with the same nonnegative factor keep the order.
proof fn lemma_product_order(c: Binary64, x: Binary64, y: Binary64)
    requires
        nonnegative(c),
        nonnegative(x),
        nonnegative(y),
        x.value() <= y.value(),
        nonnegative(binary64::product(c, x)),
        nonnegative(binary64::product(c, y)),
    ensures
        binary64::product(c, x).value() <= binary64::product(c, y).value(),
{
    lemma_one();
    let one = binary64::one_in_units();
    lemma_nonnegative(c);
    lemma_nonnegative(x);
    lemma_nonnegative(y);
    let p = rounding::units(c.magnitude()) * rounding::units(x.magnitude());
    let q = rounding::units(c.magnitude()) * rounding::units(y.magnitude());
    assert(p <= q && p * one <= q * one) by (nonlinear_arith)
        requires
            p == rounding::units(c.magnitude()) * rounding::units(x.magnitude()),
            q == rounding::units(c.magnitude()) * rounding::units(y.magnitude()),
            rounding::units(x.magnitude()) <= rounding::units(y.magnitude()),
            one > 0,
    ;
    rounding::lemma_rounded_monotone(p, one, q, one);
    lemma_signed(c.negative() != x.negative(), rounding::rounded(p, one));
    lemma_signed(c.negative() != y.negative(), rounding::rounded(q, one));
    lemma_nonnegative(binary64::product(c, x));
    lemma_nonnegative(binary64::product(c, y));
    binary64::lemma_units_order(rounding::rounded(q, one), rounding::rounded(p, one));
}

/// Sums with the same number keep the order, where neither is below zero.
proof fn lemma_sum_order(c: Binary64, x: Binary64, y: Binary64)
    requires
        c.is_finite(),
        x.is_finite(),
        y.is_finite(),
        0 <= c.value() + x.value() <= c.value() + y.value(),
        nonnegative(binary64::sum(c, x)),
        nonnegative(binary64::sum(c, y)),
    ensures
        binary64::sum(c, x).value() <= binary64::sum(c, y).value(),
{
    lemma_one();
    let p = (c.value() + x.value()) as nat;
    let q = (c.value() + y.value()) as nat;
    rounding::lemma_rounded_monotone(p, 1, q, 1);
    lemma_signed(p == 0 && c.negative() && x.negative(), rounding::rounded(p, 1));
    lemma_signed(q == 0 && c.negative() && y.negative(), rounding::rounded(q, 1));
    lemma_nonnegative(binary64::sum(c, x));
    lemma_nonnegative(binary64::sum(c, y));
    binary64::lemma_units_order(rounding::rounded(q, 1), rounding::rounded(p, 1));
}

/// The numbers that the stride is computed from, in range.
proof fn lemma_stride_terms(spi: Binary64)
    requires
        in_unit_range(spi),
    ensures
        ({
            let slope = binary64::product(binary64::word(ALPHA_BITS), spi);
            let grown = binary64::sum(binary64::word(binary64::ONE), slope);
            let stride = binary64::product(binary64::from_whole(BASE_STRIDE as nat), grown);
            &&& nonnegative(slope)
            &&& nonnegative(grown)
            &&& nonnegative(stride)
            &&& stride.value() > 0
        }),
{
    lemma_one();
    lemma_unit(spi);
    let one = binary64::one_in_units();
    let zero = binary64::word(0);
    let unit = binary64::word(binary64::ONE);
    let alpha = binary64::word(ALPHA_BITS);
    assert(alpha.value() == 4 * one) by {
        lemma2_to64();
        lemma2_to64_rest();
        lemma_pow2_adds(52, 1024);
        lemma_pow2_adds(2, 1074);
    }
    let a = spi.value();
    assert(0 <= (4 * one) * a <= (4 * one) * one) by (nonlinear_arith)
        requires
            0 <= a <= one,
    ;
    lemma_product(alpha, spi, zero, alpha);
    lemma_from_whole(5);
    lemma_from_whole(16);
    lemma_from_whole(80);
    let slope = binary64::product(alpha, spi);
    lemma_sum(unit, slope, unit, binary64::from_whole(5));
    let g = binary64::sum(unit, slope).value();
    assert((16 * one) * one <= (16 * one) * g <= (80 * one) * one) by (nonlinear_arith)
        requires
            one <= g <= 5 * one,
    ;
    lemma_product(
        binary64::from_whole(16),
        binary64::sum(unit, slope),
        binary64::from_whole(16),
        binary64::from_whole(80),
    );
}

/// More pressure never shortens the stride.
pub proof fn stride_follows_pressure(less: Binary64, more: Binary64)
    requires
        in_unit_range(less),
        in_unit_range(more),
        less.value() <= more.value(),
    ensures
        system::epoch_stride(less) <= system::epoch_stride(more),
{
    reveal(system::epoch_stride);
    lemma_one();
    lemma_unit(less);
    lemma_unit(more);
    let one = binary64::one_in_units();
    let alpha = binary64::word(ALPHA_BITS);
    let unit = binary64::word(binary64::ONE);
    let base = binary64::from_whole(BASE_STRIDE as nat);
    lemma_stride_terms(less);
    lemma_stride_terms(more);
    lemma_from_whole(16);
    binary64::lemma_units_order(0, ALPHA_BITS as nat);
    lemma_product_order(alpha, less, more);
    let slope = binary64::product(alpha, less);
    let steeper = binary64::product(alpha, more);
    lemma_sum_order(unit, slope, steeper);
    lemma_product_order(base, binary64::sum(unit, slope), binary64::sum(unit, steeper));
    let shorter = binary64::product(base, binary64::sum(unit, slope));
    let longer = binary64::product(base, binary64::sum(unit, steeper));
    lemma_nonnegative(shorter);
    lemma_nonnegative(longer);
    lemma_div_is_ordered(2 * shorter.value() + one, 2 * longer.value() + one, 2 * one as int);
}

/// More pressure never makes a batch larger.
pub proof fn batch_follows_pressure(less: Binary64, more: Binary64, delta_spi: Binary64)
    requires
        in_unit_range(less),
        in_unit_range(more),
        less.value() <= more.value(),
    ensures
        system::batch_size(less, delta_spi) >= system::batch_size(more, delta_spi),
{
    reveal(system::batch_size);
    lemma_one();
    lemma_unit(less);
    lemma_unit(more);
    lemma_one_minus(less);
    lemma_one_minus(more);
    let unit = binary64::word(binary64::ONE);
    let zero = binary64::word(0);
    let one = binary64::one_in_units();
    lemma_signed(!less.negative(), less.magnitude());
    lemma_signed(!more.negative(), more.magnitude());
    let room = binary64::difference(unit, less);
    let tighter = binary64::difference(unit, more);
    lemma_unit(room);
    lemma_unit(tighter);
    lemma_sum_order(unit, binary64::negated(more), binary64::negated(less));
    lemma_steady_batch(less);
    lemma_steady_batch(more);
    lemma_from_whole(64);
    let steady = steady_batch(less);
    let smaller = steady_batch(more);
    lemma_product_order(binary64::from_whole(MAX_BATCH as nat), tighter, room);
    lemma_truncated_at_most(smaller, steady);
    if binary64::less(binary64::word(TREND_THRESHOLD_BITS), delta_spi) {
        let cut = binary64::product(delta_spi, binary64::word(TREND_WEIGHT_BITS));
        let factor = binary64::difference(unit, cut);
        binary64::lemma_units_order(0, TREND_THRESHOLD_BITS as nat);
        lemma_cut(delta_spi);
        if factor.is_nan() || factor.negative() {
            lemma_negative_product(steady, factor);
            lemma_negative_product(smaller, factor);
        } else {
            lemma_unit(factor);
            let f = factor.value();
            let s = steady.value();
            let t = smaller.value();
            assert(0 <= s * f <= s * one && 0 <= t * f <= t * one) by (nonlinear_arith)
                requires
                    0 <= f <= one,
                    0 <= s,
                    0 <= t,
            ;
            lemma_product(steady, factor, zero, steady);
            lemma_product(smaller, factor, zero, smaller);
            lemma_same_product(steady, factor);
            lemma_same_product(smaller, factor);
            lemma_product_order(factor, smaller, steady);
            lemma_nonnegative(binary64::product(steady, factor));
            lemma_positive_product(steady, factor);
            lemma_truncated_at_most(
                binary64::product(smaller, factor),
                binary64::product(steady, factor),
            );
        }
    }
}

/// The order of the factors does not matter.
proof fn lemma_same_product(a: Binary64, b: Binary64)
    ensures
        binary64::product(a, b) == binary64::product(b, a),
{
    lemma_mul_is_commutative(
        rounding::units(a.magnitude()) as int,
        rounding::units(b.magnitude()) as int,
    );
}

/// A product of numbers without a sign has none.
proof fn lemma_positive_product(a: Binary64, b: Binary64)
    requires
        nonnegative(a),
        nonnegative(b),
        !a.negative(),
        !b.negative(),
    ensures
        !binary64::product(a, b).negative(),
{
    lemma_one();
    let exact = rounding::units(a.magnitude()) * rounding::units(b.magnitude());
    lemma_signed(false, rounding::rounded(exact, binary64::one_in_units()));
}

/// The word of two to the `k`.
spec fn power_word(k: nat) -> Binary64 {
    binary64::signed(false, (1023 + k) * rounding::EXPONENT_STEP as nat)
}

proof fn lemma_power_word(k: nat)
    requires
        k <= 200,
    ensures
        nonnegative(power_word(k)),
        power_word(k).value() == pow2(1074 + k),
{
    let magnitude = (1023 + k) * rounding::EXPONENT_STEP as nat;
    lemma_signed(false, magnitude);
    lemma_fundamental_div_mod_converse(
        magnitude as int,
        rounding::EXPONENT_STEP as int,
        (1023 + k) as int,
        0,
    );
    rounding::lemma_pow2_127();
    lemma_pow2_adds(52, (1022 + k) as nat);
    lemma2_to64();
    lemma2_to64_rest();
    assert(rounding::units(magnitude) == 0x10_0000_0000_0000 * pow2((1022 + k) as nat));
}

/// The numbers that the cost of a burst is computed from, in range.
proof fn lemma_burst_terms(others: u64, n: u64)
    ensures
        ({
            let rivals = binary64::from_whole(others as nat);
            let extra = binary64::product(binary64::word(SIM_CONTENDED_FREE_NS_BITS), rivals);
            let each = binary64::sum(binary64::word(SIM_BASE_FREE_NS_BITS), extra);
            let cost = binary64::product(each, binary64::from_whole(n as nat));
            &&& nonnegative(rivals)
            &&& nonnegative(extra)
            &&& nonnegative(each)
            &&& !each.negative()
            &&& nonnegative(cost)
            &&& !cost.negative()
        }),
        nonnegative(binary64::word(SIM_CONTENDED_FREE_NS_BITS)),
        nonnegative(binary64::word(SIM_BASE_FREE_NS_BITS)),
        nonnegative(binary64::from_whole(n as nat)),
{
    lemma_one();
    let zero = binary64::word(0);
    let contended = binary64::word(SIM_CONTENDED_FREE_NS_BITS);
    let base = binary64::word(SIM_BASE_FREE_NS_BITS);
    let rivals = binary64::from_whole(others as nat);
    let nodes = binary64::from_whole(n as nat);
    lemma_word(others);
    lemma_word(n);
    lemma_power_word(8);
    lemma_power_word(64);
    lemma_power_word(72);
    lemma_power_word(73);
    lemma_power_word(137);
    // Both costs are below two to the 8, words are at most two to the 64.
    binary64::lemma_units_order(contended.magnitude(), power_word(8).magnitude());
    binary64::lemma_units_order(base.magnitude(), power_word(8).magnitude());
    binary64::lemma_units_order(0, contended.magnitude());
    binary64::lemma_units_order(0, base.magnitude());
    binary64::lemma_units_order(power_word(64).magnitude(), rivals.magnitude());
    binary64::lemma_units_order(power_word(64).magnitude(), nodes.magnitude());
    lemma_bounded_product(contended, rivals, 8, 64);
    let extra = binary64::product(contended, rivals);
    assert(base.value() + extra.value() <= power_word(73).value()) by {
        lemma_pow2_unfold(1147);
        rounding::lemma_pow2_split(1082, 1146);
    }
    lemma_sum(base, extra, zero, power_word(73));
    let each = binary64::sum(base, extra);
    let exact = (base.value() + extra.value()) as nat;
    rounding::lemma_rounded_at_most(exact, 1, power_word(73).magnitude());
    lemma_nonnegative(power_word(73));
    lemma_signed(false, rounding::rounded(exact, 1));
    lemma_bounded_product(each, nodes, 73, 64);
    lemma_positive_product(each, nodes);
}

/// A product of numbers below powers of two is below their product.
proof fn lemma_bounded_product(a: Binary64, b: Binary64, j: nat, k: nat)
    requires
        nonnegative(a),
        nonnegative(b),
        j + k <= 200,
        a.value() <= pow2(1074 + j),
        b.value() <= pow2(1074 + k),
    ensures
        nonnegative(binary64::product(a, b)),
        binary64::product(a, b).value() <= pow2(1074 + j + k),
{
    lemma_power_word(j + k);
    lemma_pow2_adds(1074 + j, 1074 + k);
    lemma_pow2_adds(1074 + j + k, 1074);
    let p = pow2(1074 + j) as int;
    let q = pow2(1074 + k) as int;
    assert(a.value() * b.value() <= p * q) by (nonlinear_arith)
        requires
            0 <= a.value() <= p,
            0 <= b.value() <= q,
    ;
    assert((1074 + j) + (1074 + k) == (1074 + j + k) + 1074);
    lemma_one();
    lemma_product(a, b, binary64::word(0), power_word(j + k));
}

/// Freeing takes longer the more threads are freeing at the same time, and the
/// more nodes there are.
pub proof fn bursts_cost_more_together(fewer: u64, more: u64, few: usize, many: usize)
    requires
        fewer <= more,
        few <= many,
    ensures
        bench::burst_ns(fewer, many as nat) <= bench::burst_ns(more, many as nat),
        bench::burst_ns(more, few as nat) <= bench::burst_ns(more, many as nat),
{
    let contended = binary64::word(SIM_CONTENDED_FREE_NS_BITS);
    let base = binary64::word(SIM_BASE_FREE_NS_BITS);
    let nodes = binary64::from_whole(many as nat);
    let less_nodes = binary64::from_whole(few as nat);
    lemma_burst_terms(fewer, many as u64);
    lemma_burst_terms(more, many as u64);
    lemma_burst_terms(more, few as u64);
    lemma_word_order(fewer, more);
    lemma_word_order(few as u64, many as u64);
    let a = binary64::from_whole(fewer as nat);
    let b = binary64::from_whole(more as nat);
    lemma_product_order(contended, a, b);
    let extra = binary64::product(contended, a);
    let more_extra = binary64::product(contended, b);
    lemma_sum_order(base, extra, more_extra);
    let each = binary64::sum(base, extra);
    let more_each = binary64::sum(base, more_extra);
    lemma_same_product(each, nodes);
    lemma_same_product(more_each, nodes);
    lemma_product_order(nodes, each, more_each);
    lemma_truncated_at_most(
        binary64::product(each, nodes),
        binary64::product(more_each, nodes),
    );
    lemma_product_order(more_each, less_nodes, nodes);
    lemma_truncated_at_most(
        binary64::product(more_each, less_nodes),
        binary64::product(more_each, nodes),
    );
}

} // verus!
