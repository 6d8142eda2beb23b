//! How often an operation is drawn.

use crate::accuracy::number;
use crate::binary64;
use crate::binary64::Binary64;
use crate::pressure_laws;
use crate::rounding;
use crate::workload;
use vstd::arithmetic::div_mod::*;
use vstd::arithmetic::power2::*;
use vstd::prelude::*;
use vstd::set_lib::*;

verus! {

/// A number below one times a power of two that is not too small is exact: only
/// its exponent changes.
proof fn lemma_shifted_exactly(magnitude: nat, shift: nat)
    requires
        rounding::EXPONENT_STEP <= magnitude < binary64::ONE,
        shift <= 16,
    ensures
        rounding::units(rounding::rounded(rounding::units(magnitude) * pow2(shift), 1))
            == rounding::units(magnitude) * pow2(shift),
{
    let step = rounding::EXPONENT_STEP as nat;
    let exponent = magnitude / step;
    let fraction = magnitude % step;
    let moved = magnitude + shift * step;
    lemma_fundamental_div_mod(magnitude as int, step as int);
    lemma_fundamental_div_mod_converse(
        moved as int,
        step as int,
        (exponent + shift) as int,
        fraction as int,
    );
    lemma_pow2_adds((exponent - 1) as nat, shift);
    let p = pow2((exponent - 1) as nat);
    let q = pow2(shift);
    assert((step + fraction) * (p * q) == ((step + fraction) * p) * q) by (nonlinear_arith);
    assert(rounding::units(moved) == rounding::units(magnitude) * q);
    rounding::lemma_rounded_representable(moved);
}

/// What a fraction of a power of two cuts off: its whole part is at least `count`
/// where the exact product is.
proof fn lemma_cut_off(fraction: Binary64, bits: u64, shift: nat, count: nat)
    requires
        shift <= 16,
        bits == (1023 + shift) * rounding::EXPONENT_STEP,
        1 <= count <= pow2(shift),
    ensures
        binary64::truncated(binary64::product(fraction, binary64::word(bits))) >= count <==> {
            &&& !fraction.is_nan()
            &&& count as real <= number(fraction) * pow2(shift) as real
        },
{
    let one = binary64::one_in_units();
    let scale = pow2(shift);
    let step = rounding::EXPONENT_STEP as nat;
    let product = binary64::product(fraction, binary64::word(bits));
    let m = fraction.magnitude();
    let size = rounding::units(m);
    pressure_laws::lemma_one();
    rounding::lemma_pow2_127();
    lemma2_to64();
    lemma_pow2_pos(shift);
    rounding::lemma_pow2_split(shift, 16);
    lemma_fundamental_div_mod_converse(bits as int, step as int, (1023 + shift) as int, 0);
    assert(rounding::units(bits as nat) == scale * one) by {
        lemma_pow2_adds(52, (1022 + shift) as nat);
        lemma_pow2_adds(shift, 1074);
    }
    let u = one as real;
    let v = fraction.value() as real;
    let c = count as real;
    let w = scale as real;
    let f = number(fraction);
    assert(f * u == v) by (nonlinear_arith)
        requires
            f == v / u,
            u > 0real,
    ;
    assert((c <= f * w) == (c * u <= v * w)) by (nonlinear_arith)
        requires
            f * u == v,
            u > 0real,
    ;
    if fraction.is_nan() {
    } else if fraction.negative() {
        assert(v * w <= 0real) by (nonlinear_arith)
            requires
                v <= 0real,
                w > 0real,
        ;
        assert(c * u > 0real) by (nonlinear_arith)
            requires
                c > 0real,
                u > 0real,
        ;
        if fraction.is_finite() {
            let exact = size * rounding::units(bits as nat);
            assert(rounding::rounded(exact, one) <= rounding::INFINITY);
        }
        assert(product.is_nan() || product.negative());
    } else {
        assert((c * u <= v * w) == (count * one <= size * scale)) by (nonlinear_arith)
            requires
                c == count as real,
                u == one as real,
                v == size as real,
                w == scale as real,
        ;
        lemma_cut_off_positive(fraction, bits, shift, count);
    }
}

proof fn lemma_cut_off_positive(fraction: Binary64, bits: u64, shift: nat, count: nat)
    requires
        shift <= 16,
        bits == (1023 + shift) * rounding::EXPONENT_STEP,
        1 <= count <= pow2(shift),
        pow2(shift) <= 0x1_0000,
        rounding::units(bits as nat) == pow2(shift) * binary64::one_in_units(),
        !fraction.is_nan(),
        !fraction.negative(),
    ensures
        binary64::truncated(binary64::product(fraction, binary64::word(bits))) >= count <==> count
            * binary64::one_in_units() <= rounding::units(fraction.magnitude()) * pow2(shift),
{
    let one = binary64::one_in_units();
    let scale = pow2(shift);
    let step = rounding::EXPONENT_STEP as nat;
    let product = binary64::product(fraction, binary64::word(bits));
    let m = fraction.magnitude();
    let size = rounding::units(m);
    let whole = binary64::from_whole(count);
    pressure_laws::lemma_one();
    lemma_pow2_pos(shift);
    pressure_laws::lemma_from_whole(count);
    assert(rounding::units(whole.magnitude()) == count * one);
    let top = rounding::INFINITY as nat;
    binary64::lemma_units_order(bits as nat, top);
    assert(count * one <= scale * one) by (nonlinear_arith)
        requires
            count <= scale,
    ;
    if fraction.is_infinite() {
        assert(size >= count * one);
        assert(size * scale >= size) by (nonlinear_arith)
            requires
                scale >= 1,
                size >= 0,
        ;
        assert(product == binary64::signed(false, top));
        assert(product.magnitude() == top);
        lemma_whole_part(size, count);
    } else {
        let exact = size * (scale * one);
        let n = size * scale;
        assert(exact == n * one) by (nonlinear_arith)
            requires
                exact == size * (scale * one),
                n == size * scale,
        ;
        rounding::lemma_rounded_scaled(n, 1, one);
        let r = rounding::rounded(n, 1);
        assert(product == binary64::signed(false, r));
        assert(product.magnitude() == r && !product.negative());
        let got = rounding::units(r);
        if count * one <= n {
            rounding::lemma_rounded_at_least(n, 1, whole.magnitude());
            binary64::lemma_units_order(r, whole.magnitude());
            lemma_whole_part(got, count);
        } else {
            assert(size < one) by (nonlinear_arith)
                requires
                    size * scale < count * one,
                    count <= scale,
                    scale > 0,
            ;
            binary64::lemma_units_order(m, binary64::ONE as nat);
            if m >= step {
                lemma_shifted_exactly(m, shift);
                assert(got == n);
            } else {
                lemma_tiny(m, scale);
            }
            assert(got < count * one) by {
                assert(one <= count * one) by (nonlinear_arith)
                    requires
                        count >= 1,
                        one > 0,
                ;
            }
            lemma_whole_part(got, count);
        }
    }
}

/// The smallest numbers stay below one when they are scaled.
proof fn lemma_tiny(magnitude: nat, scale: nat)
    requires
        magnitude < rounding::EXPONENT_STEP,
        scale <= 0x1_0000,
    ensures
        rounding::units(rounding::rounded(rounding::units(magnitude) * scale, 1))
            < binary64::one_in_units(),
{
    pressure_laws::lemma_one();
    rounding::lemma_pow2_127();
    let half = 0x3FE0_0000_0000_0000nat;
    let n = rounding::units(magnitude) * scale;
    assert(rounding::units(magnitude) == magnitude) by {
        lemma_fundamental_div_mod_converse(
            magnitude as int,
            rounding::EXPONENT_STEP as int,
            0,
            magnitude as int,
        );
    }
    assert(n <= 0x10_0000_0000_0000 * 0x1_0000) by (nonlinear_arith)
        requires
            n == magnitude * scale,
            magnitude < 0x10_0000_0000_0000,
            scale <= 0x1_0000,
    ;
    lemma2_to64();
    lemma2_to64_rest();
    lemma_pow2_adds(52, 16);
    assert(rounding::units(half) == pow2(52) * pow2(1021));
    lemma_pow2_adds(52, 1021);
    rounding::lemma_pow2_split(68, 1073);
    rounding::lemma_rounded_at_most(n, 1, half);
    binary64::lemma_units_order(half, binary64::ONE as nat);
    binary64::lemma_units_order(half, rounding::rounded(n, 1));
}

/// The whole part of so many units, kept within the range of a word.
proof fn lemma_whole_part(size: nat, count: nat)
    requires
        count <= 0x1_0000,
    ensures
        binary64::capped(size / binary64::one_in_units()) >= count <==> size >= count
            * binary64::one_in_units(),
{
    pressure_laws::lemma_one();
    let one = binary64::one_in_units();
    let whole = size / one;
    lemma_fundamental_div_mod(size as int, one as int);
    if whole >= count {
        assert(one * whole >= count * one) by (nonlinear_arith)
            requires
                whole >= count,
        ;
    } else {
        assert(one * whole + one <= count * one) by (nonlinear_arith)
            requires
                whole + 1 <= count,
                one > 0,
        ;
    }
}

/// For every fraction and every draw: the draw gives a snapshot where its low
/// sixteen bits are below that fraction of their range. A fraction that is not a
/// number, or is not above zero, never gives one.
pub proof fn snapshots_are_drawn_by_their_share(draw: u64, fraction: Binary64)
    ensures
        workload::draws_snapshot(draw, fraction) <==> {
            &&& !fraction.is_nan()
            &&& (draw % 0x1_0000) as real + 1real <= number(fraction) * 65536real
        },
{
    lemma2_to64();
    lemma_cut_off(fraction, workload::SHORT_RANGE_BITS, 16, (draw % 0x1_0000 + 1) as nat);
}

/// For every fraction and every draw: the draw gives an insertion where the byte
/// of it that decides is below that fraction of its range.
pub proof fn insertions_are_drawn_by_their_share(draw: u64, fraction: Binary64)
    ensures
        workload::draws_insert(draw, fraction) <==> {
            &&& !fraction.is_nan()
            &&& ((draw / 0x2_0000) % 0x100) as real + 1real <= number(fraction) * 256real
        },
{
    lemma2_to64();
    lemma_cut_off(
        fraction,
        workload::BYTE_RANGE_BITS,
        8,
        ((draw / 0x2_0000) % 0x100 + 1) as nat,
    );
}

/// The values of the low sixteen bits of a draw that give a snapshot.
pub open spec fn snapshot_draws(fraction: Binary64) -> Set<int> {
    Set::new(|low: int| 0 <= low < 0x1_0000 && workload::draws_snapshot(low as u64, fraction))
}

/// Of all values of the low sixteen bits, as many give a snapshot as the whole
/// part of that fraction of their number says.
pub proof fn snapshots_are_as_many_as_their_share(fraction: Binary64, n: nat)
    requires
        pressure_laws::in_unit_range(fraction),
        n as real <= number(fraction) * 65536real < n as real + 1real,
    ensures
        snapshot_draws(fraction).finite(),
        snapshot_draws(fraction).len() == n,
{
    crate::formula_laws::lemma_in_unit_range(fraction);
    assert forall|low: int| 0 <= low < 0x1_0000 implies (#[trigger] workload::draws_snapshot(
        low as u64,
        fraction,
    ) <==> low < n) by {
        snapshots_are_drawn_by_their_share(low as u64, fraction);
    }
    assert(snapshot_draws(fraction) =~= set_int_range(0, n as int));
    lemma_int_range(0, n as int);
}

/// A larger fraction gives a snapshot wherever a smaller one does.
pub proof fn larger_shares_draw_no_fewer(draw: u64, smaller: Binary64, larger: Binary64)
    requires
        binary64::at_most(smaller, larger),
        workload::draws_snapshot(draw, smaller),
    ensures
        workload::draws_snapshot(draw, larger),
{
    snapshots_are_drawn_by_their_share(draw, smaller);
    snapshots_are_drawn_by_their_share(draw, larger);
    pressure_laws::lemma_one();
    let u = binary64::one_in_units() as real;
    let a = smaller.value() as real;
    let b = larger.value() as real;
    assert(a / u <= b / u) by (nonlinear_arith)
        requires
            a <= b,
            u > 0real,
    ;
}

/// A step of a generator can be undone where its factor has an inverse.
proof fn lemma_step_undone(x: u64, factor: int, inverse: int, increment: int)
    requires
        (factor * inverse) % 0x1_0000_0000_0000_0000 == 1,
    ensures
        ((workload::lcg_step(x, factor, increment) - increment) * inverse)
            % 0x1_0000_0000_0000_0000 == x,
{
    let modulus = 0x1_0000_0000_0000_0000int;
    let next = workload::lcg_step(x, factor, increment) as int;
    let raw = x * factor + increment;
    lemma_fundamental_div_mod(raw, modulus);
    lemma_fundamental_div_mod(factor * inverse, modulus);
    let turns = raw / modulus;
    let rest = (factor * inverse) / modulus;
    assert((next - increment) * inverse == (x * rest - turns * inverse) * modulus + x)
        by (nonlinear_arith)
        requires
            raw == modulus * turns + next,
            raw == x * factor + increment,
            factor * inverse == modulus * rest + 1,
    ;
    lemma_fundamental_div_mod_converse(
        (next - increment) * inverse,
        modulus,
        x * rest - turns * inverse,
        x as int,
    );
}

/// Neither generator ever merges two sequences: from different states it goes on
/// to different ones.
pub proof fn sequences_of_draws_never_merge(x: u64, y: u64)
    ensures
        workload::next_draw(x) == workload::next_draw(y) ==> x == y,
        workload::next_extra_draw(x) == workload::next_extra_draw(y) ==> x == y,
{
    lemma_step_undone(x, 6364136223846793005, 13877824140714322085, 1442695040888963407);
    lemma_step_undone(y, 6364136223846793005, 13877824140714322085, 1442695040888963407);
    lemma_step_undone(x, 2862933555777941757, 16133697096952638549, 3037000493);
    lemma_step_undone(y, 2862933555777941757, 16133697096952638549, 3037000493);
}

} // verus!
