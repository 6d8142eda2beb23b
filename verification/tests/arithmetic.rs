//! The arithmetic on bit patterns against that of the machine.

use pacer::binary64::{Binary64, NAN, ONE, SIGN};
use pacer::params;

fn number(x: f64) -> Binary64 {
    Binary64::from_bits(x.to_bits())
}

/// Words that lie at the edges of the format.
fn edges() -> Vec<u64> {
    let mut words = vec![
        0.0_f64.to_bits(),
        f64::MIN_POSITIVE.to_bits(),
        f64::MAX.to_bits(),
        f64::INFINITY.to_bits(),
        f64::NAN.to_bits(),
        f64::EPSILON.to_bits(),
        1,
        2,
        3,
        0x000F_FFFF_FFFF_FFFF,
        0x0010_0000_0000_0001,
        1.0_f64.to_bits(),
        1.0_f64.to_bits() + 1,
        1.0_f64.to_bits() - 1,
        0.5_f64.to_bits(),
        1.5_f64.to_bits(),
        2.5_f64.to_bits(),
        3.0_f64.to_bits(),
        0.1_f64.to_bits(),
        0.49999999999999994_f64.to_bits(),
        4503599627370495.5_f64.to_bits(),
        4503599627370497.5_f64.to_bits(),
        9007199254740993.0_f64.to_bits(),
        18446744073709551615.0_f64.to_bits(),
        18446744073709549568.0_f64.to_bits(),
        36893488147419103232.0_f64.to_bits(),
        0x7FF0_0000_0000_0001,
    ];
    for i in 0..words.len() {
        words.push(words[i] | 0x8000_0000_0000_0000);
    }
    words
}

/// Draws words of every size, many of them close to each other.
fn draws(seed: u64, n: usize) -> Vec<(u64, u64)> {
    let mut state = seed;
    let mut next = || {
        state ^= state << 13;
        state ^= state >> 7;
        state ^= state << 17;
        state
    };
    let mut pairs = Vec::new();
    for a in edges() {
        for b in edges() {
            pairs.push((a, b));
        }
    }
    for i in 0..n {
        let a = next();
        let b = match i % 4 {
            0 => next(),
            // The same exponent, give or take a little.
            1 => (a & 0xFFF0_0000_0000_0000).wrapping_add(next() & 0x003F_FFFF_FFFF_FFFF),
            // Few digits.
            2 => next() & 0xFFFF_FF00_0000_0000,
            // Small numbers around one.
            _ => (next() & 0x800F_FFFF_FFFF_FFFF) | 0x3FF0_0000_0000_0000,
        };
        pairs.push((a, b));
    }
    pairs
}

fn same(got: Binary64, expected: f64) -> bool {
    if expected.is_nan() {
        got.bits == NAN
    } else {
        got.bits == expected.to_bits()
    }
}

#[test]
fn products_match_the_machine() {
    for (a, b) in draws(1, 400_000) {
        let got = Binary64::from_bits(a).times(Binary64::from_bits(b));
        assert!(same(got, f64::from_bits(a) * f64::from_bits(b)), "{a:x} {b:x}");
    }
}

#[test]
fn products_near_the_smallest_number_match() {
    for (a, b) in draws(2, 200_000) {
        let (a, b) = ((a >> 2) & 0x1FFF_FFFF_FFFF_FFFF, (b >> 2) | 0x0FF0_0000_0000_0000);
        let got = Binary64::from_bits(a).times(Binary64::from_bits(b));
        assert!(same(got, f64::from_bits(a) * f64::from_bits(b)), "{a:x} {b:x}");
    }
}

#[test]
fn quotients_match_the_machine() {
    for (a, b) in draws(3, 400_000) {
        let got = Binary64::from_bits(a).over(Binary64::from_bits(b));
        assert!(same(got, f64::from_bits(a) / f64::from_bits(b)), "{a:x} {b:x}");
    }
}

#[test]
fn sums_match_the_machine() {
    for (a, b) in draws(4, 400_000) {
        let got = Binary64::from_bits(a).plus(Binary64::from_bits(b));
        assert!(same(got, f64::from_bits(a) + f64::from_bits(b)), "{a:x} {b:x}");
    }
}

#[test]
fn differences_match_the_machine() {
    for (a, b) in draws(5, 400_000) {
        let got = Binary64::from_bits(a).minus(Binary64::from_bits(b));
        assert!(same(got, f64::from_bits(a) - f64::from_bits(b)), "{a:x} {b:x}");
    }
}

#[test]
fn comparisons_match_the_machine() {
    for (a, b) in draws(6, 400_000) {
        let (x, y) = (Binary64::from_bits(a), Binary64::from_bits(b));
        let (f, g) = (f64::from_bits(a), f64::from_bits(b));
        assert_eq!(x.is_less(y), f < g);
        assert_eq!(x.is_at_most(y), f <= g);
    }
}

#[test]
fn smaller_ones_and_ranges_match_the_machine() {
    let (zero, one) = (number(0.0), number(1.0));
    for (a, b) in draws(7, 400_000) {
        let (x, y) = (Binary64::from_bits(a), Binary64::from_bits(b));
        let (f, g) = (f64::from_bits(a), f64::from_bits(b));
        let lesser = f64::from_bits(x.min(y).bits);
        assert!(lesser == f.min(g) || (lesser.is_nan() && f.is_nan() && g.is_nan()));
        let clamped = f64::from_bits(x.clamp(zero, one).bits);
        assert!(clamped == f.clamp(0.0, 1.0) || (clamped.is_nan() && f.is_nan()));
    }
}

#[test]
fn conversions_from_whole_numbers_match_the_machine() {
    for (a, _) in draws(8, 400_000) {
        for shift in [0, 3, 11, 12, 40, 60] {
            let n = a >> shift;
            assert_eq!(Binary64::from_u64(n).bits, (n as f64).to_bits());
        }
    }
    assert_eq!(Binary64::from_u64(u64::MAX).bits, (u64::MAX as f64).to_bits());
}

#[test]
fn conversions_to_whole_numbers_match_the_machine() {
    for (a, _) in draws(9, 200_000) {
        for exponent in [0_u64, 0x3E0, 0x3FE, 0x3FF, 0x400, 0x420, 0x432, 0x433, 0x434, 0x43E, 0x43F] {
            let word = if exponent == 0 {
                a
            } else {
                (a & 0x800F_FFFF_FFFF_FFFF) | (exponent << 52)
            };
            let x = f64::from_bits(word);
            assert_eq!(Binary64::from_bits(word).to_u64(), x as u64, "{word:x}");
            assert_eq!(Binary64::from_bits(word).to_nearest_u64(), x.round() as u64, "{word:x}");
        }
    }
}

#[test]
fn constants_are_what_they_say() {
    assert_eq!(ONE, 1.0_f64.to_bits());
    assert_eq!(SIGN, (-0.0_f64).to_bits());
    assert!(f64::from_bits(NAN).is_nan());
    assert_eq!(params::ALPHA_BITS, 4.0_f64.to_bits());
    assert_eq!(params::TREND_THRESHOLD_BITS, 0.05_f64.to_bits());
    assert_eq!(params::TREND_WEIGHT_BITS, 0.5_f64.to_bits());
    assert_eq!(params::SPI_WRITE_HEAVY_BITS, 0.30_f64.to_bits());
    assert_eq!(params::SPI_SNAP_HEAVY_BITS, 0.60_f64.to_bits());
    assert_eq!(params::HYSTERESIS_BITS, 0.05_f64.to_bits());
    assert_eq!(params::SPI_EMA_ALPHA_BITS, 0.15_f64.to_bits());
    assert_eq!(params::SIM_BASE_FREE_NS_BITS, 20.0_f64.to_bits());
    assert_eq!(params::SIM_CONTENDED_FREE_NS_BITS, 150.0_f64.to_bits());
    assert_eq!(pacer::scc::HIT_RATE_WEIGHT_BITS, 0.6_f64.to_bits());
    assert_eq!(pacer::scc::HEADROOM_WEIGHT_BITS, 0.4_f64.to_bits());
    assert_eq!(pacer::scc::LATENCY_KEEP_BITS, 0.9_f64.to_bits());
    assert_eq!(pacer::scc::LATENCY_NEW_BITS, 0.1_f64.to_bits());
    assert_eq!(pacer::bench::PERCENT_BITS, 100.0_f64.to_bits());
    assert_eq!(pacer::bench::NANOS_PER_SEC_BITS, 1e9_f64.to_bits());
    assert_eq!(pacer::bench::MILLION_BITS, 1_000_000.0_f64.to_bits());
    assert_eq!(pacer::workload::HALF_BITS, 0.5_f64.to_bits());
    assert_eq!(pacer::workload::BYTE_RANGE_BITS, 256.0_f64.to_bits());
    assert_eq!(pacer::workload::SHORT_RANGE_BITS, 65536.0_f64.to_bits());
    assert_eq!(pacer::abtree::INSERT_BYTES, (0.50_f64 * 256.0) as u64);
}
