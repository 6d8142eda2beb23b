//! Binary64 arithmetic on bit patterns.
//!
//! The pressure estimates of the library are binary64 numbers, and they travel
//! between threads as 64-bit words. This module computes on those words with
//! whole-number arithmetic: each operation gives the exact result rounded to
//! nearest, ties to even, as the floating-point unit does, and each is proved to
//! do so. Every result that is not a number is the one word `NAN`.

use crate::rounding;
use vstd::arithmetic::div_mod::*;
use vstd::arithmetic::mul::*;
use vstd::arithmetic::power2::*;
use vstd::prelude::*;

verus! {

/// The bit that holds the sign.
pub const SIGN: u64 = 0x8000_0000_0000_0000;

/// The word that stands for every result that is not a number.
pub const NAN: u64 = 0x7FF8_0000_0000_0000;

/// One.
pub const ONE: u64 = 0x3FF0_0000_0000_0000;

/// A binary64 number.
#[derive(Clone, Copy, Debug)]
pub struct Binary64 {
    pub bits: u64,
}

impl Binary64 {
    pub open spec fn negative(self) -> bool {
        self.bits >= SIGN
    }

    /// The word without its sign bit.
    pub open spec fn magnitude(self) -> nat {
        if self.negative() {
            (self.bits - SIGN) as nat
        } else {
            self.bits as nat
        }
    }

    pub open spec fn is_nan(self) -> bool {
        self.magnitude() > rounding::INFINITY
    }

    pub open spec fn is_infinite(self) -> bool {
        self.magnitude() == rounding::INFINITY
    }

    pub open spec fn is_finite(self) -> bool {
        self.magnitude() < rounding::INFINITY
    }

    /// The number in units of two to the minus 1074. The infinities are given
    /// the value that the next step of the exponent would have, so that they
    /// stand beyond every finite number.
    pub open spec fn value(self) -> int {
        let size = rounding::units(self.magnitude()) as int;
        if self.negative() {
            -size
        } else {
            size
        }
    }
}

/// The number that a word stands for.
pub open spec fn word(bits: u64) -> Binary64 {
    Binary64 { bits }
}

/// One, in units.
pub open spec fn one_in_units() -> nat {
    pow2(1074)
}

/// The number with the given sign and magnitude.
pub open spec fn signed(negative: bool, magnitude: nat) -> Binary64 {
    if negative {
        Binary64 { bits: (SIGN + magnitude) as u64 }
    } else {
        Binary64 { bits: magnitude as u64 }
    }
}

pub open spec fn nan() -> Binary64 {
    Binary64 { bits: NAN }
}

pub open spec fn negated(a: Binary64) -> Binary64 {
    signed(!a.negative(), a.magnitude())
}

/// `n`, rounded.
pub open spec fn from_whole(n: nat) -> Binary64 {
    signed(false, rounding::rounded(n * one_in_units(), 1))
}

/// `a + b`, rounded.
pub open spec fn sum(a: Binary64, b: Binary64) -> Binary64 {
    if a.is_nan() || b.is_nan() {
        nan()
    } else if a.is_infinite() {
        if b.is_infinite() && a.negative() != b.negative() {
            nan()
        } else {
            a
        }
    } else if b.is_infinite() {
        b
    } else {
        let exact = a.value() + b.value();
        signed(
            exact < 0 || (exact == 0 && a.negative() && b.negative()),
            rounding::rounded(vstd::math::abs(exact), 1),
        )
    }
}

/// `a - b`, rounded.
pub open spec fn difference(a: Binary64, b: Binary64) -> Binary64 {
    sum(a, negated(b))
}

/// `a * b`, rounded.
pub open spec fn product(a: Binary64, b: Binary64) -> Binary64 {
    let negative = a.negative() != b.negative();
    if a.is_nan() || b.is_nan() {
        nan()
    } else if a.is_infinite() || b.is_infinite() {
        if a.magnitude() == 0 || b.magnitude() == 0 {
            nan()
        } else {
            signed(negative, rounding::INFINITY as nat)
        }
    } else {
        let exact = rounding::units(a.magnitude()) * rounding::units(b.magnitude());
        signed(negative, rounding::rounded(exact, one_in_units()))
    }
}

/// `a / b`, rounded.
pub open spec fn quotient(a: Binary64, b: Binary64) -> Binary64 {
    let negative = a.negative() != b.negative();
    if a.is_nan() || b.is_nan() || (a.is_infinite() && b.is_infinite()) || (a.magnitude() == 0
        && b.magnitude() == 0) {
        nan()
    } else if a.is_infinite() || b.magnitude() == 0 {
        signed(negative, rounding::INFINITY as nat)
    } else if b.is_infinite() {
        signed(negative, 0)
    } else {
        let exact = rounding::units(a.magnitude()) * one_in_units();
        signed(negative, rounding::rounded(exact, rounding::units(b.magnitude())))
    }
}

/// `a < b`; false where either is not a number.
pub open spec fn less(a: Binary64, b: Binary64) -> bool {
    !a.is_nan() && !b.is_nan() && a.value() < b.value()
}

/// `a <= b`; false where either is not a number.
pub open spec fn at_most(a: Binary64, b: Binary64) -> bool {
    !a.is_nan() && !b.is_nan() && a.value() <= b.value()
}

/// The smaller one; the other one where one is not a number.
pub open spec fn lesser(a: Binary64, b: Binary64) -> Binary64 {
    if a.is_nan() {
        b
    } else if b.is_nan() || a.value() <= b.value() {
        a
    } else {
        b
    }
}

/// `a` moved into the range from `low` to `high`; unchanged where it is not a
/// number.
pub open spec fn clamped(a: Binary64, low: Binary64, high: Binary64) -> Binary64 {
    if less(a, low) {
        low
    } else if less(high, a) {
        high
    } else {
        a
    }
}

/// The largest word, where `n` is larger.
pub open spec fn capped(n: nat) -> u64 {
    if n > u64::MAX {
        u64::MAX
    } else {
        n as u64
    }
}

/// The whole part of `a`, kept within the range of a word.
pub open spec fn truncated(a: Binary64) -> u64 {
    if a.is_nan() || a.negative() {
        0
    } else {
        capped(rounding::units(a.magnitude()) / one_in_units())
    }
}

/// The whole number nearest to `a`, the larger of two that are equally near,
/// kept within the range of a word.
pub open spec fn nearest_whole(a: Binary64) -> u64 {
    if a.is_nan() || a.negative() {
        0
    } else {
        capped((2 * rounding::units(a.magnitude()) + one_in_units()) / (2 * one_in_units()))
    }
}

proof fn lemma_units_bounds(magnitude: nat)
    ensures
        ({
            let step = rounding::EXPONENT_STEP as nat;
            let exponent = magnitude / step;
            &&& rounding::units(magnitude) < step * pow2(exponent)
            &&& exponent > 0 ==> step * pow2((exponent - 1) as nat) <= rounding::units(magnitude)
        }),
{
    let step = rounding::EXPONENT_STEP as nat;
    let exponent = magnitude / step;
    let fraction = magnitude % step;
    lemma2_to64();
    if exponent > 0 {
        let p = pow2((exponent - 1) as nat);
        lemma_pow2_unfold(exponent);
        lemma_pow2_pos((exponent - 1) as nat);
        assert((step + fraction) * p < step * (2 * p)) by (nonlinear_arith)
            requires
                fraction < step,
                p > 0,
        ;
        assert(step * p <= (step + fraction) * p) by (nonlinear_arith)
            requires
                fraction >= 0,
                p > 0,
        ;
    }
}

/// Larger magnitudes stand for larger numbers.
pub proof fn lemma_units_increase(a: nat, b: nat)
    requires
        a < b,
    ensures
        rounding::units(a) < rounding::units(b),
{
    let step = rounding::EXPONENT_STEP as nat;
    let ea = a / step;
    let eb = b / step;
    lemma_units_bounds(a);
    lemma_units_bounds(b);
    if ea == eb {
        if ea > 0 {
            let p = pow2((ea - 1) as nat);
            lemma_pow2_pos((ea - 1) as nat);
            let fa = a % step;
            let fb = b % step;
            assert((step + fa) * p < (step + fb) * p) by (nonlinear_arith)
                requires
                    fa < fb,
                    p > 0,
            ;
        }
    } else {
        assert(ea < eb);
        rounding::lemma_pow2_split(ea, (eb - 1) as nat);
        assert(step * pow2(ea) <= step * pow2((eb - 1) as nat)) by (nonlinear_arith)
            requires
                pow2(ea) <= pow2((eb - 1) as nat),
        ;
    }
}

pub proof fn lemma_rounded_zero(d: nat)
    requires
        d > 0,
    ensures
        rounding::rounded(0, d) == 0,
{
    lemma2_to64();
    lemma_div_of0(d as int);
    lemma_small_mod(0, d);
    assert(d * pow2(0) == d);
}

impl Binary64 {
    pub fn from_bits(bits: u64) -> (r: Self)
        ensures
            r.bits == bits,
    {
        Binary64 { bits }
    }

    fn sign_and_magnitude(self) -> (r: (bool, u64))
        ensures
            r.0 == self.negative(),
            r.1 == self.magnitude(),
    {
        if self.bits >= SIGN {
            (true, self.bits - SIGN)
        } else {
            (false, self.bits)
        }
    }

    fn assemble(negative: bool, magnitude: u64) -> (r: Self)
        requires
            magnitude < SIGN,
        ensures
            r == signed(negative, magnitude as nat),
    {
        if negative {
            Binary64 { bits: SIGN + magnitude }
        } else {
            Binary64 { bits: magnitude }
        }
    }

    /// Significand and shift of a magnitude.
    fn parts(magnitude: u64) -> (r: (u64, u32))
        requires
            magnitude <= rounding::INFINITY,
        ensures
            rounding::units(magnitude as nat) == r.0 * pow2(r.1 as nat),
            r.0 < 0x20_0000_0000_0000,
            r.1 <= 2046,
            magnitude < rounding::INFINITY ==> r.1 <= 2045,
            r.1 > 0 ==> r.0 >= 0x10_0000_0000_0000,
            r.0 == 0 <==> magnitude == 0,
    {
        let exponent: u64 = magnitude / rounding::EXPONENT_STEP;
        let fraction: u64 = magnitude % rounding::EXPONENT_STEP;
        if exponent == 0 {
            proof {
                lemma2_to64();
            }
            (fraction, 0)
        } else {
            (rounding::EXPONENT_STEP + fraction, (exponent - 1) as u32)
        }
    }

    pub fn from_u64(n: u64) -> (r: Self)
        ensures
            r == from_whole(n as nat),
    {
        if n == 0 {
            proof {
                lemma_rounded_zero(1);
            }
            Binary64 { bits: 0 }
        } else {
            Binary64 { bits: rounding::round_shifted(n as u128, 1074) }
        }
    }

    pub fn times(self, other: Self) -> (r: Self)
        ensures
            r == product(self, other),
    {
        let (sa, a) = self.sign_and_magnitude();
        let (sb, b) = other.sign_and_magnitude();
        let negative: bool = sa != sb;
        if a > rounding::INFINITY || b > rounding::INFINITY {
            return Binary64 { bits: NAN };
        }
        if a == rounding::INFINITY || b == rounding::INFINITY {
            if a == 0 || b == 0 {
                return Binary64 { bits: NAN };
            }
            return Self::assemble(negative, rounding::INFINITY);
        }
        let (ma, xa) = Self::parts(a);
        let (mb, xb) = Self::parts(b);
        proof {
            lemma_pow2_pos(1074);
            assert((ma * pow2(xa as nat)) * (mb * pow2(xb as nat)) == (ma * mb) * (pow2(xa as nat)
                * pow2(xb as nat))) by (nonlinear_arith);
            lemma_pow2_adds(xa as nat, xb as nat);
            assert(0 <= ma * mb < 0x20_0000_0000_0000 * 0x20_0000_0000_0000) by (nonlinear_arith)
                requires
                    0 <= ma < 0x20_0000_0000_0000,
                    0 <= mb < 0x20_0000_0000_0000,
            ;
            rounding::lemma_rounded_cancel((ma * mb) as nat, 1, (xa + xb) as nat, 1074);
        }
        let m: u128 = (ma as u128) * (mb as u128);
        if m == 0 {
            proof {
                lemma_rounded_zero(pow2(1074));
                lemma_mul_basics(pow2((xa + xb) as nat) as int);
            }
            return Self::assemble(negative, 0);
        }
        let k: i32 = (xa as i32) + (xb as i32) - 1074;
        Self::assemble(negative, rounding::round_shifted(m, k))
    }

    pub fn over(self, other: Self) -> (r: Self)
        ensures
            r == quotient(self, other),
    {
        let (sa, a) = self.sign_and_magnitude();
        let (sb, b) = other.sign_and_magnitude();
        let negative: bool = sa != sb;
        if a > rounding::INFINITY || b > rounding::INFINITY || (a == rounding::INFINITY && b
            == rounding::INFINITY) || (a == 0 && b == 0) {
            return Binary64 { bits: NAN };
        }
        if a == rounding::INFINITY || b == 0 {
            return Self::assemble(negative, rounding::INFINITY);
        }
        if b == rounding::INFINITY {
            return Self::assemble(negative, 0);
        }
        let (ma, xa) = Self::parts(a);
        let (mb, xb) = Self::parts(b);
        proof {
            lemma_pow2_pos(xb as nat);
            lemma_mul_strictly_positive(mb as int, pow2(xb as nat) as int);
        }
        if ma == 0 {
            proof {
                lemma_rounded_zero(rounding::units(b as nat));
                lemma_mul_basics(pow2(xa as nat) as int);
                lemma_mul_basics(one_in_units() as int);
            }
            return Self::assemble(negative, 0);
        }
        // Scale the dividend so that the whole part has at least 54 digits.
        let length: u32 = rounding::count_bits(ma as u128);
        proof {
            rounding::lemma_pow2_127();
            rounding::lemma_bit_length(ma as nat);
            if length > 53 {
                rounding::lemma_pow2_split(53, (length - 1) as nat);
            }
        }
        let up: u32 = 108 - length;
        let factor: u128 = rounding::power_of_two(up);
        proof {
            rounding::lemma_bit_length_shifted_up(ma as nat, up as nat);
            rounding::lemma_bit_length((ma * factor) as nat);
            rounding::lemma_pow2_split(109, 126);
            lemma_pow2_unfold(109);
        }
        let dividend: u128 = (ma as u128) * factor;
        let whole: u128 = dividend / (mb as u128);
        let rest: u128 = dividend % (mb as u128);
        let k: i32 = (xa as i32) + 1074 - (xb as i32) - (up as i32);
        proof {
            let top = (xa + 1074) as nat;
            let bottom = (xb + up) as nat;
            lemma_pow2_adds(xa as nat, 1074);
            lemma_pow2_adds(xb as nat, up as nat);
            let exact = rounding::units(a as nat) * one_in_units();
            assert(exact == ma * pow2(top)) by (nonlinear_arith)
                requires
                    exact == (ma * pow2(xa as nat)) * pow2(1074),
                    pow2(top) == pow2(xa as nat) * pow2(1074),
            ;
            rounding::lemma_rounded_scaled(exact, rounding::units(b as nat), factor as nat);
            assert(exact * factor == dividend * pow2(top)) by (nonlinear_arith)
                requires
                    exact == ma * pow2(top),
                    dividend == ma * factor,
            ;
            let divisor = rounding::units(b as nat);
            assert(divisor * factor == mb * pow2(bottom)) by (nonlinear_arith)
                requires
                    divisor == mb * pow2(xb as nat),
                    pow2(bottom) == pow2(xb as nat) * factor,
            ;
            rounding::lemma_rounded_cancel(dividend as nat, mb as nat, top, bottom);
            assert(top - bottom == k);
            lemma_div_nonincreasing(dividend as int, mb as int);
            // At least 54 digits: the dividend has 108, the divisor at most 53.
            lemma2_to64_rest();
            rounding::lemma_pow2_split(53, 107);
            assert(whole >= pow2(54)) by {
                lemma_fundamental_div_mod(dividend as int, mb as int);
                assert(whole >= pow2(54)) by (nonlinear_arith)
                    requires
                        dividend == mb * whole + rest,
                        rest < mb,
                        mb < pow2(53),
                        dividend >= pow2(53) * pow2(54),
                ;
            }
            rounding::lemma_bit_length(whole as nat);
            if rounding::bit_length(whole as nat) < 54 {
                rounding::lemma_pow2_split(rounding::bit_length(whole as nat), 54);
            }
        }
        if rest == 0 {
            proof {
                let scaled = rounding::shifted(dividend as nat, k as int);
                let by = rounding::shifted_by(k as int);
                lemma_fundamental_div_mod(dividend as int, mb as int);
                assert(dividend == whole * mb) by (nonlinear_arith)
                    requires
                        dividend == mb * whole,
                ;
                let exact = rounding::shifted(whole as nat, k as int);
                assert(scaled == exact * mb) by {
                    if k >= 0 {
                        let p = pow2(k as nat);
                        assert((whole * mb) * p == (whole * p) * mb) by (nonlinear_arith);
                    }
                }
                lemma_pow2_pos(if k >= 0 { 0 } else { (-k) as nat });
                lemma_mul_is_commutative(by as int, mb as int);
                rounding::lemma_rounded_scaled(exact, by, mb as nat);
            }
            Self::assemble(negative, rounding::round_shifted(whole, k))
        } else {
            proof {
                rounding::lemma_rounded_inexact(dividend as nat, mb as nat, k as int);
            }
            Self::assemble(negative, rounding::round_shifted(2 * whole + 1, k - 1))
        }
    }

    /// Rounded size of the sum or difference of two significands that are
    /// shifted by `xa >= xb`, and whether the difference is negative.
    fn combine(ma: u64, xa: u32, mb: u64, xb: u32, subtract: bool) -> (r: (bool, u64))
        requires
            xb <= xa <= 2045,
            ma < 0x20_0000_0000_0000,
            mb < 0x20_0000_0000_0000,
            xa > 0 ==> ma >= 0x10_0000_0000_0000,
        ensures
            ({
                let a = (ma * pow2(xa as nat)) as int;
                let b = (mb * pow2(xb as nat)) as int;
                let exact = if subtract {
                    a - b
                } else {
                    a + b
                };
                &&& r.0 == (exact < 0)
                &&& r.1 == rounding::rounded(vstd::math::abs(exact), 1)
            }),
            r.1 <= rounding::INFINITY,
    {
        let gap: u32 = xa - xb;
        let ghost pa = pow2(xa as nat);
        let ghost pb = pow2(xb as nat);
        proof {
            lemma_pow2_pos(xa as nat);
            lemma_pow2_pos(xb as nat);
            lemma_pow2_pos(gap as nat);
            lemma_pow2_adds(xb as nat, gap as nat);
            rounding::lemma_pow2_127();
        }
        if gap <= 70 {
            let factor: u128 = rounding::power_of_two(gap);
            proof {
                rounding::lemma_pow2_split(gap as nat, 70);
                lemma_pow2_adds(53, 70);
                rounding::lemma_pow2_split(123, 126);
                lemma2_to64();
                assert(pow2(126) == pow2(123) * 8) by {
                    lemma_pow2_adds(123, 3);
                }
                assert(ma * factor <= pow2(53) * pow2(70)) by (nonlinear_arith)
                    requires
                        ma <= pow2(53),
                        factor <= pow2(70),
                ;
                rounding::lemma_pow2_split(53, 123);
            }
            let a: u128 = (ma as u128) * factor;
            let b: u128 = mb as u128;
            let below: bool = subtract && a < b;
            let size: u128 = if !subtract {
                a + b
            } else if a < b {
                b - a
            } else {
                a - b
            };
            proof {
                assert(ma * pa == a * pb) by (nonlinear_arith)
                    requires
                        a == ma * factor,
                        pa == pb * factor,
                ;
                let exact = if subtract {
                    ma * pa - mb * pb
                } else {
                    ma * pa + mb * pb
                };
                assert(vstd::math::abs(exact) == size * pb && (exact < 0) == below)
                    by (nonlinear_arith)
                    requires
                        ma * pa == a * pb,
                        b == mb,
                        pb > 0,
                        exact == (if subtract {
                            ma * pa - mb * pb
                        } else {
                            ma * pa + mb * pb
                        }),
                        size == (if !subtract {
                            a + b
                        } else if a < b {
                            b - a
                        } else {
                            a - b
                        }),
                        below == (subtract && a < b),
                ;
            }
            if size == 0 {
                proof {
                    lemma_rounded_zero(1);
                }
                (below, 0)
            } else {
                (below, rounding::round_shifted(size, xb as i32))
            }
        } else if mb == 0 {
            proof {
                assert(mb * pb == 0) by (nonlinear_arith)
                    requires
                        mb == 0,
                ;
                assert(ma * pa > 0) by (nonlinear_arith)
                    requires
                        ma > 0,
                        pa > 0,
                ;
            }
            (false, rounding::round_shifted(ma as u128, xa as i32))
        } else {
            let whole: u128 = if subtract {
                (ma as u128) * 1024 - 1
            } else {
                (ma as u128) * 1024
            };
            proof {
                let step = pow2((gap - 10) as nat);
                lemma_pow2_pos((gap - 10) as nat);
                lemma2_to64();
                lemma_pow2_adds((gap - 10) as nat, 10);
                rounding::lemma_pow2_split(53, (gap - 10) as nat);
                let pg = pow2(gap as nat);
                let inner = if subtract {
                    ma * pg - mb
                } else {
                    ma * pg + mb
                };
                let rest = if subtract {
                    step - mb
                } else {
                    mb as int
                };
                assert(inner == whole * step + rest) by (nonlinear_arith)
                    requires
                        pg == step * 1024,
                        inner == (if subtract {
                            ma * pg - mb
                        } else {
                            ma * pg + mb
                        }),
                        rest == (if subtract {
                            step - mb
                        } else {
                            mb as int
                        }),
                        whole == (if subtract {
                            ma * 1024 - 1
                        } else {
                            ma * 1024
                        }),
                ;
                lemma_fundamental_div_mod_converse(inner, step as int, whole as int, rest);
                lemma2_to64_rest();
                rounding::lemma_bit_length(whole as nat);
                if rounding::bit_length(whole as nat) < 54 {
                    rounding::lemma_pow2_split(rounding::bit_length(whole as nat), 54);
                }
                rounding::lemma_rounded_inexact(inner as nat, step, xa - 10);
                let exact = if subtract {
                    ma * pa - mb * pb
                } else {
                    ma * pa + mb * pb
                };
                assert(exact == inner * pb) by (nonlinear_arith)
                    requires
                        pa == pb * pg,
                        inner == (if subtract {
                            ma * pg - mb
                        } else {
                            ma * pg + mb
                        }),
                        exact == (if subtract {
                            ma * pa - mb * pb
                        } else {
                            ma * pa + mb * pb
                        }),
                ;
                assert(inner >= 0) by (nonlinear_arith)
                    requires
                        inner == whole * step + rest,
                        whole >= 0,
                        step >= 0,
                        rest >= 0,
                ;
                assert(exact >= 0) by (nonlinear_arith)
                    requires
                        exact == inner * pb,
                        inner >= 0,
                        pb > 0,
                ;
                lemma_pow2_adds(xb as nat, (gap - 10) as nat);
                assert(xb as nat + (gap - 10) as nat == (xa - 10) as nat);
                rounding::lemma_rounded_scaled(exact as nat, 1, step);
                assert(exact * step == inner * pow2((xa - 10) as nat)) by (nonlinear_arith)
                    requires
                        exact == inner * pb,
                        pow2((xa - 10) as nat) == pb * step,
                ;
            }
            (false, rounding::round_shifted(2 * whole + 1, (xa as i32) - 11))
        }
    }

    pub fn plus(self, other: Self) -> (r: Self)
        ensures
            r == sum(self, other),
    {
        let (sa, a) = self.sign_and_magnitude();
        let (sb, b) = other.sign_and_magnitude();
        if a > rounding::INFINITY || b > rounding::INFINITY {
            return Binary64 { bits: NAN };
        }
        if a == rounding::INFINITY {
            if b == rounding::INFINITY && sa != sb {
                return Binary64 { bits: NAN };
            }
            return self;
        }
        if b == rounding::INFINITY {
            return other;
        }
        let (ma, xa) = Self::parts(a);
        let (mb, xb) = Self::parts(b);
        // The size is that of the operand with the larger shift, with the other
        // one added or taken away.
        let (first_negative, flipped, size) = if xa >= xb {
            let (flipped, size) = Self::combine(ma, xa, mb, xb, sa != sb);
            (sa, flipped, size)
        } else {
            let (flipped, size) = Self::combine(mb, xb, ma, xa, sa != sb);
            (sb, flipped, size)
        };
        let exact_zero: bool = size == 0;
        proof {
            let exact = self.value() + other.value();
            lemma_rounded_positive(vstd::math::abs(exact));
        }
        let negative: bool = if exact_zero {
            sa && sb
        } else {
            first_negative != flipped
        };
        Self::assemble(negative, size)
    }

    pub fn minus(self, other: Self) -> (r: Self)
        ensures
            r == difference(self, other),
    {
        let (sb, b) = other.sign_and_magnitude();
        self.plus(Self::assemble(!sb, b))
    }

    pub fn is_less(self, other: Self) -> (r: bool)
        ensures
            r == less(self, other),
    {
        let (sa, a) = self.sign_and_magnitude();
        let (sb, b) = other.sign_and_magnitude();
        if a > rounding::INFINITY || b > rounding::INFINITY {
            return false;
        }
        proof {
            lemma_units_order(a as nat, b as nat);
            lemma_units_order(a as nat, 0);
            lemma_units_order(b as nat, 0);
            assert(rounding::units(0) == 0);
        }
        if sa {
            if sb {
                b < a
            } else {
                a > 0 || b > 0
            }
        } else {
            !sb && a < b
        }
    }

    pub fn is_at_most(self, other: Self) -> (r: bool)
        ensures
            r == at_most(self, other),
    {
        let (_, a) = self.sign_and_magnitude();
        let (_, b) = other.sign_and_magnitude();
        if a > rounding::INFINITY || b > rounding::INFINITY {
            false
        } else {
            !other.is_less(self)
        }
    }

    pub fn min(self, other: Self) -> (r: Self)
        ensures
            r == lesser(self, other),
    {
        let (_, a) = self.sign_and_magnitude();
        let (_, b) = other.sign_and_magnitude();
        if a > rounding::INFINITY {
            other
        } else if b > rounding::INFINITY || self.is_at_most(other) {
            self
        } else {
            other
        }
    }

    pub fn clamp(self, low: Self, high: Self) -> (r: Self)
        requires
            at_most(low, high),
        ensures
            r == clamped(self, low, high),
    {
        if self.is_less(low) {
            low
        } else if high.is_less(self) {
            high
        } else {
            self
        }
    }

    pub fn to_u64(self) -> (r: u64)
        ensures
            r == truncated(self),
    {
        let (negative, a) = self.sign_and_magnitude();
        if negative || a > rounding::INFINITY {
            return 0;
        }
        let (m, x) = Self::parts(a);
        Self::whole_part(m, x)
    }

    /// `m * 2^x` units as a whole number, cut off and capped.
    fn whole_part(m: u64, x: u32) -> (r: u64)
        requires
            m < 0x20_0000_0000_0000,
            x > 0 ==> m >= 0x10_0000_0000_0000,
            x <= 2046,
        ensures
            r == capped((m * pow2(x as nat)) as nat / one_in_units()),
    {
        proof {
            lemma_pow2_pos(1074);
            rounding::lemma_pow2_127();
            lemma2_to64();
        }
        if x >= 1074 {
            let up: u32 = x - 1074;
            proof {
                lemma_pow2_adds(1074, up as nat);
                let p = pow2(up as nat);
                assert((m * pow2(x as nat)) == (m * p) * one_in_units()) by (nonlinear_arith)
                    requires
                        pow2(x as nat) == one_in_units() * p,
                ;
                lemma_div_by_multiple((m * p) as int, one_in_units() as int);
            }
            if up > 11 {
                proof {
                    rounding::lemma_pow2_split(12, up as nat);
                    let p = pow2(up as nat);
                    assert(m * p >= 0x10_0000_0000_0000 * 4096) by (nonlinear_arith)
                        requires
                            m >= 0x10_0000_0000_0000,
                            p >= 4096,
                    ;
                }
                u64::MAX
            } else {
                let factor: u128 = rounding::power_of_two(up);
                proof {
                    rounding::lemma_pow2_split(up as nat, 11);
                    assert(m * factor <= 0x20_0000_0000_0000 * 2048) by (nonlinear_arith)
                        requires
                            m <= 0x20_0000_0000_0000,
                            factor <= 2048,
                    ;
                }
                let whole: u128 = (m as u128) * factor;
                if whole > u64::MAX as u128 {
                    u64::MAX
                } else {
                    whole as u64
                }
            }
        } else {
            let down: u32 = 1074 - x;
            proof {
                lemma_pow2_adds(x as nat, down as nat);
                lemma_pow2_pos(x as nat);
                lemma_pow2_pos(down as nat);
                lemma_div_multiples_vanish_quotient(
                    pow2(x as nat) as int,
                    m as int,
                    pow2(down as nat) as int,
                );
                lemma_mul_is_commutative(pow2(x as nat) as int, m as int);
            }
            if down >= 53 {
                proof {
                    rounding::lemma_pow2_split(53, down as nat);
                    lemma_basic_div(m as int, pow2(down as nat) as int);
                }
                0
            } else {
                let divisor: u128 = rounding::power_of_two(down);
                proof {
                    lemma_div_nonincreasing(m as int, divisor as int);
                }
                ((m as u128) / divisor) as u64
            }
        }
    }

    pub fn to_nearest_u64(self) -> (r: u64)
        ensures
            r == nearest_whole(self),
    {
        let (negative, a) = self.sign_and_magnitude();
        if negative || a > rounding::INFINITY {
            return 0;
        }
        let (m, x) = Self::parts(a);
        proof {
            lemma_pow2_pos(1074);
            rounding::lemma_pow2_127();
        }
        if x >= 1074 {
            // Whole already.
            proof {
                let up = (x - 1074) as nat;
                let one = one_in_units();
                lemma_pow2_adds(1074, up);
                let whole = (m * pow2(up)) as nat;
                assert(m * pow2(x as nat) == whole * one) by (nonlinear_arith)
                    requires
                        pow2(x as nat) == one * pow2(up),
                        whole == m * pow2(up),
                ;
                lemma_div_by_multiple(whole as int, one as int);
                assert(2 * (whole * one) + one == whole * (2 * one) + one) by (nonlinear_arith);
                lemma_fundamental_div_mod_converse(
                    (2 * (whole * one) + one) as int,
                    2 * one as int,
                    whole as int,
                    one as int,
                );
            }
            Self::whole_part(m, x)
        } else {
            let down: u32 = 1074 - x;
            let ghost px = pow2(x as nat);
            let ghost pd = pow2(down as nat);
            proof {
                lemma_pow2_adds(x as nat, down as nat);
                lemma_pow2_pos(x as nat);
                lemma_pow2_pos(down as nat);
                lemma_div_multiples_vanish_quotient(
                    px as int,
                    2 * m + pd,
                    2 * pd as int,
                );
                assert(px * (2 * m + pd) == 2 * (m * px) + px * pd) by (nonlinear_arith);
                assert(px * (2 * pd) == 2 * (px * pd)) by (nonlinear_arith);
            }
            if down >= 55 {
                proof {
                    lemma_pow2_adds(53, 2);
                    lemma2_to64();
                    rounding::lemma_pow2_split(55, down as nat);
                    lemma_basic_div(2 * m + pd, 2 * pd as int);
                }
                0
            } else {
                let half: u128 = rounding::power_of_two(down);
                proof {
                    lemma_pow2_adds(53, 1);
                    lemma2_to64();
                    rounding::lemma_pow2_split(down as nat, 54);
                    lemma_div_nonincreasing(2 * m + half, 2 * half as int);
                }
                ((2 * (m as u128) + half) / (2 * half)) as u64
            }
        }
    }
}

/// The order of the numbers is that of the magnitudes.
pub proof fn lemma_units_order(a: nat, b: nat)
    ensures
        rounding::units(a) < rounding::units(b) <==> a < b,
        rounding::units(a) == rounding::units(b) <==> a == b,
{
    if a < b {
        lemma_units_increase(a, b);
    } else if b < a {
        lemma_units_increase(b, a);
    }
}

/// A whole number of units is rounded to zero only where it is zero.
proof fn lemma_rounded_positive(n: nat)
    ensures
        rounding::rounded(n, 1) == 0 <==> n == 0,
{
    lemma_rounded_zero(1);
    if n > 0 {
        let e = rounding::spacing(n, 1);
        if e == 0 {
            lemma2_to64();
            rounding::lemma_nearest_even_exact(n, 1);
            assert(1 * pow2(e) == 1);
        }
    }
}

/// A significand of 53 digits and a spacing make up a magnitude.
pub proof fn lemma_units_assembled(e: nat, significand: nat)
    requires
        significand <= 2 * rounding::EXPONENT_STEP,
        e > 0 ==> significand >= rounding::EXPONENT_STEP,
    ensures
        rounding::units(e * rounding::EXPONENT_STEP as nat + significand) == significand * pow2(e),
{
    let step = rounding::EXPONENT_STEP as nat;
    let magnitude = e * step + significand;
    lemma2_to64();
    if significand < step {
        assert(magnitude / step == 0 && magnitude % step == significand);
    } else if significand < 2 * step {
        let fraction = (significand - step) as nat;
        lemma_fundamental_div_mod_converse(
            magnitude as int,
            step as int,
            (e + 1) as int,
            fraction as int,
        );
    } else {
        lemma_fundamental_div_mod_converse(magnitude as int, step as int, (e + 2) as int, 0);
        lemma_pow2_unfold(e + 1);
        let p = pow2(e);
        assert(step * (2 * p) == (2 * step) * p) by (nonlinear_arith);
    }
}

/// No finite magnitude is nearer to `n / d` than the one it is rounded to, and
/// where another one is as near, the one it is rounded to is even.
pub proof fn rounding_is_to_nearest(n: nat, d: nat, other: nat)
    requires
        d > 0,
        rounding::rounded(n, d) < rounding::INFINITY,
        other < rounding::INFINITY,
    ensures
        ({
            let chosen = rounding::rounded(n, d);
            let distance = vstd::math::abs(rounding::units(chosen) * d - n);
            let other_distance = vstd::math::abs(rounding::units(other) * d - n);
            &&& distance <= other_distance
            &&& distance == other_distance && other != chosen ==> chosen % 2 == 0
        }),
{
    let chosen = rounding::rounded(n, d);
    let step = rounding::EXPONENT_STEP as nat;
    let e = rounding::spacing(n, d);
    let p = pow2(e);
    lemma_pow2_pos(e);
    lemma_mul_strictly_positive(d as int, p as int);
    let below = n / (d * p);
    let rest = n % (d * p);
    lemma_fundamental_div_mod(n as int, (d * p) as int);
    rounding::lemma_floor_significand(n, d);
    lemma_units_assembled(e, below);
    lemma_units_assembled(e, below + 1);
    let low = e * step + below;
    let high = e * step + below + 1;
    let y = rounding::units(other);
    // The two magnitudes around the quotient are next to each other.
    if other <= low {
        lemma_units_order(other, low);
    } else {
        lemma_units_order(high, other);
    }
    let low_units = below * p;
    let high_units = (below + 1) * p;
    assert(n - low_units * d == rest && high_units * d - n == d * p - rest) by (nonlinear_arith)
        requires
            n == (d * p) * below + rest,
            low_units == below * p,
            high_units == (below + 1) * p,
    ;
    if other <= low {
        assert(y * d <= low_units * d) by (nonlinear_arith)
            requires
                y <= low_units,
                d > 0,
        ;
        if other < low {
            assert(y * d < low_units * d) by (nonlinear_arith)
                requires
                    y < low_units,
                    d > 0,
            ;
        }
    } else {
        assert(y * d >= high_units * d) by (nonlinear_arith)
            requires
                y >= high_units,
                d > 0,
        ;
        if other > high {
            assert(y * d > high_units * d) by (nonlinear_arith)
                requires
                    y > high_units,
                    d > 0,
            ;
        }
    }
    assert(low % 2 == below % 2) by {
        assert(low == 2 * (e * (step / 2)) + below) by (nonlinear_arith)
            requires
                low == e * step + below,
                step == 2 * (step / 2),
        ;
    }
}

} // verus!
