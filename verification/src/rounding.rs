//! Rounding of exact quotients to the magnitudes that a binary64 word can hold.
//!
//! A magnitude is a binary64 word without its sign bit. Every finite one stands
//! for a whole number of units, a unit being two to the minus 1074, the smallest
//! positive number of the format. Exact results are quotients of natural
//! numbers, in the same units, and `rounded` maps each to its magnitude: to the
//! nearest one, and to the even one of two that are equally near.

use vstd::arithmetic::div_mod::*;
use vstd::arithmetic::mul::*;
use vstd::arithmetic::power2::*;
use vstd::prelude::*;

verus! {

/// One step of the exponent field: two to the 52.
pub const EXPONENT_STEP: u64 = 0x10_0000_0000_0000;

/// The magnitude of infinity.
pub const INFINITY: u64 = 0x7FF0_0000_0000_0000;

/// Number of binary digits of `n`.
pub open spec fn bit_length(n: nat) -> nat
    decreases n,
{
    if n == 0 {
        0
    } else {
        1 + bit_length(n / 2)
    }
}

/// The whole number nearest to `n / d`, the even one where two are equally near.
pub open spec fn nearest_even(n: nat, d: nat) -> nat {
    let below = n / d;
    let rest = n % d;
    if 2 * rest < d || (2 * rest == d && below % 2 == 0) {
        below
    } else {
        below + 1
    }
}

/// Logarithm of the spacing of the magnitudes around `n / d`: a significand
/// has 53 binary digits.
pub open spec fn spacing(n: nat, d: nat) -> nat {
    let length = bit_length(n / d);
    if length <= 53 {
        0
    } else {
        (length - 53) as nat
    }
}

/// The magnitude of `n / d` units, rounded to nearest, ties to even.
pub open spec fn rounded(n: nat, d: nat) -> nat {
    let e = spacing(n, d);
    let magnitude = e * EXPONENT_STEP as nat + nearest_even(n, d * pow2(e));
    if magnitude >= INFINITY {
        INFINITY as nat
    } else {
        magnitude
    }
}

/// How many units a finite magnitude stands for.
pub open spec fn units(magnitude: nat) -> nat {
    let exponent = magnitude / (EXPONENT_STEP as nat);
    let fraction = magnitude % (EXPONENT_STEP as nat);
    if exponent == 0 {
        fraction
    } else {
        (EXPONENT_STEP as nat + fraction) * pow2((exponent - 1) as nat)
    }
}

pub proof fn lemma_pow2_split(a: nat, b: nat)
    requires
        a <= b,
    ensures
        pow2(b) == pow2(a) * pow2((b - a) as nat),
        pow2(a) <= pow2(b),
        pow2(a) > 0,
{
    lemma_pow2_adds(a, (b - a) as nat);
    lemma_pow2_pos(a);
    lemma_pow2_pos((b - a) as nat);
    lemma_mul_increases(pow2((b - a) as nat) as int, pow2(a) as int);
}

pub proof fn lemma_bit_length(n: nat)
    ensures
        n < pow2(bit_length(n)),
        n > 0 ==> bit_length(n) > 0 && pow2((bit_length(n) - 1) as nat) <= n,
    decreases n,
{
    lemma2_to64();
    if n > 0 {
        lemma_bit_length(n / 2);
        lemma_pow2_unfold(bit_length(n));
        if n / 2 > 0 {
            lemma_pow2_unfold((bit_length(n) - 1) as nat);
        }
    }
}

/// The bounds of `lemma_bit_length` determine the length.
pub proof fn lemma_bit_length_unique(n: nat, length: nat)
    requires
        n < pow2(length),
        length > 0 ==> pow2((length - 1) as nat) <= n,
    ensures
        bit_length(n) == length,
{
    lemma_bit_length(n);
    let actual = bit_length(n);
    lemma2_to64();
    if actual < length {
        lemma_pow2_split(actual, (length - 1) as nat);
    } else if actual > length {
        lemma_pow2_split(length, (actual - 1) as nat);
    }
}

pub proof fn lemma_bit_length_shifted_up(n: nat, k: nat)
    requires
        n > 0,
    ensures
        bit_length(n * pow2(k)) == bit_length(n) + k,
{
    let length = bit_length(n);
    lemma_bit_length(n);
    lemma_pow2_adds(length, k);
    lemma_pow2_adds((length - 1) as nat, k);
    lemma_pow2_pos(k);
    assert(n * pow2(k) < pow2(length) * pow2(k)) by (nonlinear_arith)
        requires
            n < pow2(length),
            pow2(k) > 0,
    ;
    assert(pow2((length - 1) as nat) * pow2(k) <= n * pow2(k)) by (nonlinear_arith)
        requires
            pow2((length - 1) as nat) <= n,
            pow2(k) > 0,
    ;
    assert((length - 1) as nat + k == (length + k - 1) as nat);
    lemma_bit_length_unique(n * pow2(k), length + k);
}

pub proof fn lemma_bit_length_shifted_down(n: nat, k: nat)
    ensures
        bit_length(n / pow2(k)) == (if bit_length(n) > k {
            (bit_length(n) - k) as nat
        } else {
            0
        }),
{
    let length = bit_length(n);
    lemma_bit_length(n);
    lemma_pow2_pos(k);
    if length <= k {
        lemma_pow2_split(length, k);
        lemma_basic_div(n as int, pow2(k) as int);
    } else {
        let rest = (length - k) as nat;
        lemma_pow2_split(k, length);
        lemma_pow2_split(k, (length - 1) as nat);
        assert((length - 1 - k) as nat == (rest - 1) as nat);
        let q = n / pow2(k);
        assert(q < pow2(rest)) by (nonlinear_arith)
            requires
                n < pow2(k) * pow2(rest),
                q == n / pow2(k),
                pow2(k) > 0,
        ;
        assert(pow2((rest - 1) as nat) <= q) by (nonlinear_arith)
            requires
                pow2(k) * pow2((rest - 1) as nat) <= n,
                q == n / pow2(k),
                pow2(k) > 0,
        ;
        lemma_bit_length_unique(q, rest);
    }
}

/// A common factor of both terms does not matter.
pub proof fn lemma_nearest_even_scaled(n: nat, d: nat, c: nat)
    requires
        d > 0,
        c > 0,
    ensures
        nearest_even(n * c, d * c) == nearest_even(n, d),
{
    let below = n / d;
    let rest = n % d;
    lemma_fundamental_div_mod(n as int, d as int);
    assert(n * c == below * (d * c) + rest * c) by (nonlinear_arith)
        requires
            n == d * below + rest,
    ;
    assert(0 <= rest * c < d * c) by (nonlinear_arith)
        requires
            0 <= rest < d,
            c > 0,
    ;
    lemma_fundamental_div_mod_converse((n * c) as int, (d * c) as int, below as int, (rest * c) as int);
    assert((2 * rest < d <==> 2 * (rest * c) < d * c) && (2 * rest == d <==> 2 * (rest * c) == d
        * c)) by (nonlinear_arith)
        requires
            c > 0,
    ;
}

pub proof fn lemma_nearest_even_exact(a: nat, d: nat)
    requires
        d > 0,
    ensures
        nearest_even(a * d, d) == a,
{
    lemma_fundamental_div_mod_converse((a * d) as int, d as int, a as int, 0);
}

/// Numerator of `m * 2^k`, `k` of either sign.
pub open spec fn shifted(m: nat, k: int) -> nat {
    if k >= 0 {
        m * pow2(k as nat)
    } else {
        m
    }
}

/// Denominator of `m * 2^k`, `k` of either sign.
pub open spec fn shifted_by(k: int) -> nat {
    if k >= 0 {
        1
    } else {
        pow2((-k) as nat)
    }
}

/// Spacing of the magnitudes around a number of `length` binary digits times `2^k`.
pub open spec fn spacing_at(length: nat, k: int) -> nat {
    if length + k > 53 {
        (length + k - 53) as nat
    } else {
        0
    }
}

/// Rounding `m * 2^k` units needs only `m` and a shift.
pub proof fn lemma_rounded_shifted(m: nat, k: int)
    requires
        m > 0,
    ensures
        ({
            let e = spacing_at(bit_length(m), k);
            let d = shifted_by(k) * pow2(e);
            &&& spacing(shifted(m, k), shifted_by(k)) == e
            &&& e >= k ==> nearest_even(shifted(m, k), d) == nearest_even(m, pow2((e - k) as nat))
            &&& e < k ==> nearest_even(shifted(m, k), d) == m * pow2((k - e) as nat)
        }),
{
    let n = shifted(m, k);
    let d = shifted_by(k);
    let wide = bit_length(m) + k - 53;
    let e = if wide > 0 { wide as nat } else { 0nat };
    lemma_pow2_pos(e);
    if k >= 0 {
        lemma_bit_length_shifted_up(m, k as nat);
        lemma_div_basics(n as int);
        assert(n / d == n);
        if e >= k {
            lemma_pow2_split(k as nat, e);
            lemma_pow2_pos((e - k) as nat);
            lemma_nearest_even_scaled(m, pow2((e - k) as nat), pow2(k as nat));
            lemma_mul_is_commutative(pow2(k as nat) as int, pow2((e - k) as nat) as int);
            assert(d * pow2(e) == pow2((e - k) as nat) * pow2(k as nat));
        } else {
            lemma_pow2_split(e, k as nat);
            lemma_mul_is_associative(m as int, pow2((k - e) as nat) as int, pow2(e) as int);
            lemma_mul_is_commutative(pow2((k - e) as nat) as int, pow2(e) as int);
            lemma_nearest_even_exact(m * pow2((k - e) as nat), pow2(e));
            assert(n == (m * pow2((k - e) as nat)) * pow2(e));
            assert(d * pow2(e) == pow2(e));
        }
    } else {
        lemma_bit_length_shifted_down(m, (-k) as nat);
        lemma_pow2_adds((-k) as nat, e);
        assert((-k) as nat + e == (e - k) as nat);
    }
}

/// The magnitude of `m * 2^k` units where `m` has `length` digits, more than 53.
pub proof fn lemma_rounded_long(m: nat, k: nat, length: nat)
    requires
        53 < length <= 63,
        pow2((length - 1) as nat) <= m < pow2(length),
        k + length < 2000,
    ensures
        rounded(m * pow2(k), 1) == (k + length - 53) * EXPONENT_STEP + nearest_even(
            m,
            pow2((length - 53) as nat),
        ),
{
    lemma_bit_length_unique(m, length);
    lemma_rounded_shifted(m, k as int);
    let d = pow2((length - 53) as nat);
    lemma_pow2_pos((length - 53) as nat);
    lemma_pow2_split((length - 53) as nat, length);
    assert((length - (length - 53)) as nat == 53);
    lemma2_to64_rest();
    assert(m / d < pow2(53)) by (nonlinear_arith)
        requires
            m < d * pow2(53),
            d > 0,
    ;
}

/// A common factor of both terms does not matter to `rounded` either.
pub proof fn lemma_rounded_scaled(n: nat, d: nat, c: nat)
    requires
        d > 0,
        c > 0,
    ensures
        rounded(n * c, d * c) == rounded(n, d),
{
    lemma_div_multiples_vanish_quotient(c as int, n as int, d as int);
    lemma_mul_is_commutative(c as int, n as int);
    lemma_mul_is_commutative(c as int, d as int);
    let e = spacing(n, d);
    lemma_pow2_pos(e);
    lemma_mul_strictly_positive(d as int, pow2(e) as int);
    lemma_nearest_even_scaled(n, d * pow2(e), c);
    assert((d * c) * pow2(e) == (d * pow2(e)) * c) by (nonlinear_arith);
}

/// Powers of two on both sides of the quotient cancel.
pub proof fn lemma_rounded_cancel(m: nat, w: nat, a: nat, b: nat)
    requires
        w > 0,
    ensures
        rounded(m * pow2(a), w * pow2(b)) == rounded(shifted(m, a - b), w * shifted_by(a - b)),
{
    let c = if a >= b { b } else { a };
    lemma_pow2_pos(c);
    if a >= b {
        lemma_pow2_split(b, a);
        assert(m * pow2(a) == (m * pow2((a - b) as nat)) * pow2(b)) by (nonlinear_arith)
            requires
                pow2(a) == pow2(b) * pow2((a - b) as nat),
        ;
        assert(w * shifted_by(a - b) == w);
        lemma_rounded_scaled(m * pow2((a - b) as nat), w, pow2(b));
    } else {
        lemma_pow2_split(a, b);
        lemma_pow2_pos((b - a) as nat);
        assert(w * pow2(b) == (w * pow2((b - a) as nat)) * pow2(a)) by (nonlinear_arith)
            requires
                pow2(b) == pow2(a) * pow2((b - a) as nat),
        ;
        lemma_mul_strictly_positive(w as int, pow2((b - a) as nat) as int);
        lemma_rounded_scaled(m, w * pow2((b - a) as nat), pow2(a));
    }
}

/// Where `m / w` is no whole number, only its whole part decides how
/// `m / (w * 2^g)` is rounded: there is no tie.
proof fn lemma_nearest_even_inexact(m: nat, w: nat, g: nat)
    requires
        w > 0,
        m % w != 0,
        g >= 1,
    ensures
        ({
            let whole = m / w;
            let half = pow2((g - 1) as nat);
            nearest_even(m, w * pow2(g)) == (whole / pow2(g)) + (if whole % pow2(g) >= half {
                1nat
            } else {
                0nat
            })
        }),
{
    let whole = m / w;
    let s = m % w;
    let p = pow2(g);
    let half = pow2((g - 1) as nat);
    let f = whole / p;
    let t = whole % p;
    lemma_pow2_unfold(g);
    lemma_pow2_pos(g);
    lemma_fundamental_div_mod(m as int, w as int);
    lemma_fundamental_div_mod(whole as int, p as int);
    assert(m == f * (w * p) + (w * t + s)) by (nonlinear_arith)
        requires
            m == w * whole + s,
            whole == p * f + t,
    ;
    assert(0 <= w * t + s < w * p) by (nonlinear_arith)
        requires
            0 <= s < w,
            0 <= t < p,
    ;
    lemma_fundamental_div_mod_converse(m as int, (w * p) as int, f as int, (w * t + s) as int);
    if t >= half {
        assert(2 * (w * t + s) > w * p) by (nonlinear_arith)
            requires
                0 < s,
                t >= half,
                p == 2 * half,
                w > 0,
        ;
    } else {
        assert(2 * (w * t + s) < w * p) by (nonlinear_arith)
            requires
                s < w,
                t + 1 <= half,
                p == 2 * half,
                w > 0,
        ;
    }
}

/// A quotient that does not come out even may be rounded by its whole part,
/// of at least 54 binary digits, with one more digit that stands for the rest.
pub proof fn lemma_rounded_inexact(m: nat, w: nat, k: int)
    requires
        w > 0,
        m % w != 0,
        bit_length(m / w) >= 54,
    ensures
        rounded(shifted(m, k), w * shifted_by(k)) == rounded(
            shifted(2 * (m / w) + 1, k - 1),
            shifted_by(k - 1),
        ),
{
    let q = m / w;
    let length = bit_length(q);
    let e = spacing_at(length, k);
    let g = (e - k) as nat;
    let odd = 2 * q + 1;
    // Spacing around the exact quotient.
    lemma_pow2_pos(g);
    lemma_pow2_pos(e);
    if k >= 0 {
        let p = pow2(k as nat);
        lemma_pow2_pos(k as nat);
        let whole = (m * p) / w;
        lemma_fundamental_div_mod(m as int, w as int);
        lemma_fundamental_div_mod((m * p) as int, w as int);
        let rest = (m * p) % w;
        assert(q * p <= whole < (q + 1) * p) by (nonlinear_arith)
            requires
                m == w * q + m % w,
                0 <= m % w < w,
                m * p == w * whole + rest,
                0 <= rest < w,
                w > 0,
                p > 0,
        ;
        lemma_bit_length(q);
        lemma_pow2_adds(length, k as nat);
        lemma_pow2_adds((length - 1) as nat, k as nat);
        assert((length - 1) as nat + k as nat == (length + k - 1) as nat);
        assert((q + 1) * p <= pow2(length) * p) by (nonlinear_arith)
            requires
                q + 1 <= pow2(length),
                p > 0,
        ;
        assert(pow2((length - 1) as nat) * p <= q * p) by (nonlinear_arith)
            requires
                pow2((length - 1) as nat) <= q,
                p > 0,
        ;
        lemma_bit_length_unique(whole, (length + k) as nat);
        lemma_pow2_split(k as nat, e);
        lemma_mul_strictly_positive(w as int, pow2(g) as int);
        lemma_nearest_even_scaled(m, w * pow2(g), p);
        assert((w * pow2(g)) * p == (w * shifted_by(k)) * pow2(e)) by (nonlinear_arith)
            requires
                pow2(e) == p * pow2(g),
                shifted_by(k) == 1,
        ;
    } else {
        let j = (-k) as nat;
        lemma_pow2_pos(j);
        lemma_div_denominator(m as int, w as int, pow2(j) as int);
        lemma_bit_length_shifted_down(q, j);
        lemma_pow2_adds(j, e);
        assert(j + e == g);
        assert((w * pow2(j)) * pow2(e) == w * pow2(g)) by (nonlinear_arith)
            requires
                pow2(g) == pow2(j) * pow2(e),
        ;
    }
    lemma_nearest_even_inexact(m, w, g);
    // The same for the whole part with its extra digit.
    assert(bit_length(odd) == length + 1);
    lemma_rounded_shifted(odd, k - 1);
    lemma_pow2_unfold(g + 1);
    lemma_nearest_even_inexact(odd, 2, g);
    assert(odd / 2 == q);
    assert((e - (k - 1)) as nat == g + 1);
}

/// A larger quotient has a nearest whole number that is no smaller.
proof fn lemma_nearest_even_monotone(n: nat, d: nat, m: nat, c: nat)
    requires
        d > 0,
        c > 0,
        n * c <= m * d,
    ensures
        nearest_even(n, d) <= nearest_even(m, c),
{
    let f = n / d;
    let r = n % d;
    let g = m / c;
    let s = m % c;
    lemma_fundamental_div_mod(n as int, d as int);
    lemma_fundamental_div_mod(m as int, c as int);
    if f > g {
        assert(n * c > m * d) by (nonlinear_arith)
            requires
                n == d * f + r,
                m == c * g + s,
                f >= g + 1,
                r >= 0,
                s < c,
                d > 0,
                c > 0,
        ;
    }
    if f == g {
        assert(r * c <= s * d) by (nonlinear_arith)
            requires
                n == d * f + r,
                m == c * f + s,
                n * c <= m * d,
        ;
        if 2 * r > d {
            assert(2 * s > c) by (nonlinear_arith)
                requires
                    2 * r > d,
                    r * c <= s * d,
                    d > 0,
                    c > 0,
            ;
        }
        if 2 * r == d {
            assert(2 * s >= c) by (nonlinear_arith)
                requires
                    2 * r == d,
                    r * c <= s * d,
                    d > 0,
                    c > 0,
            ;
        }
    }
}

/// Rounding keeps the order.
pub proof fn lemma_rounded_monotone(n: nat, d: nat, m: nat, c: nat)
    requires
        d > 0,
        c > 0,
        n * c <= m * d,
    ensures
        rounded(n, d) <= rounded(m, c),
{
    let p = n / d;
    let q = m / c;
    assert(p <= q) by {
        lemma_fundamental_div_mod(n as int, d as int);
        lemma_fundamental_div_mod(m as int, c as int);
        if p > q {
            let r = n % d;
            let s = m % c;
            assert(n * c > m * d) by (nonlinear_arith)
                requires
                    n == d * p + r,
                    m == c * q + s,
                    p >= q + 1,
                    r >= 0,
                    s < c,
                    d > 0,
                    c > 0,
            ;
        }
    }
    lemma_bit_length(p);
    lemma_bit_length(q);
    if bit_length(p) > bit_length(q) {
        lemma_pow2_split(bit_length(q), (bit_length(p) - 1) as nat);
    }
    let e = spacing(n, d);
    let g = spacing(m, c);
    assert(e <= g);
    lemma_pow2_pos(e);
    lemma_pow2_pos(g);
    let pe = pow2(e);
    let pg = pow2(g);
    lemma_mul_strictly_positive(d as int, pe as int);
    lemma_mul_strictly_positive(c as int, pg as int);
    if e == g {
        assert(n * (c * pe) <= m * (d * pe)) by (nonlinear_arith)
            requires
                n * c <= m * d,
                pe > 0,
        ;
        lemma_nearest_even_monotone(n, d * pe, m, c * pe);
    } else {
        lemma_spaced_significand(n, d);
        lemma_spaced_significand(m, c);
        assert(e * EXPONENT_STEP + 2 * EXPONENT_STEP <= g * EXPONENT_STEP + EXPONENT_STEP)
            by (nonlinear_arith)
            requires
                e + 1 <= g,
        ;
    }
}

/// Cut off, a significand has at most 53 digits; where the spacing is above one
/// unit, it has no fewer.
pub proof fn lemma_floor_significand(n: nat, d: nat)
    requires
        d > 0,
    ensures
        ({
            let e = spacing(n, d);
            let below = n / (d * pow2(e));
            &&& below < 2 * EXPONENT_STEP
            &&& e > 0 ==> below >= EXPONENT_STEP
        }),
{
    let q = n / d;
    let e = spacing(n, d);
    let p = pow2(e);
    lemma_pow2_pos(e);
    lemma_div_denominator(n as int, d as int, p as int);
    lemma_bit_length_shifted_down(q, e);
    lemma_bit_length(q / p);
    lemma_pow2_127();
    lemma_pow2_split(bit_length(q / p), 53);
    lemma2_to64();
    if e == 0 {
        assert(q / 1 == q);
    } else {
        assert(bit_length(q / p) == 53);
    }
}

/// A significand has at most 53 digits, or is the next power of two; where the
/// spacing is above one unit, it has no fewer.
pub proof fn lemma_spaced_significand(n: nat, d: nat)
    requires
        d > 0,
    ensures
        ({
            let e = spacing(n, d);
            let nearest = nearest_even(n, d * pow2(e));
            &&& nearest <= 2 * EXPONENT_STEP
            &&& e > 0 ==> nearest >= EXPONENT_STEP
        }),
{
    lemma_floor_significand(n, d);
    let spaced = d * pow2(spacing(n, d));
    let below = n / spaced;
    let nearest = nearest_even(n, spaced);
    assert(nearest == below || nearest == below + 1);
    assert(nearest <= 2 * EXPONENT_STEP) by (nonlinear_arith)
        requires
            below < 2 * EXPONENT_STEP,
            nearest <= below + 1,
    ;
}

/// What a finite magnitude stands for is rounded to that magnitude.
pub proof fn lemma_rounded_representable(magnitude: nat)
    requires
        magnitude < INFINITY,
    ensures
        rounded(units(magnitude), 1) == magnitude,
{
    let step = EXPONENT_STEP as nat;
    let exponent = magnitude / step;
    let fraction = magnitude % step;
    let n = units(magnitude);
    lemma_pow2_127();
    lemma2_to64();
    if n == 0 {
        lemma_pow2_pos(0);
        assert(exponent == 0) by {
            if exponent > 0 {
                lemma_pow2_pos((exponent - 1) as nat);
                lemma_mul_strictly_positive(
                    (step + fraction) as int,
                    pow2((exponent - 1) as nat) as int,
                );
            }
        }
    } else if exponent == 0 {
        lemma_bit_length(n);
        if bit_length(n) > 53 {
            lemma_pow2_split(53, (bit_length(n) - 1) as nat);
        }
        lemma_nearest_even_exact(n, 1);
        assert(n / 1 == n);
    } else {
        let m = step + fraction;
        lemma_bit_length_unique(m, 53);
        lemma_rounded_shifted(m, exponent - 1);
        lemma_nearest_even_exact(m, 1);
    }
}

/// A quotient of no more than a finite magnitude stands for is not rounded
/// above that magnitude.
pub proof fn lemma_rounded_at_most(n: nat, d: nat, magnitude: nat)
    requires
        d > 0,
        magnitude < INFINITY,
        n <= units(magnitude) * d,
    ensures
        rounded(n, d) <= magnitude,
{
    lemma_rounded_representable(magnitude);
    lemma_rounded_monotone(n, d, units(magnitude), 1);
}

/// A quotient of no less than a finite magnitude stands for is not rounded
/// below that magnitude.
pub proof fn lemma_rounded_at_least(n: nat, d: nat, magnitude: nat)
    requires
        d > 0,
        magnitude < INFINITY,
        n >= units(magnitude) * d,
    ensures
        rounded(n, d) >= magnitude,
{
    lemma_rounded_representable(magnitude);
    lemma_rounded_monotone(units(magnitude), 1, n, d);
}

/// `2^e` as a machine word.
pub(crate) fn power_of_two(e: u32) -> (r: u128)
    requires
        e < 127,
    ensures
        r == pow2(e as nat),
{
    let mut r: u128 = 1;
    let mut i: u32 = 0;
    proof {
        lemma2_to64();
        lemma_pow2_127();
    }
    while i < e
        invariant
            i <= e < 127,
            r == pow2(i as nat),
            pow2(127) < u128::MAX,
        decreases e - i,
    {
        proof {
            lemma_pow2_unfold((i + 1) as nat);
            lemma_pow2_split((i + 1) as nat, 127);
        }
        r = r * 2;
        i = i + 1;
    }
    r
}

pub proof fn lemma_pow2_127()
    ensures
        pow2(127) == 0x8000_0000_0000_0000_0000_0000_0000_0000,
        pow2(126) == 0x4000_0000_0000_0000_0000_0000_0000_0000,
        pow2(53) == 0x20_0000_0000_0000,
        pow2(52) == EXPONENT_STEP,
{
    lemma2_to64();
    lemma2_to64_rest();
    lemma_pow2_adds(63, 63);
    lemma_pow2_adds(63, 64);
}

/// Number of binary digits of `m`.
pub(crate) fn count_bits(m: u128) -> (r: u32)
    ensures
        r == bit_length(m as nat),
        r <= 128,
{
    let mut left: u128 = m;
    let mut r: u32 = 0;
    proof {
        lemma2_to64();
    }
    while left > 0
        invariant
            r + bit_length(left as nat) == bit_length(m as nat),
            left * pow2(r as nat) <= m,
            left > 0 ==> r < 128,
            r <= 128,
        decreases left,
    {
        proof {
            let next = (left / 2) as nat;
            lemma_pow2_unfold((r + 1) as nat);
            lemma_pow2_pos(r as nat);
            assert(next * (2 * pow2(r as nat)) <= left * pow2(r as nat)) by (nonlinear_arith)
                requires
                    2 * next <= left,
            ;
            if next > 0 && r + 1 >= 128 {
                lemma_pow2_127();
                lemma_pow2_unfold(128);
                lemma_pow2_split(128, (r + 1) as nat);
                assert(next * pow2((r + 1) as nat) >= pow2((r + 1) as nat)) by (nonlinear_arith)
                    requires
                        next >= 1,
                        pow2((r + 1) as nat) > 0,
                ;
            }
        }
        left = left / 2;
        r = r + 1;
    }
    r
}

/// The magnitude of `m * 2^k` units.
pub(crate) fn round_shifted(m: u128, k: i32) -> (r: u64)
    requires
        0 < m < 0x4000_0000_0000_0000_0000_0000_0000_0000,
        -2200 <= k <= 3200,
    ensures
        r == rounded(shifted(m as nat, k as int), shifted_by(k as int)),
{
    let length: i32 = count_bits(m) as i32;
    let wide: i32 = length + k - 53;
    let e: i32 = if wide > 0 {
        wide
    } else {
        0
    };
    let shift: i32 = e - k;
    proof {
        lemma_rounded_shifted(m as nat, k as int);
        lemma_pow2_127();
        lemma_bit_length(m as nat);
    }
    let nearest: u64;
    if shift <= 0 {
        let up: u32 = (0 - shift) as u32;
        proof {
            // A number of at most 53 digits is representable as it stands.
            assert(length + up <= 53);
            lemma_pow2_split(up as nat, 53);
            lemma_pow2_split((length + up) as nat, 53);
            lemma_pow2_adds(length as nat, up as nat);
            lemma_pow2_pos(up as nat);
            assert(m * pow2(up as nat) < pow2(length as nat) * pow2(up as nat)) by (nonlinear_arith)
                requires
                    m < pow2(length as nat),
                    pow2(up as nat) > 0,
            ;
            if shift == 0 {
                lemma2_to64();
                lemma_nearest_even_exact(m as nat, 1);
            }
        }
        nearest = (m * power_of_two(up)) as u64;
    } else if shift >= 127 {
        proof {
            lemma_pow2_split(127, shift as nat);
            lemma_basic_div(m as int, pow2(shift as nat) as int);
            lemma_small_mod(m as nat, pow2(shift as nat));
        }
        nearest = 0;
    } else {
        let d: u128 = power_of_two(shift as u32);
        proof {
            lemma_pow2_pos(shift as nat);
            lemma_pow2_split(shift as nat, 126);
        }
        let below: u128 = m / d;
        let rest: u128 = m % d;
        proof {
            assert(length - shift <= 53);
            lemma_bit_length_shifted_down(m as nat, shift as nat);
            lemma_bit_length(below as nat);
            lemma_pow2_split(bit_length(below as nat), 53);
        }
        if 2 * rest < d || (2 * rest == d && below % 2 == 0) {
            nearest = below as u64;
        } else {
            nearest = (below + 1) as u64;
        }
    }
    let magnitude: u64 = (e as u64) * EXPONENT_STEP + nearest;
    if magnitude >= INFINITY {
        INFINITY
    } else {
        magnitude
    }
}

} // verus!
