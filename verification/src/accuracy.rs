//! How near the results of binary64 arithmetic are to the exact ones, as real
//! numbers.

use crate::binary64;
use crate::binary64::Binary64;
use crate::pressure_laws::nonnegative;
use crate::rounding;
use vstd::arithmetic::div_mod::*;
use vstd::arithmetic::power2::*;
use vstd::prelude::*;

verus! {

/// The real number that a finite word stands for.
pub open spec fn number(x: Binary64) -> real {
    x.value() as real / binary64::one_in_units() as real
}

/// How far apart two real numbers are.
pub open spec fn apart(x: real, y: real) -> real {
    if x >= y {
        x - y
    } else {
        y - x
    }
}

/// The most that a result of `size` is rounded by: two to the minus 53 of it.
pub open spec fn half_step(size: real) -> real {
    size / 9007199254740992real
}

/// As many units as one has at least: two to the 300.
pub open spec fn finest() -> real {
    2037035976334486086268445688409378161051468393665936250636140449354381299763336706183397376real
}

/// More than the rounding of the smallest results: two to the minus 300.
pub open spec fn grain() -> real {
    1real / finest()
}

/// Larger than anything that is computed here: two to the 200.
pub open spec fn ceiling() -> real {
    1606938044258990275541962092341162602522202993782792835301376real
}

/// Whether `x` is the rounding of `exact`.
pub open spec fn near(x: Binary64, exact: real) -> bool {
    apart(number(x), exact) <= half_step(exact) + grain()
}

/// The units of a rounded quotient are its significand, shifted by its spacing.
proof fn lemma_units_of_rounded(n: nat, d: nat)
    requires
        d > 0,
        rounding::rounded(n, d) < rounding::INFINITY,
    ensures
        ({
            let e = rounding::spacing(n, d);
            rounding::units(rounding::rounded(n, d)) == rounding::nearest_even(n, d * pow2(e))
                * pow2(e)
        }),
{
    let e = rounding::spacing(n, d);
    let step = rounding::EXPONENT_STEP as nat;
    let nearest = rounding::nearest_even(n, d * pow2(e));
    rounding::lemma_spaced_significand(n, d);
    lemma2_to64();
    lemma_pow2_pos(e);
    let magnitude = e * step + nearest;
    assert(rounding::rounded(n, d) == magnitude);
    if nearest < step {
        assert(e == 0);
        lemma_fundamental_div_mod_converse(magnitude as int, step as int, 0, nearest as int);
        assert(rounding::units(magnitude) == nearest);
        assert(nearest * pow2(e) == nearest);
    } else if nearest < 2 * step {
        assert(magnitude == (e + 1) * step + (nearest - step)) by (nonlinear_arith)
            requires
                magnitude == e * step + nearest,
        ;
        lemma_fundamental_div_mod_converse(
            magnitude as int,
            step as int,
            (e + 1) as int,
            nearest - step,
        );
        assert(rounding::units(magnitude) == nearest * pow2(e));
    } else {
        assert(magnitude == (e + 2) * step + 0) by (nonlinear_arith)
            requires
                magnitude == e * step + nearest,
                nearest == 2 * step,
        ;
        lemma_fundamental_div_mod_converse(magnitude as int, step as int, (e + 2) as int, 0);
        lemma_pow2_unfold(e + 1);
        assert(rounding::units(magnitude) == step * pow2(e + 1));
        assert(step * (2 * pow2(e)) == (2 * step) * pow2(e)) by (nonlinear_arith);
    }
}

/// A rounded quotient is off by no more than half the spacing around it.
proof fn lemma_rounded_near(n: nat, d: nat)
    requires
        d > 0,
        rounding::rounded(n, d) < rounding::INFINITY,
    ensures
        0x20_0000_0000_0000 * (rounding::units(rounding::rounded(n, d)) * d - n) <= n
            + 0x10_0000_0000_0000 * d,
        0x20_0000_0000_0000 * (n - rounding::units(rounding::rounded(n, d)) * d) <= n
            + 0x10_0000_0000_0000 * d,
{
    let e = rounding::spacing(n, d);
    let p = pow2(e);
    let spaced = d * p;
    let nearest = rounding::nearest_even(n, spaced);
    let below = n / spaced;
    let rest = n % spaced;
    lemma_units_of_rounded(n, d);
    rounding::lemma_floor_significand(n, d);
    lemma_pow2_pos(e);
    lemma2_to64();
    assert(spaced > 0) by (nonlinear_arith)
        requires
            d > 0,
            p > 0,
            spaced == d * p,
    ;
    lemma_fundamental_div_mod(n as int, spaced as int);
    assert((nearest * p) * d == spaced * nearest) by (nonlinear_arith)
        requires
            spaced == d * p,
    ;
    assert(spaced * (below + 1) == spaced * below + spaced) by (nonlinear_arith);
    let off = spaced * nearest - n;
    assert(2 * off <= spaced && -2 * off <= spaced);
    if e > 0 {
        assert(spaced * below >= spaced * 0x10_0000_0000_0000) by (nonlinear_arith)
            requires
                below >= 0x10_0000_0000_0000,
                spaced > 0,
        ;
        assert(n >= spaced * 0x10_0000_0000_0000);
    } else {
        assert(spaced == d) by (nonlinear_arith)
            requires
                spaced == d * p,
                p == 1,
        ;
    }
}

/// One is more than two to the 300 units.
proof fn lemma_units_of_one()
    ensures
        binary64::one_in_units() as real >= finest(),
        binary64::one_in_units() > 0,
        rounding::units(0x4C70_0000_0000_0000) == 1606938044258990275541962092341162602522202993782792835301376
            * binary64::one_in_units(),
        rounding::units(0) == 0,
{
    lemma2_to64();
    lemma2_to64_rest();
    rounding::lemma_pow2_127();
    lemma_pow2_adds(36, 64);
    lemma_pow2_adds(100, 100);
    lemma_pow2_adds(100, 200);
    lemma_pow2_adds(52, 1222);
    lemma_pow2_adds(200, 1074);
    rounding::lemma_pow2_split(300, 1074);
    let p = pow2(100);
    assert(p == 1267650600228229401496703205376);
    let q = p * p;
    assert(q == 1606938044258990275541962092341162602522202993782792835301376) by (nonlinear_arith)
        requires
            p == 1267650600228229401496703205376,
            q == p * p,
    ;
    assert((p * q) as real == finest()) by (nonlinear_arith)
        requires
            p == 1267650600228229401496703205376,
            q == p * p,
    ;
    assert(pow2(200) == q && pow2(300) == p * q);
}

/// A rounded quotient of units, as real numbers.
proof fn lemma_rounded_number(n: nat, d: nat, exact: real)
    requires
        d > 0,
        n as real == exact * binary64::one_in_units() as real * d as real,
        exact <= ceiling(),
    ensures
        rounding::rounded(n, d) < rounding::INFINITY,
        exact >= 0real,
        ({
            let one = binary64::one_in_units() as real;
            let got = rounding::units(rounding::rounded(n, d)) as real / one;
            &&& got >= 0real
            &&& apart(got, exact) <= half_step(exact) + grain()
        }),
{
    lemma_units_of_one();
    let one = binary64::one_in_units() as real;
    let top = 0x4C70_0000_0000_0000nat;
    let m = n as real;
    let b = d as real;
    let limit = rounding::units(top) as real;
    assert(limit == ceiling() * one);
    assert(m <= limit * b) by (nonlinear_arith)
        requires
            m == exact * one * b,
            exact <= ceiling(),
            limit == ceiling() * one,
            b > 0real,
            one > 0real,
    ;
    assert((rounding::units(top) * d) as real == limit * b) by (nonlinear_arith)
        requires
            limit == rounding::units(top) as real,
            b == d as real,
    ;
    assert(n <= rounding::units(top) * d);
    rounding::lemma_rounded_at_most(n, d, top);
    lemma_rounded_near(n, d);
    let u = rounding::units(rounding::rounded(n, d));
    let r = u as real;
    assert((u * d) as real == r * b) by (nonlinear_arith)
        requires
            r == u as real,
            b == d as real,
    ;
    assert(9007199254740992real * (r * b - m) <= m + 4503599627370496real * b);
    assert(9007199254740992real * (m - r * b) <= m + 4503599627370496real * b);
    let q = exact * one;
    assert(q * b == m && q >= 0real) by (nonlinear_arith)
        requires
            q == exact * one,
            m == exact * one * b,
            b > 0real,
            m >= 0real,
    ;
    assert(9007199254740992real * (r - q) <= q + 4503599627370496real) by (nonlinear_arith)
        requires
            9007199254740992real * (r * b - m) <= m + 4503599627370496real * b,
            q * b == m,
            b > 0real,
    ;
    assert(9007199254740992real * (q - r) <= q + 4503599627370496real) by (nonlinear_arith)
        requires
            9007199254740992real * (m - r * b) <= m + 4503599627370496real * b,
            q * b == m,
            b > 0real,
    ;
    let got = r / one;
    assert(got * one == r && got >= 0real && exact >= 0real) by (nonlinear_arith)
        requires
            got == r / one,
            exact * one == q,
            one > 0real,
            r >= 0real,
            q >= 0real,
    ;
    assert(got - exact <= half_step(exact) + grain()) by (nonlinear_arith)
        requires
            9007199254740992real * (r - q) <= q + 4503599627370496real,
            got * one == r,
            exact * one == q,
            one >= finest(),
            exact >= 0real,
    ;
    assert(exact - got <= half_step(exact) + grain()) by (nonlinear_arith)
        requires
            9007199254740992real * (q - r) <= q + 4503599627370496real,
            got * one == r,
            exact * one == q,
            one >= finest(),
            exact >= 0real,
    ;
}

/// What the words of a sign and a magnitude stand for.
proof fn lemma_signed(negative: bool, magnitude: nat)
    requires
        magnitude < rounding::INFINITY,
    ensures
        ({
            let x = binary64::signed(negative, magnitude);
            &&& x.is_finite()
            &&& x.magnitude() == magnitude
            &&& x.negative() == negative
            &&& x.value() == (if negative {
                -(rounding::units(magnitude) as int)
            } else {
                rounding::units(magnitude) as int
            })
        }),
{
}

/// A number that is not below zero is its magnitude in units.
pub proof fn lemma_nonnegative(x: Binary64)
    requires
        nonnegative(x),
    ensures
        number(x) >= 0real,
        x.value() == rounding::units(x.magnitude()),
        x.negative() ==> x.magnitude() == 0,
        number(x) * binary64::one_in_units() as real == x.value() as real,
{
    lemma_units_of_one();
    binary64::lemma_units_order(0, x.magnitude());
    let one = binary64::one_in_units() as real;
    let v = x.value() as real;
    assert(v / one >= 0real && (v / one) * one == v) by (nonlinear_arith)
        requires
            v >= 0real,
            one > 0real,
    ;
}

/// Zero.
pub proof fn lemma_zero()
    ensures
        number(binary64::word(0)) == 0real,
        nonnegative(binary64::word(0)),
        forall|x: Binary64| x.value() == 0 ==> #[trigger] number(x) == 0real,
{
    lemma_units_of_one();
    let u = binary64::one_in_units() as real;
    assert(0real / u == 0real) by (nonlinear_arith)
        requires
            u > 0real,
    ;
}

/// Zero divided is zero.
pub proof fn lemma_zero_quotient(a: Binary64, b: Binary64)
    requires
        nonnegative(a),
        a.value() == 0,
        nonnegative(b),
        b.value() > 0,
    ensures
        binary64::quotient(a, b).value() == 0,
        number(binary64::quotient(a, b)) == 0real,
{
    lemma_zero();
    lemma_nonnegative(a);
    lemma_nonnegative(b);
    lemma_units_of_one();
    let x = rounding::units(a.magnitude());
    let one = binary64::one_in_units();
    assert(x * one == 0) by (nonlinear_arith)
        requires
            x == 0,
    ;
    binary64::lemma_rounded_zero(rounding::units(b.magnitude()));
    lemma_signed(a.negative() != b.negative(), 0);
    assert(rounding::units(b.magnitude()) != 0);
    assert(binary64::quotient(a, b) == binary64::signed(a.negative() != b.negative(), 0));
}

/// A whole number as a binary64 number.
pub proof fn lemma_whole_near(n: nat)
    requires
        n <= 0x1_0000_0000_0000_0000,
    ensures
        nonnegative(binary64::from_whole(n)),
        !binary64::from_whole(n).negative(),
        number(binary64::from_whole(n)) >= 0real,
        near(binary64::from_whole(n), n as real),
{
    lemma_units_of_one();
    let one = binary64::one_in_units();
    let u = one as real;
    let exact = n * one;
    assert(exact as real == n as real * u * 1real) by (nonlinear_arith)
        requires
            exact == n * one,
            u == one as real,
    ;
    lemma_rounded_number(exact, 1, n as real);
    lemma_signed(false, rounding::rounded(exact, 1));
}

/// A product.
pub proof fn lemma_product_near(a: Binary64, b: Binary64)
    requires
        nonnegative(a),
        nonnegative(b),
        number(a) * number(b) <= ceiling(),
    ensures
        nonnegative(binary64::product(a, b)),
        number(binary64::product(a, b)) >= 0real,
        near(binary64::product(a, b), number(a) * number(b)),
        number(a) * number(b) >= 0real,
        a.negative() == b.negative() ==> !binary64::product(a, b).negative(),
{
    lemma_units_of_one();
    lemma_nonnegative(a);
    lemma_nonnegative(b);
    let one = binary64::one_in_units();
    let u = one as real;
    let x = rounding::units(a.magnitude());
    let y = rounding::units(b.magnitude());
    let exact = x * y;
    let p = number(a);
    let q = number(b);
    assert(exact as real == p * q * u * u) by (nonlinear_arith)
        requires
            exact == x * y,
            p * u == x as real,
            q * u == y as real,
    ;
    lemma_rounded_number(exact, one, p * q);
    let negative = a.negative() != b.negative();
    lemma_signed(negative, rounding::rounded(exact, one));
    if negative {
        assert(exact == 0) by (nonlinear_arith)
            requires
                exact == x * y,
                x == 0 || y == 0,
        ;
        binary64::lemma_rounded_zero(one);
    }
    lemma_nonnegative(binary64::product(a, b));
}

/// A quotient.
pub proof fn lemma_quotient_near(a: Binary64, b: Binary64)
    requires
        nonnegative(a),
        nonnegative(b),
        b.value() > 0,
        number(a) <= ceiling() * number(b),
    ensures
        nonnegative(binary64::quotient(a, b)),
        number(binary64::quotient(a, b)) >= 0real,
        number(b) > 0real,
        near(binary64::quotient(a, b), number(a) / number(b)),
        number(a) / number(b) >= 0real,
        a.negative() == b.negative() ==> !binary64::quotient(a, b).negative(),
{
    lemma_units_of_one();
    lemma_nonnegative(a);
    lemma_nonnegative(b);
    let one = binary64::one_in_units();
    let u = one as real;
    let x = rounding::units(a.magnitude());
    let y = rounding::units(b.magnitude());
    let exact = x * one;
    let p = number(a);
    let q = number(b);
    assert(exact as real == (p * u) * u) by (nonlinear_arith)
        requires
            exact == x * one,
            p * u == x as real,
            u == one as real,
    ;
    assert(q > 0real) by (nonlinear_arith)
        requires
            q * u == y as real,
            y > 0,
            u > 0real,
    ;
    let r = p / q;
    assert(r * q == p && r >= 0real && r <= ceiling()) by (nonlinear_arith)
        requires
            r == p / q,
            q > 0real,
            p >= 0real,
            p <= ceiling() * q,
    ;
    assert(exact as real == r * u * y as real) by (nonlinear_arith)
        requires
            exact as real == (p * u) * u,
            q * u == y as real,
            r * q == p,
    ;
    lemma_rounded_number(exact, y, r);
    let negative = a.negative() != b.negative();
    lemma_signed(negative, rounding::rounded(exact, y));
    if negative {
        assert(exact == 0) by (nonlinear_arith)
            requires
                exact == x * one,
                x == 0,
        ;
        binary64::lemma_rounded_zero(y);
    }
    lemma_nonnegative(binary64::quotient(a, b));
}

/// A sum.
pub proof fn lemma_sum_near(a: Binary64, b: Binary64)
    requires
        a.is_finite(),
        b.is_finite(),
        0real <= number(a) + number(b) <= ceiling(),
    ensures
        nonnegative(binary64::sum(a, b)),
        number(binary64::sum(a, b)) >= 0real,
        near(binary64::sum(a, b), number(a) + number(b)),
        !a.negative() || !b.negative() ==> !binary64::sum(a, b).negative(),
{
    lemma_units_of_one();
    let u = binary64::one_in_units() as real;
    let exact = a.value() + b.value();
    let p = a.value() as real;
    let q = b.value() as real;
    let total = number(a) + number(b);
    assert(exact as real == total * u && exact as real >= 0real) by (nonlinear_arith)
        requires
            exact as real == p + q,
            total == p / u + q / u,
            0real <= total,
            u > 0real,
    ;
    assert(total * u * 1real == total * u);
    lemma_rounded_number(exact as nat, 1, total);
    let negative = exact == 0 && a.negative() && b.negative();
    lemma_signed(negative, rounding::rounded(exact as nat, 1));
    if negative {
        binary64::lemma_rounded_zero(1);
    }
    lemma_nonnegative(binary64::sum(a, b));
}

/// The sign of a number turned round.
pub proof fn lemma_negated(x: Binary64)
    requires
        x.is_finite(),
    ensures
        binary64::negated(x).is_finite(),
        binary64::negated(x).negative() == !x.negative(),
        number(binary64::negated(x)) == -number(x),
{
    lemma_units_of_one();
    let u = binary64::one_in_units() as real;
    let v = x.value() as real;
    lemma_signed(!x.negative(), x.magnitude());
    assert((-v) / u == -(v / u)) by (nonlinear_arith)
        requires
            u > 0real,
    ;
}

/// A difference of which the result is not below zero.
pub proof fn lemma_difference_near(a: Binary64, b: Binary64)
    requires
        a.is_finite(),
        b.is_finite(),
        0real <= number(a) - number(b) <= ceiling(),
    ensures
        nonnegative(binary64::difference(a, b)),
        number(binary64::difference(a, b)) >= 0real,
        near(binary64::difference(a, b), number(a) - number(b)),
        !a.negative() || b.negative() ==> !binary64::difference(a, b).negative(),
{
    lemma_negated(b);
    lemma_sum_near(a, binary64::negated(b));
}

/// A difference of either sign.
pub proof fn lemma_signed_difference_near(a: Binary64, b: Binary64)
    requires
        a.is_finite(),
        b.is_finite(),
        apart(number(a), number(b)) <= ceiling(),
    ensures
        binary64::difference(a, b).is_finite(),
        apart(number(binary64::difference(a, b)), number(a) - number(b)) <= half_step(
            apart(number(a), number(b)),
        ) + grain(),
{
    if number(a) >= number(b) {
        lemma_difference_near(a, b);
    } else {
        lemma_difference_near(b, a);
        lemma_negated(a);
        lemma_negated(b);
        lemma_order(a, b);
        lemma_signed(!a.negative(), a.magnitude());
        lemma_signed(!b.negative(), b.magnitude());
        let c = binary64::difference(a, b);
        let d = binary64::difference(b, a);
        let exact = b.value() - a.value();
        assert(exact > 0);
        assert(binary64::negated(a).value() == -a.value());
        assert(binary64::negated(b).value() == -b.value());
        assert(d == binary64::signed(false, rounding::rounded(exact as nat, 1)));
        assert(c == binary64::signed(true, rounding::rounded(exact as nat, 1)));
        lemma_units_of_one();
        let u = binary64::one_in_units() as real;
        assert((exact as real) == (number(b) - number(a)) * u) by (nonlinear_arith)
            requires
                exact as real == b.value() as real - a.value() as real,
                number(a) == a.value() as real / u,
                number(b) == b.value() as real / u,
                u > 0real,
        ;
        assert((number(b) - number(a)) * u * 1real == (number(b) - number(a)) * u);
        lemma_rounded_number(exact as nat, 1, number(b) - number(a));
        lemma_signed(false, rounding::rounded(exact as nat, 1));
        lemma_signed(true, rounding::rounded(exact as nat, 1));
        let v = d.value() as real;
        assert((-v) / u == -(v / u)) by (nonlinear_arith)
            requires
                u > 0real,
        ;
        assert(c.value() as real == -v);
    }
}

/// Finite words are in the order of the numbers they stand for.
pub proof fn lemma_order(a: Binary64, b: Binary64)
    requires
        a.is_finite(),
        b.is_finite(),
    ensures
        binary64::less(a, b) <==> number(a) < number(b),
        binary64::at_most(a, b) <==> number(a) <= number(b),
        a.value() <= b.value() <==> number(a) <= number(b),
{
    lemma_units_of_one();
    let u = binary64::one_in_units() as real;
    let p = a.value() as real;
    let q = b.value() as real;
    assert((p / u < q / u) == (p < q) && (p / u <= q / u) == (p <= q)) by (nonlinear_arith)
        requires
            u > 0real,
    ;
}

/// The whole part of a number that fits a word.
pub proof fn lemma_truncated(x: Binary64)
    requires
        nonnegative(x),
    ensures
        binary64::truncated(x) as real <= number(x),
        number(x) < 18446744073709551616real ==> number(x) < binary64::truncated(x) as real + 1real,
        number(x) >= 18446744073709551616real ==> binary64::truncated(x) == u64::MAX,
{
    lemma_units_of_one();
    lemma_nonnegative(x);
    let one = binary64::one_in_units() as int;
    let u = one as real;
    let v = x.value();
    let p = number(x);
    let whole = v / one;
    lemma_fundamental_div_mod(v, one);
    let rest = v % one;
    assert(v as real == (whole as real) * u + rest as real) by (nonlinear_arith)
        requires
            v == one * whole + rest,
            u == one as real,
    ;
    assert(whole as real <= p < whole as real + 1real) by (nonlinear_arith)
        requires
            p * u == v as real,
            v as real == (whole as real) * u + rest as real,
            0real <= rest as real,
            (rest as real) < u,
            u > 0real,
    ;
    assert(whole >= 0) by (nonlinear_arith)
        requires
            v == one * whole + rest,
            v >= 0,
            rest < one,
            one > 0,
    ;
    if x.negative() {
        assert(v == 0);
        assert(p == 0real) by (nonlinear_arith)
            requires
                p * u == 0real,
                u > 0real,
        ;
    }
}

/// The whole number nearest to a number that fits a word.
pub proof fn lemma_nearest_whole(x: Binary64)
    requires
        nonnegative(x),
        !x.negative(),
        number(x) < 18446744073709551615real,
    ensures
        binary64::nearest_whole(x) as real - 1real / 2real <= number(x),
        number(x) < binary64::nearest_whole(x) as real + 1real / 2real,
{
    lemma_units_of_one();
    lemma_nonnegative(x);
    let one = binary64::one_in_units() as int;
    let u = one as real;
    let v = x.value();
    let p = number(x);
    let top = 2 * v + one;
    let whole = top / (2 * one);
    lemma_fundamental_div_mod(top, 2 * one);
    let rest = top % (2 * one);
    assert(2real * (v as real) + u == (whole as real) * (2real * u) + rest as real)
        by (nonlinear_arith)
        requires
            2 * v + one == (2 * one) * whole + rest,
            u == one as real,
    ;
    assert(whole as real - 1real / 2real <= p && p < whole as real + 1real / 2real)
        by (nonlinear_arith)
        requires
            p * u == v as real,
            2real * (v as real) + u == (whole as real) * (2real * u) + rest as real,
            0real <= rest as real,
            (rest as real) < 2real * u,
            u > 0real,
    ;
    assert(whole >= 0) by (nonlinear_arith)
        requires
            2 * v + one == (2 * one) * whole + rest,
            v >= 0,
            rest < 2 * one,
            one > 0,
    ;
}

/// The number that a word of a given exponent and fraction stands for.
pub proof fn lemma_constant(bits: u64, exponent: nat, fraction: nat, scale: nat)
    requires
        1 <= exponent <= 1075,
        fraction < rounding::EXPONENT_STEP,
        bits == exponent * rounding::EXPONENT_STEP + fraction,
        scale == pow2((1075 - exponent) as nat),
    ensures
        nonnegative(binary64::word(bits)),
        !binary64::word(bits).negative(),
        number(binary64::word(bits)) == (rounding::EXPONENT_STEP + fraction) as real
            / scale as real,
{
    lemma_units_of_one();
    let x = binary64::word(bits);
    let step = rounding::EXPONENT_STEP as int;
    lemma_fundamental_div_mod_converse(bits as int, step, exponent as int, fraction as int);
    let low = pow2((exponent - 1) as nat);
    lemma_pow2_adds((exponent - 1) as nat, (1075 - exponent) as nat);
    lemma_pow2_pos((exponent - 1) as nat);
    lemma_pow2_pos((1075 - exponent) as nat);
    lemma_nonnegative(x);
    let p = number(x);
    let significand = step + fraction;
    let u = binary64::one_in_units() as real;
    assert(p * (scale as real) == significand as real) by (nonlinear_arith)
        requires
            p * u == (significand * low) as real,
            u == (low * scale) as real,
            low > 0,
    ;
    assert(p == significand as real / scale as real) by (nonlinear_arith)
        requires
            p * (scale as real) == significand as real,
            scale > 0,
    ;
}

} // verus!
