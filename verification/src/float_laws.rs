//! What binary64 arithmetic is for: every result is the number nearest to the exact one.
use vstd::arithmetic::power2::*;
use vstd::prelude::*;

use crate::exact;
use crate::float::{Float64, INF_BODY, SINGLE_INF_BODY, SINGLE_SIGN};
use crate::rounding;
use crate::weights;

verus! {

/// The distance of two integers.
pub open spec fn distance(a: int, b: int) -> int {
    if a < b {
        b - a
    } else {
        a - b
    }
}

/// No body is nearer to a number than the one that it rounds to; where another is as near,
/// that one is even.
proof fn lemma_nearest_body(fb: nat, inf: int, b: int, num: int, den: int, c: int)
    requires
        rounding::rounds_to(fb, inf, b, num, den),
        0 < den,
        b < inf,
        0 <= c,
    ensures
        distance(rounding::magnitude(fb, b) * den, num) <= distance(
            rounding::magnitude(fb, c) * den,
            num,
        ),
        c != b && distance(rounding::magnitude(fb, b) * den, num) == distance(
            rounding::magnitude(fb, c) * den,
            num,
        ) ==> b % 2 == 0,
{
    let x = rounding::magnitude(fb, b);
    let y = rounding::magnitude(fb, c);
    if c < b {
        let z = rounding::magnitude(fb, b - 1);
        rounding::lemma_magnitude_increases(fb, c, b);
        if c < b - 1 {
            rounding::lemma_magnitude_increases(fb, c, b - 1);
        }
        assert((z + x) * den == z * den + x * den && y * den <= z * den && y * den < x * den)
            by (nonlinear_arith)
            requires
                y <= z,
                y < x,
                0 < den,
        ;
    } else if b < c {
        let z = rounding::magnitude(fb, b + 1);
        rounding::lemma_magnitude_increases(fb, b, c);
        if b + 1 < c {
            rounding::lemma_magnitude_increases(fb, b + 1, c);
        }
        assert((x + z) * den == x * den + z * den && z * den <= y * den && x * den < y * den)
            by (nonlinear_arith)
            requires
                z <= y,
                x < y,
                0 < den,
        ;
    }
}

/// No number is nearer to `num / den` than what it rounds to; where another one is as near,
/// the last bit is 0.
proof fn lemma_nearest(r: Float64, num: int, den: int, y: Float64)
    requires
        r.finite(),
        r.ordinal() == exact::rounded_ordinal(num, den),
        0 < den,
        y.finite(),
    ensures
        distance(r.value() * den, num) <= distance(y.value() * den, num),
        y.value() != r.value() && distance(r.value() * den, num) == distance(
            y.value() * den,
            num,
        ) ==> r.body() % 2 == 0,
{
    let inf = INF_BODY as int;
    let m = if num < 0 {
        -num
    } else {
        num
    };
    let b = rounding::round(52, inf, m, den);
    exact::lemma_round_bounds(m, den);
    rounding::lemma_rounding_exists(52, inf, m, den);
    exact::lemma_zero_magnitude();
    let x = rounding::magnitude(52, b);
    assert(r.body() == b);
    assert(r.value() == if num < 0 {
        -x
    } else {
        x
    });
    let c = y.body();
    let z = y.magnitude();
    y.lemma_magnitude_is_not_negative();
    assert((-x) * den == -(x * den) && (-z) * den == -(z * den)) by (nonlinear_arith);
    assert(0 <= z * den) by (nonlinear_arith)
        requires
            0 <= z,
            0 < den,
    ;
    lemma_nearest_body(52, inf, b, m, den, c);
    lemma_nearest_body(52, inf, b, m, den, 0);
    assert(0 * den == 0) by (nonlinear_arith);
    if c != b && rounding::magnitude(52, c) == x {
        if c < b {
            rounding::lemma_magnitude_increases(52, c, b);
        } else {
            rounding::lemma_magnitude_increases(52, b, c);
        }
    }
    if 0 < z {
        assert(0 < z * den) by (nonlinear_arith)
            requires
                0 < z,
                0 < den,
        ;
    }
}

/// A sum is the number nearest to the exact sum; of two that are as near, the even one.
pub proof fn law_sums_are_nearest(a: Float64, b: Float64, y: Float64)
    requires
        a.finite(),
        b.finite(),
        y.finite(),
        a.plus_spec(b).finite(),
    ensures
        ({
            let r = a.plus_spec(b);
            let s = a.value() + b.value();
            &&& distance(r.value(), s) <= distance(y.value(), s)
            &&& y.value() != r.value() && distance(r.value(), s) == distance(y.value(), s)
                ==> r.body() % 2 == 0
        }),
{
    exact::lemma_plus(a, b);
    lemma_nearest(a.plus_spec(b), a.value() + b.value(), 1, y);
}

/// A difference is the number nearest to the exact difference; of two that are as near, the
/// even one.
pub proof fn law_differences_are_nearest(a: Float64, b: Float64, y: Float64)
    requires
        a.finite(),
        b.finite(),
        y.finite(),
        a.minus_spec(b).finite(),
    ensures
        ({
            let r = a.minus_spec(b);
            let s = a.value() - b.value();
            &&& distance(r.value(), s) <= distance(y.value(), s)
            &&& y.value() != r.value() && distance(r.value(), s) == distance(y.value(), s)
                ==> r.body() % 2 == 0
        }),
{
    exact::lemma_minus(a, b);
    lemma_nearest(a.minus_spec(b), a.value() - b.value(), 1, y);
}

/// A product is the number nearest to the exact product; of two that are as near, the even
/// one.
pub proof fn law_products_are_nearest(a: Float64, b: Float64, y: Float64)
    requires
        a.finite(),
        b.finite(),
        y.finite(),
        a.times_spec(b).finite(),
    ensures
        ({
            let r = a.times_spec(b);
            let u = Float64::unit();
            let p = a.value() * b.value();
            &&& distance(r.value() * u, p) <= distance(y.value() * u, p)
            &&& y.value() != r.value() && distance(r.value() * u, p) == distance(y.value() * u, p)
                ==> r.body() % 2 == 0
        }),
{
    lemma_pow2_pos(1074);
    exact::lemma_times(a, b);
    lemma_nearest(a.times_spec(b), a.value() * b.value(), Float64::unit(), y);
}

/// A quotient is the number nearest to the exact quotient; of two that are as near, the even
/// one. The sign of the divisor turns that of the quotient.
pub proof fn law_quotients_are_nearest(a: Float64, b: Float64, y: Float64)
    requires
        a.finite(),
        b.finite(),
        0 < b.value(),
        y.finite(),
        a.over_spec(b).finite(),
    ensures
        ({
            let r = a.over_spec(b);
            let q = a.value() * Float64::unit();
            let d = b.value();
            &&& distance(r.value() * d, q) <= distance(y.value() * d, q)
            &&& y.value() != r.value() && distance(r.value() * d, q) == distance(y.value() * d, q)
                ==> r.body() % 2 == 0
            &&& a.over_spec(b.negated_spec()) == r.negated_spec()
        }),
{
    exact::lemma_over(a, b);
    lemma_nearest(a.over_spec(b), a.value() * Float64::unit(), b.value(), y);
    exact::lemma_negated(b);
    let n = b.negated_spec();
    exact::lemma_zero_magnitude();
    b.lemma_magnitude_is_not_negative();
    let m = a.magnitude() * Float64::unit();
    lemma_pow2_pos(1074);
    a.lemma_magnitude_is_not_negative();
    assert(0 <= m) by (nonlinear_arith)
        requires
            m == a.magnitude() * Float64::unit(),
            0 <= a.magnitude(),
            0 < Float64::unit(),
    ;
    exact::lemma_round_bounds(m, b.magnitude());
    let body = rounding::round(52, INF_BODY as int, m, b.magnitude());
    exact::lemma_of(true, body);
    exact::lemma_of(false, body);
    exact::lemma_negated(Float64::of(true, body));
    exact::lemma_negated(Float64::of(false, body));
    exact::lemma_same(a.over_spec(n), a.over_spec(b).negated_spec());
}

/// An integer becomes the number nearest to it; of two that are as near, the even one.
pub proof fn law_integers_are_nearest(n: int, y: Float64)
    requires
        y.finite(),
        Float64::from_int_spec(n).finite(),
    ensures
        ({
            let r = Float64::from_int_spec(n);
            let v = n * Float64::unit();
            &&& distance(r.value(), v) <= distance(y.value(), v)
            &&& y.value() != r.value() && distance(r.value(), v) == distance(y.value(), v)
                ==> r.body() % 2 == 0
        }),
{
    let u = Float64::unit();
    lemma_pow2_pos(1074);
    let m = if n < 0 {
        -n
    } else {
        n
    };
    let num = m * u;
    assert(0 <= num && (-n) * u == -(n * u)) by (nonlinear_arith)
        requires
            num == m * u,
            0 <= m,
            0 < u,
    ;
    assert(n < 0 ==> n * u < 0) by (nonlinear_arith)
        requires
            0 < u,
    ;
    exact::lemma_round_bounds(num, 1);
    exact::lemma_of(n < 0, rounding::round(52, INF_BODY as int, num, 1));
    lemma_nearest(Float64::from_int_spec(n), n * u, 1, y);
}

/// Results with NaN and infinity: NaN stays, infinity outweighs every finite number, and
/// what has no value is NaN.
pub proof fn law_special_numbers(a: Float64, b: Float64)
    ensures
        a.nan() || b.nan() ==> a.plus_spec(b).nan() && a.minus_spec(b).nan() && a.times_spec(
            b,
        ).nan() && a.over_spec(b).nan(),
        a.infinite() && b.finite() ==> a.plus_spec(b) == a && b.plus_spec(a) == a && a.minus_spec(b)
            == a,
        a.infinite() && b.infinite() ==> a.over_spec(b).nan() && if a.negative() == b.negative() {
            a.plus_spec(b) == a && a.minus_spec(b).nan()
        } else {
            a.plus_spec(b).nan() && a.minus_spec(b) == a
        },
        a.infinite() && !b.nan() && !b.zero() ==> a.times_spec(b).infinite() && a.times_spec(
            b,
        ).negative() == (a.negative() != b.negative()),
        a.infinite() && b.zero() ==> a.times_spec(b).nan() && b.times_spec(a).nan(),
        a.finite() && b.infinite() ==> a.over_spec(b).zero(),
        a.infinite() && b.finite() ==> a.over_spec(b).infinite() && a.over_spec(b).negative() == (
        a.negative() != b.negative()),
        a.finite() && !a.zero() && b.zero() ==> a.over_spec(b).infinite() && a.over_spec(
            b,
        ).negative() == (a.negative() != b.negative()),
        a.zero() && b.zero() ==> a.over_spec(b).nan(),
{
    exact::lemma_of(false, INF_BODY as int);
    exact::lemma_of(true, INF_BODY as int);
    exact::lemma_of(false, 0);
    exact::lemma_of(true, 0);
    exact::lemma_negated(b);
    exact::lemma_negated(a);
}

/// Numbers are compared by their values, infinities lie beyond all of them, and with NaN no
/// comparison holds.
pub proof fn law_comparisons_follow_values(a: Float64, b: Float64)
    ensures
        a.finite() && b.finite() ==> {
            &&& a.lt_spec(b) <==> a.value() < b.value()
            &&& a.le_spec(b) <==> a.value() <= b.value()
            &&& a.eq_spec(b) <==> a.value() == b.value()
        },
        a.nan() || b.nan() ==> !a.lt_spec(b) && !a.le_spec(b) && !a.eq_spec(b),
        a.infinite() && !a.negative() && b.finite() ==> b.lt_spec(a) && !a.lt_spec(b),
        a.infinite() && a.negative() && b.finite() ==> a.lt_spec(b) && !b.lt_spec(a),
        a.finite() ==> !a.nan() && !a.infinite(),
{
    if a.finite() && b.finite() {
        exact::lemma_value_order(a, b);
    }
}

/// Turning the sign turns the value, and dropping it gives the magnitude.
pub proof fn law_signs(a: Float64)
    ensures
        a.finite() ==> a.negated_spec().finite() && a.negated_spec().value() == -a.value(),
        a.finite() ==> a.abs_spec().finite() && a.abs_spec().value() == distance(a.value(), 0),
        a.negated_spec().negated_spec() == a,
{
    exact::lemma_negated(a);
    exact::lemma_negated(a.negated_spec());
    exact::lemma_same(a, a.negated_spec().negated_spec());
    if a.finite() {
        exact::lemma_of(false, a.body());
        a.lemma_magnitude_is_not_negative();
    }
}

/// The lesser of two numbers is one of them and at most both, the greater is one of them and
/// at least both; NaN is greater than all numbers.
pub proof fn law_lesser_and_greater(a: Float64, b: Float64)
    ensures
        a.min_spec(b) == a || a.min_spec(b) == b,
        a.max_spec(b) == a || a.max_spec(b) == b,
        !a.nan() && !b.nan() ==> {
            &&& a.min_spec(b).le_spec(a) && a.min_spec(b).le_spec(b)
            &&& a.le_spec(a.max_spec(b)) && b.le_spec(a.max_spec(b))
        },
        a.nan() && !b.nan() ==> a.min_spec(b) == b && b.min_spec(a) == b && a.max_spec(b) == a
            && b.max_spec(a) == a,
{
}

/// A clamped number lies between the bounds; one that does so stays as it is, and any other
/// becomes the bound that it lies beyond.
pub proof fn law_clamping(x: Float64, lo: Float64, hi: Float64)
    requires
        lo.le_spec(hi),
    ensures
        x.nan() ==> x.clamp_spec(lo, hi) == x,
        !x.nan() ==> lo.le_spec(x.clamp_spec(lo, hi)) && x.clamp_spec(lo, hi).le_spec(hi),
        lo.le_spec(x) && x.le_spec(hi) ==> x.clamp_spec(lo, hi) == x,
        x.lt_spec(lo) ==> x.clamp_spec(lo, hi) == lo,
        hi.lt_spec(x) ==> x.clamp_spec(lo, hi) == hi,
{
}

/// The body of a binary32 bit pattern.
pub open spec fn single_body(bits: u32) -> int {
    if bits >= SINGLE_SIGN {
        bits - SINGLE_SIGN
    } else {
        bits as int
    }
}

/// A binary32 number as binary64 has the same value, sign and kind.
pub proof fn law_singles_keep_their_value(bits: u32)
    ensures
        ({
            let x = Float64::from_single_spec(bits);
            let b = single_body(bits);
            &&& b > SINGLE_INF_BODY ==> x.nan()
            &&& b == SINGLE_INF_BODY ==> x.infinite() && x.negative() == (bits >= SINGLE_SIGN)
            &&& b < SINGLE_INF_BODY ==> x.finite() && x.negative() == (bits >= SINGLE_SIGN)
                && x.magnitude() == rounding::magnitude(23, b) * pow2(925)
        }),
{
    let b = single_body(bits);
    let neg = bits >= SINGLE_SIGN;
    if b < SINGLE_INF_BODY {
        let q = rounding::significand_of(23, b);
        let t = rounding::scale_of(23, b);
        lemma2_to64();
        rounding::lemma_parts_of_body(23, b);
        assert(t <= 253) by {
            vstd::arithmetic::div_mod::lemma_fundamental_div_mod(b, 0x80_0000);
        }
        lemma_pow2_adds(t, 925);
        let c = exact::lemma_representable(q, t + 925);
        let m = rounding::magnitude(23, b);
        assert(m * pow2(925) == q * pow2(t + 925)) by (nonlinear_arith)
            requires
                m == q * pow2(t),
                pow2(t + 925) == pow2(t) * pow2(925),
        ;
        rounding::lemma_representable_rounds_to_itself(52, INF_BODY as int, c, 1);
        assert(rounding::magnitude(52, c) * 1 == m * pow2(925));
        exact::lemma_of(neg, c);
    } else {
        exact::lemma_of(neg, INF_BODY as int);
    }
}

/// A number becomes the binary32 number nearest to it, of two that are as near the even one,
/// with its sign. NaN stays NaN, and infinity stays infinity.
pub proof fn law_singles_are_nearest(x: Float64, other: u32)
    requires
        single_body(other) < SINGLE_INF_BODY,
    ensures
        x.nan() ==> Float64::from_single_spec(x.to_single_spec()).nan(),
        x.infinite() ==> Float64::from_single_spec(x.to_single_spec()) == x,
        ({
            let r = Float64::from_single_spec(x.to_single_spec());
            let y = Float64::from_single_spec(other);
            x.finite() ==> {
                &&& r.negative() == x.negative()
                &&& r.finite() ==> distance(r.value(), x.value()) <= distance(y.value(), x.value())
                &&& r.finite() && y.value() != r.value() && distance(r.value(), x.value())
                    == distance(y.value(), x.value()) ==> single_body(x.to_single_spec()) % 2 == 0
            }
        }),
{
    let bits = x.to_single_spec();
    let inf = SINGLE_INF_BODY as int;
    let den = pow2(925) as int;
    lemma_pow2_pos(925);
    law_singles_keep_their_value(bits);
    law_singles_keep_their_value(other);
    if x.finite() {
        let m = x.magnitude();
        let b = rounding::round(23, inf, m, den);
        x.lemma_magnitude_is_not_negative();
        rounding::lemma_rounding_exists(23, inf, m, den);
        assert(0 <= b <= inf);
        assert(single_body(bits) == b);
        let r = Float64::from_single_spec(bits);
        let y = Float64::from_single_spec(other);
        if r.finite() {
            assert(b < inf);
            let c = single_body(other);
            lemma_nearest_body(23, inf, b, m, den, c);
            lemma_nearest_body(23, inf, b, m, den, 0);
            lemma2_to64();
            lemma_pow2_pos(23);
            rounding::lemma_magnitude_of_parts(23, 0, 0);
            assert(rounding::magnitude(23, 0) == 0);
            assert(0 * den == 0) by (nonlinear_arith);
            y.lemma_magnitude_is_not_negative();
            if c == b {
                assert(y.magnitude() == r.magnitude());
            }
        }
    } else if x.infinite() {
        exact::lemma_of(x.negative(), INF_BODY as int);
        exact::lemma_same(Float64::from_single_spec(bits), x);
    }
}

/// The constants one half, one and two are these numbers.
pub proof fn law_constants()
    ensures
        crate::cdf::half().finite() && 2 * crate::cdf::half().value() == Float64::unit(),
        crate::cdf::one().finite() && crate::cdf::one().value() == Float64::unit(),
        crate::cdf::two().finite() && crate::cdf::two().value() == 2 * Float64::unit(),
        crate::cdf::zero().finite() && crate::cdf::zero().value() == 0,
{
    weights::lemma_constants();
    assert(0 * exact::h() == 0) by (nonlinear_arith);
}

/// The total order follows the numeric order, puts the negative zero before the positive one,
/// negative NaN before all numbers and positive NaN behind them, and tells all bit patterns
/// apart.
pub proof fn law_total_order(a: Float64, b: Float64)
    ensures
        a.lt_spec(b) ==> a.total_rank() < b.total_rank(),
        a.zero() && b.zero() && a.negative() && !b.negative() ==> a.total_rank() < b.total_rank(),
        a.nan() && a.negative() && !b.nan() ==> a.total_rank() < b.total_rank(),
        a.nan() && !a.negative() && !b.nan() ==> b.total_rank() < a.total_rank(),
        a.total_rank() == b.total_rank() ==> a == b,
{
    if a.total_rank() == b.total_rank() {
        exact::lemma_same(a, b);
    }
}

} // verus!
