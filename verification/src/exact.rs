//! Laws of binary64 arithmetic: order, monotonicity, and where no rounding takes place.
use vstd::arithmetic::power2::*;
use vstd::prelude::*;

use crate::float::Float64;
use crate::float::INF_BODY;
use crate::rounding;

verus! {

/// The position in the numeric order of `num / den`, rounded.
pub open spec fn rounded_ordinal(num: int, den: int) -> int {
    if num < 0 {
        -rounding::round(52, INF_BODY as int, -num, den)
    } else {
        rounding::round(52, INF_BODY as int, num, den)
    }
}

/// The value of one half, in units of the smallest positive number.
pub open spec fn h() -> int {
    pow2(1073) as int
}

/// `x` is the number `k / 2`.
pub open spec fn is_halves(x: Float64, k: int) -> bool {
    x.finite() && x.value() == k * h()
}

/// Rounding gives a body.
pub proof fn lemma_round_bounds(num: int, den: int)
    requires
        0 <= num,
        0 < den,
    ensures
        0 <= rounding::round(52, INF_BODY as int, num, den) <= INF_BODY,
        num == 0 ==> rounding::round(52, INF_BODY as int, num, den) == 0,
{
    rounding::lemma_rounding_exists(52, INF_BODY as int, num, den);
    if num == 0 {
        lemma_zero_magnitude();
        rounding::lemma_representable_rounds_to_itself(52, INF_BODY as int, 0, den);
        assert(0 * den == 0) by (nonlinear_arith);
    }
}

pub proof fn lemma_zero_magnitude()
    ensures
        rounding::magnitude(52, 0) == 0,
{
    lemma_pow2_pos(52);
    lemma2_to64();
    rounding::lemma_magnitude_of_parts(52, 0, 0);
}

/// Sign, body and order of a number put together from sign and body.
pub proof fn lemma_of(neg: bool, body: int)
    requires
        0 <= body <= INF_BODY,
    ensures
        Float64::of(neg, body).negative() == neg,
        Float64::of(neg, body).body() == body,
        !Float64::of(neg, body).nan(),
        Float64::of(neg, body).ordinal() == if neg {
            -body
        } else {
            body
        },
{
}

/// Two numbers with the same sign and body are the same.
pub proof fn lemma_same(a: Float64, b: Float64)
    requires
        a.negative() == b.negative(),
        a.body() == b.body(),
    ensures
        a == b,
{
}

/// The order of finite numbers is that of their values.
pub proof fn lemma_value_order(a: Float64, b: Float64)
    requires
        a.finite(),
        b.finite(),
    ensures
        a.value() < b.value() <==> a.ordinal() < b.ordinal(),
        a.value() == b.value() <==> a.ordinal() == b.ordinal(),
        a.value() <= b.value() <==> a.ordinal() <= b.ordinal(),
{
    lemma_zero_magnitude();
    if a.body() > 0 {
        rounding::lemma_magnitude_increases(52, 0, a.body());
    }
    if b.body() > 0 {
        rounding::lemma_magnitude_increases(52, 0, b.body());
    }
    if a.body() < b.body() {
        rounding::lemma_magnitude_increases(52, a.body(), b.body());
    }
    if b.body() < a.body() {
        rounding::lemma_magnitude_increases(52, b.body(), a.body());
    }
}

/// Rounding keeps the order.
pub proof fn lemma_rounded_order(num1: int, den1: int, num2: int, den2: int)
    requires
        0 < den1,
        0 < den2,
        num1 * den2 <= num2 * den1,
    ensures
        rounded_ordinal(num1, den1) <= rounded_ordinal(num2, den2),
{
    let inf = INF_BODY as int;
    if num1 >= 0 {
        assert(num2 >= 0) by (nonlinear_arith)
            requires
                num1 >= 0,
                num1 * den2 <= num2 * den1,
                0 < den1,
                0 < den2,
        ;
        rounding::lemma_rounding_exists(52, inf, num1, den1);
        rounding::lemma_rounding_exists(52, inf, num2, den2);
        rounding::lemma_rounding_is_monotone(
            52,
            inf,
            rounding::round(52, inf, num1, den1),
            num1,
            den1,
            rounding::round(52, inf, num2, den2),
            num2,
            den2,
        );
    } else if num2 >= 0 {
        lemma_round_bounds(-num1, den1);
        lemma_round_bounds(num2, den2);
    } else {
        rounding::lemma_rounding_exists(52, inf, -num1, den1);
        rounding::lemma_rounding_exists(52, inf, -num2, den2);
        assert(-num2 * den1 <= -num1 * den2) by (nonlinear_arith)
            requires
                num1 * den2 <= num2 * den1,
        ;
        rounding::lemma_rounding_is_monotone(
            52,
            inf,
            rounding::round(52, inf, -num2, den2),
            -num2,
            den2,
            rounding::round(52, inf, -num1, den1),
            -num1,
            den1,
        );
    }
}

/// A representable number is not changed by rounding.
pub proof fn lemma_rounded_exact(x: Float64, den: int)
    requires
        x.finite(),
        0 < den,
    ensures
        rounded_ordinal(x.value() * den, den) == x.ordinal(),
{
    let m = x.magnitude();
    x.lemma_magnitude_is_not_negative();
    rounding::lemma_representable_rounds_to_itself(52, INF_BODY as int, x.body(), den);
    if x.value() < 0 {
        assert(-(x.value() * den) == m * den && x.value() * den < 0) by (nonlinear_arith)
            requires
                x.value() == -m,
                x.value() < 0,
                0 < den,
        ;
    } else if x.negative() {
        // minus zero
        assert(m == 0);
        assert(x.body() == 0) by {
            if x.body() > 0 {
                lemma_zero_magnitude();
                rounding::lemma_magnitude_increases(52, 0, x.body());
            }
        }
        assert(x.value() * den == 0) by (nonlinear_arith)
            requires
                x.value() == 0,
        ;
        lemma_round_bounds(0, den);
    } else {
        assert(x.value() * den >= 0) by (nonlinear_arith)
            requires
                x.value() >= 0,
                0 < den,
        ;
    }
}

/// What is at most a representable number rounds to at most that number.
pub proof fn lemma_rounded_at_most(num: int, den: int, x: Float64)
    requires
        0 < den,
        x.finite(),
        num <= x.value() * den,
    ensures
        rounded_ordinal(num, den) <= x.ordinal(),
{
    lemma_rounded_exact(x, den);
    assert(num * den <= x.value() * den * den) by (nonlinear_arith)
        requires
            num <= x.value() * den,
            0 < den,
    ;
    lemma_rounded_order(num, den, x.value() * den, den);
}

/// What is at least a representable number rounds to at least that number.
pub proof fn lemma_rounded_at_least(num: int, den: int, x: Float64)
    requires
        0 < den,
        x.finite(),
        x.value() * den <= num,
    ensures
        x.ordinal() <= rounded_ordinal(num, den),
{
    lemma_rounded_exact(x, den);
    assert(x.value() * den * den <= num * den) by (nonlinear_arith)
        requires
            x.value() * den <= num,
            0 < den,
    ;
    lemma_rounded_order(x.value() * den, den, num, den);
}

/// The sum of finite numbers is their exact sum, rounded.
pub proof fn lemma_plus(a: Float64, b: Float64)
    requires
        a.finite(),
        b.finite(),
    ensures
        !a.plus_spec(b).nan(),
        a.plus_spec(b).ordinal() == rounded_ordinal(a.value() + b.value(), 1),
{
    let s = a.value() + b.value();
    if s == 0 {
        lemma_round_bounds(0, 1);
        lemma_of(a.negative() && b.negative(), 0);
    } else if s < 0 {
        lemma_round_bounds(-s, 1);
        lemma_of(true, rounding::round(52, INF_BODY as int, -s, 1));
    } else {
        lemma_round_bounds(s, 1);
        lemma_of(false, rounding::round(52, INF_BODY as int, s, 1));
    }
}

/// Turning the sign turns the value.
pub proof fn lemma_negated(a: Float64)
    ensures
        a.negated_spec().body() == a.body(),
        a.negated_spec().negative() != a.negative(),
        a.negated_spec().value() == -a.value(),
        a.negated_spec().ordinal() == -a.ordinal(),
        a.negated_spec().nan() == a.nan(),
        a.negated_spec().finite() == a.finite(),
{
}

/// The difference of finite numbers is their exact difference, rounded.
pub proof fn lemma_minus(a: Float64, b: Float64)
    requires
        a.finite(),
        b.finite(),
    ensures
        !a.minus_spec(b).nan(),
        a.minus_spec(b).ordinal() == rounded_ordinal(a.value() - b.value(), 1),
{
    lemma_negated(b);
    lemma_plus(a, b.negated_spec());
}

/// The product of finite numbers is their exact product, rounded.
pub proof fn lemma_times(a: Float64, b: Float64)
    requires
        a.finite(),
        b.finite(),
    ensures
        !a.times_spec(b).nan(),
        a.times_spec(b).ordinal() == rounded_ordinal(a.value() * b.value(), Float64::unit()),
{
    let m = a.magnitude() * b.magnitude();
    let neg = a.negative() != b.negative();
    lemma_pow2_pos(1074);
    a.lemma_magnitude_is_not_negative();
    b.lemma_magnitude_is_not_negative();
    assert(0 <= m) by (nonlinear_arith)
        requires
            m == a.magnitude() * b.magnitude(),
            0 <= a.magnitude(),
            0 <= b.magnitude(),
    ;
    lemma_round_bounds(m, Float64::unit());
    lemma_of(neg, rounding::round(52, INF_BODY as int, m, Float64::unit()));
    assert(a.value() * b.value() == if neg {
        -m
    } else {
        m
    }) by (nonlinear_arith)
        requires
            m == a.magnitude() * b.magnitude(),
            neg == (a.negative() != b.negative()),
            a.value() == if a.negative() {
                -a.magnitude()
            } else {
                a.magnitude()
            },
            b.value() == if b.negative() {
                -b.magnitude()
            } else {
                b.magnitude()
            },
    ;
}

/// The quotient of a finite number and a positive one is their exact quotient, rounded.
pub proof fn lemma_over(a: Float64, b: Float64)
    requires
        a.finite(),
        b.finite(),
        0 < b.value(),
    ensures
        !a.over_spec(b).nan(),
        a.over_spec(b).ordinal() == rounded_ordinal(a.value() * Float64::unit(), b.value()),
{
    let m = a.magnitude() * Float64::unit();
    lemma_pow2_pos(1074);
    a.lemma_magnitude_is_not_negative();
    b.lemma_magnitude_is_not_negative();
    assert(!b.negative());
    lemma_zero_magnitude();
    assert(0 <= m) by (nonlinear_arith)
        requires
            m == a.magnitude() * Float64::unit(),
            0 <= a.magnitude(),
            0 < Float64::unit(),
    ;
    lemma_round_bounds(m, b.magnitude());
    lemma_of(a.negative(), rounding::round(52, INF_BODY as int, m, b.magnitude()));
    if a.negative() {
        assert(a.value() * Float64::unit() == -m) by (nonlinear_arith)
            requires
                m == a.magnitude() * Float64::unit(),
                a.value() == -a.magnitude(),
        ;
    }
}

/// A significand of at most 53 digits at any scale is representable.
pub proof fn lemma_representable(m: int, e: nat) -> (b: int)
    requires
        0 <= m <= 0x20_0000_0000_0000,
        e <= 2040,
    ensures
        0 <= b < INF_BODY,
        rounding::magnitude(52, b) == m * pow2(e),
    decreases e,
{
    lemma2_to64_rest();
    if e == 0 || m >= 0x10_0000_0000_0000 {
        rounding::lemma_magnitude_of_parts(52, e, m);
        e * 0x10_0000_0000_0000 + m
    } else {
        let b = lemma_representable(2 * m, (e - 1) as nat);
        lemma_pow2_unfold(e);
        assert((2 * m) * pow2((e - 1) as nat) == m * pow2(e)) by (nonlinear_arith)
            requires
                pow2(e) == 2 * pow2((e - 1) as nat),
        ;
        b
    }
}

/// The value of the largest finite number.
pub open spec fn largest() -> int {
    rounding::magnitude(52, INF_BODY - 1)
}

/// The largest finite number, which is above `2^1023`.
pub proof fn lemma_largest() -> (x: Float64)
    ensures
        x == Float64::of(false, INF_BODY - 1),
        x.finite(),
        x.value() == largest(),
        Float64::of(true, INF_BODY - 1).finite(),
        Float64::of(true, INF_BODY - 1).value() == -largest(),
        pow2(2097) <= largest(),
{
    lemma2_to64_rest();
    lemma_pow2_adds(52, 2045);
    lemma_of(false, INF_BODY - 1);
    lemma_of(true, INF_BODY - 1);
    let q = 0x1f_ffff_ffff_ffffint;
    rounding::lemma_magnitude_of_parts(52, 2045, q);
    assert(0x10_0000_0000_0000 * pow2(2045) <= q * pow2(2045)) by (nonlinear_arith)
        requires
            q == 0x1f_ffff_ffff_ffff,
            0 <= pow2(2045),
    ;
    Float64::of(false, INF_BODY - 1)
}

/// The half-integer `k / 2` is represented exactly: half-integers up to `2^52` are, and
/// integers up to `2^53`.
pub open spec fn fits(k: int) -> bool {
    ||| -0x20_0000_0000_0000 <= k <= 0x20_0000_0000_0000
    ||| k % 2 == 0 && -0x40_0000_0000_0000 <= k <= 0x40_0000_0000_0000
}

/// A number whose position is that of a rounded exact half-integer is that half-integer.
pub proof fn lemma_is_halves(x: Float64, k: int, num: int, den: int)
    requires
        !x.nan(),
        x.ordinal() == rounded_ordinal(num, den),
        0 < den,
        num == k * h() * den,
        fits(k),
    ensures
        is_halves(x, k),
{
    let a = if k < 0 {
        -k
    } else {
        k
    };
    let b = if a <= 0x20_0000_0000_0000 {
        lemma_representable(a, 1073)
    } else {
        lemma_pow2_unfold(1074);
        assert((a / 2) * pow2(1074) == a * pow2(1073)) by (nonlinear_arith)
            requires
                a == 2 * (a / 2),
                pow2(1074) == 2 * pow2(1073),
        ;
        lemma_representable(a / 2, 1074)
    };
    let y = Float64::of(k < 0, b);
    lemma_of(k < 0, b);
    lemma_pow2_pos(1073);
    assert(y.value() == k * h()) by (nonlinear_arith)
        requires
            y.value() == if k < 0 {
                -(a * h())
            } else {
                a * h()
            },
            a == if k < 0 {
                -k
            } else {
                k
            },
    ;
    lemma_rounded_exact(y, den);
    assert(x.ordinal() == y.ordinal());
    assert(x.finite());
    lemma_value_order(x, y);
}

/// Half-integers of moderate size add up exactly.
pub proof fn lemma_halves_plus(a: Float64, ka: int, b: Float64, kb: int)
    requires
        is_halves(a, ka),
        is_halves(b, kb),
        fits(ka + kb),
    ensures
        is_halves(a.plus_spec(b), ka + kb),
{
    lemma_plus(a, b);
    assert(a.value() + b.value() == (ka + kb) * h() * 1) by (nonlinear_arith)
        requires
            a.value() == ka * h(),
            b.value() == kb * h(),
    ;
    lemma_is_halves(a.plus_spec(b), ka + kb, a.value() + b.value(), 1);
}

/// Half-integers of moderate size are subtracted exactly.
pub proof fn lemma_halves_minus(a: Float64, ka: int, b: Float64, kb: int)
    requires
        is_halves(a, ka),
        is_halves(b, kb),
        fits(ka - kb),
    ensures
        is_halves(a.minus_spec(b), ka - kb),
{
    lemma_minus(a, b);
    assert(a.value() - b.value() == (ka - kb) * h() * 1) by (nonlinear_arith)
        requires
            a.value() == ka * h(),
            b.value() == kb * h(),
    ;
    lemma_is_halves(a.minus_spec(b), ka - kb, a.value() - b.value(), 1);
}

/// Half of an integer of moderate size is exact.
pub proof fn lemma_half_times(half: Float64, a: Float64, ka: int)
    requires
        is_halves(half, 1),
        is_halves(a, 2 * ka),
        fits(ka),
    ensures
        is_halves(half.times_spec(a), ka),
{
    lemma_times(half, a);
    lemma_pow2_pos(1074);
    lemma_pow2_unfold(1074);
    let num = half.value() * a.value();
    assert(num == ka * h() * Float64::unit()) by (nonlinear_arith)
        requires
            num == (1 * h()) * ((2 * ka) * h()),
            Float64::unit() == 2 * h(),
    ;
    lemma_is_halves(half.times_spec(a), ka, num, Float64::unit());
}

/// An integer of moderate size is halved exactly by division, too.
pub proof fn lemma_over_two(a: Float64, ka: int, two: Float64)
    requires
        is_halves(two, 4),
        is_halves(a, 2 * ka),
        -0x20_0000_0000_0000 <= ka <= 0x20_0000_0000_0000,
    ensures
        is_halves(a.over_spec(two), ka),
{
    lemma_pow2_pos(1073);
    lemma_pow2_unfold(1074);
    lemma_over(a, two);
    let num = a.value() * Float64::unit();
    assert(num == ka * h() * two.value()) by (nonlinear_arith)
        requires
            num == ((2 * ka) * h()) * Float64::unit(),
            Float64::unit() == 2 * h(),
            two.value() == 4 * h(),
    ;
    lemma_is_halves(a.over_spec(two), ka, num, two.value());
}

/// An integer of moderate size is represented exactly.
pub proof fn lemma_from_int(n: int)
    requires
        -0x20_0000_0000_0000 <= n <= 0x20_0000_0000_0000,
    ensures
        is_halves(Float64::from_int_spec(n), 2 * n),
        Float64::from_int_spec(n).negative() == (n < 0),
{
    lemma_pow2_pos(1074);
    lemma_pow2_unfold(1074);
    let a = if n < 0 {
        -n
    } else {
        n
    };
    let num = a * Float64::unit();
    assert(num == (2 * a) * h() * 1) by (nonlinear_arith)
        requires
            num == a * Float64::unit(),
            Float64::unit() == 2 * h(),
    ;
    assert(0 <= num) by (nonlinear_arith)
        requires
            num == a * Float64::unit(),
            0 <= a,
            0 < Float64::unit(),
    ;
    lemma_round_bounds(num, 1);
    let b = rounding::round(52, INF_BODY as int, num, 1);
    lemma_of(n < 0, b);
    lemma_of(false, b);
    lemma_is_halves(Float64::of(false, b), 2 * a, num, 1);
    assert((2 * n) * h() == if n < 0 {
        -((2 * a) * h())
    } else {
        (2 * a) * h()
    }) by (nonlinear_arith)
        requires
            a == if n < 0 {
                -n
            } else {
                n
            },
    ;
}

/// A number is rounded by at most `2^-53` of it, or by half of the smallest positive number.
pub proof fn lemma_relative_error(x: Float64, num: int, den: int)
    requires
        x.finite(),
        x.ordinal() == rounded_ordinal(num, den),
        0 <= num,
        0 < den,
    ensures
        ({
            let off = x.value() * den - num;
            ||| -num <= off * 0x20_0000_0000_0000 <= num
            ||| -den <= 2 * off <= den
        }),
        den == 1 ==> -num <= (x.value() - num) * 0x20_0000_0000_0000 <= num,
{
    let inf = INF_BODY as int;
    let b = rounding::round(52, inf, num, den);
    lemma2_to64_rest();
    lemma_round_bounds(num, den);
    rounding::lemma_rounding_exists(52, inf, num, den);
    lemma_zero_magnitude();
    let v = rounding::magnitude(52, b);
    assert(x.value() == v);
    let off = v * den - num;
    // the neighbour on the other side of `num`, and the scale of the gap
    if off > 0 {
        if b == 0 {
            assert(0 * den == 0) by (nonlinear_arith);
        }
        rounding::lemma_parts_of_body(52, b - 1);
        let t = rounding::scale_of(52, b - 1);
        let q = rounding::significand_of(52, b - 1);
        lemma_off_by_half_a_gap(q, t, v, off, num, den);
    } else if off < 0 {
        rounding::lemma_parts_of_body(52, b);
        let t = rounding::scale_of(52, b);
        let q = rounding::significand_of(52, b);
        lemma_off_by_half_a_gap(q, t, v, off, num, den);
    }
    assert(v * 1 == v);
}

/// Off by at most half of the gap above `q * 2^t`, which is not above `num / den`.
proof fn lemma_off_by_half_a_gap(q: int, t: nat, v: int, off: int, num: int, den: int)
    requires
        0 <= q,
        t == 0 || 0x10_0000_0000_0000 <= q,
        0 < den,
        off == v * den - num,
        off > 0 ==> v == (q + 1) * pow2(t) && (q * pow2(t) + v) * den <= 2 * num,
        off < 0 ==> v == q * pow2(t) && 2 * num <= (v + (q + 1) * pow2(t)) * den,
        off != 0,
    ensures
        ({
            ||| -num <= off * 0x20_0000_0000_0000 <= num
            ||| -den <= 2 * off <= den
        }),
        den == 1 ==> -num <= off * 0x20_0000_0000_0000 <= num,
{
    let g = pow2(t) * den;
    let low = q * pow2(t) * den;
    let a = if off > 0 {
        off
    } else {
        -off
    };
    lemma_pow2_pos(t);
    lemma2_to64();
    assert(low == q * g) by (nonlinear_arith)
        requires
            g == pow2(t) * den,
            low == q * pow2(t) * den,
    ;
    assert(0 < g) by (nonlinear_arith)
        requires
            g == pow2(t) * den,
            0 < pow2(t),
            0 < den,
    ;
    if off > 0 {
        assert(v * den == low + g && (q * pow2(t) + v) * den == 2 * low + g) by (nonlinear_arith)
            requires
                v == (q + 1) * pow2(t),
                low == q * pow2(t) * den,
                g == pow2(t) * den,
        ;
    } else {
        assert(v * den == low && (v + (q + 1) * pow2(t)) * den == 2 * low + g) by (nonlinear_arith)
            requires
                v == q * pow2(t),
                low == q * pow2(t) * den,
                g == pow2(t) * den,
        ;
    }
    assert(2 * a <= g && low <= num);
    if t == 0 {
        assert(g == den) by (nonlinear_arith)
            requires
                g == pow2(t) * den,
                pow2(t) == 1,
        ;
    } else {
        assert(0x10_0000_0000_0000 * g <= q * g) by (nonlinear_arith)
            requires
                0x10_0000_0000_0000 <= q,
                0 < g,
        ;
    }
}

/// The number nearest to `k` that is represented exactly at one digit less.
pub open spec fn nearest(k: int) -> int {
    if fits(k) {
        k
    } else {
        2 * (k / 2 + (k / 2) % 2)
    }
}

/// Half-way between two neighbours, rounding goes to the even one.
proof fn lemma_half_way(q: int, t: nat, num: int)
    requires
        0x10_0000_0000_0000 <= q < 0x20_0000_0000_0000,
        t <= 2000,
        2 * num == (2 * q + 1) * pow2(t),
    ensures
        rounding::round(52, INF_BODY as int, num, 1) == t * 0x10_0000_0000_0000 + q + q % 2,
{
    lemma2_to64_rest();
    lemma_pow2_pos(t);
    let b = t * 0x10_0000_0000_0000 + q;
    let p = pow2(t) as int;
    rounding::lemma_magnitude_of_parts(52, t, q);
    rounding::lemma_magnitude_of_parts(52, t, q + 1);
    rounding::lemma_magnitude_increases(52, b - 1, b);
    rounding::lemma_magnitude_increases(52, b + 1, b + 2);
    assert(q * p + (q + 1) * p == (2 * q + 1) * p && 2 * (q * p) < (2 * q + 1) * p && (2 * q + 1)
        * p < 2 * ((q + 1) * p)) by (nonlinear_arith)
        requires
            0 < p,
    ;
    let r = b + q % 2;
    assert(r % 2 == 0);
    assert(rounding::rounds_to(52, INF_BODY as int, r, num, 1));
    rounding::lemma_rounding_is_unique(52, INF_BODY as int, r, num, 1);
}

/// Integers of up to 54 digits are rounded alike at every scale.
pub proof fn lemma_rounds_to_nearest(x: Float64, k: int, e: nat)
    requires
        !x.nan(),
        0 <= k <= 0x40_0000_0000_0000,
        1 <= e <= 1500,
        x.ordinal() == rounded_ordinal(k * pow2(e), 1),
    ensures
        x.finite(),
        x.value() == nearest(k) * pow2(e),
{
    let num = k * pow2(e);
    let q = k / 2;
    lemma2_to64_rest();
    lemma_pow2_pos(e);
    lemma_pow2_unfold(e + 1);
    assert(0 <= num) by (nonlinear_arith)
        requires
            num == k * pow2(e),
            0 <= k,
    ;
    let b = if fits(k) {
        if k <= 0x20_0000_0000_0000 {
            lemma_representable(k, e)
        } else {
            assert(q * pow2(e + 1) == k * pow2(e)) by (nonlinear_arith)
                requires
                    k == 2 * q,
                    pow2(e + 1) == 2 * pow2(e),
            ;
            lemma_representable(q, e + 1)
        }
    } else {
        assert(2 * num == (2 * q + 1) * pow2(e + 1)) by (nonlinear_arith)
            requires
                num == k * pow2(e),
                k == 2 * q + 1,
                pow2(e + 1) == 2 * pow2(e),
        ;
        lemma_half_way(q, e + 1, num);
        let r = q + q % 2;
        rounding::lemma_magnitude_of_parts(52, e + 1, r);
        assert(r * pow2(e + 1) == (2 * r) * pow2(e)) by (nonlinear_arith)
            requires
                pow2(e + 1) == 2 * pow2(e),
        ;
        (e + 1) * 0x10_0000_0000_0000 + r
    };
    if fits(k) {
        rounding::lemma_representable_rounds_to_itself(52, INF_BODY as int, b, 1);
        assert(num * 1 == num);
    }
    let y = Float64::of(false, b);
    lemma_of(false, b);
    assert(x.ordinal() == b);
    lemma_value_order(x, y);
}

/// A positive half-integer has one representation.
pub proof fn lemma_same_halves(x: Float64, y: Float64, k: int)
    requires
        is_halves(x, k),
        is_halves(y, k),
        0 < k,
    ensures
        x == y,
{
    lemma_pow2_pos(1073);
    lemma_value_order(x, y);
    lemma_zero_magnitude();
    assert(0 < k * h()) by (nonlinear_arith)
        requires
            0 < k,
            0 < h(),
    ;
    x.lemma_magnitude_is_not_negative();
    y.lemma_magnitude_is_not_negative();
    lemma_same(x, y);
}

/// Zero and a positive number add up to a positive number.
pub proof fn lemma_zero_plus(x: Float64)
    requires
        Float64::zero_spec(false).lt_spec(x),
    ensures
        Float64::zero_spec(false).lt_spec(Float64::zero_spec(false).plus_spec(x)),
{
    let zero = Float64::zero_spec(false);
    if x.finite() {
        lemma_zero_magnitude();
        lemma_plus(zero, x);
        lemma_rounded_exact(x, 1);
        assert(zero.value() + x.value() == x.value() * 1);
    }
}

/// Sums of numbers that are not negative keep their order.
pub proof fn lemma_sums_keep_order(a: Float64, b: Float64, x: Float64, y: Float64)
    requires
        Float64::zero_spec(false).le_spec(a),
        Float64::zero_spec(false).le_spec(x),
        a.le_spec(b),
        x.le_spec(y),
    ensures
        a.plus_spec(x).le_spec(b.plus_spec(y)),
{
    if b.infinite() || y.infinite() {
        if a.finite() && x.finite() {
            lemma_plus(a, x);
        }
    } else {
        lemma_value_order(a, b);
        lemma_value_order(x, y);
        lemma_plus(a, x);
        lemma_plus(b, y);
        lemma_rounded_order(a.value() + x.value(), 1, b.value() + y.value(), 1);
    }
}

} // verus!
