//! Rounding of exact rational numbers to a binary floating-point format.
//!
//! A format is given by its number of fraction bits `fb` and by the body `inf` of its
//! infinity. A *body* is the bit pattern of a non-negative number: the biased exponent
//! above the fraction. Consecutive bodies stand for consecutive representable numbers,
//! and every finite number is a natural multiple of the smallest positive one. All
//! magnitudes below are counted in that unit, so they are exact natural numbers.
use vstd::arithmetic::div_mod::*;
use vstd::arithmetic::power2::*;
use vstd::prelude::*;

verus! {

/// The magnitude that the body `b` stands for, in units of the smallest positive number.
/// For the body of infinity it is the number that would follow the largest finite one.
pub open spec fn magnitude(fb: nat, b: int) -> int {
    let one = pow2(fb) as int;
    if b / one == 0 {
        b % one
    } else {
        (one + b % one) * pow2((b / one - 1) as nat)
    }
}

/// `b` is the body nearest to `num / den`, and the one with an even last bit where two
/// are equally near. From half-way past the largest finite number on, that is infinity.
pub open spec fn rounds_to(fb: nat, inf: int, b: int, num: int, den: int) -> bool {
    &&& 0 <= b <= inf
    &&& b > 0 ==> {
        let mid = (magnitude(fb, b - 1) + magnitude(fb, b)) * den;
        mid < 2 * num || (mid == 2 * num && b % 2 == 0)
    }
    &&& b < inf ==> {
        let mid = (magnitude(fb, b) + magnitude(fb, b + 1)) * den;
        2 * num < mid || (mid == 2 * num && b % 2 == 0)
    }
}

/// The body that `num / den` rounds to.
pub open spec fn round(fb: nat, inf: int, num: int, den: int) -> int {
    choose|b: int| rounds_to(fb, inf, b, num, den)
}

/// Binary exponent of the spacing at the body `b`.
pub open spec fn scale_of(fb: nat, b: int) -> nat {
    let one = pow2(fb) as int;
    if b / one == 0 {
        0
    } else {
        (b / one - 1) as nat
    }
}

/// Significand of the body `b`: its magnitude counted in the spacing at `b`.
pub open spec fn significand_of(fb: nat, b: int) -> int {
    b - scale_of(fb, b) * pow2(fb)
}

/// A body put together from a scale and a significand has the magnitude
/// `q * 2^t`, also where the significand has just overflowed into the next scale.
pub proof fn lemma_magnitude_of_parts(fb: nat, t: nat, q: int)
    requires
        0 <= q <= 2 * pow2(fb),
        t == 0 || pow2(fb) <= q,
    ensures
        magnitude(fb, t * pow2(fb) + q) == q * pow2(t),
{
    let one = pow2(fb) as int;
    lemma_pow2_pos(fb);
    let b = t * one + q;
    lemma2_to64();
    if q < one {
        lemma_small_mod(q as nat, one as nat);
        lemma_basic_div(q, one);
        assert(b == q) by (nonlinear_arith)
            requires
                b == t * one + q,
                t == 0,
        ;
        assert(q * pow2(0) == q);
    } else if q < 2 * one {
        assert(b == (t + 1) * one + (q - one)) by (nonlinear_arith)
            requires
                b == t * one + q,
        ;
        lemma_fundamental_div_mod_converse(b, one, t as int + 1, q - one);
    } else {
        assert(b == (t + 2) * one + 0) by (nonlinear_arith)
            requires
                b == t * one + q,
                q == 2 * one,
        ;
        lemma_fundamental_div_mod_converse(b, one, t as int + 2, 0);
        lemma_pow2_unfold((t + 1) as nat);
        assert(one * (2 * pow2(t)) == q * pow2(t)) by (nonlinear_arith)
            requires
                q == 2 * one,
        ;
    }
}

/// Every body is put together from its scale and its significand, and the next body has
/// the next significand at the same scale.
pub proof fn lemma_parts_of_body(fb: nat, b: int)
    requires
        0 <= b,
    ensures
        0 <= significand_of(fb, b) < 2 * pow2(fb),
        scale_of(fb, b) == 0 || pow2(fb) <= significand_of(fb, b),
        b == scale_of(fb, b) * pow2(fb) + significand_of(fb, b),
        magnitude(fb, b) == significand_of(fb, b) * pow2(scale_of(fb, b)),
        magnitude(fb, b + 1) == (significand_of(fb, b) + 1) * pow2(scale_of(fb, b)),
{
    let one = pow2(fb) as int;
    lemma_pow2_pos(fb);
    let t = scale_of(fb, b);
    let q = significand_of(fb, b);
    lemma_fundamental_div_mod(b, one);
    lemma_mod_bound(b, one);
    lemma_div_pos_is_pos(b, one);
    if b / one == 0 {
        assert(one * 0 == 0);
        assert(0 * one == 0);
    } else {
        assert(q == one + b % one) by (nonlinear_arith)
            requires
                b == one * (b / one) + b % one,
                q == b - (b / one - 1) * one,
        ;
    }
    lemma_magnitude_of_parts(fb, t, q);
    lemma_magnitude_of_parts(fb, t, q + 1);
}

/// Magnitudes grow with the body.
pub proof fn lemma_magnitude_increases(fb: nat, a: int, b: int)
    requires
        0 <= a < b,
    ensures
        0 <= magnitude(fb, a) < magnitude(fb, b),
    decreases b - a,
{
    lemma_parts_of_body(fb, a);
    let t = scale_of(fb, a);
    let q = significand_of(fb, a);
    lemma_pow2_pos(t);
    assert(0 <= q * pow2(t) < (q + 1) * pow2(t)) by (nonlinear_arith)
        requires
            0 <= q,
            0 < pow2(t),
    ;
    if a + 1 < b {
        lemma_magnitude_increases(fb, a + 1, b);
    }
}

/// Rounding keeps the order of the numbers rounded.
pub proof fn lemma_rounding_is_monotone(
    fb: nat,
    inf: int,
    b1: int,
    num1: int,
    den1: int,
    b2: int,
    num2: int,
    den2: int,
)
    requires
        0 < den1,
        0 < den2,
        num1 * den2 <= num2 * den1,
        rounds_to(fb, inf, b1, num1, den1),
        rounds_to(fb, inf, b2, num2, den2),
    ensures
        b1 <= b2,
{
    if b1 > b2 {
        let x = magnitude(fb, b2) + magnitude(fb, b2 + 1);
        let y = magnitude(fb, b1 - 1) + magnitude(fb, b1);
        if b1 - 1 > b2 {
            lemma_magnitude_increases(fb, b2, b1 - 1);
            lemma_magnitude_increases(fb, b2 + 1, b1);
        }
        assert(x <= y);
        assert(y * den1 <= 2 * num1);
        assert(2 * num2 <= x * den2);
        assert(y * den1 * den2 <= 2 * num1 * den2) by (nonlinear_arith)
            requires
                y * den1 <= 2 * num1,
                0 < den2,
        ;
        assert(2 * num2 * den1 <= x * den2 * den1) by (nonlinear_arith)
            requires
                2 * num2 <= x * den2,
                0 < den1,
        ;
        assert(y * (den1 * den2) <= x * (den1 * den2)) by (nonlinear_arith)
            requires
                y * den1 * den2 <= 2 * num1 * den2,
                2 * num2 * den1 <= x * den2 * den1,
                num1 * den2 <= num2 * den1,
        ;
        assert(0 < den1 * den2) by (nonlinear_arith)
            requires
                0 < den1,
                0 < den2,
        ;
        assert(y <= x) by (nonlinear_arith)
            requires
                y * (den1 * den2) <= x * (den1 * den2),
                0 < den1 * den2,
        ;
        assert(b1 - 1 == b2);
        if y * den1 < 2 * num1 {
            assert(y * (den1 * den2) < x * (den1 * den2)) by (nonlinear_arith)
                requires
                    y * den1 < 2 * num1,
                    0 < den2,
                    2 * num2 * den1 <= x * den2 * den1,
                    num1 * den2 <= num2 * den1,
            ;
        }
        if 2 * num2 < x * den2 {
            assert(y * (den1 * den2) < x * (den1 * den2)) by (nonlinear_arith)
                requires
                    2 * num2 < x * den2,
                    0 < den1,
                    y * den1 * den2 <= 2 * num1 * den2,
                    num1 * den2 <= num2 * den1,
            ;
        }
        assert(b1 % 2 == 0 && b2 % 2 == 0);
        assert(false);
    }
}

/// A number rounds to one body only.
pub proof fn lemma_rounding_is_unique(fb: nat, inf: int, b: int, num: int, den: int)
    requires
        0 < den,
        rounds_to(fb, inf, b, num, den),
    ensures
        round(fb, inf, num, den) == b,
{
    let c = round(fb, inf, num, den);
    lemma_rounding_is_monotone(fb, inf, b, num, den, c, num, den);
    lemma_rounding_is_monotone(fb, inf, c, num, den, b, num, den);
}

/// A number that is representable rounds to itself.
pub proof fn lemma_representable_rounds_to_itself(fb: nat, inf: int, b: int, den: int)
    requires
        0 <= b <= inf,
        0 < den,
    ensures
        rounds_to(fb, inf, b, magnitude(fb, b) * den, den),
        round(fb, inf, magnitude(fb, b) * den, den) == b,
{
    let num = magnitude(fb, b) * den;
    lemma_magnitude_increases(fb, b, b + 1);
    assert(2 * num < (magnitude(fb, b) + magnitude(fb, b + 1)) * den) by (nonlinear_arith)
        requires
            num == magnitude(fb, b) * den,
            magnitude(fb, b) < magnitude(fb, b + 1),
            0 < den,
    ;
    if b > 0 {
        lemma_magnitude_increases(fb, b - 1, b);
        assert((magnitude(fb, b - 1) + magnitude(fb, b)) * den < 2 * num) by (nonlinear_arith)
            requires
                num == magnitude(fb, b) * den,
                magnitude(fb, b - 1) < magnitude(fb, b),
                0 < den,
        ;
    }
    lemma_rounding_is_unique(fb, inf, b, num, den);
}

/// Every non-negative number rounds to some body.
pub proof fn lemma_rounding_exists(fb: nat, inf: int, num: int, den: int)
    requires
        0 <= num,
        0 < den,
        0 <= inf,
    ensures
        rounds_to(fb, inf, round(fb, inf, num, den), num, den),
{
    lemma_rounding_exists_up_to(fb, inf, inf, num, den);
}

/// As `lemma_rounding_exists`, searching from the body `hi` downwards.
proof fn lemma_rounding_exists_up_to(fb: nat, inf: int, hi: int, num: int, den: int)
    requires
        0 <= num,
        0 < den,
        0 <= hi <= inf,
        hi < inf ==> {
            let mid = (magnitude(fb, hi) + magnitude(fb, hi + 1)) * den;
            2 * num < mid || (mid == 2 * num && hi % 2 == 0)
        },
    ensures
        exists|b: int| rounds_to(fb, inf, b, num, den),
    decreases hi,
{
    if hi == 0 {
        assert(rounds_to(fb, inf, 0, num, den));
    } else {
        let mid = (magnitude(fb, hi - 1) + magnitude(fb, hi)) * den;
        if mid < 2 * num || (mid == 2 * num && hi % 2 == 0) {
            assert(rounds_to(fb, inf, hi, num, den));
        } else {
            lemma_rounding_exists_up_to(fb, inf, hi - 1, num, den);
        }
    }
}

/// Shift that keeps the exponents used by `located` non-negative.
pub open spec fn offset() -> nat {
    1200
}

/// `num / den` lies at `m * 2^e` exactly, or, where `inexact`, strictly between
/// `m * 2^e` and `(m + 1) * 2^e`.
pub open spec fn located(m: int, e: int, inexact: bool, num: int, den: int) -> bool {
    let unit = pow2((e + offset()) as nat) * den;
    let n = num * pow2(offset());
    if inexact {
        m * unit < n < (m + 1) * unit
    } else {
        n == m * unit
    }
}

/// Where `num / den` lies in the gap above the body with scale `t` and significand `q`,
/// comparing it with the middle of the gap decides to which end it rounds.
proof fn lemma_round_in_gap(fb: nat, top: nat, t: nat, q: int, up: bool, num: int, den: int)
    requires
        1 <= fb,
        0 <= q < 2 * pow2(fb),
        t == 0 || pow2(fb) <= q,
        t + 2 <= top,
        0 < den,
        q * pow2(t) * den <= num < (q + 1) * pow2(t) * den,
        up ==> (2 * q + 1) * pow2(t) * den < 2 * num || ((2 * q + 1) * pow2(t) * den == 2 * num && q
            % 2 == 1),
        !up ==> 2 * num < (2 * q + 1) * pow2(t) * den || ((2 * q + 1) * pow2(t) * den == 2 * num
            && q % 2 == 0),
    ensures
        rounds_to(
            fb,
            top as int * pow2(fb),
            t * pow2(fb) + q + if up {
                1int
            } else {
                0
            },
            num,
            den,
        ),
{
    let one = pow2(fb) as int;
    let p = pow2(t) as int;
    let inf = top * one;
    let b = t * one + q;
    lemma_pow2_pos(fb);
    lemma_pow2_pos(t);
    lemma_pow2_unfold(fb);
    let half = pow2((fb - 1) as nat) as int;
    lemma_magnitude_of_parts(fb, t, q);
    lemma_magnitude_of_parts(fb, t, q + 1);
    assert(t * one + (q + 1) == b + 1);
    assert(b % 2 == q % 2) by {
        assert(b == 2 * (t * half) + q) by (nonlinear_arith)
            requires
                b == t * one + q,
                one == 2 * half,
        ;
    }
    assert(0 <= b < b + 1 <= inf) by (nonlinear_arith)
        requires
            b == t * one + q,
            inf == top * one,
            t + 2 <= top,
            0 <= t,
            0 <= q < 2 * one,
            0 < one,
    ;
    assert((q * p + (q + 1) * p) * den == (2 * q + 1) * p * den) by (nonlinear_arith);
    if up {
        if b + 1 < inf {
            lemma_magnitude_increases(fb, b + 1, b + 2);
            let m1 = magnitude(fb, b + 1);
            let m2 = magnitude(fb, b + 2);
            assert(2 * num < (m1 + m2) * den) by (nonlinear_arith)
                requires
                    num < m1 * den,
                    m1 < m2,
                    0 < den,
            ;
        }
    } else {
        if b > 0 {
            lemma_magnitude_increases(fb, b - 1, b);
            let m0 = magnitude(fb, b - 1);
            let m1 = magnitude(fb, b);
            assert((m0 + m1) * den < 2 * num) by (nonlinear_arith)
                requires
                    m1 * den <= num,
                    m0 < m1,
                    0 < den,
            ;
        }
    }
}

/// As `lemma_round_in_gap`, for a number that is located by `m` and `e`: dividing `m` by
/// `2^d` leaves the significand `q` and a remainder `r`, which is compared with half.
proof fn lemma_round_located(
    fb: nat,
    top: nat,
    t: nat,
    e: int,
    m: int,
    q: int,
    r: int,
    inexact: bool,
    up: bool,
    num: int,
    den: int,
)
    requires
        1 <= fb,
        0 <= q < 2 * pow2(fb),
        t == 0 || pow2(fb) <= q,
        t + 2 <= top,
        0 < den,
        -offset() <= e < t,
        m == q * pow2((t - e) as nat) + r,
        0 <= r < pow2((t - e) as nat),
        located(m, e, inexact, num, den),
        up == (2 * r > pow2((t - e) as nat) || (2 * r == pow2((t - e) as nat) && (inexact || q % 2
            == 1))),
    ensures
        rounds_to(
            fb,
            top as int * pow2(fb),
            t * pow2(fb) + q + if up {
                1int
            } else {
                0
            },
            num,
            den,
        ),
{
    let k = pow2(offset()) as int;
    let d = pow2((t - e) as nat) as int;
    let u = pow2((e + offset()) as nat) * den;
    let n = num * k;
    let p = pow2(t) as int;
    lemma_pow2_pos(offset());
    lemma_pow2_pos((t - e) as nat);
    lemma_pow2_pos((e + offset()) as nat);
    lemma_pow2_adds(t, offset());
    lemma_pow2_adds((t - e) as nat, (e + offset()) as nat);
    assert(p * k == d * pow2((e + offset()) as nat));
    assert(0 < u) by (nonlinear_arith)
        requires
            0 < den,
            0 < pow2((e + offset()) as nat),
            u == pow2((e + offset()) as nat) * den,
    ;
    // everything below is compared after multiplication by `k`
    assert forall|x: int| #[trigger] (x * p * den) * k == x * (d * u) by {
        let v = pow2((e + offset()) as nat) as int;
        assert((x * p * den) * k == x * (p * k) * den) by (nonlinear_arith);
        assert(x * (d * v) * den == x * (d * (v * den))) by (nonlinear_arith);
    }
    assert(m * u <= n < (m + 1) * u) by (nonlinear_arith)
        requires
            inexact ==> m * u < n < (m + 1) * u,
            !inexact ==> n == m * u,
            0 < u,
    ;
    assert(q * d * u <= m * u) by (nonlinear_arith)
        requires
            m == q * d + r,
            0 <= r,
            0 < u,
    ;
    assert((m + 1) * u <= (q + 1) * d * u) by (nonlinear_arith)
        requires
            m == q * d + r,
            r + 1 <= d,
            0 < u,
    ;
    assert(q * d * u == (q * p * den) * k) by (nonlinear_arith)
        requires
            (q * p * den) * k == q * (d * u),
    ;
    assert((q + 1) * d * u == ((q + 1) * p * den) * k) by (nonlinear_arith)
        requires
            ((q + 1) * p * den) * k == (q + 1) * (d * u),
    ;
    assert(q * p * den <= num) by (nonlinear_arith)
        requires
            (q * p * den) * k <= num * k,
            0 < k,
    ;
    assert(num < (q + 1) * p * den) by (nonlinear_arith)
        requires
            num * k < ((q + 1) * p * den) * k,
            0 < k,
    ;
    let mid = (2 * q + 1) * p * den;
    assert(mid * k == (2 * q + 1) * (d * u));
    lemma_pow2_unfold((t - e) as nat);
    let h = pow2((t - e - 1) as nat) as int;
    assert(d == 2 * h);
    assert(mid * k == 2 * ((q * d + h) * u)) by (nonlinear_arith)
        requires
            mid * k == (2 * q + 1) * (d * u),
            d == 2 * h,
    ;
    if r < h {
        assert((m + 1) * u <= (q * d + h) * u) by (nonlinear_arith)
            requires
                m == q * d + r,
                r + 1 <= h,
                0 < u,
        ;
        assert(2 * num < mid) by (nonlinear_arith)
            requires
                2 * (num * k) < mid * k,
                0 < k,
        ;
    } else if r > h {
        assert((q * d + h) * u < m * u) by (nonlinear_arith)
            requires
                m == q * d + r,
                r > h,
                0 < u,
        ;
        assert(2 * num > mid) by (nonlinear_arith)
            requires
                2 * (num * k) > mid * k,
                0 < k,
        ;
    } else {
        assert(m * u == (q * d + h) * u);
        if inexact {
            assert(2 * num > mid) by (nonlinear_arith)
                requires
                    2 * (num * k) > mid * k,
                    0 < k,
            ;
        } else {
            assert(2 * num == mid) by (nonlinear_arith)
                requires
                    2 * (num * k) == mid * k,
                    0 < k,
            ;
        }
    }
    lemma_round_in_gap(fb, top, t, q, up, num, den);
}

proof fn lemma_one_shifted(d: u128)
    requires
        d < 128,
    ensures
        1u128 << d == pow2(d as nat),
    decreases d,
{
    lemma2_to64();
    if d == 0 {
        assert(1u128 << 0u128 == 1u128) by (bit_vector);
    } else {
        let c = (d - 1) as u128;
        lemma_one_shifted(c);
        assert(1u128 << d == 2 * (1u128 << c)) by (bit_vector)
            requires
                0 < d < 128,
                c == d - 1,
        ;
        lemma_pow2_unfold(d as nat);
    }
}

/// `2^d`.
pub(crate) fn power_of_two(d: u32) -> (p: u128)
    requires
        d < 128,
    ensures
        p == pow2(d as nat),
{
    proof {
        lemma_one_shifted(d as u128);
    }
    1u128 << (d as u128)
}

/// The number of binary digits of `m`.
pub(crate) fn bit_length(m: u128) -> (n: u32)
    ensures
        n <= 128,
        m < pow2(n as nat),
        m > 0 ==> n > 0 && pow2((n - 1) as nat) <= m,
        m == 0 ==> n == 0,
{
    let mut rest: u128 = m;
    let mut n: u32 = 0;
    proof {
        lemma2_to64();
        assert(m * pow2(0) == m);
        assert((m + 1) * pow2(0) == m + 1);
    }
    while rest > 0
        invariant
            n <= 128,
            rest * pow2(n as nat) <= m < (rest + 1) * pow2(n as nat),
            n > 0 ==> pow2((n - 1) as nat) <= m,
            m == 0 ==> n == 0 && rest == 0,
        decreases rest,
    {
        let step: u32 = if rest >= 0x1_0000_0000u128 {
            32
        } else {
            1
        };
        let divisor: u128 = if rest >= 0x1_0000_0000u128 {
            0x1_0000_0000u128
        } else {
            2
        };
        let next: u128 = rest / divisor;
        proof {
            lemma2_to64();
            lemma2_to64_rest();
            assert(divisor == pow2(step as nat));
            let p = pow2(n as nat) as int;
            let s = divisor as int;
            lemma_pow2_pos(n as nat);
            lemma_pow2_adds(step as nat, n as nat);
            lemma_fundamental_div_mod(rest as int, s);
            lemma_mod_bound(rest as int, s);
            assert(next * (s * p) <= rest * p) by (nonlinear_arith)
                requires
                    rest == s * next + rest as int % s,
                    0 <= rest as int % s,
                    0 < p,
            ;
            assert((rest + 1) * p <= (next + 1) * (s * p)) by (nonlinear_arith)
                requires
                    rest == s * next + rest as int % s,
                    rest as int % s < s,
                    0 < p,
            ;
            assert(pow2((n + step - 1) as nat) <= m) by {
                lemma_pow2_adds((step - 1) as nat, n as nat);
                let h = pow2((step - 1) as nat) as int;
                assert(h <= rest);
                assert(h * p <= rest * p) by (nonlinear_arith)
                    requires
                        h <= rest,
                        0 < p,
                ;
            }
            assert(n + step <= 128) by {
                if n + step > 128 {
                    lemma2_to64_rest();
                    lemma_pow2_adds(64, 64);
                    assert(pow2(128) == 0x1_0000_0000_0000_0000int * 0x1_0000_0000_0000_0000int);
                    if n + step - 1 > 128 {
                        lemma_pow2_strictly_increases(128, (n + step - 1) as nat);
                    }
                    assert(pow2(128) <= m);
                }
            }
        }
        rest = next;
        n = n + step;
    }
    proof {
        assert((0 + 1) * pow2(n as nat) == pow2(n as nat)) by (nonlinear_arith);
    }
    n
}

proof fn lemma_pow2_at_most(a: nat, b: nat)
    requires
        a <= b,
    ensures
        pow2(a) <= pow2(b),
{
    if a < b {
        lemma_pow2_strictly_increases(a, b);
    }
}

/// A number below half of the smallest positive one rounds to zero.
proof fn lemma_tiny_rounds_to_zero(fb: nat, inf: int, num: int, den: int)
    requires
        0 < inf,
        0 < den,
        0 <= 2 * num < den,
    ensures
        rounds_to(fb, inf, 0, num, den),
{
    lemma_pow2_pos(fb);
    lemma2_to64();
    lemma_magnitude_of_parts(fb, 0, 0);
    lemma_magnitude_of_parts(fb, 0, 1);
    assert((0 + 1) * den == den) by (nonlinear_arith);
}

/// A number from the one that follows the largest finite one on rounds to infinity.
proof fn lemma_huge_rounds_to_infinity(fb: nat, top: nat, num: int, den: int)
    requires
        0 < top,
        0 < den,
        pow2((fb + top - 1) as nat) * den <= num,
    ensures
        rounds_to(fb, top as int * pow2(fb), top as int * pow2(fb), num, den),
{
    let one = pow2(fb) as int;
    let inf = top as int * one;
    lemma_pow2_pos(fb);
    lemma_magnitude_of_parts(fb, (top - 1) as nat, one);
    assert((top - 1) * one + one == inf) by (nonlinear_arith)
        requires
            inf == top * one,
    ;
    lemma_pow2_adds(fb, (top - 1) as nat);
    assert(0 < inf) by (nonlinear_arith)
        requires
            inf == top * one,
            0 < top,
            0 < one,
    ;
    lemma_magnitude_increases(fb, inf - 1, inf);
    let m0 = magnitude(fb, inf - 1);
    let m1 = magnitude(fb, inf);
    assert((m0 + m1) * den < 2 * num) by (nonlinear_arith)
        requires
            m0 < m1,
            m1 * den <= num,
            0 < den,
    ;
}

/// A located number is at least `2^x` where `m * 2^e` is.
proof fn lemma_located_at_least(
    m: int,
    e: int,
    inexact: bool,
    num: int,
    den: int,
    lo: nat,
    x: nat,
)
    requires
        located(m, e, inexact, num, den),
        -offset() <= e,
        0 < den,
        pow2(lo) <= m,
        x <= lo + e,
    ensures
        pow2(x) * den <= num,
{
    let k = pow2(offset()) as int;
    let v = pow2((e + offset()) as nat) as int;
    let u = v * den;
    lemma_pow2_pos(offset());
    lemma_pow2_pos((e + offset()) as nat);
    lemma_pow2_adds(lo, (e + offset()) as nat);
    lemma_pow2_adds(x, offset());
    lemma_pow2_at_most((x + offset()) as nat, (lo + e + offset()) as nat);
    assert(pow2(x) * k <= pow2(lo) * v);
    assert(m * u <= num * k);
    assert((pow2(x) * den) * k <= num * k) by (nonlinear_arith)
        requires
            pow2(x) * k <= pow2(lo) * v,
            pow2(lo) <= m,
            0 < v,
            0 < den,
            u == v * den,
            m * u <= num * k,
    ;
    assert(pow2(x) * den <= num) by (nonlinear_arith)
        requires
            (pow2(x) * den) * k <= num * k,
            0 < k,
    ;
}

/// The body that a located number rounds to, in the format with `fb` fraction bits and
/// `top` as the exponent of infinity.
pub(crate) fn round_located(
    fb: u32,
    top: u32,
    m: u128,
    e: i32,
    inexact: bool,
    Ghost(num): Ghost<int>,
    Ghost(den): Ghost<int>,
) -> (b: u64)
    requires
        (fb == 52 && top == 2047) || (fb == 23 && top == 255),
        -1200 <= e <= 4000,
        m < pow2(127),
        inexact ==> m >= pow2((fb + 2) as nat),
        0 <= num,
        0 < den,
        located(m as int, e as int, inexact, num, den),
    ensures
        rounds_to(fb as nat, top * pow2(fb as nat), b as int, num, den),
{
    let ghost one = pow2(fb as nat) as int;
    let ghost inf = top * one;
    let ghost k = pow2(offset()) as int;
    proof {
        lemma2_to64();
        lemma2_to64_rest();
        lemma_pow2_pos(offset());
        lemma_pow2_pos((fb + 2) as nat);
        assert(one == 0x10_0000_0000_0000 || one == 0x80_0000);
        assert(0 < inf <= 0x7ff0_0000_0000_0000);
    }
    if m == 0 {
        proof {
            let u = pow2((e + offset()) as nat) * den;
            assert(0 * u == 0) by (nonlinear_arith);
            assert(num == 0) by (nonlinear_arith)
                requires
                    num * k == 0,
                    0 < k,
            ;
            lemma_tiny_rounds_to_zero(fb as nat, inf, num, den);
        }
        return 0;
    }
    let length: u32 = bit_length(m);
    proof {
        if length > 127 {
            if length > 128 {
                lemma_pow2_strictly_increases(127, (length - 1) as nat);
            }
            assert(false);
        }
        if inexact && length < fb + 3 {
            if length < fb + 2 {
                lemma_pow2_strictly_increases(length as nat, (fb + 2) as nat);
            }
            assert(false);
        }
    }
    // `m * 2^e` has this many binary digits before the point
    let digits: i32 = length as i32 + e;
    let t: i32 = if digits > fb as i32 + 1 {
        digits - fb as i32 - 1
    } else {
        0
    };
    if t > top as i32 - 2 {
        proof {
            lemma_located_at_least(
                m as int,
                e as int,
                inexact,
                num,
                den,
                (length - 1) as nat,
                (fb + top - 1) as nat,
            );
            lemma_huge_rounds_to_infinity(fb as nat, top as nat, num, den);
        }
        return (top as u64) * (power_of_two(fb) as u64);
    }
    let base: u64 = (t as u64) * (power_of_two(fb) as u64);
    let d: i32 = t - e;
    if d <= 0 {
        let shift: u32 = (e - t) as u32;
        let p: u128 = power_of_two(shift);
        proof {
            lemma_pow2_pos(shift as nat);
            lemma_pow2_adds(length as nat, shift as nat);
            lemma_pow2_adds((length - 1) as nat, shift as nat);
            lemma_pow2_at_most((length + shift) as nat, (fb + 1) as nat);
            lemma_pow2_unfold((fb + 1) as nat);
            assert(pow2((length - 1) as nat) * p <= m * p < pow2(length as nat) * p)
                by (nonlinear_arith)
                requires
                    pow2((length - 1) as nat) <= m < pow2(length as nat),
                    0 < p,
            ;
        }
        let q: u128 = m * p;
        proof {
            let g = pow2((e + offset()) as nat) * den;
            lemma_magnitude_of_parts(fb as nat, t as nat, q as int);
            lemma_pow2_adds(shift as nat, t as nat);
            lemma_pow2_adds(e as nat, offset());
            // the number is `q * 2^t` exactly
            assert(q * pow2(t as nat) == m * pow2(e as nat)) by (nonlinear_arith)
                requires
                    q == m * p,
                    pow2(e as nat) == p * pow2(t as nat),
            ;
            assert((m * pow2(e as nat)) * den * k == m * g) by (nonlinear_arith)
                requires
                    g == (pow2(e as nat) * k) * den,
            ;
            assert(num == (m * pow2(e as nat)) * den) by (nonlinear_arith)
                requires
                    num * k == (m * pow2(e as nat)) * den * k,
                    0 < k,
            ;
            assert(0 <= base + q <= inf) by (nonlinear_arith)
                requires
                    base == t * one,
                    0 <= t,
                    t + 2 <= top,
                    0 <= q <= 2 * one,
                    inf == top * one,
                    0 < one,
            ;
            lemma_representable_rounds_to_itself(fb as nat, inf, base + q, den);
        }
        base + q as u64
    } else if d >= 128 {
        proof {
            let v = pow2((e + offset()) as nat) as int;
            let u = v * den;
            lemma_pow2_pos((e + offset()) as nat);
            lemma_pow2_adds(127, (e + offset()) as nat);
            lemma_pow2_at_most((127 + e + offset()) as nat, (offset() - 1) as nat);
            lemma_pow2_unfold(offset());
            assert(num * k < (m + 1) * u || num * k <= m * u);
            assert(0 < u) by (nonlinear_arith)
                requires
                    0 < v,
                    0 < den,
                    u == v * den,
            ;
            assert(m * u < (m + 1) * u) by (nonlinear_arith)
                requires
                    0 < u,
            ;
            assert((m + 1) * u <= (pow2(127) * v) * den) by (nonlinear_arith)
                requires
                    m + 1 <= pow2(127),
                    0 < v,
                    0 < den,
                    u == v * den,
            ;
            assert(2 * num < den) by (nonlinear_arith)
                requires
                    num * k < (pow2(127) * v) * den,
                    2 * (pow2(127) * v) <= k,
                    0 < den,
                    0 < k,
            ;
            lemma_tiny_rounds_to_zero(fb as nat, inf, num, den);
        }
        0
    } else {
        let p: u128 = power_of_two(d as u32);
        proof {
            lemma_pow2_pos(d as nat);
            lemma_pow2_unfold(d as nat);
        }
        let q: u128 = m / p;
        let r: u128 = m % p;
        let half: u128 = p / 2;
        let up: bool = r > half || (r == half && (inexact || q % 2 == 1));
        proof {
            lemma_fundamental_div_mod(m as int, p as int);
            lemma_mod_bound(m as int, p as int);
            assert(m == q * p + r) by (nonlinear_arith)
                requires
                    m == p * q + r,
            ;
            lemma_pow2_unfold((fb + 1) as nat);
            lemma_pow2_adds((fb + 1) as nat, d as nat);
            lemma_pow2_at_most(length as nat, (fb + 1 + d) as nat);
            assert(q < 2 * one) by (nonlinear_arith)
                requires
                    q * p <= m,
                    m < 2 * one * p,
                    0 < p,
            ;
            if t > 0 {
                lemma_pow2_adds(fb as nat, d as nat);
                assert(one <= q) by (nonlinear_arith)
                    requires
                        one * p <= m,
                        m == q * p + r,
                        r < p,
                ;
            }
            lemma_round_located(
                fb as nat,
                top as nat,
                t as nat,
                e as int,
                m as int,
                q as int,
                r as int,
                inexact,
                up,
                num,
                den,
            );
        }
        base + q as u64 + if up {
            1
        } else {
            0
        }
    }
}

} // verus!
