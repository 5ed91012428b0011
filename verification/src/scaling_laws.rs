//! Scaling the weights of a digest leaves its estimates alone, but for rounding.
use vstd::arithmetic::power2::*;
use vstd::prelude::*;

use crate::cdf;
use crate::cdf::{CdfModel, Slot};
use crate::cdf_laws;
use crate::centroid::Centroid;
use crate::exact;
use crate::float::Float64;
use crate::weights;

verus! {

/// The exact sum of numbers, in units of the smallest positive number.
pub open spec fn mass(ws: Seq<Float64>) -> int
    decreases ws.len(),
{
    if ws.len() == 0 {
        0
    } else {
        mass(ws.drop_last()) + ws.last().value()
    }
}

/// `x * den` is `ideal` but for `k` times `2^-52` of it.
pub open spec fn within(x: int, den: int, ideal: int, k: int) -> bool {
    -(k * ideal) <= (x * den - ideal) * 0x10_0000_0000_0000 <= k * ideal
}

/// Weights that neither underflow nor overflow: each is at least `2^-1020`, their sum is at
/// most `2^1019`, and no weight is less than a `2^-1018`th of the sum.
pub open spec fn moderate(ws: Seq<Float64>) -> bool {
    &&& 0 < ws.len() <= 0x100_0000_0000
    &&& forall|i: int|
        0 <= i < ws.len() ==> {
            &&& (#[trigger] ws[i]).finite()
            &&& pow2(54) <= ws[i].value()
            &&& 0x100_0000_0000_0000 * mass(ws) <= ws[i].value() * Float64::unit()
        }
    &&& mass(ws) <= pow2(2093)
}

/// Powers of two that bound the numerators.
pub proof fn lemma_powers()
    ensures
        pow2(52) == 0x10_0000_0000_0000,
        pow2(54) == 4 * pow2(52),
        16 * pow2(2093) == pow2(2097),
        0 < pow2(2093),
{
    lemma2_to64();
    lemma2_to64_rest();
    lemma_pow2_adds(4, 2093);
    lemma_pow2_pos(2093);
}

/// What is rounded from a number that is not too large is a number.
pub proof fn lemma_not_too_large(x: Float64, num: int, den: int)
    requires
        !x.nan(),
        x.ordinal() == exact::rounded_ordinal(num, den),
        0 < den,
        0 <= num <= pow2(2097) * den,
    ensures
        x.finite(),
        0 <= x.value(),
{
    weights::lemma_constants();
    assert(0 * exact::h() == 0 && 0 * den == 0) by (nonlinear_arith);
    let big = exact::lemma_largest();
    assert(pow2(2097) * den <= big.value() * den) by (nonlinear_arith)
        requires
            pow2(2097) <= big.value(),
            0 < den,
    ;
    exact::lemma_rounded_at_most(num, den, big);
    exact::lemma_rounded_at_least(num, den, cdf::zero());
    exact::lemma_value_order(cdf::zero(), x);
}

/// One more rounding.
pub proof fn lemma_round_once(z: int, v: int, den: int, ideal: int, k: int)
    requires
        within(v, den, ideal, k),
        -v <= (z - v) * 0x20_0000_0000_0000 <= v,
        0 < den,
        0 <= ideal,
        0 <= k <= 0x10_0000_0000_0000,
    ensures
        within(z, den, ideal, k + 1),
        0 <= v ==> v * den <= 2 * ideal,
{
    let x = v * den;
    let y = z * den;
    let off = (z - v) * den;
    assert(y - x == off) by (nonlinear_arith)
        requires
            x == v * den,
            y == z * den,
            off == (z - v) * den,
    ;
    assert(-x <= off * 0x20_0000_0000_0000 <= x) by (nonlinear_arith)
        requires
            -v <= (z - v) * 0x20_0000_0000_0000 <= v,
            x == v * den,
            off == (z - v) * den,
            0 < den,
    ;
    assert(k * ideal <= 0x10_0000_0000_0000 * ideal) by (nonlinear_arith)
        requires
            0 <= ideal,
            k <= 0x10_0000_0000_0000,
    ;
    assert((k + 1) * ideal == k * ideal + ideal) by (nonlinear_arith);
}

/// A looser bound holds as well.
pub proof fn lemma_looser(x: int, den: int, ideal: int, k: int, l: int)
    requires
        within(x, den, ideal, k),
        0 <= ideal,
        k <= l,
    ensures
        within(x, den, ideal, l),
{
    assert(k * ideal <= l * ideal) by (nonlinear_arith)
        requires
            0 <= ideal,
            k <= l,
    ;
}

/// The bound of a sum.
pub proof fn lemma_add(x: int, y: int, den: int, i: int, j: int, k: int)
    requires
        within(x, den, i, k),
        within(y, den, j, k),
    ensures
        within(x + y, den, i + j, k),
{
    assert((x + y) * den == x * den + y * den && k * (i + j) == k * i + k * j)
        by (nonlinear_arith);
}

/// The bound at another scale.
pub proof fn lemma_rescale(x: int, den: int, ideal: int, k: int, c: int)
    requires
        within(x, den, ideal, k),
        0 < c,
    ensures
        within(x, den * c, ideal * c, k),
        within(x * c, den, ideal * c, k),
{
    let off = x * den - ideal;
    assert(x * (den * c) - ideal * c == off * c && (x * c) * den - ideal * c == off * c && k * (ideal
        * c) == (k * ideal) * c) by (nonlinear_arith)
        requires
            off == x * den - ideal,
    ;
    let a = off * 0x10_0000_0000_0000;
    let b = k * ideal;
    assert(-(b * c) <= a * c <= b * c) by (nonlinear_arith)
        requires
            -b <= a <= b,
            0 < c,
    ;
    assert(a * c == (off * c) * 0x10_0000_0000_0000) by (nonlinear_arith)
        requires
            a == off * 0x10_0000_0000_0000,
    ;
}

/// Sums of more weights are greater.
pub proof fn lemma_mass_of_part(ws: Seq<Float64>, i: int)
    requires
        forall|j: int| 0 <= j < ws.len() ==> 0 <= (#[trigger] ws[j]).value(),
        0 <= i <= ws.len(),
    ensures
        0 <= mass(ws.take(i)) <= mass(ws),
        i < ws.len() ==> mass(ws.take(i + 1)) == mass(ws.take(i)) + ws[i].value(),
        i < ws.len() ==> mass(ws.take(i + 1)) <= mass(ws),
    decreases ws.len() - i, 1int,
{
    lemma_mass_is_not_negative(ws.take(i));
    if i < ws.len() {
        assert(ws.take(i + 1).drop_last() =~= ws.take(i));
        assert(ws.take(i + 1).last() == ws[i]);
        lemma_mass_of_part(ws, i + 1);
        assert(0 <= ws[i].value());
    } else {
        assert(ws.take(i) =~= ws);
    }
}

pub proof fn lemma_mass_is_not_negative(ws: Seq<Float64>)
    requires
        forall|j: int| 0 <= j < ws.len() ==> 0 <= (#[trigger] ws[j]).value(),
    ensures
        0 <= mass(ws),
    decreases ws.len(),
{
    if ws.len() > 0 {
        let rest = ws.drop_last();
        assert forall|j: int| 0 <= j < rest.len() implies 0 <= (#[trigger] rest[j]).value() by {
            assert(rest[j] == ws[j]);
        }
        lemma_mass_is_not_negative(rest);
        assert(0 <= ws[ws.len() - 1].value());
    }
}

/// The sum of two positive numbers.
pub proof fn lemma_rounded_sum(x: Float64, y: Float64, den: int, i: int, j: int, k: int)
    requires
        x.finite(),
        y.finite(),
        0 <= x.value(),
        0 <= y.value(),
        x.value() + y.value() <= pow2(2097),
        within(x.value(), den, i, k),
        within(y.value(), den, j, k),
        0 < den,
        0 <= i,
        0 <= j,
        0 <= k <= 0x10_0000_0000_0000,
    ensures
        x.plus_spec(y).finite(),
        0 <= x.plus_spec(y).value(),
        within(x.plus_spec(y).value(), den, i + j, k + 1),
{
    let z = x.plus_spec(y);
    let v = x.value() + y.value();
    exact::lemma_plus(x, y);
    lemma_not_too_large(z, v, 1);
    exact::lemma_relative_error(z, v, 1);
    lemma_add(x.value(), y.value(), den, i, j, k);
    lemma_round_once(z.value(), v, den, i + j, k);
}

/// The float sum of weights is their exact sum but for one rounding each.
pub proof fn lemma_float_sum(ws: Seq<Float64>, i: int)
    requires
        moderate(ws),
        0 <= i <= ws.len(),
    ensures
        ({
            let s = cdf::sum(ws.take(i));
            &&& s.finite()
            &&& 0 <= s.value() <= 2 * mass(ws)
            &&& within(s.value(), 1, mass(ws.take(i)), i)
        }),
    decreases i,
{
    let part = ws.take(i);
    let s = cdf::sum(part);
    lemma_powers();
    weights::lemma_constants();
    assert(0 * exact::h() == 0) by (nonlinear_arith);
    assert forall|j: int| 0 <= j < ws.len() implies 0 <= (#[trigger] ws[j]).value() by {}
    lemma_mass_of_part(ws, i);
    if i > 0 {
        let w = ws[i - 1];
        let rest = ws.take(i - 1);
        lemma_float_sum(ws, i - 1);
        lemma_mass_of_part(ws, i - 1);
        assert(part.drop_last() =~= rest);
        assert(part.last() == w);
        let r = cdf::sum(rest);
        assert(within(w.value(), 1, w.value(), i - 1)) by {
            assert(0 <= (i - 1) * w.value()) by (nonlinear_arith)
                requires
                    0 <= i - 1,
                    0 <= w.value(),
            ;
        }
        lemma_mass_of_part(ws, i - 1);
        lemma_rounded_sum(r, w, 1, mass(rest), w.value(), i - 1);
    } else {
        assert(part =~= Seq::<Float64>::empty());
    }
    lemma_at_most_twice(s.value(), 1, mass(part), i);
}

/// What is within the half of an ideal is at most twice the ideal and at least half of it.
pub proof fn lemma_at_most_twice(x: int, den: int, ideal: int, k: int)
    requires
        within(x, den, ideal, k),
        0 <= ideal,
        0 <= k <= 0x8_0000_0000_0000,
    ensures
        x * den <= 2 * ideal,
        ideal <= 2 * (x * den),
{
    assert(k * ideal <= 0x8_0000_0000_0000 * ideal) by (nonlinear_arith)
        requires
            0 <= ideal,
            k <= 0x8_0000_0000_0000,
    ;
}

/// Half of a number that is not too small, as a product and as a quotient.
pub proof fn lemma_half_of(w: Float64)
    requires
        w.finite(),
        pow2(52) <= w.value() <= pow2(2097),
    ensures
        ({
            let x = cdf::half().times_spec(w);
            &&& x.finite()
            &&& 0 <= x.value()
            &&& within(x.value(), 2, w.value(), 1)
        }),
        ({
            let x = w.over_spec(cdf::two());
            &&& x.finite()
            &&& 0 <= x.value()
            &&& within(x.value(), 2, w.value(), 1)
        }),
{
    let u = Float64::unit();
    let h = exact::h();
    let v = w.value();
    weights::lemma_constants();
    lemma_powers();
    let x = cdf::half().times_spec(w);
    exact::lemma_times(cdf::half(), w);
    let num = cdf::half().value() * v;
    assert(num == h * v && 0 <= num <= pow2(2097) * u) by (nonlinear_arith)
        requires
            num == (1 * h) * v,
            0 <= v <= pow2(2097),
            u == 2 * h,
            0 < h,
    ;
    lemma_not_too_large(x, num, u);
    exact::lemma_relative_error(x, num, u);
    let off = 2 * x.value() - v;
    assert(x.value() * u - num == h * off) by (nonlinear_arith)
        requires
            num == h * v,
            u == 2 * h,
            off == 2 * x.value() - v,
    ;
    lemma_cancel(h, off, v);
    let y = w.over_spec(cdf::two());
    exact::lemma_over(w, cdf::two());
    let top = v * u;
    let bottom = cdf::two().value();
    assert(bottom == 2 * u);
    assert(0 <= top <= pow2(2097) * bottom) by (nonlinear_arith)
        requires
            top == v * u,
            0 <= v <= pow2(2097),
            bottom == 2 * u,
            0 < u,
    ;
    lemma_not_too_large(y, top, bottom);
    exact::lemma_relative_error(y, top, bottom);
    let other = 2 * y.value() - v;
    assert(y.value() * bottom - top == u * other) by (nonlinear_arith)
        requires
            top == v * u,
            bottom == 2 * u,
            other == 2 * y.value() - v,
    ;
    assert(v * u == u * v) by (nonlinear_arith);
    lemma_cancel(u, other, v);
}

/// A relative error, or one of at most 1, of a number that is not too small.
proof fn lemma_cancel(c: int, off: int, v: int)
    requires
        0 < c,
        ({
            ||| -(c * v) <= (c * off) * 0x20_0000_0000_0000 <= c * v
            ||| -(2 * c) <= 2 * (c * off) <= 2 * c
        }),
        0x10_0000_0000_0000 <= v,
    ensures
        -v <= off * 0x10_0000_0000_0000 <= v,
{
    if -(2 * c) <= 2 * (c * off) <= 2 * c {
        assert(-1 <= off <= 1) by (nonlinear_arith)
            requires
                -(2 * c) <= 2 * (c * off) <= 2 * c,
                0 < c,
        ;
    } else {
        let a = off * 0x20_0000_0000_0000;
        assert((c * off) * 0x20_0000_0000_0000 == c * a) by (nonlinear_arith)
            requires
                a == off * 0x20_0000_0000_0000,
        ;
        assert(-v <= a <= v) by (nonlinear_arith)
            requires
                -(c * v) <= c * a <= c * v,
                0 < c,
        ;
    }
}

/// Subtracting nothing may round once more.
pub proof fn lemma_minus_nothing(x: Float64, den: int, ideal: int, k: int)
    requires
        x.finite(),
        0 <= x.value() <= pow2(2097),
        within(x.value(), den, ideal, k),
        0 < den,
        0 <= ideal,
        0 <= k <= 0x10_0000_0000_0000,
    ensures
        ({
            let z = x.minus_spec(cdf::zero());
            &&& z.finite()
            &&& 0 <= z.value()
            &&& within(z.value(), den, ideal, k + 1)
        }),
{
    let z = x.minus_spec(cdf::zero());
    weights::lemma_constants();
    assert(0 * exact::h() == 0) by (nonlinear_arith);
    exact::lemma_minus(x, cdf::zero());
    lemma_not_too_large(z, x.value(), 1);
    exact::lemma_relative_error(z, x.value(), 1);
    lemma_round_once(z.value(), x.value(), den, ideal, k);
}

/// A numerator divided by the count is rounded once more.
pub proof fn lemma_divided(n: Float64, count: Float64, ideal: int, k: int)
    requires
        n.finite(),
        count.finite(),
        0 < count.value(),
        within(n.value() * Float64::unit(), 2, ideal, k),
        0 <= n.value() <= 16 * count.value(),
        0x20_0000_0000_0000 * count.value() <= n.value() * Float64::unit(),
        0 <= ideal,
        0 <= k <= 0x10_0000_0000_0000,
    ensures
        ({
            let r = n.over_spec(count);
            &&& r.finite()
            &&& 0 <= r.value()
            &&& within(r.value() * count.value(), 2, ideal, k + 1)
        }),
{
    let u = Float64::unit();
    let c = count.value();
    let r = n.over_spec(count);
    let v = n.value() * u;
    weights::lemma_constants();
    lemma_powers();
    exact::lemma_over(n, count);
    lemma_pow2_adds(1023, 1074);
    lemma2_to64();
    lemma_pow2_strictly_increases(4, 1023);
    assert(0 <= v <= pow2(2097) * c) by (nonlinear_arith)
        requires
            v == n.value() * u,
            0 <= n.value() <= 16 * c,
            pow2(2097) == pow2(1023) * u,
            16 <= pow2(1023),
            0 < u,
            0 < c,
    {
        assert(n.value() * u <= (16 * c) * u) by (nonlinear_arith)
            requires
                n.value() <= 16 * c,
                0 < u,
        ;
        assert((16 * c) * u <= (pow2(1023) * c) * u) by (nonlinear_arith)
            requires
                16 <= pow2(1023),
                0 < c,
                0 < u,
        ;
        assert((pow2(1023) * c) * u == (pow2(1023) * u) * c) by (nonlinear_arith);
    }
    lemma_not_too_large(r, v, c);
    exact::lemma_relative_error(r, v, c);
    let z = r.value() * c;
    assert(-v <= (z - v) * 0x20_0000_0000_0000 <= v);
    lemma_round_once(z, v, 2, ideal, k);
}

/// A numerator divided by the count.
proof fn lemma_quotient(n: Float64, count: Float64, ideal: int, k: int, all: int, len: int)
    requires
        n.finite(),
        count.finite(),
        within(n.value() * Float64::unit(), 2, ideal, k),
        within(count.value(), 1, all, len),
        0 <= n.value() <= 16 * count.value(),
        0x40_0000_0000_0000 * all <= n.value() * Float64::unit(),
        0 < all <= pow2(2093),
        0 <= ideal,
        0 <= k <= 0x400_0000_0000,
        0 <= len <= 0x400_0000_0000,
    ensures
        ({
            let r = n.over_spec(count);
            &&& r.finite()
            &&& 0 <= r.value()
            &&& within(r.value(), 2 * all, ideal, k + 1 + 4 * len)
        }),
{
    let u = Float64::unit();
    let c = count.value();
    let r = n.over_spec(count);
    let v = n.value() * u;
    weights::lemma_constants();
    lemma_powers();
    lemma_at_most_twice(c, 1, all, len);
    lemma_divided(n, count, ideal, k);
    let z = r.value() * c;
    lemma_at_most_twice(z, 2, ideal, k + 1);
    // the count is not quite the sum of the weights
    let q = r.value();
    let d = c - all;
    let e = (2 * q) * all;
    assert(e <= 4 * ideal) by (nonlinear_arith)
        requires
            e == (2 * q) * all,
            all <= 2 * c,
            z == q * c,
            z * 2 <= 2 * ideal,
            0 <= q,
    ;
    let x = (2 * q) * d;
    assert(-(len * e) <= x * 0x10_0000_0000_0000 <= len * e) by (nonlinear_arith)
        requires
            -(len * all) <= d * 0x10_0000_0000_0000 <= len * all,
            x == (2 * q) * d,
            e == (2 * q) * all,
            0 <= q,
    {
        let y = d * 0x10_0000_0000_0000;
        assert(x * 0x10_0000_0000_0000 == (2 * q) * y) by (nonlinear_arith)
            requires
                x == (2 * q) * d,
                y == d * 0x10_0000_0000_0000,
        ;
        assert(len * e == (2 * q) * (len * all)) by (nonlinear_arith)
            requires
                e == (2 * q) * all,
        ;
        let b = len * all;
        assert(-((2 * q) * b) <= (2 * q) * y <= (2 * q) * b) by (nonlinear_arith)
            requires
                -b <= y <= b,
                0 <= q,
        ;
    }
    assert(len * e <= (4 * len) * ideal) by (nonlinear_arith)
        requires
            e <= 4 * ideal,
            0 <= len,
    ;
    assert(q * (2 * all) == z * 2 - x) by (nonlinear_arith)
        requires
            z == q * c,
            d == c - all,
            x == (2 * q) * d,
    ;
    assert((k + 1 + 4 * len) * ideal == (k + 1) * ideal + (4 * len) * ideal) by (nonlinear_arith);
}

/// A numerator is not less than a quarter of the weight that it begins with.
pub proof fn lemma_not_too_small(n: int, j: int, w: int, u: int, all: int)
    requires
        j <= 4 * n,
        w <= j,
        0 < u,
        0x100_0000_0000_0000 * all <= w * u,
    ensures
        0x40_0000_0000_0000 * all <= n * u,
{
    assert(w * u <= 4 * (n * u)) by (nonlinear_arith)
        requires
            w <= 4 * n,
            0 < u,
    ;
}

/// The digest has moderate weights, and its count is their sum but for rounding, once for
/// each weight.
pub open spec fn weighed(centroids: Seq<Centroid>, count: Float64) -> bool {
    let ws = weights::weights(centroids);
    &&& moderate(ws)
    &&& count.finite()
    &&& within(count.value(), 1, mass(ws), ws.len() as int)
}

/// How far the estimates of so many centroids are rounded, in parts of `2^52`.
pub open spec fn roundings(len: int) -> int {
    5 * len + 12
}

/// The exact numerator at a mean.
pub open spec fn ideal_at_mean(ws: Seq<Float64>, i: int) -> int {
    (2 * mass(ws.take(i)) + ws[i].value()) * Float64::unit()
}

/// The exact numerator between the means `i - 1` and `i`, at the rounded way `f`.
pub open spec fn ideal_between(ws: Seq<Float64>, i: int, f: int) -> int {
    ideal_at_mean(ws, i - 1) + (ws[i - 1].value() + ws[i].value()) * f
}

/// What is known of a weight and what stands before it.
pub proof fn lemma_weights(ws: Seq<Float64>, i: int)
    requires
        moderate(ws),
        0 <= i < ws.len(),
    ensures
        ws[i].finite(),
        pow2(54) <= ws[i].value(),
        0x100_0000_0000_0000 * mass(ws) <= ws[i].value() * Float64::unit(),
        0 < mass(ws),
        0 <= mass(ws.take(i)),
        mass(ws.take(i)) + ws[i].value() <= mass(ws),
        i + 1 < ws.len() ==> mass(ws.take(i)) + ws[i].value() + ws[i + 1].value() <= mass(ws),
{
    assert forall|j: int| 0 <= j < ws.len() implies 0 <= (#[trigger] ws[j]).value() by {}
    lemma_powers();
    lemma_mass_of_part(ws, i);
    if i + 1 < ws.len() {
        lemma_mass_of_part(ws, i + 1);
    }
}

/// The weight before a centroid and half of its own, added up either way.
pub proof fn lemma_half_way_in(ws: Seq<Float64>, i: int, x: Float64)
    requires
        moderate(ws),
        0 <= i < ws.len(),
        x == cdf::half().times_spec(ws[i]) || x == ws[i].over_spec(cdf::two()),
    ensures
        ({
            let n = cdf::sum(ws.take(i)).plus_spec(x);
            let ideal = 2 * mass(ws.take(i)) + ws[i].value();
            &&& n.finite()
            &&& 0 <= n.value()
            &&& within(n.value(), 2, ideal, i + 2)
            &&& 2 * n.value() <= 2 * ideal
            &&& ideal <= 4 * n.value()
        }),
{
    let s = cdf::sum(ws.take(i));
    let w = ws[i];
    let t = mass(ws.take(i));
    lemma_powers();
    lemma_weights(ws, i);
    lemma_float_sum(ws, i);
    lemma_half_of(w);
    lemma_rescale(s.value(), 1, t, i, 2);
    lemma_looser(s.value(), 2, t * 2, i, i + 1);
    lemma_looser(x.value(), 2, w.value(), 1, i + 1);
    lemma_at_most_twice(x.value(), 2, w.value(), 1);
    lemma_rounded_sum(s, x, 2, t * 2, w.value(), i + 1);
    lemma_at_most_twice(s.plus_spec(x).value(), 2, 2 * t + w.value(), i + 2);
}

/// The estimate at a mean.
pub proof fn lemma_scaled_at_mean(centroids: Seq<Centroid>, count: Float64, i: int)
    requires
        weighed(centroids, count),
        0 <= i < centroids.len(),
    ensures
        ({
            let m = CdfModel::of(centroids, count);
            let r = m.at_mean(i);
            &&& r.finite()
            &&& 0 <= r.value()
            &&& 0 <= ideal_at_mean(m.weights, i)
            &&& within(
                r.value(),
                2 * mass(m.weights),
                ideal_at_mean(m.weights, i),
                roundings(centroids.len() as int),
            )
        }),
{
    let m = CdfModel::of(centroids, count);
    let ws = m.weights;
    let len = ws.len() as int;
    let u = Float64::unit();
    let n = m.prefix[i].plus_spec(cdf::half().times_spec(ws[i]));
    assert(ws =~= weights::weights(centroids));
    weights::lemma_constants();
    lemma_powers();
    lemma_weights(ws, i);
    lemma_half_way_in(ws, i, cdf::half().times_spec(ws[i]));
    let j = 2 * mass(ws.take(i)) + ws[i].value();
    lemma_rescale(n.value(), 2, j, i + 2, u);
    lemma_at_most_twice(count.value(), 1, mass(ws), len);
    assert(0 <= j * u) by (nonlinear_arith)
        requires
            0 <= j,
            0 < u,
    ;
    lemma_not_too_small(n.value(), j, ws[i].value(), u, mass(ws));
    lemma_quotient(n, count, j * u, i + 2, mass(ws), len);
    lemma_looser(
        m.at_mean(i).value(),
        2 * mass(ws),
        j * u,
        i + 2 + 1 + 4 * len,
        roundings(len),
    );
}

/// The span of an interpolation where no weight is 1.
pub proof fn lemma_span(wl: Float64, wr: Float64)
    requires
        wl.finite(),
        wr.finite(),
        pow2(54) <= wl.value(),
        pow2(54) <= wr.value(),
        wl.value() + wr.value() <= pow2(2093),
    ensures
        ({
            let x = cdf::half().times_spec(wl.plus_spec(wr)).minus_spec(cdf::zero()).minus_spec(
                cdf::zero(),
            );
            &&& x.finite()
            &&& 0 <= x.value() <= wl.value() + wr.value()
            &&& within(x.value(), 2, wl.value() + wr.value(), 5)
        }),
{
    let z = wl.plus_spec(wr);
    let s = wl.value() + wr.value();
    lemma_powers();
    assert(0 * wl.value() == 0 && 0 * wr.value() == 0) by (nonlinear_arith);
    lemma_rounded_sum(wl, wr, 1, wl.value(), wr.value(), 0);
    lemma_at_most_twice(z.value(), 1, s, 1);
    lemma_half_of(z);
    let x = cdf::half().times_spec(z);
    assert(within(x.value(), 2, s, 3));
    lemma_at_most_twice(x.value(), 2, s, 3);
    lemma_minus_nothing(x, 2, s, 3);
    let y = x.minus_spec(cdf::zero());
    lemma_at_most_twice(y.value(), 2, s, 4);
    lemma_minus_nothing(y, 2, s, 4);
    lemma_at_most_twice(y.minus_spec(cdf::zero()).value(), 2, s, 5);
}

/// Neither end of an interpolation stands for a single value.
pub open spec fn interpolated(m: CdfModel, i: int) -> bool {
    !m.weights[i - 1].eq_spec(cdf::one()) && !m.weights[i].eq_spec(cdf::one())
}

/// The part of the span is added to where the interpolation begins.
pub proof fn lemma_part_added(base: int, part: int, span: int, f: int, u: int, j: int, s: int, k: int)
    requires
        within(base, 2, j, k),
        within(span, 2, s, 5),
        0 <= span <= s,
        0 <= f <= u,
        0 < u,
        0 <= k,
        0x10_0000_0000_0000 <= j,
        ({
            ||| -(span * f) <= (part * u - span * f) * 0x20_0000_0000_0000 <= span * f
            ||| -u <= 2 * (part * u - span * f) <= u
        }),
    ensures
        within(base + part, 2 * u, j * u + s * f, k + 7),
        0 <= s * f <= s * u,
        0x10_0000_0000_0000 * u <= j * u,
{
    let p = 0x10_0000_0000_0000int;
    let a = span * f;
    let b = s * f;
    let ju = j * u;
    let off = part * u - a;
    assert(0 <= a <= b && b <= s * u) by (nonlinear_arith)
        requires
            a == span * f,
            b == s * f,
            0 <= span <= s,
            0 <= f <= u,
    ;
    assert(p * u <= ju) by (nonlinear_arith)
        requires
            ju == j * u,
            p <= j,
            0 < u,
    ;
    // the span itself
    let d = span * 2 - s;
    let df = d * f;
    assert(-(5 * b) <= df * p <= 5 * b) by (nonlinear_arith)
        requires
            -(5 * s) <= d * p <= 5 * s,
            df == d * f,
            b == s * f,
            0 <= f,
    {
        let dp = d * p;
        assert(df * p == dp * f) by (nonlinear_arith)
            requires
                df == d * f,
                dp == d * p,
        ;
        assert(-(5 * (s * f)) <= dp * f <= 5 * (s * f)) by (nonlinear_arith)
            requires
                -(5 * s) <= dp <= 5 * s,
                0 <= f,
        ;
    }
    assert(2 * a - b == df) by (nonlinear_arith)
        requires
            a == span * f,
            b == s * f,
            d == span * 2 - s,
            df == d * f,
    ;
    // the part of it
    assert(-(b + ju) <= (2 * off) * p <= b + ju);
    // where it begins
    let x = base * (2 * u) - ju;
    assert(-(k * ju) <= x * p <= k * ju) by {
        lemma_rescale(base, 2, j, k, u);
    }
    assert((base + part) * (2 * u) - (ju + b) == x + 2 * off + df) by (nonlinear_arith)
        requires
            x == base * (2 * u) - ju,
            off == part * u - a,
            2 * a - b == df,
    ;
    assert(0 <= k * b) by (nonlinear_arith)
        requires
            0 <= k,
            0 <= b,
    ;
    assert((k + 7) * (ju + b) == k * ju + k * b + 7 * ju + 7 * b) by (nonlinear_arith);
}

/// The estimate between two means.
pub proof fn lemma_scaled_between(centroids: Seq<Centroid>, count: Float64, val: Float64, i: int)
    requires
        weighed(centroids, count),
        0 < i < centroids.len(),
        interpolated(CdfModel::of(centroids, count), i),
        centroids[i].mean.minus_spec(centroids[i - 1].mean).finite(),
        0 < centroids[i].mean.minus_spec(centroids[i - 1].mean).value(),
        ({
            let f = val.minus_spec(centroids[i - 1].mean).over_spec(
                centroids[i].mean.minus_spec(centroids[i - 1].mean),
            );
            f.finite() && 0 <= f.value() <= Float64::unit()
        }),
    ensures
        ({
            let m = CdfModel::of(centroids, count);
            let f = val.minus_spec(centroids[i - 1].mean).over_spec(
                centroids[i].mean.minus_spec(centroids[i - 1].mean),
            );
            let r = m.between(val, i);
            let ideal = ideal_between(m.weights, i, f.value());
            &&& r.finite()
            &&& 0 <= r.value()
            &&& 0 <= ideal
            &&& within(
                r.value(),
                2 * mass(m.weights),
                ideal,
                roundings(centroids.len() as int),
            )
        }),
{
    let m = CdfModel::of(centroids, count);
    let ws = m.weights;
    let len = ws.len() as int;
    let u = Float64::unit();
    let (ml, mr) = (centroids[i - 1].mean, centroids[i].mean);
    let gap = mr.minus_spec(ml);
    let frac = val.minus_spec(ml).over_spec(gap);
    let f = frac.value();
    let (wl, wr) = (ws[i - 1], ws[i]);
    let all = mass(ws);
    assert(ws =~= weights::weights(centroids));
    weights::lemma_constants();
    assert(0 * exact::h() == 0) by (nonlinear_arith);
    lemma_powers();
    lemma_weights(ws, i - 1);
    lemma_weights(ws, i);
    exact::lemma_value_order(gap, cdf::zero());
    assert(!gap.le_spec(cdf::zero()));
    // where it begins
    let t = mass(ws.take(i - 1));
    let j = 2 * t + wl.value();
    let half_l = wl.over_spec(cdf::two());
    lemma_half_way_in(ws, i - 1, half_l);
    let b1 = m.prefix[i - 1].plus_spec(half_l);
    let base = b1.plus_spec(cdf::zero());
    let k = i + 1;
    assert(within(0, 2, 0, k)) by {
        assert(k * 0 == 0) by (nonlinear_arith);
    }
    lemma_rounded_sum(b1, cdf::zero(), 2, j, 0, k);
    lemma_at_most_twice(base.value(), 2, j, k + 1);
    // how far it goes
    let s = wl.value() + wr.value();
    let span = cdf::half().times_spec(wl.plus_spec(wr)).minus_spec(cdf::zero()).minus_spec(
        cdf::zero(),
    );
    lemma_span(wl, wr);
    let part = span.times_spec(frac);
    cdf_laws::lemma_part_of(frac, span);
    exact::lemma_times(span, frac);
    let a = span.value() * f;
    assert(0 <= a) by (nonlinear_arith)
        requires
            a == span.value() * f,
            0 <= span.value(),
            0 <= f,
    ;
    exact::lemma_relative_error(part, a, u);
    lemma_part_added(base.value(), part.value(), span.value(), f, u, j, s, k + 1);
    let ideal = j * u + s * f;
    let n = base.plus_spec(part);
    let v = base.value() + part.value();
    exact::lemma_plus(base, part);
    lemma_not_too_large(n, v, 1);
    exact::lemma_relative_error(n, v, 1);
    lemma_round_once(n.value(), v, 2 * u, ideal, k + 8);
    assert(within(n.value() * u, 2, ideal, k + 9)) by {
        assert((n.value() * u) * 2 == n.value() * (2 * u)) by (nonlinear_arith);
    }
    lemma_at_most_twice(n.value(), 2 * u, ideal, k + 9);
    let nv = n.value();
    assert(nv <= j + s && j <= 4 * nv) by (nonlinear_arith)
        requires
            nv * (2 * u) <= 2 * ideal,
            ideal <= 2 * (nv * (2 * u)),
            ideal == j * u + s * f,
            0 <= s * f <= s * u,
            0 < u,
    {
        let x = nv * u;
        assert(nv * (2 * u) == 2 * x) by (nonlinear_arith)
            requires
                x == nv * u,
        ;
        assert((j + s) * u == j * u + s * u && (4 * nv) * u == 4 * x) by (nonlinear_arith)
            requires
                x == nv * u,
        ;
        assert(nv <= j + s && j <= 4 * nv) by (nonlinear_arith)
            requires
                nv * u <= (j + s) * u,
                j * u <= (4 * nv) * u,
                0 < u,
        ;
    }
    lemma_at_most_twice(count.value(), 1, all, len);
    lemma_not_too_small(nv, j, wl.value(), u, all);
    lemma_quotient(n, count, ideal, k + 9, all, len);
    assert(m.between(val, i) == n.over_spec(count));
    lemma_looser(
        n.over_spec(count).value(),
        2 * all,
        ideal,
        k + 9 + 1 + 4 * len,
        roundings(len),
    );
}

/// The second weights are `num / den` times the first ones.
pub open spec fn scaled(ws: Seq<Float64>, vs: Seq<Float64>, num: int, den: int) -> bool {
    &&& 0 < num
    &&& 0 < den
    &&& vs.len() == ws.len()
    &&& forall|i: int|
        0 <= i < ws.len() ==> (#[trigger] vs[i]).value() * den == ws[i].value() * num
}

/// Sums scale like the weights.
proof fn lemma_scaled_mass(ws: Seq<Float64>, vs: Seq<Float64>, num: int, den: int, i: int)
    requires
        scaled(ws, vs, num, den),
        0 <= i <= ws.len(),
    ensures
        mass(vs.take(i)) * den == mass(ws.take(i)) * num,
    decreases i,
{
    if i > 0 {
        lemma_scaled_mass(ws, vs, num, den, i - 1);
        assert(ws.take(i).drop_last() =~= ws.take(i - 1));
        assert(vs.take(i).drop_last() =~= vs.take(i - 1));
        let (a, b, x, y) = (
            mass(ws.take(i - 1)),
            mass(vs.take(i - 1)),
            ws[i - 1].value(),
            vs[i - 1].value(),
        );
        assert(y * den == x * num);
        assert((b + y) * den == (a + x) * num) by (nonlinear_arith)
            requires
                b * den == a * num,
                y * den == x * num,
        ;
        assert(ws.take(i).last() == ws[i - 1]);
        assert(vs.take(i).last() == vs[i - 1]);
    } else {
        assert(ws.take(0) =~= Seq::<Float64>::empty());
        assert(vs.take(0) =~= Seq::<Float64>::empty());
        assert(0 * den == 0 && 0 * num == 0) by (nonlinear_arith);
    }
}

/// Two quotients of ideals that scale alike are close to each other.
proof fn lemma_close(r: int, q: int, all: int, bll: int, x: int, y: int, num: int, den: int, k: int)
    requires
        within(r, 2 * all, x, k),
        within(q, 2 * bll, y, k),
        bll * den == all * num,
        y * den == x * num,
        0 < num,
        0 < den,
        0 < all,
        0 <= x,
        0 <= k <= 0x8_0000_0000_0000,
    ensures
        -(k * r) <= (q - r) * 0x4_0000_0000_0000 <= k * r,
{
    let p = 0x10_0000_0000_0000int;
    // at the scale of the first
    let off = q * (2 * bll) - y;
    let here = q * (2 * all) - x;
    assert(off * den == here * num) by (nonlinear_arith)
        requires
            off == q * (2 * bll) - y,
            here == q * (2 * all) - x,
            bll * den == all * num,
            y * den == x * num,
    {
        assert((q * (2 * bll)) * den == (2 * q) * (bll * den)) by (nonlinear_arith);
        assert((q * (2 * all)) * num == (2 * q) * (all * num)) by (nonlinear_arith);
        assert(off * den == (q * (2 * bll)) * den - y * den) by (nonlinear_arith)
            requires
                off == q * (2 * bll) - y,
        ;
        assert(here * num == (q * (2 * all)) * num - x * num) by (nonlinear_arith)
            requires
                here == q * (2 * all) - x,
        ;
    }
    let a = off * p;
    let b = here * p;
    let c = k * y;
    let d = k * x;
    assert(a * den == b * num) by (nonlinear_arith)
        requires
            off * den == here * num,
            a == off * p,
            b == here * p,
    ;
    assert(c * den == d * num) by (nonlinear_arith)
        requires
            y * den == x * num,
            c == k * y,
            d == k * x,
    ;
    assert(-(c * den) <= a * den <= c * den) by (nonlinear_arith)
        requires
            -c <= a <= c,
            0 < den,
    ;
    assert(-d <= b <= d) by (nonlinear_arith)
        requires
            -(d * num) <= b * num <= d * num,
            0 < num,
    ;
    // both are close to the same ideal
    lemma_at_most_twice(r, 2 * all, x, k);
    let t = 2 * all;
    let rt = r * t;
    assert(d <= 2 * (k * rt)) by (nonlinear_arith)
        requires
            d == k * x,
            x <= 2 * rt,
            0 <= k,
    ;
    assert((q - r) * t == here - (rt - x)) by (nonlinear_arith)
        requires
            here == q * t - x,
            rt == r * t,
    ;
    let g = (q - r) * t;
    assert(-(2 * d) <= g * p <= 2 * d);
    assert(-(k * rt) <= g * 0x4_0000_0000_0000 <= k * rt);
    let z = (q - r) * 0x4_0000_0000_0000;
    assert(g * 0x4_0000_0000_0000 == z * t && k * rt == (k * r) * t) by (nonlinear_arith)
        requires
            g == (q - r) * t,
            z == (q - r) * 0x4_0000_0000_0000,
            rt == r * t,
    ;
    let kr = k * r;
    assert(-kr <= z <= kr) by (nonlinear_arith)
        requires
            -(kr * t) <= z * t <= kr * t,
            0 < t,
    ;
}

/// Means in order, whose distance is finite, are finite.
pub proof fn lemma_finite_means(centroids: Seq<Centroid>)
    requires
        centroids.len() > 0,
        cdf::strictly_ascending_numbers(centroids.map_values(|c: Centroid| c.mean)),
        centroids.last().mean.minus_spec(centroids[0].mean).finite(),
    ensures
        forall|i: int|
            0 <= i < centroids.len() ==> (#[trigger] centroids[i]).mean.finite()
                && centroids[0].mean.value() <= centroids[i].mean.value()
                <= centroids.last().mean.value(),
{
    let means = centroids.map_values(|c: Centroid| c.mean);
    let n = centroids.len() - 1;
    let (a, b) = (means[0], means[n]);
    exact::lemma_negated(a);
    assert(!a.nan() && !b.nan());
    if n > 0 {
        assert(a.ordinal() < b.ordinal());
    }
    assert(a.finite() && b.finite()) by {
        if !a.finite() || !b.finite() {
            assert(!b.minus_spec(a).finite());
        }
    }
    assert forall|i: int| 0 <= i < centroids.len() implies (#[trigger] centroids[i]).mean.finite()
        && centroids[0].mean.value() <= centroids[i].mean.value()
        <= centroids.last().mean.value() by {
        let x = means[i];
        assert(x == centroids[i].mean);
        assert(!x.nan());
        if i > 0 {
            assert(a.ordinal() < x.ordinal());
        }
        if i < n {
            assert(x.ordinal() < b.ordinal());
        }
        exact::lemma_value_order(a, x);
        exact::lemma_value_order(x, b);
    }
}

/// Scaling all weights by one factor leaves the estimates between the first and the last
/// mean, and outside the support, alone: they differ by at most `5 * len + 12` parts in
/// `2^50` of the estimate. A weight of 1 stands for a single value and is no part of an
/// interpolation, so no weight next to the query may be 1, before or after.
pub proof fn law_scaling_leaves_estimates_alone(
    centroids: Seq<Centroid>,
    count: Float64,
    other: Seq<Centroid>,
    other_count: Float64,
    num: int,
    den: int,
    min: Float64,
    max: Float64,
    val: Float64,
    r: Float64,
    q: Float64,
)
    requires
        weighed(centroids, count),
        weighed(other, other_count),
        scaled(weights::weights(centroids), weights::weights(other), num, den),
        forall|i: int| 0 <= i < centroids.len() ==> (#[trigger] other[i]).mean == centroids[i].mean,
        cdf::strictly_ascending_numbers(centroids.map_values(|c: Centroid| c.mean)),
        centroids.last().mean.minus_spec(centroids[0].mean).finite(),
        centroids[0].mean.le_spec(val) || val.lt_spec(min),
        val.le_spec(centroids.last().mean) || max.lt_spec(val),
        forall|i: int|
            0 < i < centroids.len() && centroids[i - 1].mean.lt_spec(val) && val.lt_spec(
                (#[trigger] centroids[i]).mean,
            ) ==> {
                &&& !centroids[i - 1].weight.eq_spec(cdf::one())
                &&& !centroids[i].weight.eq_spec(cdf::one())
                &&& !other[i - 1].weight.eq_spec(cdf::one())
                &&& !other[i].weight.eq_spec(cdf::one())
            },
        CdfModel::of(centroids, count).estimates(val, min, max, r),
        CdfModel::of(other, other_count).estimates(val, min, max, q),
    ensures
        r.finite(),
        q.finite(),
        ({
            let part = roundings(centroids.len() as int) * r.value();
            -part <= (q.value() - r.value()) * 0x4_0000_0000_0000 <= part
        }),
{
    let m = CdfModel::of(centroids, count);
    let w = CdfModel::of(other, other_count);
    let ws = m.weights;
    let vs = w.weights;
    let n = centroids.len() as int;
    let k = roundings(n);
    let u = Float64::unit();
    assert(ws =~= weights::weights(centroids));
    assert(vs =~= weights::weights(other));
    assert(w.means =~= m.means) by {
        assert forall|i: int| 0 <= i < n implies w.means[i] == m.means[i] by {
            assert(other[i].mean == centroids[i].mean);
        }
    }
    let slot = choose|slot: Slot| #[trigger]
        cdf::is_slot(m.means, val, slot) && r == m.at_slot(val, min, max, slot);
    cdf::lemma_slot_is_unique(m.means, val, slot);
    cdf_laws::lemma_ascending(m.means);
    assert(q == w.at_slot(val, min, max, slot));
    lemma_finite_means(centroids);
    weights::lemma_constants();
    lemma_powers();
    assert(0 * exact::h() == 0) by (nonlinear_arith);
    lemma_scaled_mass(ws, vs, num, den, n);
    assert(ws.take(n) =~= ws);
    assert(vs.take(n) =~= vs);
    lemma_weights(ws, 0);
    match slot {
        Slot::Hit(i) => {
            lemma_scaled_at_mean(centroids, count, i);
            lemma_scaled_at_mean(other, other_count, i);
            lemma_scaled_ideal(ws, vs, num, den, i);
            lemma_close(
                r.value(),
                q.value(),
                mass(ws),
                mass(vs),
                ideal_at_mean(ws, i),
                ideal_at_mean(vs, i),
                num,
                den,
                k,
            );
        },
        Slot::Gap(i) => {
            if i == 0 {
                assert(val.lt_spec(m.means[0]));
                assert(r == cdf::zero() && q == cdf::zero());
                assert(k * 0 == 0) by (nonlinear_arith);
            } else if i == n {
                assert(m.means[n - 1].lt_spec(val));
                assert(r == cdf::one() && q == cdf::one());
                assert(0 <= k * u) by (nonlinear_arith)
                    requires
                        0 <= k,
                        0 < u,
                ;
            } else {
                let (a, b) = (centroids[i - 1].mean, centroids[i].mean);
                let (lo, hi) = (centroids[0].mean, centroids[n - 1].mean);
                assert(m.means[i - 1].lt_spec(val));
                assert(val.lt_spec(m.means[i]));
                assert(!m.means[i - 1].nan() && !m.means[i].nan());
                assert(val.finite());
                exact::lemma_value_order(a, val);
                exact::lemma_value_order(val, b);
                cdf_laws::lemma_distance(a, b, lo, hi);
                cdf_laws::lemma_distance(a, val, lo, hi);
                cdf_laws::lemma_part_of_gap(
                    val.value() - a.value(),
                    b.value() - a.value(),
                    val.minus_spec(a),
                    b.minus_spec(a),
                );
                let f = val.minus_spec(a).over_spec(b.minus_spec(a)).value();
                assert(other[i - 1].mean == a && other[i].mean == b);
                lemma_scaled_between(centroids, count, val, i);
                lemma_scaled_between(other, other_count, val, i);
                lemma_scaled_ideal(ws, vs, num, den, i - 1);
                let (x, y) = (ws[i - 1].value() + ws[i].value(), vs[i - 1].value() + vs[i].value());
                assert(vs[i - 1].value() * den == ws[i - 1].value() * num);
                assert(vs[i].value() * den == ws[i].value() * num);
                assert(ideal_between(vs, i, f) * den == ideal_between(ws, i, f) * num) by {
                    let (c, d) = (ideal_at_mean(ws, i - 1), ideal_at_mean(vs, i - 1));
                    assert(y * den == x * num) by (nonlinear_arith)
                        requires
                            x == ws[i - 1].value() + ws[i].value(),
                            y == vs[i - 1].value() + vs[i].value(),
                            vs[i - 1].value() * den == ws[i - 1].value() * num,
                            vs[i].value() * den == ws[i].value() * num,
                    ;
                    assert((d + y * f) * den == (c + x * f) * num) by (nonlinear_arith)
                        requires
                            d * den == c * num,
                            y * den == x * num,
                    {
                        assert((y * f) * den == (y * den) * f && (x * f) * num == (x * num) * f)
                            by (nonlinear_arith);
                        assert((d + y * f) * den == d * den + (y * f) * den) by (nonlinear_arith);
                        assert((c + x * f) * num == c * num + (x * f) * num) by (nonlinear_arith);
                    }
                }
                lemma_close(
                    r.value(),
                    q.value(),
                    mass(ws),
                    mass(vs),
                    ideal_between(ws, i, f),
                    ideal_between(vs, i, f),
                    num,
                    den,
                    k,
                );
            }
        },
    }
}

/// The exact numerator at a mean scales like the weights.
proof fn lemma_scaled_ideal(ws: Seq<Float64>, vs: Seq<Float64>, num: int, den: int, i: int)
    requires
        scaled(ws, vs, num, den),
        0 <= i < ws.len(),
    ensures
        ideal_at_mean(vs, i) * den == ideal_at_mean(ws, i) * num,
{
    let u = Float64::unit();
    lemma_scaled_mass(ws, vs, num, den, i);
    let (a, b, x, y) = (mass(ws.take(i)), mass(vs.take(i)), ws[i].value(), vs[i].value());
    assert(y * den == x * num);
    let (c, d) = (2 * a + x, 2 * b + y);
    assert(d * den == c * num) by (nonlinear_arith)
        requires
            b * den == a * num,
            y * den == x * num,
            c == 2 * a + x,
            d == 2 * b + y,
    ;
    assert((d * u) * den == (c * u) * num) by (nonlinear_arith)
        requires
            d * den == c * num,
    {
        assert((d * u) * den == (d * den) * u && (c * u) * num == (c * num) * u)
            by (nonlinear_arith);
    }
}

/// The float sum of moderate weights is their sum but for rounding: a digest with that
/// count is weighed.
pub proof fn law_summed_count_is_weighed(centroids: Seq<Centroid>)
    requires
        moderate(weights::weights(centroids)),
    ensures
        weighed(centroids, cdf::sum(weights::weights(centroids))),
{
    let ws = weights::weights(centroids);
    lemma_float_sum(ws, ws.len() as int);
    assert(ws.take(ws.len() as int) =~= ws);
}

} // verus!
