//! Laws of the estimated distribution function, for digests whose weights count values.
use vstd::arithmetic::div_mod::*;
use vstd::arithmetic::power2::*;
use vstd::prelude::*;

use crate::cdf;
use crate::cdf::{CdfModel, Slot};
use crate::centroid::Centroid;
use crate::exact;
use crate::float::{Float64, INF_BODY, ONE_BITS};
use crate::rounding;
use crate::weights;

verus! {

/// The digest describes a finite number of values: its means are strictly increasing and
/// between the extremes, the distance of the extremes is finite, its weights count
/// values, and their sum is the count, which is at most `2^53`.
pub open spec fn sound(
    centroids: Seq<Centroid>,
    count: Float64,
    min: Float64,
    max: Float64,
) -> bool {
    let m = CdfModel::of(centroids, count);
    &&& centroids.len() > 0
    &&& cdf::strictly_ascending_numbers(m.means)
    &&& min.le_spec(m.means[0])
    &&& m.means.last().le_spec(max)
    &&& max.minus_spec(min).finite()
    &&& forall|i: int| 0 <= i < m.weights.len() ==> weights::whole(#[trigger] m.weights[i])
    &&& weights::total(m.weights) <= 0x20_0000_0000_0000
    &&& exact::is_halves(count, 2 * weights::total(m.weights))
}

/// At most `2^52` values are counted: half of a weight is then exact wherever it stands.
pub open spec fn small(centroids: Seq<Centroid>) -> bool {
    weights::counted(centroids) <= 0x10_0000_0000_0000
}

/// By how many halves a numerator may miss the middle that it stands for.
pub open spec fn play(m: CdfModel) -> int {
    if weights::total(m.weights) <= 0x10_0000_0000_0000 {
        0
    } else {
        3
    }
}

/// The nearest half-integer from below that is represented exactly.
spec fn down(k: int) -> int {
    if exact::fits(k) {
        k
    } else {
        k - 1
    }
}

/// The nearest half-integer from above that is represented exactly.
spec fn up(k: int) -> int {
    if exact::fits(k) {
        k
    } else {
        k + 1
    }
}

/// The half-integer `k / 2`.
proof fn lemma_half_integer(k: int) -> (x: Float64)
    requires
        0 <= k <= 0x40_0000_0000_0000,
        exact::fits(k),
    ensures
        exact::is_halves(x, k),
{
    weights::lemma_constants();
    if k % 2 == 0 {
        exact::lemma_from_int(k / 2);
        Float64::from_int_spec(k / 2)
    } else {
        exact::lemma_from_int(k);
        exact::lemma_half_times(cdf::half(), Float64::from_int_spec(k), k);
        cdf::half().times_spec(Float64::from_int_spec(k))
    }
}

/// A number between two half-integers is rounded to between their neighbours.
proof fn lemma_rounded_between(x: Float64, v: int, a: int, b: int)
    requires
        !x.nan(),
        x.ordinal() == exact::rounded_ordinal(v, 1),
        a * exact::h() <= v <= b * exact::h(),
        0 <= a <= b <= 0x40_0000_0000_0000,
    ensures
        x.finite(),
        down(a) * exact::h() <= x.value() <= up(b) * exact::h(),
{
    let h = exact::h();
    let lo = lemma_half_integer(down(a));
    let hi = lemma_half_integer(up(b));
    weights::lemma_constants();
    assert(down(a) * h <= a * h && b * h <= up(b) * h) by (nonlinear_arith)
        requires
            down(a) <= a,
            b <= up(b),
            0 < h,
    ;
    exact::lemma_rounded_at_least(v, 1, lo);
    exact::lemma_rounded_at_most(v, 1, hi);
    assert(x.finite());
    exact::lemma_value_order(lo, x);
    exact::lemma_value_order(x, hi);
}

/// What a weight takes out of the span of an interpolation, in halves.
pub open spec fn taken(w: Float64) -> int {
    if weights::units(w) == 1 {
        1
    } else {
        0
    }
}

/// The weight before centroid `i`.
pub open spec fn before(m: CdfModel, i: int) -> int {
    weights::total(m.weights.take(i))
}

/// Twice the weight up to the middle of centroid `i`.
pub open spec fn middle(m: CdfModel, i: int) -> int {
    2 * before(m, i) + weights::units(m.weights[i])
}

pub proof fn lemma_prefix(centroids: Seq<Centroid>, count: Float64, min: Float64, max: Float64, i: int)
    requires
        sound(centroids, count, min, max),
        0 <= i < centroids.len(),
    ensures
        ({
            let m = CdfModel::of(centroids, count);
            &&& weights::whole(m.weights[i])
            &&& exact::is_halves(m.prefix[i], 2 * before(m, i))
            &&& 0 <= before(m, i)
            &&& before(m, i) + weights::units(m.weights[i]) <= weights::total(m.weights)
            &&& weights::total(m.weights) <= 0x20_0000_0000_0000
            &&& i > 0 ==> {
                &&& before(m, i) == before(m, i - 1) + weights::units(m.weights[i - 1])
                &&& weights::whole(m.weights[i - 1])
            }
            &&& i == 0 ==> before(m, i) == 0
            &&& i == centroids.len() - 1 ==> before(m, i) + weights::units(m.weights[i])
                == weights::total(m.weights)
        }),
{
    let m = CdfModel::of(centroids, count);
    let ws = m.weights;
    weights::lemma_total_of_part(ws, i);
    weights::lemma_total_of_part(ws, i + 1);
    let part = ws.take(i);
    assert(forall|k: int| 0 <= k < part.len() ==> part[k] == ws[k]);
    weights::lemma_sum_is_total(part);
    if i > 0 {
        weights::lemma_total_of_part(ws, i - 1);
        assert(weights::whole(ws[i - 1]));
    }
    assert(ws.take(ws.len() as int) =~= ws);
}

/// A part divided by the whole is between 0 and 1.
pub proof fn lemma_fraction(x: Float64, count: Float64)
    requires
        x.finite(),
        count.finite(),
        0 < count.value(),
        0 <= x.value() <= count.value(),
    ensures
        cdf::zero().le_spec(x.over_spec(count)),
        x.over_spec(count).le_spec(cdf::one()),
        x.over_spec(count).finite(),
{
    weights::lemma_constants();
    exact::lemma_over(x, count);
    let u = Float64::unit();
    assert(x.value() * u <= u * count.value()) by (nonlinear_arith)
        requires
            x.value() <= count.value(),
            0 < u,
    ;
    exact::lemma_rounded_at_most(x.value() * u, count.value(), cdf::one());
    assert(0 * count.value() <= x.value() * u) by (nonlinear_arith)
        requires
            0 <= x.value(),
            0 < u,
    ;
    assert(cdf::zero().value() == 0);
    exact::lemma_rounded_at_least(x.value() * u, count.value(), cdf::zero());
}

/// Dividing by one count keeps the order.
proof fn lemma_fractions_ordered(x: Float64, y: Float64, count: Float64)
    requires
        x.finite(),
        y.finite(),
        count.finite(),
        0 < count.value(),
        x.value() <= y.value(),
    ensures
        x.over_spec(count).le_spec(y.over_spec(count)),
{
    exact::lemma_over(x, count);
    exact::lemma_over(y, count);
    lemma_pow2_pos(1074);
    let u = Float64::unit();
    assert(x.value() * u * count.value() <= y.value() * u * count.value()) by (nonlinear_arith)
        requires
            x.value() <= y.value(),
            0 < u,
            0 < count.value(),
    ;
    exact::lemma_rounded_order(x.value() * u, count.value(), y.value() * u, count.value());
}

/// The distance of a value from `from`, as a part of the distance of `to` from `from`, is
/// between 0 and 1.
pub proof fn lemma_part_of_gap(near: int, far: int, d: Float64, gap: Float64)
    requires
        0 <= near <= far,
        0 < far,
        !d.nan(),
        !gap.nan(),
        d.ordinal() == exact::rounded_ordinal(near, 1),
        gap.ordinal() == exact::rounded_ordinal(far, 1),
        gap.finite(),
    ensures
        d.finite(),
        cdf::zero().lt_spec(gap),
        0 < gap.value(),
        0 <= d.value() <= gap.value(),
        d.over_spec(gap).finite(),
        0 <= d.over_spec(gap).value() <= Float64::unit(),
{
    weights::lemma_constants();
    exact::lemma_rounded_order(near, 1, far, 1);
    exact::lemma_rounded_at_least(near, 1, cdf::zero());
    // the least positive number is at most `far`
    let tiny = Float64::of(false, 1);
    exact::lemma_of(false, 1);
    lemma2_to64();
    lemma_pow2_pos(52);
    rounding::lemma_magnitude_of_parts(52, 0, 1);
    assert(tiny.value() == 1);
    exact::lemma_rounded_at_least(far, 1, tiny);
    exact::lemma_value_order(d, gap);
    exact::lemma_value_order(cdf::zero(), d);
    exact::lemma_value_order(tiny, gap);
    lemma_fraction(d, gap);
    exact::lemma_value_order(d.over_spec(gap), cdf::one());
    exact::lemma_value_order(cdf::zero(), d.over_spec(gap));
}

/// A part of a number `c` that is not negative is between 0 and `c`.
pub proof fn lemma_part_of(frac: Float64, c: Float64)
    requires
        frac.finite(),
        0 <= frac.value() <= Float64::unit(),
        c.finite(),
        0 <= c.value(),
    ensures
        frac.times_spec(c).finite(),
        0 <= frac.times_spec(c).value() <= c.value(),
        c.times_spec(frac).finite(),
        0 <= c.times_spec(frac).value() <= c.value(),
{
    weights::lemma_constants();
    let u = Float64::unit();
    exact::lemma_times(frac, c);
    exact::lemma_times(c, frac);
    let p = frac.value() * c.value();
    assert(p == c.value() * frac.value()) by (nonlinear_arith)
        requires
            p == frac.value() * c.value(),
    ;
    assert(p <= c.value() * u) by (nonlinear_arith)
        requires
            p == frac.value() * c.value(),
            frac.value() <= u,
            0 <= c.value(),
    ;
    assert(0 * u <= p) by (nonlinear_arith)
        requires
            p == frac.value() * c.value(),
            0 <= frac.value(),
            0 <= c.value(),
    ;
    exact::lemma_rounded_at_most(p, u, c);
    exact::lemma_rounded_at_least(p, u, cdf::zero());
    exact::lemma_value_order(frac.times_spec(c), c);
    exact::lemma_value_order(c.times_spec(frac), c);
    exact::lemma_value_order(cdf::zero(), frac.times_spec(c));
    exact::lemma_value_order(cdf::zero(), c.times_spec(frac));
}

/// The numerator of a tail ramp: at least one half, at least 1 and at most half of the
/// weight where that counts two values or more, and at most 1 where it counts one.
proof fn lemma_ramp(frac: Float64, w: Float64)
    requires
        frac.finite(),
        0 <= frac.value() <= Float64::unit(),
        weights::whole(w),
        weights::units(w) <= 0x20_0000_0000_0000,
    ensures
        ({
            let c = w.over_spec(cdf::two()).minus_spec(cdf::one());
            let n = cdf::one().plus_spec(frac.times_spec(c));
            &&& exact::is_halves(c, weights::units(w) - 2)
            &&& frac.times_spec(c).finite()
            &&& n.finite()
            &&& exact::h() <= n.value()
            &&& weights::units(w) >= 2 ==> 2 * exact::h() <= n.value() <= weights::units(w)
                * exact::h()
            &&& weights::units(w) == 1 ==> n.value() <= 2 * exact::h()
        }),
{
    weights::lemma_constants();
    let k = weights::units(w);
    let u = Float64::unit();
    let h = exact::h();
    let half_w = w.over_spec(cdf::two());
    let c = half_w.minus_spec(cdf::one());
    let ramp = frac.times_spec(c);
    let n = cdf::one().plus_spec(ramp);
    exact::lemma_over_two(w, k, cdf::two());
    exact::lemma_halves_minus(half_w, k, cdf::one(), 2);
    if k >= 2 {
        assert(0 <= c.value()) by (nonlinear_arith)
            requires
                c.value() == (k - 2) * h,
                k >= 2,
                0 < h,
        ;
        lemma_part_of(frac, c);
        exact::lemma_plus(cdf::one(), ramp);
        assert(cdf::one().value() + c.value() == half_w.value()) by (nonlinear_arith)
            requires
                cdf::one().value() == 2 * h,
                c.value() == (k - 2) * h,
                half_w.value() == k * h,
        ;
        exact::lemma_rounded_at_most(cdf::one().value() + ramp.value(), 1, half_w);
        exact::lemma_rounded_at_least(cdf::one().value() + ramp.value(), 1, cdf::one());
        exact::lemma_value_order(n, half_w);
        exact::lemma_value_order(cdf::one(), n);
    } else {
        assert(k == 1);
        assert(c.value() == -h) by (nonlinear_arith)
            requires
                c.value() == (k - 2) * h,
                k == 1,
        ;
        exact::lemma_times(frac, c);
        let p = frac.value() * c.value();
        assert(p <= 0 * u) by (nonlinear_arith)
            requires
                p == frac.value() * c.value(),
                0 <= frac.value(),
                c.value() == -h,
                0 < h,
        ;
        assert(c.value() * u <= p) by (nonlinear_arith)
            requires
                p == frac.value() * c.value(),
                frac.value() <= u,
                c.value() == -h,
                0 < h,
        ;
        exact::lemma_rounded_at_most(p, u, cdf::zero());
        exact::lemma_rounded_at_least(p, u, c);
        exact::lemma_value_order(ramp, cdf::zero());
        exact::lemma_value_order(c, ramp);
        exact::lemma_plus(cdf::one(), ramp);
        exact::lemma_rounded_at_most(cdf::one().value() + ramp.value(), 1, cdf::one());
        exact::lemma_rounded_at_least(cdf::one().value() + ramp.value(), 1, cdf::half());
        exact::lemma_value_order(n, cdf::one());
        exact::lemma_value_order(cdf::half(), n);
    }
}

/// Extremes and means of a sound digest are finite and in order, and so are the distances
/// between them.
pub proof fn lemma_support(centroids: Seq<Centroid>, count: Float64, min: Float64, max: Float64)
    requires
        sound(centroids, count, min, max),
    ensures
        min.finite(),
        max.finite(),
        0 < count.value(),
        count.finite(),
        forall|i: int|
            0 <= i < centroids.len() ==> (#[trigger] centroids[i]).mean.finite() && min.value()
                <= centroids[i].mean.value() <= max.value(),
        forall|i: int, j: int|
            0 <= i < j < centroids.len() ==> (#[trigger] centroids[i]).mean.value() < (
            #[trigger] centroids[j]).mean.value(),
{
    let m = CdfModel::of(centroids, count);
    let n = centroids.len() - 1;
    exact::lemma_negated(min);
    assert(min.ordinal() <= m.means[0].ordinal());
    assert(m.means[n].ordinal() <= max.ordinal());
    assert(min.finite() && max.finite()) by {
        if !min.finite() || !max.finite() {
            // an infinite difference, or none
            assert(!max.minus_spec(min).finite());
        }
    }
    assert forall|i: int| 0 <= i < centroids.len() implies (
    #[trigger] centroids[i]).mean.finite() && min.value() <= centroids[i].mean.value()
        <= max.value() by {
        assert(m.means[i] == centroids[i].mean);
        assert(!m.means[i].nan());
        if i > 0 {
            assert(m.means[0].ordinal() < m.means[i].ordinal());
        }
        if i < n {
            assert(m.means[i].ordinal() < m.means[n].ordinal());
        }
        exact::lemma_value_order(min, m.means[i]);
        exact::lemma_value_order(m.means[i], max);
    }
    assert forall|i: int, j: int| 0 <= i < j < centroids.len() implies (
    #[trigger] centroids[i]).mean.value() < (#[trigger] centroids[j]).mean.value() by {
        assert(m.means[i] == centroids[i].mean);
        assert(m.means[j] == centroids[j].mean);
        assert(m.means[i].ordinal() < m.means[j].ordinal());
        exact::lemma_value_order(m.means[i], m.means[j]);
    }
    weights::lemma_constants();
    lemma_prefix(centroids, count, min, max, 0);
    let t = weights::total(m.weights);
    assert(0 < count.value()) by (nonlinear_arith)
        requires
            count.value() == (2 * t) * exact::h(),
            1 <= t,
            0 < exact::h(),
    ;
}

/// A distance between two numbers within the support is finite.
pub proof fn lemma_distance(a: Float64, b: Float64, min: Float64, max: Float64)
    requires
        a.finite(),
        b.finite(),
        min.finite(),
        max.finite(),
        max.minus_spec(min).finite(),
        min.value() <= a.value() <= b.value() <= max.value(),
    ensures
        b.minus_spec(a).finite(),
        !b.minus_spec(a).nan(),
        b.minus_spec(a).ordinal() == exact::rounded_ordinal(b.value() - a.value(), 1),
{
    weights::lemma_constants();
    exact::lemma_minus(b, a);
    exact::lemma_minus(max, min);
    exact::lemma_rounded_order(b.value() - a.value(), 1, max.value() - min.value(), 1);
    exact::lemma_rounded_at_least(b.value() - a.value(), 1, cdf::zero());
}

/// The numerator at the mean of centroid `i`.
pub proof fn lemma_numerator_at_mean(
    centroids: Seq<Centroid>,
    count: Float64,
    min: Float64,
    max: Float64,
    i: int,
)
    requires
        sound(centroids, count, min, max),
        0 <= i < centroids.len(),
    ensures
        ({
            let m = CdfModel::of(centroids, count);
            let n = m.prefix[i].plus_spec(cdf::half().times_spec(m.weights[i]));
            let h = exact::h();
            &&& n.finite()
            &&& (middle(m, i) - play(m)) * h <= n.value() <= (middle(m, i) + play(m)) * h
            &&& 0 <= n.value() <= count.value()
            &&& m.at_mean(i) == n.over_spec(count)
        }),
{
    let m = CdfModel::of(centroids, count);
    let k = weights::units(m.weights[i]);
    let p = before(m, i);
    let t = weights::total(m.weights);
    let h = exact::h();
    let mid = 2 * p + k;
    let half_w = cdf::half().times_spec(m.weights[i]);
    let n = m.prefix[i].plus_spec(half_w);
    weights::lemma_constants();
    lemma_prefix(centroids, count, min, max, i);
    exact::lemma_half_times(cdf::half(), m.weights[i], k);
    exact::lemma_plus(m.prefix[i], half_w);
    let v = m.prefix[i].value() + half_w.value();
    assert(v == mid * h) by (nonlinear_arith)
        requires
            v == (2 * p) * h + k * h,
            mid == 2 * p + k,
    ;
    assert(0 <= mid * h <= (2 * t) * h) by (nonlinear_arith)
        requires
            0 <= p,
            1 <= k,
            p + k <= t,
            mid == 2 * p + k,
            0 < h,
    ;
    lemma_rounded_between(n, v, mid, mid);
    exact::lemma_rounded_at_most(v, 1, count);
    exact::lemma_rounded_at_least(v, 1, cdf::zero());
    exact::lemma_value_order(n, count);
    exact::lemma_value_order(cdf::zero(), n);
    assert((mid - play(m)) * h <= down(mid) * h && up(mid) * h <= (mid + play(m)) * h)
        by (nonlinear_arith)
        requires
            mid - play(m) <= down(mid),
            up(mid) <= mid + play(m),
            0 < h,
    ;
}

/// The numerator between the means `i - 1` and `i` is between those at the two means.
pub proof fn lemma_numerator_between(
    centroids: Seq<Centroid>,
    count: Float64,
    min: Float64,
    max: Float64,
    val: Float64,
    i: int,
) -> (n: Float64)
    requires
        sound(centroids, count, min, max),
        0 < i < centroids.len(),
        centroids[i - 1].mean.lt_spec(val),
        val.lt_spec(centroids[i].mean),
    ensures
        ({
            let m = CdfModel::of(centroids, count);
            let wl = m.weights[i - 1];
            let wr = m.weights[i];
            let frac = val.minus_spec(m.means[i - 1]).over_spec(
                m.means[i].minus_spec(m.means[i - 1]),
            );
            let left = cdf::excluded(wl);
            let right = cdf::excluded(wr);
            let span = cdf::half().times_spec(wl.plus_spec(wr)).minus_spec(left).minus_spec(right);
            let base = m.prefix[i - 1].plus_spec(wl.over_spec(cdf::two())).plus_spec(left);
            &&& n.finite()
            &&& m.between(val, i) == n.over_spec(count)
            &&& (middle(m, i - 1) - play(m)) * exact::h() <= n.value() <= (middle(m, i) + play(m))
                * exact::h()
            &&& 0 <= n.value() <= count.value()
            &&& frac.finite()
            &&& 0 <= frac.value() <= Float64::unit()
            &&& val.finite()
            &&& val.minus_spec(m.means[i - 1]).finite()
            &&& m.means[i].minus_spec(m.means[i - 1]).finite()
            &&& 0 < m.means[i].minus_spec(m.means[i - 1]).value()
            &&& if weights::units(wl) == 1 && weights::units(wr) == 1 {
                &&& n == m.prefix[i - 1].plus_spec(cdf::one())
                &&& exact::is_halves(n, middle(m, i - 1) + 1)
            } else {
                &&& n == base.plus_spec(span.times_spec(frac))
                &&& exact::is_halves(
                    span,
                    weights::units(wl) + weights::units(wr) - taken(wl) - taken(wr),
                )
                &&& (middle(m, i - 1) + taken(wl) - play(m)) * exact::h() <= base.value() <= (
                middle(m, i - 1) + taken(wl) + play(m)) * exact::h()
                &&& base.finite()
                &&& 0 <= base.value()
                &&& span.finite()
                &&& 0 <= span.value()
                &&& span.times_spec(frac).finite()
            }
        }),
{
    let m = CdfModel::of(centroids, count);
    let ml = m.means[i - 1];
    let mr = m.means[i];
    let wl = m.weights[i - 1];
    let wr = m.weights[i];
    let kl = weights::units(wl);
    let kr = weights::units(wr);
    let p = before(m, i - 1);
    let t = weights::total(m.weights);
    let h = exact::h();
    let u = Float64::unit();
    weights::lemma_constants();
    lemma_support(centroids, count, min, max);
    lemma_prefix(centroids, count, min, max, i - 1);
    lemma_prefix(centroids, count, min, max, i);
    lemma_numerator_at_mean(centroids, count, min, max, i - 1);
    lemma_numerator_at_mean(centroids, count, min, max, i);
    assert(ml == centroids[i - 1].mean && mr == centroids[i].mean);
    // the value lies within the gap
    assert(val.finite());
    exact::lemma_value_order(ml, val);
    exact::lemma_value_order(val, mr);
    let gap = mr.minus_spec(ml);
    let d = val.minus_spec(ml);
    lemma_distance(ml, mr, min, max);
    lemma_distance(ml, val, min, max);
    lemma_part_of_gap(val.value() - ml.value(), mr.value() - ml.value(), d, gap);
    let frac = d.over_spec(gap);
    exact::lemma_value_order(wl, cdf::one());
    exact::lemma_value_order(wr, cdf::one());
    assert(wl.eq_spec(cdf::one()) <==> kl == 1) by {
        assert(wl.value() == (2 * kl) * h);
        assert(kl == 1 <==> (2 * kl) * h == 2 * h) by (nonlinear_arith)
            requires
                0 < h,
        ;
    }
    assert(wr.eq_spec(cdf::one()) <==> kr == 1) by {
        assert(wr.value() == (2 * kr) * h);
        assert(kr == 1 <==> (2 * kr) * h == 2 * h) by (nonlinear_arith)
            requires
                0 < h,
        ;
    }
    assert(!gap.le_spec(cdf::zero()));
    let el = if kl == 1 {
        1int
    } else {
        0
    };
    let er = if kr == 1 {
        1int
    } else {
        0
    };
    let lo = middle(m, i - 1);
    let hi = middle(m, i);
    assert(lo == 2 * p + kl);
    assert(hi == 2 * p + 2 * kl + kr);
    if kl == 1 && kr == 1 {
        let n = m.prefix[i - 1].plus_spec(cdf::one());
        exact::lemma_halves_plus(m.prefix[i - 1], 2 * p, cdf::one(), 2);
        assert((lo - play(m)) * h <= (2 * p + 2) * h <= (hi + play(m)) * h) by (nonlinear_arith)
            requires
                lo == 2 * p + 1,
                hi == 2 * p + 3,
                0 <= play(m),
                0 < h,
        ;
        assert(0 <= (2 * p + 2) * h <= (2 * t) * h) by (nonlinear_arith)
            requires
                0 <= p,
                p + 2 <= t,
                0 < h,
        ;
        n
    } else {
        let left = cdf::excluded(wl);
        let right = cdf::excluded(wr);
        let both = wl.plus_spec(wr);
        let dw = cdf::half().times_spec(both);
        let d1 = dw.minus_spec(left);
        let span = d1.minus_spec(right);
        let half_l = wl.over_spec(cdf::two());
        let b1 = m.prefix[i - 1].plus_spec(half_l);
        let base = b1.plus_spec(left);
        exact::lemma_halves_plus(wl, 2 * kl, wr, 2 * kr);
        assert(2 * kl + 2 * kr == 2 * (kl + kr));
        exact::lemma_half_times(cdf::half(), both, kl + kr);
        exact::lemma_halves_minus(dw, kl + kr, left, el);
        exact::lemma_halves_minus(d1, kl + kr - el, right, er);
        exact::lemma_over_two(wl, kl, cdf::two());
        let ks = kl + kr - el - er;
        let kb = 2 * p + kl + el;
        // where the numerator begins
        let v1 = m.prefix[i - 1].value() + half_l.value();
        exact::lemma_plus(m.prefix[i - 1], half_l);
        assert(v1 == lo * h) by (nonlinear_arith)
            requires
                v1 == (2 * p) * h + kl * h,
                lo == 2 * p + kl,
        ;
        lemma_rounded_between(b1, v1, lo, lo);
        let v2 = b1.value() + left.value();
        exact::lemma_plus(b1, left);
        assert((down(lo) + el) * h <= v2 <= (up(lo) + el) * h) by (nonlinear_arith)
            requires
                v2 == b1.value() + el * h,
                down(lo) * h <= b1.value() <= up(lo) * h,
        ;
        lemma_rounded_between(base, v2, down(lo) + el, up(lo) + el);
        let first = down(down(lo) + el);
        let end = up(up(lo) + el);
        if el == 0 {
            assert(exact::fits(down(lo)) && exact::fits(up(lo)));
        }
        assert(0 <= span.value()) by (nonlinear_arith)
            requires
                span.value() == ks * h,
                0 <= ks,
                0 < h,
        ;
        lemma_part_of(frac, span);
        let part = span.times_spec(frac);
        let n = base.plus_spec(part);
        let v3 = base.value() + part.value();
        exact::lemma_plus(base, part);
        assert(first * h <= v3 <= (end + ks) * h) by (nonlinear_arith)
            requires
                v3 == base.value() + part.value(),
                first * h <= base.value() <= end * h,
                0 <= part.value() <= ks * h,
        ;
        assert(end + ks <= 2 * t);
        lemma_rounded_between(n, v3, first, end + ks);
        assert((end + ks) * h <= (2 * t) * h && (kb - play(m)) * h <= first * h && end * h <= (kb
            + play(m)) * h) by (nonlinear_arith)
            requires
                end + ks <= 2 * t,
                kb - play(m) <= first,
                end <= kb + play(m),
                0 < h,
        ;
        exact::lemma_rounded_at_most(v3, 1, count);
        exact::lemma_value_order(n, count);
        exact::lemma_rounded_at_least(v3, 1, base);
        exact::lemma_value_order(base, n);
        assert(lo - play(m) <= first && up(end + ks) <= hi + play(m));
        assert((lo - play(m)) * h <= first * h && up(end + ks) * h <= (hi + play(m)) * h
            && 0 <= first * h) by (nonlinear_arith)
            requires
                lo - play(m) <= first,
                up(end + ks) <= hi + play(m),
                0 <= first,
                0 < h,
        ;
        n
    }
}

/// The numerator of the ramp left of the first mean.
pub proof fn lemma_numerator_left(
    centroids: Seq<Centroid>,
    count: Float64,
    min: Float64,
    max: Float64,
    val: Float64,
) -> (n: Float64)
    requires
        sound(centroids, count, min, max),
        min.lt_spec(val),
        val.lt_spec(centroids[0].mean),
    ensures
        ({
            let m = CdfModel::of(centroids, count);
            let w = m.weights[0];
            let gap = m.means[0].minus_spec(min);
            let frac = val.minus_spec(min).over_spec(gap);
            let c = w.over_spec(cdf::two()).minus_spec(cdf::one());
            &&& n == cdf::one().plus_spec(frac.times_spec(c))
            &&& m.in_left_tail(val, min) == n.over_spec(count)
            &&& n.finite()
            &&& exact::h() <= n.value() <= count.value()
            &&& weights::units(w) >= 2 ==> 2 * exact::h() <= n.value() <= middle(m, 0) * exact::h()
            &&& val.finite()
            &&& val.minus_spec(min).finite()
            &&& gap.finite()
            &&& 0 < gap.value()
            &&& frac.finite()
            &&& frac.times_spec(c).finite()
            &&& exact::is_halves(c, weights::units(w) - 2)
        }),
{
    let m = CdfModel::of(centroids, count);
    let w = m.weights[0];
    let k = weights::units(w);
    let h = exact::h();
    let t = weights::total(m.weights);
    weights::lemma_constants();
    lemma_support(centroids, count, min, max);
    lemma_prefix(centroids, count, min, max, 0);
    let m0 = m.means[0];
    assert(m0 == centroids[0].mean);
    exact::lemma_value_order(min, val);
    exact::lemma_value_order(val, m0);
    let gap = m0.minus_spec(min);
    let d = val.minus_spec(min);
    lemma_distance(min, m0, min, max);
    lemma_distance(min, val, min, max);
    lemma_part_of_gap(val.value() - min.value(), m0.value() - min.value(), d, gap);
    let frac = d.over_spec(gap);
    lemma_ramp(frac, w);
    let n = cdf::one().plus_spec(
        frac.times_spec(w.over_spec(cdf::two()).minus_spec(cdf::one())),
    );
    assert(k * h <= (2 * t) * h && 2 * h <= (2 * t) * h) by (nonlinear_arith)
        requires
            1 <= k <= t,
            0 < h,
    ;
    n
}

/// The numerator of the ramp right of the last mean.
pub proof fn lemma_numerator_right(
    centroids: Seq<Centroid>,
    count: Float64,
    min: Float64,
    max: Float64,
    val: Float64,
) -> (n: Float64)
    requires
        sound(centroids, count, min, max),
        centroids.last().mean.lt_spec(val),
        val.lt_spec(max),
    ensures
        ({
            let m = CdfModel::of(centroids, count);
            let w = m.weights.last();
            let gap = max.minus_spec(m.means.last());
            let frac = max.minus_spec(val).over_spec(gap);
            let c = w.over_spec(cdf::two()).minus_spec(cdf::one());
            &&& n == cdf::one().plus_spec(frac.times_spec(c))
            &&& m.in_right_tail(val, max) == cdf::one().minus_spec(n.over_spec(count))
            &&& n.finite()
            &&& exact::h() <= n.value() <= count.value()
            &&& weights::units(w) >= 2 ==> 2 * exact::h() <= n.value() <= weights::units(w)
                * exact::h()
            &&& val.finite()
            &&& max.minus_spec(val).finite()
            &&& gap.finite()
            &&& 0 < gap.value()
            &&& frac.finite()
            &&& frac.times_spec(c).finite()
            &&& exact::is_halves(c, weights::units(w) - 2)
        }),
{
    let m = CdfModel::of(centroids, count);
    let last = centroids.len() - 1;
    let w = m.weights[last];
    let k = weights::units(w);
    let h = exact::h();
    let t = weights::total(m.weights);
    weights::lemma_constants();
    lemma_support(centroids, count, min, max);
    lemma_prefix(centroids, count, min, max, last);
    let mn = m.means[last];
    assert(mn == centroids[last].mean);
    exact::lemma_value_order(mn, val);
    exact::lemma_value_order(val, max);
    let gap = max.minus_spec(mn);
    let d = max.minus_spec(val);
    lemma_distance(mn, max, min, max);
    lemma_distance(val, max, min, max);
    lemma_part_of_gap(max.value() - val.value(), max.value() - mn.value(), d, gap);
    let frac = d.over_spec(gap);
    lemma_ramp(frac, w);
    let n = cdf::one().plus_spec(
        frac.times_spec(w.over_spec(cdf::two()).minus_spec(cdf::one())),
    );
    assert(k * h <= (2 * t) * h && 2 * h <= (2 * t) * h) by (nonlinear_arith)
        requires
            1 <= k <= t,
            0 < h,
    ;
    n
}

/// What is left of 1 after taking a number between 0 and 1 is between 0 and 1.
proof fn lemma_complement(q: Float64)
    requires
        q.finite(),
        cdf::zero().le_spec(q),
        q.le_spec(cdf::one()),
    ensures
        cdf::zero().le_spec(cdf::one().minus_spec(q)),
        cdf::one().minus_spec(q).le_spec(cdf::one()),
{
    weights::lemma_constants();
    exact::lemma_value_order(cdf::zero(), q);
    exact::lemma_value_order(q, cdf::one());
    exact::lemma_minus(cdf::one(), q);
    exact::lemma_rounded_at_most(cdf::one().value() - q.value(), 1, cdf::one());
    exact::lemma_rounded_at_least(cdf::one().value() - q.value(), 1, cdf::zero());
}

/// An edge of the support and the first mean: either they are equal or there is a gap.
pub proof fn lemma_edges(centroids: Seq<Centroid>, count: Float64, min: Float64, max: Float64)
    requires
        sound(centroids, count, min, max),
    ensures
        cdf::zero().lt_spec(centroids[0].mean.minus_spec(min)) <==> min.lt_spec(centroids[0].mean),
        cdf::zero().lt_spec(max.minus_spec(centroids.last().mean))
            <==> centroids.last().mean.lt_spec(max),
        exact::h() <= count.value(),
{
    weights::lemma_constants();
    lemma_support(centroids, count, min, max);
    let m = CdfModel::of(centroids, count);
    let last = centroids.len() - 1;
    let m0 = centroids[0].mean;
    let mn = centroids[last].mean;
    lemma_distance(min, m0, min, max);
    lemma_distance(mn, max, min, max);
    exact::lemma_value_order(min, m0);
    exact::lemma_value_order(mn, max);
    exact::lemma_round_bounds(0, 1);
    if min.value() < m0.value() {
        lemma_part_of_gap(0, m0.value() - min.value(), cdf::zero(), m0.minus_spec(min));
    }
    if mn.value() < max.value() {
        lemma_part_of_gap(0, max.value() - mn.value(), cdf::zero(), max.minus_spec(mn));
    }
    lemma_prefix(centroids, count, min, max, 0);
    let t = weights::total(m.weights);
    assert(exact::h() <= (2 * t) * exact::h()) by (nonlinear_arith)
        requires
            1 <= t,
            0 < exact::h(),
    ;
}

/// Every estimate of a sound digest is a number between 0 and 1.
pub proof fn law_estimates_are_probabilities(
    centroids: Seq<Centroid>,
    count: Float64,
    min: Float64,
    max: Float64,
    val: Float64,
    r: Float64,
)
    requires
        sound(centroids, count, min, max),
        !val.nan(),
        CdfModel::of(centroids, count).estimates(val, min, max, r),
    ensures
        cdf::zero().le_spec(r),
        r.le_spec(cdf::one()),
{
    let m = CdfModel::of(centroids, count);
    let slot = choose|slot: Slot| #[trigger]
        cdf::is_slot(m.means, val, slot) && r == m.at_slot(val, min, max, slot);
    let last = centroids.len() - 1;
    weights::lemma_constants();
    lemma_support(centroids, count, min, max);
    lemma_edges(centroids, count, min, max);
    lemma_ascending(m.means);
    match slot {
        Slot::Hit(i) => {
            lemma_numerator_at_mean(centroids, count, min, max, i);
            lemma_fraction(m.prefix[i].plus_spec(cdf::half().times_spec(m.weights[i])), count);
        },
        Slot::Gap(i) => {
            if i == 0 {
                assert(val.lt_spec(m.means[0]));
                assert(m.means[0] == centroids[0].mean);
                if min.lt_spec(val) {
                    let n = lemma_numerator_left(centroids, count, min, max, val);
                    lemma_fraction(n, count);
                } else {
                    lemma_fraction(cdf::half(), count);
                }
            } else if i == m.means.len() {
                assert(m.means[last].lt_spec(val));
                assert(m.means[last] == centroids[last].mean);
                if val.lt_spec(max) {
                    let n = lemma_numerator_right(centroids, count, min, max, val);
                    lemma_fraction(n, count);
                    lemma_complement(n.over_spec(count));
                } else {
                    lemma_fraction(cdf::half(), count);
                    lemma_complement(cdf::half().over_spec(count));
                }
            } else {
                assert(m.means[i - 1].lt_spec(val));
                assert(val.lt_spec(m.means[i]));
                let n = lemma_numerator_between(centroids, count, min, max, val, i);
                lemma_fraction(n, count);
            }
        },
    }
}

/// Strictly increasing numbers are in ascending order.
pub proof fn lemma_ascending(means: Seq<Float64>)
    requires
        cdf::strictly_ascending_numbers(means),
    ensures
        cdf::ascending_numbers(means),
{
    assert forall|i: int, j: int| 0 <= i <= j < means.len() implies (
    #[trigger] means[i]).ordinal() <= (#[trigger] means[j]).ordinal() by {}
}

/// Below the least value the estimate is 0, above the greatest it is 1.
pub proof fn law_outside_the_support(
    centroids: Seq<Centroid>,
    count: Float64,
    min: Float64,
    max: Float64,
    val: Float64,
    r: Float64,
)
    requires
        centroids.len() > 0,
        cdf::strictly_ascending_numbers(CdfModel::of(centroids, count).means),
        min.le_spec(centroids[0].mean),
        centroids.last().mean.le_spec(max),
        CdfModel::of(centroids, count).estimates(val, min, max, r),
    ensures
        val.lt_spec(min) ==> r == cdf::zero(),
        max.lt_spec(val) ==> r == cdf::one(),
{
    let m = CdfModel::of(centroids, count);
    let slot = choose|slot: Slot| #[trigger]
        cdf::is_slot(m.means, val, slot) && r == m.at_slot(val, min, max, slot);
    let last = centroids.len() - 1;
    lemma_ascending(m.means);
    assert(m.means[0] == centroids[0].mean);
    assert(m.means[last] == centroids[last].mean);
    if val.lt_spec(min) {
        match slot {
            Slot::Hit(i) => {
                assert(m.means[0].ordinal() <= m.means[i].ordinal());
            },
            Slot::Gap(i) => {
                if i > 0 {
                    assert(m.means[0].lt_spec(val));
                }
            },
        }
    } else if max.lt_spec(val) {
        match slot {
            Slot::Hit(i) => {
                assert(m.means[i].ordinal() <= m.means[last].ordinal());
            },
            Slot::Gap(i) => {
                if i <= last {
                    assert(val.lt_spec(m.means[last]));
                }
            },
        }
    }
}

/// The edge centroids lie at the extremes where they count a single value.
pub open spec fn edges_at_extremes(
    centroids: Seq<Centroid>,
    min: Float64,
    max: Float64,
) -> bool {
    &&& weights::units(centroids[0].weight) >= 2 || min.eq_spec(centroids[0].mean)
    &&& weights::units(centroids.last().weight) >= 2 || max.eq_spec(centroids.last().mean)
}

/// Middles of later centroids have more weight before them.
proof fn lemma_middles_ordered(
    centroids: Seq<Centroid>,
    count: Float64,
    min: Float64,
    max: Float64,
    i: int,
    j: int,
)
    requires
        sound(centroids, count, min, max),
        0 <= i <= j < centroids.len(),
    ensures
        middle(CdfModel::of(centroids, count), i) <= middle(CdfModel::of(centroids, count), j),
    decreases j - i,
{
    lemma_prefix(centroids, count, min, max, j);
    if i < j {
        lemma_middles_ordered(centroids, count, min, max, i, j - 1);
    }
}

/// Adding to one number keeps the order.
proof fn lemma_plus_ordered(a: Float64, x: Float64, y: Float64)
    requires
        a.finite(),
        x.finite(),
        y.finite(),
        x.value() <= y.value(),
    ensures
        a.plus_spec(x).ordinal() <= a.plus_spec(y).ordinal(),
{
    exact::lemma_plus(a, x);
    exact::lemma_plus(a, y);
    exact::lemma_rounded_order(a.value() + x.value(), 1, a.value() + y.value(), 1);
}

/// Multiplying by one number that is not negative keeps the order.
proof fn lemma_times_ordered(c: Float64, x: Float64, y: Float64)
    requires
        c.finite(),
        0 <= c.value(),
        x.finite(),
        y.finite(),
        x.value() <= y.value(),
    ensures
        c.times_spec(x).ordinal() <= c.times_spec(y).ordinal(),
        x.times_spec(c).ordinal() <= y.times_spec(c).ordinal(),
{
    let u = Float64::unit();
    lemma_pow2_pos(1074);
    exact::lemma_times(c, x);
    exact::lemma_times(c, y);
    exact::lemma_times(x, c);
    exact::lemma_times(y, c);
    assert(c.value() * x.value() * u <= c.value() * y.value() * u) by (nonlinear_arith)
        requires
            0 <= c.value(),
            x.value() <= y.value(),
            0 < u,
    ;
    assert(x.value() * c.value() * u <= y.value() * c.value() * u) by (nonlinear_arith)
        requires
            0 <= c.value(),
            x.value() <= y.value(),
            0 < u,
    ;
    exact::lemma_rounded_order(c.value() * x.value(), u, c.value() * y.value(), u);
    exact::lemma_rounded_order(x.value() * c.value(), u, y.value() * c.value(), u);
}

/// The numerator that the estimate at or left of the last mean divides by the count; none
/// where the estimate is 0 outright.
proof fn lemma_numerator(
    centroids: Seq<Centroid>,
    count: Float64,
    min: Float64,
    max: Float64,
    val: Float64,
    slot: Slot,
) -> (n: Option<Float64>)
    requires
        sound(centroids, count, min, max),
        edges_at_extremes(centroids, min, max),
        !val.nan(),
        cdf::is_slot(CdfModel::of(centroids, count).means, val, slot),
        slot != Slot::Gap(centroids.len() as int),
    ensures
        ({
            let m = CdfModel::of(centroids, count);
            let r = m.at_slot(val, min, max, slot);
            match n {
                None => r == cdf::zero() && slot == Slot::Gap(0),
                Some(x) => {
                    &&& x.finite()
                    &&& r == x.over_spec(count)
                    &&& 0 <= x.value() <= count.value()
                    &&& match slot {
                        Slot::Hit(i) => (middle(m, i) - play(m)) * exact::h() <= x.value() <= (
                        middle(m, i) + play(m)) * exact::h(),
                        Slot::Gap(i) => {
                            &&& x.value() <= (middle(m, i) + play(m)) * exact::h()
                            &&& i > 0 ==> (middle(m, i - 1) - play(m)) * exact::h() <= x.value()
                        },
                    }
                },
            }
        }),
{
    let m = CdfModel::of(centroids, count);
    weights::lemma_constants();
    lemma_support(centroids, count, min, max);
    lemma_edges(centroids, count, min, max);
    lemma_ascending(m.means);
    assert(m.means[0] == centroids[0].mean);
    match slot {
        Slot::Hit(i) => {
            lemma_numerator_at_mean(centroids, count, min, max, i);
            Some(m.prefix[i].plus_spec(cdf::half().times_spec(m.weights[i])))
        },
        Slot::Gap(i) => {
            if i == 0 {
                assert(val.lt_spec(m.means[0]));
                lemma_numerator_at_mean(centroids, count, min, max, 0);
                lemma_prefix(centroids, count, min, max, 0);
                assert(middle(m, 0) * exact::h() <= (middle(m, 0) + play(m)) * exact::h())
                    by (nonlinear_arith)
                    requires
                        0 <= play(m),
                        0 < exact::h(),
                ;
                if min.lt_spec(val) {
                    let n = lemma_numerator_left(centroids, count, min, max, val);
                    assert(m.weights[0] == centroids[0].weight);
                    Some(n)
                } else if val.eq_spec(min) && min.lt_spec(m.means[0]) {
                    assert(exact::h() <= middle(m, 0) * exact::h()) by (nonlinear_arith)
                        requires
                            1 <= middle(m, 0),
                            0 < exact::h(),
                    ;
                    Some(cdf::half())
                } else {
                    None
                }
            } else {
                assert(m.means[i - 1].lt_spec(val));
                assert(val.lt_spec(m.means[i]));
                let n = lemma_numerator_between(centroids, count, min, max, val, i);
                Some(n)
            }
        },
    }
}

/// The order of places among the means.
spec fn place(slot: Slot) -> int {
    match slot {
        Slot::Hit(i) => 2 * i + 1,
        Slot::Gap(i) => 2 * i,
    }
}

/// Greater values have later places.
proof fn lemma_places_ordered(means: Seq<Float64>, a: Float64, b: Float64, sa: Slot, sb: Slot)
    requires
        cdf::strictly_ascending_numbers(means),
        a.le_spec(b),
        cdf::is_slot(means, a, sa),
        cdf::is_slot(means, b, sb),
    ensures
        place(sa) <= place(sb),
{
    lemma_ascending(means);
    match (sa, sb) {
        (Slot::Hit(i), Slot::Hit(j)) => {
            if j < i {
                assert(means[j].ordinal() < means[i].ordinal());
            }
        },
        (Slot::Hit(i), Slot::Gap(j)) => {
            if j <= i {
                assert(b.lt_spec(means[i]));
            }
        },
        (Slot::Gap(i), Slot::Hit(j)) => {
            if j < i {
                assert(means[j].lt_spec(a));
            }
        },
        (Slot::Gap(i), Slot::Gap(j)) => {
            if j < i {
                assert(means[j].lt_spec(a));
                assert(b.lt_spec(means[j]));
            }
        },
    }
}

/// Up to the last mean, a greater value never has a smaller estimate, where at most `2^52`
/// values are counted.
pub proof fn law_estimates_never_decrease(
    centroids: Seq<Centroid>,
    count: Float64,
    min: Float64,
    max: Float64,
    a: Float64,
    ra: Float64,
    b: Float64,
    rb: Float64,
)
    requires
        sound(centroids, count, min, max),
        small(centroids),
        edges_at_extremes(centroids, min, max),
        a.le_spec(b),
        b.le_spec(centroids.last().mean),
        CdfModel::of(centroids, count).estimates(a, min, max, ra),
        CdfModel::of(centroids, count).estimates(b, min, max, rb),
    ensures
        ra.le_spec(rb),
{
    let m = CdfModel::of(centroids, count);
    assert(m.weights =~= weights::weights(centroids));
    let found = lemma_up_to_the_last(centroids, count, min, max, a, ra, b, rb);
    if found is Some {
        let (x, y) = found->0;
        assert(0 * exact::h() == 0) by (nonlinear_arith);
        lemma_fractions_ordered(x, y, count);
    }
}

/// Up to the last mean: the estimates are in order, or they are quotients of numerators
/// that are in order but for the play of their middles.
#[verifier::spinoff_prover]
#[verifier::rlimit(60)]
proof fn lemma_up_to_the_last(
    centroids: Seq<Centroid>,
    count: Float64,
    min: Float64,
    max: Float64,
    a: Float64,
    ra: Float64,
    b: Float64,
    rb: Float64,
) -> (found: Option<(Float64, Float64)>)
    requires
        sound(centroids, count, min, max),
        edges_at_extremes(centroids, min, max),
        a.le_spec(b),
        b.le_spec(centroids.last().mean),
        CdfModel::of(centroids, count).estimates(a, min, max, ra),
        CdfModel::of(centroids, count).estimates(b, min, max, rb),
    ensures
        ({
            let m = CdfModel::of(centroids, count);
            match found {
                None => ra.le_spec(rb),
                Some((x, y)) => {
                    &&& x.finite()
                    &&& y.finite()
                    &&& count.finite()
                    &&& 0 < count.value()
                    &&& 0 <= x.value() <= count.value()
                    &&& 0 <= y.value() <= count.value()
                    &&& ra == x.over_spec(count)
                    &&& rb == y.over_spec(count)
                    &&& x.value() <= y.value() + (2 * play(m)) * exact::h()
                },
            }
        }),
{
    let m = CdfModel::of(centroids, count);
    let last = centroids.len() - 1;
    let sa = choose|slot: Slot| #[trigger]
        cdf::is_slot(m.means, a, slot) && ra == m.at_slot(a, min, max, slot);
    let sb = choose|slot: Slot| #[trigger]
        cdf::is_slot(m.means, b, slot) && rb == m.at_slot(b, min, max, slot);
    weights::lemma_constants();
    lemma_support(centroids, count, min, max);
    lemma_edges(centroids, count, min, max);
    lemma_ascending(m.means);
    lemma_places_ordered(m.means, a, b, sa, sb);
    law_estimates_are_probabilities(centroids, count, min, max, a, ra);
    law_estimates_are_probabilities(centroids, count, min, max, b, rb);
    assert(m.means[last] == centroids[last].mean);
    assert(sb != Slot::Gap(centroids.len() as int)) by {
        if sb == Slot::Gap(centroids.len() as int) {
            assert(m.means[last].lt_spec(b));
        }
    }
    let na = lemma_numerator(centroids, count, min, max, a, sa);
    let nb = lemma_numerator(centroids, count, min, max, b, sb);
    if na is None {
        // an estimate of 0 is at most any other
        None
    } else if nb is None {
        lemma_left_tail_ordered(centroids, count, min, max, a, b);
        None
    } else {
        let x = na->0;
        let y = nb->0;
        let h = exact::h();
        if place(sa) < place(sb) {
            let i = match sa {
                Slot::Hit(i) => i,
                Slot::Gap(i) => i,
            };
            let j = match sb {
                Slot::Hit(j) => j,
                Slot::Gap(j) => j - 1,
            };
            let (mi, mj, s) = (middle(m, i), middle(m, j), play(m));
            lemma_middles_ordered(centroids, count, min, max, i, j);
            assert(x.value() <= y.value() + (2 * s) * h) by (nonlinear_arith)
                requires
                    x.value() <= (mi + s) * h,
                    (mj - s) * h <= y.value(),
                    mi <= mj,
                    0 < h,
            ;
            Some((x, y))
        } else {
            assert(sa == sb);
            match sa {
                Slot::Hit(i) => {
                    assert(ra == rb);
                },
                Slot::Gap(i) => {
                    if i == 0 {
                        lemma_left_tail_ordered(centroids, count, min, max, a, b);
                    } else {
                        lemma_between_ordered(centroids, count, min, max, a, b, i);
                    }
                },
            }
            None
        }
    }
}

/// In the left tail a greater value never has a smaller estimate.
proof fn lemma_left_tail_ordered(
    centroids: Seq<Centroid>,
    count: Float64,
    min: Float64,
    max: Float64,
    a: Float64,
    b: Float64,
)
    requires
        sound(centroids, count, min, max),
        edges_at_extremes(centroids, min, max),
        a.le_spec(b),
        b.lt_spec(centroids[0].mean),
    ensures
        ({
            let m = CdfModel::of(centroids, count);
            m.in_left_tail(a, min).le_spec(m.in_left_tail(b, min))
        }),
{
    let m = CdfModel::of(centroids, count);
    weights::lemma_constants();
    lemma_support(centroids, count, min, max);
    lemma_edges(centroids, count, min, max);
    assert(m.means[0] == centroids[0].mean);
    assert(m.weights[0] == centroids[0].weight);
    if a.lt_spec(min) || !min.lt_spec(m.means[0]) {
        assert(m.in_left_tail(a, min) == cdf::zero());
        if min.lt_spec(b) {
            let n = lemma_numerator_left(centroids, count, min, max, b);
            lemma_fraction(n, count);
        } else {
            lemma_fraction(cdf::half(), count);
        }
    } else if a.eq_spec(min) {
        if min.lt_spec(b) {
            let n = lemma_numerator_left(centroids, count, min, max, b);
            lemma_fractions_ordered(cdf::half(), n, count);
        } else {
            lemma_fraction(cdf::half(), count);
        }
    } else {
        assert(min.lt_spec(a) && min.lt_spec(b));
        let na = lemma_numerator_left(centroids, count, min, max, a);
        let nb = lemma_numerator_left(centroids, count, min, max, b);
        let w = m.weights[0];
        let c = w.over_spec(cdf::two()).minus_spec(cdf::one());
        let gap = m.means[0].minus_spec(min);
        let da = a.minus_spec(min);
        let db = b.minus_spec(min);
        exact::lemma_value_order(a, b);
        exact::lemma_minus(a, min);
        exact::lemma_minus(b, min);
        exact::lemma_rounded_order(a.value() - min.value(), 1, b.value() - min.value(), 1);
        exact::lemma_value_order(da, db);
        lemma_fractions_ordered(da, db, gap);
        let fa = da.over_spec(gap);
        let fb = db.over_spec(gap);
        exact::lemma_value_order(fa, fb);
        assert(0 <= c.value()) by (nonlinear_arith)
            requires
                c.value() == (weights::units(w) - 2) * exact::h(),
                2 <= weights::units(w),
                0 < exact::h(),
        ;
        lemma_times_ordered(c, fa, fb);
        exact::lemma_value_order(fa.times_spec(c), fb.times_spec(c));
        lemma_plus_ordered(cdf::one(), fa.times_spec(c), fb.times_spec(c));
        exact::lemma_value_order(na, nb);
        lemma_fractions_ordered(na, nb, count);
    }
}

/// Between two means a greater value never has a smaller estimate.
proof fn lemma_between_ordered(
    centroids: Seq<Centroid>,
    count: Float64,
    min: Float64,
    max: Float64,
    a: Float64,
    b: Float64,
    i: int,
)
    requires
        sound(centroids, count, min, max),
        0 < i < centroids.len(),
        a.le_spec(b),
        centroids[i - 1].mean.lt_spec(a),
        b.lt_spec(centroids[i].mean),
    ensures
        ({
            let m = CdfModel::of(centroids, count);
            m.between(a, i).le_spec(m.between(b, i))
        }),
{
    let m = CdfModel::of(centroids, count);
    lemma_support(centroids, count, min, max);
    let na = lemma_numerator_between(centroids, count, min, max, a, i);
    let nb = lemma_numerator_between(centroids, count, min, max, b, i);
    let wl = m.weights[i - 1];
    let wr = m.weights[i];
    if !(weights::units(wl) == 1 && weights::units(wr) == 1) {
        let ml = m.means[i - 1];
        let gap = m.means[i].minus_spec(ml);
        let left = cdf::excluded(wl);
        let right = cdf::excluded(wr);
        let span = cdf::half().times_spec(wl.plus_spec(wr)).minus_spec(left).minus_spec(right);
        let base = m.prefix[i - 1].plus_spec(wl.over_spec(cdf::two())).plus_spec(left);
        let da = a.minus_spec(ml);
        let db = b.minus_spec(ml);
        assert(ml == centroids[i - 1].mean);
        exact::lemma_value_order(a, b);
        exact::lemma_minus(a, ml);
        exact::lemma_minus(b, ml);
        exact::lemma_rounded_order(a.value() - ml.value(), 1, b.value() - ml.value(), 1);
        exact::lemma_value_order(da, db);
        lemma_fractions_ordered(da, db, gap);
        let fa = da.over_spec(gap);
        let fb = db.over_spec(gap);
        exact::lemma_value_order(fa, fb);
        lemma_times_ordered(span, fa, fb);
        exact::lemma_value_order(span.times_spec(fa), span.times_spec(fb));
        lemma_plus_ordered(base, span.times_spec(fa), span.times_spec(fb));
        exact::lemma_value_order(na, nb);
    }
    lemma_fractions_ordered(na, nb, count);
}

/// Beyond the last mean, too, a greater value never has a smaller estimate.
pub proof fn law_right_tail_never_decreases(
    centroids: Seq<Centroid>,
    count: Float64,
    min: Float64,
    max: Float64,
    a: Float64,
    ra: Float64,
    b: Float64,
    rb: Float64,
)
    requires
        sound(centroids, count, min, max),
        edges_at_extremes(centroids, min, max),
        a.le_spec(b),
        centroids.last().mean.lt_spec(a),
        CdfModel::of(centroids, count).estimates(a, min, max, ra),
        CdfModel::of(centroids, count).estimates(b, min, max, rb),
    ensures
        ra.le_spec(rb),
{
    let m = CdfModel::of(centroids, count);
    let last = centroids.len() - 1;
    let sa = choose|slot: Slot| #[trigger]
        cdf::is_slot(m.means, a, slot) && ra == m.at_slot(a, min, max, slot);
    let sb = choose|slot: Slot| #[trigger]
        cdf::is_slot(m.means, b, slot) && rb == m.at_slot(b, min, max, slot);
    weights::lemma_constants();
    lemma_support(centroids, count, min, max);
    lemma_edges(centroids, count, min, max);
    lemma_ascending(m.means);
    assert(m.means[last] == centroids[last].mean);
    assert(m.weights[last] == centroids[last].weight);
    lemma_beyond_the_last(m.means, a, sa);
    lemma_beyond_the_last(m.means, b, sb);
    law_estimates_are_probabilities(centroids, count, min, max, a, ra);
    if max.lt_spec(b) || !m.means[last].lt_spec(max) {
        assert(rb == cdf::one());
    } else if b.eq_spec(max) {
        let q = cdf::half().over_spec(count);
        lemma_fraction(cdf::half(), count);
        if a.lt_spec(max) {
            let na = lemma_numerator_right(centroids, count, min, max, a);
            lemma_fractions_ordered(cdf::half(), na, count);
            lemma_fraction(na, count);
            lemma_complements_ordered(q, na.over_spec(count));
        } else {
            lemma_complement(q);
        }
    } else {
        let na = lemma_numerator_right(centroids, count, min, max, a);
        let nb = lemma_numerator_right(centroids, count, min, max, b);
        let w = m.weights[last];
        let c = w.over_spec(cdf::two()).minus_spec(cdf::one());
        let gap = max.minus_spec(m.means[last]);
        let da = max.minus_spec(a);
        let db = max.minus_spec(b);
        exact::lemma_value_order(a, b);
        exact::lemma_minus(max, a);
        exact::lemma_minus(max, b);
        exact::lemma_rounded_order(max.value() - b.value(), 1, max.value() - a.value(), 1);
        exact::lemma_value_order(db, da);
        lemma_fractions_ordered(db, da, gap);
        let fa = da.over_spec(gap);
        let fb = db.over_spec(gap);
        exact::lemma_value_order(fb, fa);
        assert(0 <= c.value()) by (nonlinear_arith)
            requires
                c.value() == (weights::units(w) - 2) * exact::h(),
                2 <= weights::units(w),
                0 < exact::h(),
        ;
        lemma_times_ordered(c, fb, fa);
        exact::lemma_value_order(fb.times_spec(c), fa.times_spec(c));
        lemma_plus_ordered(cdf::one(), fb.times_spec(c), fa.times_spec(c));
        exact::lemma_value_order(nb, na);
        lemma_fractions_ordered(nb, na, count);
        lemma_fraction(na, count);
        lemma_fraction(nb, count);
        lemma_complements_ordered(nb.over_spec(count), na.over_spec(count));
    }
}

proof fn lemma_beyond_the_last(means: Seq<Float64>, val: Float64, slot: Slot)
    requires
        means.len() > 0,
        cdf::strictly_ascending_numbers(means),
        means.last().lt_spec(val),
        cdf::is_slot(means, val, slot),
    ensures
        slot == Slot::Gap(means.len() as int),
{
    lemma_ascending(means);
    let last = means.len() - 1;
    match slot {
        Slot::Hit(i) => {
            assert(means[i].ordinal() <= means[last].ordinal());
        },
        Slot::Gap(i) => {
            if i <= last {
                assert(val.lt_spec(means[last]));
            }
        },
    }
}

/// Taking more from 1 leaves no more.
proof fn lemma_complements_ordered(x: Float64, y: Float64)
    requires
        x.finite(),
        y.finite(),
        x.le_spec(y),
    ensures
        cdf::one().minus_spec(y).le_spec(cdf::one().minus_spec(x)),
{
    weights::lemma_constants();
    exact::lemma_value_order(x, y);
    exact::lemma_minus(cdf::one(), x);
    exact::lemma_minus(cdf::one(), y);
    exact::lemma_rounded_order(
        cdf::one().value() - y.value(),
        1,
        cdf::one().value() - x.value(),
        1,
    );
}

/// A number between 0 and 1 is rounded by at most `2^-54`.
pub proof fn lemma_rounding_error(x: Float64, num: int, den: int)
    requires
        !x.nan(),
        x.ordinal() == exact::rounded_ordinal(num, den),
        0 < den,
        0 <= num <= Float64::unit() * den,
    ensures
        x.finite(),
        num - pow2(1020) * den <= x.value() * den <= num + pow2(1020) * den,
{
    let inf = INF_BODY as int;
    let b = rounding::round(52, inf, num, den);
    let e = pow2(1020) as int;
    weights::lemma_constants();
    exact::lemma_round_bounds(num, den);
    rounding::lemma_rounding_exists(52, inf, num, den);
    exact::lemma_rounded_at_most(num, den, cdf::one());
    assert(b <= ONE_BITS);
    exact::lemma_zero_magnitude();
    let v = rounding::magnitude(52, b);
    assert(x.value() == v);
    if b > 0 {
        lemma_spacing(b - 1);
        let below = rounding::magnitude(52, b - 1);
        assert(v * den <= num + e * den) by (nonlinear_arith)
            requires
                (below + v) * den <= 2 * num,
                v - below <= 2 * e,
                0 < den,
        ;
    } else {
        assert(v * den <= num + e * den) by (nonlinear_arith)
            requires
                v == 0,
                0 <= num,
                0 <= e,
                0 < den,
        ;
    }
    if b < ONE_BITS {
        lemma_spacing(b);
        let above = rounding::magnitude(52, b + 1);
        assert(num - e * den <= v * den) by (nonlinear_arith)
            requires
                2 * num <= (v + above) * den,
                above - v <= 2 * e,
                0 < den,
        ;
    } else {
        assert(v == Float64::unit());
        assert(num - e * den <= v * den) by (nonlinear_arith)
            requires
                num <= v * den,
                0 <= e,
                0 < den,
        ;
    }
}

/// Below 1, neighbours are at most `2^-53` apart.
proof fn lemma_spacing(b: int)
    requires
        0 <= b < ONE_BITS,
    ensures
        rounding::magnitude(52, b + 1) - rounding::magnitude(52, b) <= 2 * pow2(1020),
{
    lemma2_to64_rest();
    rounding::lemma_parts_of_body(52, b);
    let s = rounding::scale_of(52, b);
    let q = rounding::significand_of(52, b);
    assert(s <= 1021) by {
        lemma_fundamental_div_mod(b, 0x10_0000_0000_0000);
    }
    if s < 1021 {
        lemma_pow2_strictly_increases(s, 1021);
    }
    lemma_pow2_unfold(1021);
    assert((q + 1) * pow2(s) - q * pow2(s) == pow2(s)) by (nonlinear_arith);
}

/// From the last mean to the right tail an estimate falls by at most what rounding takes.
proof fn lemma_junction(
    centroids: Seq<Centroid>,
    count: Float64,
    min: Float64,
    max: Float64,
    b: Float64,
    rb: Float64,
)
    requires
        sound(centroids, count, min, max),
        edges_at_extremes(centroids, min, max),
        centroids.last().mean.lt_spec(b),
        CdfModel::of(centroids, count).estimates(b, min, max, rb),
    ensures
        ({
            let m = CdfModel::of(centroids, count);
            m.at_mean(centroids.len() - 1).value() <= rb.value() + (if play(m) == 0 {
                4
            } else {
                12int
            }) * pow2(1020)
        }),
{
    let m = CdfModel::of(centroids, count);
    let last = centroids.len() - 1;
    let w = m.weights[last];
    let k = weights::units(w);
    let t = weights::total(m.weights);
    let h = exact::h();
    let u = Float64::unit();
    let e = pow2(1020) as int;
    let c = count.value();
    let n1 = m.prefix[last].plus_spec(cdf::half().times_spec(w));
    let r1 = m.at_mean(last);
    let sb = choose|slot: Slot| #[trigger]
        cdf::is_slot(m.means, b, slot) && rb == m.at_slot(b, min, max, slot);
    weights::lemma_constants();
    lemma_pow2_pos(1020);
    lemma_pow2_unfold(1021);
    lemma_pow2_unfold(1022);
    lemma_support(centroids, count, min, max);
    lemma_edges(centroids, count, min, max);
    assert(m.means[last] == centroids[last].mean);
    assert(w == centroids[last].weight);
    lemma_beyond_the_last(m.means, b, sb);
    lemma_prefix(centroids, count, min, max, last);
    lemma_numerator_at_mean(centroids, count, min, max, last);
    lemma_fraction(n1, count);
    exact::lemma_value_order(r1, cdf::one());
    assert(c == (2 * t) * h);
    let s = play(m);
    let e_s = if s == 0 {
        0int
    } else {
        6
    };
    lemma_play(m, count, e_s);
    if rb != cdf::one() {
        assert(m.means[last].lt_spec(max));
        assert(!max.lt_spec(b));
        assert(k >= 2 || max.eq_spec(m.means[last]));
        assert(k >= 2);
        // what is taken from 1
        let nv = if b.eq_spec(max) {
            cdf::half()
        } else {
            lemma_numerator_right(centroids, count, min, max, b)
        };
        let q = nv.over_spec(count);
        assert(1 * h <= k * h && 1 * h == h) by (nonlinear_arith)
            requires
                2 <= k,
                0 < h,
        ;
        assert(0 <= nv.value() <= k * h);
        assert(k * h <= c) by (nonlinear_arith)
            requires
                c == (2 * t) * h,
                k <= t,
                0 < h,
                0 <= k,
        ;
        assert(rb == cdf::one().minus_spec(q));
        lemma_fraction(nv, count);
        exact::lemma_value_order(cdf::zero(), q);
        exact::lemma_value_order(q, cdf::one());
        assert(0 * h == 0) by (nonlinear_arith);
        // the error of each rounding
        exact::lemma_over(n1, count);
        assert(0 <= n1.value() * u <= u * c) by (nonlinear_arith)
            requires
                0 <= n1.value() <= c,
                0 < u,
        ;
        lemma_rounding_error(r1, n1.value() * u, c);
        exact::lemma_over(nv, count);
        assert(0 <= nv.value() * u <= u * c) by (nonlinear_arith)
            requires
                0 <= nv.value() <= c,
                0 < u,
        ;
        lemma_rounding_error(q, nv.value() * u, c);
        exact::lemma_minus(cdf::one(), q);
        lemma_rounding_error(rb, u - q.value(), 1);
        assert(middle(m, last) == 2 * t - k);
        let x = r1.value();
        let y = rb.value();
        let z = q.value();
        let nn = nv.value();
        assert(x * c <= (2 * t - k) * h * u + (e_s + 1) * (e * c)) by (nonlinear_arith)
            requires
                x * c <= n1.value() * u + e * c,
                n1.value() <= (2 * t - k + s) * h,
                s * h * u <= e_s * (e * c),
                0 < u,
        ;
        assert(x <= y + (e_s + 4) * e) by (nonlinear_arith)
            requires
                x * c <= (2 * t - k) * h * u + (e_s + 1) * (e * c),
                z * c <= nn * u + e * c,
                nn <= k * h,
                u - z - e * 1 <= y * 1,
                c == (2 * t) * h,
                0 < c,
                0 < u,
                0 < e,
        {
            assert(nn * u <= k * h * u) by (nonlinear_arith)
                requires
                    nn <= k * h,
                    0 < u,
            ;
            assert((u - z - e) * c <= y * c) by (nonlinear_arith)
                requires
                    u - z - e <= y,
                    0 < c,
            ;
            assert(u * c == (2 * t) * h * u) by (nonlinear_arith)
                requires
                    c == (2 * t) * h,
            ;
            assert((2 * t - k) * h * u == (2 * t) * h * u - k * h * u) by (nonlinear_arith);
            assert((u - z - e) * c == u * c - z * c - e * c) by (nonlinear_arith);
            assert((y + (e_s + 4) * e) * c == y * c + (e_s + 4) * (e * c)) by (nonlinear_arith);
            assert((e_s + 4) * (e * c) == (e_s + 1) * (e * c) + 3 * (e * c)) by (nonlinear_arith);
            assert(0 < e * c) by (nonlinear_arith)
                requires
                    0 < e,
                    0 < c,
            ;
            assert(x * c <= (y + (e_s + 4) * e) * c);
            assert(x <= y + (e_s + 4) * e) by (nonlinear_arith)
                requires
                    x * c <= (y + (e_s + 4) * e) * c,
                    0 < c,
            ;
        }
    }
}

/// What the play of a middle amounts to, as a part of the count.
pub proof fn lemma_play(m: CdfModel, count: Float64, e_s: int)
    requires
        exact::is_halves(count, 2 * weights::total(m.weights)),
        e_s == if play(m) == 0 {
            0int
        } else {
            6
        },
    ensures
        play(m) * exact::h() * Float64::unit() <= e_s * (pow2(1020) * count.value()),
{
    let h = exact::h();
    let u = Float64::unit();
    let e = pow2(1020) as int;
    let t = weights::total(m.weights);
    let c = count.value();
    weights::lemma_constants();
    lemma_pow2_pos(1020);
    if play(m) == 0 {
        assert(0 * h * u == 0 && 0 * (e * c) == 0) by (nonlinear_arith);
    } else {
        lemma2_to64_rest();
        lemma_pow2_adds(54, 1020);
        assert(u == 0x40_0000_0000_0000 * e);
        assert(3 * h * u <= 6 * (e * c)) by (nonlinear_arith)
            requires
                u == 0x40_0000_0000_0000 * e,
                c == (2 * t) * h,
                0x10_0000_0000_0000 <= t,
                0 < h,
                0 < e,
        {
            let z = e * h;
            assert(0 < z) by (nonlinear_arith)
                requires
                    z == e * h,
                    0 < e,
                    0 < h,
            ;
            assert(3 * h * u == 3 * 0x40_0000_0000_0000 * z) by (nonlinear_arith)
                requires
                    u == 0x40_0000_0000_0000 * e,
                    z == e * h,
            ;
            assert(e * c == (2 * t) * z) by (nonlinear_arith)
                requires
                    c == (2 * t) * h,
                    z == e * h,
            ;
            assert(0x20_0000_0000_0000 * z <= (2 * t) * z) by (nonlinear_arith)
                requires
                    0x10_0000_0000_0000 <= t,
                    0 < z,
            ;
        }
    }
}

/// How far an estimate may fall by rounding: `2^-52` where at most `2^52` values are
/// counted, else `2^-49`.
pub open spec fn rounding_allowance(centroids: Seq<Centroid>) -> int {
    if small(centroids) {
        pow2(1022) as int
    } else {
        pow2(1025) as int
    }
}

/// Wherever two values stand, the estimate at the greater one is below the other by at
/// most what rounding can take.
pub proof fn law_estimates_fall_by_rounding_at_most(
    centroids: Seq<Centroid>,
    count: Float64,
    min: Float64,
    max: Float64,
    a: Float64,
    ra: Float64,
    b: Float64,
    rb: Float64,
)
    requires
        sound(centroids, count, min, max),
        edges_at_extremes(centroids, min, max),
        a.le_spec(b),
        CdfModel::of(centroids, count).estimates(a, min, max, ra),
        CdfModel::of(centroids, count).estimates(b, min, max, rb),
    ensures
        ra.value() <= rb.value() + rounding_allowance(centroids),
{
    let m = CdfModel::of(centroids, count);
    let last = centroids.len() - 1;
    let mean = centroids[last].mean;
    let e = pow2(1020) as int;
    lemma_pow2_pos(1020);
    lemma_pow2_unfold(1021);
    lemma_pow2_unfold(1022);
    lemma_pow2_unfold(1023);
    lemma_pow2_unfold(1024);
    lemma_pow2_unfold(1025);
    assert(m.weights =~= weights::weights(centroids));
    law_estimates_are_probabilities(centroids, count, min, max, a, ra);
    law_estimates_are_probabilities(centroids, count, min, max, b, rb);
    weights::lemma_constants();
    if b.le_spec(mean) {
        lemma_up_to_the_last_allowance(centroids, count, min, max, a, ra, b, rb);
    } else if mean.lt_spec(a) {
        law_right_tail_never_decreases(centroids, count, min, max, a, ra, b, rb);
        exact::lemma_value_order(ra, rb);
    } else {
        lemma_support(centroids, count, min, max);
        assert(m.means[last] == mean);
        let hit = Slot::Hit(last);
        assert(cdf::is_slot(m.means, mean, hit));
        cdf::lemma_slot_is_unique(m.means, mean, hit);
        let r1 = m.at_mean(last);
        assert(r1 == m.at_slot(mean, min, max, hit));
        assert(m.estimates(mean, min, max, r1));
        lemma_up_to_the_last_allowance(centroids, count, min, max, a, ra, mean, r1);
        lemma_junction(centroids, count, min, max, b, rb);
    }
}

/// The allowance up to the last mean.
proof fn lemma_up_to_the_last_allowance(
    centroids: Seq<Centroid>,
    count: Float64,
    min: Float64,
    max: Float64,
    a: Float64,
    ra: Float64,
    b: Float64,
    rb: Float64,
)
    requires
        sound(centroids, count, min, max),
        edges_at_extremes(centroids, min, max),
        a.le_spec(b),
        b.le_spec(centroids.last().mean),
        CdfModel::of(centroids, count).estimates(a, min, max, ra),
        CdfModel::of(centroids, count).estimates(b, min, max, rb),
    ensures
        ({
            let m = CdfModel::of(centroids, count);
            ra.value() <= rb.value() + (if play(m) == 0 {
                0
            } else {
                16int
            }) * pow2(1020)
        }),
{
    let m = CdfModel::of(centroids, count);
    let e = pow2(1020) as int;
    lemma_pow2_pos(1020);
    weights::lemma_constants();
    law_estimates_are_probabilities(centroids, count, min, max, a, ra);
    law_estimates_are_probabilities(centroids, count, min, max, b, rb);
    let found = lemma_up_to_the_last(centroids, count, min, max, a, ra, b, rb);
    if found is None {
        exact::lemma_value_order(ra, rb);
    } else {
        let (x, y) = found->0;
        if play(m) == 0 {
            assert(0 * exact::h() == 0) by (nonlinear_arith);
            lemma_fractions_ordered(x, y, count);
            exact::lemma_value_order(ra, rb);
        } else {
            let c = count.value();
            let u = Float64::unit();
            let h = exact::h();
            lemma_play(m, count, 6);
            lemma_quotient_error(x, count);
            lemma_quotient_error(y, count);
            let (rx, ry, vx, vy) = (ra.value(), rb.value(), x.value(), y.value());
            assert(rx <= ry + 16 * e) by (nonlinear_arith)
                requires
                    rx * c <= vx * u + e * c,
                    vy * u - e * c <= ry * c,
                    vx <= vy + 6 * h,
                    3 * h * u <= 6 * (e * c),
                    0 < c,
                    0 < u,
                    0 < e,
            {
                assert(vx * u <= vy * u + 6 * h * u) by (nonlinear_arith)
                    requires
                        vx <= vy + 6 * h,
                        0 < u,
                ;
                assert(6 * h * u == 2 * (3 * h * u)) by (nonlinear_arith);
                assert(0 < e * c) by (nonlinear_arith)
                    requires
                        0 < e,
                        0 < c,
                ;
                assert(rx * c <= ry * c + 16 * (e * c));
                assert((ry + 16 * e) * c == ry * c + 16 * (e * c)) by (nonlinear_arith);
                assert(rx <= ry + 16 * e) by (nonlinear_arith)
                    requires
                        rx * c <= (ry + 16 * e) * c,
                        0 < c,
                ;
            }
        }
    }
}

/// A part divided by the count is rounded by at most `2^-54`.
pub proof fn lemma_quotient_error(x: Float64, count: Float64)
    requires
        x.finite(),
        count.finite(),
        0 < count.value(),
        0 <= x.value() <= count.value(),
    ensures
        ({
            let r = x.over_spec(count).value() * count.value();
            let v = x.value() * Float64::unit();
            v - pow2(1020) * count.value() <= r <= v + pow2(1020) * count.value()
        }),
        x.over_spec(count).finite(),
{
    let u = Float64::unit();
    let c = count.value();
    weights::lemma_constants();
    exact::lemma_over(x, count);
    assert(0 <= x.value() * u <= u * c) by (nonlinear_arith)
        requires
            0 <= x.value() <= c,
            0 < u,
    ;
    lemma_rounding_error(x.over_spec(count), x.value() * u, c);
}

} // verus!
