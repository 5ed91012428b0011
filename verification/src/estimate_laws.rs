//! What an estimate of the distribution function is, in exact numbers.
use vstd::arithmetic::power2::*;
use vstd::prelude::*;

use crate::cdf;
use crate::cdf::{CdfLight, CdfModel, Slot};
use crate::cdf_laws;
use crate::centroid::Centroid;
use crate::digest::DigestView;
use crate::exact;
use crate::float::Float64;
use crate::rounding;
use crate::scaling_laws;
use crate::sum_laws;
use crate::symmetry_laws;
use crate::weights;

verus! {

/// Between a number and a greater one there is a positive distance.
proof fn lemma_distance_is_positive(a: Float64, b: Float64)
    requires
        a.lt_spec(b),
    ensures
        cdf::zero().lt_spec(b.minus_spec(a)),
{
    let d = b.minus_spec(a);
    exact::lemma_of(false, 0);
    exact::lemma_negated(a);
    weights::lemma_constants();
    if a.finite() && b.finite() {
        exact::lemma_value_order(a, b);
        exact::lemma_minus(b, a);
        let tiny = Float64::of(false, 1);
        exact::lemma_of(false, 1);
        lemma2_to64();
        lemma_pow2_pos(52);
        rounding::lemma_magnitude_of_parts(52, 0, 1);
        exact::lemma_rounded_at_least(b.value() - a.value(), 1, tiny);
    }
}

/// There is no positive distance to a number that is not greater.
proof fn lemma_no_distance(a: Float64, b: Float64)
    requires
        !a.lt_spec(b),
        !b.nan(),
    ensures
        !cdf::zero().lt_spec(b.minus_spec(a)),
{
    let d = b.minus_spec(a);
    exact::lemma_of(false, 0);
    exact::lemma_negated(a);
    weights::lemma_constants();
    assert(0 * exact::h() == 0) by (nonlinear_arith);
    if a.finite() && b.finite() {
        exact::lemma_value_order(a, b);
        exact::lemma_minus(b, a);
        exact::lemma_rounded_at_most(b.value() - a.value(), 1, cdf::zero());
    }
}

/// Where a value stands between means, or beyond them, that place decides.
proof fn lemma_at_slot(
    centroids: Seq<Centroid>,
    count: Float64,
    min: Float64,
    max: Float64,
    val: Float64,
    r: Float64,
    i: int,
)
    requires
        cdf::ascending_numbers(CdfModel::of(centroids, count).means),
        CdfModel::of(centroids, count).estimates(val, min, max, r),
        cdf::is_slot(CdfModel::of(centroids, count).means, val, Slot::Gap(i)),
    ensures
        r == CdfModel::of(centroids, count).at_slot(val, min, max, Slot::Gap(i)),
{
    let m = CdfModel::of(centroids, count);
    let slot = choose|slot: Slot| #[trigger]
        cdf::is_slot(m.means, val, slot) && r == m.at_slot(val, min, max, slot);
    match slot {
        Slot::Hit(j) => {
            assert(m.means[j].lt_spec(val) || val.lt_spec(m.means[j]));
        },
        Slot::Gap(j) => {
            if j < i {
                assert(val.lt_spec(m.means[j]) && m.means[j].lt_spec(val));
            } else if i < j {
                assert(val.lt_spec(m.means[i]) && m.means[i].lt_spec(val));
            }
        },
    }
}

/// A value below all means stands before them.
proof fn lemma_before_all(means: Seq<Float64>, val: Float64)
    requires
        cdf::ascending_numbers(means),
        means.len() > 0,
        val.lt_spec(means[0]),
    ensures
        cdf::is_slot(means, val, Slot::Gap(0)),
{
    assert forall|j: int| 0 <= j < means.len() implies val.lt_spec(#[trigger] means[j]) by {
        if j > 0 {
            assert(means[0].ordinal() <= means[j].ordinal());
        }
    }
}

/// A value above all means stands behind them.
proof fn lemma_behind_all(means: Seq<Float64>, val: Float64)
    requires
        cdf::ascending_numbers(means),
        means.len() > 0,
        means.last().lt_spec(val),
    ensures
        cdf::is_slot(means, val, Slot::Gap(means.len() as int)),
{
    let n = means.len() - 1;
    assert forall|j: int| 0 <= j < means.len() implies (#[trigger] means[j]).lt_spec(val) by {
        if j < n {
            assert(means[j].ordinal() <= means[n].ordinal());
        }
    }
}

/// A digest without centroids estimates NaN, and one with centroids answers each value with
/// an estimate.
pub proof fn law_answers_are_estimates(d: DigestView, vals: Seq<Float64>, i: int)
    requires
        0 <= i < vals.len(),
    ensures
        cdf::answers(d, vals).len() == vals.len(),
        d.centroids.len() == 0 ==> cdf::answers(d, vals)[i].nan(),
        d.centroids.len() > 0 && !vals[i].nan() && cdf::no_nan(
            CdfModel::of(d.centroids, d.count).means,
        ) ==> CdfModel::of(d.centroids, d.count).estimates(
            vals[i],
            d.min,
            d.max,
            cdf::answers(d, vals)[i],
        ),
{
    let m = CdfModel::of(d.centroids, d.count);
    if d.centroids.len() > 0 && !vals[i].nan() && cdf::no_nan(m.means) {
        let n = m.means.len() as int;
        let slot = cdf::place(m.means, vals[i], 0, n);
        cdf::lemma_place_is_slot(m.means, vals[i], 0, n);
        assert(cdf::is_slot(m.means, vals[i], slot));
        if cdf::strictly_ascending_numbers(m.means) {
            cdf::lemma_slot_is_unique(m.means, vals[i], slot);
        }
    }
}

/// The arrays of a digest hold its means and weights in their order, and before each centroid
/// what all before it weigh, added up from the left.
pub proof fn law_arrays_hold_the_digest(centroids: Seq<Centroid>, count: Float64, i: int)
    requires
        0 <= i < centroids.len(),
    ensures
        ({
            let m = CdfModel::of(centroids, count);
            &&& m.count == count
            &&& m.means.len() == centroids.len()
            &&& m.weights.len() == centroids.len()
            &&& m.prefix.len() == centroids.len()
            &&& m.means[i] == centroids[i].mean
            &&& m.weights[i] == centroids[i].weight
            &&& i == 0 ==> m.prefix[i] == Float64::zero_spec(false)
            &&& i > 0 ==> m.prefix[i] == m.prefix[i - 1].plus_spec(centroids[i - 1].weight)
        }),
{
    let m = CdfModel::of(centroids, count);
    let ws = m.weights;
    if i == 0 {
        assert(ws.take(0) =~= Seq::<Float64>::empty());
    } else {
        assert(ws.take(i).drop_last() =~= ws.take(i - 1));
        assert(ws.take(i).last() == ws[i - 1]);
    }
}

/// At the least value, where it lies below the first mean, the estimate is one half over the
/// count; at the greatest, where it lies above the last mean, it is one less one half over
/// the count.
pub proof fn law_estimates_at_the_extremes(
    centroids: Seq<Centroid>,
    count: Float64,
    min: Float64,
    max: Float64,
    val: Float64,
    r: Float64,
)
    requires
        centroids.len() > 0,
        cdf::ascending_numbers(CdfModel::of(centroids, count).means),
        CdfModel::of(centroids, count).estimates(val, min, max, r),
    ensures
        val.eq_spec(min) && min.lt_spec(centroids[0].mean) ==> r == cdf::half().over_spec(count),
        val.eq_spec(max) && centroids.last().mean.lt_spec(max) ==> r == cdf::one().minus_spec(
            cdf::half().over_spec(count),
        ),
{
    let m = CdfModel::of(centroids, count);
    assert(m.means[0] == centroids[0].mean);
    assert(m.means.last() == centroids.last().mean);
    if val.eq_spec(min) && min.lt_spec(centroids[0].mean) {
        lemma_before_all(m.means, val);
        lemma_at_slot(centroids, count, min, max, val, r, 0);
        lemma_distance_is_positive(min, centroids[0].mean);
    }
    if val.eq_spec(max) && centroids.last().mean.lt_spec(max) {
        lemma_behind_all(m.means, val);
        lemma_at_slot(centroids, count, min, max, val, r, m.means.len() as int);
        lemma_distance_is_positive(centroids.last().mean, max);
    }
}

/// Before the least value, and before a first mean that is the least value, the estimate is
/// 0; behind the greatest, and behind a last mean that is the greatest value, it is 1.
pub proof fn law_estimates_beyond_the_extremes(
    centroids: Seq<Centroid>,
    count: Float64,
    min: Float64,
    max: Float64,
    val: Float64,
    r: Float64,
)
    requires
        centroids.len() > 0,
        cdf::ascending_numbers(CdfModel::of(centroids, count).means),
        CdfModel::of(centroids, count).estimates(val, min, max, r),
    ensures
        val.lt_spec(centroids[0].mean) && (val.lt_spec(min) || !min.lt_spec(centroids[0].mean))
            ==> r == Float64::zero_spec(false),
        centroids.last().mean.lt_spec(val) && (max.lt_spec(val) || !centroids.last().mean.lt_spec(
            max,
        )) ==> r == cdf::one(),
{
    let m = CdfModel::of(centroids, count);
    assert(m.means[0] == centroids[0].mean);
    assert(m.means.last() == centroids.last().mean);
    assert(!m.means[0].nan());
    if val.lt_spec(centroids[0].mean) && (val.lt_spec(min) || !min.lt_spec(centroids[0].mean)) {
        lemma_before_all(m.means, val);
        lemma_at_slot(centroids, count, min, max, val, r, 0);
        if !min.lt_spec(centroids[0].mean) {
            lemma_no_distance(min, centroids[0].mean);
        }
    }
    let last = centroids.last().mean;
    if last.lt_spec(val) && (max.lt_spec(val) || !last.lt_spec(max)) {
        lemma_behind_all(m.means, val);
        lemma_at_slot(centroids, count, min, max, val, r, m.means.len() as int);
        if !last.lt_spec(max) {
            if !max.nan() {
                lemma_no_distance(last, max);
            }
        }
    }
}

/// At the mean of a centroid of a sound digest the estimate is the number of values before it
/// and half of its own, over the count, but for rounding; where at most `2^52` values are
/// counted, it is that fraction, rounded once.
pub proof fn law_estimates_at_a_mean(
    centroids: Seq<Centroid>,
    count: Float64,
    min: Float64,
    max: Float64,
    i: int,
    val: Float64,
    r: Float64,
)
    requires
        cdf_laws::sound(centroids, count, min, max),
        0 <= i < centroids.len(),
        val.eq_spec(centroids[i].mean),
        CdfModel::of(centroids, count).estimates(val, min, max, r),
    ensures
        ({
            let ws = weights::weights(centroids);
            let halves = 2 * weights::total(ws.take(i)) + weights::units(ws[i]);
            let ideal = halves * exact::h() * Float64::unit();
            let part = 32 * (pow2(1020) * count.value());
            &&& r.finite()
            &&& -part <= r.value() * count.value() - ideal <= part
            &&& cdf_laws::small(centroids) ==> r.ordinal() == exact::rounded_ordinal(
                ideal,
                count.value(),
            )
        }),
{
    let m = CdfModel::of(centroids, count);
    assert(m.weights =~= weights::weights(centroids));
    assert(m.means[i] == centroids[i].mean);
    cdf::lemma_slot_is_unique(m.means, val, Slot::Hit(i));
    symmetry_laws::lemma_near_at_mean(centroids, count, min, max, i);
    if cdf_laws::small(centroids) {
        let n = m.prefix[i].plus_spec(cdf::half().times_spec(m.weights[i]));
        cdf_laws::lemma_support(centroids, count, min, max);
        cdf_laws::lemma_numerator_at_mean(centroids, count, min, max, i);
        exact::lemma_over(n, count);
        assert(n.value() == cdf_laws::middle(m, i) * exact::h());
    }
}

/// The way from `a` to `val`, as a part of the way from `a` to `b`, is rounded by a few
/// parts in `2^54`.
proof fn lemma_way_is_near(a: Float64, b: Float64, val: Float64)
    requires
        a.finite(),
        b.finite(),
        val.finite(),
        b.minus_spec(a).finite(),
        a.value() < val.value() < b.value(),
    ensures
        ({
            let f = val.minus_spec(a).over_spec(b.minus_spec(a));
            let d = b.value() - a.value();
            let part = 6 * (symmetry_laws::eps() * d);
            &&& f.finite()
            &&& 0 <= f.value() <= Float64::unit()
            &&& -part <= f.value() * d - (val.value() - a.value()) * Float64::unit() <= part
        }),
{
    exact::lemma_minus(val, a);
    exact::lemma_minus(b, a);
    lemma_part_is_near(
        val.value() - a.value(),
        b.value() - a.value(),
        val.minus_spec(a),
        b.minus_spec(a),
    );
}

/// A rounded distance over another one.
proof fn lemma_part_is_near(y: int, d: int, near: Float64, far: Float64)
    requires
        0 < y < d,
        !near.nan(),
        !far.nan(),
        near.ordinal() == exact::rounded_ordinal(y, 1),
        far.ordinal() == exact::rounded_ordinal(d, 1),
        far.finite(),
    ensures
        ({
            let f = near.over_spec(far);
            let part = 6 * (symmetry_laws::eps() * d);
            &&& f.finite()
            &&& 0 <= f.value() <= Float64::unit()
            &&& -part <= f.value() * d - y * Float64::unit() <= part
        }),
{
    let u = Float64::unit();
    let e = symmetry_laws::eps();
    let f = near.over_spec(far).value();
    symmetry_laws::lemma_eps();
    cdf_laws::lemma_part_of_gap(y, d, near, far);
    exact::lemma_relative_error(near, y, 1);
    exact::lemma_relative_error(far, d, 1);
    cdf_laws::lemma_quotient_error(near, far);
    let (nv, g) = (near.value(), far.value());
    let k = 0x20_0000_0000_0000int;
    let ed = e * d;
    // the quotient
    let off1 = f * g - nv * u;
    let off2 = f * (d - g);
    let off3 = (nv - y) * u;
    assert(g <= 2 * d);
    assert(-(2 * ed) <= off1 <= 2 * ed) by (nonlinear_arith)
        requires
            -(e * g) <= off1 <= e * g,
            0 < g <= 2 * d,
            0 < e,
            ed == e * d,
    ;
    assert(-(2 * ed) <= off2 <= 2 * ed) by {
        let z = (d - g) * k;
        assert(-d <= z <= d);
        assert(off2 * k == f * z) by (nonlinear_arith)
            requires
                off2 == f * (d - g),
                z == (d - g) * k,
        ;
        assert(-(u * d) <= f * z <= u * d) by (nonlinear_arith)
            requires
                -d <= z <= d,
                0 <= f <= u,
                0 < d,
        ;
        assert(u * d == 2 * k * ed) by (nonlinear_arith)
            requires
                u == 0x40_0000_0000_0000 * e,
                ed == e * d,
                k == 0x20_0000_0000_0000,
        ;
    }
    assert(-(2 * ed) <= off3 <= 2 * ed) by {
        let z = (nv - y) * k;
        assert(off3 * k == z * u) by (nonlinear_arith)
            requires
                off3 == (nv - y) * u,
                z == (nv - y) * k,
        ;
        assert(-(d * u) <= z * u <= d * u) by (nonlinear_arith)
            requires
                -d <= z <= d,
                0 < u,
        ;
        assert(d * u == 2 * k * ed) by (nonlinear_arith)
            requires
                u == 0x40_0000_0000_0000 * e,
                ed == e * d,
                k == 0x20_0000_0000_0000,
        ;
    }
    assert(f * d - y * u == off1 + off2 + off3) by (nonlinear_arith)
        requires
            off1 == f * g - nv * u,
            off2 == f * (d - g),
            off3 == (nv - y) * u,
    ;
}

/// Between two means of a sound digest the estimate is interpolated from the middle of the
/// one centroid to the middle of the other, in the proportion of the distances, but for
/// rounding. A centroid that stands for a single value does not give its half to the span:
/// at it the interpolation begins or ends at the full value.
pub proof fn law_estimates_between_means(
    centroids: Seq<Centroid>,
    count: Float64,
    min: Float64,
    max: Float64,
    i: int,
    val: Float64,
    r: Float64,
)
    requires
        cdf_laws::sound(centroids, count, min, max),
        0 < i < centroids.len(),
        centroids[i - 1].mean.lt_spec(val),
        val.lt_spec(centroids[i].mean),
        CdfModel::of(centroids, count).estimates(val, min, max, r),
    ensures
        ({
            let ws = weights::weights(centroids);
            let (kl, kr) = (weights::units(ws[i - 1]), weights::units(ws[i]));
            let el = if kl == 1 {
                1int
            } else {
                0
            };
            let er = if kr == 1 {
                1int
            } else {
                0
            };
            let begin = 2 * weights::total(ws.take(i - 1)) + kl + el;
            let far = centroids[i].mean.value() - centroids[i - 1].mean.value();
            let near = val.value() - centroids[i - 1].mean.value();
            let ideal = (begin * far + (kl + kr - el - er) * near) * (exact::h()
                * Float64::unit());
            let part = 40 * (pow2(1020) * count.value() * far);
            &&& r.finite()
            &&& -part <= r.value() * count.value() * far - ideal <= part
        }),
{
    let m = CdfModel::of(centroids, count);
    let ws = weights::weights(centroids);
    assert(m.weights =~= ws);
    let (a, b) = (centroids[i - 1].mean, centroids[i].mean);
    assert(m.means[i - 1] == a && m.means[i] == b);
    let u = Float64::unit();
    let h = exact::h();
    let c = count.value();
    let e = symmetry_laws::eps();
    cdf_laws::lemma_support(centroids, count, min, max);
    cdf_laws::lemma_prefix(centroids, count, min, max, i - 1);
    cdf_laws::lemma_ascending(m.means);
    lemma_gap_slot(m.means, val, i);
    lemma_at_slot(centroids, count, min, max, val, r, i);
    symmetry_laws::lemma_near_between(centroids, count, min, max, val, i);
    assert(val.finite());
    exact::lemma_value_order(a, val);
    exact::lemma_value_order(val, b);
    cdf_laws::lemma_distance(a, b, min, max);
    lemma_way_is_near(a, b, val);
    symmetry_laws::lemma_eps();
    let f = symmetry_laws::way(m, val, i).value();
    let begin = symmetry_laws::start(m, i);
    let span = symmetry_laws::span(m, i);
    let far = b.value() - a.value();
    let near = val.value() - a.value();
    let rc = r.value() * c;
    let sh = span * h;
    let off1 = rc - (begin * h * u + sh * f);
    let off2 = f * far - near * u;
    let ecd = e * c * far;
    assert(-(32 * ecd) <= off1 * far <= 32 * ecd) by (nonlinear_arith)
        requires
            -(32 * (e * c)) <= off1 <= 32 * (e * c),
            ecd == e * c * far,
            0 < far,
    ;
    assert(-(6 * ecd) <= sh * off2 <= 6 * ecd) by {
        let ed = e * far;
        assert(-(6 * (sh * ed)) <= sh * off2 <= 6 * (sh * ed)) by (nonlinear_arith)
            requires
                -(6 * ed) <= off2 <= 6 * ed,
                0 <= sh,
        ;
        assert(0 < ed) by (nonlinear_arith)
            requires
                ed == e * far,
                0 < e,
                0 < far,
        ;
        assert(sh * ed <= ecd) by (nonlinear_arith)
            requires
                sh <= c,
                ed == e * far,
                ecd == e * c * far,
                0 < ed,
        ;
    }
    assert(0 < ecd) by (nonlinear_arith)
        requires
            ecd == e * c * far,
            0 < e,
            0 < c,
            0 < far,
    ;
    let ideal = (begin * far + span * near) * (h * u);
    assert(rc * far - ideal == off1 * far + sh * off2) by (nonlinear_arith)
        requires
            off1 == rc - (begin * h * u + sh * f),
            off2 == f * far - near * u,
            sh == span * h,
            ideal == (begin * far + span * near) * (h * u),
    {
        assert(off1 * far == rc * far - begin * h * u * far - sh * f * far) by (nonlinear_arith)
            requires
                off1 == rc - (begin * h * u + sh * f),
        ;
        assert(sh * off2 == sh * f * far - sh * near * u) by (nonlinear_arith)
            requires
                off2 == f * far - near * u,
        ;
        assert((begin * far) * (h * u) == begin * h * u * far) by (nonlinear_arith);
        assert((span * near) * (h * u) == span * h * near * u) by (nonlinear_arith);
        assert((begin * far + span * near) * (h * u) == (begin * far) * (h * u) + (span * near) * (h
            * u)) by (nonlinear_arith);
    }
}

/// A value between two neighbouring means stands between them.
proof fn lemma_gap_slot(means: Seq<Float64>, val: Float64, i: int)
    requires
        cdf::ascending_numbers(means),
        0 < i < means.len(),
        means[i - 1].lt_spec(val),
        val.lt_spec(means[i]),
    ensures
        cdf::is_slot(means, val, Slot::Gap(i)),
{
    assert forall|j: int| 0 <= j < i implies (#[trigger] means[j]).lt_spec(val) by {
        if j < i - 1 {
            assert(means[j].ordinal() <= means[i - 1].ordinal());
        }
    }
    assert forall|j: int| i <= j < means.len() implies val.lt_spec(#[trigger] means[j]) by {
        if j > i {
            assert(means[i].ordinal() <= means[j].ordinal());
        }
    }
}

/// Weights that neither underflow nor overflow, and a count of the size of their sum.
pub open spec fn countable(centroids: Seq<Centroid>, count: Float64) -> bool {
    let ws = weights::weights(centroids);
    &&& scaling_laws::moderate(ws)
    &&& count.finite()
    &&& scaling_laws::mass(ws) <= 4 * count.value()
    &&& count.value() <= 2 * scaling_laws::mass(ws)
}

/// A numerator of a countable digest, divided by the count.
proof fn lemma_countable(
    centroids: Seq<Centroid>,
    count: Float64,
    n: Float64,
    w: int,
    j: int,
    ideal: int,
    k: int,
)
    requires
        countable(centroids, count),
        n.finite(),
        0 <= n.value() <= 3 * scaling_laws::mass(weights::weights(centroids)),
        0 < scaling_laws::mass(weights::weights(centroids)),
        w <= j <= 4 * n.value(),
        0x100_0000_0000_0000 * scaling_laws::mass(weights::weights(centroids)) <= w
            * Float64::unit(),
        scaling_laws::within(n.value() * Float64::unit(), 2, ideal, k),
        0 <= ideal,
        0 <= k <= 0x10_0000_0000_0000,
    ensures
        n.over_spec(count).finite(),
        0 <= n.over_spec(count).value(),
        scaling_laws::within(n.over_spec(count).value() * count.value(), 2, ideal, k + 1),
{
    let all = scaling_laws::mass(weights::weights(centroids));
    lemma_pow2_pos(1074);
    scaling_laws::lemma_not_too_small(n.value(), j, w, Float64::unit(), all);
    scaling_laws::lemma_divided(n, count, ideal, k);
}

/// At a mean the estimate is the weight before the centroid and half of its own, over the
/// count, but for rounding, whatever the weights. Where several means are equal, it is that
/// of one of them.
pub proof fn law_estimates_weigh_at_a_mean(
    centroids: Seq<Centroid>,
    count: Float64,
    min: Float64,
    max: Float64,
    j: int,
    val: Float64,
    r: Float64,
)
    requires
        countable(centroids, count),
        cdf::ascending_numbers(CdfModel::of(centroids, count).means),
        0 <= j < centroids.len(),
        val.eq_spec(centroids[j].mean),
        CdfModel::of(centroids, count).estimates(val, min, max, r),
    ensures
        exists|i: int|
            0 <= i < centroids.len() && (#[trigger] centroids[i]).mean.eq_spec(val) && r.finite()
                && scaling_laws::within(
                r.value() * count.value(),
                2,
                (2 * scaling_laws::mass(weights::weights(centroids).take(i))
                    + centroids[i].weight.value()) * Float64::unit(),
                centroids.len() as int + 3,
            ),
{
    let m = CdfModel::of(centroids, count);
    let ws = weights::weights(centroids);
    let u = Float64::unit();
    assert(m.weights =~= ws);
    let slot = choose|slot: Slot| #[trigger]
        cdf::is_slot(m.means, val, slot) && r == m.at_slot(val, min, max, slot);
    assert(m.means[j] == centroids[j].mean);
    lemma_pow2_pos(1074);
    match slot {
        Slot::Hit(i) => {
            let half_w = cdf::half().times_spec(ws[i]);
            let n = m.prefix[i].plus_spec(half_w);
            let t = scaling_laws::mass(ws.take(i));
            let ideal = 2 * t + ws[i].value();
            scaling_laws::lemma_powers();
            scaling_laws::lemma_weights(ws, i);
            scaling_laws::lemma_half_way_in(ws, i, half_w);
            scaling_laws::lemma_rescale(n.value(), 2, ideal, i + 2, u);
            assert(0 <= ideal * u) by (nonlinear_arith)
                requires
                    0 <= ideal,
                    0 < u,
            ;
            lemma_countable(
                centroids,
                count,
                n,
                ws[i].value(),
                ideal,
                ideal * u,
                i + 2,
            );
            scaling_laws::lemma_looser(
                r.value() * count.value(),
                2,
                ideal * u,
                i + 3,
                centroids.len() as int + 3,
            );
            assert(m.means[i] == centroids[i].mean);
        },
        Slot::Gap(i) => {
            assert(m.means[j].lt_spec(val) || val.lt_spec(m.means[j]));
        },
    }
}

/// A number less 0 or one half.
proof fn lemma_less(x: Float64, c: Float64, s: int)
    requires
        x.finite(),
        c == cdf::zero() || c == cdf::half(),
        c.value() <= x.value() <= s,
    ensures
        ({
            let z = x.minus_spec(c);
            &&& z.finite()
            &&& 0 <= z.value() <= x.value()
            &&& c == cdf::zero() ==> z.value() == x.value()
            &&& -s <= (z.value() - (x.value() - c.value())) * 0x20_0000_0000_0000 <= s
        }),
{
    let z = x.minus_spec(c);
    let v = x.value() - c.value();
    weights::lemma_constants();
    assert(0 * exact::h() == 0) by (nonlinear_arith);
    exact::lemma_minus(x, c);
    exact::lemma_rounded_at_most(v, 1, x);
    exact::lemma_rounded_at_least(v, 1, cdf::zero());
    exact::lemma_value_order(z, x);
    exact::lemma_value_order(cdf::zero(), z);
    exact::lemma_relative_error(z, v, 1);
    if c == cdf::zero() {
        exact::lemma_rounded_exact(x, 1);
        assert(x.value() * 1 == x.value());
    }
}

/// What is taken out of the span, where one of the weights is 1: `e` is 1 there, else 0.
spec fn taken_out(w: Float64, e: int) -> bool {
    e == if w.eq_spec(cdf::one()) {
        1int
    } else {
        0
    }
}

/// The span of an interpolation, whatever the weights.
proof fn lemma_any_span(wl: Float64, wr: Float64, el: int, er: int)
    requires
        wl.finite(),
        wr.finite(),
        pow2(54) <= wl.value(),
        pow2(54) <= wr.value(),
        wl.value() + wr.value() <= pow2(2093),
        taken_out(wl, el),
        taken_out(wr, er),
        el + er <= 1,
    ensures
        ({
            let x = cdf::half().times_spec(wl.plus_spec(wr)).minus_spec(
                cdf::excluded(wl),
            ).minus_spec(cdf::excluded(wr));
            let s = wl.value() + wr.value();
            let ideal = s - (el + er) * Float64::unit();
            &&& x.finite()
            &&& 0 <= x.value() <= s
            &&& 0 <= ideal <= s
            &&& -(6 * s) <= (2 * x.value() - ideal) * 0x10_0000_0000_0000 <= 6 * s
        }),
{
    let u = Float64::unit();
    let h = exact::h();
    let z = wl.plus_spec(wr);
    let s = wl.value() + wr.value();
    let dw = cdf::half().times_spec(z);
    let (cl, cr) = (cdf::excluded(wl), cdf::excluded(wr));
    weights::lemma_constants();
    scaling_laws::lemma_powers();
    assert(0 * h == 0 && 0 * wl.value() == 0 && 0 * wr.value() == 0) by (nonlinear_arith);
    scaling_laws::lemma_rounded_sum(wl, wr, 1, wl.value(), wr.value(), 0);
    scaling_laws::lemma_at_most_twice(z.value(), 1, s, 1);
    scaling_laws::lemma_half_of(z);
    let dv = dw.value();
    assert(scaling_laws::within(dv, 2, s, 3));
    scaling_laws::lemma_at_most_twice(dv, 2, s, 3);
    exact::lemma_value_order(wl, cdf::one());
    exact::lemma_value_order(wr, cdf::one());
    assert(cl.value() == el * h && cr.value() == er * h) by (nonlinear_arith)
        requires
            cl.value() == if el == 1 {
                1 * h
            } else {
                0
            },
            cr.value() == if er == 1 {
                1 * h
            } else {
                0
            },
            el == 0 || el == 1,
            er == 0 || er == 1,
    ;
    if el + er == 1 {
        // one weight is 1, so half of the sum is at least one half
        assert(u <= s);
        exact::lemma_plus(wl, wr);
        exact::lemma_rounded_at_least(s, 1, cdf::one());
        exact::lemma_value_order(cdf::one(), z);
        exact::lemma_times(cdf::half(), z);
        let num = cdf::half().value() * z.value();
        assert(cdf::half().value() * u <= num) by (nonlinear_arith)
            requires
                num == cdf::half().value() * z.value(),
                u <= z.value(),
                0 <= cdf::half().value(),
        ;
        exact::lemma_rounded_at_least(num, u, cdf::half());
        exact::lemma_value_order(cdf::half(), dw);
    }
    let x1 = dw.minus_spec(cl);
    lemma_less(dw, cl, s);
    let x2 = x1.minus_spec(cr);
    if er == 1 {
        assert(el == 0);
        assert(cl == cdf::zero());
    }
    lemma_less(x1, cr, s);
    assert((el + er) * u == 2 * (el * h) + 2 * (er * h)) by (nonlinear_arith)
        requires
            u == 2 * h,
    ;
    assert(0 <= (el + er) * u <= s) by {
        if el + er == 0 {
            assert(0 * u == 0) by (nonlinear_arith);
        } else {
            assert(1 * u == u) by (nonlinear_arith);
        }
    }
}

/// Between two means the estimate is interpolated from the middle of the one centroid to the
/// middle of the other, in the proportion of the distances, over the count, but for
/// rounding, whatever the weights. A centroid of weight 1 does not give its half to the
/// span.
pub proof fn law_estimates_weigh_between_means(
    centroids: Seq<Centroid>,
    count: Float64,
    min: Float64,
    max: Float64,
    i: int,
    val: Float64,
    r: Float64,
)
    requires
        countable(centroids, count),
        cdf::ascending_numbers(CdfModel::of(centroids, count).means),
        0 < i < centroids.len(),
        centroids[i - 1].mean.lt_spec(val),
        val.lt_spec(centroids[i].mean),
        centroids[i].mean.minus_spec(centroids[i - 1].mean).finite(),
        CdfModel::of(centroids, count).estimates(val, min, max, r),
    ensures
        ({
            let ws = weights::weights(centroids);
            let u = Float64::unit();
            let (wl, wr) = (ws[i - 1].value(), ws[i].value());
            let el = if wl == u {
                u
            } else {
                0
            };
            let er = if wr == u {
                u
            } else {
                0
            };
            let begin = 2 * scaling_laws::mass(ws.take(i - 1)) + wl + el;
            let far = centroids[i].mean.value() - centroids[i - 1].mean.value();
            let near = val.value() - centroids[i - 1].mean.value();
            let ideal = (begin * far + (wl + wr - el - er) * near) * u;
            let part = (centroids.len() + 30) * (2 * scaling_laws::mass(ws) * u * far);
            &&& r.finite()
            &&& -part <= (r.value() * count.value() * (2 * far) - ideal) * 0x10_0000_0000_0000
                <= part
        }),
{
    let m = CdfModel::of(centroids, count);
    let ws = weights::weights(centroids);
    let u = Float64::unit();
    let h = exact::h();
    let e = symmetry_laws::eps();
    let c = count.value();
    let p = 0x10_0000_0000_0000int;
    assert(m.weights =~= ws);
    let (a, b) = (centroids[i - 1].mean, centroids[i].mean);
    assert(m.means[i - 1] == a && m.means[i] == b);
    lemma_gap_slot(m.means, val, i);
    lemma_at_slot(centroids, count, min, max, val, r, i);
    exact::lemma_negated(a);
    assert(a.finite() && b.finite()) by {
        if !a.finite() || !b.finite() {
            assert(!b.minus_spec(a).finite());
        }
    }
    assert(val.finite());
    exact::lemma_value_order(a, val);
    exact::lemma_value_order(val, b);
    lemma_way_is_near(a, b, val);
    lemma_distance_is_positive(a, b);
    weights::lemma_constants();
    assert(0 * h == 0) by (nonlinear_arith);
    exact::lemma_value_order(cdf::zero(), b.minus_spec(a));
    let gap = b.minus_spec(a);
    assert(!gap.le_spec(cdf::zero()));
    scaling_laws::lemma_weights(ws, i - 1);
    scaling_laws::lemma_weights(ws, i);
    scaling_laws::lemma_powers();
    symmetry_laws::lemma_eps();
    let (wl, wr) = (ws[i - 1], ws[i]);
    exact::lemma_value_order(wl, cdf::one());
    exact::lemma_value_order(wr, cdf::one());
    let (el, er) = (
        if wl.eq_spec(cdf::one()) {
            1int
        } else {
            0
        },
        if wr.eq_spec(cdf::one()) {
            1int
        } else {
            0
        },
    );
    let frac = val.minus_spec(a).over_spec(gap);
    let f = frac.value();
    let t = scaling_laws::mass(ws.take(i - 1));
    let all = scaling_laws::mass(ws);
    let s = wl.value() + wr.value();
    let j = 2 * t + wl.value();
    let begin = j + el * u;
    let span_ideal = s - (el + er) * u;
    let far = b.value() - a.value();
    let near = val.value() - a.value();
    assert(el * u == if wl.value() == u {
        u
    } else {
        0
    } && er * u == if wr.value() == u {
        u
    } else {
        0
    }) by (nonlinear_arith)
        requires
            el == if wl.value() == u {
                1int
            } else {
                0
            },
            er == if wr.value() == u {
                1int
            } else {
                0
            },
    ;
    assert((el + er) * u == el * u + er * u) by (nonlinear_arith);
    assert(begin + span_ideal <= 2 * all);
    let k = i + 20;
    // the numerator, times the value of one
    let n = lemma_any_numerator(ws, i, frac, el, er);
    assert(r == n.over_spec(count)) by {
        assert(m.prefix[i - 1] == cdf::sum(ws.take(i - 1)));
    }
    let x = n.value() * u;
    let ideal_f = begin * u + span_ideal * f;
    // the quotient
    let fair = x * 2;
    assert(scaling_laws::within(x, 2, fair, 0)) by {
        assert(0 * fair == 0) by (nonlinear_arith);
    }
    assert(0 <= fair) by (nonlinear_arith)
        requires
            fair == (n.value() * u) * 2,
            0 <= n.value(),
            0 < u,
    ;
    lemma_countable(centroids, count, n, wl.value(), j, fair, 0);
    let rc = r.value() * c;
    let au = 2 * all * u;
    // every error is a part of the sum of all weights
    assert(fair <= 6 * all * u) by (nonlinear_arith)
        requires
            fair == (n.value() * u) * 2,
            n.value() <= 3 * all,
            0 < u,
    ;
    let off0 = rc * 2 - fair;
    assert(6 * all * u == 3 * au) by (nonlinear_arith)
        requires
            au == 2 * all * u,
    ;
    assert(-(3 * au) <= off0 * p <= 3 * au) by {
        assert(1 * fair == fair) by (nonlinear_arith);
    }
    let off1 = fair - ideal_f;
    assert(-(k * au) <= off1 * p <= k * au);
    let off2 = f * far - near * u;
    let g = off0 + off1;
    assert((k + 3) * au == k * au + 3 * au) by (nonlinear_arith);
    assert(g * p == off0 * p + off1 * p) by (nonlinear_arith)
        requires
            g == off0 + off1,
    ;
    let auf = au * far;
    let y1 = g * far;
    assert(-((k + 3) * auf) <= y1 * p <= (k + 3) * auf) by {
        let op = g * p;
        let bb = (k + 3) * au;
        assert(y1 * p == op * far) by (nonlinear_arith)
            requires
                y1 == g * far,
                op == g * p,
        ;
        assert((k + 3) * auf == bb * far) by (nonlinear_arith)
            requires
                auf == au * far,
                bb == (k + 3) * au,
        ;
        assert(-(bb * far) <= op * far <= bb * far) by (nonlinear_arith)
            requires
                -bb <= op <= bb,
                0 < far,
        ;
    }
    let y2 = span_ideal * off2;
    assert(-(6 * auf) <= y2 * p <= 6 * auf) by {
        let ed = e * far;
        assert(0 < ed) by (nonlinear_arith)
            requires
                ed == e * far,
                0 < e,
                0 < far,
        ;
        assert(-(6 * (span_ideal * ed)) <= y2 <= 6 * (span_ideal * ed)) by (nonlinear_arith)
            requires
                -(6 * ed) <= off2 <= 6 * ed,
                y2 == span_ideal * off2,
                0 <= span_ideal,
        ;
        let al = 2 * all;
        assert(span_ideal * ed <= al * ed) by (nonlinear_arith)
            requires
                span_ideal <= al,
                0 < ed,
        ;
        assert(auf == (4 * p) * (al * ed)) by (nonlinear_arith)
            requires
                auf == au * far,
                au == al * u,
                u == 0x40_0000_0000_0000 * e,
                ed == e * far,
                p == 0x10_0000_0000_0000,
        ;
        assert(0 <= al * ed) by (nonlinear_arith)
            requires
                0 <= al,
                0 < ed,
        ;
    }
    let ideal = (begin * far + span_ideal * near) * u;
    assert(rc * (2 * far) - ideal == y1 + y2) by (nonlinear_arith)
        requires
            y1 == g * far,
            g == rc * 2 - ideal_f,
            ideal_f == begin * u + span_ideal * f,
            y2 == span_ideal * off2,
            off2 == f * far - near * u,
            ideal == (begin * far + span_ideal * near) * u,
    {
        assert(y1 == rc * (2 * far) - begin * u * far - span_ideal * f * far) by (nonlinear_arith)
            requires
                y1 == g * far,
                g == rc * 2 - (begin * u + span_ideal * f),
        ;
        assert(y2 == span_ideal * f * far - span_ideal * near * u) by (nonlinear_arith)
            requires
                y2 == span_ideal * off2,
                off2 == f * far - near * u,
        ;
        assert(ideal == begin * u * far + span_ideal * near * u) by (nonlinear_arith)
            requires
                ideal == (begin * far + span_ideal * near) * u,
        ;
    }
    assert((k + 3) * auf + 6 * auf == (k + 9) * auf) by (nonlinear_arith);
    assert(0 <= auf) by (nonlinear_arith)
        requires
            auf == au * far,
            0 <= au,
            0 < far,
    ;
    assert((k + 9) * auf <= (centroids.len() + 30) * auf) by (nonlinear_arith)
        requires
            k + 9 <= centroids.len() + 30,
            0 <= auf,
    ;
}

/// The numerator between two means, whatever the weights.
proof fn lemma_any_numerator(ws: Seq<Float64>, i: int, frac: Float64, el: int, er: int) -> (n:
    Float64)
    requires
        scaling_laws::moderate(ws),
        0 < i < ws.len(),
        frac.finite(),
        0 <= frac.value() <= Float64::unit(),
        taken_out(ws[i - 1], el),
        taken_out(ws[i], er),
    ensures
        ({
            let (wl, wr) = (ws[i - 1], ws[i]);
            let s = wl.value() + wr.value();
            let before = cdf::sum(ws.take(i - 1));
            let u = Float64::unit();
            let j = 2 * scaling_laws::mass(ws.take(i - 1)) + wl.value();
            let all = scaling_laws::mass(ws);
            let ideal = (j + el * u) * u + (s - (el + er) * u) * frac.value();
            let part = (i + 20) * (2 * all * u);
            &&& n == if el == 1 && er == 1 {
                before.plus_spec(cdf::one())
            } else {
                before.plus_spec(wl.over_spec(cdf::two())).plus_spec(
                    cdf::excluded(wl),
                ).plus_spec(
                    cdf::half().times_spec(wl.plus_spec(wr)).minus_spec(
                        cdf::excluded(wl),
                    ).minus_spec(cdf::excluded(wr)).times_spec(frac),
                )
            }
            &&& n.finite()
            &&& 0 <= n.value() <= 3 * all
            &&& j <= 4 * n.value()
            &&& 0 <= s - (el + er) * u
            &&& -part <= ((n.value() * u) * 2 - ideal) * 0x10_0000_0000_0000 <= part
        }),
{
    let (wl, wr) = (ws[i - 1], ws[i]);
    let u = Float64::unit();
    let h = exact::h();
    let p = 0x10_0000_0000_0000int;
    let s = wl.value() + wr.value();
    let all = scaling_laws::mass(ws);
    let t = scaling_laws::mass(ws.take(i - 1));
    let before = cdf::sum(ws.take(i - 1));
    let j = 2 * t + wl.value();
    let f = frac.value();
    let au = 2 * all * u;
    weights::lemma_constants();
    assert(0 * h == 0) by (nonlinear_arith);
    scaling_laws::lemma_powers();
    scaling_laws::lemma_weights(ws, i - 1);
    scaling_laws::lemma_weights(ws, i);
    exact::lemma_value_order(wl, cdf::one());
    exact::lemma_value_order(wr, cdf::one());
    assert(0 < au) by (nonlinear_arith)
        requires
            au == 2 * all * u,
            0 < all,
            0 < u,
    ;
    if el == 1 && er == 1 {
        let n = before.plus_spec(cdf::one());
        scaling_laws::lemma_float_sum(ws, i - 1);
        assert(scaling_laws::within(u, 1, u, i - 1)) by {
            assert(0 <= (i - 1) * u) by (nonlinear_arith)
                requires
                    0 <= i - 1,
                    0 < u,
            ;
        }
        scaling_laws::lemma_rounded_sum(before, cdf::one(), 1, t, u, i - 1);
        let q = t + u;
        scaling_laws::lemma_at_most_twice(n.value(), 1, q, i);
        assert((el + er) * u == 2 * u && el * u == u) by (nonlinear_arith)
            requires
                el == 1,
                er == 1,
        ;
        assert((s - (el + er) * u) * f == 0) by (nonlinear_arith)
            requires
                s - (el + er) * u == 0,
        ;
        let nv = n.value();
        let ideal = (j + el * u) * u;
        assert((nv * u) * 2 - ideal == (nv - q) * (2 * u)) by (nonlinear_arith)
            requires
                ideal == (j + el * u) * u,
                j + el * u == 2 * q,
        ;
        let o = (nv - q) * p;
        assert(((nv - q) * (2 * u)) * p == o * (2 * u)) by (nonlinear_arith)
            requires
                o == (nv - q) * p,
        ;
        assert(-((i * q) * (2 * u)) <= o * (2 * u) <= (i * q) * (2 * u)) by (nonlinear_arith)
            requires
                -(i * q) <= o <= i * q,
                0 < u,
        ;
        assert((i * q) * (2 * u) <= (i + 20) * au) by (nonlinear_arith)
            requires
                au == 2 * all * u,
                0 < q <= all,
                0 < i,
                0 < u,
        {
            assert(i * q <= (i + 20) * all) by (nonlinear_arith)
                requires
                    0 < q <= all,
                    0 < i,
            ;
            assert((i * q) * (2 * u) <= ((i + 20) * all) * (2 * u)) by (nonlinear_arith)
                requires
                    i * q <= (i + 20) * all,
                    0 < u,
            ;
            assert(((i + 20) * all) * (2 * u) == (i + 20) * (2 * all * u)) by (nonlinear_arith);
        }
        n
    } else {
        assert(el + er <= 1);
        let half_l = wl.over_spec(cdf::two());
        let b1 = before.plus_spec(half_l);
        let cl = cdf::excluded(wl);
        let base = b1.plus_spec(cl);
        scaling_laws::lemma_half_way_in(ws, i - 1, half_l);
        let k = i + 1;
        let eu = el * u;
        assert(eu == 2 * cl.value() && 0 <= eu <= wl.value()) by {
            if el == 1 {
                assert(1 * u == u) by (nonlinear_arith);
            } else {
                assert(0 * u == 0) by (nonlinear_arith);
            }
        }
        assert(scaling_laws::within(cl.value(), 2, eu, k)) by {
            assert(0 <= k * eu) by (nonlinear_arith)
                requires
                    0 <= k,
                    0 <= eu,
            ;
        }
        scaling_laws::lemma_rounded_sum(b1, cl, 2, j, eu, k);
        let begin = j + eu;
        scaling_laws::lemma_at_most_twice(base.value(), 2, begin, k + 1);
        let span = cdf::half().times_spec(wl.plus_spec(wr)).minus_spec(cl).minus_spec(
            cdf::excluded(wr),
        );
        lemma_any_span(wl, wr, el, er);
        let si = s - (el + er) * u;
        let part = span.times_spec(frac);
        cdf_laws::lemma_part_of(frac, span);
        exact::lemma_times(span, frac);
        let sf = span.value() * f;
        assert(0 <= sf <= s * u) by (nonlinear_arith)
            requires
                sf == span.value() * f,
                0 <= span.value() <= s,
                0 <= f <= u,
        ;
        exact::lemma_relative_error(part, sf, u);
        let n = base.plus_spec(part);
        let v = base.value() + part.value();
        exact::lemma_plus(base, part);
        scaling_laws::lemma_not_too_large(n, v, 1);
        exact::lemma_relative_error(n, v, 1);
        exact::lemma_rounded_at_least(v, 1, base);
        exact::lemma_value_order(base, n);
        // the errors, each as a part of the sum of all weights
        let (bv, pv, nv, sv) = (base.value(), part.value(), n.value(), span.value());
        assert(begin + s <= 3 * all);
        assert(v <= 3 * all);
        let o1 = nv - v;
        let o2 = 2 * bv - begin;
        let o3 = pv * u - sf;
        let o4 = 2 * sv - si;
        lemma_any_errors(all, u, p, i, o1, o2, o3, o4, f, begin, s, v, sf);
        let ideal = begin * u + si * f;
        assert((nv * u) * 2 - ideal == 2 * (o1 * u) + o2 * u + 2 * o3 + o4 * f) by (nonlinear_arith)
            requires
                ideal == begin * u + si * f,
                o1 == nv - v,
                v == bv + pv,
                o2 == 2 * bv - begin,
                o3 == pv * u - sf,
                sf == sv * f,
                o4 == 2 * sv - si,
        {
            assert(2 * (o1 * u) == 2 * (nv * u) - 2 * (bv * u) - 2 * (pv * u)) by (nonlinear_arith)
                requires
                    o1 == nv - (bv + pv),
            ;
            assert(o2 * u == 2 * (bv * u) - begin * u) by (nonlinear_arith)
                requires
                    o2 == 2 * bv - begin,
            ;
            assert(o4 * f == 2 * (sv * f) - si * f) by (nonlinear_arith)
                requires
                    o4 == 2 * sv - si,
            ;
        }
        n
    }
}

proof fn lemma_any_errors(
    all: int,
    u: int,
    p: int,
    i: int,
    o1: int,
    o2: int,
    o3: int,
    o4: int,
    f: int,
    begin: int,
    s: int,
    v: int,
    sf: int,
)
    requires
        p == 0x10_0000_0000_0000,
        p <= all,
        0 < u,
        0 < i,
        0 <= f <= u,
        0 <= begin <= 2 * all,
        0 <= s <= all,
        0 <= v <= 3 * all,
        0 <= sf <= s * u,
        -v <= o1 * 0x20_0000_0000_0000 <= v,
        -((i + 2) * begin) <= o2 * p <= (i + 2) * begin,
        ({
            ||| -sf <= o3 * 0x20_0000_0000_0000 <= sf
            ||| -u <= 2 * o3 <= u
        }),
        -(6 * s) <= o4 * p <= 6 * s,
    ensures
        ({
            let z = 2 * (o1 * u) + o2 * u + 2 * o3 + o4 * f;
            let part = (i + 20) * (2 * all * u);
            -part <= z * p <= part
        }),
{
    let au = all * u;
    let z1 = 2 * (o1 * u);
    let z2 = o2 * u;
    let z4 = o4 * f;
    assert(-(3 * au) <= z1 * p <= 3 * au) by {
        let a = o1 * (2 * p);
        assert(z1 * p == a * u) by (nonlinear_arith)
            requires
                z1 == 2 * (o1 * u),
                a == o1 * (2 * p),
        ;
        assert(-(3 * (all * u)) <= a * u <= 3 * (all * u)) by (nonlinear_arith)
            requires
                -(3 * all) <= a <= 3 * all,
                0 < u,
        ;
    }
    assert(-((i + 2) * (2 * au)) <= z2 * p <= (i + 2) * (2 * au)) by {
        let a = o2 * p;
        assert(z2 * p == a * u) by (nonlinear_arith)
            requires
                z2 == o2 * u,
                a == o2 * p,
        ;
        assert((i + 2) * begin <= (i + 2) * (2 * all)) by (nonlinear_arith)
            requires
                begin <= 2 * all,
                0 < i,
        ;
        let c = (i + 2) * (2 * all);
        assert(-(c * u) <= a * u <= c * u) by (nonlinear_arith)
            requires
                -c <= a <= c,
                0 < u,
        ;
        assert(c * u == (i + 2) * (2 * au)) by (nonlinear_arith)
            requires
                c == (i + 2) * (2 * all),
                au == all * u,
        ;
    }
    assert(s * u <= au) by (nonlinear_arith)
        requires
            s <= all,
            au == all * u,
            0 < u,
    ;
    assert(p * u <= au) by (nonlinear_arith)
        requires
            p <= all,
            au == all * u,
            0 < u,
    ;
    assert(-au <= (2 * o3) * p <= au);
    assert(-(6 * au) <= z4 * p <= 6 * au) by {
        let a = o4 * p;
        assert(z4 * p == a * f) by (nonlinear_arith)
            requires
                z4 == o4 * f,
                a == o4 * p,
        ;
        assert(-(6 * (s * f)) <= a * f <= 6 * (s * f)) by (nonlinear_arith)
            requires
                -(6 * s) <= a <= 6 * s,
                0 <= f,
        ;
        assert(0 <= s * f <= s * u) by (nonlinear_arith)
            requires
                0 <= f <= u,
                0 <= s,
        ;
    }
    let z = z1 + z2 + 2 * o3 + z4;
    assert(z * p == z1 * p + z2 * p + (2 * o3) * p + z4 * p) by (nonlinear_arith)
        requires
            z == z1 + z2 + 2 * o3 + z4,
    ;
    let part = (i + 20) * (2 * all * u);
    assert(part == (i + 2) * (2 * au) + 36 * au) by (nonlinear_arith)
        requires
            part == (i + 20) * (2 * all * u),
            au == all * u,
    ;
    assert(0 <= au) by (nonlinear_arith)
        requires
            au == all * u,
            0 < all,
            0 < u,
    ;
}

/// The ramp of a tail: 1 and the part `y / d` of what half of the weight `w` has above 1,
/// over the count, but for rounding. `q` is the result.
pub open spec fn on_the_ramp(y: int, d: int, w: int, c: int, q: int) -> bool {
    let u = Float64::unit();
    let ideal = (2 * u * d + (w - 2 * u) * y) * u;
    let part = c * d * u;
    -part <= (q * c * (2 * d) - ideal) * 0x4000_0000_0000 <= part
}

/// Half of a weight, less 1.
proof fn lemma_half_less_one(w: Float64, c: int)
    requires
        w.finite(),
        0 <= w.value() <= 2 * c,
        Float64::unit() <= c <= pow2(2090),
    ensures
        ({
            let x = w.over_spec(cdf::two()).minus_spec(cdf::one());
            let u = Float64::unit();
            &&& x.finite()
            &&& -(3 * c) <= x.value() <= 3 * c
            &&& -(12 * c) <= (2 * x.value() - (w.value() - 2 * u)) * 0x20_0000_0000_0000 <= 12 * c
        }),
{
    let u = Float64::unit();
    let v = w.value();
    let k = 0x20_0000_0000_0000int;
    let hw = w.over_spec(cdf::two());
    let x = hw.minus_spec(cdf::one());
    let big = exact::lemma_largest();
    let most = exact::largest();
    weights::lemma_constants();
    lemma2_to64();
    lemma2_to64_rest();
    lemma_pow2_adds(7, 2090);
    lemma_pow2_strictly_increases(53, 1074);
    exact::lemma_over(w, cdf::two());
    let top = v * u;
    let bottom = cdf::two().value();
    assert(bottom == 2 * u);
    assert(0 <= top <= most * bottom) by (nonlinear_arith)
        requires
            top == v * u,
            0 <= v <= most,
            bottom == 2 * u,
            0 < u,
    ;
    sum_laws::lemma_signed_rounding(hw, top, bottom);
    let off = 2 * hw.value() - v;
    let ou = off * u;
    assert(hw.value() * bottom - top == ou) by (nonlinear_arith)
        requires
            bottom == 2 * u,
            top == v * u,
            ou == off * u,
            off == 2 * hw.value() - v,
    ;
    assert(-(v + k) <= off * k <= v + k) by {
        if -bottom <= 2 * ou <= bottom {
            assert(-1 <= off <= 1) by (nonlinear_arith)
                requires
                    -(2 * u) <= 2 * ou <= 2 * u,
                    ou == off * u,
                    0 < u,
            ;
        } else {
            let t = off * k;
            assert(ou * k == t * u) by (nonlinear_arith)
                requires
                    ou == off * u,
                    t == off * k,
            ;
            assert(-v <= t <= v) by (nonlinear_arith)
                requires
                    -(v * u) <= t * u <= v * u,
                    0 < u,
            ;
        }
    }
    let y = hw.value() - u;
    assert(-(2 * c) <= y <= 2 * c);
    exact::lemma_minus(hw, cdf::one());
    sum_laws::lemma_signed_rounding(x, y, 1);
}

/// The ramp, step by step.
proof fn lemma_ramp_is_near(y: int, d: int, near: Float64, far: Float64, w: Float64, count: Float64)
    requires
        0 < y < d,
        !near.nan(),
        !far.nan(),
        near.ordinal() == exact::rounded_ordinal(y, 1),
        far.ordinal() == exact::rounded_ordinal(d, 1),
        far.finite(),
        w.finite(),
        count.finite(),
        0 <= w.value() <= 2 * count.value(),
        Float64::unit() <= count.value() <= pow2(2090),
    ensures
        ({
            let ramp = near.over_spec(far).times_spec(
                w.over_spec(cdf::two()).minus_spec(cdf::one()),
            );
            let q = cdf::one().plus_spec(ramp).over_spec(count);
            let c = count.value();
            let u = Float64::unit();
            let ideal = (2 * u * d + (w.value() - 2 * u) * y) * u;
            &&& q.finite()
            &&& -(13 * u) <= q.value() <= 13 * u
            &&& -(78 * (c * d * u)) <= (q.value() * c * (2 * d) - ideal) * 0x20_0000_0000_0000 <= 78
                * (c * d * u)
        }),
{
    let u = Float64::unit();
    let e = symmetry_laws::eps();
    let k = 0x20_0000_0000_0000int;
    let c = count.value();
    let v = w.value();
    let frac = near.over_spec(far);
    let x = w.over_spec(cdf::two()).minus_spec(cdf::one());
    let part = frac.times_spec(x);
    let n = cdf::one().plus_spec(part);
    let q = n.over_spec(count);
    let big = exact::lemma_largest();
    let most = exact::largest();
    weights::lemma_constants();
    symmetry_laws::lemma_eps();
    lemma2_to64();
    lemma2_to64_rest();
    lemma_pow2_adds(7, 2090);
    lemma_pow2_strictly_increases(53, 1074);
    lemma_pow2_strictly_increases(1074, 2090);
    lemma_part_is_near(y, d, near, far);
    lemma_half_less_one(w, c);
    let f = frac.value();
    let xv = x.value();
    // the product
    exact::lemma_times(frac, x);
    let fx = f * xv;
    assert(-(3 * c * u) <= fx <= 3 * c * u) by (nonlinear_arith)
        requires
            fx == f * xv,
            0 <= f <= u,
            -(3 * c) <= xv <= 3 * c,
            0 < c,
    {
        assert(-(f * (3 * c)) <= f * xv <= f * (3 * c)) by (nonlinear_arith)
            requires
                -(3 * c) <= xv <= 3 * c,
                0 <= f,
        ;
        assert(f * (3 * c) <= u * (3 * c)) by (nonlinear_arith)
            requires
                f <= u,
                0 < c,
        ;
        assert(u * (3 * c) == 3 * c * u) by (nonlinear_arith);
    }
    assert(3 * c * u <= most * u) by (nonlinear_arith)
        requires
            3 * c <= most,
            0 < u,
    ;
    sum_laws::lemma_signed_rounding(part, fx, u);
    let pv = part.value();
    let off3 = pv * u - fx;
    let cu = c * u;
    assert(3 * c * u == 3 * cu) by (nonlinear_arith)
        requires
            cu == c * u,
    ;
    assert(k * u <= cu) by (nonlinear_arith)
        requires
            cu == c * u,
            k <= c,
            0 < u,
    ;
    assert(-(4 * cu) <= off3 * k <= 4 * cu);
    assert(-(4 * c) <= pv <= 4 * c) by (nonlinear_arith)
        requires
            -(4 * cu) <= pv * u <= 4 * cu,
            cu == c * u,
            0 < u,
    ;
    // the sum
    let s = u + pv;
    exact::lemma_plus(cdf::one(), part);
    sum_laws::lemma_signed_rounding(n, s, 1);
    let nv = n.value();
    let off2 = nv - s;
    assert(-(5 * c) <= off2 * k <= 5 * c);
    assert(-(6 * c) <= nv <= 6 * c);
    // the quotient
    exact::lemma_over(n, count);
    let nu = nv * u;
    assert(-(6 * cu) <= nu <= 6 * cu && 6 * cu <= most * c) by (nonlinear_arith)
        requires
            -(6 * c) <= nv <= 6 * c,
            nu == nv * u,
            cu == c * u,
            6 * u <= most,
            0 < u,
            0 < c,
    ;
    sum_laws::lemma_signed_rounding(q, nu, c);
    let qc = q.value() * c;
    let off1 = qc - nu;
    assert(c * k <= cu) by (nonlinear_arith)
        requires
            cu == c * u,
            k <= u,
            0 < c,
    ;
    assert(-(6 * cu) <= off1 * k <= 6 * cu) by {
        if -c <= 2 * off1 <= c {
        }
    }
    let qv = q.value();
    assert(-(13 * u) <= qv <= 13 * u) by (nonlinear_arith)
        requires
            -(13 * cu) <= qv * c <= 13 * cu,
            cu == c * u,
            0 < c,
    ;
    // all together
    let off4 = 2 * xv - (v - 2 * u);
    let off5 = f * d - y * u;
    let cdu = c * d * u;
    lemma_all_errors(d, u, c, k, cdu, off1, off2, off3);
    lemma_two_errors(d, u, c, k, e, cdu, f, off4, v - 2 * u, off5);
    let ideal = (2 * u * d + (v - 2 * u) * y) * u;
    let z1 = (2 * d) * off1;
    let z2 = (2 * d * u) * off2;
    let z3 = (2 * d) * off3;
    let z4 = (d * f) * off4;
    let z5 = (v - 2 * u) * off5;
    assert(qc * (2 * d) - ideal == z1 + z2 + z3 + z4 + z5) by {
        lemma_errors_add_up(d, u, qc, nv, pv, xv, f, y, v);
    }
}

/// What the errors of the steps amount to.
proof fn lemma_all_errors(d: int, u: int, c: int, k: int, cdu: int, off1: int, off2: int, off3: int)
    requires
        0 < d,
        0 < u,
        0 < c,
        cdu == c * d * u,
        -(6 * (c * u)) <= off1 * k <= 6 * (c * u),
        -(5 * c) <= off2 * k <= 5 * c,
        -(4 * (c * u)) <= off3 * k <= 4 * (c * u),
    ensures
        -(12 * cdu) <= ((2 * d) * off1) * k <= 12 * cdu,
        -(10 * cdu) <= ((2 * d * u) * off2) * k <= 10 * cdu,
        -(8 * cdu) <= ((2 * d) * off3) * k <= 8 * cdu,
{
    let (a, b, e) = (off1 * k, off2 * k, off3 * k);
    assert(((2 * d) * off1) * k == (2 * d) * a && ((2 * d * u) * off2) * k == (2 * d * u) * b && ((2
        * d) * off3) * k == (2 * d) * e) by (nonlinear_arith)
        requires
            a == off1 * k,
            b == off2 * k,
            e == off3 * k,
    ;
    let cu = c * u;
    assert(cdu == d * cu && cdu == (d * u) * c) by (nonlinear_arith)
        requires
            cdu == c * d * u,
            cu == c * u,
    ;
    assert(-(12 * (d * cu)) <= (2 * d) * a <= 12 * (d * cu)) by (nonlinear_arith)
        requires
            -(6 * cu) <= a <= 6 * cu,
            0 < d,
    ;
    assert(-(8 * (d * cu)) <= (2 * d) * e <= 8 * (d * cu)) by (nonlinear_arith)
        requires
            -(4 * cu) <= e <= 4 * cu,
            0 < d,
    ;
    let du = d * u;
    assert(0 < du) by (nonlinear_arith)
        requires
            du == d * u,
            0 < d,
            0 < u,
    ;
    assert((2 * d * u) * b == (2 * du) * b) by (nonlinear_arith)
        requires
            du == d * u,
    ;
    assert(-(10 * (du * c)) <= (2 * du) * b <= 10 * (du * c)) by (nonlinear_arith)
        requires
            -(5 * c) <= b <= 5 * c,
            0 < du,
    ;
}

proof fn lemma_two_errors(
    d: int,
    u: int,
    c: int,
    k: int,
    e: int,
    cdu: int,
    f: int,
    off4: int,
    w2: int,
    off5: int,
)
    requires
        0 < d,
        0 < u <= c,
        0 <= f <= u,
        0 < e,
        k == 0x20_0000_0000_0000,
        u == 0x40_0000_0000_0000 * e,
        cdu == c * d * u,
        -(12 * c) <= off4 * k <= 12 * c,
        -(2 * c) <= w2 <= 2 * c,
        -(6 * (e * d)) <= off5 <= 6 * (e * d),
    ensures
        -(12 * cdu) <= ((d * f) * off4) * k <= 12 * cdu,
        -(12 * cdu) <= (w2 * off5) * k <= 12 * cdu,
{
    let a = off4 * k;
    let df = d * f;
    let du = d * u;
    assert(0 <= df <= du && 0 < du) by (nonlinear_arith)
        requires
            df == d * f,
            du == d * u,
            0 <= f <= u,
            0 < d,
            0 < u,
    ;
    assert((df * off4) * k == df * a) by (nonlinear_arith)
        requires
            a == off4 * k,
    ;
    assert(-(df * (12 * c)) <= df * a <= df * (12 * c)) by (nonlinear_arith)
        requires
            -(12 * c) <= a <= 12 * c,
            0 <= df,
    ;
    assert(df * (12 * c) <= du * (12 * c)) by (nonlinear_arith)
        requires
            df <= du,
            0 < c,
    ;
    assert(du * (12 * c) == 12 * cdu) by (nonlinear_arith)
        requires
            du == d * u,
            cdu == c * d * u,
    ;
    let ed = e * d;
    assert(0 < ed) by (nonlinear_arith)
        requires
            ed == e * d,
            0 < e,
            0 < d,
    ;
    let z = w2 * off5;
    assert(-(12 * (c * ed)) <= z <= 12 * (c * ed)) by (nonlinear_arith)
        requires
            z == w2 * off5,
            -(2 * c) <= w2 <= 2 * c,
            -(6 * ed) <= off5 <= 6 * ed,
            0 < ed,
            0 < c,
    {
        let o = 6 * ed;
        let p = 2 * c;
        assert(-(p * o) <= w2 * off5 <= p * o) by (nonlinear_arith)
            requires
                -p <= w2 <= p,
                -o <= off5 <= o,
                0 < p,
                0 < o,
        ;
        assert(p * o == 12 * (c * ed)) by (nonlinear_arith)
            requires
                o == 6 * ed,
                p == 2 * c,
        ;
    }
    assert(cdu == (2 * k) * (c * ed)) by (nonlinear_arith)
        requires
            cdu == c * d * u,
            u == 0x40_0000_0000_0000 * e,
            ed == e * d,
            k == 0x20_0000_0000_0000,
    ;
    assert(0 < c * ed) by (nonlinear_arith)
        requires
            0 < c,
            0 < ed,
    ;
}

/// The errors of the steps make up the error of the whole.
proof fn lemma_errors_add_up(
    d: int,
    u: int,
    qc: int,
    nv: int,
    pv: int,
    xv: int,
    f: int,
    y: int,
    v: int,
)
    ensures
        qc * (2 * d) - (2 * u * d + (v - 2 * u) * y) * u == (2 * d) * (qc - nv * u) + (2 * d * u)
            * (nv - (u + pv)) + (2 * d) * (pv * u - f * xv) + (d * f) * (2 * xv - (v - 2 * u)) + (v
            - 2 * u) * (f * d - y * u),
{
    let w2 = v - 2 * u;
    let (nu, pu, fx, df) = (nv * u, pv * u, f * xv, d * f);
    assert((2 * d) * (qc - nu) == qc * (2 * d) - 2 * (d * nu)) by (nonlinear_arith);
    assert((2 * d * u) * (nv - (u + pv)) == 2 * (d * nu) - 2 * (d * (u * u)) - 2 * (d * pu))
        by (nonlinear_arith)
        requires
            nu == nv * u,
            pu == pv * u,
    ;
    assert((2 * d) * (pu - fx) == 2 * (d * pu) - 2 * (d * fx)) by (nonlinear_arith);
    assert(df * (2 * xv - w2) == 2 * (d * fx) - df * w2) by (nonlinear_arith)
        requires
            df == d * f,
            fx == f * xv,
    ;
    assert(w2 * (f * d - y * u) == df * w2 - w2 * y * u) by (nonlinear_arith)
        requires
            df == d * f,
    ;
    assert((2 * u * d + w2 * y) * u == 2 * (d * (u * u)) + w2 * y * u) by (nonlinear_arith);
}

/// Between the least value and the first mean the estimate rises from 1 to half of the first
/// weight, over the count, in the proportion of the distances, but for rounding.
pub proof fn law_left_tail_is_a_ramp(
    centroids: Seq<Centroid>,
    count: Float64,
    min: Float64,
    max: Float64,
    val: Float64,
    r: Float64,
)
    requires
        centroids.len() > 0,
        cdf::ascending_numbers(CdfModel::of(centroids, count).means),
        min.lt_spec(val),
        val.lt_spec(centroids[0].mean),
        centroids[0].mean.minus_spec(min).finite(),
        centroids[0].weight.finite(),
        count.finite(),
        0 <= centroids[0].weight.value() <= 2 * count.value(),
        Float64::unit() <= count.value() <= pow2(2090),
        CdfModel::of(centroids, count).estimates(val, min, max, r),
    ensures
        r.finite(),
        on_the_ramp(
            val.value() - min.value(),
            centroids[0].mean.value() - min.value(),
            centroids[0].weight.value(),
            count.value(),
            r.value(),
        ),
{
    let m = CdfModel::of(centroids, count);
    let m0 = centroids[0].mean;
    assert(m.means[0] == m0);
    assert(m.weights[0] == centroids[0].weight);
    lemma_before_all(m.means, val);
    lemma_at_slot(centroids, count, min, max, val, r, 0);
    lemma_distance_is_positive(min, m0);
    exact::lemma_negated(min);
    assert(min.finite() && m0.finite()) by {
        if !min.finite() || !m0.finite() {
            assert(!m0.minus_spec(min).finite());
        }
    }
    assert(val.finite());
    exact::lemma_value_order(min, val);
    exact::lemma_value_order(val, m0);
    exact::lemma_minus(val, min);
    exact::lemma_minus(m0, min);
    let y = val.value() - min.value();
    let d = m0.value() - min.value();
    lemma_ramp_is_near(
        y,
        d,
        val.minus_spec(min),
        m0.minus_spec(min),
        centroids[0].weight,
        count,
    );
    lemma_parts_of_ramp(count.value(), d);
}

proof fn lemma_parts_of_ramp(c: int, d: int)
    requires
        Float64::unit() <= c,
        0 < d,
    ensures
        0 < c,
        0 < c * d * Float64::unit(),
{
    lemma_pow2_pos(1074);
    let u = Float64::unit();
    let cd = c * d;
    assert(0 < cd) by (nonlinear_arith)
        requires
            cd == c * d,
            0 < c,
            0 < d,
    ;
    assert(0 < cd * u) by (nonlinear_arith)
        requires
            0 < cd,
            0 < u,
    ;
}

/// Between the last mean and the greatest value the estimate is what is left of 1 without the
/// ramp that rises from 1 at the greatest value to half of the last weight, over the count,
/// but for rounding.
pub proof fn law_right_tail_is_a_ramp(
    centroids: Seq<Centroid>,
    count: Float64,
    min: Float64,
    max: Float64,
    val: Float64,
    r: Float64,
)
    requires
        centroids.len() > 0,
        cdf::ascending_numbers(CdfModel::of(centroids, count).means),
        centroids.last().mean.lt_spec(val),
        val.lt_spec(max),
        max.minus_spec(centroids.last().mean).finite(),
        centroids.last().weight.finite(),
        count.finite(),
        0 <= centroids.last().weight.value() <= 2 * count.value(),
        Float64::unit() <= count.value() <= pow2(2090),
        CdfModel::of(centroids, count).estimates(val, min, max, r),
    ensures
        r.finite(),
        on_the_ramp(
            max.value() - val.value(),
            max.value() - centroids.last().mean.value(),
            centroids.last().weight.value(),
            count.value(),
            Float64::unit() - r.value(),
        ),
{
    let m = CdfModel::of(centroids, count);
    let n = centroids.len() - 1;
    let mn = centroids[n].mean;
    let w = centroids[n].weight;
    let u = Float64::unit();
    let c = count.value();
    let k = 0x20_0000_0000_0000int;
    assert(m.means[n] == mn);
    assert(m.weights[n] == w);
    lemma_behind_all(m.means, val);
    lemma_at_slot(centroids, count, min, max, val, r, m.means.len() as int);
    lemma_distance_is_positive(mn, max);
    exact::lemma_negated(mn);
    assert(mn.finite() && max.finite()) by {
        if !mn.finite() || !max.finite() {
            assert(!max.minus_spec(mn).finite());
        }
    }
    assert(val.finite());
    exact::lemma_value_order(mn, val);
    exact::lemma_value_order(val, max);
    exact::lemma_minus(max, val);
    exact::lemma_minus(max, mn);
    let y = max.value() - val.value();
    let d = max.value() - mn.value();
    lemma_ramp_is_near(y, d, max.minus_spec(val), max.minus_spec(mn), w, count);
    lemma_parts_of_ramp(c, d);
    let ramp = max.minus_spec(val).over_spec(max.minus_spec(mn)).times_spec(
        w.over_spec(cdf::two()).minus_spec(cdf::one()),
    );
    let q = cdf::one().plus_spec(ramp).over_spec(count);
    assert(r == cdf::one().minus_spec(q));
    weights::lemma_constants();
    exact::lemma_minus(cdf::one(), q);
    let big = exact::lemma_largest();
    lemma2_to64();
    lemma_pow2_adds(4, 1074);
    lemma_pow2_strictly_increases(1078, 2097);
    sum_laws::lemma_signed_rounding(r, u - q.value(), 1);
    let off = (u - r.value()) - q.value();
    assert(-(14 * u) <= off * k <= 14 * u);
    let cdu = c * d * u;
    let z = (off * c) * (2 * d);
    assert(-(28 * cdu) <= z * k <= 28 * cdu) by {
        let ok = off * k;
        let cd = c * d;
        assert(0 < cd) by (nonlinear_arith)
            requires
                cd == c * d,
                0 < c,
                0 < d,
        ;
        assert(z * k == (2 * cd) * ok) by (nonlinear_arith)
            requires
                z == (off * c) * (2 * d),
                ok == off * k,
                cd == c * d,
        ;
        assert(-(28 * (cd * u)) <= (2 * cd) * ok <= 28 * (cd * u)) by (nonlinear_arith)
            requires
                -(14 * u) <= ok <= 14 * u,
                0 < cd,
        ;
    }
    let p = u - r.value();
    assert(p * c * (2 * d) == q.value() * c * (2 * d) + z) by (nonlinear_arith)
        requires
            off == p - q.value(),
            z == (off * c) * (2 * d),
    ;
}

/// The count only divides: what is divided does not depend on it. At or between the means,
/// and left of them within the support, an estimate is some number over the count; right of
/// them it is one less such a number.
pub proof fn law_the_count_only_divides(
    centroids: Seq<Centroid>,
    a: Float64,
    b: Float64,
    min: Float64,
    max: Float64,
    val: Float64,
    ra: Float64,
    rb: Float64,
)
    requires
        centroids.len() > 0,
        cdf::strictly_ascending_numbers(CdfModel::of(centroids, a).means),
        CdfModel::of(centroids, a).estimates(val, min, max, ra),
        CdfModel::of(centroids, b).estimates(val, min, max, rb),
    ensures
        centroids[0].mean.le_spec(val) && val.le_spec(centroids.last().mean) || min.le_spec(val)
            && val.lt_spec(centroids[0].mean) && min.lt_spec(centroids[0].mean) ==> exists|n: Float64|
            ra == #[trigger] n.over_spec(a) && rb == n.over_spec(b),
        centroids.last().mean.lt_spec(val) && val.le_spec(max) ==> exists|n: Float64|
            ra == cdf::one().minus_spec(#[trigger] n.over_spec(a)) && rb == cdf::one().minus_spec(
                n.over_spec(b),
            ),
{
    let m = CdfModel::of(centroids, a);
    let w = CdfModel::of(centroids, b);
    let slot = cdf::slot_of(m.means, val);
    let some = choose|slot: Slot| #[trigger]
        cdf::is_slot(m.means, val, slot) && ra == m.at_slot(val, min, max, slot);
    assert(cdf::is_slot(m.means, val, some));
    cdf::lemma_slot_is_unique(m.means, val, some);
    cdf_laws::lemma_ascending(m.means);
    assert(w.means =~= m.means);
    assert(w.weights =~= m.weights);
    assert(w.prefix =~= m.prefix);
    assert(m.means[0] == centroids[0].mean);
    let last = m.means.len() - 1;
    assert(m.means[last] == centroids.last().mean);
    if centroids[0].mean.le_spec(val) && val.le_spec(centroids.last().mean) || min.le_spec(val)
        && val.lt_spec(centroids[0].mean) && min.lt_spec(centroids[0].mean) {
        match some {
            Slot::Hit(i) => {
                let n = m.prefix[i].plus_spec(cdf::half().times_spec(m.weights[i]));
                assert(ra == n.over_spec(a) && rb == n.over_spec(b));
            },
            Slot::Gap(i) => {
                if i == 0 {
                    assert(val.lt_spec(m.means[0]));
                    lemma_distance_is_positive(min, centroids[0].mean);
                    let gap = m.means[0].minus_spec(min);
                    let n = if val.eq_spec(min) {
                        cdf::half()
                    } else {
                        cdf::one().plus_spec(
                            val.minus_spec(min).over_spec(gap).times_spec(
                                m.weights[0].over_spec(cdf::two()).minus_spec(cdf::one()),
                            ),
                        )
                    };
                    assert(ra == n.over_spec(a) && rb == n.over_spec(b));
                } else if i == m.means.len() {
                    assert(m.means[last].lt_spec(val));
                } else {
                    let (ml, mr) = (m.means[i - 1], m.means[i]);
                    let (wl, wr) = (m.weights[i - 1], m.weights[i]);
                    let before = m.prefix[i - 1];
                    let gap = mr.minus_spec(ml);
                    let dw = cdf::half().times_spec(wl.plus_spec(wr));
                    let n = if gap.le_spec(cdf::zero()) {
                        before.plus_spec(dw)
                    } else if wl.eq_spec(cdf::one()) && wr.eq_spec(cdf::one()) {
                        before.plus_spec(cdf::one())
                    } else {
                        before.plus_spec(wl.over_spec(cdf::two())).plus_spec(
                            cdf::excluded(wl),
                        ).plus_spec(
                            dw.minus_spec(cdf::excluded(wl)).minus_spec(
                                cdf::excluded(wr),
                            ).times_spec(val.minus_spec(ml).over_spec(gap)),
                        )
                    };
                    assert(ra == n.over_spec(a) && rb == n.over_spec(b));
                }
            },
        }
    }
    if centroids.last().mean.lt_spec(val) && val.le_spec(max) {
        match some {
            Slot::Hit(i) => {
                assert(m.means[i].ordinal() <= m.means[last].ordinal());
            },
            Slot::Gap(i) => {
                if i < m.means.len() {
                    assert(val.lt_spec(m.means[last]));
                }
                lemma_distance_is_positive(centroids.last().mean, max);
                let gap = max.minus_spec(m.means[last]);
                let n = if val.eq_spec(max) {
                    cdf::half()
                } else {
                    cdf::one().plus_spec(
                        max.minus_spec(val).over_spec(gap).times_spec(
                            m.weights[last].over_spec(cdf::two()).minus_spec(cdf::one()),
                        ),
                    )
                };
                assert(ra == cdf::one().minus_spec(n.over_spec(a)));
                assert(rb == cdf::one().minus_spec(n.over_spec(b)));
            },
        }
    }
}

/// The arrays of an estimate are what they hold.
pub proof fn law_arrays_are_their_fields(light: CdfLight)
    ensures
        light@.means == light.means@,
        light@.weights == light.weights@,
        light@.prefix == light.prefix@,
        light@.count == light.count,
{
}

} // verus!
