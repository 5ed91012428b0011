//! What errors, quantiles and scores are for.
use vstd::arithmetic::div_mod::*;
use vstd::arithmetic::power2::*;
use vstd::prelude::*;

use crate::cdf;
use crate::cdf_laws;
use crate::digest;
use crate::digest::{DigestView, TDigest};
use crate::exact;
use crate::float::Float64;
use crate::merge_laws;
use crate::merges::NormalizedStream;
use crate::policy::SingletonPolicy;
use crate::quality;
use crate::quality::{KS_FACTOR_BITS, MAE_FACTOR_BITS};
use crate::rounding;
use crate::scale::ScaleFamily;
use crate::scaling_laws;
use crate::sum_laws;
use crate::weights;

verus! {

/// The greatest error is at least every error that is a number, and it is one of them; 0
/// where there is none above it.
pub proof fn law_greatest_error_bounds_all(errors: Seq<Float64>)
    requires
        forall|i: int|
            0 <= i < errors.len() ==> (#[trigger] errors[i]).nan() || cdf::zero().le_spec(errors[i]),
    ensures
        ({
            let g = quality::greatest_error(errors);
            &&& cdf::zero().le_spec(g)
            &&& forall|i: int|
                0 <= i < errors.len() && !(#[trigger] errors[i]).nan() ==> errors[i].le_spec(g)
            &&& g == cdf::zero() || exists|i: int| 0 <= i < errors.len() && #[trigger] errors[i] == g
        }),
    decreases errors.len(),
{
    let g = quality::greatest_error(errors);
    if errors.len() > 0 {
        let front = errors.drop_last();
        let n = front.len() as int;
        assert(forall|i: int| 0 <= i < n ==> front[i] == errors[i]);
        law_greatest_error_bounds_all(front);
        let before = quality::greatest_error(front);
        assert(errors.last() == errors[n]);
        assert forall|i: int| 0 <= i < errors.len() && !(
        #[trigger] errors[i]).nan() implies errors[i].le_spec(g) by {
            if i < n {
                assert(front[i].le_spec(before));
            }
        }
        if before.lt_spec(errors.last()) {
            assert(errors[n] == g);
        } else if before != cdf::zero() {
            let i = choose|i: int| 0 <= i < front.len() && #[trigger] front[i] == before;
            assert(errors[i] == g);
        }
    } else {
        exact::lemma_of(false, 0);
    }
}

/// Each error is the distance of the estimate from the quantile of the data at its point of
/// the grid, rounded. It is NaN where one of them is.
pub proof fn law_errors_are_distances(estimates: Seq<Float64>, sorted: Seq<Float64>, k: int)
    requires
        0 <= k < estimates.len(),
    ensures
        ({
            let errors = quality::grid_errors(estimates, sorted);
            let e = errors[k];
            let a = estimates[k];
            let b = quality::expected_quantile_spec(sorted, quality::grid_point_spec(k + 1));
            &&& errors.len() == estimates.len()
            &&& e.nan() || cdf::zero().le_spec(e)
            &&& a.nan() || b.nan() ==> e.nan()
            &&& a.finite() && b.finite() ==> !e.nan() && e.ordinal() == exact::rounded_ordinal(
                if a.value() < b.value() {
                    b.value() - a.value()
                } else {
                    a.value() - b.value()
                },
                1,
            )
        }),
{
    let a = estimates[k];
    let b = quality::expected_quantile_spec(sorted, quality::grid_point_spec(k + 1));
    let d = a.minus_spec(b);
    exact::lemma_of(false, 0);
    exact::lemma_negated(b);
    if d.body() <= crate::float::INF_BODY {
        exact::lemma_of(false, d.body());
    }
    if a.finite() && b.finite() {
        exact::lemma_minus(a, b);
        let v = a.value() - b.value();
        exact::lemma_round_bounds(
            if v < 0 {
                -v
            } else {
                v
            },
            1,
        );
    }
}

/// The sum of numbers that are not negative is rounded by at most `2^-52` of it for each.
pub proof fn lemma_sum_is_near(ws: Seq<Float64>)
    requires
        forall|i: int| 0 <= i < ws.len() ==> (#[trigger] ws[i]).finite() && 0 <= ws[i].value(),
        scaling_laws::mass(ws) <= pow2(2093),
        ws.len() <= 0x100_0000_0000,
    ensures
        cdf::sum(ws).finite(),
        0 <= cdf::sum(ws).value() <= 2 * scaling_laws::mass(ws),
        scaling_laws::within(cdf::sum(ws).value(), 1, scaling_laws::mass(ws), ws.len() as int),
    decreases ws.len(),
{
    weights::lemma_constants();
    scaling_laws::lemma_powers();
    assert(0 * exact::h() == 0) by (nonlinear_arith);
    scaling_laws::lemma_mass_is_not_negative(ws);
    if ws.len() > 0 {
        let rest = ws.drop_last();
        let w = ws.last();
        let n = rest.len() as int;
        assert(forall|i: int| 0 <= i < n ==> rest[i] == ws[i]);
        assert(ws[n].finite() && 0 <= ws[n].value());
        scaling_laws::lemma_mass_is_not_negative(rest);
        lemma_sum_is_near(rest);
        assert(scaling_laws::within(w.value(), 1, w.value(), n)) by {
            assert(0 <= n * w.value()) by (nonlinear_arith)
                requires
                    0 <= n,
                    0 <= w.value(),
            ;
        }
        scaling_laws::lemma_rounded_sum(cdf::sum(rest), w, 1, scaling_laws::mass(rest), w.value(), n);
    }
    scaling_laws::lemma_at_most_twice(cdf::sum(ws).value(), 1, scaling_laws::mass(ws), ws.len() as int);
}

/// The mean error is the mean of the errors over the 999 inner points of the grid, but for
/// rounding.
pub proof fn law_mean_error_is_the_mean(errors: Seq<Float64>)
    requires
        forall|i: int|
            0 <= i < errors.len() ==> (#[trigger] errors[i]).finite() && 0 <= errors[i].value(),
        scaling_laws::mass(errors) <= pow2(2093),
        errors.len() == 999,
    ensures
        ({
            let m = quality::mean_error(errors);
            let part = 1000 * scaling_laws::mass(errors) + 500 * 0x10_0000_0000_0000;
            &&& m.finite()
            &&& 0 <= m.value()
            &&& -part <= (m.value() * 999 - scaling_laws::mass(errors)) * 0x10_0000_0000_0000 <= part
        }),
{
    let s = cdf::sum(errors);
    let n = Float64::from_int_spec(999);
    let m = quality::mean_error(errors);
    let u = Float64::unit();
    let v = s.value();
    lemma_sum_is_near(errors);
    scaling_laws::lemma_powers();
    scaling_laws::lemma_mass_is_not_negative(errors);
    weights::lemma_constants();
    exact::lemma_from_int(999);
    let d = n.value();
    assert(d == 999 * u) by (nonlinear_arith)
        requires
            d == (2 * 999) * exact::h(),
            u == 2 * exact::h(),
    ;
    exact::lemma_over(s, n);
    assert(0 <= v * u <= pow2(2097) * d) by (nonlinear_arith)
        requires
            0 <= v <= pow2(2097),
            d == 999 * u,
            0 < u,
    ;
    scaling_laws::lemma_not_too_large(m, v * u, d);
    exact::lemma_relative_error(m, v * u, d);
    let off = m.value() * 999 - v;
    assert(m.value() * d - v * u == off * u) by (nonlinear_arith)
        requires
            d == 999 * u,
            off == m.value() * 999 - v,
    ;
    let ou = off * u;
    if -d <= 2 * ou <= d {
        assert(-500 <= off <= 500) by (nonlinear_arith)
            requires
                -(999 * u) <= 2 * ou <= 999 * u,
                ou == off * u,
                0 < u,
        ;
    } else {
        let t = off * 0x20_0000_0000_0000;
        assert(ou * 0x20_0000_0000_0000 == t * u) by (nonlinear_arith)
            requires
                ou == off * u,
                t == off * 0x20_0000_0000_0000,
        ;
        assert(-v <= t <= v) by (nonlinear_arith)
            requires
                -(v * u) <= t * u <= v * u,
                0 < u,
        ;
    }
}

/// The quantile of sorted values at an end, and of none.
pub proof fn law_quantiles_at_the_ends(sorted: Seq<Float64>, q: Float64)
    ensures
        sorted.len() == 0 ==> quality::expected_quantile_spec(sorted, q).nan(),
        sorted.len() > 0 && (q.nan() || q.le_spec(cdf::zero())) ==> quality::expected_quantile_spec(
            sorted,
            q,
        ) == sorted[0],
        sorted.len() > 0 && cdf::one().le_spec(q) ==> quality::expected_quantile_spec(sorted, q)
            == sorted.last(),
{
    exact::lemma_of(false, 0);
    assert(cdf::one().body() > 0);
}

/// The magnitude of an integer.
pub open spec fn magnitude(v: int) -> int {
    if v < 0 {
        -v
    } else {
        v
    }
}

/// `r` is the value at position `t` between `a` and `b`, which stand at the positions `lo`
/// and `lo + 1`, but for rounding.
pub open spec fn interpolates(a: int, b: int, lo: int, t: int, r: int) -> bool {
    let u = Float64::unit();
    let off = r * u - (((lo + 1) * u - t) * a + (t - lo * u) * b);
    let part = (magnitude(a) + magnitude(b) + 0x10_0000_0000_0000) * u;
    -part <= off * 0x1_0000_0000_0000 <= part
}

/// Point `i` of the grid is `i / 1000`, rounded.
pub proof fn law_grid_points_are_thousandths(i: int)
    requires
        0 <= i <= 1000,
    ensures
        ({
            let g = quality::grid_point_spec(i);
            let part = 1000 * pow2(1020);
            &&& g.finite()
            &&& i * Float64::unit() - part <= g.value() * 1000 <= i * Float64::unit() + part
        }),
{
    let u = Float64::unit();
    let a = Float64::from_int_spec(i);
    let n = Float64::from_int_spec(1000);
    weights::lemma_constants();
    exact::lemma_from_int(i);
    exact::lemma_from_int(1000);
    assert(a.value() == i * u && n.value() == 1000 * u) by (nonlinear_arith)
        requires
            a.value() == (2 * i) * exact::h(),
            n.value() == (2 * 1000) * exact::h(),
            u == 2 * exact::h(),
    ;
    assert(0 <= i * u <= 1000 * u) by (nonlinear_arith)
        requires
            0 <= i <= 1000,
            0 < u,
    ;
    cdf_laws::lemma_quotient_error(a, n);
    let g = quality::grid_point_spec(i).value();
    let e = pow2(1020) as int;
    assert(i * u - 1000 * e <= g * 1000 <= i * u + 1000 * e) by (nonlinear_arith)
        requires
            (i * u) * u - e * (1000 * u) <= g * (1000 * u) <= (i * u) * u + e * (1000 * u),
            0 < u,
    ;
}

/// The logarithm of the score is 1200 times the mean error and 18 times the greatest error,
/// with their sign turned, but for rounding.
pub proof fn law_scores_weigh_the_errors(ks: Float64, mae: Float64)
    requires
        ks.finite(),
        mae.finite(),
        0 <= ks.value(),
        0 <= mae.value(),
        1200 * mae.value() + 18 * ks.value() <= pow2(2093),
    ensures
        ({
            let e = quality::score_exponent(ks, mae);
            &&& e.finite()
            &&& scaling_laws::within(-e.value(), 1, 1200 * mae.value() + 18 * ks.value(), 2)
        }),
{
    let u = Float64::unit();
    let a = Float64 { bits: MAE_FACTOR_BITS };
    let b = Float64 { bits: KS_FACTOR_BITS };
    scaling_laws::lemma_powers();
    lemma2_to64();
    lemma2_to64_rest();
    lemma_pow2_pos(1074);
    rounding::lemma_magnitude_of_parts(52, 1032, 0x12_c000_0000_0000);
    rounding::lemma_magnitude_of_parts(52, 1026, 0x12_0000_0000_0000);
    lemma_pow2_adds(42, 1032);
    lemma_pow2_adds(48, 1026);
    assert(a.value() == 1200 * u) by {
        assert(MAE_FACTOR_BITS == 1032 * 0x10_0000_0000_0000int + 0x12_c000_0000_0000);
    }
    assert(b.value() == 18 * u) by {
        assert(KS_FACTOR_BITS == 1026 * 0x10_0000_0000_0000int + 0x12_0000_0000_0000);
    }
    lemma_whole_factor(a, 1200, mae);
    lemma_whole_factor(b, 18, ks);
    let (p, q) = (a.times_spec(mae), b.times_spec(ks));
    scaling_laws::lemma_rounded_sum(p, q, 1, 1200 * mae.value(), 18 * ks.value(), 1);
    exact::lemma_negated(p.plus_spec(q));
}

/// A whole number times a number is rounded by at most `2^-53` of it.
proof fn lemma_whole_factor(c: Float64, k: int, x: Float64)
    requires
        c.finite(),
        1 <= k,
        c.value() == k * Float64::unit(),
        x.finite(),
        0 <= x.value(),
        k * x.value() <= pow2(2093),
    ensures
        ({
            let p = c.times_spec(x);
            &&& p.finite()
            &&& 0 <= p.value() <= 2 * (k * x.value())
            &&& scaling_laws::within(p.value(), 1, k * x.value(), 1)
        }),
{
    let u = Float64::unit();
    let v = x.value();
    let kv = k * v;
    let p = c.times_spec(x);
    scaling_laws::lemma_powers();
    lemma_pow2_pos(1074);
    exact::lemma_times(c, x);
    assert(c.value() * v == kv * u) by (nonlinear_arith)
        requires
            c.value() == k * u,
            kv == k * v,
    ;
    assert(0 <= kv) by (nonlinear_arith)
        requires
            kv == k * v,
            1 <= k,
            0 <= v,
    ;
    assert(0 <= kv * u <= pow2(2097) * u) by (nonlinear_arith)
        requires
            0 <= kv <= pow2(2097),
            0 < u,
    ;
    scaling_laws::lemma_not_too_large(p, kv * u, u);
    exact::lemma_relative_error(p, kv * u, u);
    lemma_multiple(p.value(), kv, u);
    scaling_laws::lemma_at_most_twice(p.value(), 1, kv, 1);
}

/// An error that is a multiple of the divisor is relative, or there is none.
proof fn lemma_multiple(p: int, v: int, u: int)
    requires
        0 < u,
        0 <= v,
        ({
            let off = p * u - v * u;
            ||| -(v * u) <= off * 0x20_0000_0000_0000 <= v * u
            ||| -u <= 2 * off <= u
        }),
    ensures
        -v <= (p - v) * 0x20_0000_0000_0000 <= v,
{
    let off = p - v;
    let ou = off * u;
    assert(p * u - v * u == ou) by (nonlinear_arith)
        requires
            ou == off * u,
            off == p - v,
    ;
    if -u <= 2 * ou <= u {
        assert(off == 0) by (nonlinear_arith)
            requires
                -u <= 2 * ou <= u,
                ou == off * u,
                0 < u,
        ;
    } else {
        let t = off * 0x20_0000_0000_0000;
        assert(ou * 0x20_0000_0000_0000 == t * u) by (nonlinear_arith)
            requires
                ou == off * u,
                t == off * 0x20_0000_0000_0000,
        ;
        assert(-v <= t <= v) by (nonlinear_arith)
            requires
                -(v * u) <= t * u <= v * u,
                0 < u,
        ;
    }
}

/// `r` is the quantile at `q` of the sorted values: `t` is the position `q (n - 1)`, rounded,
/// and `r` is the value there, or between the two values next to it.
pub open spec fn at_position(sorted: Seq<Float64>, q: Float64, t: int, lo: int, r: Float64) -> bool {
    let u = Float64::unit();
    let v = q.value() * (sorted.len() - 1);
    &&& -v <= (t - v) * 0x20_0000_0000_0000 <= v
    &&& 0 <= lo < sorted.len()
    &&& lo * u <= t < (lo + 1) * u
    &&& if t == lo * u {
        r == sorted[lo]
    } else {
        &&& lo + 1 < sorted.len()
        &&& r.finite()
        &&& interpolates(sorted[lo].value(), sorted[lo + 1].value(), lo, t, r.value())
    }
}

/// A quantile strictly between 0 and 1 is interpolated between the two order statistics next
/// to its position.
pub proof fn law_quantiles_are_interpolated(sorted: Seq<Float64>, q: Float64)
    requires
        1 <= sorted.len() <= 0x20_0000_0000_0000,
        cdf::zero().lt_spec(q),
        q.lt_spec(cdf::one()),
        forall|i: int|
            0 <= i < sorted.len() ==> (#[trigger] sorted[i]).finite() && magnitude(
                sorted[i].value(),
            ) <= pow2(2094),
    ensures
        exists|t: int, lo: int| #[trigger]
            at_position(sorted, q, t, lo, quality::expected_quantile_spec(sorted, q)),
{
    let n = sorted.len() as int;
    let r = quality::expected_quantile_spec(sorted, q);
    let t = quality::quantile_position(n, q);
    let u = Float64::unit();
    let lo = t.truncated();
    weights::lemma_constants();
    assert(0 * exact::h() == 0) by (nonlinear_arith);
    quality::lemma_quantile_position(n, q);
    // the position
    let w = Float64::from_int_spec(n).minus_spec(cdf::one());
    exact::lemma_from_int(n);
    exact::lemma_halves_minus(Float64::from_int_spec(n), 2 * n, cdf::one(), 2);
    assert((2 * n - 2) * exact::h() == (n - 1) * u) by (nonlinear_arith)
        requires
            u == 2 * exact::h(),
    ;
    exact::lemma_times(q, w);
    exact::lemma_value_order(cdf::zero(), q);
    exact::lemma_value_order(q, cdf::one());
    let v = q.value() * (n - 1);
    assert(q.value() * w.value() == v * u) by (nonlinear_arith)
        requires
            w.value() == (n - 1) * u,
            v == q.value() * (n - 1),
    ;
    assert(0 <= v) by (nonlinear_arith)
        requires
            v == q.value() * (n - 1),
            0 < q.value(),
            1 <= n,
    ;
    assert(0 <= v * u) by (nonlinear_arith)
        requires
            0 <= v,
            0 < u,
    ;
    exact::lemma_relative_error(t, v * u, u);
    lemma_multiple(t.value(), v, u);
    // the integer part
    let m = t.magnitude();
    t.lemma_magnitude_is_not_negative();
    exact::lemma_zero_magnitude();
    assert(t.value() == m);
    lemma_fundamental_div_mod(m, u);
    if t.negative() {
        lemma_div_of0(u);
    }
    assert(lo * u <= m < (lo + 1) * u) by (nonlinear_arith)
        requires
            lo == m / u,
            m == u * (m / u) + m % u,
            0 <= m % u < u,
    ;
    assert(sorted[lo].finite());
    if t.value() != lo * u {
        assert(quality::ceiling(t) == lo + 1);
        assert(sorted[lo + 1].finite());
        lemma_interpolation(lo, t, sorted[lo], sorted[lo + 1]);
    }
    assert(at_position(sorted, q, t.value(), lo, r));
}

/// Rounding the two parts of an interpolation, and their sum.
proof fn lemma_interpolation(lo: int, t: Float64, a: Float64, b: Float64)
    requires
        0 <= lo <= 0x20_0000_0000_0000,
        t.finite(),
        lo * Float64::unit() < t.value() < (lo + 1) * Float64::unit(),
        a.finite(),
        b.finite(),
        magnitude(a.value()) <= pow2(2094),
        magnitude(b.value()) <= pow2(2094),
    ensures
        ({
            let alpha = t.minus_spec(Float64::from_int_spec(lo));
            let r = cdf::one().minus_spec(alpha).times_spec(a).plus_spec(alpha.times_spec(b));
            &&& r.finite()
            &&& interpolates(a.value(), b.value(), lo, t.value(), r.value())
        }),
{
    let u = Float64::unit();
    let k = 0x20_0000_0000_0000int;
    let base = Float64::from_int_spec(lo);
    let alpha = t.minus_spec(base);
    let beta = cdf::one().minus_spec(alpha);
    let p = beta.times_spec(a);
    let q = alpha.times_spec(b);
    let r = p.plus_spec(q);
    let (av, bv) = (a.value(), b.value());
    let (am, bm) = (magnitude(av), magnitude(bv));
    weights::lemma_constants();
    assert(0 * exact::h() == 0) by (nonlinear_arith);
    exact::lemma_from_int(lo);
    assert((2 * lo) * exact::h() == lo * u) by (nonlinear_arith)
        requires
            u == 2 * exact::h(),
    ;
    let x = t.value() - lo * u;
    assert((lo + 1) * u == lo * u + u) by (nonlinear_arith);
    let big = exact::lemma_largest();
    lemma_pow2_adds(3, 2094);
    lemma2_to64();
    lemma_pow2_strictly_increases(1074, 2097);
    lemma_pow2_pos(2094);
    // the parts of the way
    exact::lemma_minus(t, base);
    exact::lemma_rounded_at_most(x, 1, cdf::one());
    exact::lemma_rounded_at_least(x, 1, cdf::zero());
    exact::lemma_value_order(alpha, cdf::one());
    exact::lemma_value_order(cdf::zero(), alpha);
    exact::lemma_relative_error(alpha, x, 1);
    exact::lemma_minus(cdf::one(), alpha);
    let y = u - alpha.value();
    exact::lemma_rounded_at_most(y, 1, cdf::one());
    exact::lemma_rounded_at_least(y, 1, cdf::zero());
    exact::lemma_value_order(beta, cdf::one());
    exact::lemma_value_order(cdf::zero(), beta);
    exact::lemma_relative_error(beta, y, 1);
    // the products
    lemma_part_product(beta, a);
    lemma_part_product(alpha, b);
    // their sum
    let s = p.value() + q.value();
    exact::lemma_plus(p, q);
    assert(-(2 * am + 2 * bm + 2) <= s <= 2 * am + 2 * bm + 2);
    sum_laws::lemma_signed_rounding(r, s, 1);
    let off1 = (r.value() - s) * u;
    let off2 = p.value() * u - beta.value() * av;
    let off3 = q.value() * u - alpha.value() * bv;
    let c4 = beta.value() - (u - x);
    let c5 = alpha.value() - x;
    assert(-(2 * u) <= c4 * k <= 2 * u);
    assert(-u <= c5 * k <= u);
    let off4 = c4 * av;
    let off5 = c5 * bv;
    assert(-((2 * am + 2 * bm + 2) * u) <= off1 * k <= (2 * am + 2 * bm + 2) * u) by {
        let z = (r.value() - s) * k;
        let c = 2 * am + 2 * bm + 2;
        assert(off1 * k == z * u) by (nonlinear_arith)
            requires
                off1 == (r.value() - s) * u,
                z == (r.value() - s) * k,
        ;
        assert(-(c * u) <= z * u <= c * u) by (nonlinear_arith)
            requires
                -c <= z <= c,
                0 < u,
        ;
    }
    lemma_scaled_error(c4, av, am, 2 * u, k);
    lemma_scaled_error(c5, bv, bm, u, k);
    let off = r.value() * u - (((lo + 1) * u - t.value()) * av + (t.value() - lo * u) * bv);
    assert(off == off1 + off2 + off3 + off4 + off5) by (nonlinear_arith)
        requires
            off == r.value() * u - (((lo + 1) * u - t.value()) * av + (t.value() - lo * u) * bv),
            off1 == (r.value() - s) * u,
            s == p.value() + q.value(),
            off2 == p.value() * u - beta.value() * av,
            off3 == q.value() * u - alpha.value() * bv,
            off4 == c4 * av,
            off5 == c5 * bv,
            c4 == beta.value() - (u - x),
            c5 == alpha.value() - x,
            x == t.value() - lo * u,
            (lo + 1) * u == lo * u + u,
    {
        assert((u - x) * av == ((lo + 1) * u - t.value()) * av) by (nonlinear_arith)
            requires
                x == t.value() - lo * u,
                (lo + 1) * u == lo * u + u,
        ;
        assert(c4 * av == beta.value() * av - (u - x) * av) by (nonlinear_arith)
            requires
                c4 == beta.value() - (u - x),
        ;
        assert(c5 * bv == alpha.value() * bv - x * bv) by (nonlinear_arith)
            requires
                c5 == alpha.value() - x,
        ;
        assert((r.value() - s) * u == r.value() * u - p.value() * u - q.value() * u)
            by (nonlinear_arith)
            requires
                s == p.value() + q.value(),
        ;
    }
    let (ua, ub) = (am * u, bm * u);
    assert((2 * am + 2 * bm + 2) * u == 2 * ua + 2 * ub + 2 * u && (am + bm
        + 0x10_0000_0000_0000) * u == ua + ub + 0x10_0000_0000_0000 * u && (2 * u) * am == 2 * ua
        && u * bm == ub && (am + k) * u == ua + k * u && (bm + k) * u == ub + k * u && 0 <= ua && 0
        <= ub) by (nonlinear_arith)
        requires
            ua == am * u,
            ub == bm * u,
            0 <= am,
            0 <= bm,
            0 < u,
    ;
}

/// An error times a number.
proof fn lemma_scaled_error(c: int, v: int, m: int, bound: int, k: int)
    requires
        -bound <= c * k <= bound,
        m == magnitude(v),
    ensures
        -(bound * m) <= (c * v) * k <= bound * m,
{
    let ck = c * k;
    assert((c * v) * k == ck * v) by (nonlinear_arith)
        requires
            ck == c * k,
    ;
    if v < 0 {
        assert(ck * v == -(ck * m)) by (nonlinear_arith)
            requires
                v == -m,
        ;
    }
    assert(-(bound * m) <= ck * m <= bound * m) by (nonlinear_arith)
        requires
            -bound <= ck <= bound,
            0 <= m,
    ;
}

/// A part of a number, rounded.
proof fn lemma_part_product(f: Float64, a: Float64)
    requires
        f.finite(),
        0 <= f.value() <= Float64::unit(),
        a.finite(),
        magnitude(a.value()) <= pow2(2094),
    ensures
        ({
            let p = f.times_spec(a);
            let m = magnitude(a.value());
            let off = p.value() * Float64::unit() - f.value() * a.value();
            let part = (m + 0x20_0000_0000_0000) * Float64::unit();
            &&& p.finite()
            &&& -(2 * m + 1) <= p.value() <= 2 * m + 1
            &&& -part <= off * 0x20_0000_0000_0000 <= part
        }),
{
    let u = Float64::unit();
    let k = 0x20_0000_0000_0000int;
    let p = f.times_spec(a);
    let m = magnitude(a.value());
    let num = f.value() * a.value();
    let most = exact::largest();
    let big = exact::lemma_largest();
    lemma_pow2_pos(1074);
    lemma_pow2_adds(3, 2094);
    lemma2_to64();
    exact::lemma_times(f, a);
    assert(-(m * u) <= num <= m * u) by (nonlinear_arith)
        requires
            num == f.value() * a.value(),
            0 <= f.value() <= u,
            m == magnitude(a.value()),
            -m <= a.value() <= m,
            0 <= m,
    {
        let fm = f.value() * m;
        assert(fm <= u * m) by (nonlinear_arith)
            requires
                fm == f.value() * m,
                f.value() <= u,
                0 <= m,
        ;
        assert(-fm <= num <= fm) by (nonlinear_arith)
            requires
                num == f.value() * a.value(),
                fm == f.value() * m,
                -m <= a.value() <= m,
                0 <= f.value(),
        ;
        assert(u * m == m * u) by (nonlinear_arith);
    }
    assert(m * u <= most * u) by (nonlinear_arith)
        requires
            m <= most,
            0 < u,
    ;
    sum_laws::lemma_signed_rounding(p, num, u);
    let off = p.value() * u - num;
    let mu = m * u;
    assert((m + k) * u == mu + k * u) by (nonlinear_arith)
        requires
            mu == m * u,
    ;
    assert(0 <= mu) by (nonlinear_arith)
        requires
            mu == m * u,
            0 <= m,
            0 < u,
    ;
    assert(-(mu + k * u) <= off * k <= mu + k * u);
    let pv = p.value();
    assert(-(2 * m + 1) <= pv <= 2 * m + 1) by (nonlinear_arith)
        requires
            -(2 * mu + u) <= pv * u <= 2 * mu + u,
            mu == m * u,
            0 < u,
    ;
}

/// The integer, or the bound that it lies beyond.
pub open spec fn clamped(v: int, lo: int, hi: int) -> int {
    if v < lo {
        lo
    } else if hi < v {
        hi
    } else {
        v
    }
}

/// A number that is clamped to the unit interval.
proof fn lemma_in_unit(x: Float64)
    requires
        !x.nan(),
    ensures
        quality::in_unit(x).finite(),
        x.finite() ==> quality::in_unit(x).value() == clamped(x.value(), 0, Float64::unit()),
{
    weights::lemma_constants();
    assert(0 * exact::h() == 0) by (nonlinear_arith);
    if x.finite() {
        exact::lemma_value_order(x, cdf::zero());
        exact::lemma_value_order(cdf::one(), x);
    }
}

/// A number times a factor, added to another one: `scale` times the result is `scale * b`
/// and `a` times the number, but for rounding.
proof fn lemma_shifted(base: Float64, factor: Float64, x: Float64, scale: int, a: int)
    requires
        base.finite(),
        0 <= base.value() <= Float64::unit(),
        factor.finite(),
        0 <= factor.value() <= Float64::unit(),
        1 <= scale,
        -(2 * pow2(1020)) <= scale * factor.value() - a * Float64::unit() <= 2 * pow2(1020),
        x.finite(),
        magnitude(x.value()) <= pow2(2090),
    ensures
        ({
            let v = base.plus_spec(factor.times_spec(x));
            let part = 4 * scale * (Float64::unit() + magnitude(x.value()));
            &&& v.finite()
            &&& -part <= (scale * v.value() - (scale * base.value() + a * x.value()))
                * 0x20_0000_0000_0000 <= part
        }),
{
    let u = Float64::unit();
    let k = 0x20_0000_0000_0000int;
    let e = pow2(1020) as int;
    let m = magnitude(x.value());
    let (b, f, xv) = (base.value(), factor.value(), x.value());
    let p = factor.times_spec(x);
    let v = base.plus_spec(p);
    let big = exact::lemma_largest();
    lemma2_to64();
    lemma2_to64_rest();
    lemma_pow2_pos(1074);
    lemma_pow2_adds(54, 1020);
    lemma_pow2_strictly_increases(2090, 2094);
    lemma_pow2_adds(7, 2090);
    lemma_pow2_strictly_increases(1074, 2090);
    lemma_pow2_strictly_increases(54, 1074);
    lemma_part_product(factor, x);
    let pv = p.value();
    let off2 = pv * u - f * xv;
    exact::lemma_plus(base, p);
    let s = b + pv;
    sum_laws::lemma_signed_rounding(v, s, 1);
    let off1 = v.value() - s;
    let c = u + 2 * m + 1;
    assert(-c <= off1 * k <= c);
    let g = scale * f - a * u;
    // all together, times the value of one
    let z1 = (scale * u) * off1;
    let z2 = scale * off2;
    let z3 = g * xv;
    let off = scale * v.value() - (scale * b + a * xv);
    assert(off * u == z1 + z2 + z3) by (nonlinear_arith)
        requires
            off == scale * v.value() - (scale * b + a * xv),
            z1 == (scale * u) * off1,
            off1 == v.value() - (b + pv),
            z2 == scale * off2,
            off2 == pv * u - f * xv,
            z3 == g * xv,
            g == scale * f - a * u,
    {
        let w = v.value();
        assert(z1 == scale * w * u - scale * b * u - scale * pv * u) by (nonlinear_arith)
            requires
                z1 == (scale * u) * off1,
                off1 == w - (b + pv),
        ;
        assert(z2 == scale * pv * u - scale * (f * xv)) by (nonlinear_arith)
            requires
                z2 == scale * off2,
                off2 == pv * u - f * xv,
        ;
        assert(z3 == scale * (f * xv) - a * xv * u) by (nonlinear_arith)
            requires
                z3 == g * xv,
                g == scale * f - a * u,
        ;
        assert(off * u == scale * w * u - scale * b * u - a * xv * u) by (nonlinear_arith)
            requires
                off == scale * w - (scale * b + a * xv),
        ;
    }
    let su = scale * u;
    assert(0 < su && u <= su) by (nonlinear_arith)
        requires
            su == scale * u,
            1 <= scale,
            0 < u,
    ;
    assert(-(su * c) <= z1 * k <= su * c) by {
        let o = off1 * k;
        assert(z1 * k == su * o) by (nonlinear_arith)
            requires
                z1 == su * off1,
                o == off1 * k,
        ;
        assert(-(su * c) <= su * o <= su * c) by (nonlinear_arith)
            requires
                -c <= o <= c,
                0 < su,
        ;
    }
    assert(-(su * (m + k)) <= z2 * k <= su * (m + k)) by {
        let o = off2 * k;
        let q = (m + k) * u;
        assert(z2 * k == scale * o) by (nonlinear_arith)
            requires
                z2 == scale * off2,
                o == off2 * k,
        ;
        assert(-(scale * q) <= scale * o <= scale * q) by (nonlinear_arith)
            requires
                -q <= o <= q,
                1 <= scale,
        ;
        assert(scale * q == su * (m + k)) by (nonlinear_arith)
            requires
                q == (m + k) * u,
                su == scale * u,
        ;
    }
    assert(-(u * m) <= z3 * k <= u * m) by {
        assert(-u <= g * k <= u);
        lemma_scaled_error(g, xv, m, u, k);
    }
    assert(u * m <= su * m) by (nonlinear_arith)
        requires
            u <= su,
            0 <= m,
    ;
    assert(c + m + k + m <= 4 * (u + m));
    let total = su * c + su * (m + k) + su * m;
    assert(total <= su * (4 * (u + m))) by (nonlinear_arith)
        requires
            total == su * c + su * (m + k) + su * m,
            c + m + k + m <= 4 * (u + m),
            0 < su,
    {
        assert(total == su * (c + m + k + m)) by (nonlinear_arith)
            requires
                total == su * c + su * (m + k) + su * m,
        ;
        assert(su * (c + m + k + m) <= su * (4 * (u + m))) by (nonlinear_arith)
            requires
                c + m + k + m <= 4 * (u + m),
                0 < su,
        ;
    }
    let part = 4 * scale * (u + m);
    assert(su * (4 * (u + m)) == part * u) by (nonlinear_arith)
        requires
            su == scale * u,
            part == 4 * scale * (u + m),
    ;
    let ok = off * k;
    assert(ok * u == (z1 + z2 + z3) * k) by (nonlinear_arith)
        requires
            ok == off * k,
            off * u == z1 + z2 + z3,
    ;
    assert((z1 + z2 + z3) * k == z1 * k + z2 * k + z3 * k) by (nonlinear_arith);
    assert(-part <= ok <= part) by (nonlinear_arith)
        requires
            -(part * u) <= ok * u <= part * u,
            0 < u,
    ;
}

/// Clamping to the unit interval keeps a result near the clamped ideal: `scale` times the
/// sample is `center + a x`, clamped, but for `2^-28`.
proof fn lemma_clamped_shift(
    base: Float64,
    factor: Float64,
    x: Float64,
    scale: int,
    a: int,
    center: int,
)
    requires
        base.finite(),
        0 <= base.value() <= Float64::unit(),
        factor.finite(),
        0 <= factor.value() <= Float64::unit(),
        1 <= scale <= 1000,
        1 <= a <= 2,
        -(2 * pow2(1020)) <= scale * factor.value() - a * Float64::unit() <= 2 * pow2(1020),
        -(400 * pow2(1020)) <= scale * base.value() - center <= 400 * pow2(1020),
        x.finite(),
        magnitude(x.value()) <= pow2(2090),
    ensures
        ({
            let r = quality::in_unit(base.plus_spec(factor.times_spec(x)));
            let ideal = clamped(center + a * x.value(), 0, scale * Float64::unit());
            &&& r.finite()
            &&& -pow2(1046) <= scale * r.value() - ideal <= pow2(1046)
        }),
{
    let u = Float64::unit();
    let e = pow2(1020) as int;
    let m = magnitude(x.value());
    let v = base.plus_spec(factor.times_spec(x));
    let k = 0x20_0000_0000_0000int;
    lemma2_to64();
    lemma2_to64_rest();
    lemma_pow2_pos(1020);
    lemma_pow2_adds(54, 1020);
    lemma_pow2_adds(26, 1020);
    lemma_shifted(base, factor, x, scale, a);
    lemma_in_unit(v);
    let r = quality::in_unit(v).value();
    let vv = v.value();
    let y = center + a * x.value();
    let su = scale * u;
    let off = scale * vv - (scale * base.value() + a * x.value());
    assert(u <= su <= 1000 * u) by (nonlinear_arith)
        requires
            su == scale * u,
            1 <= scale <= 1000,
            0 < u,
    ;
    assert(0 <= scale * base.value() <= su) by (nonlinear_arith)
        requires
            0 <= base.value() <= u,
            su == scale * u,
            1 <= scale,
    ;
    assert(scale * r == clamped(scale * vv, 0, su)) by {
        assert(vv < 0 <==> scale * vv < 0) by (nonlinear_arith)
            requires
                1 <= scale,
        ;
        assert(u < vv <==> su < scale * vv) by (nonlinear_arith)
            requires
                1 <= scale,
                su == scale * u,
        ;
        assert(scale * 0 == 0);
    }
    let part = 4 * scale * (u + m);
    assert(part <= 4000 * (u + m)) by (nonlinear_arith)
        requires
            part == 4 * scale * (u + m),
            scale <= 1000,
            0 < u,
            0 <= m,
    ;
    let ax = a * x.value();
    assert(magnitude(ax) >= m) by (nonlinear_arith)
        requires
            ax == a * x.value(),
            1 <= a,
            m == magnitude(x.value()),
    ;
    assert(x.value() > 0 ==> ax > 0 && x.value() < 0 ==> ax < 0) by (nonlinear_arith)
        requires
            ax == a * x.value(),
            1 <= a,
    ;
    if x.value() > 0 {
        assert(ax > 0) by (nonlinear_arith)
            requires
                ax == a * x.value(),
                1 <= a,
                x.value() > 0,
        ;
    }
    if x.value() < 0 {
        assert(ax < 0) by (nonlinear_arith)
            requires
                ax == a * x.value(),
                1 <= a,
                x.value() < 0,
        ;
    }
    assert(u == 0x40_0000_0000_0000 * e);
    assert(-part <= off * k <= part);
    if m <= 4000 * u {
        assert(u + m <= 4001 * u);
        assert(part <= 16_004_000 * u);
    }
}

/// The sample for a standard normal number `z` is `0.5 + 0.2 z`, clamped to the unit
/// interval, but for rounding.
pub proof fn law_normal_samples(z: Float64)
    requires
        z.finite(),
        magnitude(z.value()) <= pow2(2090),
    ensures
        ({
            let r = (quality::Draw::Normal(z)).sample_spec();
            let u = Float64::unit();
            let ideal = clamped(5 * u + 2 * z.value(), 0, 10 * u);
            &&& r.finite()
            &&& -pow2(1046) <= 10 * r.value() - ideal <= pow2(1046)
        }),
{
    let u = Float64::unit();
    let fifth = Float64 { bits: quality::FIFTH_BITS };
    weights::lemma_constants();
    lemma2_to64();
    lemma2_to64_rest();
    let q = 0x19_9999_9999_999aint;
    rounding::lemma_magnitude_of_parts(52, 1019, q);
    assert(quality::FIFTH_BITS == 1019 * 0x10_0000_0000_0000int + q);
    lemma_pow2_adds(55, 1019);
    lemma_pow2_adds(1, 1019);
    lemma_pow2_pos(1019);
    lemma_clamped_shift(cdf::half(), fifth, z, 10, 2, 5 * u);
}

/// The sample for a clump is its centre, one tenth, one half or nine tenths, and a thousandth
/// of the noise, clamped to the unit interval, but for rounding.
pub proof fn law_clump_samples(index: u32, noise: Float64)
    requires
        noise.finite(),
        magnitude(noise.value()) <= pow2(2090),
    ensures
        ({
            let r = (quality::Draw::Clump { index, noise }).sample_spec();
            let u = Float64::unit();
            let center = if index == 0 {
                100 * u
            } else if index == 1 {
                500 * u
            } else {
                900 * u
            };
            let ideal = clamped(center + noise.value(), 0, 1000 * u);
            &&& r.finite()
            &&& -pow2(1046) <= 1000 * r.value() - ideal <= pow2(1046)
        }),
{
    let u = Float64::unit();
    let thousandth = Float64 { bits: quality::THOUSANDTH_BITS };
    weights::lemma_constants();
    lemma2_to64();
    lemma2_to64_rest();
    let q = 0x10_624d_d2f1_a9fcint;
    rounding::lemma_magnitude_of_parts(52, 1012, q);
    assert(quality::THOUSANDTH_BITS == 1012 * 0x10_0000_0000_0000int + q);
    lemma_pow2_adds(62, 1012);
    lemma_pow2_adds(8, 1012);
    lemma_pow2_pos(1012);
    let tenth = 0x19_9999_9999_999aint;
    rounding::lemma_magnitude_of_parts(52, 1018, tenth);
    assert(quality::TENTH_BITS == 1018 * 0x10_0000_0000_0000int + tenth);
    lemma_pow2_adds(56, 1018);
    lemma_pow2_adds(2, 1018);
    lemma_pow2_pos(1018);
    let nine = 0x1c_cccc_cccc_cccdint;
    rounding::lemma_magnitude_of_parts(52, 1021, nine);
    assert(quality::NINE_TENTHS_BITS == 1021 * 0x10_0000_0000_0000int + nine);
    lemma_pow2_adds(53, 1021);
    lemma_pow2_adds(1, 1020);
    lemma_pow2_pos(1020);
    let center = if index == 0 {
        100 * u
    } else if index == 1 {
        500 * u
    } else {
        900 * u
    };
    lemma_clamped_shift(
        quality::clump_center(index),
        thousandth,
        noise,
        1000,
        1,
        center,
    );
}

/// The sample for the exponential `x` of a normal number is `x / (1 + x)`, but for rounding.
pub proof fn law_log_normal_samples(x: Float64)
    requires
        x.finite(),
        0 <= x.value() <= pow2(2090),
    ensures
        ({
            let r = (quality::Draw::LogNormal(x)).sample_spec();
            let u = Float64::unit();
            let part = 4 * (pow2(1020) * (u + x.value()));
            &&& r.finite()
            &&& -part <= r.value() * (u + x.value()) - x.value() * u <= part
        }),
{
    let u = Float64::unit();
    let e = pow2(1020) as int;
    let k = 0x20_0000_0000_0000int;
    let y = cdf::one().plus_spec(x);
    let q = x.over_spec(y);
    weights::lemma_constants();
    lemma2_to64();
    lemma2_to64_rest();
    lemma_pow2_pos(1020);
    lemma_pow2_adds(54, 1020);
    lemma_pow2_adds(7, 2090);
    lemma_pow2_strictly_increases(1074, 2090);
    let s = u + x.value();
    exact::lemma_plus(cdf::one(), x);
    scaling_laws::lemma_not_too_large(y, s, 1);
    exact::lemma_relative_error(y, s, 1);
    exact::lemma_rounded_at_least(s, 1, x);
    exact::lemma_value_order(x, y);
    exact::lemma_rounded_at_least(s, 1, cdf::one());
    exact::lemma_value_order(cdf::one(), y);
    cdf_laws::lemma_quotient_error(x, y);
    cdf_laws::lemma_fraction(x, y);
    exact::lemma_value_order(q, cdf::one());
    exact::lemma_value_order(cdf::zero(), q);
    assert(0 * exact::h() == 0) by (nonlinear_arith);
    lemma_in_unit(q);
    let (qv, yv) = (q.value(), y.value());
    let d = yv - s;
    let es = e * s;
    assert(e * yv <= 2 * es) by (nonlinear_arith)
        requires
            yv <= 2 * s,
            es == e * s,
            0 < e,
    ;
    assert(-(2 * es) <= qv * d <= 2 * es) by {
        let z = d * k;
        assert((qv * d) * k == qv * z) by (nonlinear_arith)
            requires
                z == d * k,
        ;
        assert(-(u * s) <= qv * z <= u * s) by (nonlinear_arith)
            requires
                -s <= z <= s,
                0 <= qv <= u,
                0 < s,
        ;
        assert(u * s == (2 * k) * es) by (nonlinear_arith)
            requires
                u == 0x40_0000_0000_0000 * e,
                es == e * s,
                k == 0x20_0000_0000_0000,
        ;
    }
    assert(qv * s == qv * yv - qv * d) by (nonlinear_arith)
        requires
            d == yv - s,
    ;
}

/// Uniform draws are the samples, clamped in the mixture; a tail is its power on the left,
/// and what is left of 1 without it on the right, clamped to the unit interval.
pub proof fn law_plain_samples(u: Float64)
    requires
        u.finite(),
    ensures
        (quality::Draw::Uniform(u)).sample_spec() == u,
        ({
            let r = (quality::Draw::Broad(u)).sample_spec();
            r.finite() && r.value() == clamped(u.value(), 0, Float64::unit())
        }),
        ({
            let r = (quality::Draw::Tail { left: true, power: u }).sample_spec();
            r.finite() && r.value() == clamped(u.value(), 0, Float64::unit())
        }),
        ({
            let r = (quality::Draw::Tail { left: false, power: u }).sample_spec();
            let ideal = clamped(Float64::unit() - u.value(), 0, Float64::unit());
            r.finite() && -pow2(1020) <= r.value() - ideal <= pow2(1020)
        }),
{
    let one = Float64::unit();
    let r = cdf::one().minus_spec(u);
    let d = one - u.value();
    lemma_in_unit(u);
    weights::lemma_constants();
    lemma_pow2_pos(1020);
    assert(0 * exact::h() == 0) by (nonlinear_arith);
    exact::lemma_minus(cdf::one(), u);
    lemma_in_unit(r);
    if d < 0 {
        exact::lemma_rounded_at_most(d, 1, cdf::zero());
        if r.finite() {
            exact::lemma_value_order(r, cdf::zero());
        }
    } else if one < d {
        exact::lemma_rounded_at_least(d, 1, cdf::one());
        if r.finite() {
            exact::lemma_value_order(cdf::one(), r);
        }
    } else {
        cdf_laws::lemma_rounding_error(r, d, 1);
        exact::lemma_rounded_at_most(d, 1, cdf::one());
        exact::lemma_rounded_at_least(d, 1, cdf::zero());
        exact::lemma_value_order(r, cdf::one());
        exact::lemma_value_order(cdf::zero(), r);
    }
}

/// A guarded draw lies between `10^-12` and 1, and a draw that does so is let through.
pub proof fn law_guarded_draws(u: Float64)
    requires
        !u.nan(),
    ensures
        ({
            let least = Float64 { bits: quality::LEAST_DRAW_BITS };
            let r = u.clamp_spec(least, cdf::one());
            &&& least.le_spec(r) && r.le_spec(cdf::one())
            &&& least.le_spec(u) && u.le_spec(cdf::one()) ==> r == u
            &&& u.lt_spec(least) ==> r == least
            &&& cdf::one().lt_spec(u) ==> r == cdf::one()
            &&& least.finite()
            &&& -pow2(1040) <= 1_000_000_000_000 * least.value() - Float64::unit() <= pow2(1040)
        }),
{
    let q = 0x11_9799_812d_ea11int;
    lemma2_to64();
    lemma2_to64_rest();
    rounding::lemma_magnitude_of_parts(52, 982, q);
    assert(quality::LEAST_DRAW_BITS == 982 * 0x10_0000_0000_0000int + q);
    lemma_pow2_adds(60, 982);
    lemma_pow2_adds(32, 1042);
    lemma_pow2_adds(58, 982);
    lemma_pow2_pos(982);
}

/// What is drawn for a sample: its own for each plain kind, whatever the bucket, and in the
/// mixture a clump for the first 30 of 100 buckets, a broad draw for the next 40, and a tail
/// for the rest.
pub proof fn law_kinds_have_their_shapes(kind: quality::DistKind, bucket: u32)
    ensures
        kind is Uniform ==> quality::shape_spec(kind, bucket) is Uniform,
        kind is Normal ==> quality::shape_spec(kind, bucket) is Normal,
        kind matches quality::DistKind::LogNormal { sigma } ==> quality::shape_spec(kind, bucket)
            == (quality::Shape::LogNormal { sigma }),
        kind is Mixture ==> {
            &&& quality::shape_spec(kind, bucket) is Clump <==> bucket < 30
            &&& quality::shape_spec(kind, bucket) is Broad <==> 30 <= bucket < 70
            &&& quality::shape_spec(kind, bucket) is Tail <==> 70 <= bucket
        },
{
}

/// A report counts the data, its greatest error is at least the distance of every estimate
/// from the quantile of the data at its point of the grid, and it is one of these distances
/// or 0; the score is the exponential of the weighted errors.
pub proof fn law_reports_say_how_far_estimates_are<E>(
    sorted: Seq<Float64>,
    estimates: Seq<Float64>,
    exp: E,
    r: quality::QualityReport,
) where E: Fn(Float64) -> Float64
    requires
        quality::reports(sorted, estimates, exp, r),
    ensures
        r.n == sorted.len(),
        cdf::zero().le_spec(r.ks),
        forall|k: int|
            0 <= k < estimates.len() ==> {
                let e = (#[trigger] estimates[k]).minus_spec(
                    quality::expected_quantile_spec(sorted, quality::grid_point_spec(k + 1)),
                ).abs_spec();
                e.nan() || e.le_spec(r.ks)
            },
        r.ks == cdf::zero() || exists|k: int|
            0 <= k < estimates.len() && (#[trigger] estimates[k]).minus_spec(
                quality::expected_quantile_spec(sorted, quality::grid_point_spec(k + 1)),
            ).abs_spec() == r.ks,
        r.mae == quality::mean_error(quality::grid_errors(estimates, sorted)),
        exp.ensures((quality::score_exponent(r.ks, r.mae),), r.score),
{
    let errors = quality::grid_errors(estimates, sorted);
    assert forall|k: int| 0 <= k < errors.len() implies (#[trigger] errors[k]).nan()
        || cdf::zero().le_spec(errors[k]) by {
        law_errors_are_distances(estimates, sorted, k);
    }
    law_greatest_error_bounds_all(errors);
    assert forall|k: int| 0 <= k < estimates.len() implies {
        let e = (#[trigger] estimates[k]).minus_spec(
            quality::expected_quantile_spec(sorted, quality::grid_point_spec(k + 1)),
        ).abs_spec();
        e.nan() || e.le_spec(r.ks)
    } by {
        let e = errors[k];
    }
    if r.ks != cdf::zero() {
        let k = choose|k: int| 0 <= k < errors.len() && #[trigger] errors[k] == r.ks;
        let a = estimates[k];
    }
}

/// The digest that is assessed has the given capacity, the default scale and policy, and is
/// what the compression makes of the sorted data, each value once.
pub proof fn law_assessed_digests_hold_the_data<C>(
    sorted: Seq<Float64>,
    max_size: usize,
    compress: C,
    td: TDigest,
) where C: Fn(TDigest, usize, NormalizedStream) -> TDigest
    requires
        quality::digest_of_data(sorted, max_size, compress, td),
        cdf::ascending_numbers(sorted),
    ensures
        td@.max_size == max_size,
        td@.scale == ScaleFamily::K2,
        td@.policy == SingletonPolicy::Use,
        sorted.len() == 0 ==> td@.centroids.len() == 0 && td@.count == cdf::zero(),
        sorted.len() > 0 ==> exists|header: DigestView| #[trigger]
            digest::compressed(compress, header, merge_laws::value_runs(sorted, true), td@)
                && header.count.eq_spec(Float64::from_int_spec(sorted.len() as int)) && header.min
                == sorted[0] && header.max == sorted.last(),
{
    let base = DigestView::empty(max_size, ScaleFamily::K2, SingletonPolicy::Use);
    if sorted.len() > 0 {
        let header = base.header_for_values(sorted);
        let n = Float64::from_int_spec(sorted.len() as int);
        exact::lemma_of(false, 0);
        weights::lemma_constants();
        assert(base.centroids =~= Seq::empty());
        assert(!base.counted());
        lemma_adding_to_nothing(sorted.len() as int);
        assert(digest::compressed(
            compress,
            header,
            merge_laws::value_runs(sorted, true),
            td@,
        ));
        merge_laws::law_compression_gets_header_and_stream(
            compress,
            header,
            merge_laws::value_runs(sorted, true),
            td@,
        );
    }
}

/// Adding a count to nothing.
proof fn lemma_adding_to_nothing(n: int)
    requires
        0 < n,
    ensures
        cdf::zero().plus_spec(Float64::from_int_spec(n)).eq_spec(Float64::from_int_spec(n)),
{
    let x = Float64::from_int_spec(n);
    let u = Float64::unit();
    lemma_pow2_pos(1074);
    exact::lemma_of(false, 0);
    exact::lemma_zero_magnitude();
    assert(0 <= n * u) by (nonlinear_arith)
        requires
            0 < n,
            0 < u,
    ;
    exact::lemma_round_bounds(n * u, 1);
    exact::lemma_of(false, rounding::round(52, crate::float::INF_BODY as int, n * u, 1));
    if x.finite() {
        exact::lemma_plus(cdf::zero(), x);
        exact::lemma_rounded_exact(x, 1);
        assert(x.value() * 1 == x.value());
    }
}

} // verus!
