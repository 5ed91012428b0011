//! Laws of symmetry: what mirroring a digest, and scaling its weights, does to estimates.
use vstd::arithmetic::power2::*;
use vstd::prelude::*;

use crate::cdf;
use crate::cdf::{CdfModel, Slot};
use crate::cdf_laws;
use crate::centroid::Centroid;
use crate::exact;
use crate::float::Float64;
use crate::weights;

verus! {

/// `2^-54`, in units of the smallest positive number.
pub open spec fn eps() -> int {
    pow2(1020) as int
}

/// 1 is `2^54` times `2^-54`.
pub proof fn lemma_eps()
    ensures
        0 < eps(),
        Float64::unit() == 0x40_0000_0000_0000 * eps(),
{
    lemma_pow2_pos(1020);
    lemma2_to64_rest();
    lemma_pow2_adds(54, 1020);
}

/// The estimate `r` is `ideal / count` but for rounding.
pub open spec fn near(r: Float64, count: Float64, ideal: int) -> bool {
    let off = r.value() * count.value() - ideal;
    let part = 32 * (eps() * count.value());
    &&& r.finite()
    &&& -part <= off <= part
}

/// How far a value is from one mean to the next.
pub open spec fn way(m: CdfModel, val: Float64, i: int) -> Float64 {
    val.minus_spec(m.means[i - 1]).over_spec(m.means[i].minus_spec(m.means[i - 1]))
}

/// Where the interpolation between the means `i - 1` and `i` begins, in halves.
pub open spec fn start(m: CdfModel, i: int) -> int {
    cdf_laws::middle(m, i - 1) + cdf_laws::taken(m.weights[i - 1])
}

/// How far the interpolation between the means `i - 1` and `i` goes, in halves.
pub open spec fn span(m: CdfModel, i: int) -> int {
    weights::units(m.weights[i - 1]) + weights::units(m.weights[i]) - cdf_laws::taken(
        m.weights[i - 1],
    ) - cdf_laws::taken(m.weights[i])
}

/// The exact numerator between the means `i - 1` and `i`, at the rounded way `f`.
pub open spec fn ideal(m: CdfModel, i: int, f: int) -> int {
    start(m, i) * exact::h() * Float64::unit() + span(m, i) * exact::h() * f
}

/// The estimate at a mean.
pub proof fn lemma_near_at_mean(
    centroids: Seq<Centroid>,
    count: Float64,
    min: Float64,
    max: Float64,
    i: int,
)
    requires
        cdf_laws::sound(centroids, count, min, max),
        0 <= i < centroids.len(),
    ensures
        ({
            let m = CdfModel::of(centroids, count);
            near(
                m.at_mean(i),
                count,
                cdf_laws::middle(m, i) * exact::h() * Float64::unit(),
            )
        }),
{
    let m = CdfModel::of(centroids, count);
    let n = m.prefix[i].plus_spec(cdf::half().times_spec(m.weights[i]));
    let u = Float64::unit();
    let h = exact::h();
    let mid = cdf_laws::middle(m, i);
    let s = cdf_laws::play(m);
    weights::lemma_constants();
    cdf_laws::lemma_support(centroids, count, min, max);
    cdf_laws::lemma_numerator_at_mean(centroids, count, min, max, i);
    lemma_eps();
    let e_s = if s == 0 {
        0int
    } else {
        6
    };
    cdf_laws::lemma_play(m, count, e_s);
    cdf_laws::lemma_quotient_error(n, count);
    let ec = eps() * count.value();
    assert(0 <= ec) by (nonlinear_arith)
        requires
            ec == eps() * count.value(),
            0 < eps(),
            0 < count.value(),
    ;
    assert(mid * h * u - s * h * u <= n.value() * u <= mid * h * u + s * h * u) by (nonlinear_arith)
        requires
            (mid - s) * h <= n.value() <= (mid + s) * h,
            0 < u,
    ;
    lemma_times_six(e_s, ec);
}

proof fn lemma_times_six(e_s: int, ec: int)
    requires
        e_s == 0 || e_s == 6,
        0 <= ec,
    ensures
        0 <= e_s * ec <= 6 * ec,
{
    assert(0 <= e_s * ec <= 6 * ec) by (nonlinear_arith)
        requires
            0 <= e_s <= 6,
            0 <= ec,
    ;
}

/// The estimate between two means.
pub proof fn lemma_near_between(
    centroids: Seq<Centroid>,
    count: Float64,
    min: Float64,
    max: Float64,
    val: Float64,
    i: int,
)
    requires
        cdf_laws::sound(centroids, count, min, max),
        0 < i < centroids.len(),
        centroids[i - 1].mean.lt_spec(val),
        val.lt_spec(centroids[i].mean),
    ensures
        ({
            let m = CdfModel::of(centroids, count);
            let f = way(m, val, i);
            &&& f.finite()
            &&& 0 <= f.value() <= Float64::unit()
            &&& near(m.between(val, i), count, ideal(m, i, f.value()))
            &&& 0 <= span(m, i) * exact::h() <= count.value()
        }),
{
    let m = CdfModel::of(centroids, count);
    let f = way(m, val, i).value();
    let u = Float64::unit();
    let h = exact::h();
    let e = eps();
    let c = count.value();
    let wl = m.weights[i - 1];
    let wr = m.weights[i];
    let t = weights::total(m.weights);
    let b = start(m, i);
    let sp = span(m, i);
    let s = cdf_laws::play(m);
    weights::lemma_constants();
    cdf_laws::lemma_support(centroids, count, min, max);
    cdf_laws::lemma_prefix(centroids, count, min, max, i - 1);
    cdf_laws::lemma_prefix(centroids, count, min, max, i);
    let n = cdf_laws::lemma_numerator_between(centroids, count, min, max, val, i);
    lemma_eps();
    cdf_laws::lemma_quotient_error(n, count);
    let ec = e * c;
    assert(c == (2 * t) * h);
    assert(u <= c) by (nonlinear_arith)
        requires
            c == (2 * t) * h,
            u == 2 * h,
            1 <= t,
            0 < h,
    ;
    assert(u <= ec && c * u == 0x40_0000_0000_0000 * ec) by (nonlinear_arith)
        requires
            ec == e * c,
            u <= c,
            1 <= e,
            u == 0x40_0000_0000_0000 * e,
            0 < u,
    ;
    assert(0 <= b && 0 <= sp && b + sp <= 2 * t);
    assert(0 <= sp * h <= c) by (nonlinear_arith)
        requires
            0 <= sp <= 2 * t,
            c == (2 * t) * h,
            0 < h,
    ;
    if weights::units(wl) == 1 && weights::units(wr) == 1 {
        assert(sp * h * f == 0) by (nonlinear_arith)
            requires
                sp == 0,
        ;
    } else {
        let base = m.prefix[i - 1].plus_spec(wl.over_spec(cdf::two())).plus_spec(
            cdf::excluded(wl),
        );
        let whole = cdf::half().times_spec(wl.plus_spec(wr)).minus_spec(
            cdf::excluded(wl),
        ).minus_spec(cdf::excluded(wr));
        let frac = way(m, val, i);
        let part = whole.times_spec(frac);
        cdf_laws::lemma_part_of(frac, whole);
        // the part of the span is rounded
        let x = whole.value() * f;
        assert(0 <= x <= c * u) by (nonlinear_arith)
            requires
                x == (sp * h) * f,
                0 <= sp * h <= c,
                0 <= f <= u,
        ;
        exact::lemma_times(whole, frac);
        exact::lemma_relative_error(part, x, u);
        let off3 = part.value() * u - x;
        assert(-2 * ec <= off3 <= 2 * ec);
        // where the interpolation begins
        let e_s = if s == 0 {
            0int
        } else {
            6
        };
        cdf_laws::lemma_play(m, count, e_s);
        lemma_times_six(e_s, ec);
        let a = base.value();
        let off2 = a * u - b * h * u;
        assert(-(s * h * u) <= off2 <= s * h * u) by (nonlinear_arith)
            requires
                (b - s) * h <= a <= (b + s) * h,
                off2 == a * u - b * h * u,
                0 < u,
        ;
        // and the sum
        let y = a + part.value();
        exact::lemma_plus(base, part);
        lemma_sum_is_small(b, sp, s, t, h, a, part.value(), c);
        exact::lemma_relative_error(n, y, 1);
        let off1 = (n.value() - y) * u;
        assert(-8 * ec <= off1 <= 8 * ec) by (nonlinear_arith)
            requires
                -y <= (n.value() - y) * 0x20_0000_0000_0000 <= y,
                0 <= y <= 4 * c,
                off1 == (n.value() - y) * u,
                c * u == 0x40_0000_0000_0000 * ec,
                0 < u,
        {
            let z = n.value() - y;
            assert(-(y * u) <= (z * u) * 0x20_0000_0000_0000 <= y * u) by (nonlinear_arith)
                requires
                    -y <= z * 0x20_0000_0000_0000 <= y,
                    0 < u,
            ;
            assert(y * u <= 4 * (c * u)) by (nonlinear_arith)
                requires
                    y <= 4 * c,
                    0 < u,
            ;
        }
        assert(n.value() * u - ideal(m, i, f) == off1 + off2 + off3) by (nonlinear_arith)
            requires
                off1 == (n.value() - y) * u,
                y == a + part.value(),
                off2 == a * u - b * h * u,
                off3 == part.value() * u - x,
                x == (sp * h) * f,
                ideal(m, i, f) == b * h * u + sp * h * f,
        ;
    }
}

/// The two summands of a numerator are together at most four times the count.
proof fn lemma_sum_is_small(
    b: int,
    sp: int,
    s: int,
    t: int,
    h: int,
    a: int,
    part: int,
    c: int,
)
    requires
        0 <= b,
        b + sp <= 2 * t,
        s <= 3,
        1 <= t,
        0 < h,
        a <= (b + s) * h,
        part <= sp * h,
        c == (2 * t) * h,
    ensures
        a + part <= 4 * c,
{
    assert((b + s) * h + sp * h <= 4 * c) by (nonlinear_arith)
        requires
            b + sp <= 2 * t,
            s <= 3,
            1 <= t,
            0 < h,
            c == (2 * t) * h,
    ;
}

/// The centroids with their means mirrored at zero, in the opposite order.
pub open spec fn mirrored(centroids: Seq<Centroid>) -> Seq<Centroid> {
    Seq::new(
        centroids.len(),
        |i: int|
            {
                let c = centroids[centroids.len() - 1 - i];
                Centroid { mean: c.mean.negated_spec(), weight: c.weight, singleton: c.singleton }
            },
    )
}

/// What is before a mirrored centroid is what was behind it.
proof fn lemma_mirrored_before(ws: Seq<Float64>, vs: Seq<Float64>, j: int)
    requires
        vs.len() == ws.len(),
        forall|i: int| 0 <= i < ws.len() ==> #[trigger] vs[i] == ws[ws.len() - 1 - i],
        0 <= j <= ws.len(),
    ensures
        weights::total(vs.take(j)) + weights::total(ws.take(ws.len() - j)) == weights::total(ws),
    decreases j,
{
    let n = ws.len() as int;
    if j == 0 {
        assert(ws.take(n) =~= ws);
    } else {
        lemma_mirrored_before(ws, vs, j - 1);
        assert(vs.take(j).drop_last() =~= vs.take(j - 1));
        assert(vs.take(j).last() == ws[n - j]);
        let part = ws.take(n - j + 1);
        assert(part.drop_last() =~= ws.take(n - j));
        assert(part.last() == ws[n - j]);
    }
}

/// A mirrored digest is as sound.
pub proof fn lemma_mirrored_is_sound(
    centroids: Seq<Centroid>,
    count: Float64,
    min: Float64,
    max: Float64,
)
    requires
        cdf_laws::sound(centroids, count, min, max),
    ensures
        cdf_laws::sound(
            mirrored(centroids),
            count,
            max.negated_spec(),
            min.negated_spec(),
        ),
{
    let m = CdfModel::of(centroids, count);
    let o = mirrored(centroids);
    let w = CdfModel::of(o, count);
    let n = centroids.len() as int;
    cdf_laws::lemma_support(centroids, count, min, max);
    assert forall|i: int| 0 <= i < n implies !(#[trigger] w.means[i]).nan() && w.means[i].ordinal()
        == -m.means[n - 1 - i].ordinal() by {
        assert(!m.means[n - 1 - i].nan());
        exact::lemma_negated(m.means[n - 1 - i]);
    }
    assert forall|i: int, j: int| 0 <= i < j < w.means.len() implies (
    #[trigger] w.means[i]).ordinal() < (#[trigger] w.means[j]).ordinal() by {
        assert(m.means[n - 1 - j].ordinal() < m.means[n - 1 - i].ordinal());
    }
    exact::lemma_negated(min);
    exact::lemma_negated(max);
    assert(w.means[0].ordinal() == -m.means[n - 1].ordinal());
    assert(w.means[n - 1].ordinal() == -m.means[0].ordinal());
    exact::lemma_minus(max, min);
    exact::lemma_minus(min.negated_spec(), max.negated_spec());
    assert forall|i: int| 0 <= i < w.weights.len() implies weights::whole(
        #[trigger] w.weights[i],
    ) by {
        assert(w.weights[i] == m.weights[n - 1 - i]);
    }
    lemma_mirrored_before(m.weights, w.weights, n);
    assert(w.weights.take(n) =~= w.weights);
    assert(m.weights.take(0) =~= Seq::<Float64>::empty());
}

/// The middle of a mirrored centroid.
proof fn lemma_mirrored_middle(
    centroids: Seq<Centroid>,
    count: Float64,
    min: Float64,
    max: Float64,
    i: int,
)
    requires
        cdf_laws::sound(centroids, count, min, max),
        0 <= i < centroids.len(),
    ensures
        ({
            let m = CdfModel::of(centroids, count);
            let w = CdfModel::of(mirrored(centroids), count);
            &&& cdf_laws::middle(w, centroids.len() - 1 - i) + cdf_laws::middle(m, i) == 2
                * weights::total(m.weights)
            &&& w.weights[centroids.len() - 1 - i] == m.weights[i]
        }),
{
    let m = CdfModel::of(centroids, count);
    let w = CdfModel::of(mirrored(centroids), count);
    let n = centroids.len() as int;
    assert forall|k: int| 0 <= k < n implies #[trigger] w.weights[k] == m.weights[n - 1 - k] by {}
    lemma_mirrored_before(m.weights, w.weights, n - 1 - i);
    let part = m.weights.take(i + 1);
    assert(part.drop_last() =~= m.weights.take(i));
    assert(part.last() == m.weights[i]);
}

/// A number and what is left of 1 without it are together 1, but for rounding.
proof fn lemma_complement_is_near(q: Float64)
    requires
        q.finite(),
        0 <= q.value() <= Float64::unit(),
    ensures
        ({
            let both = q.value() + cdf::one().minus_spec(q).value();
            Float64::unit() - eps() <= both <= Float64::unit() + eps()
        }),
        cdf::one().minus_spec(q).finite(),
{
    let r = cdf::one().minus_spec(q);
    let u = Float64::unit();
    weights::lemma_constants();
    exact::lemma_minus(cdf::one(), q);
    cdf_laws::lemma_rounding_error(r, u - q.value(), 1);
}

/// The ways from both sides are together the whole way, but for rounding.
proof fn lemma_ways(a: Float64, b: Float64, val: Float64, min: Float64, max: Float64)
    requires
        a.finite(),
        b.finite(),
        val.finite(),
        min.finite(),
        max.finite(),
        max.minus_spec(min).finite(),
        min.value() <= a.value() < val.value() < b.value() <= max.value(),
    ensures
        ({
            let there = val.minus_spec(a).over_spec(b.minus_spec(a));
            let back = val.negated_spec().minus_spec(b.negated_spec()).over_spec(
                a.negated_spec().minus_spec(b.negated_spec()),
            );
            let both = there.value() + back.value();
            Float64::unit() - 10 * eps() <= both <= Float64::unit() + 10 * eps()
        }),
{
    let u = Float64::unit();
    let e = eps();
    let g = b.minus_spec(a);
    let d = val.minus_spec(a);
    let k = val.negated_spec().minus_spec(b.negated_spec());
    let g2 = a.negated_spec().minus_spec(b.negated_spec());
    weights::lemma_constants();
    lemma_eps();
    exact::lemma_negated(a);
    exact::lemma_negated(b);
    exact::lemma_negated(val);
    cdf_laws::lemma_distance(a, b, min, max);
    cdf_laws::lemma_distance(a, val, min, max);
    cdf_laws::lemma_distance(val, b, min, max);
    exact::lemma_minus(val.negated_spec(), b.negated_spec());
    exact::lemma_minus(a.negated_spec(), b.negated_spec());
    let far = b.value() - a.value();
    let near = val.value() - a.value();
    assert(-val.value() - -b.value() == far - near);
    assert(-a.value() - -b.value() == far);
    assert(g2.ordinal() == g.ordinal());
    exact::lemma_value_order(g, g2);
    cdf_laws::lemma_part_of_gap(near, far, d, g);
    cdf_laws::lemma_part_of_gap(far - near, far, k, g2);
    exact::lemma_relative_error(d, near, 1);
    exact::lemma_relative_error(k, far - near, 1);
    exact::lemma_relative_error(g, far, 1);
    cdf_laws::lemma_quotient_error(d, g);
    cdf_laws::lemma_quotient_error(k, g2);
    let there = d.over_spec(g).value();
    let back = k.over_spec(g2).value();
    let (dv, kv, gv) = (d.value(), k.value(), g.value());
    // the distances are together the whole distance
    let off = dv + kv - gv;
    assert(-(2 * far) <= off * 0x20_0000_0000_0000 <= 2 * far);
    assert(far <= 2 * gv);
    assert(-(4 * gv) <= off * 0x20_0000_0000_0000 <= 4 * gv);
    let eg = e * gv;
    let og = off * u;
    assert(-(8 * eg) <= og <= 8 * eg) by (nonlinear_arith)
        requires
            -(4 * gv) <= off * 0x20_0000_0000_0000 <= 4 * gv,
            og == off * u,
            u == 0x40_0000_0000_0000 * e,
            eg == e * gv,
            0 < e,
    {
        assert(og == 2 * ((off * 0x20_0000_0000_0000) * e)) by (nonlinear_arith)
            requires
                og == off * u,
                u == 0x40_0000_0000_0000 * e,
        ;
        let y = off * 0x20_0000_0000_0000;
        assert(-(4 * eg) <= y * e <= 4 * eg) by (nonlinear_arith)
            requires
                -(4 * gv) <= y <= 4 * gv,
                eg == e * gv,
                0 < e,
        ;
    }
    assert(dv * u + kv * u == gv * u + og) by (nonlinear_arith)
        requires
            og == off * u,
            off == dv + kv - gv,
    ;
    let both = there + back;
    assert(both * gv == there * gv + back * gv) by (nonlinear_arith)
        requires
            both == there + back,
    ;
    assert(u - 10 * e <= both <= u + 10 * e) by (nonlinear_arith)
        requires
            gv * u - 10 * eg <= both * gv <= gv * u + 10 * eg,
            eg == e * gv,
            0 < gv,
    ;
}

/// Estimates whose ideals are together the count are together 1, but for rounding.
proof fn lemma_sum_of_near(r: Float64, q: Float64, count: Float64, x: int, y: int, more: int)
    requires
        near(r, count, x),
        near(q, count, y),
        0 < count.value(),
        x + y == count.value() * Float64::unit() + more,
        -(10 * (eps() * count.value())) <= more <= 10 * (eps() * count.value()),
    ensures
        Float64::unit() - 128 * eps() <= r.value() + q.value() <= Float64::unit() + 128 * eps(),
{
    let u = Float64::unit();
    let e = eps();
    let c = count.value();
    let ec = e * c;
    let both = r.value() + q.value();
    lemma_eps();
    assert(0 < ec) by (nonlinear_arith)
        requires
            ec == e * c,
            0 < e,
            0 < c,
    ;
    assert(both * c == r.value() * c + q.value() * c) by (nonlinear_arith)
        requires
            both == r.value() + q.value(),
    ;
    assert(u - 128 * e <= both <= u + 128 * e) by (nonlinear_arith)
        requires
            c * u - 128 * ec <= both * c <= c * u + 128 * ec,
            ec == e * c,
            0 < c,
    ;
}

/// Where a value stands among the means, its mirror image stands among the mirrored means.
proof fn lemma_mirrored_slot(means: Seq<Float64>, mirror: Seq<Float64>, val: Float64, slot: Slot)
    requires
        cdf::strictly_ascending_numbers(means),
        means.len() > 0,
        mirror.len() == means.len(),
        forall|i: int|
            0 <= i < means.len() ==> #[trigger] mirror[i] == means[means.len() - 1
                - i].negated_spec(),
        cdf::is_slot(means, val, slot),
    ensures
        cdf::is_slot(
            mirror,
            val.negated_spec(),
            match slot {
                Slot::Hit(i) => Slot::Hit(means.len() - 1 - i),
                Slot::Gap(i) => Slot::Gap(means.len() - i),
            },
        ),
{
    let n = means.len() as int;
    cdf_laws::lemma_ascending(means);
    exact::lemma_negated(val);
    assert forall|i: int| 0 <= i < n implies {
        let x = #[trigger] mirror[i];
        let y = means[n - 1 - i];
        &&& x.nan() == y.nan()
        &&& x.ordinal() == -y.ordinal()
    } by {
        exact::lemma_negated(means[n - 1 - i]);
    }
    match slot {
        Slot::Hit(i) => {
            let x = mirror[n - 1 - i];
            assert(x.ordinal() == -means[i].ordinal());
        },
        Slot::Gap(i) => {
            assert forall|j: int| 0 <= j < n - i implies (#[trigger] mirror[j]).lt_spec(
                val.negated_spec(),
            ) by {
                assert(val.lt_spec(means[n - 1 - j]));
            }
            assert forall|j: int| n - i <= j < n implies val.negated_spec().lt_spec(
                #[trigger] mirror[j],
            ) by {
                assert(means[n - 1 - j].lt_spec(val));
            }
        },
    }
}

/// The estimate of a mirrored digest at a mirrored value is what is left of 1 without the
/// estimate of the digest, but for `2^-47`.
pub proof fn law_mirrored_digest_estimates_the_complement(
    centroids: Seq<Centroid>,
    count: Float64,
    min: Float64,
    max: Float64,
    val: Float64,
    r: Float64,
    q: Float64,
)
    requires
        cdf_laws::sound(centroids, count, min, max),
        CdfModel::of(centroids, count).estimates(val, min, max, r),
        CdfModel::of(mirrored(centroids), count).estimates(
            val.negated_spec(),
            max.negated_spec(),
            min.negated_spec(),
            q,
        ),
    ensures
        Float64::unit() - pow2(1027) <= r.value() + q.value() <= Float64::unit() + pow2(1027),
{
    let m = CdfModel::of(centroids, count);
    let o = mirrored(centroids);
    let w = CdfModel::of(o, count);
    let n = centroids.len() as int;
    let (lo, hi, x) = (max.negated_spec(), min.negated_spec(), val.negated_spec());
    let u = Float64::unit();
    let h = exact::h();
    let t = weights::total(m.weights);
    let slot = choose|slot: Slot| #[trigger]
        cdf::is_slot(m.means, val, slot) && r == m.at_slot(val, min, max, slot);
    weights::lemma_constants();
    lemma_eps();
    lemma_pow2_unfold(1027);
    lemma_pow2_unfold(1026);
    lemma_pow2_unfold(1025);
    lemma_pow2_unfold(1024);
    lemma_pow2_unfold(1023);
    lemma_pow2_unfold(1022);
    lemma_pow2_unfold(1021);
    cdf_laws::lemma_support(centroids, count, min, max);
    lemma_mirrored_is_sound(centroids, count, min, max);
    assert forall|i: int| 0 <= i < n implies #[trigger] w.means[i] == m.means[n - 1
        - i].negated_spec() by {}
    cdf_laws::lemma_ascending(m.means);
    lemma_mirrored_slot(m.means, w.means, val, slot);
    let other = match slot {
        Slot::Hit(i) => Slot::Hit(n - 1 - i),
        Slot::Gap(i) => Slot::Gap(n - i),
    };
    cdf::lemma_slot_is_unique(w.means, x, other);
    assert(q == w.at_slot(x, lo, hi, other));
    let c = count.value();
    match slot {
        Slot::Hit(i) => {
            lemma_near_at_mean(centroids, count, min, max, i);
            lemma_near_at_mean(o, count, lo, hi, n - 1 - i);
            lemma_mirrored_middle(centroids, count, min, max, i);
            let a = cdf_laws::middle(m, i);
            let b = cdf_laws::middle(w, n - 1 - i);
            assert(a * h * u + b * h * u == c * u) by (nonlinear_arith)
                requires
                    a + b == 2 * t,
                    c == (2 * t) * h,
            ;
            lemma_no_more(count);
            lemma_sum_of_near(r, q, count, a * h * u, b * h * u, 0);
        },
        Slot::Gap(i) => {
            if i == 0 {
                lemma_mirrored_tail(centroids, count, min, max, val);
            } else if i == n {
                lemma_twice_mirrored(centroids);
                lemma_mirrored_tail(o, count, lo, hi, x);
                exact::lemma_negated(val);
                exact::lemma_same(val, x.negated_spec());
                exact::lemma_negated(x);
                exact::lemma_negated(lo);
                exact::lemma_negated(hi);
                exact::lemma_negated(min);
                exact::lemma_negated(max);
                exact::lemma_same(min, hi.negated_spec());
                exact::lemma_same(max, lo.negated_spec());
            } else {
                assert(m.means[i - 1].lt_spec(val));
                assert(val.lt_spec(m.means[i]));
                lemma_mirrored_between(centroids, count, min, max, val, i);
            }
        },
    }
}

/// Between two means, and between their mirror images.
proof fn lemma_mirrored_between(
    centroids: Seq<Centroid>,
    count: Float64,
    min: Float64,
    max: Float64,
    val: Float64,
    i: int,
)
    requires
        cdf_laws::sound(centroids, count, min, max),
        cdf_laws::sound(
            mirrored(centroids),
            count,
            max.negated_spec(),
            min.negated_spec(),
        ),
        0 < i < centroids.len(),
        centroids[i - 1].mean.lt_spec(val),
        val.lt_spec(centroids[i].mean),
    ensures
        ({
            let m = CdfModel::of(centroids, count);
            let w = CdfModel::of(mirrored(centroids), count);
            let both = m.between(val, i).value() + w.between(
                val.negated_spec(),
                centroids.len() - i,
            ).value();
            Float64::unit() - 128 * eps() <= both <= Float64::unit() + 128 * eps()
        }),
{
    let m = CdfModel::of(centroids, count);
    let o = mirrored(centroids);
    let w = CdfModel::of(o, count);
    let n = centroids.len() as int;
    let (lo, hi, x) = (max.negated_spec(), min.negated_spec(), val.negated_spec());
    let u = Float64::unit();
    let h = exact::h();
    let c = count.value();
    let t = weights::total(m.weights);
    let (a, b) = (centroids[i - 1].mean, centroids[i].mean);
    weights::lemma_constants();
    lemma_eps();
    cdf_laws::lemma_support(centroids, count, min, max);
    exact::lemma_negated(a);
    exact::lemma_negated(b);
    exact::lemma_negated(val);
    assert(o[n - i].mean == a.negated_spec());
    assert(o[n - i - 1].mean == b.negated_spec());
    lemma_near_between(centroids, count, min, max, val, i);
    lemma_near_between(o, count, lo, hi, x, n - i);
    lemma_mirrored_middle(centroids, count, min, max, i);
    lemma_mirrored_middle(centroids, count, min, max, i - 1);
    cdf_laws::lemma_prefix(centroids, count, min, max, i);
    assert(val.finite());
    exact::lemma_value_order(a, val);
    exact::lemma_value_order(val, b);
    lemma_ways(a, b, val, min, max);
    let f = way(m, val, i).value();
    let g = way(w, x, n - i).value();
    assert(w.means[n - i] == a.negated_spec());
    assert(w.means[n - i - 1] == b.negated_spec());
    let (sa, sb, sp) = (start(m, i), start(w, n - i), span(m, i));
    assert(span(w, n - i) == sp);
    assert(sa + sb + sp == 2 * t);
    let more = (sp * h) * (f + g - u);
    lemma_part_of_error(sp * h, f + g - u, c);
    lemma_ideals_add_up(sa, sb, sp, h, u, f, g, t, c, more);
    lemma_sum_of_near(
        m.between(val, i),
        w.between(x, n - i),
        count,
        ideal(m, i, f),
        ideal(w, n - i, g),
        more,
    );
}

/// A small error, taken of a part of the count.
proof fn lemma_part_of_error(s: int, z: int, c: int)
    requires
        0 <= s <= c,
        -(10 * eps()) <= z <= 10 * eps(),
    ensures
        -(10 * (eps() * c)) <= s * z <= 10 * (eps() * c),
{
    lemma_eps();
    let e = eps();
    assert(-(10 * (s * e)) <= s * z <= 10 * (s * e)) by (nonlinear_arith)
        requires
            0 <= s,
            -(10 * e) <= z <= 10 * e,
    ;
    assert(s * e <= e * c) by (nonlinear_arith)
        requires
            s <= c,
            0 < e,
    ;
}

proof fn lemma_ideals_add_up(
    sa: int,
    sb: int,
    sp: int,
    h: int,
    u: int,
    f: int,
    g: int,
    t: int,
    c: int,
    more: int,
)
    requires
        sa + sb + sp == 2 * t,
        c == (2 * t) * h,
        more == (sp * h) * (f + g - u),
    ensures
        (sa * h * u + sp * h * f) + (sb * h * u + sp * h * g) == c * u + more,
{
    let s = sp * h;
    assert(s * (f + g - u) == s * f + s * g - s * u) by (nonlinear_arith);
    let k = h * u;
    assert(sa * h * u == sa * k && sb * h * u == sb * k && s * u == sp * k && c * u == (2 * t) * k)
        by (nonlinear_arith)
        requires
            k == h * u,
            s == sp * h,
            c == (2 * t) * h,
    ;
    assert(sa * k + sb * k + sp * k == (2 * t) * k) by (nonlinear_arith)
        requires
            sa + sb + sp == 2 * t,
    ;
}

proof fn lemma_no_more(count: Float64)
    requires
        0 < count.value(),
    ensures
        0 <= eps() * count.value(),
{
    lemma_eps();
    assert(0 <= eps() * count.value()) by (nonlinear_arith)
        requires
            0 < eps(),
            0 < count.value(),
    ;
}

/// Mirrored twice, centroids are what they were.
proof fn lemma_twice_mirrored(centroids: Seq<Centroid>)
    ensures
        mirrored(mirrored(centroids)) == centroids,
{
    let o = mirrored(centroids);
    let n = centroids.len() as int;
    assert forall|i: int| 0 <= i < n implies #[trigger] mirrored(o)[i] == centroids[i] by {
        let c = centroids[i].mean;
        exact::lemma_negated(c);
        exact::lemma_negated(c.negated_spec());
        exact::lemma_same(c, c.negated_spec().negated_spec());
    }
    assert(mirrored(o) =~= centroids);
}

/// The left tail and the mirrored right tail.
proof fn lemma_mirrored_tail(
    centroids: Seq<Centroid>,
    count: Float64,
    min: Float64,
    max: Float64,
    val: Float64,
)
    requires
        cdf_laws::sound(centroids, count, min, max),
        cdf_laws::sound(
            mirrored(centroids),
            count,
            max.negated_spec(),
            min.negated_spec(),
        ),
        val.lt_spec(centroids[0].mean),
    ensures
        ({
            let m = CdfModel::of(centroids, count);
            let w = CdfModel::of(mirrored(centroids), count);
            let both = m.in_left_tail(val, min).value() + w.in_right_tail(
                val.negated_spec(),
                min.negated_spec(),
            ).value();
            Float64::unit() - eps() <= both <= Float64::unit() + eps()
        }),
{
    let m = CdfModel::of(centroids, count);
    let o = mirrored(centroids);
    let w = CdfModel::of(o, count);
    let n = centroids.len() as int;
    let (lo, hi, x) = (max.negated_spec(), min.negated_spec(), val.negated_spec());
    let u = Float64::unit();
    weights::lemma_constants();
    lemma_eps();
    cdf_laws::lemma_support(centroids, count, min, max);
    cdf_laws::lemma_edges(centroids, count, min, max);
    cdf_laws::lemma_edges(o, count, lo, hi);
    exact::lemma_negated(min);
    exact::lemma_negated(val);
    let m0 = m.means[0];
    assert(m0 == centroids[0].mean);
    exact::lemma_negated(m0);
    let mn = w.means[n - 1];
    assert(mn == m0.negated_spec());
    assert(o[n - 1].mean == mn);
    let w0 = m.weights[0];
    assert(w.weights[n - 1] == w0);
    assert(0 * exact::h() == 0) by (nonlinear_arith);
    if val.lt_spec(min) || !min.lt_spec(m0) {
        assert(m.in_left_tail(val, min) == cdf::zero());
        assert(w.in_right_tail(x, hi) == cdf::one());
    } else if val.eq_spec(min) {
        let q = cdf::half().over_spec(count);
        cdf_laws::lemma_quotient_error(cdf::half(), count);
        cdf_laws::lemma_fraction(cdf::half(), count);
        exact::lemma_value_order(cdf::zero(), q);
        exact::lemma_value_order(q, cdf::one());
        lemma_complement_is_near(q);
    } else {
        let a = cdf_laws::lemma_numerator_left(centroids, count, min, max, val);
        assert(o.last().mean.lt_spec(x));
        let b = cdf_laws::lemma_numerator_right(o, count, lo, hi, x);
        // the distances are the same
        exact::lemma_minus(m0, min);
        exact::lemma_minus(hi, mn);
        exact::lemma_minus(val, min);
        exact::lemma_minus(hi, x);
        exact::lemma_value_order(min, val);
        exact::lemma_value_order(val, m0);
        lemma_same_positive(m0.minus_spec(min), hi.minus_spec(mn));
        let d = val.minus_spec(min);
        cdf_laws::lemma_distance(min, val, min, max);
        cdf_laws::lemma_part_of_gap(
            val.value() - min.value(),
            val.value() - min.value(),
            d,
            d,
        );
        lemma_same_positive(d, hi.minus_spec(x));
        assert(w.weights.last() == w0);
        assert(w.means.last() == mn);
        assert(a == b);
        let q = a.over_spec(count);
        cdf_laws::lemma_fraction(a, count);
        cdf_laws::lemma_quotient_error(a, count);
        exact::lemma_value_order(cdf::zero(), q);
        exact::lemma_value_order(q, cdf::one());
        lemma_complement_is_near(q);
    }
}

/// A positive number is fixed by its place in the order.
proof fn lemma_same_positive(x: Float64, y: Float64)
    requires
        x.finite(),
        0 < x.value(),
        !y.nan(),
        x.ordinal() == y.ordinal(),
    ensures
        x == y,
{
    exact::lemma_zero_magnitude();
    exact::lemma_value_order(x, cdf::zero());
    weights::lemma_constants();
    assert(0 * exact::h() == 0) by (nonlinear_arith);
    x.lemma_magnitude_is_not_negative();
    exact::lemma_same(x, y);
}

} // verus!
