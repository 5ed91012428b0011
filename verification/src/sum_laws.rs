//! The sum of a digest: what merging keeps of it exactly, and how far it is rounded.
use vstd::prelude::*;

use crate::cdf;
use crate::centroid;
use crate::centroid::Centroid;
use crate::digest;
use crate::digest::{DigestView, TDigest};
use crate::digest_laws;
use crate::exact;
use crate::float::{Float64, INF_BODY};
use crate::merge_laws;
use crate::merges;
use crate::merges::NormalizedStream;
use crate::weights;

verus! {

/// The value of a number, or, where `unsigned`, its magnitude.
pub open spec fn size(x: Float64, unsigned: bool) -> int {
    if unsigned && x.value() < 0 {
        -x.value()
    } else {
        x.value()
    }
}

/// The exact sum of weighted means, in units of the smallest positive number; where
/// `unsigned`, that of their magnitudes.
pub open spec fn moment(items: Seq<Centroid>, unsigned: bool) -> int
    decreases items.len(),
{
    if items.len() == 0 {
        0
    } else {
        moment(items.drop_first(), unsigned) + weights::units(items[0].weight) * size(
            items[0].mean,
            unsigned,
        )
    }
}

/// The exact sum of weighted means over runs, or that of their magnitudes.
pub open spec fn moment_of_runs(runs: Seq<Seq<Centroid>>, unsigned: bool) -> int
    decreases runs.len(),
{
    if runs.len() == 0 {
        0
    } else {
        moment_of_runs(runs.drop_last(), unsigned) + moment(runs.last(), unsigned)
    }
}

/// Every mean in the runs is finite.
pub open spec fn finite_runs(runs: Seq<Seq<Centroid>>) -> bool {
    forall|i: int, k: int|
        0 <= i < runs.len() && 0 <= k < runs[i].len() ==> (#[trigger] runs[i][k]).mean.finite()
}

proof fn lemma_moment_without_head(runs: Seq<Seq<Centroid>>, i: int, unsigned: bool)
    requires
        0 <= i < runs.len(),
        runs[i].len() > 0,
        finite_runs(runs),
    ensures
        finite_runs(merges::without_head(runs, i)),
        moment_of_runs(runs, unsigned) == moment_of_runs(merges::without_head(runs, i), unsigned)
            + weights::units(runs[i][0].weight) * size(runs[i][0].mean, unsigned),
    decreases runs.len(),
{
    let next = merges::without_head(runs, i);
    assert forall|j: int, k: int| 0 <= j < next.len() && 0 <= k < next[j].len() implies (
    #[trigger] next[j][k]).mean.finite() by {
        if j == i {
            assert(next[j][k] == runs[j][k + 1]);
        } else {
            assert(next[j][k] == runs[j][k]);
        }
    }
    let front = runs.drop_last();
    if i == runs.len() - 1 {
        assert(next.drop_last() =~= front);
    } else {
        assert(next.drop_last() =~= merges::without_head(front, i));
        assert forall|j: int, k: int| 0 <= j < front.len() && 0 <= k < front[j].len() implies (
        #[trigger] front[j][k]).mean.finite() by {
            assert(front[j][k] == runs[j][k]);
        }
        lemma_moment_without_head(front, i, unsigned);
    }
}

proof fn lemma_take_equal_moment(
    runs: Seq<Seq<Centroid>>,
    mean: Float64,
    w: Float64,
    singleton: bool,
    unsigned: bool,
)
    requires
        finite_runs(runs),
        mean.finite(),
        weights::whole_runs(runs),
        weights::whole(w),
        weights::units(w) + weights::counted_runs(runs) <= 0x20_0000_0000_0000,
    ensures
        ({
            let (total_w, s, rest) = merges::take_equal(runs, mean, w, singleton);
            &&& finite_runs(rest)
            &&& weights::units(total_w) * size(mean, unsigned) + moment_of_runs(rest, unsigned)
                == weights::units(w) * size(mean, unsigned) + moment_of_runs(runs, unsigned)
        }),
    decreases merges::total_len(runs),
{
    let i = merges::best(runs);
    if merges::is_best(runs, i) && runs[i][0].mean.eq_spec(mean) {
        let c = runs[i][0];
        let next = merges::without_head(runs, i);
        let v = w.plus_spec(c.weight);
        let (a, b) = (weights::units(w), weights::units(c.weight));
        merges::lemma_without_head_is_shorter(runs, i);
        weights::lemma_counted_without_head(runs, i);
        weights::lemma_counted_runs_is_not_negative(next);
        exact::lemma_halves_plus(w, 2 * a, c.weight, 2 * b);
        weights::lemma_units(v, a + b);
        lemma_moment_without_head(runs, i, unsigned);
        lemma_take_equal_moment(next, mean, v, singleton && c.singleton, unsigned);
        assert(c.mean.finite());
        exact::lemma_value_order(c.mean, mean);
        let x = size(mean, unsigned);
        assert((a + b) * x == a * x + b * x) by (nonlinear_arith);
    }
}

/// Merging runs keeps the exact sum of weighted means, and that of their magnitudes.
pub proof fn law_merged_runs_keep_the_moment(runs: Seq<Seq<Centroid>>, unsigned: bool)
    requires
        finite_runs(runs),
        weights::whole_runs(runs),
        weights::counted_runs(runs) <= 0x20_0000_0000_0000,
    ensures
        moment(merges::merged_runs(runs), unsigned) == moment_of_runs(runs, unsigned),
    decreases merges::total_len(runs),
{
    let out = merges::merged_runs(runs);
    let i = merges::best(runs);
    if merges::is_best(runs, i) {
        let c = runs[i][0];
        let next = merges::without_head(runs, i);
        let w = Float64::zero_spec(false).plus_spec(c.weight);
        let (first, rest) = merges::merge_step(runs);
        merges::lemma_merge_step_is_shorter(runs);
        weights::lemma_constants();
        weights::lemma_counted_without_head(runs, i);
        weights::lemma_counted_runs_is_not_negative(next);
        exact::lemma_halves_plus(
            Float64::zero_spec(false),
            0,
            c.weight,
            2 * weights::units(c.weight),
        );
        weights::lemma_units(w, weights::units(c.weight));
        weights::lemma_take_equal_counts(next, c.mean, w, c.singleton);
        lemma_moment_without_head(runs, i, unsigned);
        assert(c.mean.finite());
        lemma_take_equal_moment(next, c.mean, w, c.singleton, unsigned);
        law_merged_runs_keep_the_moment(rest, unsigned);
        assert(out.drop_first() =~= merges::merged_runs(rest));
    } else {
        if !merges::exhausted(runs) {
            merges::lemma_best_exists(runs);
        }
        lemma_exhausted_moment(runs, unsigned);
    }
}

proof fn lemma_exhausted_moment(runs: Seq<Seq<Centroid>>, unsigned: bool)
    requires
        merges::exhausted(runs),
    ensures
        moment_of_runs(runs, unsigned) == 0,
    decreases runs.len(),
{
    if runs.len() > 0 {
        let front = runs.drop_last();
        assert(forall|j: int| 0 <= j < front.len() ==> front[j] == runs[j]);
        assert(runs[runs.len() - 1].len() == 0);
        lemma_exhausted_moment(front, unsigned);
    }
}

/// Every mean is finite.
pub open spec fn finite_means(items: Seq<Centroid>) -> bool {
    forall|i: int| 0 <= i < items.len() ==> (#[trigger] items[i]).mean.finite()
}

/// The moment, from the last centroid.
proof fn lemma_moment_of_last(items: Seq<Centroid>, unsigned: bool)
    requires
        items.len() > 0,
    ensures
        moment(items, unsigned) == moment(items.drop_last(), unsigned) + weights::units(
            items.last().weight,
        ) * size(items.last().mean, unsigned),
    decreases items.len(),
{
    if items.len() == 1 {
        assert(items.drop_first() =~= Seq::<Centroid>::empty());
        assert(items.drop_last() =~= Seq::<Centroid>::empty());
    } else {
        lemma_moment_of_last(items.drop_first(), unsigned);
        assert(items.drop_last().drop_first() =~= items.drop_first().drop_last());
    }
}

/// A moment is at most the moment of the magnitudes.
proof fn lemma_moment_is_bounded(items: Seq<Centroid>)
    requires
        weights::all_whole(items),
    ensures
        0 <= moment(items, true),
        -moment(items, true) <= moment(items, false) <= moment(items, true),
    decreases items.len(),
{
    if items.len() > 0 {
        let rest = items.drop_first();
        assert forall|i: int| 0 <= i < rest.len() implies weights::whole(
            (#[trigger] rest[i]).weight,
        ) by {
            assert(rest[i] == items[i + 1]);
        }
        lemma_moment_is_bounded(rest);
        let k = weights::units(items[0].weight);
        let (x, y) = (size(items[0].mean, false), size(items[0].mean, true));
        assert(weights::whole(items[0].weight));
        assert(0 <= k * y && -(k * y) <= k * x <= k * y) by (nonlinear_arith)
            requires
                1 <= k,
                0 <= y,
                -y <= x <= y,
        ;
    }
}

/// A number that does not overflow rounds to a number, by at most `2^-53` of it.
pub proof fn lemma_signed_rounding(x: Float64, num: int, den: int)
    requires
        !x.nan(),
        x.ordinal() == exact::rounded_ordinal(num, den),
        0 < den,
        -(exact::largest() * den) <= num <= exact::largest() * den,
    ensures
        x.finite(),
        ({
            let off = x.value() * den - num;
            let a = if num < 0 {
                -num
            } else {
                num
            };
            ||| -a <= off * 0x20_0000_0000_0000 <= a
            ||| -den <= 2 * off <= den
        }),
        den == 1 ==> {
            let off = x.value() - num;
            let a = if num < 0 {
                -num
            } else {
                num
            };
            -a <= off * 0x20_0000_0000_0000 <= a
        },
{
    let big = exact::lemma_largest();
    let low = Float64::of(true, INF_BODY - 1);
    let most = exact::largest();
    assert(-(most * den) == (-most) * den) by (nonlinear_arith);
    exact::lemma_rounded_at_most(num, den, big);
    exact::lemma_rounded_at_least(num, den, low);
    if num < 0 {
        let y = x.negated_spec();
        exact::lemma_negated(x);
        assert((-x.value()) * den == -(x.value() * den)) by (nonlinear_arith);
        exact::lemma_relative_error(y, -num, den);
    } else {
        exact::lemma_relative_error(x, num, den);
    }
}

/// A weighted mean is rounded by at most `2^-53` of it.
proof fn lemma_weighted_mean(c: Centroid)
    requires
        c.mean.finite(),
        weights::whole(c.weight),
        weights::units(c.weight) * size(c.mean, true) <= exact::largest(),
    ensures
        ({
            let p = c.weight.times_spec(c.mean);
            let k = weights::units(c.weight);
            let off = p.value() - k * size(c.mean, false);
            let a = k * size(c.mean, true);
            &&& p.finite()
            &&& 0 <= a
            &&& -a <= off * 0x20_0000_0000_0000 <= a
        }),
{
    let u = Float64::unit();
    let p = c.weight.times_spec(c.mean);
    let k = weights::units(c.weight);
    let v = c.mean.value();
    let s = size(c.mean, true);
    let num = c.weight.value() * v;
    weights::lemma_constants();
    exact::lemma_times(c.weight, c.mean);
    let kv = k * v;
    let a = k * s;
    assert(num == kv * u) by (nonlinear_arith)
        requires
            num == ((2 * k) * exact::h()) * v,
            u == 2 * exact::h(),
            kv == k * v,
    ;
    assert(0 <= a && -a <= kv <= a) by (nonlinear_arith)
        requires
            1 <= k,
            0 <= s,
            -s <= v <= s,
            a == k * s,
            kv == k * v,
    ;
    assert(v < 0 ==> kv <= 0) by (nonlinear_arith)
        requires
            1 <= k,
            kv == k * v,
    ;
    let size_of = if kv < 0 {
        -kv
    } else {
        kv
    };
    let most = exact::largest();
    assert(-(most * u) <= kv * u <= most * u) by (nonlinear_arith)
        requires
            -a <= kv <= a,
            a <= most,
            0 < u,
    ;
    lemma_signed_rounding(p, num, u);
    let off = p.value() - kv;
    assert(p.value() * u - num == off * u) by (nonlinear_arith)
        requires
            num == kv * u,
            off == p.value() - kv,
    ;
    let ou = off * u;
    let t = off * 0x20_0000_0000_0000;
    assert(ou * 0x20_0000_0000_0000 == t * u) by (nonlinear_arith)
        requires
            ou == off * u,
            t == off * 0x20_0000_0000_0000,
    ;
    if -u <= 2 * ou <= u {
        assert(off == 0) by (nonlinear_arith)
            requires
                -u <= 2 * ou <= u,
                ou == off * u,
                0 < u,
        ;
    } else {
        assert(-(size_of * u) <= t * u <= size_of * u) by {
            assert(num < 0 <==> kv < 0) by (nonlinear_arith)
                requires
                    num == kv * u,
                    0 < u,
            ;
            assert((-kv) * u == -(kv * u)) by (nonlinear_arith);
        }
        assert(-size_of <= t <= size_of) by (nonlinear_arith)
            requires
                -(size_of * u) <= t * u <= size_of * u,
                0 < u,
        ;
    }
}

/// A sum of so many terms does not overflow: the sum of their magnitudes is at most the
/// largest finite number, also with the part by which the sum may be rounded.
pub open spec fn representable(len: int, magnitudes: int) -> bool {
    &&& len < 0x10_0000_0000_0000
    &&& (0x10_0000_0000_0000 + len + 1) * magnitudes <= 0x10_0000_0000_0000 * exact::largest()
}

/// The sum of weighted means is rounded by at most `2^-52` of the sum of their magnitudes
/// for each of them, and once more.
pub proof fn law_sum_of_weighted_means_is_near(items: Seq<Centroid>)
    requires
        finite_means(items),
        weights::all_whole(items),
        representable(items.len() as int, moment(items, true)),
    ensures
        ({
            let s = merges::weighted_mean_sum(items);
            let part = (items.len() + 1) * moment(items, true);
            &&& s.finite()
            &&& -part <= (s.value() - moment(items, false)) * 0x10_0000_0000_0000 <= part
        }),
    decreases items.len(),
{
    let s = merges::weighted_mean_sum(items);
    weights::lemma_constants();
    lemma_moment_is_bounded(items);
    let p52 = 0x10_0000_0000_0000int;
    let most = exact::largest();
    if items.len() == 0 {
        assert(0 * exact::h() == 0) by (nonlinear_arith);
    } else {
        let rest = items.drop_last();
        let c = items.last();
        let n = items.len() as int;
        assert forall|i: int| 0 <= i < rest.len() implies weights::whole(
            (#[trigger] rest[i]).weight,
        ) && rest[i].mean.finite() by {
            assert(rest[i] == items[i]);
        }
        assert(weights::whole(items[n - 1].weight) && items[n - 1].mean.finite());
        lemma_moment_of_last(items, false);
        lemma_moment_of_last(items, true);
        lemma_moment_is_bounded(rest);
        let k = weights::units(c.weight);
        let a = k * size(c.mean, true);
        let e = k * size(c.mean, false);
        assert(0 <= a) by (nonlinear_arith)
            requires
                a == k * size(c.mean, true),
                1 <= k,
                0 <= size(c.mean, true),
        ;
        let (before, all) = (moment(rest, true), moment(items, true));
        assert((p52 + n) * before <= (p52 + n + 1) * all && p52 * all + n * all + all == (p52 + n
            + 1) * all && n * before <= n * all) by (nonlinear_arith)
            requires
                0 <= before <= all,
                0 <= n,
                0 <= p52,
        ;
        assert(0 <= n * all) by (nonlinear_arith)
            requires
                0 <= n,
                0 <= all,
        ;
        assert(all <= most);
        law_sum_of_weighted_means_is_near(rest);
        lemma_weighted_mean(c);
        let r = merges::weighted_mean_sum(rest);
        let p = c.weight.times_spec(c.mean);
        let v = r.value() + p.value();
        let off = r.value() - moment(rest, false);
        let oft = p.value() - e;
        assert(n * before <= 0x10_0000_0000_0000 * before) by (nonlinear_arith)
            requires
                n <= 0x10_0000_0000_0000,
                0 <= before,
        ;
        assert(-(2 * before) <= r.value() <= 2 * before);
        assert(-a <= e <= a) by (nonlinear_arith)
            requires
                a == k * size(c.mean, true),
                e == k * size(c.mean, false),
                1 <= k,
                -size(c.mean, true) <= size(c.mean, false) <= size(c.mean, true),
        ;
        assert(-(2 * a) <= p.value() <= 2 * a);
        assert(-(2 * all) <= v <= 2 * all);
        assert(-most <= v <= most);
        exact::lemma_plus(r, p);
        lemma_signed_rounding(s, v, 1);
        let ofs = s.value() - v;
        assert(-all <= ofs * 0x10_0000_0000_0000 <= all);
        assert(-a <= (2 * oft) * 0x10_0000_0000_0000 <= a);
        assert((n + 1) * all == n * before + n * a + all) by (nonlinear_arith)
            requires
                all == before + a,
        ;
        assert(a <= n * a) by (nonlinear_arith)
            requires
                1 <= n,
                0 <= a,
        ;
    }
}

/// What the sums of the digests that take part are together.
pub open spec fn sums(digests: Seq<DigestView>) -> int
    decreases digests.len(),
{
    if digests.len() == 0 {
        0
    } else {
        sums(digests.drop_last()) + if digests.last().contributes() {
            digests.last().sum.value()
        } else {
            0
        }
    }
}

/// The sum of a digest is that of its weighted means, but for `k` times `2^-52` of the sum
/// of their magnitudes.
pub open spec fn summed(d: DigestView, k: int) -> bool {
    let part = k * moment(d.centroids, true);
    &&& finite_means(d.centroids)
    &&& -part <= (d.sum.value() - moment(d.centroids, false)) * 0x10_0000_0000_0000 <= part
}

/// The sums of digests are together those of the weighted means of all of them.
proof fn lemma_sums(digests: Seq<DigestView>, k: int)
    requires
        forall|i: int|
            0 <= i < digests.len() && (#[trigger] digests[i]).contributes() ==> summed(
                digests[i],
                k,
            ),
    ensures
        ({
            let runs = digest::gathered(digests).runs;
            let part = k * moment_of_runs(runs, true);
            &&& finite_runs(runs)
            &&& -part <= (sums(digests) - moment_of_runs(runs, false)) * 0x10_0000_0000_0000 <= part
        }),
    decreases digests.len(),
{
    let runs = digest::gathered(digests).runs;
    if digests.len() == 0 {
        assert(k * 0 == 0) by (nonlinear_arith);
    } else {
        let front = digests.drop_last();
        let d = digests.last();
        assert forall|i: int| 0 <= i < front.len() && (
        #[trigger] front[i]).contributes() implies summed(front[i], k) by {
            assert(front[i] == digests[i]);
        }
        lemma_sums(front, k);
        let before = digest::gathered(front).runs;
        if d.contributes() {
            assert(summed(digests[digests.len() - 1], k));
            assert(runs.drop_last() =~= before);
            assert(runs.last() == d.centroids);
            assert forall|i: int, j: int| 0 <= i < runs.len() && 0 <= j < runs[i].len() implies (
            #[trigger] runs[i][j]).mean.finite() by {
                if i < before.len() {
                    assert(runs[i][j] == before[i][j]);
                } else {
                    assert(runs[i][j] == d.centroids[j]);
                }
            }
            let (x, y) = (moment_of_runs(before, true), moment(d.centroids, true));
            assert(k * (x + y) == k * x + k * y) by (nonlinear_arith);
        }
    }
}

/// Merging consistent digests by a faithful compression gives the sum of their sums, but
/// for rounding: `2^-52` of the sum of the magnitudes of all weighted means for each centroid
/// of the merged stream, and what the sums were off before.
pub proof fn law_merged_sum_is_near<C>(digests: Seq<DigestView>, compress: C, r: TDigest, k: int)
    where C: Fn(TDigest, usize, NormalizedStream) -> TDigest
    requires
        merge_laws::faithful(compress),
        digest_laws::all_consistent(digests),
        0 < digest_laws::counted_digests(digests) <= 0x20_0000_0000_0000,
        digest::gathered(digests).merged(compress, r),
        forall|i: int|
            0 <= i < digests.len() && (#[trigger] digests[i]).contributes() ==> summed(
                digests[i],
                k,
            ),
        representable(
            merges::merged_runs(digest::gathered(digests).runs).len() as int,
            moment_of_runs(digest::gathered(digests).runs, true),
        ),
    ensures
        r@.sum.finite(),
        ({
            let runs = digest::gathered(digests).runs;
            let part = (k + merges::merged_runs(runs).len() + 1) * moment_of_runs(runs, true);
            -part <= (r@.sum.value() - sums(digests)) * 0x10_0000_0000_0000 <= part
        }),
{
    let runs = digest::gathered(digests).runs;
    let items = merges::merged_runs(runs);
    merge_laws::law_faithful_merge_of_digests(digests, compress, r);
    digest_laws::lemma_gathered(digests);
    lemma_sums(digests, k);
    law_merged_runs_keep_the_moment(runs, false);
    law_merged_runs_keep_the_moment(runs, true);
    weights::law_merged_runs_count_the_same(runs);
    merge_laws::lemma_merged_means_occur(runs, |x: Float64| x.finite());
    law_sum_of_weighted_means_is_near(items);
    let all = moment_of_runs(runs, true);
    let n = items.len() + 1;
    assert((k + n) * all == k * all + n * all) by (nonlinear_arith);
}

/// The exact sum of values, or that of their magnitudes.
pub open spec fn value_sum(values: Seq<Float64>, unsigned: bool) -> int
    decreases values.len(),
{
    if values.len() == 0 {
        0
    } else {
        size(values[0], unsigned) + value_sum(values.drop_first(), unsigned)
    }
}

/// A run of equal values adds up to one of them, times its length.
proof fn lemma_sum_of_run(values: Seq<Float64>, target: Float64, unsigned: bool)
    requires
        forall|i: int| 0 <= i < values.len() ==> (#[trigger] values[i]).finite(),
        target.finite(),
    ensures
        ({
            let n = merges::run_length(values, target);
            value_sum(values, unsigned) == n * size(target, unsigned) + value_sum(
                values.skip(n as int),
                unsigned,
            )
        }),
    decreases values.len(),
{
    let x = size(target, unsigned);
    if values.len() > 0 && values[0].eq_spec(target) {
        let rest = values.drop_first();
        let n = merges::run_length(rest, target);
        assert forall|i: int| 0 <= i < rest.len() implies (#[trigger] rest[i]).finite() by {
            assert(rest[i] == values[i + 1]);
        }
        assert(values[0].finite());
        exact::lemma_value_order(values[0], target);
        lemma_sum_of_run(rest, target, unsigned);
        merges::lemma_run_length_bound(rest, target);
        assert(values.skip(1 + n as int) =~= rest.skip(n as int));
        assert((n + 1) * x == n * x + x) by (nonlinear_arith);
    } else {
        assert(values.skip(0) =~= values);
        assert(0 * x == 0) by (nonlinear_arith);
    }
}

/// What a merge of values adds: each value once.
proof fn lemma_merged_values(
    centroids: Seq<Centroid>,
    values: Seq<Float64>,
    singletons: bool,
    unsigned: bool,
)
    requires
        finite_means(centroids),
        forall|i: int| 0 <= i < values.len() ==> (#[trigger] values[i]).finite(),
        values.len() <= 0x20_0000_0000_0000,
    ensures
        ({
            let out = merges::merged_by_mean(centroids, values, singletons);
            &&& finite_means(out)
            &&& moment(out, unsigned) == moment(centroids, unsigned) + value_sum(values, unsigned)
        }),
    decreases centroids.len() + values.len(),
{
    let out = merges::merged_by_mean(centroids, values, singletons);
    if values.len() > 0 {
        let v = values[0];
        let n = merges::first_run(values);
        let later = values.skip(n as int);
        let rest = values.drop_first();
        let run = merges::value_run(v, n, singletons);
        merges::lemma_run_length_bound(rest, v);
        assert(v.finite());
        assert(merges::run_length(values, v) == n);
        lemma_sum_of_run(values, v, unsigned);
        assert forall|i: int| 0 <= i < later.len() implies (#[trigger] later[i]).finite() by {
            assert(later[i] == values[i + n]);
        }
        exact::lemma_from_int(n as int);
        weights::lemma_units(run.weight, n as int);
        assert forall|i: int| 0 <= i < rest.len() implies (#[trigger] rest[i]).finite() by {
            assert(rest[i] == values[i + 1]);
        }
        if centroids.len() == 0 || v.lt_spec(centroids[0].mean) {
            let tail = merges::merged_by_mean(centroids, later, singletons);
            lemma_merged_values(centroids, later, singletons, unsigned);
            assert(out == seq![run] + tail);
            lemma_first_moment(run, tail, unsigned);
        } else {
            let c = centroids[0];
            let others = centroids.drop_first();
            assert(c.mean.finite());
            assert forall|i: int| 0 <= i < others.len() implies (
            #[trigger] others[i]).mean.finite() by {
                assert(others[i] == centroids[i + 1]);
            }
            if c.mean.lt_spec(v) {
                let tail = merges::merged_by_mean(others, values, singletons);
                lemma_merged_values(others, values, singletons, unsigned);
                assert(out == seq![c] + tail);
                lemma_first_moment(c, tail, unsigned);
            } else {
                let tail = merges::merged_by_mean(others, later, singletons);
                lemma_merged_values(others, later, singletons, unsigned);
                lemma_first_moment(run, tail, unsigned);
                lemma_first_moment(c, seq![run] + tail, unsigned);
                assert(out =~= seq![c] + (seq![run] + tail));
            }
        }
    }
}

/// One more centroid in front.
proof fn lemma_first_moment(c: Centroid, rest: Seq<Centroid>, unsigned: bool)
    requires
        c.mean.finite(),
        finite_means(rest),
    ensures
        finite_means(seq![c] + rest),
        moment(seq![c] + rest, unsigned) == moment(rest, unsigned) + weights::units(c.weight)
            * size(c.mean, unsigned),
{
    let out = seq![c] + rest;
    assert(out.drop_first() =~= rest);
    assert forall|i: int| 0 <= i < out.len() implies (#[trigger] out[i]).mean.finite() by {
        if i > 0 {
            assert(out[i] == rest[i - 1]);
        }
    }
}

/// Merging ascending finite values into a consistent digest by a faithful compression gives
/// the sum of the digest and the values, but for rounding: `2^-52` of the sum of the
/// magnitudes for each centroid of the merged stream, and what the sum was off before.
pub proof fn law_sum_grows_by_the_values<C>(
    d: DigestView,
    values: Seq<Float64>,
    compress: C,
    r: DigestView,
    k: int,
) where C: Fn(TDigest, usize, NormalizedStream) -> TDigest
    requires
        merge_laws::faithful(compress),
        digest_laws::consistent(d),
        summed(d, k),
        0 <= k,
        cdf::ascending_numbers(values),
        forall|i: int| 0 <= i < values.len() ==> (#[trigger] values[i]).finite(),
        values.len() > 0,
        weights::counted(d.centroids) + values.len() <= 0x20_0000_0000_0000,
        representable(
            d.stream_for_values(values).len() as int,
            moment(d.centroids, true) + value_sum(values, true),
        ),
        digest::compressed(compress, d.header_for_values(values), d.stream_for_values(values), r),
    ensures
        r.sum.finite(),
        ({
            let part = (k + d.stream_for_values(values).len() + 1) * (moment(d.centroids, true)
                + value_sum(values, true));
            -part <= (r.sum.value() - (d.sum.value() + value_sum(values, false)))
                * 0x10_0000_0000_0000 <= part
        }),
{
    let singletons = d.policy.marks_values_spec();
    let items = d.stream_for_values(values);
    merge_laws::law_faithful_merge_of_values(d, values, compress, r);
    weights::lemma_counted_is_not_negative(d.centroids);
    lemma_merged_values(d.centroids, values, singletons, false);
    lemma_merged_values(d.centroids, values, singletons, true);
    weights::law_merge_by_mean_counts_every_value(d.centroids, values, singletons);
    law_sum_of_weighted_means_is_near(items);
    lemma_value_sum_is_not_negative(values);
    let (a, b) = (moment(d.centroids, true), value_sum(values, true));
    let n = items.len() + 1;
    assert((k + n) * (a + b) == k * a + k * b + n * (a + b) && 0 <= k * b) by (nonlinear_arith)
        requires
            0 <= k,
            0 <= b,
    ;
}

proof fn lemma_value_sum_is_not_negative(values: Seq<Float64>)
    ensures
        0 <= value_sum(values, true),
    decreases values.len(),
{
    if values.len() > 0 {
        lemma_value_sum_is_not_negative(values.drop_first());
    }
}

/// Fusing equal means keeps the exact sum of weighted means, and that of their magnitudes.
pub proof fn law_coalescing_keeps_the_moment(items: Seq<Centroid>, unsigned: bool)
    requires
        finite_means(items),
        weights::all_whole(items),
        weights::counted(items) <= 0x20_0000_0000_0000,
    ensures
        finite_means(centroid::coalesced(items)),
        moment(centroid::coalesced(items), unsigned) == moment(items, unsigned),
    decreases items.len(),
{
    let out = centroid::coalesced(items);
    if items.len() > 0 {
        let front = items.drop_last();
        let c = items.last();
        let before = centroid::coalesced(front);
        assert(forall|i: int| 0 <= i < front.len() ==> front[i] == items[i]);
        assert(weights::whole(items[items.len() - 1].weight));
        assert(items[items.len() - 1].mean.finite());
        assert(weights::weights(items).drop_last() =~= weights::weights(front));
        assert(weights::weights(items).last() == c.weight);
        weights::lemma_counted_is_not_negative(front);
        weights::law_coalescing_counts_the_same(front);
        law_coalescing_keeps_the_moment(front, unsigned);
        lemma_moment_of_last(items, unsigned);
        lemma_moment_of_last(out, unsigned);
        if before.len() > 0 && before.last().mean.eq_spec(c.mean) {
            let last = before.last();
            let kept = before.drop_last();
            let pile = last.fused(c);
            let (a, b) = (weights::units(last.weight), weights::units(c.weight));
            assert(weights::whole(before[before.len() - 1].weight));
            assert(before[before.len() - 1].mean.finite());
            assert(forall|i: int| 0 <= i < kept.len() ==> kept[i] == before[i]);
            assert(weights::weights(before).drop_last() =~= weights::weights(kept));
            assert(weights::weights(before).last() == last.weight);
            weights::lemma_counted_is_not_negative(kept);
            exact::lemma_halves_plus(last.weight, 2 * a, c.weight, 2 * b);
            weights::lemma_units(pile.weight, a + b);
            exact::lemma_value_order(last.mean, c.mean);
            lemma_moment_of_last(before, unsigned);
            assert(out.drop_last() =~= kept);
            let x = size(last.mean, unsigned);
            assert((a + b) * x == a * x + b * x) by (nonlinear_arith);
            assert forall|i: int| 0 <= i < out.len() implies (#[trigger] out[i]).mean.finite() by {
                if i < kept.len() {
                    assert(out[i] == before[i]);
                }
            }
        } else {
            assert(out.drop_last() =~= before);
            assert forall|i: int| 0 <= i < out.len() implies (#[trigger] out[i]).mean.finite() by {
                if i < before.len() {
                    assert(out[i] == before[i]);
                }
            }
        }
    }
}

/// A digest that keeps all of a stream has the sum of its own weighted means, but for
/// rounding.
pub proof fn law_kept_digest_is_summed(items: Seq<Centroid>, r: DigestView)
    requires
        finite_means(items),
        weights::all_whole(items),
        weights::counted(items) <= 0x20_0000_0000_0000,
        representable(items.len() as int, moment(items, true)),
        r.centroids == centroid::coalesced(items),
        r.sum == merges::weighted_mean_sum(items),
    ensures
        summed(r, items.len() as int + 1),
{
    law_coalescing_keeps_the_moment(items, false);
    law_coalescing_keeps_the_moment(items, true);
    law_sum_of_weighted_means_is_near(items);
}

} // verus!
