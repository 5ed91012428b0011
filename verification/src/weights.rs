//! Weights that count values, and what merging does to their sum.
use vstd::arithmetic::div_mod::*;
use vstd::arithmetic::power2::*;
use vstd::prelude::*;

use crate::cdf;
use crate::centroid;
use crate::centroid::Centroid;
use crate::exact;
use crate::float::Float64;
use crate::float::{HALF_BITS, ONE_BITS, TWO_BITS};
use crate::merges;
use crate::rounding;

verus! {

/// A weight that counts values: a positive integer.
pub open spec fn whole(w: Float64) -> bool {
    &&& exact::is_halves(w, 2 * units(w))
    &&& 1 <= units(w)
}

/// How many values a weight counts.
pub open spec fn units(w: Float64) -> int {
    w.value() / Float64::unit()
}

/// How many values weights count together.
pub open spec fn total(ws: Seq<Float64>) -> int
    decreases ws.len(),
{
    if ws.len() == 0 {
        0
    } else {
        total(ws.drop_last()) + units(ws.last())
    }
}

/// The weights of centroids.
pub open spec fn weights(items: Seq<Centroid>) -> Seq<Float64> {
    items.map_values(|c: Centroid| c.weight)
}

/// Every centroid counts values.
pub open spec fn all_whole(items: Seq<Centroid>) -> bool {
    forall|i: int| 0 <= i < items.len() ==> whole((#[trigger] items[i]).weight)
}

/// How many values centroids count together.
pub open spec fn counted(items: Seq<Centroid>) -> int {
    total(weights(items))
}

pub proof fn lemma_constants()
    ensures
        exact::is_halves(cdf::half(), 1),
        exact::is_halves(cdf::one(), 2),
        exact::is_halves(cdf::two(), 4),
        exact::is_halves(cdf::zero(), 0),
        cdf::one().value() == Float64::unit(),
        Float64::unit() == 2 * exact::h(),
        0 < exact::h(),
{
    lemma2_to64();
    lemma2_to64_rest();
    lemma_pow2_pos(1073);
    lemma_pow2_unfold(1074);
    lemma_pow2_unfold(1075);
    let q = 0x10_0000_0000_0000int;
    rounding::lemma_magnitude_of_parts(52, 1021, q);
    rounding::lemma_magnitude_of_parts(52, 1022, q);
    rounding::lemma_magnitude_of_parts(52, 1023, q);
    lemma_pow2_adds(52, 1021);
    lemma_pow2_adds(52, 1022);
    lemma_pow2_adds(52, 1023);
    exact::lemma_zero_magnitude();
    assert(HALF_BITS == 1021 * 0x10_0000_0000_0000int + q);
    assert(ONE_BITS == 1022 * 0x10_0000_0000_0000int + q);
    assert(TWO_BITS == 1023 * 0x10_0000_0000_0000int + q);
    assert(cdf::half().magnitude() == pow2(1073));
    assert(cdf::one().magnitude() == pow2(1074));
    assert(cdf::two().magnitude() == pow2(1075));
    assert(0 * exact::h() == 0) by (nonlinear_arith);
}

/// Parts of a whole are no larger.
pub proof fn lemma_total_of_part(ws: Seq<Float64>, i: int)
    requires
        0 <= i <= ws.len(),
        forall|k: int| 0 <= k < ws.len() ==> whole(#[trigger] ws[k]),
    ensures
        0 <= total(ws.take(i)) <= total(ws),
        i < ws.len() ==> total(ws.take(i + 1)) == total(ws.take(i)) + units(ws[i]),
    decreases ws.len(),
{
    if i < ws.len() {
        assert(ws.take(i + 1).drop_last() =~= ws.take(i));
    }
    if ws.len() > 0 {
        let rest = ws.drop_last();
        assert(forall|k: int| 0 <= k < rest.len() ==> rest[k] == ws[k]);
        assert(whole(ws[ws.len() - 1]));
        if i < ws.len() {
            lemma_total_of_part(rest, i);
            assert(rest.take(i) =~= ws.take(i));
        } else {
            lemma_total_of_part(rest, rest.len() as int);
            assert(rest.take(rest.len() as int) =~= rest);
            assert(ws.take(i) =~= ws);
        }
    }
}

/// Weights that count values are added up exactly.
pub proof fn lemma_sum_is_total(ws: Seq<Float64>)
    requires
        forall|k: int| 0 <= k < ws.len() ==> whole(#[trigger] ws[k]),
        total(ws) <= 0x20_0000_0000_0000,
    ensures
        exact::is_halves(cdf::sum(ws), 2 * total(ws)),
    decreases ws.len(),
{
    lemma_constants();
    if ws.len() > 0 {
        let rest = ws.drop_last();
        assert(forall|k: int| 0 <= k < rest.len() ==> rest[k] == ws[k]);
        assert(whole(ws[ws.len() - 1]));
        lemma_total_of_part(ws, ws.len() - 1);
        assert(ws.take(ws.len() - 1) =~= rest);
        assert(ws.take(ws.len() as int) =~= ws);
        lemma_sum_is_total(rest);
        exact::lemma_halves_plus(cdf::sum(rest), 2 * total(rest), ws.last(), 2 * units(ws.last()));
    }
}

/// A weight of `n` counts `n` values.
pub proof fn lemma_units(w: Float64, n: int)
    requires
        exact::is_halves(w, 2 * n),
    ensures
        units(w) == n,
        1 <= n ==> whole(w),
{
    lemma_constants();
    let u = Float64::unit();
    assert((2 * n) * exact::h() == u * n) by (nonlinear_arith)
        requires
            u == 2 * exact::h(),
    ;
    lemma_div_multiples_vanish(n, u);
}

/// A sequence with one more weight in front counts so many more.
pub proof fn lemma_total_prepend(w: Float64, ws: Seq<Float64>)
    ensures
        total(seq![w] + ws) == units(w) + total(ws),
    decreases ws.len(),
{
    let all = seq![w] + ws;
    if ws.len() == 0 {
        assert(all.drop_last() =~= Seq::<Float64>::empty());
        assert(all.last() == w);
        assert(total(all.drop_last()) == 0);
    } else {
        assert(all.drop_last() =~= seq![w] + ws.drop_last());
        lemma_total_prepend(w, ws.drop_last());
    }
}

pub proof fn lemma_counted_prepend(c: Centroid, items: Seq<Centroid>)
    ensures
        counted(seq![c] + items) == units(c.weight) + counted(items),
{
    assert(weights(seq![c] + items) =~= seq![c.weight] + weights(items));
    lemma_total_prepend(c.weight, weights(items));
}

/// Centroids that count values count at least none.
pub proof fn lemma_counted_is_not_negative(items: Seq<Centroid>)
    requires
        all_whole(items),
    ensures
        0 <= counted(items),
{
    let ws = weights(items);
    assert forall|k: int| 0 <= k < ws.len() implies whole(#[trigger] ws[k]) by {
        assert(whole(items[k].weight));
    }
    lemma_total_of_part(ws, 0);
    assert(ws.take(0) =~= Seq::<Float64>::empty());
}

/// Merging values into centroids adds as many to what is counted as there are values.
pub proof fn law_merge_by_mean_counts_every_value(
    centroids: Seq<Centroid>,
    values: Seq<Float64>,
    singletons: bool,
)
    requires
        all_whole(centroids),
        cdf::no_nan(values),
        cdf::no_nan(centroids.map_values(|c: Centroid| c.mean)),
        values.len() <= 0x20_0000_0000_0000,
    ensures
        all_whole(merges::merged_by_mean(centroids, values, singletons)),
        counted(merges::merged_by_mean(centroids, values, singletons)) == counted(centroids)
            + values.len(),
    decreases centroids.len() + values.len(),
{
    let out = merges::merged_by_mean(centroids, values, singletons);
    if values.len() > 0 {
        merges::lemma_run_length_bound(values, values[0]);
        merges::lemma_run_length_bound(values.drop_first(), values[0]);
        let means = centroids.map_values(|c: Centroid| c.mean);
        if centroids.len() > 0 {
            let rest = centroids.drop_first();
            assert forall|i: int| 0 <= i < rest.len() implies whole(
                (#[trigger] rest[i]).weight,
            ) by {
                assert(rest[i] == centroids[i + 1]);
            }
            let rest_means = rest.map_values(|c: Centroid| c.mean);
            assert forall|i: int| 0 <= i < rest_means.len() implies !(
            #[trigger] rest_means[i]).nan() by {
                assert(rest_means[i] == means[i + 1]);
            }
            assert(centroids =~= seq![centroids[0]] + rest);
            lemma_counted_prepend(centroids[0], rest);
        }
        if centroids.len() == 0 || values[0].lt_spec(centroids[0].mean) {
            let n = merges::first_run(values);
            let run = merges::value_run(values[0], n, singletons);
            let rest = merges::merged_by_mean(centroids, values.skip(n as int), singletons);
            law_merge_by_mean_counts_every_value(centroids, values.skip(n as int), singletons);
            exact::lemma_from_int(n as int);
            lemma_units(run.weight, n as int);
            lemma_counted_prepend(run, rest);
            assert(out =~= seq![run] + rest);
            lemma_all_whole_prepend(run, rest);
        } else if centroids[0].mean.lt_spec(values[0]) {
            let rest = merges::merged_by_mean(centroids.drop_first(), values, singletons);
            law_merge_by_mean_counts_every_value(centroids.drop_first(), values, singletons);
            lemma_counted_prepend(centroids[0], rest);
            assert(whole(centroids[0].weight));
            lemma_all_whole_prepend(centroids[0], rest);
        } else {
            let n = merges::run_length(values, values[0]);
            let run = merges::value_run(values[0], n, singletons);
            let rest = merges::merged_by_mean(
                centroids.drop_first(),
                values.skip(n as int),
                singletons,
            );
            assert(values[0].eq_spec(values[0]));
            assert(n >= 1);
            law_merge_by_mean_counts_every_value(
                centroids.drop_first(),
                values.skip(n as int),
                singletons,
            );
            exact::lemma_from_int(n as int);
            lemma_units(run.weight, n as int);
            lemma_counted_prepend(run, rest);
            lemma_counted_prepend(centroids[0], seq![run] + rest);
            assert(out =~= seq![centroids[0]] + (seq![run] + rest));
            assert(whole(centroids[0].weight));
            lemma_all_whole_prepend(run, rest);
            lemma_all_whole_prepend(centroids[0], seq![run] + rest);
        }
    }
}

proof fn lemma_all_whole_prepend(c: Centroid, items: Seq<Centroid>)
    requires
        whole(c.weight),
        all_whole(items),
    ensures
        all_whole(seq![c] + items),
{
    let out = seq![c] + items;
    assert forall|i: int| 0 <= i < out.len() implies whole((#[trigger] out[i]).weight) by {
        if i > 0 {
            assert(out[i] == items[i - 1]);
        }
    }
}

/// Fusing equal means keeps what is counted.
pub proof fn law_coalescing_counts_the_same(items: Seq<Centroid>)
    requires
        all_whole(items),
        counted(items) <= 0x20_0000_0000_0000,
    ensures
        all_whole(centroid::coalesced(items)),
        counted(centroid::coalesced(items)) == counted(items),
    decreases items.len(),
{
    let out = centroid::coalesced(items);
    if items.len() > 0 {
        let front = items.drop_last();
        let c = items.last();
        let before = centroid::coalesced(front);
        assert(whole(items[items.len() - 1].weight));
        assert(forall|i: int| 0 <= i < front.len() ==> front[i] == items[i]);
        assert(weights(items).drop_last() =~= weights(front));
        assert(weights(items).last() == c.weight);
        law_coalescing_counts_the_same(front);
        if before.len() > 0 && before.last().mean.eq_spec(c.mean) {
            let last = before.last();
            let kept = before.drop_last();
            let pile = last.fused(c);
            assert(whole(before[before.len() - 1].weight));
            assert(weights(before).drop_last() =~= weights(kept));
            assert(weights(before).last() == last.weight);
            assert(forall|i: int| 0 <= i < kept.len() ==> kept[i] == before[i]);
            lemma_counted_is_not_negative(kept);
            exact::lemma_halves_plus(
                last.weight,
                2 * units(last.weight),
                c.weight,
                2 * units(c.weight),
            );
            lemma_units(pile.weight, units(last.weight) + units(c.weight));
            assert(out == kept.push(pile));
            assert(weights(out).drop_last() =~= weights(kept));
            assert(weights(out).last() == pile.weight);
            assert forall|i: int| 0 <= i < out.len() implies whole((#[trigger] out[i]).weight) by {
                if i < kept.len() {
                    assert(whole(before[i].weight));
                }
            }
        } else {
            assert(out == before.push(c));
            assert(weights(out).drop_last() =~= weights(before));
            assert(weights(out).last() == c.weight);
            assert forall|i: int| 0 <= i < out.len() implies whole((#[trigger] out[i]).weight) by {
                if i < before.len() {
                    assert(whole(before[i].weight));
                }
            }
        }
    }
}

/// The total weight of a normalized stream that counts values is exactly what it counts.
pub proof fn law_total_weight_is_exact(items: Seq<Centroid>)
    requires
        all_whole(items),
        counted(items) <= 0x20_0000_0000_0000,
    ensures
        exact::is_halves(merges::weight_sum(items), 2 * counted(items)),
        merges::weight_sum(items) == cdf::sum(weights(items)),
{
    lemma_weight_sum(items);
    let ws = weights(items);
    assert forall|k: int| 0 <= k < ws.len() implies whole(#[trigger] ws[k]) by {
        assert(whole(items[k].weight));
    }
    lemma_sum_is_total(ws);
}

proof fn lemma_weight_sum(items: Seq<Centroid>)
    ensures
        merges::weight_sum(items) == cdf::sum(weights(items)),
    decreases items.len(),
{
    if items.len() > 0 {
        assert(weights(items).drop_last() =~= weights(items.drop_last()));
        lemma_weight_sum(items.drop_last());
    }
}

/// How many values runs of centroids count together.
pub open spec fn counted_runs(runs: Seq<Seq<Centroid>>) -> int
    decreases runs.len(),
{
    if runs.len() == 0 {
        0
    } else {
        counted_runs(runs.drop_last()) + counted(runs.last())
    }
}

/// Every centroid of every run counts values.
pub open spec fn whole_runs(runs: Seq<Seq<Centroid>>) -> bool {
    forall|i: int| 0 <= i < runs.len() ==> all_whole(#[trigger] runs[i])
}

pub proof fn lemma_counted_runs_is_not_negative(runs: Seq<Seq<Centroid>>)
    requires
        whole_runs(runs),
    ensures
        0 <= counted_runs(runs),
    decreases runs.len(),
{
    if runs.len() > 0 {
        let front = runs.drop_last();
        assert(forall|i: int| 0 <= i < front.len() ==> front[i] == runs[i]);
        assert(all_whole(runs[runs.len() - 1]));
        lemma_counted_runs_is_not_negative(front);
        lemma_counted_is_not_negative(runs.last());
    }
}

/// A head that is taken counts for what the runs lose.
pub proof fn lemma_counted_without_head(runs: Seq<Seq<Centroid>>, i: int)
    requires
        whole_runs(runs),
        0 <= i < runs.len(),
        runs[i].len() > 0,
    ensures
        whole_runs(merges::without_head(runs, i)),
        counted_runs(merges::without_head(runs, i)) + units(runs[i][0].weight) == counted_runs(
            runs,
        ),
        whole(runs[i][0].weight),
        units(runs[i][0].weight) <= counted_runs(runs),
    decreases runs.len(),
{
    let next = merges::without_head(runs, i);
    let front = runs.drop_last();
    assert(all_whole(runs[i]));
    assert(whole(runs[i][0].weight));
    assert(forall|j: int| 0 <= j < front.len() ==> front[j] == runs[j]);
    assert forall|j: int| 0 <= j < next.len() implies all_whole(#[trigger] next[j]) by {
        assert(all_whole(runs[j]));
        if j == i {
            assert forall|k: int| 0 <= k < next[j].len() implies whole(
                (#[trigger] next[j][k]).weight,
            ) by {
                assert(next[j][k] == runs[i][k + 1]);
            }
        }
    }
    if i == runs.len() - 1 {
        assert(next.drop_last() =~= front);
        assert(runs[i] =~= seq![runs[i][0]] + runs[i].drop_first());
        lemma_counted_prepend(runs[i][0], runs[i].drop_first());
    } else {
        assert(next.drop_last() =~= merges::without_head(front, i));
        lemma_counted_without_head(front, i);
    }
    lemma_counted_runs_is_not_negative(next);
}

/// Taking heads moves what they count from the runs to the weight.
pub proof fn lemma_take_equal_counts(
    runs: Seq<Seq<Centroid>>,
    mean: Float64,
    w: Float64,
    singleton: bool,
)
    requires
        whole_runs(runs),
        whole(w),
        units(w) + counted_runs(runs) <= 0x20_0000_0000_0000,
    ensures
        ({
            let (total_w, s, rest) = merges::take_equal(runs, mean, w, singleton);
            &&& whole(total_w)
            &&& whole_runs(rest)
            &&& units(total_w) + counted_runs(rest) == units(w) + counted_runs(runs)
        }),
    decreases merges::total_len(runs),
{
    let i = merges::best(runs);
    if merges::is_best(runs, i) && runs[i][0].mean.eq_spec(mean) {
        let c = runs[i][0];
        let next = w.plus_spec(c.weight);
        merges::lemma_without_head_is_shorter(runs, i);
        lemma_counted_without_head(runs, i);
        exact::lemma_halves_plus(w, 2 * units(w), c.weight, 2 * units(c.weight));
        lemma_units(next, units(w) + units(c.weight));
        lemma_take_equal_counts(merges::without_head(runs, i), mean, next, singleton && c.singleton);
    }
}

/// Merging runs of centroids keeps what is counted.
pub proof fn law_merged_runs_count_the_same(runs: Seq<Seq<Centroid>>)
    requires
        whole_runs(runs),
        counted_runs(runs) <= 0x20_0000_0000_0000,
    ensures
        all_whole(merges::merged_runs(runs)),
        counted(merges::merged_runs(runs)) == counted_runs(runs),
    decreases merges::total_len(runs),
{
    let out = merges::merged_runs(runs);
    if merges::is_best(runs, merges::best(runs)) {
        let i = merges::best(runs);
        let c = runs[i][0];
        let (first, rest) = merges::merge_step(runs);
        let w = Float64::zero_spec(false).plus_spec(c.weight);
        lemma_constants();
        merges::lemma_merge_step_is_shorter(runs);
        lemma_counted_without_head(runs, i);
        exact::lemma_halves_plus(Float64::zero_spec(false), 0, c.weight, 2 * units(c.weight));
        lemma_units(w, units(c.weight));
        lemma_take_equal_counts(merges::without_head(runs, i), c.mean, w, c.singleton);
        lemma_counted_runs_is_not_negative(rest);
        law_merged_runs_count_the_same(rest);
        lemma_counted_prepend(first, merges::merged_runs(rest));
        lemma_all_whole_prepend(first, merges::merged_runs(rest));
    } else {
        if !merges::exhausted(runs) {
            merges::lemma_best_exists(runs);
        }
        lemma_exhausted_count_nothing(runs);
    }
}

proof fn lemma_exhausted_count_nothing(runs: Seq<Seq<Centroid>>)
    requires
        merges::exhausted(runs),
    ensures
        counted_runs(runs) == 0,
    decreases runs.len(),
{
    if runs.len() > 0 {
        let front = runs.drop_last();
        assert(forall|j: int| 0 <= j < front.len() ==> front[j] == runs[j]);
        assert(runs[runs.len() - 1].len() == 0);
        assert(weights(runs.last()) =~= Seq::<Float64>::empty());
        lemma_exhausted_count_nothing(front);
    }
}

} // verus!
