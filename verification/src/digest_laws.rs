//! What merging keeps of a digest, before anything is compressed.
use vstd::prelude::*;

use crate::cdf;
use crate::cdf::CdfModel;
use crate::cdf_laws;
use crate::centroid;
use crate::centroid::Centroid;
use crate::digest;
use crate::digest::DigestView;
use crate::exact;
use crate::float::Float64;
use crate::merges;
use crate::weights;

verus! {

/// The digest agrees with itself: its means are strictly increasing numbers between its
/// extremes, its weights count values, and their sum is its count, which is at most `2^53`.
pub open spec fn consistent(d: DigestView) -> bool {
    &&& centroid::sorted_numbers(d.centroids)
    &&& centroid::strictly_increasing(d.centroids)
    &&& weights::all_whole(d.centroids)
    &&& weights::counted(d.centroids) <= 0x20_0000_0000_0000
    &&& exact::is_halves(d.count, 2 * weights::counted(d.centroids))
    &&& d.centroids.len() > 0 ==> {
        &&& d.min.le_spec(d.centroids[0].mean)
        &&& d.centroids.last().mean.le_spec(d.max)
    }
}

/// All means lie between the positions `lo` and `hi` of the numeric order.
pub open spec fn within(items: Seq<Centroid>, lo: int, hi: int) -> bool {
    forall|i: int| 0 <= i < items.len() ==> lo <= (#[trigger] items[i]).mean.ordinal() <= hi
}

/// All values lie between the positions `lo` and `hi` of the numeric order.
spec fn values_within(values: Seq<Float64>, lo: int, hi: int) -> bool {
    forall|i: int| 0 <= i < values.len() ==> lo <= (#[trigger] values[i]).ordinal() <= hi
}

/// A number in front of sorted ones that are not below it.
proof fn lemma_sorted_prepend(c: Centroid, rest: Seq<Centroid>, hi: int)
    requires
        !c.mean.nan(),
        centroid::sorted_numbers(rest),
        within(rest, c.mean.ordinal(), hi),
    ensures
        centroid::sorted_numbers(seq![c] + rest),
{
    let out = seq![c] + rest;
    assert forall|i: int| 0 <= i < out.len() implies !(#[trigger] out[i]).mean.nan() by {
        if i > 0 {
            assert(out[i] == rest[i - 1]);
        }
    }
    assert forall|i: int, j: int| 0 <= i <= j < out.len() implies (
    #[trigger] out[i]).mean.ordinal() <= (#[trigger] out[j]).mean.ordinal() by {
        if j > 0 {
            assert(out[j] == rest[j - 1]);
        }
        if i > 0 {
            assert(out[i] == rest[i - 1]);
        }
    }
}

/// The rest of sorted centroids.
proof fn lemma_rest(centroids: Seq<Centroid>, hi: int)
    requires
        centroid::sorted_numbers(centroids),
        centroids.len() > 0,
        within(centroids, centroids[0].mean.ordinal(), hi),
    ensures
        centroid::sorted_numbers(centroids.drop_first()),
        within(centroids.drop_first(), centroids[0].mean.ordinal(), hi),
{
    let rest = centroids.drop_first();
    assert(forall|i: int| 0 <= i < rest.len() ==> rest[i] == centroids[i + 1]);
    assert forall|i: int, j: int| 0 <= i <= j < rest.len() implies (
    #[trigger] rest[i]).mean.ordinal() <= (#[trigger] rest[j]).mean.ordinal() by {
        assert(rest[i] == centroids[i + 1]);
        assert(rest[j] == centroids[j + 1]);
    }
    assert forall|i: int| 0 <= i < rest.len() implies !(#[trigger] rest[i]).mean.nan() by {
        assert(rest[i] == centroids[i + 1]);
    }
}

/// The rest of sorted values.
proof fn lemma_values_rest(values: Seq<Float64>, n: int, hi: int)
    requires
        cdf::ascending_numbers(values),
        0 < n <= values.len(),
        values_within(values, values[0].ordinal(), hi),
    ensures
        cdf::ascending_numbers(values.skip(n)),
        values_within(values.skip(n), values[0].ordinal(), hi),
{
    let rest = values.skip(n);
    assert forall|i: int, j: int| 0 <= i <= j < rest.len() implies (
    #[trigger] rest[i]).ordinal() <= (#[trigger] rest[j]).ordinal() by {
        assert(rest[i] == values[i + n]);
        assert(rest[j] == values[j + n]);
    }
    assert forall|i: int| 0 <= i < rest.len() implies !(#[trigger] rest[i]).nan() by {
        assert(rest[i] == values[i + n]);
    }
    assert forall|i: int| 0 <= i < rest.len() implies values[0].ordinal() <= (
    #[trigger] rest[i]).ordinal() <= hi by {
        assert(rest[i] == values[i + n]);
    }
}

/// Merging sorted values with sorted centroids sorts them, within the same bounds.
proof fn lemma_merge_by_mean_sorts(
    centroids: Seq<Centroid>,
    values: Seq<Float64>,
    singletons: bool,
    lo: int,
    hi: int,
)
    requires
        centroid::sorted_numbers(centroids),
        cdf::ascending_numbers(values),
        within(centroids, lo, hi),
        values_within(values, lo, hi),
    ensures
        centroid::sorted_numbers(merges::merged_by_mean(centroids, values, singletons)),
        within(merges::merged_by_mean(centroids, values, singletons), lo, hi),
        merges::merged_by_mean(centroids, values, singletons).len() == 0 ==> values.len() == 0,
    decreases centroids.len() + values.len(),
{
    let out = merges::merged_by_mean(centroids, values, singletons);
    if values.len() > 0 {
        let v = values[0];
        merges::lemma_run_length_bound(values, v);
        merges::lemma_run_length_bound(values.drop_first(), v);
        assert(!v.nan());
        assert(values_within(values, v.ordinal(), hi));
        if centroids.len() == 0 || v.lt_spec(centroids[0].mean) {
            let n = merges::first_run(values);
            let run = merges::value_run(v, n, singletons);
            let rest = merges::merged_by_mean(centroids, values.skip(n as int), singletons);
            lemma_values_rest(values, n as int, hi);
            assert(within(centroids, v.ordinal(), hi)) by {
                assert forall|i: int| 0 <= i < centroids.len() implies v.ordinal() <= (
                #[trigger] centroids[i]).mean.ordinal() <= hi by {
                    assert(centroids[0].mean.ordinal() <= centroids[i].mean.ordinal());
                }
            }
            lemma_merge_by_mean_sorts(
                centroids,
                values.skip(n as int),
                singletons,
                v.ordinal(),
                hi,
            );
            lemma_sorted_prepend(run, rest, hi);
            assert(out == seq![run] + rest);
            lemma_within_prepend(run, rest, v.ordinal(), hi);
        } else {
            let c = centroids[0];
            let others = centroids.drop_first();
            assert(within(centroids, c.mean.ordinal(), hi)) by {
                assert forall|i: int| 0 <= i < centroids.len() implies c.mean.ordinal() <= (
                #[trigger] centroids[i]).mean.ordinal() <= hi by {
                    assert(centroids[0].mean.ordinal() <= centroids[i].mean.ordinal());
                }
            }
            lemma_rest(centroids, hi);
            assert(!c.mean.nan());
            assert(c.mean.ordinal() <= v.ordinal());
            assert(values_within(values, c.mean.ordinal(), hi));
            if c.mean.lt_spec(v) {
                let rest = merges::merged_by_mean(others, values, singletons);
                lemma_merge_by_mean_sorts(others, values, singletons, c.mean.ordinal(), hi);
                lemma_sorted_prepend(c, rest, hi);
                assert(out == seq![c] + rest);
                lemma_within_prepend(c, rest, c.mean.ordinal(), hi);
            } else {
                let n = merges::run_length(values, v);
                let run = merges::value_run(v, n, singletons);
                let rest = merges::merged_by_mean(others, values.skip(n as int), singletons);
                assert(v.eq_spec(v));
                lemma_values_rest(values, n as int, hi);
                lemma_merge_by_mean_sorts(
                    others,
                    values.skip(n as int),
                    singletons,
                    c.mean.ordinal(),
                    hi,
                );
                lemma_sorted_prepend(run, rest, hi);
                lemma_within_prepend(run, rest, c.mean.ordinal(), hi);
                lemma_sorted_prepend(c, seq![run] + rest, hi);
                lemma_within_prepend(c, seq![run] + rest, c.mean.ordinal(), hi);
                assert(out =~= seq![c] + (seq![run] + rest));
            }
        }
    }
}

proof fn lemma_within_prepend(c: Centroid, rest: Seq<Centroid>, lo: int, hi: int)
    requires
        within(rest, lo, hi),
        lo <= c.mean.ordinal() <= hi,
    ensures
        within(seq![c] + rest, lo, hi),
{
    let out = seq![c] + rest;
    assert forall|i: int| 0 <= i < out.len() implies lo <= (
    #[trigger] out[i]).mean.ordinal() <= hi by {
        if i > 0 {
            assert(out[i] == rest[i - 1]);
        }
    }
}

/// Fusing neighbours keeps the bounds.
proof fn lemma_coalesced_within(items: Seq<Centroid>, lo: int, hi: int)
    requires
        within(items, lo, hi),
        centroid::sorted_numbers(items),
    ensures
        within(centroid::coalesced(items), lo, hi),
        centroid::sorted_numbers(centroid::coalesced(items)),
        items.len() > 0 ==> centroid::coalesced(items).len() > 0,
    decreases items.len(),
{
    let out = centroid::coalesced(items);
    centroid::law_coalescing_leaves_no_duplicates(items);
    if items.len() > 0 {
        let front = items.drop_last();
        let before = centroid::coalesced(front);
        assert(forall|i: int| 0 <= i < front.len() ==> front[i] == items[i]);
        assert(items.last() == items[items.len() - 1]);
        assert(centroid::sorted_numbers(front));
        lemma_coalesced_within(front, lo, hi);
        assert forall|i: int| 0 <= i < out.len() implies lo <= (
        #[trigger] out[i]).mean.ordinal() <= hi && !out[i].mean.nan() by {
            if i < before.len() {
                assert(out[i].mean == before[i].mean);
            }
        }
        assert forall|i: int, j: int| 0 <= i <= j < out.len() implies (
        #[trigger] out[i]).mean.ordinal() <= (#[trigger] out[j]).mean.ordinal() by {
            if i < j {
                assert(out[i].mean.lt_spec(out[j].mean));
            }
        }
    }
}

/// Merging sorted numbers into a consistent digest gives a consistent digest that counts
/// all of them, and the weights of the merged stream add up to its count. Where nothing
/// is compressed, this is the merged digest.
pub proof fn law_merging_values_is_consistent(
    d: DigestView,
    values: Seq<Float64>,
    merged: DigestView,
)
    requires
        consistent(d),
        cdf::ascending_numbers(values),
        values.len() > 0,
        weights::counted(d.centroids) + values.len() <= 0x20_0000_0000_0000,
        merged == (DigestView {
            centroids: centroid::coalesced(d.stream_for_values(values)),
            ..d.header_for_values(values)
        }),
    ensures
        centroid::non_decreasing(d.stream_for_values(values)),
        consistent(merged),
        weights::counted(merged.centroids) == weights::counted(d.centroids) + values.len(),
        merges::weight_sum(d.stream_for_values(values)) == merged.count,
{
    let singletons = d.policy.marks_values_spec();
    let items = d.stream_for_values(values);
    let n = values.len() as int;
    let old_count = weights::counted(d.centroids);
    let means = d.centroids.map_values(|c: Centroid| c.mean);
    assert forall|i: int| 0 <= i < means.len() implies !(#[trigger] means[i]).nan() by {
        assert(!d.centroids[i].mean.nan());
    }
    weights::lemma_counted_is_not_negative(d.centroids);
    weights::lemma_constants();
    // the count
    exact::lemma_from_int(n);
    exact::lemma_halves_plus(d.count, 2 * old_count, Float64::from_int_spec(n), 2 * n);
    lemma_counts_positive(d);
    weights::law_merge_by_mean_counts_every_value(d.centroids, values, singletons);
    weights::law_coalescing_counts_the_same(items);
    weights::law_total_weight_is_exact(items);
    exact::lemma_same_halves(merges::weight_sum(items), merged.count, 2 * (old_count + n));
    // the extremes
    let lo = merged.min.ordinal();
    let hi = merged.max.ordinal();
    let last = values.len() - 1;
    assert(!values[0].nan() && !values[last].nan());
    assert forall|i: int| 0 <= i < values.len() implies lo <= (
    #[trigger] values[i]).ordinal() <= hi by {
        assert(values[0].ordinal() <= values[i].ordinal());
        assert(values[i].ordinal() <= values[last].ordinal());
    }
    assert forall|i: int| 0 <= i < d.centroids.len() implies lo <= (
    #[trigger] d.centroids[i]).mean.ordinal() <= hi by {
        assert(d.centroids[0].mean.ordinal() <= d.centroids[i].mean.ordinal());
        assert(d.centroids[i].mean.ordinal() <= d.centroids[d.centroids.len()
            - 1].mean.ordinal());
    }
    lemma_merge_by_mean_sorts(d.centroids, values, singletons, lo, hi);
    lemma_coalesced_within(items, lo, hi);
    centroid::law_coalescing_leaves_no_duplicates(items);
    assert forall|i: int| 0 < i < items.len() implies !(#[trigger] items[i]).mean.lt_spec(
        items[i - 1].mean,
    ) by {
        assert(items[i - 1].mean.ordinal() <= items[i].mean.ordinal());
    }
    let out = merged.centroids;
    assert(!merged.min.nan() && !merged.max.nan());
    assert(lo <= out[0].mean.ordinal());
    assert(out[out.len() - 1].mean.ordinal() <= hi);
}

/// A consistent digest has counted something exactly where it has centroids.
pub proof fn lemma_counts_positive(d: DigestView)
    requires
        consistent(d),
    ensures
        d.counted() <==> d.centroids.len() > 0,
        d.centroids.len() > 0 <==> 0 < weights::counted(d.centroids),
{
    let k = weights::counted(d.centroids);
    weights::lemma_constants();
    weights::lemma_counted_is_not_negative(d.centroids);
    exact::lemma_value_order(cdf::zero(), d.count);
    assert(0 < (2 * k) * exact::h() <==> 0 < k) by (nonlinear_arith)
        requires
            0 <= k,
            0 < exact::h(),
    ;
    assert(0 * exact::h() == 0) by (nonlinear_arith);
    if d.centroids.len() > 0 {
        let rest = d.centroids.drop_first();
        assert(d.centroids =~= seq![d.centroids[0]] + rest);
        weights::lemma_counted_prepend(d.centroids[0], rest);
        assert forall|i: int| 0 <= i < rest.len() implies weights::whole(
            (#[trigger] rest[i]).weight,
        ) by {
            assert(rest[i] == d.centroids[i + 1]);
        }
        weights::lemma_counted_is_not_negative(rest);
        assert(weights::whole(d.centroids[0].weight));
    } else {
        assert(weights::weights(d.centroids) =~= Seq::<Float64>::empty());
    }
}

/// The estimates of a consistent digest whose extremes are a finite distance apart are
/// probabilities.
pub proof fn law_consistent_digest_estimates_probabilities(d: DigestView, val: Float64, r: Float64)
    requires
        consistent(d),
        d.centroids.len() > 0,
        d.max.minus_spec(d.min).finite(),
        !val.nan(),
        CdfModel::of(d.centroids, d.count).estimates(val, d.min, d.max, r),
    ensures
        cdf::zero().le_spec(r),
        r.le_spec(cdf::one()),
{
    let m = CdfModel::of(d.centroids, d.count);
    assert(m.weights =~= weights::weights(d.centroids));
    assert forall|i: int| 0 <= i < m.weights.len() implies weights::whole(
        #[trigger] m.weights[i],
    ) by {
        assert(weights::whole(d.centroids[i].weight));
    }
    assert forall|i: int| 0 <= i < m.means.len() implies !(#[trigger] m.means[i]).nan() by {
        assert(!d.centroids[i].mean.nan());
    }
    assert forall|i: int, j: int| 0 <= i < j < m.means.len() implies (
    #[trigger] m.means[i]).ordinal() < (#[trigger] m.means[j]).ordinal() by {
        assert(d.centroids[i].mean.lt_spec(d.centroids[j].mean));
    }
    assert(cdf_laws::sound(d.centroids, d.count, d.min, d.max));
    cdf_laws::law_estimates_are_probabilities(d.centroids, d.count, d.min, d.max, val, r);
}

/// How many values digests count together.
pub open spec fn counted_digests(digests: Seq<DigestView>) -> int
    decreases digests.len(),
{
    if digests.len() == 0 {
        0
    } else {
        counted_digests(digests.drop_last()) + weights::counted(digests.last().centroids)
    }
}

/// Every digest is consistent.
pub open spec fn all_consistent(digests: Seq<DigestView>) -> bool {
    forall|i: int| 0 <= i < digests.len() ==> consistent(#[trigger] digests[i])
}

/// All means in the runs lie between the positions `lo` and `hi`.
pub open spec fn runs_within(runs: Seq<Seq<Centroid>>, lo: int, hi: int) -> bool {
    forall|i: int| 0 <= i < runs.len() ==> within(#[trigger] runs[i], lo, hi)
}

proof fn lemma_counted_digests_is_not_negative(digests: Seq<DigestView>)
    requires
        all_consistent(digests),
    ensures
        0 <= counted_digests(digests),
    decreases digests.len(),
{
    if digests.len() > 0 {
        let front = digests.drop_last();
        assert(forall|i: int| 0 <= i < front.len() ==> front[i] == digests[i]);
        assert(consistent(digests[digests.len() - 1]));
        lemma_counted_digests_is_not_negative(front);
        weights::lemma_counted_is_not_negative(digests.last().centroids);
    }
}

/// What a merge of consistent digests gathers.
pub proof fn lemma_gathered(digests: Seq<DigestView>)
    requires
        all_consistent(digests),
        counted_digests(digests) <= 0x20_0000_0000_0000,
    ensures
        ({
            let g = digest::gathered(digests);
            &&& weights::whole_runs(g.runs)
            &&& merges::sorted_runs(g.runs)
            &&& weights::counted_runs(g.runs) == counted_digests(digests)
            &&& exact::is_halves(g.header.count, 2 * counted_digests(digests))
            &&& !g.header.min.nan()
            &&& !g.header.max.nan()
            &&& runs_within(g.runs, g.header.min.ordinal(), g.header.max.ordinal())
        }),
    decreases digests.len(),
{
    weights::lemma_constants();
    let g = digest::gathered(digests);
    if digests.len() > 0 {
        let front = digests.drop_last();
        let d = digests.last();
        let before = digest::gathered(front);
        assert(forall|i: int| 0 <= i < front.len() ==> front[i] == digests[i]);
        assert(consistent(digests[digests.len() - 1]));
        weights::lemma_counted_is_not_negative(d.centroids);
        lemma_counted_digests_is_not_negative(front);
        lemma_gathered(front);
        lemma_counts_positive(d);
        if d.contributes() {
            let lo = g.header.min.ordinal();
            let hi = g.header.max.ordinal();
            exact::lemma_halves_plus(
                before.header.count,
                2 * counted_digests(front),
                d.count,
                2 * weights::counted(d.centroids),
            );
            assert(g.runs.drop_last() =~= before.runs);
            assert(lo <= before.header.min.ordinal() && lo <= d.min.ordinal());
            assert(before.header.max.ordinal() <= hi && d.max.ordinal() <= hi);
            assert forall|i: int| 0 <= i < g.runs.len() implies within(
                #[trigger] g.runs[i],
                lo,
                hi,
            ) && centroid::sorted_numbers(g.runs[i]) && weights::all_whole(g.runs[i]) by {
                if i < before.runs.len() {
                    let run = before.runs[i];
                    assert(g.runs[i] == run);
                    assert(within(
                        run,
                        before.header.min.ordinal(),
                        before.header.max.ordinal(),
                    ));
                    assert(centroid::sorted_numbers(run));
                    assert(weights::all_whole(run));
                    assert forall|k: int| 0 <= k < run.len() implies lo <= (
                    #[trigger] run[k]).mean.ordinal() <= hi by {}
                } else {
                    let run = d.centroids;
                    assert forall|k: int| 0 <= k < run.len() implies lo <= (
                    #[trigger] run[k]).mean.ordinal() <= hi by {
                        assert(run[0].mean.ordinal() <= run[k].mean.ordinal());
                        assert(run[k].mean.ordinal() <= run[run.len() - 1].mean.ordinal());
                    }
                }
            }
        }
    }
}

proof fn lemma_without_head_within(runs: Seq<Seq<Centroid>>, i: int, lo: int, hi: int)
    requires
        runs_within(runs, lo, hi),
        0 <= i < runs.len(),
        runs[i].len() > 0,
    ensures
        runs_within(merges::without_head(runs, i), lo, hi),
{
    let next = merges::without_head(runs, i);
    assert forall|j: int| 0 <= j < next.len() implies within(#[trigger] next[j], lo, hi) by {
        assert(within(runs[j], lo, hi));
        if j == i {
            assert forall|k: int| 0 <= k < next[j].len() implies lo <= (
            #[trigger] next[j][k]).mean.ordinal() <= hi by {
                assert(next[j][k] == runs[j][k + 1]);
            }
        }
    }
}

proof fn lemma_take_equal_within(
    runs: Seq<Seq<Centroid>>,
    mean: Float64,
    w: Float64,
    singleton: bool,
    lo: int,
    hi: int,
)
    requires
        runs_within(runs, lo, hi),
    ensures
        runs_within(merges::take_equal(runs, mean, w, singleton).2, lo, hi),
    decreases merges::total_len(runs),
{
    let i = merges::best(runs);
    if merges::is_best(runs, i) && runs[i][0].mean.eq_spec(mean) {
        merges::lemma_without_head_is_shorter(runs, i);
        lemma_without_head_within(runs, i, lo, hi);
        lemma_take_equal_within(
            merges::without_head(runs, i),
            mean,
            w.plus_spec(runs[i][0].weight),
            singleton && runs[i][0].singleton,
            lo,
            hi,
        );
    }
}

/// Merging runs keeps their bounds.
proof fn lemma_merged_runs_within(runs: Seq<Seq<Centroid>>, lo: int, hi: int)
    requires
        runs_within(runs, lo, hi),
    ensures
        within(merges::merged_runs(runs), lo, hi),
    decreases merges::total_len(runs),
{
    if merges::is_best(runs, merges::best(runs)) {
        let i = merges::best(runs);
        let c = runs[i][0];
        let (first, rest) = merges::merge_step(runs);
        merges::lemma_merge_step_is_shorter(runs);
        lemma_without_head_within(runs, i, lo, hi);
        lemma_take_equal_within(
            merges::without_head(runs, i),
            c.mean,
            Float64::zero_spec(false).plus_spec(c.weight),
            c.singleton,
            lo,
            hi,
        );
        lemma_merged_runs_within(rest, lo, hi);
        assert(within(runs[i], lo, hi));
        lemma_within_prepend(first, merges::merged_runs(rest), lo, hi);
    }
}

/// Merging consistent digests gives a consistent digest that counts what all of them
/// count, and the weights of the merged stream add up to its count. Where nothing is
/// compressed, this is the merged digest.
pub proof fn law_merging_digests_is_consistent(digests: Seq<DigestView>, merged: DigestView)
    requires
        all_consistent(digests),
        counted_digests(digests) <= 0x20_0000_0000_0000,
        ({
            let g = digest::gathered(digests);
            merged == (DigestView {
                centroids: centroid::coalesced(merges::merged_runs(g.runs)),
                ..g.header
            })
        }),
    ensures
        ({
            let items = merges::merged_runs(digest::gathered(digests).runs);
            &&& centroid::non_decreasing(items)
            &&& merged.centroids == items
            &&& 0 < counted_digests(digests) ==> merges::weight_sum(items) == merged.count
        }),
        consistent(merged),
        weights::counted(merged.centroids) == counted_digests(digests),
        digest::gathered(digests).header.count.eq_spec(Float64::zero_spec(false)) <==> 0
            == counted_digests(digests),
{
    let g = digest::gathered(digests);
    let items = merges::merged_runs(g.runs);
    let k = counted_digests(digests);
    lemma_gathered(digests);
    merges::law_merged_runs_strictly_increase(g.runs);
    weights::law_merged_runs_count_the_same(g.runs);
    centroid::law_coalescing_keeps_strictly_increasing(items);
    weights::law_total_weight_is_exact(items);
    lemma_merged_runs_within(g.runs, merged.min.ordinal(), merged.max.ordinal());
    if items.len() > 0 {
        assert(merged.min.ordinal() <= items[0].mean.ordinal());
        assert(items[items.len() - 1].mean.ordinal() <= merged.max.ordinal());
    }
    lemma_counted_digests_is_not_negative(digests);
    weights::lemma_constants();
    exact::lemma_value_order(merged.count, cdf::zero());
    assert(0 == (2 * k) * exact::h() <==> 0 == k) by (nonlinear_arith)
        requires
            0 < exact::h(),
    ;
    assert(0 * exact::h() == 0) by (nonlinear_arith);
    if 0 < k {
        exact::lemma_same_halves(merges::weight_sum(items), merged.count, 2 * k);
    }
}

} // verus!
