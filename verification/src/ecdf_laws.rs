//! A digest with room for all its values estimates their exact distribution function.
use vstd::arithmetic::power2::lemma_pow2_unfold;
use vstd::prelude::*;

use crate::cdf;
use crate::cdf::{CdfModel, Slot};
use crate::centroid;
use crate::centroid::Centroid;
use crate::digest;
use crate::digest::{DigestView, TDigest};
use crate::exact;
use crate::float::Float64;
use crate::float::INF_BODY;
use crate::merges;
use crate::merges::NormalizedStream;
use crate::policy::SingletonPolicy;
use crate::rounding;
use crate::weights;

verus! {

/// A run holds equal values, and the value behind it differs.
proof fn lemma_run(values: Seq<Float64>, target: Float64)
    ensures
        forall|j: int|
            0 <= j < merges::run_length(values, target) ==> (#[trigger] values[j]).eq_spec(target),
        merges::run_length(values, target) < values.len() ==> !values[merges::run_length(
            values,
            target,
        ) as int].eq_spec(target),
        merges::run_length(values, target) <= values.len(),
    decreases values.len(),
{
    if values.len() > 0 && values[0].eq_spec(target) {
        let rest = values.drop_first();
        lemma_run(rest, target);
        assert forall|j: int| 0 <= j < merges::run_length(values, target) implies (
        #[trigger] values[j]).eq_spec(target) by {
            if j > 0 {
                assert(rest[j - 1] == values[j]);
            }
        }
        if merges::run_length(values, target) < values.len() {
            assert(rest[merges::run_length(rest, target) as int] == values[merges::run_length(
                values,
                target,
            ) as int]);
        }
    }
}

/// What follows the leading run of sorted values is sorted, and above the run.
proof fn lemma_behind_the_run(values: Seq<Float64>)
    requires
        cdf::ascending_numbers(values),
        values.len() > 0,
    ensures
        ({
            let n = merges::first_run(values);
            &&& 1 <= n <= values.len()
            &&& cdf::ascending_numbers(values.skip(n as int))
            &&& n < values.len() ==> values[0].ordinal() < values[n as int].ordinal()
            &&& forall|j: int| 0 <= j < n ==> (#[trigger] values[j]).eq_spec(values[0])
        }),
{
    let n = merges::first_run(values);
    let rest = values.drop_first();
    lemma_run(rest, values[0]);
    assert(!values[0].nan());
    assert forall|j: int| 0 <= j < n implies (#[trigger] values[j]).eq_spec(values[0]) by {
        if j > 0 {
            assert(rest[j - 1] == values[j]);
        }
    }
    if n < values.len() {
        assert(rest[n - 1] == values[n as int]);
        assert(values[0].ordinal() <= values[n as int].ordinal());
        assert(!values[n as int].nan());
    }
    let later = values.skip(n as int);
    assert forall|i: int| 0 <= i < later.len() implies !(#[trigger] later[i]).nan() by {
        assert(later[i] == values[i + n]);
    }
    assert forall|i: int, j: int| 0 <= i <= j < later.len() implies (
    #[trigger] later[i]).ordinal() <= (#[trigger] later[j]).ordinal() by {
        assert(later[i] == values[i + n]);
        assert(later[j] == values[j + n]);
    }
}

/// The centroids of sorted values alone have strictly increasing means.
proof fn lemma_value_runs_strictly_increase(values: Seq<Float64>, singletons: bool)
    requires
        cdf::ascending_numbers(values),
    ensures
        ({
            let cs = merges::merged_by_mean(Seq::empty(), values, singletons);
            &&& centroid::strictly_increasing(cs)
            &&& forall|i: int|
                0 <= i < cs.len() ==> !(#[trigger] cs[i]).mean.nan() && values.len() > 0
                    && values[0].ordinal() <= cs[i].mean.ordinal()
        }),
    decreases values.len(),
{
    let cs = merges::merged_by_mean(Seq::empty(), values, singletons);
    if values.len() > 0 {
        let n = merges::first_run(values);
        let later = values.skip(n as int);
        let rest = merges::merged_by_mean(Seq::empty(), later, singletons);
        let run = merges::value_run(values[0], n, singletons);
        lemma_behind_the_run(values);
        lemma_value_runs_strictly_increase(later, singletons);
        assert(cs == seq![run] + rest);
        assert(!values[0].nan());
        assert forall|i: int| 0 <= i < cs.len() implies !(#[trigger] cs[i]).mean.nan()
            && values[0].ordinal() <= cs[i].mean.ordinal() && (i > 0 ==> values[0].ordinal()
            < cs[i].mean.ordinal()) by {
            if i > 0 {
                assert(cs[i] == rest[i - 1]);
                assert(later[0] == values[n as int]);
            }
        }
        assert forall|i: int, j: int| 0 <= i < j < cs.len() implies (
        #[trigger] cs[i]).mean.lt_spec((#[trigger] cs[j]).mean) by {
            assert(cs[j] == rest[j - 1]);
            if i > 0 {
                assert(cs[i] == rest[i - 1]);
            }
        }
    }
}

/// The centroid of the run that holds value `k`, and what the exact distribution function
/// is there.
proof fn lemma_run_of(values: Seq<Float64>, singletons: bool, start: int, n: int, k: int) -> (i: int)
    requires
        cdf::ascending_numbers(values),
        values.len() <= 0x20_0000_0000_0000,
        0 <= k < values.len(),
    ensures
        ({
            let cs = merges::merged_by_mean(Seq::empty(), values, singletons);
            let ws = weights::weights(cs);
            let before = weights::total(ws.take(i));
            &&& 0 <= i < cs.len()
            &&& cs[i].mean.eq_spec(values[k])
            &&& cdf::exact_ecdf(values, start, n).len() == values.len()
            &&& cdf::exact_ecdf(values, start, n)[k] == cdf::tie_midpoint(
                start + before,
                start + before + weights::units(cs[i].weight),
                n,
            )
        }),
    decreases values.len(),
{
    let cs = merges::merged_by_mean(Seq::empty(), values, singletons);
    let ws = weights::weights(cs);
    let len = merges::first_run(values);
    let later = values.skip(len as int);
    let rest = merges::merged_by_mean(Seq::empty(), later, singletons);
    let run = merges::value_run(values[0], len, singletons);
    lemma_behind_the_run(values);
    assert(cs == seq![run] + rest);
    exact::lemma_from_int(len as int);
    weights::lemma_units(run.weight, len as int);
    lemma_ecdf_len(later, start + len, n);
    assert(!values[0].nan());
    if k < len {
        assert(ws.take(0) =~= Seq::<Float64>::empty());
        assert(values[k].eq_spec(values[0]));
        0
    } else {
        let i = lemma_run_of(later, singletons, start + len, n, k - len);
        let later_ws = weights::weights(rest);
        assert(later[k - len] == values[k]);
        assert(ws.take(i + 1) =~= seq![run.weight] + later_ws.take(i));
        weights::lemma_total_prepend(run.weight, later_ws.take(i));
        assert(cs[i + 1] == rest[i]);
        i + 1
    }
}

/// There is one entry per value.
proof fn lemma_ecdf_len(values: Seq<Float64>, start: int, n: int)
    ensures
        cdf::exact_ecdf(values, start, n).len() == values.len(),
    decreases values.len(),
{
    if values.len() > 0 {
        let len = merges::first_run(values);
        merges::lemma_run_length_bound(values.drop_first(), values[0]);
        lemma_ecdf_len(values.skip(len as int), start + len, n);
    }
}

/// How many of the values are below `x`, or, where `closed`, not above it.
pub open spec fn rank(values: Seq<Float64>, x: Float64, closed: bool) -> int
    decreases values.len(),
{
    if values.len() == 0 {
        0
    } else {
        rank(values.drop_first(), x, closed) + if values[0].lt_spec(x) || (closed
            && values[0].eq_spec(x)) {
            1int
        } else {
            0
        }
    }
}

/// The leading `n` values are all counted, or none of them is.
proof fn lemma_rank_of_front(values: Seq<Float64>, n: int, x: Float64, closed: bool, counted: bool)
    requires
        0 <= n <= values.len(),
        forall|j: int|
            0 <= j < n ==> counted == ((#[trigger] values[j]).lt_spec(x) || (closed
                && values[j].eq_spec(x))),
    ensures
        rank(values, x, closed) == rank(values.skip(n), x, closed) + if counted {
            n
        } else {
            0
        },
    decreases n,
{
    if n == 0 {
        assert(values.skip(0) =~= values);
    } else {
        let rest = values.drop_first();
        assert forall|j: int| 0 <= j < n - 1 implies counted == ((#[trigger] rest[j]).lt_spec(x) || (
        closed && rest[j].eq_spec(x))) by {
            assert(rest[j] == values[j + 1]);
        }
        lemma_rank_of_front(rest, n - 1, x, closed, counted);
        assert(rest.skip(n - 1) =~= values.skip(n));
        assert(counted == (values[0].lt_spec(x) || (closed && values[0].eq_spec(x))));
    }
}

proof fn lemma_ecdf_by_rank(values: Seq<Float64>, start: int, n: int, k: int)
    requires
        cdf::ascending_numbers(values),
        0 <= k < values.len(),
    ensures
        cdf::exact_ecdf(values, start, n).len() == values.len(),
        cdf::exact_ecdf(values, start, n)[k] == cdf::tie_midpoint(
            start + rank(values, values[k], false),
            start + rank(values, values[k], true),
            n,
        ),
    decreases values.len(),
{
    let len = merges::first_run(values);
    let later = values.skip(len as int);
    let x = values[k];
    lemma_behind_the_run(values);
    lemma_ecdf_len(later, start + len, n);
    assert(!values[0].nan() && !x.nan());
    if k < len {
        assert(x.eq_spec(values[0]));
        assert forall|j: int| 0 <= j < later.len() implies x.lt_spec(#[trigger] later[j]) by {
            assert(!later[j].nan());
            assert(later[0].ordinal() <= later[j].ordinal());
            assert(later[0] == values[len as int]);
        }
        lemma_rank_of_front(values, len as int, x, false, false);
        lemma_rank_of_front(values, len as int, x, true, true);
        lemma_rank_of_front(later, later.len() as int, x, false, false);
        lemma_rank_of_front(later, later.len() as int, x, true, false);
        assert(later.skip(later.len() as int) =~= Seq::<Float64>::empty());
    } else {
        assert(later[k - len] == x);
        assert(values[len as int].ordinal() <= x.ordinal());
        assert forall|j: int| 0 <= j < len implies (#[trigger] values[j]).lt_spec(x) by {}
        lemma_rank_of_front(values, len as int, x, false, true);
        lemma_rank_of_front(values, len as int, x, true, true);
        lemma_ecdf_by_rank(later, start + len, n, k - len);
    }
}

/// The exact distribution function at one of `n` ascending values is half of the number of
/// values below it and of those not above it, over `n`.
pub proof fn law_exact_function_counts_values(values: Seq<Float64>, k: int)
    requires
        cdf::ascending_numbers(values),
        0 <= k < values.len(),
    ensures
        ({
            let n = values.len() as int;
            let both = rank(values, values[k], false) + rank(values, values[k], true);
            &&& cdf::exact_ecdf(values, 0, n).len() == n
            &&& cdf::exact_ecdf(values, 0, n)[k] == Float64::from_int_spec(both).times_spec(
                cdf::half(),
            ).over_spec(Float64::from_int_spec(n))
        }),
{
    lemma_ecdf_by_rank(values, 0, values.len() as int, k);
}

/// A digest of sorted values that keeps every run of equal values as a centroid estimates
/// the exact distribution function at each of the values.
pub proof fn law_uncompressed_digest_is_exact(
    base: DigestView,
    digest: DigestView,
    values: Seq<Float64>,
    k: int,
    r: Float64,
)
    requires
        base == DigestView::empty(base.max_size, base.scale, base.policy),
        cdf::ascending_numbers(values),
        0 <= k < values.len() <= 0x20_0000_0000_0000,
        digest.centroids == centroid::coalesced(base.stream_for_values(values)),
        digest.count == base.header_for_values(values).count,
        CdfModel::of(digest.centroids, digest.count).estimates(
            values[k],
            digest.min,
            digest.max,
            r,
        ),
    ensures
        r == cdf::exact_ecdf(values, 0, values.len() as int)[k],
{
    let singletons = base.policy.marks_values_spec();
    let n = values.len() as int;
    let cs = merges::merged_by_mean(Seq::empty(), values, singletons);
    let m = CdfModel::of(digest.centroids, digest.count);
    let none = Seq::<Centroid>::empty();
    lemma_value_runs_strictly_increase(values, singletons);
    centroid::law_coalescing_keeps_strictly_increasing(cs);
    let i = lemma_run_of(values, singletons, 0, n, k);
    // the value is the mean of its run
    assert forall|a: int, b: int| 0 <= a < b < m.means.len() implies (
    #[trigger] m.means[a]).ordinal() < (#[trigger] m.means[b]).ordinal() by {
        assert(cs[a].mean.lt_spec(cs[b].mean));
    }
    assert forall|a: int| 0 <= a < m.means.len() implies !(#[trigger] m.means[a]).nan() by {
        assert(!cs[a].mean.nan());
    }
    assert(cdf::is_slot(m.means, values[k], Slot::Hit(i)));
    cdf::lemma_slot_is_unique(m.means, values[k], Slot::Hit(i));
    assert(r == m.at_mean(i));
    // the numerator is rounded alike on both sides
    let ws = weights::weights(cs);
    let before = weights::total(ws.take(i));
    let len = weights::units(cs[i].weight);
    assert(m.weights =~= ws);
    assert(none.map_values(|c: Centroid| c.mean) =~= Seq::<Float64>::empty());
    assert(weights::weights(none) =~= Seq::<Float64>::empty());
    weights::law_merge_by_mean_counts_every_value(none, values, singletons);
    assert forall|a: int| 0 <= a < ws.len() implies weights::whole(#[trigger] ws[a]) by {
        assert(weights::whole(cs[a].weight));
    }
    weights::lemma_total_of_part(ws, i);
    weights::lemma_total_of_part(ws, i + 1);
    let part = ws.take(i);
    assert forall|a: int| 0 <= a < part.len() implies weights::whole(#[trigger] part[a]) by {
        assert(part[a] == ws[a]);
    }
    weights::lemma_sum_is_total(part);
    weights::lemma_constants();
    assert(weights::whole(ws[i]));
    let both = 2 * before + len;
    let half_w = cdf::half().times_spec(ws[i]);
    exact::lemma_half_times(cdf::half(), ws[i], len);
    exact::lemma_plus(m.prefix[i], half_w);
    let x = m.prefix[i].plus_spec(half_w);
    let y = Float64::from_int_spec(both).times_spec(cdf::half());
    assert((2 * before) * exact::h() + len * exact::h() == both * exact::h()) by (nonlinear_arith)
        requires
            both == 2 * before + len,
    ;
    exact::lemma_rounds_to_nearest(x, both, 1073);
    lemma_twice_is_whole(both);
    exact::lemma_same_halves(x, y, exact::nearest(both));
    // and so is the count
    exact::lemma_from_int(n);
    exact::lemma_halves_plus(cdf::zero(), 0, Float64::from_int_spec(n), 2 * n);
    exact::lemma_same_halves(digest.count, Float64::from_int_spec(n), 2 * n);
}

/// There are no more runs than values.
proof fn lemma_no_more_runs_than_values(values: Seq<Float64>, singletons: bool)
    ensures
        merges::merged_by_mean(Seq::empty(), values, singletons).len() <= values.len(),
    decreases values.len(),
{
    if values.len() > 0 {
        let n = merges::first_run(values);
        let later = values.skip(n as int);
        merges::lemma_run_length_bound(values.drop_first(), values[0]);
        lemma_no_more_runs_than_values(later, singletons);
        assert(merges::merged_by_mean(Seq::empty(), values, singletons) == seq![
            merges::value_run(values[0], n, singletons),
        ] + merges::merged_by_mean(Seq::empty(), later, singletons));
    }
}

/// `compress` keeps every centroid, and the count, of a stream that fits.
pub open spec fn keeps_what_fits<C>(compress: C) -> bool where
    C: Fn(TDigest, usize, NormalizedStream) -> TDigest,
 {
    forall|args: (TDigest, usize, NormalizedStream), c: TDigest| #[trigger]
        compress.ensures(args, c) && args.2.out@.len() <= args.1 ==> c@.centroids == args.2.out@
            && c@.count == args.0@.count
}

/// With enough capacity the estimates are exact: the digest of sorted values, by a
/// compression that keeps what fits, answers every value with the exact distribution
/// function.
pub proof fn law_enough_capacity_is_exact<C>(
    base: DigestView,
    values: Seq<Float64>,
    compress: C,
    r: DigestView,
) where C: Fn(TDigest, usize, NormalizedStream) -> TDigest
    requires
        base == DigestView::empty(base.max_size, base.scale, base.policy),
        cdf::ascending_numbers(values),
        0 < values.len() <= 0x20_0000_0000_0000,
        values.len() <= base.max_size,
        keeps_what_fits(compress),
        digest::compressed(
            compress,
            base.header_for_values(values),
            base.stream_for_values(values),
            r,
        ),
    ensures
        cdf::answers(r, values) == cdf::exact_ecdf(values, 0, values.len() as int),
{
    let singletons = base.policy.marks_values_spec();
    let n = values.len() as int;
    let header = base.header_for_values(values);
    let items = base.stream_for_values(values);
    let (args, c) = choose|args: (TDigest, usize, NormalizedStream), c: TDigest|
        digest::compression_input(args, header, items) && #[trigger] compress.ensures(args, c) && r
            == digest::settled(header, c@);
    let m = CdfModel::of(r.centroids, r.count);
    assert(base.centroids =~= Seq::<Centroid>::empty());
    lemma_no_more_runs_than_values(values, singletons);
    lemma_value_runs_strictly_increase(values, singletons);
    centroid::law_coalescing_keeps_strictly_increasing(items);
    lemma_ecdf_len(values, 0, n);
    assert(r.centroids == items);
    assert(items.len() > 0);
    assert forall|i: int| 0 <= i < m.means.len() implies !(#[trigger] m.means[i]).nan() by {
        assert(!items[i].mean.nan());
    }
    let out = cdf::answers(r, values);
    let want = cdf::exact_ecdf(values, 0, n);
    assert forall|k: int| 0 <= k < n implies out[k] == want[k] by {
        let val = values[k];
        let got = m.estimate(val, r.min, r.max);
        assert(!values[k].nan());
        cdf::lemma_place_is_slot(m.means, val, 0, m.means.len() as int);
        let slot = cdf::place(m.means, val, 0, m.means.len() as int);
        assert(cdf::is_slot(m.means, val, slot) && got == m.at_slot(val, r.min, r.max, slot));
        if cdf::strictly_ascending_numbers(m.means) {
            cdf::lemma_slot_is_unique(m.means, val, slot);
        }
        assert(m.estimates(val, r.min, r.max, got));
        law_uncompressed_digest_is_exact(base, r, values, k, got);
    }
    assert(out =~= want);
}

/// Half of a rounded integer is the half-integer nearest to half of the integer.
proof fn lemma_twice_is_whole(k: int)
    requires
        0 < k <= 0x40_0000_0000_0000,
    ensures
        exact::is_halves(
            Float64::from_int_spec(k).times_spec(cdf::half()),
            exact::nearest(k),
        ),
        0 < exact::nearest(k),
{
    let a = Float64::from_int_spec(k);
    let near = exact::nearest(k);
    let num = k * Float64::unit();
    weights::lemma_constants();
    lemma_pow2_unfold(1074);
    assert(0 <= num) by (nonlinear_arith)
        requires
            num == k * Float64::unit(),
            0 < k,
            0 < Float64::unit(),
    ;
    exact::lemma_round_bounds(num, 1);
    exact::lemma_of(false, rounding::round(52, INF_BODY as int, num, 1));
    exact::lemma_rounds_to_nearest(a, k, 1074);
    assert(near * Float64::unit() == (2 * near) * exact::h()) by (nonlinear_arith)
        requires
            Float64::unit() == 2 * exact::h(),
    ;
    exact::lemma_half_times(cdf::half(), a, near);
    assert(a.value() * cdf::half().value() == cdf::half().value() * a.value()) by (nonlinear_arith);
    exact::lemma_times(a, cdf::half());
    exact::lemma_times(cdf::half(), a);
    let x = a.times_spec(cdf::half());
    let y = cdf::half().times_spec(a);
    assert(x.ordinal() == y.ordinal());
    exact::lemma_value_order(x, y);
}

/// Identical values become a pile and distinct values stand alone; all are marked as
/// singletons, with or without protected edges, unless the policy is off.
pub proof fn law_values_become_singletons(base: DigestView, values: Seq<Float64>)
    requires
        base == DigestView::empty(base.max_size, base.scale, base.policy),
        cdf::ascending_numbers(values),
    ensures
        ({
            let cs = centroid::coalesced(base.stream_for_values(values));
            &&& centroid::strictly_increasing(cs)
            &&& forall|i: int|
                0 <= i < cs.len() ==> (#[trigger] cs[i]).singleton == match base.policy {
                    SingletonPolicy::Off => false,
                    SingletonPolicy::Use => true,
                    SingletonPolicy::UseWithProtectedEdges(_) => true,
                }
        }),
{
    let singletons = base.policy.marks_values_spec();
    lemma_value_runs_strictly_increase(values, singletons);
    centroid::law_coalescing_keeps_strictly_increasing(
        merges::merged_by_mean(Seq::empty(), values, singletons),
    );
    lemma_value_runs_are_marked(values, singletons);
}

proof fn lemma_value_runs_are_marked(values: Seq<Float64>, singletons: bool)
    ensures
        ({
            let cs = merges::merged_by_mean(Seq::empty(), values, singletons);
            forall|i: int| 0 <= i < cs.len() ==> (#[trigger] cs[i]).singleton == singletons
        }),
    decreases values.len(),
{
    if values.len() > 0 {
        let n = merges::first_run(values);
        let later = values.skip(n as int);
        let cs = merges::merged_by_mean(Seq::empty(), values, singletons);
        let rest = merges::merged_by_mean(Seq::empty(), later, singletons);
        merges::lemma_run_length_bound(values.drop_first(), values[0]);
        lemma_value_runs_are_marked(later, singletons);
        assert(cs == seq![merges::value_run(values[0], n, singletons)] + rest);
        assert forall|i: int| 0 <= i < cs.len() implies (#[trigger] cs[i]).singleton
            == singletons by {
            if i > 0 {
                assert(cs[i] == rest[i - 1]);
            }
        }
    }
}

} // verus!
