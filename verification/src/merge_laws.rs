//! What a merge holds, and what it does not depend on.
use vstd::prelude::*;

use crate::cdf;
use crate::centroid;
use crate::centroid::Centroid;
use crate::digest;
use crate::digest::{DigestView, Parts, TDigest};
use crate::digest_laws;
use crate::exact;
use crate::float::Float64;
use crate::merges;
use crate::merges::NormalizedStream;
use crate::policy::SingletonPolicy;
use crate::scale::ScaleFamily;
use crate::sort;
use crate::weights;

verus! {

/// The weight, in values, of the centroids whose mean stands at position `x` of the numeric
/// order.
pub open spec fn count_in(items: Seq<Centroid>, x: int) -> int
    decreases items.len(),
{
    if items.len() == 0 {
        0
    } else {
        count_in(items.drop_first(), x) + if items[0].mean.ordinal() == x {
            weights::units(items[0].weight)
        } else {
            0
        }
    }
}

/// The weight, in values, of all centroids in the runs whose mean stands at position `x`.
pub open spec fn count_at(runs: Seq<Seq<Centroid>>, x: int) -> int
    decreases runs.len(),
{
    if runs.len() == 0 {
        0
    } else {
        count_at(runs.drop_last(), x) + count_in(runs.last(), x)
    }
}

/// Some centroid has its mean at position `x`.
pub open spec fn present_in(items: Seq<Centroid>, x: int) -> bool {
    exists|k: int| 0 <= k < items.len() && (#[trigger] items[k]).mean.ordinal() == x
}

/// Some centroid in the runs has its mean at position `x`.
pub open spec fn present(runs: Seq<Seq<Centroid>>, x: int) -> bool {
    exists|i: int| 0 <= i < runs.len() && present_in(#[trigger] runs[i], x)
}

/// Every centroid whose mean stands at position `x` is a singleton.
pub open spec fn marked_in(items: Seq<Centroid>, x: int) -> bool {
    forall|k: int|
        0 <= k < items.len() && (#[trigger] items[k]).mean.ordinal() == x ==> items[k].singleton
}

/// Every centroid in the runs whose mean stands at position `x` is a singleton.
pub open spec fn marked(runs: Seq<Seq<Centroid>>, x: int) -> bool {
    forall|i: int| 0 <= i < runs.len() ==> marked_in(#[trigger] runs[i], x)
}

proof fn lemma_head(items: Seq<Centroid>, x: int)
    requires
        items.len() > 0,
    ensures
        ({
            let rest = items.drop_first();
            let here = items[0].mean.ordinal() == x;
            &&& present_in(items, x) <==> here || present_in(rest, x)
            &&& marked_in(items, x) <==> (here ==> items[0].singleton) && marked_in(rest, x)
        }),
{
    let rest = items.drop_first();
    assert(forall|k: int| 0 <= k < rest.len() ==> rest[k] == items[k + 1]);
    if present_in(items, x) {
        let k = choose|k: int| 0 <= k < items.len() && (#[trigger] items[k]).mean.ordinal() == x;
        if k > 0 {
            assert(rest[k - 1] == items[k]);
        }
    }
    if present_in(rest, x) {
        let k = choose|k: int| 0 <= k < rest.len() && (#[trigger] rest[k]).mean.ordinal() == x;
        assert(rest[k] == items[k + 1]);
    }
    if marked_in(items, x) {
        assert forall|k: int|
            0 <= k < rest.len() && (#[trigger] rest[k]).mean.ordinal() == x implies rest[k].singleton by {
            assert(rest[k] == items[k + 1]);
        }
    }
    if (items[0].mean.ordinal() == x ==> items[0].singleton) && marked_in(rest, x) {
        assert forall|k: int|
            0 <= k < items.len() && (#[trigger] items[k]).mean.ordinal() == x implies items[k].singleton by {
            if k > 0 {
                assert(rest[k - 1] == items[k]);
            }
        }
    }
}

/// What taking a head changes at position `x`.
proof fn lemma_without_head_at(runs: Seq<Seq<Centroid>>, i: int, x: int)
    requires
        0 <= i < runs.len(),
        runs[i].len() > 0,
    ensures
        ({
            let next = merges::without_head(runs, i);
            let c = runs[i][0];
            let here = c.mean.ordinal() == x;
            &&& present(runs, x) <==> here || present(next, x)
            &&& marked(runs, x) <==> (here ==> c.singleton) && marked(next, x)
        }),
{
    let next = merges::without_head(runs, i);
    let c = runs[i][0];
    lemma_head(runs[i], x);
    assert(next[i] == runs[i].drop_first());
    assert(forall|j: int| 0 <= j < runs.len() && j != i ==> next[j] == runs[j]);
    if present(runs, x) {
        let j = choose|j: int| 0 <= j < runs.len() && present_in(#[trigger] runs[j], x);
        assert(j != i ==> present_in(next[j], x));
        if j == i && c.mean.ordinal() != x {
            assert(present_in(next[i], x));
        }
    }
    if present(next, x) {
        let j = choose|j: int| 0 <= j < next.len() && present_in(#[trigger] next[j], x);
        assert(present_in(runs[j], x));
    }
    if c.mean.ordinal() == x {
        assert(present_in(runs[i], x));
    }
    if marked(runs, x) {
        assert(marked_in(runs[i], x));
        assert forall|j: int| 0 <= j < next.len() implies marked_in(#[trigger] next[j], x) by {
            assert(marked_in(runs[j], x));
        }
    }
    if (c.mean.ordinal() == x ==> c.singleton) && marked(next, x) {
        assert forall|j: int| 0 <= j < runs.len() implies marked_in(#[trigger] runs[j], x) by {
            assert(marked_in(next[j], x));
        }
    }
}

/// Where all means are above a position, there is nothing at it.
proof fn lemma_nothing_at(runs: Seq<Seq<Centroid>>, x: int)
    requires
        merges::all_above(runs, x),
    ensures
        !present(runs, x),
        marked(runs, x),
{
    assert forall|i: int| 0 <= i < runs.len() implies !present_in(#[trigger] runs[i], x) && marked_in(
        runs[i],
        x,
    ) by {
        assert(forall|k: int| 0 <= k < runs[i].len() ==> x < (#[trigger] runs[i][k]).mean.ordinal());
    }
}

/// The weights of the centroids whose mean stands at position `x`, in their order.
pub open spec fn weights_in(items: Seq<Centroid>, x: int) -> Seq<Float64>
    decreases items.len(),
{
    if items.len() == 0 {
        Seq::empty()
    } else if items[0].mean.ordinal() == x {
        seq![items[0].weight] + weights_in(items.drop_first(), x)
    } else {
        weights_in(items.drop_first(), x)
    }
}

/// The weights of all centroids in the runs whose mean stands at position `x`, from the last
/// run to the first.
pub open spec fn weights_at(runs: Seq<Seq<Centroid>>, x: int) -> Seq<Float64>
    decreases runs.len(),
{
    if runs.len() == 0 {
        Seq::empty()
    } else {
        weights_in(runs.last(), x) + weights_at(runs.drop_last(), x)
    }
}

/// Numbers added to `w`, from the first to the last.
pub open spec fn added(w: Float64, ws: Seq<Float64>) -> Float64
    decreases ws.len(),
{
    if ws.len() == 0 {
        w
    } else {
        added(w, ws.drop_last()).plus_spec(ws.last())
    }
}

proof fn lemma_added_first(w: Float64, first: Float64, rest: Seq<Float64>)
    ensures
        added(w, seq![first] + rest) == added(w.plus_spec(first), rest),
    decreases rest.len(),
{
    let all = seq![first] + rest;
    if rest.len() == 0 {
        assert(all.drop_last() =~= Seq::<Float64>::empty());
        assert(added(w, all.drop_last()) == w);
        assert(all.last() == first);
    } else {
        lemma_added_first(w, first, rest.drop_last());
        assert(all.drop_last() =~= seq![first] + rest.drop_last());
        assert(all.last() == rest.last());
    }
}

proof fn lemma_added_to_nothing(ws: Seq<Float64>)
    ensures
        added(Float64::zero_spec(false), ws) == cdf::sum(ws),
    decreases ws.len(),
{
    if ws.len() > 0 {
        lemma_added_to_nothing(ws.drop_last());
    } else {
        assert(cdf::zero() == Float64::zero_spec(false)) by {
            exact::lemma_of(false, 0);
            exact::lemma_same(cdf::zero(), Float64::zero_spec(false));
        }
    }
}

/// Items that are all above a position have no weight at it.
proof fn lemma_no_weights_in(items: Seq<Centroid>, x: int)
    requires
        forall|k: int| 0 <= k < items.len() ==> x < (#[trigger] items[k]).mean.ordinal(),
    ensures
        weights_in(items, x) == Seq::<Float64>::empty(),
    decreases items.len(),
{
    if items.len() > 0 {
        let rest = items.drop_first();
        assert forall|k: int| 0 <= k < rest.len() implies x < (
        #[trigger] rest[k]).mean.ordinal() by {
            assert(rest[k] == items[k + 1]);
        }
        lemma_no_weights_in(rest, x);
        assert(x < items[0].mean.ordinal());
    }
}

/// Runs that are all above a position have no weight at it.
proof fn lemma_no_weights_at(runs: Seq<Seq<Centroid>>, x: int)
    requires
        merges::all_above(runs, x),
    ensures
        weights_at(runs, x) == Seq::<Float64>::empty(),
    decreases runs.len(),
{
    if runs.len() > 0 {
        let front = runs.drop_last();
        assert forall|i: int, k: int| 0 <= i < front.len() && 0 <= k < front[i].len() implies x < (
        #[trigger] front[i][k]).mean.ordinal() by {
            assert(front[i][k] == runs[i][k]);
        }
        lemma_no_weights_at(front, x);
        let last = runs.last();
        assert forall|k: int| 0 <= k < last.len() implies x < (
        #[trigger] last[k]).mean.ordinal() by {
            assert(last[k] == runs[runs.len() - 1][k]);
        }
        lemma_no_weights_in(last, x);
        assert(weights_at(runs, x) =~= Seq::<Float64>::empty());
    }
}

/// What taking the head of run `i` changes of the weights at position `x`: it was the first
/// of them, where no later run has any.
proof fn lemma_weights_without_head(runs: Seq<Seq<Centroid>>, i: int, x: int)
    requires
        0 <= i < runs.len(),
        runs[i].len() > 0,
        runs[i][0].mean.ordinal() == x ==> forall|j: int, k: int|
            i < j < runs.len() && 0 <= k < runs[j].len() ==> x < (
            #[trigger] runs[j][k]).mean.ordinal(),
    ensures
        weights_at(runs, x) == if runs[i][0].mean.ordinal() == x {
            seq![runs[i][0].weight] + weights_at(merges::without_head(runs, i), x)
        } else {
            weights_at(merges::without_head(runs, i), x)
        },
    decreases runs.len(),
{
    let next = merges::without_head(runs, i);
    let front = runs.drop_last();
    let n = runs.len() - 1;
    if i == n {
        assert(next.drop_last() =~= front);
        assert(next.last() == runs[i].drop_first());
        if runs[i][0].mean.ordinal() == x {
            assert(weights_at(runs, x) =~= seq![runs[i][0].weight] + weights_at(next, x));
        }
    } else {
        assert(next.drop_last() =~= merges::without_head(front, i));
        assert(next.last() == runs.last());
        if runs[i][0].mean.ordinal() == x {
            let last = runs.last();
            assert forall|k: int| 0 <= k < last.len() implies x < (
            #[trigger] last[k]).mean.ordinal() by {
                assert(last[k] == runs[n][k]);
            }
            lemma_no_weights_in(last, x);
            assert forall|j: int, k: int| i < j < front.len() && 0 <= k < front[j].len() implies x
                < (#[trigger] front[j][k]).mean.ordinal() by {
                assert(front[j][k] == runs[j][k]);
            }
            lemma_weights_without_head(front, i, x);
            assert(weights_at(runs, x) =~= weights_at(front, x));
            assert(weights_at(next, x) =~= weights_at(next.drop_last(), x));
        } else {
            lemma_weights_without_head(front, i, x);
        }
    }
}

/// Behind the run to take from, all means are greater than that of its head.
proof fn lemma_greater_behind_best(runs: Seq<Seq<Centroid>>, i: int)
    requires
        merges::sorted_runs(runs),
        merges::is_best(runs, i),
    ensures
        forall|j: int, k: int|
            i < j < runs.len() && 0 <= k < runs[j].len() ==> runs[i][0].mean.ordinal() < (
            #[trigger] runs[j][k]).mean.ordinal(),
{
    assert forall|j: int, k: int| i < j < runs.len() && 0 <= k < runs[j].len() implies runs[i][0].mean.ordinal()
        < (#[trigger] runs[j][k]).mean.ordinal() by {
        assert(centroid::sorted_numbers(runs[i]));
        assert(centroid::sorted_numbers(runs[j]));
        assert(runs[j].len() > 0);
        assert(!runs[i][0].mean.nan() && !runs[j][0].mean.nan());
        assert(runs[j][0].mean.ordinal() <= runs[j][k].mean.ordinal());
    }
}

/// Taking the heads with one mean gathers all that stands at it, and leaves the rest.
proof fn lemma_take_equal_at(
    runs: Seq<Seq<Centroid>>,
    mean: Float64,
    w: Float64,
    singleton: bool,
)
    requires
        merges::sorted_runs(runs),
        !mean.nan(),
        merges::all_above(runs, mean.ordinal() - 1),
    ensures
        ({
            let (total_w, s, rest) = merges::take_equal(runs, mean, w, singleton);
            &&& total_w == added(w, weights_at(runs, mean.ordinal()))
            &&& s <==> singleton && marked(runs, mean.ordinal())
            &&& forall|x: int|
                x != mean.ordinal() ==> weights_at(rest, x) == #[trigger] weights_at(runs, x)
            &&& forall|x: int| x != mean.ordinal() ==> present(rest, x) == #[trigger] present(runs, x)
            &&& forall|x: int| x != mean.ordinal() ==> marked(rest, x) == #[trigger] marked(runs, x)
        }),
    decreases merges::total_len(runs),
{
    let i = merges::best(runs);
    let m = mean.ordinal();
    let (total_w, s, rest) = merges::take_equal(runs, mean, w, singleton);
    if merges::is_best(runs, i) && runs[i][0].mean.eq_spec(mean) {
        let c = runs[i][0];
        let next = merges::without_head(runs, i);
        let v = w.plus_spec(c.weight);
        merges::lemma_without_head_is_shorter(runs, i);
        merges::lemma_without_head_keeps_order(runs, i, m - 1);
        lemma_take_equal_at(next, mean, v, singleton && c.singleton);
        lemma_without_head_at(runs, i, m);
        lemma_greater_behind_best(runs, i);
        lemma_weights_without_head(runs, i, m);
        lemma_added_first(w, c.weight, weights_at(next, m));
        assert forall|x: int| x != m implies weights_at(rest, x) == #[trigger] weights_at(
            runs,
            x,
        ) by {
            lemma_weights_without_head(runs, i, x);
            assert(weights_at(rest, x) == weights_at(next, x));
        }
        assert forall|x: int| x != m implies present(rest, x) == #[trigger] present(runs, x) by {
            lemma_without_head_at(runs, i, x);
            assert(present(rest, x) == present(next, x));
        }
        assert forall|x: int| x != m implies marked(rest, x) == #[trigger] marked(runs, x) by {
            lemma_without_head_at(runs, i, x);
            assert(marked(rest, x) == marked(next, x));
        }
    } else {
        merges::lemma_take_equal_leaves_greater(runs, mean, w, singleton, m - 1);
        lemma_nothing_at(runs, m);
        lemma_no_weights_at(runs, m);
    }
}

/// A merge of sorted runs holds exactly the distinct means of the runs, each once. The weight
/// at a mean is the sum of all weights at it, added from the last run to the first, and it
/// is marked exactly where all of them are.
pub proof fn law_merged_runs_hold_the_distinct_means(runs: Seq<Seq<Centroid>>)
    requires
        merges::sorted_runs(runs),
    ensures
        ({
            let out = merges::merged_runs(runs);
            &&& centroid::strictly_increasing(out)
            &&& forall|i: int|
                0 <= i < out.len() ==> {
                    let x = (#[trigger] out[i]).mean.ordinal();
                    &&& present(runs, x)
                    &&& out[i].weight == cdf::sum(weights_at(runs, x))
                    &&& out[i].singleton <==> marked(runs, x)
                }
            &&& forall|x: int| #[trigger] present(runs, x) ==> present_in(out, x)
        }),
    decreases merges::total_len(runs),
{
    let out = merges::merged_runs(runs);
    let i = merges::best(runs);
    merges::law_merged_runs_strictly_increase(runs);
    if merges::is_best(runs, i) {
        let c = runs[i][0];
        let m = c.mean.ordinal();
        let next = merges::without_head(runs, i);
        let zero = Float64::zero_spec(false);
        let w = zero.plus_spec(c.weight);
        let (first, rest) = merges::merge_step(runs);
        let later = merges::merged_runs(rest);
        merges::lemma_merge_step_is_shorter(runs);
        assert(centroid::sorted_numbers(runs[i]));
        assert(!c.mean.nan());
        assert forall|j: int, k: int| 0 <= j < runs.len() && 0 <= k < runs[j].len() implies m - 1 < (
        #[trigger] runs[j][k]).mean.ordinal() by {
            assert(centroid::sorted_numbers(runs[j]));
            assert(runs[j][0].mean.ordinal() <= runs[j][k].mean.ordinal());
            assert(!runs[j][0].mean.nan());
            assert(c.mean.nan_last_rank() <= runs[j][0].mean.nan_last_rank());
        }
        merges::lemma_without_head_keeps_order(runs, i, m - 1);
        merges::lemma_take_equal_leaves_greater(next, c.mean, w, c.singleton, m - 1);
        lemma_take_equal_at(next, c.mean, w, c.singleton);
        lemma_without_head_at(runs, i, m);
        lemma_greater_behind_best(runs, i);
        lemma_weights_without_head(runs, i, m);
        lemma_added_first(zero, c.weight, weights_at(next, m));
        lemma_added_to_nothing(weights_at(runs, m));
        law_merged_runs_hold_the_distinct_means(rest);
        lemma_nothing_at(rest, m);
        assert(out == seq![first] + later);
        assert forall|k: int| 0 <= k < out.len() implies {
            let x = (#[trigger] out[k]).mean.ordinal();
            &&& present(runs, x)
            &&& out[k].weight == cdf::sum(weights_at(runs, x))
            &&& out[k].singleton <==> marked(runs, x)
        } by {
            if k > 0 {
                let x = later[k - 1].mean.ordinal();
                assert(out[k] == later[k - 1]);
                assert(present(rest, x));
                assert(x != m);
                lemma_without_head_at(runs, i, x);
                lemma_weights_without_head(runs, i, x);
                assert(weights_at(rest, x) == weights_at(next, x));
                assert(present(rest, x) == present(next, x));
                assert(marked(rest, x) == marked(next, x));
            }
        }
        assert forall|x: int| #[trigger] present(runs, x) implies present_in(out, x) by {
            lemma_without_head_at(runs, i, x);
            if x == m {
                assert(out[0].mean.ordinal() == x);
            } else {
                assert(present(rest, x) == present(next, x));
                assert(present_in(later, x));
                let k = choose|k: int|
                    0 <= k < later.len() && (#[trigger] later[k]).mean.ordinal() == x;
                assert(out[k + 1] == later[k]);
            }
        }
    } else {
        if !merges::exhausted(runs) {
            merges::lemma_best_exists(runs);
        }
        assert forall|x: int| #[trigger] present(runs, x) implies present_in(out, x) by {
            let j = choose|j: int| 0 <= j < runs.len() && present_in(#[trigger] runs[j], x);
            assert(runs[j].len() == 0);
        }
    }
}

/// The weights at a position count what stands there.
proof fn lemma_weights_in_count(items: Seq<Centroid>, x: int)
    requires
        weights::all_whole(items),
    ensures
        weights::total(weights_in(items, x)) == count_in(items, x),
        forall|k: int|
            0 <= k < weights_in(items, x).len() ==> weights::whole(
                #[trigger] weights_in(items, x)[k],
            ),
        0 <= count_in(items, x) <= weights::counted(items),
    decreases items.len(),
{
    let out = weights_in(items, x);
    if items.len() > 0 {
        let rest = items.drop_first();
        let more = weights_in(rest, x);
        assert forall|k: int| 0 <= k < rest.len() implies weights::whole(
            (#[trigger] rest[k]).weight,
        ) by {
            assert(rest[k] == items[k + 1]);
        }
        assert(weights::whole(items[0].weight));
        lemma_weights_in_count(rest, x);
        assert(items =~= seq![items[0]] + rest);
        weights::lemma_counted_prepend(items[0], rest);
        if items[0].mean.ordinal() == x {
            weights::lemma_total_prepend(items[0].weight, more);
            assert forall|k: int| 0 <= k < out.len() implies weights::whole(#[trigger] out[k]) by {
                if k > 0 {
                    assert(out[k] == more[k - 1]);
                }
            }
        }
    }
}

proof fn lemma_total_of_both(a: Seq<Float64>, b: Seq<Float64>)
    ensures
        weights::total(a + b) == weights::total(a) + weights::total(b),
    decreases b.len(),
{
    if b.len() == 0 {
        assert(a + b =~= a);
    } else {
        lemma_total_of_both(a, b.drop_last());
        assert((a + b).drop_last() =~= a + b.drop_last());
        assert((a + b).last() == b.last());
    }
}

proof fn lemma_weights_at_count(runs: Seq<Seq<Centroid>>, x: int)
    requires
        weights::whole_runs(runs),
    ensures
        weights::total(weights_at(runs, x)) == count_at(runs, x),
        forall|k: int|
            0 <= k < weights_at(runs, x).len() ==> weights::whole(
                #[trigger] weights_at(runs, x)[k],
            ),
        0 <= count_at(runs, x) <= weights::counted_runs(runs),
    decreases runs.len(),
{
    let out = weights_at(runs, x);
    if runs.len() > 0 {
        let front = runs.drop_last();
        let (a, b) = (weights_in(runs.last(), x), weights_at(front, x));
        assert forall|i: int| 0 <= i < front.len() implies weights::all_whole(
            #[trigger] front[i],
        ) by {
            assert(front[i] == runs[i]);
        }
        assert(weights::all_whole(runs[runs.len() - 1]));
        lemma_weights_in_count(runs.last(), x);
        lemma_weights_at_count(front, x);
        lemma_total_of_both(a, b);
        assert forall|k: int| 0 <= k < out.len() implies weights::whole(#[trigger] out[k]) by {
            if k < a.len() {
                assert(out[k] == a[k]);
            } else {
                assert(out[k] == b[k - a.len()]);
            }
        }
    }
}

/// Where weights count values, the weight at a mean of a merge of sorted runs counts what all
/// weights at it count.
pub proof fn law_merged_weights_count_all(runs: Seq<Seq<Centroid>>)
    requires
        merges::sorted_runs(runs),
        weights::whole_runs(runs),
        weights::counted_runs(runs) <= 0x20_0000_0000_0000,
    ensures
        ({
            let out = merges::merged_runs(runs);
            forall|i: int|
                0 <= i < out.len() ==> weights::units((#[trigger] out[i]).weight) == count_at(
                    runs,
                    out[i].mean.ordinal(),
                )
        }),
{
    let out = merges::merged_runs(runs);
    law_merged_runs_hold_the_distinct_means(runs);
    assert forall|i: int| 0 <= i < out.len() implies weights::units((#[trigger] out[i]).weight)
        == count_at(runs, out[i].mean.ordinal()) by {
        let x = out[i].mean.ordinal();
        let ws = weights_at(runs, x);
        assert(out[i].weight == cdf::sum(ws));
        lemma_weights_at_count(runs, x);
        weights::lemma_sum_is_total(ws);
        weights::lemma_units(out[i].weight, weights::total(ws));
    }
}

/// `out` holds the items of `a` and those of `b`, each in their order.
pub open spec fn interleaves(a: Seq<Centroid>, b: Seq<Centroid>, out: Seq<Centroid>) -> bool
    decreases out.len(),
{
    if out.len() == 0 {
        a.len() == 0 && b.len() == 0
    } else {
        ||| a.len() > 0 && out[0] == a[0] && interleaves(a.drop_first(), b, out.drop_first())
        ||| b.len() > 0 && out[0] == b[0] && interleaves(a, b.drop_first(), out.drop_first())
    }
}

/// How many of the values stand at position `x` of the numeric order.
pub open spec fn occurrences(values: Seq<Float64>, x: int) -> int
    decreases values.len(),
{
    if values.len() == 0 {
        0
    } else {
        occurrences(values.drop_first(), x) + if values[0].ordinal() == x {
            1int
        } else {
            0
        }
    }
}

/// The values as runs of equal ones.
pub open spec fn value_runs(values: Seq<Float64>, singletons: bool) -> Seq<Centroid> {
    merges::merged_by_mean(Seq::empty(), values, singletons)
}

proof fn lemma_interleaves_one_side(a: Seq<Centroid>)
    ensures
        interleaves(a, Seq::empty(), a),
        interleaves(Seq::empty(), a, a),
    decreases a.len(),
{
    if a.len() > 0 {
        lemma_interleaves_one_side(a.drop_first());
    }
}

/// What follows the leading run of ascending values.
proof fn lemma_leading_run(values: Seq<Float64>)
    requires
        cdf::ascending_numbers(values),
        values.len() > 0,
    ensures
        ({
            let n = merges::first_run(values);
            let later = values.skip(n as int);
            &&& 1 <= n <= values.len()
            &&& merges::run_length(values, values[0]) == n
            &&& cdf::ascending_numbers(later)
            &&& forall|k: int|
                0 <= k < later.len() ==> values[0].ordinal() < (#[trigger] later[k]).ordinal()
            &&& forall|x: int| #[trigger]
                occurrences(values, x) == occurrences(later, x) + if values[0].ordinal() == x {
                    n as int
                } else {
                    0
                }
        }),
{
    let n = merges::first_run(values);
    let later = values.skip(n as int);
    let rest = values.drop_first();
    assert(!values[0].nan());
    merges::lemma_run_length_bound(rest, values[0]);
    lemma_run(rest, values[0]);
    assert forall|i: int, j: int| 0 <= i <= j < later.len() implies (
    #[trigger] later[i]).ordinal() <= (#[trigger] later[j]).ordinal() by {
        assert(later[i] == values[i + n] && later[j] == values[j + n]);
    }
    assert forall|i: int| 0 <= i < later.len() implies !(#[trigger] later[i]).nan() by {
        assert(later[i] == values[i + n]);
    }
    assert forall|k: int| 0 <= k < later.len() implies values[0].ordinal() < (
    #[trigger] later[k]).ordinal() by {
        assert(later[0] == values[n as int]);
        assert(later[0] == rest[n - 1]);
        assert(values[0].ordinal() <= values[n as int].ordinal());
        assert(!values[n as int].nan());
        assert(later[0].ordinal() <= later[k].ordinal());
    }
    assert(rest.skip(n - 1) =~= later);
    assert forall|x: int| #[trigger] occurrences(values, x) == occurrences(later, x) + if values[0].ordinal()
        == x {
        n as int
    } else {
        0
    } by {
        lemma_occurrences_in_run(rest, values[0], x);
    }
}

/// A run holds equal values, and the value behind it differs.
proof fn lemma_run(values: Seq<Float64>, target: Float64)
    ensures
        merges::run_length(values, target) < values.len() ==> !values[merges::run_length(
            values,
            target,
        ) as int].eq_spec(target),
    decreases values.len(),
{
    if values.len() > 0 && values[0].eq_spec(target) {
        let rest = values.drop_first();
        lemma_run(rest, target);
        merges::lemma_run_length_bound(rest, target);
        if merges::run_length(values, target) < values.len() {
            assert(rest[merges::run_length(rest, target) as int] == values[merges::run_length(
                values,
                target,
            ) as int]);
        }
    }
}

proof fn lemma_occurrences_in_run(values: Seq<Float64>, target: Float64, x: int)
    ensures
        ({
            let n = merges::run_length(values, target);
            occurrences(values, x) == occurrences(values.skip(n as int), x) + if target.ordinal()
                == x {
                n as int
            } else {
                0
            }
        }),
    decreases values.len(),
{
    if values.len() > 0 && values[0].eq_spec(target) {
        let rest = values.drop_first();
        lemma_occurrences_in_run(rest, target, x);
        merges::lemma_run_length_bound(rest, target);
        assert(values.skip(1 + merges::run_length(rest, target) as int) =~= rest.skip(
            merges::run_length(rest, target) as int,
        ));
    } else {
        assert(values.skip(0) =~= values);
    }
}

/// Merging ascending values into centroids keeps the centroids unchanged and in order, and
/// puts in one run for each distinct value, which says how often the value occurs.
pub proof fn law_merge_by_mean_holds_both(
    centroids: Seq<Centroid>,
    values: Seq<Float64>,
    singletons: bool,
)
    requires
        centroid::sorted_numbers(centroids),
        cdf::ascending_numbers(values),
    ensures
        interleaves(
            centroids,
            value_runs(values, singletons),
            merges::merged_by_mean(centroids, values, singletons),
        ),
        ({
            let runs = value_runs(values, singletons);
            &&& centroid::strictly_increasing(runs)
            &&& forall|i: int|
                0 <= i < runs.len() ==> (#[trigger] runs[i]).weight == Float64::from_int_spec(
                    occurrences(values, runs[i].mean.ordinal()),
                ) && runs[i].singleton == singletons && 0 < occurrences(
                    values,
                    runs[i].mean.ordinal(),
                )
            &&& forall|k: int|
                0 <= k < values.len() ==> present_in(runs, (#[trigger] values[k]).ordinal())
        }),
{
    lemma_value_runs(values, singletons);
    lemma_interleaves(centroids, values, singletons);
}

proof fn lemma_value_runs(values: Seq<Float64>, singletons: bool)
    requires
        cdf::ascending_numbers(values),
    ensures
        ({
            let runs = value_runs(values, singletons);
            &&& centroid::strictly_increasing(runs)
            &&& forall|i: int|
                0 <= i < runs.len() ==> !(#[trigger] runs[i]).mean.nan() && runs[i].weight
                    == Float64::from_int_spec(occurrences(values, runs[i].mean.ordinal()))
                    && runs[i].singleton == singletons && 0 < occurrences(
                    values,
                    runs[i].mean.ordinal(),
                ) && values[0].ordinal() <= runs[i].mean.ordinal()
            &&& forall|k: int|
                0 <= k < values.len() ==> present_in(runs, (#[trigger] values[k]).ordinal())
        }),
    decreases values.len(),
{
    let runs = value_runs(values, singletons);
    if values.len() > 0 {
        let n = merges::first_run(values);
        let later = values.skip(n as int);
        let rest = value_runs(later, singletons);
        let run = merges::value_run(values[0], n, singletons);
        let x0 = values[0].ordinal();
        lemma_leading_run(values);
        lemma_value_runs(later, singletons);
        assert(runs == seq![run] + rest);
        lemma_no_occurrence(later, x0);
        assert forall|i: int| 0 <= i < runs.len() implies !(#[trigger] runs[i]).mean.nan()
            && runs[i].weight == Float64::from_int_spec(
            occurrences(values, runs[i].mean.ordinal()),
        ) && runs[i].singleton == singletons && 0 < occurrences(values, runs[i].mean.ordinal())
            && x0 <= runs[i].mean.ordinal() && (i > 0 ==> x0 < runs[i].mean.ordinal()) by {
            if i > 0 {
                assert(runs[i] == rest[i - 1]);
                assert(x0 < later[0].ordinal());
            }
            let x = runs[i].mean.ordinal();
            assert(occurrences(values, x) == occurrences(later, x) + if x0 == x {
                n as int
            } else {
                0
            });
            assert(!values[0].nan());
        }
        assert forall|i: int, j: int| 0 <= i < j < runs.len() implies (
        #[trigger] runs[i]).mean.lt_spec((#[trigger] runs[j]).mean) by {
            assert(runs[j] == rest[j - 1]);
            if i > 0 {
                assert(runs[i] == rest[i - 1]);
            }
        }
        assert forall|k: int| 0 <= k < values.len() implies present_in(
            runs,
            (#[trigger] values[k]).ordinal(),
        ) by {
            let x = values[k].ordinal();
            if k < n {
                lemma_in_run(values.drop_first(), values[0], k - 1);
                if k > 0 {
                    assert(values.drop_first()[k - 1] == values[k]);
                }
                assert(runs[0].mean.ordinal() == x);
            } else {
                assert(later[k - n] == values[k]);
                assert(present_in(rest, later[k - n].ordinal()));
                let i = choose|i: int|
                    0 <= i < rest.len() && (#[trigger] rest[i]).mean.ordinal() == x;
                assert(runs[i + 1] == rest[i]);
            }
        }
    }
}

proof fn lemma_in_run(values: Seq<Float64>, target: Float64, k: int)
    requires
        k < merges::run_length(values, target),
    ensures
        0 <= k ==> values[k].eq_spec(target),
    decreases values.len(),
{
    if k > 0 {
        let rest = values.drop_first();
        lemma_in_run(rest, target, k - 1);
        merges::lemma_run_length_bound(values, target);
        assert(rest[k - 1] == values[k]);
    }
}

proof fn lemma_no_occurrence(values: Seq<Float64>, x: int)
    requires
        forall|k: int| 0 <= k < values.len() ==> x < (#[trigger] values[k]).ordinal(),
    ensures
        occurrences(values, x) == 0,
    decreases values.len(),
{
    if values.len() > 0 {
        let rest = values.drop_first();
        assert forall|k: int| 0 <= k < rest.len() implies x < (#[trigger] rest[k]).ordinal() by {
            assert(rest[k] == values[k + 1]);
        }
        lemma_no_occurrence(rest, x);
    }
}

proof fn lemma_interleaves(centroids: Seq<Centroid>, values: Seq<Float64>, singletons: bool)
    requires
        centroid::sorted_numbers(centroids),
        cdf::ascending_numbers(values),
    ensures
        interleaves(
            centroids,
            value_runs(values, singletons),
            merges::merged_by_mean(centroids, values, singletons),
        ),
    decreases centroids.len() + values.len(),
{
    let out = merges::merged_by_mean(centroids, values, singletons);
    let runs = value_runs(values, singletons);
    if values.len() == 0 {
        assert(runs =~= Seq::<Centroid>::empty());
        lemma_interleaves_one_side(centroids);
    } else {
        let v = values[0];
        let n = merges::first_run(values);
        let later = values.skip(n as int);
        let rest = value_runs(later, singletons);
        let run = merges::value_run(v, n, singletons);
        lemma_leading_run(values);
        assert(runs == seq![run] + rest);
        assert(runs.drop_first() =~= rest);
        assert(!v.nan());
        if centroids.len() == 0 || v.lt_spec(centroids[0].mean) {
            lemma_interleaves(centroids, later, singletons);
            assert(out.drop_first() =~= merges::merged_by_mean(centroids, later, singletons));
        } else {
            let c = centroids[0];
            let others = centroids.drop_first();
            assert(!c.mean.nan());
            assert forall|i: int, j: int| 0 <= i <= j < others.len() implies (
            #[trigger] others[i]).mean.ordinal() <= (#[trigger] others[j]).mean.ordinal() by {
                assert(others[i] == centroids[i + 1] && others[j] == centroids[j + 1]);
            }
            assert forall|i: int| 0 <= i < others.len() implies !(
            #[trigger] others[i]).mean.nan() by {
                assert(others[i] == centroids[i + 1]);
            }
            if c.mean.lt_spec(v) {
                lemma_interleaves(others, values, singletons);
                assert(out.drop_first() =~= merges::merged_by_mean(others, values, singletons));
            } else {
                let tail = merges::merged_by_mean(others, later, singletons);
                lemma_interleaves(others, later, singletons);
                assert(out =~= seq![c, run] + tail);
                let second = out.drop_first();
                assert(second =~= seq![run] + tail);
                assert(second.drop_first() =~= tail);
                assert(interleaves(others, runs, second));
            }
        }
    }
}

/// The centroid `c` stands in `out` right before the run of the values at its mean.
pub open spec fn before_its_run(
    out: Seq<Centroid>,
    c: Centroid,
    values: Seq<Float64>,
    singletons: bool,
) -> bool {
    exists|i: int|
        0 <= i < out.len() - 1 && #[trigger] out[i] == c && out[i + 1].mean.eq_spec(c.mean)
            && out[i + 1].weight == Float64::from_int_spec(
            occurrences(values, c.mean.ordinal()),
        ) && out[i + 1].singleton == singletons
}

/// Where a centroid has the mean of a value, it comes first, and the run of the values that
/// are equal to it follows unfused.
pub proof fn law_centroids_come_before_equal_values(
    centroids: Seq<Centroid>,
    values: Seq<Float64>,
    singletons: bool,
    a: int,
    b: int,
)
    requires
        centroid::sorted_numbers(centroids),
        centroid::strictly_increasing(centroids),
        cdf::ascending_numbers(values),
        0 <= a < centroids.len(),
        0 <= b < values.len(),
        centroids[a].mean.eq_spec(values[b]),
    ensures
        before_its_run(
            merges::merged_by_mean(centroids, values, singletons),
            centroids[a],
            values,
            singletons,
        ),
    decreases centroids.len() + values.len(),
{
    let out = merges::merged_by_mean(centroids, values, singletons);
    let v = values[0];
    let n = merges::first_run(values);
    let later = values.skip(n as int);
    let run = merges::value_run(v, n, singletons);
    let c = centroids[0];
    let others = centroids.drop_first();
    let x = centroids[a].mean.ordinal();
    lemma_leading_run(values);
    assert(!v.nan() && !c.mean.nan());
    assert(v.ordinal() <= values[b].ordinal());
    assert(c.mean.ordinal() <= centroids[a].mean.ordinal());
    assert(occurrences(values, x) == occurrences(later, x) + if v.ordinal() == x {
        n as int
    } else {
        0
    });
    if b >= n {
        assert(later[b - n] == values[b]);
        assert(v.ordinal() < later[b - n].ordinal());
    } else {
        lemma_in_run(values, v, b);
    }
    assert forall|i: int, j: int| 0 <= i <= j < others.len() implies (
    #[trigger] others[i]).mean.ordinal() <= (#[trigger] others[j]).mean.ordinal() by {
        assert(others[i] == centroids[i + 1] && others[j] == centroids[j + 1]);
    }
    assert forall|i: int| 0 <= i < others.len() implies !(#[trigger] others[i]).mean.nan() by {
        assert(others[i] == centroids[i + 1]);
    }
    assert forall|i: int, j: int| 0 <= i < j < others.len() implies (
    #[trigger] others[i]).mean.lt_spec((#[trigger] others[j]).mean) by {
        assert(others[i] == centroids[i + 1] && others[j] == centroids[j + 1]);
    }
    if a > 0 {
        assert(others[a - 1] == centroids[a]);
        assert(c.mean.lt_spec(centroids[a].mean));
    }
    if v.lt_spec(c.mean) {
        let tail = merges::merged_by_mean(centroids, later, singletons);
        law_centroids_come_before_equal_values(centroids, later, singletons, a, b - n);
        assert(out == seq![run] + tail);
        lemma_before_its_run(seq![run], tail, out, centroids[a], later, values, singletons);
    } else if c.mean.lt_spec(v) {
        let tail = merges::merged_by_mean(others, values, singletons);
        law_centroids_come_before_equal_values(others, values, singletons, a - 1, b);
        assert(out == seq![c] + tail);
        lemma_before_its_run(seq![c], tail, out, centroids[a], values, values, singletons);
    } else {
        let tail = merges::merged_by_mean(others, later, singletons);
        assert(out =~= seq![c, run] + tail);
        if a == 0 {
            lemma_no_occurrence(later, x);
            assert(out[0] == c && out[1] == run);
        } else {
            law_centroids_come_before_equal_values(others, later, singletons, a - 1, b - n);
            lemma_before_its_run(
                seq![c, run],
                tail,
                out,
                centroids[a],
                later,
                values,
                singletons,
            );
        }
    }
}

/// What stands right before its run does so with more in front.
proof fn lemma_before_its_run(
    front: Seq<Centroid>,
    tail: Seq<Centroid>,
    out: Seq<Centroid>,
    c: Centroid,
    later: Seq<Float64>,
    values: Seq<Float64>,
    singletons: bool,
)
    requires
        out == front + tail,
        before_its_run(tail, c, later, singletons),
        occurrences(later, c.mean.ordinal()) == occurrences(values, c.mean.ordinal()),
    ensures
        before_its_run(out, c, values, singletons),
{
    let i = choose|i: int|
        0 <= i < tail.len() - 1 && #[trigger] tail[i] == c && tail[i + 1].mean.eq_spec(c.mean)
            && tail[i + 1].weight == Float64::from_int_spec(
            occurrences(later, c.mean.ordinal()),
        ) && tail[i + 1].singleton == singletons;
    let j = i + front.len();
    assert(out[j] == tail[i]);
    assert(out[j + 1] == tail[i + 1]);
}

/// Two arguments of a compression hold the same.
pub open spec fn same_input(
    a: (TDigest, usize, NormalizedStream),
    b: (TDigest, usize, NormalizedStream),
) -> bool {
    &&& a.0@ == b.0@
    &&& a.1 == b.1
    &&& a.2.out@ == b.2.out@
    &&& a.2.total_w == b.2.total_w
    &&& a.2.total_mw == b.2.total_mw
    &&& a.2.min == b.2.min
    &&& a.2.max == b.2.max
}

/// `compress` is a function: what it makes depends on what its arguments hold alone.
pub open spec fn functional<C>(compress: C) -> bool where
    C: Fn(TDigest, usize, NormalizedStream) -> TDigest,
 {
    forall|a: (TDigest, usize, NormalizedStream),
        b: (TDigest, usize, NormalizedStream),
        c: TDigest,
        d: TDigest,
    | #[trigger]
        compress.ensures(a, c) && #[trigger] compress.ensures(b, d) && same_input(a, b) ==> c@ == d@
}

/// `compress` makes digests that are within their room.
pub open spec fn bounded<C>(compress: C) -> bool where
    C: Fn(TDigest, usize, NormalizedStream) -> TDigest,
 {
    forall|args: (TDigest, usize, NormalizedStream), c: TDigest| #[trigger]
        compress.ensures(args, c) ==> c@.centroids.len() <= args.0@.policy.room(args.1 as int)
}

/// Where every digest that `compress` makes is within the room that the capacity and the
/// policy of the header give, so is the merged digest.
pub proof fn law_merged_digest_is_within_its_room<C>(
    compress: C,
    header: DigestView,
    items: Seq<Centroid>,
    r: DigestView,
) where C: Fn(TDigest, usize, NormalizedStream) -> TDigest
    requires
        bounded(compress),
        digest::compressed(compress, header, items, r),
    ensures
        r.centroids.len() <= r.policy.room(r.max_size as int),
{
}

/// A compression that is a function makes one digest of one header and one stream.
pub proof fn law_compression_makes_one_digest<C>(
    compress: C,
    header: DigestView,
    items: Seq<Centroid>,
    r: DigestView,
    s: DigestView,
) where C: Fn(TDigest, usize, NormalizedStream) -> TDigest
    requires
        functional(compress),
        digest::compressed(compress, header, items, r),
        digest::compressed(compress, header, items, s),
    ensures
        r == s,
{
    let (a, c) = choose|args: (TDigest, usize, NormalizedStream), c: TDigest|
        digest::compression_input(args, header, items) && #[trigger] compress.ensures(args, c) && r
            == digest::settled(header, c@);
    let (b, d) = choose|args: (TDigest, usize, NormalizedStream), c: TDigest|
        digest::compression_input(args, header, items) && #[trigger] compress.ensures(args, c) && s
            == digest::settled(header, c@);
    assert(same_input(a, b));
}

/// Digests without a count or without centroids do not change what a merge gathers.
pub proof fn law_blank_digests_do_not_matter(digests: Seq<DigestView>)
    ensures
        digest::gathered(digests) == digest::gathered(
            digests.filter(|d: DigestView| d.contributes()),
        ),
    decreases digests.len(),
{
    reveal(Seq::filter);
    let pred = |d: DigestView| d.contributes();
    if digests.len() > 0 {
        let front = digests.drop_last();
        law_blank_digests_do_not_matter(front);
        let kept = front.filter(pred);
        if digests.last().contributes() {
            assert(digests.filter(pred) == kept.push(digests.last()));
            assert(kept.push(digests.last()).drop_last() =~= kept);
        } else {
            assert(digests.filter(pred) == kept);
        }
    } else {
        assert(digests.filter(pred) == digests);
    }
}

/// Merging without the digests that have no count or no centroids gives the same digest,
/// where the compression is a function.
pub proof fn law_merging_leaves_blank_digests_out<C>(
    digests: Seq<DigestView>,
    compress: C,
    r: TDigest,
    s: TDigest,
) where C: Fn(TDigest, usize, NormalizedStream) -> TDigest
    requires
        functional(compress),
        digest::gathered(digests).merged(compress, r),
        digest::gathered(digests.filter(|d: DigestView| d.contributes())).merged(compress, s),
    ensures
        r@ == s@,
{
    let g = digest::gathered(digests);
    law_blank_digests_do_not_matter(digests);
    if !g.blank() {
        law_compression_makes_one_digest(
            compress,
            g.header,
            merges::merged_runs(g.runs),
            r@,
            s@,
        );
    }
}

/// A digest of parts that exceed the capacity is what merging the one digest with room for
/// all of them gives, where the compression is a function.
pub proof fn law_new_beyond_capacity_is_a_merge<C>(parts: Parts, compress: C, r: TDigest, s: TDigest)
    where C: Fn(TDigest, usize, NormalizedStream) -> TDigest
    requires
        functional(compress),
        parts.centroids.len() > parts.max_size,
        parts.constructed(compress, r),
        digest::gathered(seq![parts.digest(parts.centroids.len() as usize)]).merged(compress, s),
    ensures
        r@ == s@,
{
    let g = parts.gathered();
    if !g.blank() {
        law_compression_makes_one_digest(
            compress,
            g.header,
            merges::merged_runs(g.runs),
            r@,
            s@,
        );
    }
}

/// Merging the same values in any order gives one digest, which is that of merging them
/// sorted, where the compression is a function.
pub proof fn law_order_of_values_does_not_matter<C>(
    d: DigestView,
    a: Seq<Float64>,
    b: Seq<Float64>,
    compress: C,
    r: DigestView,
    s: DigestView,
) where C: Fn(TDigest, usize, NormalizedStream) -> TDigest
    requires
        functional(compress),
        a.to_multiset() == b.to_multiset(),
        digest::compressed(
            compress,
            d.header_for_values(sort::sorted(a)),
            d.stream_for_values(sort::sorted(a)),
            r,
        ),
        ({
            ||| digest::compressed(
                compress,
                d.header_for_values(sort::sorted(b)),
                d.stream_for_values(sort::sorted(b)),
                s,
            )
            ||| sort::ascending(b) && digest::compressed(
                compress,
                d.header_for_values(b),
                d.stream_for_values(b),
                s,
            )
        }),
    ensures
        r == s,
{
    sort::law_sorting_forgets_the_order(a, b);
    if sort::ascending(b) {
        sort::lemma_ascending_is_sorted(b);
    }
    law_compression_makes_one_digest(
        compress,
        d.header_for_values(sort::sorted(a)),
        d.stream_for_values(sort::sorted(a)),
        r,
        s,
    );
}

/// Where every result of the compression has strictly increasing means, so has the merged
/// digest: no mean occurs twice.
pub proof fn law_merged_digest_strictly_increases<C>(
    compress: C,
    header: DigestView,
    items: Seq<Centroid>,
    r: DigestView,
) where C: Fn(TDigest, usize, NormalizedStream) -> TDigest
    requires
        forall|args: (TDigest, usize, NormalizedStream), c: TDigest| #[trigger]
            compress.ensures(args, c) && digest::compression_input(args, header, items)
                ==> centroid::strictly_increasing(c@.centroids),
        digest::compressed(compress, header, items, r),
    ensures
        centroid::strictly_increasing(r.centroids),
{
}

/// The settings of a merged digest are those of the header, whatever the compression does.
pub proof fn law_settings_survive_compression<C>(
    compress: C,
    header: DigestView,
    items: Seq<Centroid>,
    r: DigestView,
) where C: Fn(TDigest, usize, NormalizedStream) -> TDigest
    requires
        digest::compressed(compress, header, items, r),
    ensures
        r.max_size == header.max_size,
        r.scale == header.scale,
        r.policy == header.policy,
{
}

/// The settings of a merge of digests are those of the first digest that takes part.
pub proof fn law_settings_are_those_of_the_first(digests: Seq<DigestView>, j: int)
    requires
        0 <= j < digests.len(),
        digests[j].contributes(),
        forall|i: int| 0 <= i < j ==> !(#[trigger] digests[i]).contributes(),
    ensures
        ({
            let g = digest::gathered(digests);
            &&& g.runs.len() > 0
            &&& g.header.max_size == digests[j].max_size
            &&& g.header.scale == digests[j].scale
            &&& g.header.policy == digests[j].policy
        }),
    decreases digests.len(),
{
    let front = digests.drop_last();
    assert(forall|i: int| 0 <= i < front.len() ==> front[i] == digests[i]);
    if j < front.len() {
        law_settings_are_those_of_the_first(front, j);
    } else {
        lemma_none_takes_part(front);
    }
}

proof fn lemma_none_takes_part(digests: Seq<DigestView>)
    requires
        forall|i: int| 0 <= i < digests.len() ==> !(#[trigger] digests[i]).contributes(),
    ensures
        digest::gathered(digests) == digest::gathered(Seq::empty()),
    decreases digests.len(),
{
    if digests.len() > 0 {
        let front = digests.drop_last();
        assert(forall|i: int| 0 <= i < front.len() ==> front[i] == digests[i]);
        assert(!digests[digests.len() - 1].contributes());
        lemma_none_takes_part(front);
    } else {
        assert(digests =~= Seq::<DigestView>::empty());
    }
}

/// A merged digest has the settings of the first digest that takes part, whatever the
/// compression does.
pub proof fn law_merged_digest_keeps_the_first_settings<C>(
    digests: Seq<DigestView>,
    j: int,
    compress: C,
    r: TDigest,
) where C: Fn(TDigest, usize, NormalizedStream) -> TDigest
    requires
        0 <= j < digests.len(),
        digests[j].contributes(),
        forall|i: int| 0 <= i < j ==> !(#[trigger] digests[i]).contributes(),
        digest::gathered(digests).merged(compress, r),
    ensures
        r@.max_size == digests[j].max_size,
        r@.scale == digests[j].scale,
        r@.policy == digests[j].policy,
{
    law_settings_are_those_of_the_first(digests, j);
    lemma_gathered_count(digests);
}

/// Where a digest takes part, something is counted.
proof fn lemma_gathered_count(digests: Seq<DigestView>)
    ensures
        ({
            let g = digest::gathered(digests);
            let zero = Float64::zero_spec(false);
            &&& zero.le_spec(g.header.count)
            &&& g.runs.len() > 0 ==> zero.lt_spec(g.header.count)
        }),
    decreases digests.len(),
{
    let zero = Float64::zero_spec(false);
    if digests.len() > 0 {
        let d = digests.last();
        let before = digest::gathered(digests.drop_last());
        lemma_gathered_count(digests.drop_last());
        if d.contributes() {
            exact::lemma_zero_plus(d.count);
            exact::lemma_sums_keep_order(zero, before.header.count, d.count, d.count);
        }
    }
}

/// The sum of `f` over digests.
pub open spec fn total_of(digests: Seq<DigestView>, f: spec_fn(DigestView) -> int) -> int
    decreases digests.len(),
{
    if digests.len() == 0 {
        0
    } else {
        total_of(digests.drop_last(), f) + f(digests.last())
    }
}

proof fn lemma_total_without(digests: Seq<DigestView>, f: spec_fn(DigestView) -> int, j: int)
    requires
        0 <= j < digests.len(),
    ensures
        total_of(digests, f) == total_of(digests.remove(j), f) + f(digests[j]),
    decreases digests.len(),
{
    let less = digests.remove(j);
    if j == digests.len() - 1 {
        assert(less =~= digests.drop_last());
    } else {
        assert(less.drop_last() =~= digests.drop_last().remove(j));
        assert(less.last() == digests.last());
        lemma_total_without(digests.drop_last(), f, j);
    }
}

/// A sum over digests does not depend on their order.
proof fn lemma_total_of_permutation(
    a: Seq<DigestView>,
    b: Seq<DigestView>,
    f: spec_fn(DigestView) -> int,
)
    requires
        a.to_multiset() == b.to_multiset(),
    ensures
        total_of(a, f) == total_of(b, f),
    decreases a.len(),
{
    a.to_multiset_ensures();
    b.to_multiset_ensures();
    if a.len() > 0 {
        let d = a.last();
        let front = a.drop_last();
        assert(a.contains(d)) by {
            assert(a[a.len() - 1] == d);
        }
        assert(a.to_multiset().count(d) > 0);
        assert(b.contains(d));
        let j = choose|j: int| 0 <= j < b.len() && b[j] == d;
        let less = b.remove(j);
        assert(front.push(d) =~= a);
        front.to_multiset_ensures();
        less.to_multiset_ensures();
        assert(front.to_multiset() =~= a.to_multiset().remove(d));
        assert(less.to_multiset() =~= b.to_multiset().remove(d));
        lemma_total_without(b, f, j);
        lemma_total_of_permutation(front, less, f);
    }
}

/// What stands at position `x` in the gathered runs is what stands at it in the digests.
proof fn lemma_gathered_at(digests: Seq<DigestView>, x: int)
    requires
        digest_laws::all_consistent(digests),
    ensures
        ({
            let g = digest::gathered(digests);
            &&& count_at(g.runs, x) == total_of(
                digests,
                |d: DigestView| count_in(d.centroids, x),
            )
            &&& present(g.runs, x) <==> exists|i: int|
                0 <= i < digests.len() && present_in((#[trigger] digests[i]).centroids, x)
            &&& marked(g.runs, x) <==> forall|i: int|
                0 <= i < digests.len() ==> marked_in((#[trigger] digests[i]).centroids, x)
        }),
    decreases digests.len(),
{
    let g = digest::gathered(digests);
    if digests.len() > 0 {
        let front = digests.drop_last();
        let d = digests.last();
        let n = front.len() as int;
        let before = digest::gathered(front);
        assert(forall|i: int| 0 <= i < front.len() ==> front[i] == digests[i]);
        assert(d == digests[n]);
        assert(digest_laws::consistent(digests[n]));
        lemma_gathered_at(front, x);
        digest_laws::lemma_counts_positive(d);
        if d.contributes() {
            let k = before.runs.len() as int;
            assert(g.runs.drop_last() =~= before.runs);
            assert(g.runs[k] == d.centroids);
            assert(forall|i: int| 0 <= i < k ==> g.runs[i] == before.runs[i]);
            if present(g.runs, x) {
                let i = choose|i: int| 0 <= i < g.runs.len() && present_in(#[trigger] g.runs[i], x);
                if i < k {
                    assert(present_in(before.runs[i], x));
                    assert(present(before.runs, x));
                    let j = choose|j: int|
                        0 <= j < front.len() && present_in((#[trigger] front[j]).centroids, x);
                    assert(present_in(digests[j].centroids, x));
                } else {
                    assert(present_in(digests[n].centroids, x));
                }
            }
            if exists|i: int|
                0 <= i < digests.len() && present_in((#[trigger] digests[i]).centroids, x) {
                let i = choose|i: int|
                    0 <= i < digests.len() && present_in((#[trigger] digests[i]).centroids, x);
                if i < n {
                    assert(present_in(front[i].centroids, x));
                    assert(present(before.runs, x));
                    let j = choose|j: int|
                        0 <= j < before.runs.len() && present_in(#[trigger] before.runs[j], x);
                    assert(present_in(g.runs[j], x));
                } else {
                    assert(present_in(g.runs[k], x));
                }
            }
            if marked(g.runs, x) {
                assert forall|i: int| 0 <= i < before.runs.len() implies marked_in(
                    #[trigger] before.runs[i],
                    x,
                ) by {
                    assert(marked_in(g.runs[i], x));
                }
                assert forall|i: int| 0 <= i < digests.len() implies marked_in(
                    (#[trigger] digests[i]).centroids,
                    x,
                ) by {
                    if i < n {
                        assert(marked_in(front[i].centroids, x));
                    } else {
                        assert(marked_in(g.runs[k], x));
                    }
                }
            }
            if forall|i: int|
                0 <= i < digests.len() ==> marked_in((#[trigger] digests[i]).centroids, x) {
                assert forall|i: int| 0 <= i < front.len() implies marked_in(
                    (#[trigger] front[i]).centroids,
                    x,
                ) by {
                    assert(marked_in(digests[i].centroids, x));
                }
                assert forall|i: int| 0 <= i < g.runs.len() implies marked_in(
                    #[trigger] g.runs[i],
                    x,
                ) by {
                    if i < k {
                        assert(marked_in(before.runs[i], x));
                    } else {
                        assert(marked_in(digests[n].centroids, x));
                    }
                }
            }
        } else {
            assert(d.centroids.len() == 0);
            assert(count_in(d.centroids, x) == 0);
            if present(g.runs, x) {
                let j = choose|j: int|
                    0 <= j < front.len() && present_in((#[trigger] front[j]).centroids, x);
                assert(present_in(digests[j].centroids, x));
            }
            if exists|i: int|
                0 <= i < digests.len() && present_in((#[trigger] digests[i]).centroids, x) {
                let i = choose|i: int|
                    0 <= i < digests.len() && present_in((#[trigger] digests[i]).centroids, x);
                assert(i < n);
                assert(present_in(front[i].centroids, x));
            }
            if marked(g.runs, x) {
                assert forall|i: int| 0 <= i < digests.len() implies marked_in(
                    (#[trigger] digests[i]).centroids,
                    x,
                ) by {
                    if i < n {
                        assert(marked_in(front[i].centroids, x));
                    }
                }
            }
            if forall|i: int|
                0 <= i < digests.len() ==> marked_in((#[trigger] digests[i]).centroids, x) {
                assert forall|i: int| 0 <= i < front.len() implies marked_in(
                    (#[trigger] front[i]).centroids,
                    x,
                ) by {
                    assert(marked_in(digests[i].centroids, x));
                }
            }
        }
    }
}

/// The least and the greatest among the extremes of the digests that take part.
proof fn lemma_gathered_extremes(digests: Seq<DigestView>)
    requires
        digest_laws::all_consistent(digests),
    ensures
        ({
            let g = digest::gathered(digests);
            let top = Float64::infinity_spec(false).nan_last_rank();
            let bottom = Float64::infinity_spec(true).nan_last_rank();
            &&& g.header.min.nan_last_rank() <= top
            &&& bottom <= g.header.max.nan_last_rank()
            &&& forall|i: int|
                0 <= i < digests.len() && (#[trigger] digests[i]).contributes() ==> {
                    &&& g.header.min.nan_last_rank() <= digests[i].min.nan_last_rank()
                    &&& digests[i].max.nan_last_rank() <= g.header.max.nan_last_rank()
                }
            &&& g.header.min.nan_last_rank() == top || exists|i: int|
                0 <= i < digests.len() && (#[trigger] digests[i]).contributes()
                    && g.header.min.nan_last_rank() == digests[i].min.nan_last_rank()
            &&& g.header.max.nan_last_rank() == bottom || exists|i: int|
                0 <= i < digests.len() && (#[trigger] digests[i]).contributes()
                    && g.header.max.nan_last_rank() == digests[i].max.nan_last_rank()
            &&& g.runs.len() == 0 ==> g.header == digest::gathered(Seq::empty()).header
            &&& g.runs.len() > 0 ==> exists|i: int|
                0 <= i < digests.len() && (#[trigger] digests[i]).contributes()
                    && g.header.max_size == digests[i].max_size && g.header.scale
                    == digests[i].scale && g.header.policy == digests[i].policy
            &&& g.runs.len() > 0 <==> exists|i: int|
                0 <= i < digests.len() && (#[trigger] digests[i]).contributes()
        }),
    decreases digests.len(),
{
    let g = digest::gathered(digests);
    if digests.len() > 0 {
        let front = digests.drop_last();
        let d = digests.last();
        let n = front.len() as int;
        let before = digest::gathered(front);
        assert(forall|i: int| 0 <= i < front.len() ==> front[i] == digests[i]);
        assert(d == digests[n]);
        assert(digest_laws::consistent(digests[n]));
        lemma_gathered_extremes(front);
        if exists|i: int|
            0 <= i < front.len() && (#[trigger] front[i]).contributes()
                && before.header.min.nan_last_rank() == front[i].min.nan_last_rank() {
            let i = choose|i: int|
                0 <= i < front.len() && (#[trigger] front[i]).contributes()
                    && before.header.min.nan_last_rank() == front[i].min.nan_last_rank();
            assert(digests[i].contributes());
        }
        if exists|i: int|
            0 <= i < front.len() && (#[trigger] front[i]).contributes()
                && before.header.max.nan_last_rank() == front[i].max.nan_last_rank() {
            let i = choose|i: int|
                0 <= i < front.len() && (#[trigger] front[i]).contributes()
                    && before.header.max.nan_last_rank() == front[i].max.nan_last_rank();
            assert(digests[i].contributes());
        }
        if before.runs.len() > 0 {
            let i = choose|i: int|
                0 <= i < front.len() && (#[trigger] front[i]).contributes()
                    && before.header.max_size == front[i].max_size && before.header.scale
                    == front[i].scale && before.header.policy == front[i].policy;
            assert(digests[i].contributes());
        }
        assert forall|i: int|
            0 <= i < digests.len() && (#[trigger] digests[i]).contributes() implies {
            &&& g.header.min.nan_last_rank() <= digests[i].min.nan_last_rank()
            &&& digests[i].max.nan_last_rank() <= g.header.max.nan_last_rank()
        } by {
            if i < n {
                assert(front[i].contributes());
            }
        }
        if !d.contributes() {
            if exists|i: int| 0 <= i < digests.len() && (#[trigger] digests[i]).contributes() {
                let i = choose|i: int|
                    0 <= i < digests.len() && (#[trigger] digests[i]).contributes();
                assert(front[i].contributes());
            }
        }
    } else {
        assert(digests =~= Seq::<DigestView>::empty());
    }
}

/// Strictly increasing means that stand at the same positions stand at them one by one.
proof fn lemma_same_positions(a: Seq<Centroid>, b: Seq<Centroid>)
    requires
        centroid::strictly_increasing(a),
        centroid::strictly_increasing(b),
        forall|i: int| 0 <= i < a.len() ==> present_in(b, (#[trigger] a[i]).mean.ordinal()),
        forall|i: int| 0 <= i < b.len() ==> present_in(a, (#[trigger] b[i]).mean.ordinal()),
    ensures
        a.len() == b.len(),
        forall|i: int|
            0 <= i < a.len() ==> (#[trigger] a[i]).mean.ordinal() == b[i].mean.ordinal(),
    decreases a.len(),
{
    if a.len() > 0 && b.len() > 0 {
        let n = a.len() - 1;
        let m = b.len() - 1;
        assert(present_in(b, a[n].mean.ordinal()));
        assert(present_in(a, b[m].mean.ordinal()));
        let i = choose|i: int|
            0 <= i < b.len() && (#[trigger] b[i]).mean.ordinal() == a[n].mean.ordinal();
        let j = choose|j: int|
            0 <= j < a.len() && (#[trigger] a[j]).mean.ordinal() == b[m].mean.ordinal();
        if i < m {
            assert(b[i].mean.lt_spec(b[m].mean));
        }
        if j < n {
            assert(a[j].mean.lt_spec(a[n].mean));
        }
        assert(a[n].mean.ordinal() == b[m].mean.ordinal());
        let fa = a.drop_last();
        let fb = b.drop_last();
        assert forall|k: int| 0 <= k < fa.len() implies present_in(
            fb,
            (#[trigger] fa[k]).mean.ordinal(),
        ) by {
            assert(a[k].mean.lt_spec(a[n].mean));
            assert(present_in(b, a[k].mean.ordinal()));
            let l = choose|l: int|
                0 <= l < b.len() && (#[trigger] b[l]).mean.ordinal() == a[k].mean.ordinal();
            assert(fb[l] == b[l]);
        }
        assert forall|k: int| 0 <= k < fb.len() implies present_in(
            fa,
            (#[trigger] fb[k]).mean.ordinal(),
        ) by {
            assert(b[k].mean.lt_spec(b[m].mean));
            assert(present_in(a, b[k].mean.ordinal()));
            let l = choose|l: int|
                0 <= l < a.len() && (#[trigger] a[l]).mean.ordinal() == b[k].mean.ordinal();
            assert(fa[l] == a[l]);
        }
        lemma_same_positions(fa, fb);
        assert forall|k: int| 0 <= k < a.len() implies (#[trigger] a[k]).mean.ordinal()
            == b[k].mean.ordinal() by {
            if k < n {
                assert(fa[k].mean.ordinal() == fb[k].mean.ordinal());
            }
        }
    } else if a.len() > 0 {
        assert(present_in(b, a[0].mean.ordinal()));
    } else if b.len() > 0 {
        assert(present_in(a, b[0].mean.ordinal()));
    }
}

/// All digests that take part have one set of settings.
pub open spec fn one_set_of_settings(digests: Seq<DigestView>) -> bool {
    forall|i: int, j: int|
        0 <= i < digests.len() && 0 <= j < digests.len() && (#[trigger] digests[i]).contributes()
            && (#[trigger] digests[j]).contributes() ==> digests[i].max_size == digests[j].max_size
            && digests[i].scale == digests[j].scale && digests[i].policy == digests[j].policy
}

/// The order of digests with one set of settings does not change what is merged: the
/// headers agree, and so do the merged streams, one centroid after the other. Only the sign
/// of a zero may be that of another digest.
pub proof fn law_order_of_digests_does_not_matter(a: Seq<DigestView>, b: Seq<DigestView>)
    requires
        a.to_multiset() == b.to_multiset(),
        digest_laws::all_consistent(a),
        digest_laws::counted_digests(a) <= 0x20_0000_0000_0000,
        one_set_of_settings(a),
    ensures
        ({
            let ga = digest::gathered(a);
            let gb = digest::gathered(b);
            let sa = merges::merged_runs(ga.runs);
            let sb = merges::merged_runs(gb.runs);
            &&& ga.header.same(gb.header)
            &&& sa.len() == sb.len()
            &&& forall|i: int| 0 <= i < sa.len() ==> (#[trigger] sa[i]).same(sb[i])
        }),
{
    let ga = digest::gathered(a);
    let gb = digest::gathered(b);
    let sa = merges::merged_runs(ga.runs);
    let sb = merges::merged_runs(gb.runs);
    a.to_multiset_ensures();
    b.to_multiset_ensures();
    assert forall|d: DigestView| #[trigger] a.contains(d) == b.contains(d) by {
        assert(a.contains(d) == (a.to_multiset().count(d) > 0));
        assert(b.contains(d) == (b.to_multiset().count(d) > 0));
    }
    assert forall|i: int| 0 <= i < b.len() implies digest_laws::consistent(#[trigger] b[i])
        && a.contains(b[i]) by {
        assert(b.contains(b[i]));
        assert(a.contains(b[i]));
        let j = choose|j: int| 0 <= j < a.len() && a[j] == b[i];
        assert(digest_laws::consistent(a[j]));
    }
    assert forall|i: int| 0 <= i < a.len() implies b.contains(#[trigger] a[i]) by {
        assert(a.contains(a[i]));
    }
    // the counts
    let f = |d: DigestView| weights::counted(d.centroids);
    lemma_total_of_permutation(a, b, f);
    lemma_counted_is_total(a);
    lemma_counted_is_total(b);
    digest_laws::lemma_gathered(a);
    digest_laws::lemma_gathered(b);
    exact::lemma_value_order(ga.header.count, gb.header.count);
    // the extremes and settings
    lemma_gathered_extremes(a);
    lemma_gathered_extremes(b);
    lemma_same_extremes(a, b);
    lemma_same_extremes(b, a);
    lemma_same_settings(a, b);
    // the streams
    merges::law_merged_runs_strictly_increase(ga.runs);
    merges::law_merged_runs_strictly_increase(gb.runs);
    weights::law_merged_runs_count_the_same(ga.runs);
    weights::law_merged_runs_count_the_same(gb.runs);
    law_merged_runs_hold_the_distinct_means(ga.runs);
    law_merged_runs_hold_the_distinct_means(gb.runs);
    law_merged_weights_count_all(ga.runs);
    law_merged_weights_count_all(gb.runs);
    assert forall|x: int| #[trigger] present(ga.runs, x) == present(gb.runs, x) && count_at(
        ga.runs,
        x,
    ) == count_at(gb.runs, x) && marked(ga.runs, x) == marked(gb.runs, x) by {
        lemma_same_at(a, b, x);
    }
    assert forall|i: int| 0 <= i < sa.len() implies present_in(
        sb,
        (#[trigger] sa[i]).mean.ordinal(),
    ) by {
        assert(present(ga.runs, sa[i].mean.ordinal()));
    }
    assert forall|i: int| 0 <= i < sb.len() implies present_in(
        sa,
        (#[trigger] sb[i]).mean.ordinal(),
    ) by {
        assert(present(gb.runs, sb[i].mean.ordinal()));
        assert(present(ga.runs, sb[i].mean.ordinal()));
    }
    lemma_same_positions(sa, sb);
    assert forall|i: int| 0 <= i < sa.len() implies (#[trigger] sa[i]).same(sb[i]) by {
        let x = sa[i].mean.ordinal();
        assert(x == sb[i].mean.ordinal());
        assert(present(ga.runs, x));
        assert(weights::whole(sa[i].weight));
        assert(weights::whole(sb[i].weight));
        assert(!sa[i].mean.nan() && !sb[i].mean.nan());
        exact::lemma_same_halves(sa[i].weight, sb[i].weight, 2 * weights::units(sa[i].weight));
    }
}

proof fn lemma_counted_is_total(digests: Seq<DigestView>)
    ensures
        digest_laws::counted_digests(digests) == total_of(
            digests,
            |d: DigestView| weights::counted(d.centroids),
        ),
    decreases digests.len(),
{
    if digests.len() > 0 {
        lemma_counted_is_total(digests.drop_last());
    }
}

proof fn lemma_same_at(a: Seq<DigestView>, b: Seq<DigestView>, x: int)
    requires
        a.to_multiset() == b.to_multiset(),
        digest_laws::all_consistent(a),
        digest_laws::all_consistent(b),
        forall|i: int| 0 <= i < a.len() ==> b.contains(#[trigger] a[i]),
        forall|i: int| 0 <= i < b.len() ==> a.contains(#[trigger] b[i]),
    ensures
        ({
            let ga = digest::gathered(a);
            let gb = digest::gathered(b);
            &&& present(ga.runs, x) == present(gb.runs, x)
            &&& count_at(ga.runs, x) == count_at(gb.runs, x)
            &&& marked(ga.runs, x) == marked(gb.runs, x)
        }),
{
    lemma_gathered_at(a, x);
    lemma_gathered_at(b, x);
    lemma_total_of_permutation(a, b, |d: DigestView| count_in(d.centroids, x));
    if exists|i: int| 0 <= i < a.len() && present_in((#[trigger] a[i]).centroids, x) {
        let i = choose|i: int| 0 <= i < a.len() && present_in((#[trigger] a[i]).centroids, x);
        assert(b.contains(a[i]));
        let j = choose|j: int| 0 <= j < b.len() && b[j] == a[i];
        assert(present_in(b[j].centroids, x));
    }
    if exists|i: int| 0 <= i < b.len() && present_in((#[trigger] b[i]).centroids, x) {
        let i = choose|i: int| 0 <= i < b.len() && present_in((#[trigger] b[i]).centroids, x);
        assert(a.contains(b[i]));
        let j = choose|j: int| 0 <= j < a.len() && a[j] == b[i];
        assert(present_in(a[j].centroids, x));
    }
    if forall|i: int| 0 <= i < a.len() ==> marked_in((#[trigger] a[i]).centroids, x) {
        assert forall|i: int| 0 <= i < b.len() implies marked_in(
            (#[trigger] b[i]).centroids,
            x,
        ) by {
            assert(a.contains(b[i]));
            let j = choose|j: int| 0 <= j < a.len() && a[j] == b[i];
            assert(marked_in(a[j].centroids, x));
        }
    }
    if forall|i: int| 0 <= i < b.len() ==> marked_in((#[trigger] b[i]).centroids, x) {
        assert forall|i: int| 0 <= i < a.len() implies marked_in(
            (#[trigger] a[i]).centroids,
            x,
        ) by {
            assert(b.contains(a[i]));
            let j = choose|j: int| 0 <= j < b.len() && b[j] == a[i];
            assert(marked_in(b[j].centroids, x));
        }
    }
}

/// The extremes of the first are no less far out than those of the second.
proof fn lemma_same_extremes(a: Seq<DigestView>, b: Seq<DigestView>)
    requires
        digest_laws::all_consistent(a),
        digest_laws::all_consistent(b),
        forall|i: int| 0 <= i < b.len() ==> a.contains(#[trigger] b[i]),
    ensures
        digest::gathered(a).header.min.nan_last_rank() <= digest::gathered(
            b,
        ).header.min.nan_last_rank(),
        digest::gathered(b).header.max.nan_last_rank() <= digest::gathered(
            a,
        ).header.max.nan_last_rank(),
{
    let gb = digest::gathered(b);
    lemma_gathered_extremes(a);
    lemma_gathered_extremes(b);
    if exists|i: int|
        0 <= i < b.len() && (#[trigger] b[i]).contributes() && gb.header.min.nan_last_rank()
            == b[i].min.nan_last_rank() {
        let i = choose|i: int|
            0 <= i < b.len() && (#[trigger] b[i]).contributes() && gb.header.min.nan_last_rank()
                == b[i].min.nan_last_rank();
        assert(a.contains(b[i]));
        let j = choose|j: int| 0 <= j < a.len() && a[j] == b[i];
        assert(a[j].contributes());
    }
    if exists|i: int|
        0 <= i < b.len() && (#[trigger] b[i]).contributes() && gb.header.max.nan_last_rank()
            == b[i].max.nan_last_rank() {
        let i = choose|i: int|
            0 <= i < b.len() && (#[trigger] b[i]).contributes() && gb.header.max.nan_last_rank()
                == b[i].max.nan_last_rank();
        assert(a.contains(b[i]));
        let j = choose|j: int| 0 <= j < a.len() && a[j] == b[i];
        assert(a[j].contributes());
    }
}

proof fn lemma_same_settings(a: Seq<DigestView>, b: Seq<DigestView>)
    requires
        digest_laws::all_consistent(a),
        digest_laws::all_consistent(b),
        forall|i: int| 0 <= i < a.len() ==> b.contains(#[trigger] a[i]),
        forall|i: int| 0 <= i < b.len() ==> a.contains(#[trigger] b[i]),
        one_set_of_settings(a),
    ensures
        ({
            let ga = digest::gathered(a).header;
            let gb = digest::gathered(b).header;
            &&& ga.max_size == gb.max_size
            &&& ga.scale == gb.scale
            &&& ga.policy == gb.policy
            &&& ga.centroids == gb.centroids
            &&& ga.sum == gb.sum
        }),
{
    let ga = digest::gathered(a);
    let gb = digest::gathered(b);
    lemma_gathered_extremes(a);
    lemma_gathered_extremes(b);
    lemma_header_is_bare(a);
    lemma_header_is_bare(b);
    if ga.runs.len() > 0 {
        let i = choose|i: int|
            0 <= i < a.len() && (#[trigger] a[i]).contributes() && ga.header.max_size
                == a[i].max_size && ga.header.scale == a[i].scale && ga.header.policy
                == a[i].policy;
        assert(b.contains(a[i]));
        let j = choose|j: int| 0 <= j < b.len() && b[j] == a[i];
        assert(b[j].contributes());
        let k = choose|k: int|
            0 <= k < b.len() && (#[trigger] b[k]).contributes() && gb.header.max_size
                == b[k].max_size && gb.header.scale == b[k].scale && gb.header.policy
                == b[k].policy;
        assert(a.contains(b[k]));
        let l = choose|l: int| 0 <= l < a.len() && a[l] == b[k];
        assert(a[l].contributes() && a[i].contributes());
    } else if gb.runs.len() > 0 {
        let k = choose|k: int| 0 <= k < b.len() && (#[trigger] b[k]).contributes();
        assert(a.contains(b[k]));
        let l = choose|l: int| 0 <= l < a.len() && a[l] == b[k];
        assert(a[l].contributes());
    }
}

/// The header of a merge has no centroids and no sum yet.
proof fn lemma_header_is_bare(digests: Seq<DigestView>)
    ensures
        digest::gathered(digests).header.centroids == Seq::<Centroid>::empty(),
        digest::gathered(digests).header.sum == Float64::zero_spec(false),
    decreases digests.len(),
{
    if digests.len() > 0 {
        lemma_header_is_bare(digests.drop_last());
    }
}

/// The stream holds strictly increasing numbers between the extremes of the header, whose
/// weights count at most `2^53` values.
pub open spec fn tidy(args: (TDigest, usize, NormalizedStream)) -> bool {
    let out = args.2.out@;
    &&& centroid::strictly_increasing(out)
    &&& centroid::sorted_numbers(out)
    &&& weights::all_whole(out)
    &&& weights::counted(out) <= 0x20_0000_0000_0000
    &&& !args.0.min.nan()
    &&& !args.0.max.nan()
    &&& digest_laws::within(out, args.0.min.ordinal(), args.0.max.ordinal())
}

/// The digest `c` keeps of the stream what a compression must keep: the order of its means
/// and their bounds, what they count, the totals of the header, and the sum.
pub open spec fn keeps(args: (TDigest, usize, NormalizedStream), c: DigestView) -> bool {
    let out = args.2.out@;
    &&& centroid::strictly_increasing(c.centroids)
    &&& centroid::sorted_numbers(c.centroids)
    &&& weights::all_whole(c.centroids)
    &&& weights::counted(c.centroids) == weights::counted(out)
    &&& digest_laws::within(c.centroids, args.0.min.ordinal(), args.0.max.ordinal())
    &&& c.count == args.0.count
    &&& c.min == args.0.min
    &&& c.max == args.0.max
    &&& c.sum == args.2.total_mw
}

/// `compress` keeps of every tidy stream what must be kept.
pub open spec fn faithful<C>(compress: C) -> bool where
    C: Fn(TDigest, usize, NormalizedStream) -> TDigest,
 {
    forall|args: (TDigest, usize, NormalizedStream), c: TDigest| #[trigger]
        compress.ensures(args, c) && tidy(args) ==> keeps(args, c@)
}

/// Keeping all centroids is faithful: what it makes of any arguments keeps them.
pub proof fn law_keeping_all_is_faithful(
    args: (TDigest, usize, NormalizedStream),
    c: TDigest,
)
    requires
        call_ensures(digest::keep_all, args, c),
        tidy(args),
    ensures
        keeps(args, c@),
{
}

/// Merging values into a consistent digest by a faithful compression gives a consistent
/// digest that counts all of them. The settings stay, the extremes are the least and the
/// greatest of those of the digest and of the values, and the sum is that of the weighted
/// means of the merged stream.
pub proof fn law_faithful_merge_of_values<C>(
    d: DigestView,
    values: Seq<Float64>,
    compress: C,
    r: DigestView,
) where C: Fn(TDigest, usize, NormalizedStream) -> TDigest
    requires
        faithful(compress),
        digest_laws::consistent(d),
        cdf::ascending_numbers(values),
        values.len() > 0,
        weights::counted(d.centroids) + values.len() <= 0x20_0000_0000_0000,
        digest::compressed(compress, d.header_for_values(values), d.stream_for_values(values), r),
    ensures
        digest_laws::consistent(r),
        weights::counted(r.centroids) == weights::counted(d.centroids) + values.len(),
        r.count == d.header_for_values(values).count,
        exact::is_halves(r.count, 2 * (weights::counted(d.centroids) + values.len())),
        r.max_size == d.max_size && r.scale == d.scale && r.policy == d.policy,
        forall|i: int|
            0 <= i < values.len() ==> r.min.le_spec(#[trigger] values[i]) && values[i].le_spec(
                r.max,
            ),
        d.counted() ==> r.min.le_spec(d.min) && d.max.le_spec(r.max),
        r.min == values[0] || d.counted() && r.min == d.min,
        r.max == values.last() || d.counted() && r.max == d.max,
        r.sum == merges::weighted_mean_sum(d.stream_for_values(values)),
{
    let header = d.header_for_values(values);
    let items = d.stream_for_values(values);
    let merged = DigestView { centroids: centroid::coalesced(items), ..header };
    digest_laws::law_merging_values_is_consistent(d, values, merged);
    lemma_faithful(compress, header, items, merged, r);
    digest_laws::lemma_counts_positive(d);
}

/// Merging consistent digests by a faithful compression gives a consistent digest that
/// counts what all of them count. Its extremes are the least and the greatest of theirs,
/// and the sum is that of the weighted means of the merged stream.
pub proof fn law_faithful_merge_of_digests<C>(digests: Seq<DigestView>, compress: C, r: TDigest)
    where C: Fn(TDigest, usize, NormalizedStream) -> TDigest
    requires
        faithful(compress),
        digest_laws::all_consistent(digests),
        0 < digest_laws::counted_digests(digests) <= 0x20_0000_0000_0000,
        digest::gathered(digests).merged(compress, r),
    ensures
        digest_laws::consistent(r@),
        weights::counted(r@.centroids) == digest_laws::counted_digests(digests),
        exact::is_halves(r@.count, 2 * digest_laws::counted_digests(digests)),
        r@.sum == merges::weighted_mean_sum(
            merges::merged_runs(digest::gathered(digests).runs),
        ),
        forall|i: int|
            0 <= i < digests.len() && (#[trigger] digests[i]).contributes() ==> r@.min.le_spec(
                digests[i].min,
            ) && digests[i].max.le_spec(r@.max),
        exists|i: int|
            0 <= i < digests.len() && (#[trigger] digests[i]).contributes()
                && r@.min.eq_spec(digests[i].min),
        exists|i: int|
            0 <= i < digests.len() && (#[trigger] digests[i]).contributes()
                && r@.max.eq_spec(digests[i].max),
{
    let g = digest::gathered(digests);
    let items = merges::merged_runs(g.runs);
    let merged = DigestView { centroids: centroid::coalesced(items), ..g.header };
    let top = Float64::infinity_spec(false);
    let bottom = Float64::infinity_spec(true);
    digest_laws::law_merging_digests_is_consistent(digests, merged);
    digest_laws::lemma_gathered(digests);
    lemma_faithful(compress, g.header, items, merged, r@);
    lemma_gathered_extremes(digests);
    assert forall|i: int| 0 <= i < digests.len() && (#[trigger] digests[i]).contributes() implies r@.min.le_spec(
        digests[i].min,
    ) && digests[i].max.le_spec(r@.max) by {
        assert(digest_laws::consistent(digests[i]));
    }
    // some digest takes part
    assert(g.runs.len() > 0) by {
        if g.runs.len() == 0 {
            assert(weights::counted_runs(g.runs) == 0);
        }
    }
    let k = choose|k: int| 0 <= k < digests.len() && (#[trigger] digests[k]).contributes();
    assert(digest_laws::consistent(digests[k]));
    assert(!top.nan() && !bottom.nan());
    if g.header.min.nan_last_rank() == top.nan_last_rank() {
        assert(r@.min.eq_spec(digests[k].min));
    } else {
        let i = choose|i: int|
            0 <= i < digests.len() && (#[trigger] digests[i]).contributes()
                && g.header.min.nan_last_rank() == digests[i].min.nan_last_rank();
        assert(digest_laws::consistent(digests[i]));
        assert(r@.min.eq_spec(digests[i].min));
    }
    if g.header.max.nan_last_rank() == bottom.nan_last_rank() {
        assert(r@.max.eq_spec(digests[k].max));
    } else {
        let i = choose|i: int|
            0 <= i < digests.len() && (#[trigger] digests[i]).contributes()
                && g.header.max.nan_last_rank() == digests[i].max.nan_last_rank();
        assert(digest_laws::consistent(digests[i]));
        assert(r@.max.eq_spec(digests[i].max));
    }
}

/// A faithful compression of a stream that agrees with its header.
proof fn lemma_faithful<C>(
    compress: C,
    header: DigestView,
    items: Seq<Centroid>,
    merged: DigestView,
    r: DigestView,
) where C: Fn(TDigest, usize, NormalizedStream) -> TDigest
    requires
        faithful(compress),
        merged == (DigestView { centroids: centroid::coalesced(items), ..header }),
        digest_laws::consistent(merged),
        merged.centroids.len() > 0 || (!header.min.nan() && !header.max.nan()),
        digest::compressed(compress, header, items, r),
    ensures
        digest_laws::consistent(r),
        weights::counted(r.centroids) == weights::counted(merged.centroids),
        r.count == header.count,
        r.min == header.min,
        r.max == header.max,
        r.sum == merges::weighted_mean_sum(items),
{
    let (args, c) = choose|args: (TDigest, usize, NormalizedStream), c: TDigest|
        digest::compression_input(args, header, items) && #[trigger] compress.ensures(args, c) && r
            == digest::settled(header, c@);
    let out = args.2.out@;
    let n = out.len() - 1;
    assert(args.0@ == header);
    assert(args.0.min == args.0@.min && args.0.max == args.0@.max);
    assert forall|i: int| 0 <= i < out.len() implies header.min.ordinal() <= (
    #[trigger] out[i]).mean.ordinal() <= header.max.ordinal() by {
        assert(out[0].mean.ordinal() <= out[i].mean.ordinal());
        assert(out[i].mean.ordinal() <= out[n].mean.ordinal());
    }
    assert(tidy(args));
    assert(keeps(args, c@));
    if r.centroids.len() > 0 {
        assert(r.centroids[0].mean.ordinal() >= header.min.ordinal());
        assert(r.centroids[r.centroids.len() - 1].mean.ordinal() <= header.max.ordinal());
    }
}

/// What holds of every mean in the runs holds of every mean of the merged stream.
pub proof fn lemma_merged_means_occur(runs: Seq<Seq<Centroid>>, p: spec_fn(Float64) -> bool)
    requires
        all_means(runs, p),
    ensures
        forall|i: int|
            0 <= i < merges::merged_runs(runs).len() ==> p(
                (#[trigger] merges::merged_runs(runs)[i]).mean,
            ),
    decreases merges::total_len(runs),
{
    let out = merges::merged_runs(runs);
    let i = merges::best(runs);
    if merges::is_best(runs, i) {
        let c = runs[i][0];
        let (first, rest) = merges::merge_step(runs);
        merges::lemma_merge_step_is_shorter(runs);
        lemma_all_means_without_head(runs, i, p);
        lemma_all_means_take_equal(
            merges::without_head(runs, i),
            c.mean,
            Float64::zero_spec(false).plus_spec(c.weight),
            c.singleton,
            p,
        );
        lemma_merged_means_occur(rest, p);
        let tail = merges::merged_runs(rest);
        assert(p(runs[i][0].mean));
        assert forall|j: int| 0 <= j < out.len() implies p((#[trigger] out[j]).mean) by {
            if j > 0 {
                assert(out[j] == tail[j - 1]);
            }
        }
    }
}

/// The predicate holds of every mean in the runs.
pub open spec fn all_means(runs: Seq<Seq<Centroid>>, p: spec_fn(Float64) -> bool) -> bool {
    forall|i: int, k: int|
        0 <= i < runs.len() && 0 <= k < runs[i].len() ==> p((#[trigger] runs[i][k]).mean)
}

proof fn lemma_all_means_without_head(
    runs: Seq<Seq<Centroid>>,
    i: int,
    p: spec_fn(Float64) -> bool,
)
    requires
        all_means(runs, p),
        0 <= i < runs.len(),
        runs[i].len() > 0,
    ensures
        all_means(merges::without_head(runs, i), p),
{
    let next = merges::without_head(runs, i);
    assert forall|j: int, k: int| 0 <= j < next.len() && 0 <= k < next[j].len() implies p(
        (#[trigger] next[j][k]).mean,
    ) by {
        if j == i {
            assert(next[j][k] == runs[j][k + 1]);
        } else {
            assert(next[j][k] == runs[j][k]);
        }
    }
}

proof fn lemma_all_means_take_equal(
    runs: Seq<Seq<Centroid>>,
    mean: Float64,
    w: Float64,
    singleton: bool,
    p: spec_fn(Float64) -> bool,
)
    requires
        all_means(runs, p),
    ensures
        all_means(merges::take_equal(runs, mean, w, singleton).2, p),
    decreases merges::total_len(runs),
{
    let i = merges::best(runs);
    if merges::is_best(runs, i) && runs[i][0].mean.eq_spec(mean) {
        merges::lemma_without_head_is_shorter(runs, i);
        lemma_all_means_without_head(runs, i, p);
        lemma_all_means_take_equal(
            merges::without_head(runs, i),
            mean,
            w.plus_spec(runs[i][0].weight),
            singleton && runs[i][0].singleton,
            p,
        );
    }
}

/// The number is not a negative zero.
pub open spec fn unsigned_zero(x: Float64) -> bool {
    x.zero() ==> !x.negative()
}

/// No mean and no extreme of the digest is a negative zero.
pub open spec fn plain(d: DigestView) -> bool {
    &&& unsigned_zero(d.min)
    &&& unsigned_zero(d.max)
    &&& forall|i: int| 0 <= i < d.centroids.len() ==> unsigned_zero((#[trigger] d.centroids[i]).mean)
}

/// Equal numbers of which none is a negative zero are the same number.
proof fn lemma_same_plain(x: Float64, y: Float64)
    requires
        x.same(y),
        !x.nan(),
        !y.nan(),
        unsigned_zero(x),
        unsigned_zero(y),
    ensures
        x == y,
{
    exact::lemma_same(x, y);
}

/// What plain digests gather is plain.
proof fn lemma_gathered_is_plain(digests: Seq<DigestView>)
    requires
        forall|i: int| 0 <= i < digests.len() ==> plain(#[trigger] digests[i]),
    ensures
        ({
            let g = digest::gathered(digests);
            &&& unsigned_zero(g.header.min)
            &&& unsigned_zero(g.header.max)
            &&& all_means(g.runs, |x: Float64| unsigned_zero(x))
        }),
    decreases digests.len(),
{
    let p = |x: Float64| unsigned_zero(x);
    if digests.len() > 0 {
        let front = digests.drop_last();
        let d = digests.last();
        assert forall|i: int| 0 <= i < front.len() implies plain(#[trigger] front[i]) by {
            assert(front[i] == digests[i]);
        }
        assert(plain(digests[digests.len() - 1]));
        lemma_gathered_is_plain(front);
        let before = digest::gathered(front).runs;
        let runs = digest::gathered(digests).runs;
        assert forall|i: int, k: int| 0 <= i < runs.len() && 0 <= k < runs[i].len() implies p(
            (#[trigger] runs[i][k]).mean,
        ) by {
            if i < before.len() {
                assert(runs[i][k] == before[i][k]);
            } else {
                assert(runs[i][k] == d.centroids[k]);
            }
        }
    }
}

/// Where no mean and no extreme is a negative zero, merging digests with one set of settings
/// gives one digest, whatever their order and whatever the compression does, as long as it
/// is a function.
pub proof fn law_order_of_digests_gives_one_digest<C>(
    a: Seq<DigestView>,
    b: Seq<DigestView>,
    compress: C,
    r: TDigest,
    s: TDigest,
) where C: Fn(TDigest, usize, NormalizedStream) -> TDigest
    requires
        functional(compress),
        a.to_multiset() == b.to_multiset(),
        digest_laws::all_consistent(a),
        digest_laws::counted_digests(a) <= 0x20_0000_0000_0000,
        one_set_of_settings(a),
        forall|i: int| 0 <= i < a.len() ==> plain(#[trigger] a[i]),
        digest::gathered(a).merged(compress, r),
        digest::gathered(b).merged(compress, s),
    ensures
        r@ == s@,
{
    let ga = digest::gathered(a);
    let gb = digest::gathered(b);
    let sa = merges::merged_runs(ga.runs);
    let sb = merges::merged_runs(gb.runs);
    let p = |x: Float64| unsigned_zero(x);
    law_order_of_digests_does_not_matter(a, b);
    a.to_multiset_ensures();
    b.to_multiset_ensures();
    assert forall|i: int| 0 <= i < b.len() implies digest_laws::consistent(#[trigger] b[i]) && plain(
        b[i],
    ) by {
        assert(b.contains(b[i]));
        assert(a.to_multiset().count(b[i]) > 0);
        assert(a.contains(b[i]));
        let j = choose|j: int| 0 <= j < a.len() && a[j] == b[i];
        assert(digest_laws::consistent(a[j]) && plain(a[j]));
    }
    let f = |d: DigestView| weights::counted(d.centroids);
    lemma_total_of_permutation(a, b, f);
    lemma_counted_is_total(a);
    lemma_counted_is_total(b);
    digest_laws::lemma_gathered(a);
    digest_laws::lemma_gathered(b);
    weights::lemma_constants();
    let n = digest_laws::counted_digests(a);
    exact::lemma_value_order(ga.header.count, Float64::zero_spec(false));
    exact::lemma_value_order(gb.header.count, Float64::zero_spec(false));
    if !ga.blank() {
        // the headers
        weights::lemma_counted_runs_is_not_negative(ga.runs);
        assert(n != 0) by {
            assert((2 * 0) * exact::h() == 0) by (nonlinear_arith);
        }
        exact::lemma_same_halves(ga.header.count, gb.header.count, 2 * n);
        lemma_gathered_is_plain(a);
        lemma_gathered_is_plain(b);
        lemma_same_plain(ga.header.min, gb.header.min);
        lemma_same_plain(ga.header.max, gb.header.max);
        lemma_header_is_bare(a);
        lemma_header_is_bare(b);
        assert(ga.header == gb.header);
        // the streams
        lemma_merged_means_occur(ga.runs, p);
        lemma_merged_means_occur(gb.runs, p);
        weights::law_merged_runs_count_the_same(ga.runs);
        weights::law_merged_runs_count_the_same(gb.runs);
        merges::law_merged_runs_strictly_increase(ga.runs);
        merges::law_merged_runs_strictly_increase(gb.runs);
        assert forall|i: int| 0 <= i < sa.len() implies sa[i] == sb[i] by {
            assert(sa[i].same(sb[i]));
            assert(p(sa[i].mean) && p(sb[i].mean));
            assert(weights::whole(sa[i].weight) && weights::whole(sb[i].weight));
            assert(!sa[i].mean.nan() && !sb[i].mean.nan());
            lemma_same_plain(sa[i].mean, sb[i].mean);
            exact::lemma_value_order(sa[i].weight, sb[i].weight);
            exact::lemma_same_halves(
                sa[i].weight,
                sb[i].weight,
                2 * weights::units(sa[i].weight),
            );
        }
        assert(sa =~= sb);
        law_compression_makes_one_digest(compress, ga.header, sa, r@, s@);
    }
}

/// Merging values into a digest keeps its centroids unchanged and in order, and puts in one
/// run for each distinct value, which is marked as a singleton under every policy but
/// `Off`.
pub proof fn law_merged_values_are_marked_by_the_policy(d: DigestView, values: Seq<Float64>)
    requires
        centroid::sorted_numbers(d.centroids),
        cdf::ascending_numbers(values),
    ensures
        ({
            let mark = match d.policy {
                SingletonPolicy::Off => false,
                SingletonPolicy::Use => true,
                SingletonPolicy::UseWithProtectedEdges(_) => true,
            };
            let runs = value_runs(values, mark);
            &&& interleaves(d.centroids, runs, d.stream_for_values(values))
            &&& centroid::strictly_increasing(runs)
            &&& forall|i: int|
                0 <= i < runs.len() ==> (#[trigger] runs[i]).singleton == mark && runs[i].weight
                    == Float64::from_int_spec(occurrences(values, runs[i].mean.ordinal())) && 0
                    < occurrences(values, runs[i].mean.ordinal())
            &&& forall|k: int|
                0 <= k < values.len() ==> present_in(runs, (#[trigger] values[k]).ordinal())
        }),
{
    let mark = !(d.policy is Off);
    law_merge_by_mean_holds_both(d.centroids, values, mark);
}

/// The header of a merge of values: what was counted and the number of values are added up,
/// the extremes are those of the values and, where something was counted before, of the
/// digest, NaN being the greatest; there is no centroid and no sum yet, and the settings
/// stay.
pub proof fn law_header_of_merged_values(d: DigestView, values: Seq<Float64>)
    requires
        values.len() > 0,
        sort::ascending(values) || cdf::ascending_numbers(values),
    ensures
        ({
            let h = d.header_for_values(values);
            let (least, greatest) = (values[0].nan_last_rank(), values.last().nan_last_rank());
            let before = Float64::zero_spec(false).lt_spec(d.count);
            &&& h.centroids.len() == 0
            &&& h.sum == Float64::zero_spec(false)
            &&& h.count == d.count.plus_spec(Float64::from_int_spec(values.len() as int))
            &&& h.max_size == d.max_size
            &&& h.scale == d.scale
            &&& h.policy == d.policy
            &&& !before ==> h.min == values[0] && h.max == values.last()
            &&& before ==> {
                &&& h.min == d.min || h.min == values[0]
                &&& h.min.nan_last_rank() <= d.min.nan_last_rank()
                &&& h.min.nan_last_rank() <= least
                &&& h.max == d.max || h.max == values.last()
                &&& d.max.nan_last_rank() <= h.max.nan_last_rank()
                &&& greatest <= h.max.nan_last_rank()
            }
        }),
{
}

/// A merge gathers exactly the digests that have counted something and have centroids, in
/// their order. The counts are added up from the left, the extremes are the least and the
/// greatest, NaN being the greatest, and the settings are those of the first of them.
pub proof fn law_gathering_takes_what_counts(digests: Seq<DigestView>)
    ensures
        ({
            let g = digest::gathered(digests);
            let kept = digests.filter(
                |d: DigestView|
                    Float64::zero_spec(false).lt_spec(d.count) && d.centroids.len() > 0,
            );
            &&& g.runs == kept.map_values(|d: DigestView| d.centroids)
            &&& g.header.count == cdf::sum(kept.map_values(|d: DigestView| d.count))
            &&& g.header.centroids.len() == 0
            &&& g.header.sum == Float64::zero_spec(false)
            &&& kept.len() > 0 ==> {
                &&& g.header.max_size == kept[0].max_size
                &&& g.header.scale == kept[0].scale
                &&& g.header.policy == kept[0].policy
            }
            &&& forall|i: int|
                0 <= i < kept.len() ==> {
                    &&& g.header.min.nan_last_rank() <= (#[trigger] kept[i]).min.nan_last_rank()
                    &&& kept[i].max.nan_last_rank() <= g.header.max.nan_last_rank()
                }
            &&& g.header.min == Float64::infinity_spec(false) || exists|i: int|
                0 <= i < kept.len() && (#[trigger] kept[i]).min == g.header.min
            &&& g.header.max == Float64::infinity_spec(true) || exists|i: int|
                0 <= i < kept.len() && (#[trigger] kept[i]).max == g.header.max
        }),
    decreases digests.len(),
{
    let pred = |d: DigestView|
        Float64::zero_spec(false).lt_spec(d.count) && d.centroids.len() > 0;
    let g = digest::gathered(digests);
    let kept = digests.filter(pred);
    reveal(Seq::filter);
    if digests.len() == 0 {
        assert(kept =~= Seq::<DigestView>::empty());
        assert(kept.map_values(|d: DigestView| d.centroids) =~= Seq::<Seq<Centroid>>::empty());
        assert(kept.map_values(|d: DigestView| d.count) =~= Seq::<Float64>::empty());
    } else {
        let front = digests.drop_last();
        let d = digests.last();
        let some = front.filter(pred);
        let before = digest::gathered(front);
        law_gathering_takes_what_counts(front);
        if pred(d) {
            let n = some.len() as int;
            assert(kept == some.push(d));
            assert(kept.map_values(|d: DigestView| d.centroids) =~= some.map_values(
                |d: DigestView| d.centroids,
            ).push(d.centroids));
            let counts = kept.map_values(|d: DigestView| d.count);
            assert(counts.drop_last() =~= some.map_values(|d: DigestView| d.count));
            assert(counts.last() == d.count);
            assert(kept[n] == d);
            assert(forall|i: int| 0 <= i < n ==> kept[i] == some[i]);
            assert forall|i: int| 0 <= i < kept.len() implies {
                &&& g.header.min.nan_last_rank() <= (#[trigger] kept[i]).min.nan_last_rank()
                &&& kept[i].max.nan_last_rank() <= g.header.max.nan_last_rank()
            } by {
                if i < n {
                    assert(before.header.min.nan_last_rank() <= some[i].min.nan_last_rank());
                }
            }
            if g.header.min != d.min && g.header.min != Float64::infinity_spec(false) {
                let i = choose|i: int|
                    0 <= i < some.len() && (#[trigger] some[i]).min == before.header.min;
                assert(kept[i].min == g.header.min);
            }
            if g.header.max != d.max && g.header.max != Float64::infinity_spec(true) {
                let i = choose|i: int|
                    0 <= i < some.len() && (#[trigger] some[i]).max == before.header.max;
                assert(kept[i].max == g.header.max);
            }
        } else {
            assert(kept == some);
        }
    }
}

/// A merge gives the default digest exactly where nothing was counted.
pub proof fn law_merging_nothing_gives_the_default<C>(
    digests: Seq<DigestView>,
    compress: C,
    r: TDigest,
) where C: Fn(TDigest, usize, NormalizedStream) -> TDigest
    requires
        digest::gathered(digests).merged(compress, r),
        digest::gathered(digests).header.count.eq_spec(Float64::zero_spec(false)),
    ensures
        r@.centroids.len() == 0,
        r@.sum == Float64::zero_spec(false),
        r@.count == Float64::zero_spec(false),
        r@.min.nan(),
        r@.max.nan(),
        r@.max_size == 1000,
        r@.scale == ScaleFamily::K2,
        r@.policy == SingletonPolicy::Use,
{
}

/// A digest without values has no centroids, sum and count 0, and no extremes.
pub proof fn law_new_digests_are_empty(max_size: usize, scale: ScaleFamily, policy: SingletonPolicy)
    ensures
        ({
            let d = DigestView::empty(max_size, scale, policy);
            &&& d.centroids.len() == 0
            &&& d.sum == Float64::zero_spec(false)
            &&& d.count == Float64::zero_spec(false)
            &&& d.min.nan()
            &&& d.max.nan()
            &&& d.max_size == max_size
            &&& d.scale == scale
            &&& d.policy == policy
        }),
        DigestView::default_spec() == DigestView::empty(1000, ScaleFamily::K2, SingletonPolicy::Use),
{
}

/// A digest of parts that fit the capacity holds them as they are, with the default scale
/// and policy; of parts that do not, it is what the compression makes of the centroids,
/// merged by mean, under a header with their count and extremes and room for all of them.
pub proof fn law_digest_of_parts<C>(parts: Parts, compress: C, r: TDigest) where
    C: Fn(TDigest, usize, NormalizedStream) -> TDigest,

    requires
        parts.constructed(compress, r),
        parts.centroids.len() <= usize::MAX,
    ensures
        parts.centroids.len() <= parts.max_size ==> {
            &&& r@.centroids == parts.centroids
            &&& r@.sum == parts.sum
            &&& r@.count == parts.count
            &&& r@.min == parts.min
            &&& r@.max == parts.max
            &&& r@.max_size == parts.max_size
            &&& r@.scale == ScaleFamily::K2
            &&& r@.policy == SingletonPolicy::Use
        },
        parts.centroids.len() > parts.max_size && Float64::zero_spec(false).lt_spec(parts.count)
            ==> exists|header: DigestView| #[trigger]
            digest::compressed(
                compress,
                header,
                merges::merged_runs(seq![parts.centroids]),
                r@,
            ) && header.max_size == parts.centroids.len() && header.count.eq_spec(parts.count)
                && header.scale == ScaleFamily::K2 && header.policy == SingletonPolicy::Use
                && header.min.nan_last_rank() == nan_last_min(
                parts.min.nan_last_rank(),
                Float64::infinity_spec(false).nan_last_rank(),
            ) && header.max.nan_last_rank() == nan_last_max(
                parts.max.nan_last_rank(),
                Float64::infinity_spec(true).nan_last_rank(),
            ),
{
    if parts.centroids.len() > parts.max_size && Float64::zero_spec(false).lt_spec(parts.count) {
        let whole = parts.digest(parts.centroids.len() as usize);
        let g = parts.gathered();
        assert(seq![whole].drop_last() =~= Seq::<DigestView>::empty());
        assert(seq![whole].last() == whole);
        reveal_with_fuel(digest::gathered, 2);
        assert(whole.contributes());
        assert(g.runs =~= seq![parts.centroids]);
        exact::lemma_zero_plus(parts.count);
        assert(g.header.count == Float64::zero_spec(false).plus_spec(parts.count));
        lemma_zero_plus_is_same(parts.count);
        assert(!g.blank());
        assert(digest::compressed(
            compress,
            g.header,
            merges::merged_runs(seq![parts.centroids]),
            r@,
        ));
    }
}

/// Adding to nothing changes no positive number.
proof fn lemma_zero_plus_is_same(x: Float64)
    requires
        Float64::zero_spec(false).lt_spec(x),
    ensures
        Float64::zero_spec(false).plus_spec(x).eq_spec(x),
{
    let zero = Float64::zero_spec(false);
    exact::lemma_of(false, 0);
    exact::lemma_zero_magnitude();
    if x.finite() {
        exact::lemma_plus(zero, x);
        exact::lemma_rounded_exact(x, 1);
        assert(x.value() * 1 == x.value());
    }
}

pub open spec fn nan_last_min(a: int, b: int) -> int {
    if a < b {
        a
    } else {
        b
    }
}

pub open spec fn nan_last_max(a: int, b: int) -> int {
    if a < b {
        b
    } else {
        a
    }
}

/// The total weight of a stream is the sum of its weights, added up from the left.
pub proof fn law_total_weight_is_the_sum(items: Seq<Centroid>)
    ensures
        merges::weight_sum(items) == cdf::sum(weights::weights(items)),
    decreases items.len(),
{
    let ws = weights::weights(items);
    if items.len() > 0 {
        law_total_weight_is_the_sum(items.drop_last());
        assert(ws.drop_last() =~= weights::weights(items.drop_last()));
        assert(ws.last() == items.last().weight);
    } else {
        assert(ws =~= Seq::<Float64>::empty());
    }
}

/// Fusing neighbours with equal means in a sorted stream leaves exactly its distinct means.
/// The weight at a mean is the sum of the weights at it, added up from the left; a centroid
/// that had no equal stays as it is, and what was fused is marked as a singleton.
pub proof fn law_coalescing_holds_the_distinct_means(items: Seq<Centroid>)
    requires
        centroid::sorted_numbers(items),
    ensures
        ({
            let out = centroid::coalesced(items);
            &&& centroid::strictly_increasing(out)
            &&& forall|i: int|
                0 <= i < out.len() ==> {
                    let x = (#[trigger] out[i]).mean.ordinal();
                    let ws = weights_in(items, x);
                    &&& !out[i].mean.nan()
                    &&& ws.len() > 0
                    &&& out[i].weight == added(ws[0], ws.drop_first())
                    &&& ws.len() > 1 ==> out[i].singleton
                    &&& ws.len() == 1 ==> items.contains(out[i])
                }
            &&& forall|x: int| #[trigger] present_in(items, x) ==> present_in(out, x)
        }),
    decreases items.len(),
{
    let out = centroid::coalesced(items);
    centroid::law_coalescing_leaves_no_duplicates(items);
    if items.len() > 0 {
        let front = items.drop_last();
        let c = items.last();
        let before = centroid::coalesced(front);
        let n = front.len() as int;
        assert(c == items[n]);
        assert(!items[n].mean.nan());
        assert(forall|i: int| 0 <= i < n ==> front[i] == items[i]);
        assert(centroid::sorted_numbers(front));
        centroid::law_coalescing_leaves_no_duplicates(front);
        law_coalescing_holds_the_distinct_means(front);
        let fused = before.len() > 0 && before.last().mean.eq_spec(c.mean);
        let m = before.len() - 1;
        if before.len() > 0 {
            assert(before.last() == before[m]);
            assert(!before[m].mean.nan());
            assert(front.len() > 0);
            assert(before.last().mean.ordinal() == front.last().mean.ordinal());
            assert(front.last() == items[n - 1]);
        }
        assert forall|i: int| 0 <= i < out.len() implies {
            let x = (#[trigger] out[i]).mean.ordinal();
            let ws = weights_in(items, x);
            &&& !out[i].mean.nan()
            &&& ws.len() > 0
            &&& out[i].weight == added(ws[0], ws.drop_first())
            &&& ws.len() > 1 ==> out[i].singleton
            &&& ws.len() == 1 ==> items.contains(out[i])
        } by {
            let x = out[i].mean.ordinal();
            let ws = weights_in(items, x);
            let old = weights_in(front, x);
            lemma_weights_in_last(items, x);
            if fused && i == m {
                let b = before[m];
                assert(b.mean.ordinal() == x);
                assert(ws == old.push(c.weight));
                assert(ws.drop_first() =~= old.drop_first().push(c.weight));
                assert(ws.drop_first().drop_last() =~= old.drop_first());
                assert(ws[0] == old[0]);
            } else if i < before.len() {
                assert(out[i] == before[i]);
                if i < m {
                    assert(before[i].mean.lt_spec(before[m].mean));
                }
                assert(c.mean.ordinal() != x);
                assert(ws == old);
                if ws.len() == 1 {
                    assert(front.contains(before[i]));
                    let j = choose|j: int| 0 <= j < front.len() && front[j] == before[i];
                    assert(items[j] == out[i]);
                }
            } else {
                assert(out[i] == c);
                assert(old == Seq::<Float64>::empty()) by {
                    lemma_nothing_equal(front, x);
                }
                assert(ws == old.push(c.weight));
                assert(ws =~= seq![c.weight]);
                assert(ws.drop_first() =~= Seq::<Float64>::empty());
                assert(items[n] == out[i]);
            }
        }
        assert forall|x: int| #[trigger] present_in(items, x) implies present_in(out, x) by {
            let k = choose|k: int|
                0 <= k < items.len() && (#[trigger] items[k]).mean.ordinal() == x;
            if k == n {
                assert(out[out.len() - 1].mean.ordinal() == x);
            } else {
                assert(front[k].mean.ordinal() == x);
                assert(present_in(front, x));
                assert(present_in(before, x));
                let j = choose|j: int|
                    0 <= j < before.len() && (#[trigger] before[j]).mean.ordinal() == x;
                assert(out[j].mean.ordinal() == x);
            }
        }
    }
}

/// The weights at a position, from the last item.
proof fn lemma_weights_in_last(items: Seq<Centroid>, x: int)
    requires
        items.len() > 0,
    ensures
        weights_in(items, x) == if items.last().mean.ordinal() == x {
            weights_in(items.drop_last(), x).push(items.last().weight)
        } else {
            weights_in(items.drop_last(), x)
        },
    decreases items.len(),
{
    let front = items.drop_last();
    let rest = items.drop_first();
    if items.len() == 1 {
        assert(rest =~= Seq::<Centroid>::empty());
        assert(front =~= Seq::<Centroid>::empty());
        assert(weights_in(rest, x) =~= Seq::<Float64>::empty());
        assert(weights_in(front, x) =~= Seq::<Float64>::empty());
        assert(items[0] == items.last());
        assert(weights_in(items, x) =~= if items.last().mean.ordinal() == x {
            weights_in(front, x).push(items.last().weight)
        } else {
            weights_in(front, x)
        });
    } else {
        lemma_weights_in_last(rest, x);
        assert(rest.drop_last() =~= front.drop_first());
        assert(rest.last() == items.last());
        assert(front[0] == items[0]);
        assert(weights_in(items, x) =~= if items.last().mean.ordinal() == x {
            weights_in(front, x).push(items.last().weight)
        } else {
            weights_in(front, x)
        });
    }
}

/// Where no mean stands at a position, there is no weight at it.
proof fn lemma_nothing_equal(items: Seq<Centroid>, x: int)
    requires
        forall|k: int| 0 <= k < items.len() ==> (#[trigger] items[k]).mean.ordinal() != x,
    ensures
        weights_in(items, x) == Seq::<Float64>::empty(),
    decreases items.len(),
{
    if items.len() > 0 {
        let rest = items.drop_first();
        assert forall|k: int| 0 <= k < rest.len() implies (#[trigger] rest[k]).mean.ordinal()
            != x by {
            assert(rest[k] == items[k + 1]);
        }
        lemma_nothing_equal(rest, x);
        assert(items[0].mean.ordinal() != x);
    }
}

/// Digests are equal exactly where their settings are, and their numbers are equal or both
/// NaN.
pub proof fn law_equal_digests_have_equal_numbers(a: DigestView, b: DigestView)
    ensures
        a.same(b) <==> {
            &&& a.max_size == b.max_size
            &&& a.scale == b.scale
            &&& a.policy == b.policy
            &&& a.sum.eq_spec(b.sum) || a.sum.nan() && b.sum.nan()
            &&& a.count.eq_spec(b.count) || a.count.nan() && b.count.nan()
            &&& a.min.eq_spec(b.min) || a.min.nan() && b.min.nan()
            &&& a.max.eq_spec(b.max) || a.max.nan() && b.max.nan()
            &&& a.centroids.len() == b.centroids.len()
            &&& forall|i: int|
                0 <= i < a.centroids.len() ==> {
                    let (c, d) = (#[trigger] a.centroids[i], b.centroids[i]);
                    &&& c.singleton == d.singleton
                    &&& c.mean.eq_spec(d.mean) || c.mean.nan() && d.mean.nan()
                    &&& c.weight.eq_spec(d.weight) || c.weight.nan() && d.weight.nan()
                }
        },
{
    if !a.same(b) && a.centroids.len() == b.centroids.len() {
        if exists|i: int|
            0 <= i < a.centroids.len() && !(#[trigger] a.centroids[i]).same(b.centroids[i]) {
            let i = choose|i: int|
                0 <= i < a.centroids.len() && !(#[trigger] a.centroids[i]).same(b.centroids[i]);
            let c = a.centroids[i];
        }
    }
}

/// A compression gets the header, its capacity, and the stream with equal neighbours fused
/// and its totals: the sum of the weights, that of the weighted means, and the means at the
/// ends. The digest has the centroids and totals that come back, and the settings of the
/// header.
pub proof fn law_compression_gets_header_and_stream<C>(
    compress: C,
    header: DigestView,
    items: Seq<Centroid>,
    r: DigestView,
) where C: Fn(TDigest, usize, NormalizedStream) -> TDigest
    requires
        digest::compressed(compress, header, items, r),
    ensures
        exists|args: (TDigest, usize, NormalizedStream), c: TDigest| #[trigger]
            compress.ensures(args, c) && args.0.centroids@ == header.centroids && args.0.max_size
                == header.max_size && args.0.sum == header.sum && args.0.count == header.count
                && args.0.min == header.min && args.0.max == header.max && args.0.scale
                == header.scale && args.0.policy == header.policy && args.1 == header.max_size
                && args.2.out@ == centroid::coalesced(items) && args.2.total_w == cdf::sum(
                weights::weights(items),
            ) && args.2.total_mw == merges::weighted_mean_sum(items) && (
            centroid::sorted_numbers(items) && items.len() > 0 ==> args.2.min.eq_spec(
                items[0].mean,
            ) && args.2.max == items.last().mean) && r.centroids == c.centroids@ && r.sum == c.sum
                && r.count == c.count && r.min == c.min && r.max == c.max && r.max_size
                == header.max_size && r.scale == header.scale && r.policy == header.policy,
{
    let (args, c) = choose|args: (TDigest, usize, NormalizedStream), c: TDigest|
        digest::compression_input(args, header, items) && #[trigger] compress.ensures(args, c) && r
            == digest::settled(header, c@);
    law_total_weight_is_the_sum(items);
    if centroid::sorted_numbers(items) && items.len() > 0 {
        merges::law_extremes_are_at_the_ends(items);
    }
    assert(args.0@ == header);
    assert(compress.ensures(args, c));
}

/// Merged digests are what the compression makes of the gathered header and the merged runs,
/// wherever something was counted.
pub proof fn law_merged_digests_are_compressed<C>(
    digests: Seq<DigestView>,
    compress: C,
    r: TDigest,
) where C: Fn(TDigest, usize, NormalizedStream) -> TDigest
    requires
        digest::gathered(digests).merged(compress, r),
        !digest::gathered(digests).header.count.eq_spec(Float64::zero_spec(false)),
    ensures
        digest::compressed(
            compress,
            digest::gathered(digests).header,
            merges::merged_runs(digest::gathered(digests).runs),
            r@,
        ),
{
}

/// Parts are in order where they fit the capacity, where nothing was counted, or where their
/// means never descend.
pub proof fn law_ordered_parts(parts: Parts)
    requires
        parts.centroids.len() <= usize::MAX,
    ensures
        parts.centroids.len() <= parts.max_size ==> parts.ordered(),
        !Float64::zero_spec(false).lt_spec(parts.count) ==> parts.ordered(),
        centroid::sorted_numbers(parts.centroids) ==> parts.ordered(),
        parts.centroids.len() > parts.max_size && Float64::zero_spec(false).lt_spec(parts.count)
            ==> (parts.ordered() <==> centroid::non_decreasing(
            merges::merged_runs(seq![parts.centroids]),
        )),
{
    let whole = parts.digest(parts.centroids.len() as usize);
    let g = parts.gathered();
    exact::lemma_of(false, 0);
    assert(seq![whole].drop_last() =~= Seq::<DigestView>::empty());
    assert(seq![whole].last() == whole);
    reveal_with_fuel(digest::gathered, 2);
    if parts.centroids.len() > parts.max_size && Float64::zero_spec(false).lt_spec(parts.count) {
        assert(whole.contributes());
        assert(g.runs =~= seq![parts.centroids]);
        exact::lemma_zero_plus(parts.count);
        lemma_zero_plus_is_same(parts.count);
        if centroid::sorted_numbers(parts.centroids) {
            assert(merges::sorted_runs(g.runs)) by {
                assert(g.runs[0] == parts.centroids);
            }
            merges::law_merged_runs_strictly_increase(g.runs);
            let out = merges::merged_runs(g.runs);
            assert forall|i: int| 0 < i < out.len() implies !(#[trigger] out[i]).mean.lt_spec(
                out[i - 1].mean,
            ) by {
                assert(out[i - 1].mean.lt_spec(out[i].mean));
            }
        }
    }
}

/// Some centroid has the mean `x`, or both are NaN.
pub open spec fn has_mean(items: Seq<Centroid>, x: Float64) -> bool {
    exists|j: int| 0 <= j < items.len() && (#[trigger] items[j]).mean.same(x)
}

/// How many means are NaN.
pub open spec fn nan_means(items: Seq<Centroid>) -> int
    decreases items.len(),
{
    if items.len() == 0 {
        0
    } else {
        nan_means(items.drop_first()) + if items[0].mean.nan() {
            1int
        } else {
            0
        }
    }
}

/// How many means in the runs are NaN.
pub open spec fn nan_means_of_runs(runs: Seq<Seq<Centroid>>) -> int
    decreases runs.len(),
{
    if runs.len() == 0 {
        0
    } else {
        nan_means_of_runs(runs.drop_last()) + nan_means(runs.last())
    }
}

proof fn lemma_nan_means_without_head(runs: Seq<Seq<Centroid>>, i: int)
    requires
        0 <= i < runs.len(),
        runs[i].len() > 0,
    ensures
        nan_means_of_runs(runs) == nan_means_of_runs(merges::without_head(runs, i))
            + if runs[i][0].mean.nan() {
            1int
        } else {
            0
        },
    decreases runs.len(),
{
    let next = merges::without_head(runs, i);
    if i == runs.len() - 1 {
        assert(next.drop_last() =~= runs.drop_last());
    } else {
        assert(next.drop_last() =~= merges::without_head(runs.drop_last(), i));
        lemma_nan_means_without_head(runs.drop_last(), i);
    }
}

/// Taking equal heads takes no NaN, and every mean that is taken is equal to the given one.
proof fn lemma_take_equal_keeps_others(
    runs: Seq<Seq<Centroid>>,
    mean: Float64,
    w: Float64,
    singleton: bool,
)
    ensures
        ({
            let rest = merges::take_equal(runs, mean, w, singleton).2;
            &&& nan_means_of_runs(rest) == nan_means_of_runs(runs)
            &&& forall|i: int, k: int|
                0 <= i < runs.len() && 0 <= k < runs[i].len() ==> (
                #[trigger] runs[i][k]).mean.same(mean) || held_in(rest, runs[i][k])
        }),
    decreases merges::total_len(runs),
{
    let i = merges::best(runs);
    let rest = merges::take_equal(runs, mean, w, singleton).2;
    if merges::is_best(runs, i) && runs[i][0].mean.eq_spec(mean) {
        let next = merges::without_head(runs, i);
        merges::lemma_without_head_is_shorter(runs, i);
        lemma_nan_means_without_head(runs, i);
        lemma_take_equal_keeps_others(
            next,
            mean,
            w.plus_spec(runs[i][0].weight),
            singleton && runs[i][0].singleton,
        );
        assert forall|a: int, k: int| 0 <= a < runs.len() && 0 <= k < runs[a].len() implies (
        #[trigger] runs[a][k]).mean.same(mean) || held_in(rest, runs[a][k]) by {
            if a == i && k > 0 {
                assert(next[a][k - 1] == runs[a][k]);
            } else if a != i {
                assert(next[a][k] == runs[a][k]);
            }
        }
    } else {
        assert forall|a: int, k: int| 0 <= a < runs.len() && 0 <= k < runs[a].len() implies (
        #[trigger] runs[a][k]).mean.same(mean) || held_in(rest, runs[a][k]) by {
            assert(rest[a][k] == runs[a][k]);
        }
    }
}

/// The runs hold the centroid.
pub open spec fn held_in(runs: Seq<Seq<Centroid>>, c: Centroid) -> bool {
    exists|i: int, k: int|
        0 <= i < runs.len() && 0 <= k < runs[i].len() && #[trigger] runs[i][k] == c
}

/// A merge of runs in any order loses no mean, and every NaN stays by itself.
pub proof fn law_merging_runs_loses_no_mean(runs: Seq<Seq<Centroid>>)
    ensures
        ({
            let out = merges::merged_runs(runs);
            &&& nan_means(out) == nan_means_of_runs(runs)
            &&& forall|i: int, k: int|
                0 <= i < runs.len() && 0 <= k < runs[i].len() ==> has_mean(
                    out,
                    (#[trigger] runs[i][k]).mean,
                )
            &&& forall|j: int|
                0 <= j < out.len() ==> exists|i: int, k: int|
                    0 <= i < runs.len() && 0 <= k < runs[i].len() && (#[trigger] runs[i][k]).mean
                        == (#[trigger] out[j]).mean
        }),
    decreases merges::total_len(runs),
{
    let out = merges::merged_runs(runs);
    let i = merges::best(runs);
    lemma_merged_means_occur(
        runs,
        |x: Float64|
            exists|i: int, k: int|
                0 <= i < runs.len() && 0 <= k < runs[i].len() && (#[trigger] runs[i][k]).mean == x,
    );
    if merges::is_best(runs, i) {
        let c = runs[i][0];
        let next = merges::without_head(runs, i);
        let w = Float64::zero_spec(false).plus_spec(c.weight);
        let (first, rest) = merges::merge_step(runs);
        let tail = merges::merged_runs(rest);
        merges::lemma_merge_step_is_shorter(runs);
        lemma_nan_means_without_head(runs, i);
        lemma_take_equal_keeps_others(next, c.mean, w, c.singleton);
        law_merging_runs_loses_no_mean(rest);
        assert(out == seq![first] + tail);
        assert(out.drop_first() =~= tail);
        assert(out[0].mean == c.mean);
        assert forall|a: int, k: int| 0 <= a < runs.len() && 0 <= k < runs[a].len() implies has_mean(
            out,
            (#[trigger] runs[a][k]).mean,
        ) by {
            let x = runs[a][k];
            if a == i && k == 0 {
                assert(out[0].mean.same(x.mean));
            } else {
                if a == i {
                    assert(next[a][k - 1] == x);
                } else {
                    assert(next[a][k] == x);
                }
                assert(x.mean.same(c.mean) || held_in(rest, x));
                if x.mean.same(c.mean) {
                    assert(out[0].mean.same(x.mean));
                } else {
                    let (b, l) = choose|b: int, l: int|
                        0 <= b < rest.len() && 0 <= l < rest[b].len() && #[trigger] rest[b][l] == x;
                    assert(has_mean(tail, rest[b][l].mean));
                    let j = choose|j: int|
                        0 <= j < tail.len() && (#[trigger] tail[j]).mean.same(x.mean);
                    assert(out[j + 1] == tail[j]);
                }
            }
        }
    } else {
        if !merges::exhausted(runs) {
            merges::lemma_best_exists(runs);
        }
        lemma_no_nan_means(runs);
        assert forall|a: int, k: int| 0 <= a < runs.len() && 0 <= k < runs[a].len() implies has_mean(
            out,
            (#[trigger] runs[a][k]).mean,
        ) by {
            assert(runs[a].len() == 0);
        }
    }
}

proof fn lemma_no_nan_means(runs: Seq<Seq<Centroid>>)
    requires
        merges::exhausted(runs),
    ensures
        nan_means_of_runs(runs) == 0,
    decreases runs.len(),
{
    if runs.len() > 0 {
        let front = runs.drop_last();
        assert(forall|j: int| 0 <= j < front.len() ==> front[j] == runs[j]);
        assert(runs[runs.len() - 1].len() == 0);
        lemma_no_nan_means(front);
    }
}

/// Merging values into centroids, in any order and with any NaN, keeps every centroid and
/// loses no value.
pub proof fn law_merge_by_mean_loses_nothing(
    centroids: Seq<Centroid>,
    values: Seq<Float64>,
    singletons: bool,
)
    ensures
        ({
            let out = merges::merged_by_mean(centroids, values, singletons);
            &&& forall|a: int| 0 <= a < centroids.len() ==> out.contains(#[trigger] centroids[a])
            &&& forall|b: int| 0 <= b < values.len() ==> has_mean(out, #[trigger] values[b])
        }),
    decreases centroids.len() + values.len(),
{
    let out = merges::merged_by_mean(centroids, values, singletons);
    if values.len() == 0 {
        assert forall|a: int| 0 <= a < centroids.len() implies out.contains(
            #[trigger] centroids[a],
        ) by {
            assert(out[a] == centroids[a]);
        }
    } else {
        let v = values[0];
        merges::lemma_run_length_bound(values, v);
        merges::lemma_run_length_bound(values.drop_first(), v);
        if centroids.len() == 0 || v.lt_spec(centroids[0].mean) {
            let n = merges::first_run(values);
            let later = values.skip(n as int);
            let run = merges::value_run(v, n, singletons);
            let tail = merges::merged_by_mean(centroids, later, singletons);
            law_merge_by_mean_loses_nothing(centroids, later, singletons);
            assert(out == seq![run] + tail);
            lemma_more_in_front(seq![run], tail, out);
            assert(out[0].mean == v);
            assert forall|b: int| 0 <= b < values.len() implies has_mean(
                out,
                #[trigger] values[b],
            ) by {
                if b == 0 {
                    assert(out[0].mean.same(values[b]));
                } else if b < n {
                    lemma_in_run(values.drop_first(), v, b - 1);
                    assert(values.drop_first()[b - 1] == values[b]);
                    assert(out[0].mean.same(values[b]));
                } else {
                    assert(later[b - n] == values[b]);
                    assert(has_mean(tail, later[b - n]));
                }
            }
            assert forall|a: int| 0 <= a < centroids.len() implies out.contains(
                #[trigger] centroids[a],
            ) by {
                assert(tail.contains(centroids[a]));
            }
        } else if centroids[0].mean.lt_spec(v) {
            let others = centroids.drop_first();
            let tail = merges::merged_by_mean(others, values, singletons);
            law_merge_by_mean_loses_nothing(others, values, singletons);
            assert(out == seq![centroids[0]] + tail);
            lemma_more_in_front(seq![centroids[0]], tail, out);
            assert forall|a: int| 0 <= a < centroids.len() implies out.contains(
                #[trigger] centroids[a],
            ) by {
                if a == 0 {
                    assert(out[0] == centroids[0]);
                } else {
                    assert(others[a - 1] == centroids[a]);
                    assert(tail.contains(others[a - 1]));
                }
            }
            assert forall|b: int| 0 <= b < values.len() implies has_mean(
                out,
                #[trigger] values[b],
            ) by {
                assert(has_mean(tail, values[b]));
            }
        } else {
            let n = merges::run_length(values, v);
            let later = values.skip(n as int);
            let run = merges::value_run(v, n, singletons);
            let others = centroids.drop_first();
            let tail = merges::merged_by_mean(others, later, singletons);
            law_merge_by_mean_loses_nothing(others, later, singletons);
            let front = seq![centroids[0], run];
            assert(out == front + tail);
            lemma_more_in_front(front, tail, out);
            assert(out[0] == centroids[0] && out[1] == run);
            assert forall|a: int| 0 <= a < centroids.len() implies out.contains(
                #[trigger] centroids[a],
            ) by {
                if a > 0 {
                    assert(others[a - 1] == centroids[a]);
                    assert(tail.contains(others[a - 1]));
                }
            }
            assert forall|b: int| 0 <= b < values.len() implies has_mean(
                out,
                #[trigger] values[b],
            ) by {
                if b < n {
                    lemma_in_run(values, v, b);
                    assert(out[1].mean.same(values[b]));
                } else {
                    assert(later[b - n] == values[b]);
                    assert(has_mean(tail, later[b - n]));
                }
            }
        }
    }
}

/// What is in the tail is in the whole.
proof fn lemma_more_in_front(front: Seq<Centroid>, tail: Seq<Centroid>, out: Seq<Centroid>)
    requires
        out == front + tail,
    ensures
        forall|c: Centroid| #[trigger] tail.contains(c) ==> out.contains(c),
        forall|x: Float64| #[trigger] has_mean(tail, x) ==> has_mean(out, x),
{
    let n = front.len() as int;
    assert forall|c: Centroid| #[trigger] tail.contains(c) implies out.contains(c) by {
        let j = choose|j: int| 0 <= j < tail.len() && tail[j] == c;
        assert(out[n + j] == c);
    }
    assert forall|x: Float64| #[trigger] has_mean(tail, x) implies has_mean(out, x) by {
        let j = choose|j: int| 0 <= j < tail.len() && (#[trigger] tail[j]).mean.same(x);
        assert(out[n + j] == tail[j]);
    }
}

/// A digest is what its fields hold, and digests are viewed one by one.
pub proof fn law_digests_are_their_fields(digests: Seq<TDigest>, i: int)
    requires
        0 <= i < digests.len(),
    ensures
        digest::views(digests).len() == digests.len(),
        ({
            let d = digests[i];
            let v = digest::views(digests)[i];
            &&& v == d@
            &&& v.centroids == d.centroids@
            &&& v.max_size == d.max_size
            &&& v.sum == d.sum
            &&& v.count == d.count
            &&& v.min == d.min
            &&& v.max == d.max
            &&& v.scale == d.scale
            &&& v.policy == d.policy
        }),
{
}

/// Runs that are given as slices are merged as what they hold, in their order.
pub proof fn law_slices_are_what_they_hold(runs: Seq<&[Centroid]>, i: int)
    requires
        0 <= i < runs.len(),
    ensures
        merges::slices_view(runs).len() == runs.len(),
        merges::slices_view(runs)[i] == runs[i]@,
{
}

/// Merging values into centroids, in any order, adds nothing else: what comes out is one of
/// the centroids, or its mean is one of the values and it has the given mark.
pub proof fn law_merge_by_mean_adds_nothing(
    centroids: Seq<Centroid>,
    values: Seq<Float64>,
    singletons: bool,
)
    ensures
        ({
            let out = merges::merged_by_mean(centroids, values, singletons);
            forall|j: int|
                0 <= j < out.len() ==> centroids.contains(#[trigger] out[j]) || values.contains(
                    out[j].mean,
                ) && out[j].singleton == singletons
        }),
    decreases centroids.len() + values.len(),
{
    let out = merges::merged_by_mean(centroids, values, singletons);
    if values.len() > 0 {
        let v = values[0];
        merges::lemma_run_length_bound(values, v);
        merges::lemma_run_length_bound(values.drop_first(), v);
        let n = if centroids.len() == 0 || v.lt_spec(centroids[0].mean) {
            merges::first_run(values) as int
        } else if centroids[0].mean.lt_spec(v) {
            0
        } else {
            merges::run_length(values, v) as int
        };
        let later = values.skip(n);
        let others = if centroids.len() == 0 || v.lt_spec(centroids[0].mean) {
            centroids
        } else {
            centroids.drop_first()
        };
        let tail = merges::merged_by_mean(others, later, singletons);
        if n == 0 {
            assert(later =~= values);
        }
        law_merge_by_mean_adds_nothing(others, later, singletons);
        let front = out.len() - tail.len();
        assert forall|j: int| 0 <= j < out.len() implies centroids.contains(#[trigger] out[j])
            || values.contains(out[j].mean) && out[j].singleton == singletons by {
            if j >= front {
                let c = tail[j - front];
                assert(out[j] == c);
                if others.contains(c) {
                    let k = choose|k: int| 0 <= k < others.len() && others[k] == c;
                    if others.len() < centroids.len() {
                        assert(centroids[k + 1] == c);
                    } else {
                        assert(centroids[k] == c);
                    }
                } else {
                    let k = choose|k: int| 0 <= k < later.len() && later[k] == c.mean;
                    assert(values[k + n] == c.mean);
                }
            } else if centroids.len() > 0 && out[j] == centroids[0] {
                assert(centroids.contains(centroids[0]));
            } else {
                assert(values[0] == out[j].mean);
            }
        }
    } else {
        assert forall|j: int| 0 <= j < out.len() implies centroids.contains(#[trigger] out[j]) by {
            assert(centroids[j] == out[j]);
        }
    }
}

} // verus!
