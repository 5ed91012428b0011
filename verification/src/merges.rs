//! Producers of ordered centroid streams, and their normalization.
use vstd::prelude::*;

use crate::centroid;
use crate::centroid::{coalesce_adjacent_equal_means, Centroid};
use crate::float::{Float64, INF_BODY};
use crate::sort;

verus! {

/// A stream in which adjacent equal means are fused into piles, with its totals.
#[derive(Debug)]
pub struct NormalizedStream {
    pub out: Vec<Centroid>,
    /// The sum of the weights.
    pub total_w: Float64,
    /// The sum of the weighted means.
    pub total_mw: Float64,
    pub min: Float64,
    pub max: Float64,
}

/// The sum of the weights, added up from the left.
pub open spec fn weight_sum(items: Seq<Centroid>) -> Float64
    decreases items.len(),
{
    if items.len() == 0 {
        Float64::zero_spec(false)
    } else {
        weight_sum(items.drop_last()).plus_spec(items.last().weight)
    }
}

/// The sum of the weighted means, added up from the left.
pub open spec fn weighted_mean_sum(items: Seq<Centroid>) -> Float64
    decreases items.len(),
{
    if items.len() == 0 {
        Float64::zero_spec(false)
    } else {
        let c = items.last();
        weighted_mean_sum(items.drop_last()).plus_spec(c.weight.times_spec(c.mean))
    }
}

/// The first mean that is not infinity; infinity where there is none.
pub open spec fn first_mean(items: Seq<Centroid>) -> Float64
    decreases items.len(),
{
    if items.len() == 0 {
        Float64::infinity_spec(false)
    } else {
        let before = first_mean(items.drop_last());
        if before.eq_spec(Float64::infinity_spec(false)) {
            items.last().mean
        } else {
            before
        }
    }
}

/// The last mean; negative infinity where there is none.
pub open spec fn last_mean(items: Seq<Centroid>) -> Float64 {
    if items.len() == 0 {
        Float64::infinity_spec(true)
    } else {
        items.last().mean
    }
}

impl NormalizedStream {
    /// This is the normalized form of a stream of `items`.
    pub open spec fn normalizes(self, items: Seq<Centroid>) -> bool {
        &&& self.out@ == centroid::coalesced(items)
        &&& self.total_w == weight_sum(items)
        &&& self.total_mw == weighted_mean_sum(items)
        &&& self.min == first_mean(items)
        &&& self.max == last_mean(items)
    }
}

/// Turns a stream that never descends into a coalesced one with its totals.
pub fn normalize_stream(items: Vec<Centroid>) -> (r: NormalizedStream)
    requires
        centroid::non_decreasing(items@),
    ensures
        r.normalizes(items@),
{
    let mut total_w: Float64 = Float64::from_bits(0);
    let mut total_mw: Float64 = Float64::from_bits(0);
    let mut min: Float64 = Float64::infinity(false);
    let mut max: Float64 = Float64::infinity(true);
    let mut i: usize = 0;
    assert(items@.take(0) =~= Seq::<Centroid>::empty());
    while i < items.len()
        invariant
            i <= items.len(),
            total_w == weight_sum(items@.take(i as int)),
            total_mw == weighted_mean_sum(items@.take(i as int)),
            min == first_mean(items@.take(i as int)),
            max == last_mean(items@.take(i as int)),
        decreases items.len() - i,
    {
        let c: Centroid = items[i];
        assert(items@.take(i + 1).drop_last() =~= items@.take(i as int));
        if min.num_eq(Float64::infinity(false)) {
            min = c.mean;
        }
        max = c.mean;
        total_w = total_w.plus(c.weight);
        total_mw = total_mw.plus(c.weight.times(c.mean));
        i = i + 1;
    }
    assert(items@.take(i as int) =~= items@);
    let out: Vec<Centroid> = coalesce_adjacent_equal_means(items);
    NormalizedStream { out, total_w, total_mw, min, max }
}

/// The position of the first mean that is below the one before it.
pub fn first_descent(items: &Vec<Centroid>) -> (r: Option<usize>)
    ensures
        r is None <==> centroid::non_decreasing(items@),
        r matches Some(i) ==> 0 < i < items.len() && items[i as int].mean.lt_spec(
            items[i - 1].mean,
        ) && centroid::non_decreasing(items@.take(i as int)),
{
    let mut i: usize = 1;
    while i < items.len()
        invariant
            1 <= i,
            forall|k: int|
                0 < k < i && k < items.len() ==> !(#[trigger] items[k]).mean.lt_spec(
                    items[k - 1].mean,
                ),
        decreases items.len() - i,
    {
        if items[i].mean.lt(items[i - 1].mean) {
            return Some(i);
        }
        i = i + 1;
    }
    None
}

/// How many of the leading values are equal to `target`.
pub open spec fn run_length(values: Seq<Float64>, target: Float64) -> nat
    decreases values.len(),
{
    if values.len() > 0 && values[0].eq_spec(target) {
        1 + run_length(values.drop_first(), target)
    } else {
        0
    }
}

/// The centroid for a run of `len` raw values.
pub open spec fn value_run(value: Float64, len: nat, singletons: bool) -> Centroid {
    Centroid { mean: value, weight: Float64::from_int_spec(len as int), singleton: singletons }
}

pub proof fn lemma_run_length_bound(values: Seq<Float64>, target: Float64)
    ensures
        run_length(values, target) <= values.len(),
    decreases values.len(),
{
    if values.len() > 0 && values[0].eq_spec(target) {
        lemma_run_length_bound(values.drop_first(), target);
    }
}

/// How many values the leading run of equal values has; a NaN is a run of its own.
pub open spec fn first_run(values: Seq<Float64>) -> nat {
    1 + run_length(values.drop_first(), values[0])
}

/// Centroids and sorted raw values, interleaved by mean. A run of equal values becomes
/// one centroid; where a centroid has the mean of the run, it comes first. A NaN value
/// equals nothing: each centroid that meets one is followed by an empty run.
pub open spec fn merged_by_mean(
    centroids: Seq<Centroid>,
    values: Seq<Float64>,
    singletons: bool,
) -> Seq<Centroid>
    decreases centroids.len() + values.len(),
{
    proof {
        if values.len() > 0 {
            lemma_run_length_bound(values, values[0]);
            lemma_run_length_bound(values.drop_first(), values[0]);
        }
    }
    if values.len() == 0 {
        centroids
    } else if centroids.len() == 0 || values[0].lt_spec(centroids[0].mean) {
        let n = first_run(values);
        seq![value_run(values[0], n, singletons)] + merged_by_mean(
            centroids,
            values.skip(n as int),
            singletons,
        )
    } else if centroids[0].mean.lt_spec(values[0]) {
        seq![centroids[0]] + merged_by_mean(centroids.drop_first(), values, singletons)
    } else {
        let n = run_length(values, values[0]);
        seq![centroids[0], value_run(values[0], n, singletons)] + merged_by_mean(
            centroids.drop_first(),
            values.skip(n as int),
            singletons,
        )
    }
}

/// Merge of existing centroids with a run-length encoding of sorted raw values. It puts
/// them in order and groups identical values; it does not fuse values with centroids.
pub struct MergeByMean<'a> {
    centroids: &'a [Centroid],
    values: &'a [Float64],
    next_centroid: usize,
    next_value: usize,
    /// A run of values that follows a centroid with the same mean.
    pending: Option<(Float64, usize)>,
    singletons: bool,
}

impl<'a> MergeByMean<'a> {
    /// What is still to come.
    pub closed spec fn remaining(self) -> Seq<Centroid> {
        let rest = merged_by_mean(
            self.centroids@.skip(self.next_centroid as int),
            self.values@.skip(self.next_value as int),
            self.singletons,
        );
        match self.pending {
            Some((value, len)) => seq![value_run(value, len as nat, self.singletons)] + rest,
            None => rest,
        }
    }

    pub closed spec fn well_formed(self) -> bool {
        &&& self.next_centroid <= self.centroids@.len()
        &&& self.next_value <= self.values@.len()
    }

    /// A merge of `centroids` and `values`, both in ascending order. Runs of values are
    /// marked as singletons where `singletons_on_values` says so.
    pub fn from_centroids_and_values(
        centroids: &'a [Centroid],
        values: &'a [Float64],
        singletons_on_values: bool,
    ) -> (r: MergeByMean<'a>)
        ensures
            r.well_formed(),
            r.remaining() == merged_by_mean(centroids@, values@, singletons_on_values),
    {
        assert(centroids@.skip(0) =~= centroids@);
        assert(values@.skip(0) =~= values@);
        MergeByMean {
            centroids,
            values,
            next_centroid: 0,
            next_value: 0,
            pending: None,
            singletons: singletons_on_values,
        }
    }

    /// The centroid for a run of raw values.
    fn run_centroid(&self, value: Float64, len: usize) -> (c: Centroid)
        ensures
            c == value_run(value, len as nat, self.singletons),
    {
        let weight: Float64 = Float64::from_u64(len as u64);
        if self.singletons {
            Centroid::new_singleton(value, weight)
        } else {
            Centroid::new_mixed(value, weight)
        }
    }

    /// Takes the leading values that are equal to `target`.
    fn take_run(&mut self, target: Float64) -> (len: usize)
        requires
            old(self).well_formed(),
        ensures
            final(self).well_formed(),
            final(self).centroids == old(self).centroids,
            final(self).values == old(self).values,
            final(self).next_centroid == old(self).next_centroid,
            final(self).pending == old(self).pending,
            final(self).singletons == old(self).singletons,
            len == run_length(old(self).values@.skip(old(self).next_value as int), target),
            final(self).next_value == old(self).next_value + len,
    {
        let mut len: usize = 0;
        let ghost start = self.next_value as int;
        let ghost all = run_length(self.values@.skip(start), target);
        while self.next_value < self.values.len() && self.values[self.next_value].num_eq(target)
            invariant
                self.well_formed(),
                self.centroids == old(self).centroids,
                self.values == old(self).values,
                self.next_centroid == old(self).next_centroid,
                self.pending == old(self).pending,
                self.singletons == old(self).singletons,
                start == old(self).next_value,
                self.next_value == start + len,
                len + run_length(self.values@.skip(self.next_value as int), target) == all,
            decreases self.values@.len() - self.next_value,
        {
            proof {
                let rest = self.values@.skip(self.next_value as int);
                assert(rest.drop_first() =~= self.values@.skip(self.next_value + 1));
            }
            self.next_value = self.next_value + 1;
            len = len + 1;
        }
        len
    }

    /// Takes a run of identical raw values as one centroid.
    fn next_values_run(&mut self) -> (r: Option<Centroid>)
        requires
            old(self).well_formed(),
            old(self).pending is None,
            old(self).next_value < old(self).values@.len(),
        ensures
            final(self).well_formed(),
            final(self).centroids == old(self).centroids,
            final(self).values == old(self).values,
            final(self).next_centroid == old(self).next_centroid,
            final(self).pending is None,
            final(self).singletons == old(self).singletons,
            ({
                let rest = old(self).values@.skip(old(self).next_value as int);
                &&& r == Some(value_run(rest[0], first_run(rest), old(self).singletons))
                &&& final(self).next_value == old(self).next_value + first_run(rest)
            }),
    {
        let first: Float64 = self.values[self.next_value];
        proof {
            let rest = self.values@.skip(self.next_value as int);
            assert(rest.drop_first() =~= self.values@.skip(self.next_value + 1));
        }
        self.next_value = self.next_value + 1;
        let more: usize = self.take_run(first);
        Some(self.run_centroid(first, more + 1))
    }

    /// The next centroid of the stream.
    pub fn next(&mut self) -> (r: Option<Centroid>)
        requires
            old(self).well_formed(),
        ensures
            final(self).well_formed(),
            r is None <==> old(self).remaining().len() == 0,
            r is None ==> final(self).remaining().len() == 0,
            r matches Some(c) ==> old(self).remaining() == seq![c] + final(self).remaining(),
    {
        let ghost cs = self.centroids@.skip(self.next_centroid as int);
        let ghost vs = self.values@.skip(self.next_value as int);
        let ghost whole = merged_by_mean(cs, vs, self.singletons);
        proof {
            if cs.len() > 0 {
                assert(cs.drop_first() =~= self.centroids@.skip(self.next_centroid + 1));
            }
        }
        let stashed: Option<(Float64, usize)> = self.pending;
        if let Some((value, len)) = stashed {
            self.pending = None;
            let c: Centroid = self.run_centroid(value, len);
            assert(old(self).remaining()[0] == c);
            return Some(c);
        }
        let has_centroid: bool = self.next_centroid < self.centroids.len();
        let has_value: bool = self.next_value < self.values.len();
        if has_centroid && has_value {
            let c: Centroid = self.centroids[self.next_centroid];
            let v: Float64 = self.values[self.next_value];
            if c.mean.lt(v) {
                self.next_centroid = self.next_centroid + 1;
                Some(c)
            } else if v.lt(c.mean) {
                let r: Option<Centroid> = self.next_values_run();
                proof {
                    let n = first_run(vs) as int;
                    lemma_run_length_bound(vs.drop_first(), vs[0]);
                    assert(vs.skip(n) =~= self.values@.skip(self.next_value as int));
                    assert(whole[0] == value_run(vs[0], first_run(vs), self.singletons));
                }
                r
            } else {
                // The run of values is kept for the next call: it is not fused here.
                let len: usize = self.take_run(v);
                self.pending = Some((v, len));
                self.next_centroid = self.next_centroid + 1;
                proof {
                    lemma_run_length_bound(vs, vs[0]);
                    assert(vs.skip(len as int) =~= self.values@.skip(self.next_value as int));
                    let rest = merged_by_mean(cs.drop_first(), vs.skip(len as int), self.singletons);
                    let run = value_run(v, len as nat, self.singletons);
                    assert(seq![c, run] + rest =~= seq![c] + (seq![run] + rest));
                }
                Some(c)
            }
        } else if has_centroid {
            let c: Centroid = self.centroids[self.next_centroid];
            self.next_centroid = self.next_centroid + 1;
            assert(vs.len() == 0);
            assert(cs =~= seq![c] + cs.drop_first());
            Some(c)
        } else if has_value {
            let r: Option<Centroid> = self.next_values_run();
            proof {
                let n = first_run(vs) as int;
                lemma_run_length_bound(vs.drop_first(), vs[0]);
                assert(vs.skip(n) =~= self.values@.skip(self.next_value as int));
                assert(whole[0] == value_run(vs[0], first_run(vs), self.singletons));
            }
            r
        } else {
            None
        }
    }

    /// Everything that is still to come.
    pub fn collect(&mut self) -> (out: Vec<Centroid>)
        requires
            old(self).well_formed(),
        ensures
            final(self).well_formed(),
            out@ == old(self).remaining(),
            final(self).remaining().len() == 0,
    {
        let mut out: Vec<Centroid> = Vec::new();
        let ghost whole = self.remaining();
        assert(out@ + self.remaining() =~= whole);
        loop
            invariant
                self.well_formed(),
                out@ + self.remaining() == whole,
            ensures
                self.well_formed(),
                out@ + self.remaining() == whole,
                self.remaining().len() == 0,
            decreases self.remaining().len(),
        {
            let ghost before = out@;
            let ghost rest = self.remaining();
            match self.next() {
                Some(c) => {
                    out.push(c);
                    assert(before + rest =~= out@ + self.remaining());
                },
                None => {
                    break;
                },
            }
        }
        assert(out@ + self.remaining() =~= out@);
        out
    }
}

/// The run to take the next centroid from: no other head has a lesser mean (NaN being the
/// greatest), and among heads with an equal mean it is the last run.
pub open spec fn is_best(runs: Seq<Seq<Centroid>>, i: int) -> bool {
    &&& 0 <= i < runs.len()
    &&& runs[i].len() > 0
    &&& forall|j: int|
        0 <= j < runs.len() && (#[trigger] runs[j]).len() > 0 ==> {
            let a = runs[i][0].mean.nan_last_rank();
            let b = runs[j][0].mean.nan_last_rank();
            a < b || (a == b && j <= i)
        }
}

/// No run has anything left.
pub open spec fn exhausted(runs: Seq<Seq<Centroid>>) -> bool {
    forall|j: int| 0 <= j < runs.len() ==> (#[trigger] runs[j]).len() == 0
}

pub open spec fn best(runs: Seq<Seq<Centroid>>) -> int {
    choose|i: int| is_best(runs, i)
}

/// The runs without the head of run `i`.
pub open spec fn without_head(runs: Seq<Seq<Centroid>>, i: int) -> Seq<Seq<Centroid>> {
    runs.update(i, runs[i].drop_first())
}

/// How many centroids the runs hold.
pub open spec fn total_len(runs: Seq<Seq<Centroid>>) -> nat
    decreases runs.len(),
{
    if runs.len() == 0 {
        0
    } else {
        total_len(runs.drop_last()) + runs.last().len()
    }
}

pub proof fn lemma_without_head_is_shorter(runs: Seq<Seq<Centroid>>, i: int)
    requires
        0 <= i < runs.len(),
        runs[i].len() > 0,
    ensures
        total_len(without_head(runs, i)) + 1 == total_len(runs),
    decreases runs.len(),
{
    let next = without_head(runs, i);
    if i == runs.len() - 1 {
        assert(next.drop_last() =~= runs.drop_last());
    } else {
        assert(next.drop_last() =~= without_head(runs.drop_last(), i));
        lemma_without_head_is_shorter(runs.drop_last(), i);
    }
}

/// At most one run is the one to take from.
pub proof fn lemma_best_is_unique(runs: Seq<Seq<Centroid>>, i: int)
    requires
        is_best(runs, i),
    ensures
        best(runs) == i,
{
    let b = best(runs);
    assert(is_best(runs, b));
    assert(runs[b].len() > 0);
    assert(runs[i].len() > 0);
}

/// Unless all runs are exhausted, there is one to take from.
pub proof fn lemma_best_exists(runs: Seq<Seq<Centroid>>)
    requires
        !exhausted(runs),
    ensures
        is_best(runs, best(runs)),
    decreases runs.len(),
{
    let front = runs.drop_last();
    let n = runs.len() - 1;
    if exhausted(front) {
        assert(is_best(runs, n)) by {
            assert forall|j: int| 0 <= j < runs.len() && (#[trigger] runs[j]).len() > 0 implies j
                == n by {
                if j < n {
                    assert(front[j].len() == 0);
                }
            }
        }
    } else {
        lemma_best_exists(front);
        let b = best(front);
        if runs[n].len() == 0 || runs[b][0].mean.nan_last_rank()
            < runs[n][0].mean.nan_last_rank() {
            assert(is_best(runs, b)) by {
                assert forall|j: int| 0 <= j < runs.len() && (
                #[trigger] runs[j]).len() > 0 implies ({
                    let x = runs[b][0].mean.nan_last_rank();
                    let y = runs[j][0].mean.nan_last_rank();
                    x < y || (x == y && j <= b)
                }) by {
                    if j < n {
                        assert(front[j].len() > 0);
                    }
                }
            }
        } else {
            assert(is_best(runs, n)) by {
                assert forall|j: int| 0 <= j < runs.len() && (
                #[trigger] runs[j]).len() > 0 implies ({
                    let x = runs[n][0].mean.nan_last_rank();
                    let y = runs[j][0].mean.nan_last_rank();
                    x < y || (x == y && j <= n)
                }) by {
                    if j < n {
                        assert(front[j].len() > 0);
                    }
                }
            }
        }
    }
}

/// What remains after taking heads as long as they have the given mean: the weights
/// taken, added to `w` in the order of taking, whether all taken are singletons, and the
/// runs left.
pub open spec fn take_equal(
    runs: Seq<Seq<Centroid>>,
    mean: Float64,
    w: Float64,
    singleton: bool,
) -> (Float64, bool, Seq<Seq<Centroid>>)
    decreases total_len(runs),
{
    let i = best(runs);
    if is_best(runs, i) && runs[i][0].mean.eq_spec(mean) {
        proof {
            lemma_without_head_is_shorter(runs, i);
        }
        take_equal(
            without_head(runs, i),
            mean,
            w.plus_spec(runs[i][0].weight),
            singleton && runs[i][0].singleton,
        )
    } else {
        (w, singleton, runs)
    }
}

/// Taking heads leaves no more than there was.
pub proof fn lemma_take_equal_is_not_longer(
    runs: Seq<Seq<Centroid>>,
    mean: Float64,
    w: Float64,
    singleton: bool,
)
    ensures
        total_len(take_equal(runs, mean, w, singleton).2) <= total_len(runs),
    decreases total_len(runs),
{
    let i = best(runs);
    if is_best(runs, i) && runs[i][0].mean.eq_spec(mean) {
        lemma_without_head_is_shorter(runs, i);
        lemma_take_equal_is_not_longer(
            without_head(runs, i),
            mean,
            w.plus_spec(runs[i][0].weight),
            singleton && runs[i][0].singleton,
        );
    }
}

/// The first centroid of a merge of runs, and the runs left after it.
pub open spec fn merge_step(runs: Seq<Seq<Centroid>>) -> (Centroid, Seq<Seq<Centroid>>) {
    let i = best(runs);
    let c = runs[i][0];
    let (weight, singleton, rest) = take_equal(
        without_head(runs, i),
        c.mean,
        Float64::zero_spec(false).plus_spec(c.weight),
        c.singleton,
    );
    (Centroid { mean: c.mean, weight, singleton }, rest)
}

pub proof fn lemma_merge_step_is_shorter(runs: Seq<Seq<Centroid>>)
    requires
        is_best(runs, best(runs)),
    ensures
        total_len(merge_step(runs).1) < total_len(runs),
{
    let i = best(runs);
    let c = runs[i][0];
    lemma_without_head_is_shorter(runs, i);
    lemma_take_equal_is_not_longer(
        without_head(runs, i),
        c.mean,
        Float64::zero_spec(false).plus_spec(c.weight),
        c.singleton,
    );
}

/// Runs of centroids, merged by mean. Heads with one mean become a single centroid, which
/// is a singleton exactly where all of them are.
pub open spec fn merged_runs(runs: Seq<Seq<Centroid>>) -> Seq<Centroid>
    decreases total_len(runs),
{
    if is_best(runs, best(runs)) {
        proof {
            lemma_merge_step_is_shorter(runs);
        }
        let (c, rest) = merge_step(runs);
        seq![c] + merged_runs(rest)
    } else {
        Seq::empty()
    }
}

/// The contents of slices.
pub open spec fn slices_view(runs: Seq<&[Centroid]>) -> Seq<Seq<Centroid>> {
    runs.map_values(|r: &[Centroid]| r@)
}

/// Merge of centroid runs by increasing mean, with fusion of equal means.
pub struct KWayCentroidMerge<'a> {
    runs: Vec<&'a [Centroid]>,
    pos: Vec<usize>,
}

impl<'a> KWayCentroidMerge<'a> {
    pub closed spec fn well_formed(self) -> bool {
        &&& self.runs@.len() == self.pos@.len()
        &&& forall|i: int|
            0 <= i < self.runs@.len() ==> (#[trigger] self.pos@[i]) <= self.runs@[i]@.len()
    }

    /// What is left of each run.
    pub closed spec fn heads(self) -> Seq<Seq<Centroid>> {
        Seq::new(self.runs@.len(), |i: int| self.runs@[i]@.skip(self.pos@[i] as int))
    }

    /// What is still to come.
    pub open spec fn remaining(self) -> Seq<Centroid> {
        merged_runs(self.heads())
    }

    /// A merge of the given runs, each in ascending order.
    pub fn new(runs: Vec<&'a [Centroid]>) -> (r: KWayCentroidMerge<'a>)
        ensures
            r.well_formed(),
            r.heads() == slices_view(runs@),
            r.remaining() == merged_runs(slices_view(runs@)),
    {
        let mut pos: Vec<usize> = Vec::new();
        let mut i: usize = 0;
        while i < runs.len()
            invariant
                i <= runs.len(),
                pos.len() == i,
                forall|k: int| 0 <= k < i ==> pos[k] == 0,
            decreases runs.len() - i,
        {
            pos.push(0);
            i = i + 1;
        }
        let r = KWayCentroidMerge { runs, pos };
        proof {
            assert forall|k: int| 0 <= k < r.runs@.len() implies (
            #[trigger] r.runs@[k]@.skip(r.pos@[k] as int)) == r.runs@[k]@ by {
                assert(r.runs@[k]@.skip(0) =~= r.runs@[k]@);
            }
            assert(r.heads() =~= slices_view(r.runs@));
        }
        r
    }

    /// The run to take the next centroid from.
    fn find_best(&self) -> (r: Option<usize>)
        requires
            self.well_formed(),
        ensures
            match r {
                Some(i) => is_best(self.heads(), i as int) && best(self.heads()) == i,
                None => exhausted(self.heads()),
            },
    {
        let ghost heads = self.heads();
        let mut found: Option<usize> = None;
        let mut i: usize = 0;
        while i < self.runs.len()
            invariant
                self.well_formed(),
                heads == self.heads(),
                i <= self.runs@.len(),
                match found {
                    Some(b) => b < i && is_best(heads.take(i as int), b as int),
                    None => exhausted(heads.take(i as int)),
                },
            decreases self.runs@.len() - i,
        {
            let ghost front = heads.take(i as int);
            let ghost next = heads.take(i + 1);
            let p: usize = self.pos[i];
            let run: &[Centroid] = self.runs[i];
            assert(next[i as int] == run@.skip(p as int));
            assert forall|j: int| 0 <= j < i implies #[trigger] next[j] == front[j] by {}
            if p < run.len() {
                let take: bool = match found {
                    None => true,
                    Some(b) => {
                        assert(front[b as int].len() > 0);
                        assert(front[b as int][0] == self.runs@[b as int]@[self.pos@[b as int] as int]);
                        !self.runs[b][self.pos[b]].mean.nan_last_lt(run[p].mean)
                    },
                };
                if take {
                    found = Some(i);
                }
            }
            i = i + 1;
        }
        assert(heads.take(i as int) =~= heads);
        proof {
            if let Some(b) = found {
                lemma_best_is_unique(heads, b as int);
            }
        }
        found
    }

    /// Takes the head of run `i`.
    fn take_head(&mut self, i: usize) -> (c: Centroid)
        requires
            old(self).well_formed(),
            i < old(self).heads().len(),
            old(self).heads()[i as int].len() > 0,
        ensures
            final(self).well_formed(),
            c == old(self).heads()[i as int][0],
            final(self).heads() == without_head(old(self).heads(), i as int),
    {
        let p: usize = self.pos[i];
        let c: Centroid = self.runs[i][p];
        self.pos.set(i, p + 1);
        proof {
            let before = old(self).heads();
            assert(before[i as int].drop_first() =~= self.runs@[i as int]@.skip(p + 1));
            assert(self.heads() =~= without_head(before, i as int));
        }
        c
    }

    /// The next centroid of the stream.
    pub fn next(&mut self) -> (r: Option<Centroid>)
        requires
            old(self).well_formed(),
        ensures
            final(self).well_formed(),
            r is None <==> exhausted(old(self).heads()),
            r is None ==> final(self).heads() == old(self).heads() && old(self).remaining().len()
                == 0,
            r matches Some(c) ==> (c, final(self).heads()) == merge_step(old(self).heads())
                && old(self).remaining() == seq![c] + final(self).remaining(),
    {
        let ghost start = self.heads();
        let first: usize = match self.find_best() {
            Some(i) => i,
            None => {
                assert(!is_best(start, best(start)));
                return None;
            },
        };
        let head: Centroid = self.take_head(first);
        let mut weight: Float64 = Float64::from_bits(0).plus(head.weight);
        let mut singleton: bool = head.singleton;
        let ghost whole = take_equal(self.heads(), head.mean, weight, singleton);
        loop
            invariant
                self.well_formed(),
                whole == take_equal(self.heads(), head.mean, weight, singleton),
            ensures
                self.well_formed(),
                whole == (weight, singleton, self.heads()),
            decreases total_len(self.heads()),
        {
            let ghost before = self.heads();
            match self.find_best() {
                None => {
                    assert(!is_best(before, best(before)));
                    break;
                },
                Some(i) => {
                    let c: &Centroid = &self.runs[i][self.pos[i]];
                    assert(*c == before[i as int][0]);
                    if !c.mean.num_eq(head.mean) {
                        break;
                    }
                    let c: Centroid = self.take_head(i);
                    weight = weight.plus(c.weight);
                    singleton = singleton && c.singleton;
                    proof {
                        lemma_without_head_is_shorter(before, i as int);
                    }
                },
            }
        }
        let mut out: Centroid = Centroid::new(head.mean, weight);
        if singleton {
            out.mark_singleton(true);
        }
        Some(out)
    }

    /// Everything that is still to come.
    pub fn collect(&mut self) -> (out: Vec<Centroid>)
        requires
            old(self).well_formed(),
        ensures
            final(self).well_formed(),
            out@ == old(self).remaining(),
            exhausted(final(self).heads()),
    {
        let mut out: Vec<Centroid> = Vec::new();
        let ghost whole = self.remaining();
        assert(out@ + self.remaining() =~= whole);
        loop
            invariant
                self.well_formed(),
                out@ + self.remaining() == whole,
            ensures
                self.well_formed(),
                out@ + self.remaining() == whole,
                self.remaining().len() == 0,
                exhausted(self.heads()),
            decreases total_len(self.heads()),
        {
            let ghost before = out@;
            let ghost heads = self.heads();
            let ghost rest = self.remaining();
            match self.next() {
                Some(c) => {
                    out.push(c);
                    proof {
                        lemma_best_exists(heads);
                        lemma_merge_step_is_shorter(heads);
                        assert(before + rest =~= out@ + self.remaining());
                    }
                },
                None => {
                    break;
                },
            }
        }
        assert(out@ + self.remaining() =~= out@);
        out
    }
}

/// Merging sorted centroids with sorted values gives a stream that never descends, also
/// where some values are NaN.
pub proof fn law_merge_by_mean_never_descends(
    centroids: Seq<Centroid>,
    values: Seq<Float64>,
    singletons: bool,
)
    requires
        centroid::sorted_numbers(centroids),
        sort::ascending(values),
    ensures
        centroid::non_decreasing(merged_by_mean(centroids, values, singletons)),
{
    lemma_merge_by_mean_never_descends(centroids, values, singletons);
}

proof fn lemma_merge_by_mean_never_descends(
    centroids: Seq<Centroid>,
    values: Seq<Float64>,
    singletons: bool,
)
    requires
        centroid::sorted_numbers(centroids),
        sort::ascending(values),
    ensures
        ({
            let out = merged_by_mean(centroids, values, singletons);
            &&& centroid::non_decreasing(out)
            &&& out.len() > 0 ==> {
                ||| centroids.len() > 0 && out[0] == centroids[0]
                ||| values.len() > 0 && out[0].mean == values[0]
            }
        }),
    decreases centroids.len() + values.len(),
{
    let out = merged_by_mean(centroids, values, singletons);
    if values.len() > 0 {
        lemma_run_length_bound(values, values[0]);
        lemma_run_length_bound(values.drop_first(), values[0]);
        if centroids.len() == 0 || values[0].lt_spec(centroids[0].mean) {
            let n = first_run(values);
            let rest = merged_by_mean(centroids, values.skip(n as int), singletons);
            lemma_merge_by_mean_never_descends(centroids, values.skip(n as int), singletons);
            assert(out =~= seq![value_run(values[0], n, singletons)] + rest);
            lemma_non_decreasing_prepend(value_run(values[0], n, singletons), rest);
        } else if centroids[0].mean.lt_spec(values[0]) {
            let rest = merged_by_mean(centroids.drop_first(), values, singletons);
            lemma_merge_by_mean_never_descends(centroids.drop_first(), values, singletons);
            lemma_non_decreasing_prepend(centroids[0], rest);
        } else {
            let n = run_length(values, values[0]);
            let run = value_run(values[0], n, singletons);
            let rest = merged_by_mean(centroids.drop_first(), values.skip(n as int), singletons);
            lemma_merge_by_mean_never_descends(
                centroids.drop_first(),
                values.skip(n as int),
                singletons,
            );
            lemma_non_decreasing_prepend(run, rest);
            lemma_non_decreasing_prepend(centroids[0], seq![run] + rest);
            assert(out =~= seq![centroids[0]] + (seq![run] + rest));
        }
    }
}

proof fn lemma_non_decreasing_prepend(c: Centroid, rest: Seq<Centroid>)
    requires
        centroid::non_decreasing(rest),
        rest.len() > 0 ==> !rest[0].mean.lt_spec(c.mean),
    ensures
        centroid::non_decreasing(seq![c] + rest),
{
    let out = seq![c] + rest;
    assert forall|i: int| 0 < i < out.len() implies !(#[trigger] out[i]).mean.lt_spec(
        out[i - 1].mean,
    ) by {
        assert(out[i] == rest[i - 1]);
        if i > 1 {
            assert(out[i - 1] == rest[i - 2]);
        }
    }
}

/// Every run is in ascending order and holds no NaN.
pub open spec fn sorted_runs(runs: Seq<Seq<Centroid>>) -> bool {
    forall|i: int| 0 <= i < runs.len() ==> centroid::sorted_numbers(#[trigger] runs[i])
}

/// All means in the runs are above the position `x` in the numeric order.
pub open spec fn all_above(runs: Seq<Seq<Centroid>>, x: int) -> bool {
    forall|i: int, k: int|
        0 <= i < runs.len() && 0 <= k < runs[i].len() ==> x < (
        #[trigger] runs[i][k]).mean.ordinal()
}

pub proof fn lemma_without_head_keeps_order(runs: Seq<Seq<Centroid>>, i: int, x: int)
    requires
        sorted_runs(runs),
        0 <= i < runs.len(),
        runs[i].len() > 0,
        all_above(runs, x),
    ensures
        sorted_runs(without_head(runs, i)),
        all_above(without_head(runs, i), x),
{
    let next = without_head(runs, i);
    assert forall|j: int| 0 <= j < next.len() implies centroid::sorted_numbers(
        #[trigger] next[j],
    ) by {
        assert(centroid::sorted_numbers(runs[j]));
        if j == i {
            assert forall|a: int| 0 <= a < next[j].len() implies !(
            #[trigger] next[j][a]).mean.nan() by {
                assert(next[j][a] == runs[i][a + 1]);
            }
            assert forall|a: int, b: int| 0 <= a <= b < next[j].len() implies (
            #[trigger] next[j][a]).mean.ordinal() <= (#[trigger] next[j][b]).mean.ordinal() by {
                assert(next[j][a] == runs[i][a + 1]);
                assert(next[j][b] == runs[i][b + 1]);
            }
        }
    }
    assert forall|j: int, k: int| 0 <= j < next.len() && 0 <= k < next[j].len() implies x < (
    #[trigger] next[j][k]).mean.ordinal() by {
        if j == i {
            assert(next[j][k] == runs[i][k + 1]);
        } else {
            assert(next[j][k] == runs[j][k]);
        }
    }
}

/// Taking the heads with one mean, where none is below it, leaves only greater means.
pub proof fn lemma_take_equal_leaves_greater(
    runs: Seq<Seq<Centroid>>,
    mean: Float64,
    w: Float64,
    singleton: bool,
    x: int,
)
    requires
        sorted_runs(runs),
        !mean.nan(),
        all_above(runs, mean.ordinal() - 1),
        all_above(runs, x),
    ensures
        ({
            let rest = take_equal(runs, mean, w, singleton).2;
            &&& sorted_runs(rest)
            &&& all_above(rest, mean.ordinal())
            &&& all_above(rest, x)
        }),
    decreases total_len(runs),
{
    let i = best(runs);
    if is_best(runs, i) && runs[i][0].mean.eq_spec(mean) {
        lemma_without_head_is_shorter(runs, i);
        lemma_without_head_keeps_order(runs, i, x);
        lemma_without_head_keeps_order(runs, i, mean.ordinal() - 1);
        lemma_take_equal_leaves_greater(
            without_head(runs, i),
            mean,
            w.plus_spec(runs[i][0].weight),
            singleton && runs[i][0].singleton,
            x,
        );
    } else {
        assert forall|j: int, k: int|
            0 <= j < runs.len() && 0 <= k < runs[j].len() implies mean.ordinal() < (
        #[trigger] runs[j][k]).mean.ordinal() by {
            if exhausted(runs) {
                assert(runs[j].len() == 0);
            }
            lemma_best_exists(runs);
            assert(centroid::sorted_numbers(runs[i]));
            assert(centroid::sorted_numbers(runs[j]));
            assert(runs[j][0].mean.ordinal() <= runs[j][k].mean.ordinal());
            assert(!runs[i][0].mean.nan());
            assert(!runs[j][0].mean.nan());
            assert(runs[i][0].mean.nan_last_rank() <= runs[j][0].mean.nan_last_rank());
            assert(mean.ordinal() - 1 < runs[i][0].mean.ordinal());
        }
    }
}

/// Merging sorted runs gives strictly increasing means: no mean occurs twice.
pub proof fn law_merged_runs_strictly_increase(runs: Seq<Seq<Centroid>>)
    requires
        sorted_runs(runs),
    ensures
        centroid::strictly_increasing(merged_runs(runs)),
        centroid::non_decreasing(merged_runs(runs)),
        centroid::sorted_numbers(merged_runs(runs)),
{
    assert(all_above(runs, -0x8000_0000_0000_0000));
    lemma_merged_runs(runs, -0x8000_0000_0000_0000);
    let out = merged_runs(runs);
    assert forall|i: int| 0 < i < out.len() implies !(#[trigger] out[i]).mean.lt_spec(
        out[i - 1].mean,
    ) by {
        assert(out[i - 1].mean.lt_spec(out[i].mean));
    }
    assert forall|i: int, j: int| 0 <= i <= j < out.len() implies (
    #[trigger] out[i]).mean.ordinal() <= (#[trigger] out[j]).mean.ordinal() by {
        if i < j {
            assert(out[i].mean.lt_spec(out[j].mean));
        }
    }
}

proof fn lemma_merged_runs(runs: Seq<Seq<Centroid>>, x: int)
    requires
        sorted_runs(runs),
        all_above(runs, x),
    ensures
        centroid::strictly_increasing(merged_runs(runs)),
        forall|i: int|
            0 <= i < merged_runs(runs).len() ==> !(
            #[trigger] merged_runs(runs)[i]).mean.nan() && x < merged_runs(runs)[i].mean.ordinal(),
    decreases total_len(runs),
{
    if is_best(runs, best(runs)) {
        let i = best(runs);
        let c = runs[i][0];
        let (first, rest) = merge_step(runs);
        lemma_merge_step_is_shorter(runs);
        assert(centroid::sorted_numbers(runs[i]));
        assert(!c.mean.nan());
        assert(all_above(runs, c.mean.ordinal() - 1)) by {
            assert forall|j: int, k: int|
                0 <= j < runs.len() && 0 <= k < runs[j].len() implies c.mean.ordinal() - 1 < (
            #[trigger] runs[j][k]).mean.ordinal() by {
                assert(centroid::sorted_numbers(runs[j]));
                assert(runs[j][0].mean.ordinal() <= runs[j][k].mean.ordinal());
                assert(!runs[j][0].mean.nan());
                assert(c.mean.nan_last_rank() <= runs[j][0].mean.nan_last_rank());
            }
        }
        lemma_without_head_keeps_order(runs, i, x);
        lemma_without_head_keeps_order(runs, i, c.mean.ordinal() - 1);
        lemma_take_equal_leaves_greater(
            without_head(runs, i),
            c.mean,
            Float64::zero_spec(false).plus_spec(c.weight),
            c.singleton,
            x,
        );
        lemma_merged_runs(rest, c.mean.ordinal());
        let later = merged_runs(rest);
        let out = merged_runs(runs);
        assert(out == seq![first] + later);
        assert(x < runs[i][0].mean.ordinal());
        assert forall|a: int, b: int| 0 <= a < b < out.len() implies (
        #[trigger] out[a]).mean.lt_spec((#[trigger] out[b]).mean) by {
            assert(out[b] == later[b - 1]);
            if a > 0 {
                assert(out[a] == later[a - 1]);
            }
        }
        assert forall|a: int| 0 <= a < out.len() implies !(#[trigger] out[a]).mean.nan() && x
            < out[a].mean.ordinal() by {
            if a > 0 {
                assert(out[a] == later[a - 1]);
            }
        }
    }
}

/// The extremes of a normalized stream are its first and its last mean.
pub proof fn law_extremes_are_at_the_ends(items: Seq<Centroid>)
    requires
        centroid::sorted_numbers(items),
        items.len() > 0,
    ensures
        first_mean(items).eq_spec(items[0].mean),
        last_mean(items) == items.last().mean,
    decreases items.len(),
{
    let front = items.drop_last();
    let inf = Float64::infinity_spec(false);
    assert(items.last() == items[items.len() - 1]);
    assert(!items[0].mean.nan() && !items.last().mean.nan());
    assert(!inf.nan() && inf.ordinal() == INF_BODY);
    if front.len() == 0 {
        assert(first_mean(front) == inf);
    } else {
        assert(forall|i: int| 0 <= i < front.len() ==> front[i] == items[i]);
        assert(centroid::sorted_numbers(front));
        law_extremes_are_at_the_ends(front);
        if first_mean(front).eq_spec(inf) {
            assert(items[0].mean.ordinal() <= items[items.len() - 1].mean.ordinal());
        }
    }
}

} // verus!
