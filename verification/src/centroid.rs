//! Centroids: a mean, the weight gathered there, and whether it is a singleton.
use vstd::prelude::*;

use crate::float::Float64;

verus! {

/// A cluster of values.
#[derive(Clone, Copy, Debug)]
pub struct Centroid {
    pub mean: Float64,
    pub weight: Float64,
    /// A raw value, or a pile of identical ones.
    pub singleton: bool,
}

/// No mean is below the one before it.
pub open spec fn non_decreasing(items: Seq<Centroid>) -> bool {
    forall|i: int|
        0 < i < items.len() ==> !(#[trigger] items[i]).mean.lt_spec(items[i - 1].mean)
}

/// Every mean is above all means before it; none is NaN where there are two or more.
pub open spec fn strictly_increasing(items: Seq<Centroid>) -> bool {
    forall|i: int, j: int|
        0 <= i < j < items.len() ==> (#[trigger] items[i]).mean.lt_spec((#[trigger] items[j]).mean)
}

/// No mean is NaN, and none is below any before it.
pub open spec fn sorted_numbers(items: Seq<Centroid>) -> bool {
    &&& forall|i: int| 0 <= i < items.len() ==> !(#[trigger] items[i]).mean.nan()
    &&& forall|i: int, j: int|
        0 <= i <= j < items.len() ==> (#[trigger] items[i]).mean.ordinal() <= (
        #[trigger] items[j]).mean.ordinal()
}

impl Centroid {
    /// Two clusters with one mean, fused into a pile.
    pub open spec fn fused(self, other: Centroid) -> Centroid {
        Centroid { mean: self.mean, weight: self.weight.plus_spec(other.weight), singleton: true }
    }

    /// The clusters have equal numbers and are of one kind.
    pub open spec fn same(self, other: Centroid) -> bool {
        &&& self.mean.same(other.mean)
        &&& self.weight.same(other.weight)
        &&& self.singleton == other.singleton
    }

    /// A mixed cluster, to be marked as a singleton where it is one.
    pub fn new(mean: Float64, weight: Float64) -> (c: Centroid)
        ensures
            c == (Centroid { mean, weight, singleton: false }),
    {
        Centroid { mean, weight, singleton: false }
    }

    /// A singleton, or a pile of identical values.
    pub fn new_singleton(mean: Float64, weight: Float64) -> (c: Centroid)
        ensures
            c == (Centroid { mean, weight, singleton: true }),
    {
        Centroid { mean, weight, singleton: true }
    }

    /// A mixed cluster.
    pub fn new_mixed(mean: Float64, weight: Float64) -> (c: Centroid)
        ensures
            c == (Centroid { mean, weight, singleton: false }),
    {
        Centroid { mean, weight, singleton: false }
    }

    pub fn mean(&self) -> (r: Float64)
        ensures
            r == self.mean,
    {
        self.mean
    }

    pub fn weight(&self) -> (r: Float64)
        ensures
            r == self.weight,
    {
        self.weight
    }

    pub fn is_singleton(&self) -> (r: bool)
        ensures
            r == self.singleton,
    {
        self.singleton
    }

    /// Whether the clusters have equal numbers and are of one kind.
    pub fn same_as(self, other: Centroid) -> (r: bool)
        ensures
            r == self.same(other),
    {
        self.mean.nan_last_eq(other.mean) && self.weight.nan_last_eq(other.weight)
            && self.singleton == other.singleton
    }

    pub fn mark_singleton(&mut self, singleton: bool)
        ensures
            *final(self) == (Centroid { singleton, ..*old(self) }),
    {
        self.singleton = singleton;
    }
}

/// The clusters, where each that has the mean of the one before it is fused into it.
pub open spec fn coalesced(items: Seq<Centroid>) -> Seq<Centroid>
    decreases items.len(),
{
    if items.len() == 0 {
        Seq::empty()
    } else {
        let before = coalesced(items.drop_last());
        let c = items.last();
        if before.len() > 0 && before.last().mean.eq_spec(c.mean) {
            before.drop_last().push(before.last().fused(c))
        } else {
            before.push(c)
        }
    }
}

/// Fuses adjacent clusters with equal means into piles.
pub fn coalesce_adjacent_equal_means(items: Vec<Centroid>) -> (out: Vec<Centroid>)
    ensures
        out@ == coalesced(items@),
{
    let mut out: Vec<Centroid> = Vec::new();
    let mut i: usize = 0;
    assert(items@.take(0) =~= Seq::<Centroid>::empty());
    while i < items.len()
        invariant
            i <= items.len(),
            out@ == coalesced(items@.take(i as int)),
        decreases items.len() - i,
    {
        let c: Centroid = items[i];
        assert(items@.take(i + 1).drop_last() =~= items@.take(i as int));
        let n: usize = out.len();
        if n > 0 && out[n - 1].mean.num_eq(c.mean) {
            let last: Centroid = out[n - 1];
            let pile: Centroid = Centroid::new_singleton(last.mean, last.weight.plus(c.weight));
            let ghost before = out@;
            out.pop();
            out.push(pile);
            assert(out@ =~= before.drop_last().push(before.last().fused(c)));
        } else {
            out.push(c);
        }
        i = i + 1;
    }
    assert(items@.take(i as int) =~= items@);
    out
}

/// Whether the means are strictly increasing.
pub fn is_sorted_strict_by_mean(items: &Vec<Centroid>) -> (r: bool)
    ensures
        r == strictly_increasing(items@),
{
    let mut i: usize = 1;
    while i < items.len()
        invariant
            1 <= i,
            i <= items.len() || i == 1,
            strictly_increasing(items@.take(if i <= items.len() {
                i as int
            } else {
                items.len() as int
            })),
        decreases items.len() - i,
    {
        if !items[i - 1].mean.lt(items[i].mean) {
            assert(!items@[i - 1].mean.lt_spec(items@[i as int].mean));
            return false;
        }
        proof {
            let before = items@.take(i as int);
            let after = items@.take(i + 1);
            assert forall|a: int, b: int| 0 <= a < b < after.len() implies (
            #[trigger] after[a]).mean.lt_spec((#[trigger] after[b]).mean) by {
                if b < i {
                    assert(before[a].mean.lt_spec(before[b].mean));
                } else if a < i - 1 {
                    assert(before[a].mean.lt_spec(before[i - 1].mean));
                }
            }
        }
        i = i + 1;
    }
    proof {
        if items.len() > 0 {
            assert(items@.take(items.len() as int) =~= items@);
        }
    }
    true
}

/// Fusing neighbours with equal means in a stream that never descends and holds no NaN
/// leaves strictly increasing means, so no mean occurs twice.
pub proof fn law_coalescing_leaves_no_duplicates(items: Seq<Centroid>)
    requires
        sorted_numbers(items),
    ensures
        strictly_increasing(coalesced(items)),
        items.len() > 0 ==> coalesced(items).len() > 0 && coalesced(items).last().mean.eq_spec(
            items.last().mean,
        ),
    decreases items.len(),
{
    if items.len() > 0 {
        let rest = items.drop_last();
        let before = coalesced(rest);
        let c = items.last();
        let out = coalesced(items);
        assert(sorted_numbers(rest));
        law_coalescing_leaves_no_duplicates(rest);
        assert(items.last() == items[items.len() - 1]);
        if rest.len() > 0 {
            assert(rest.last() == items[items.len() - 2]);
            assert(before.last().mean.ordinal() <= c.mean.ordinal());
            assert forall|i: int, j: int| 0 <= i < j < out.len() implies (
            #[trigger] out[i]).mean.lt_spec((#[trigger] out[j]).mean) by {
                if j < before.len() {
                    assert(before[i].mean.lt_spec(before[j].mean));
                } else if i < before.len() - 1 {
                    assert(before[i].mean.lt_spec(before[before.len() - 1].mean));
                }
            }
        }
    }
}

/// Where the means are strictly increasing, there is nothing to fuse.
pub proof fn law_coalescing_keeps_strictly_increasing(items: Seq<Centroid>)
    requires
        strictly_increasing(items),
    ensures
        coalesced(items) == items,
    decreases items.len(),
{
    if items.len() > 0 {
        let rest = items.drop_last();
        assert(strictly_increasing(rest));
        law_coalescing_keeps_strictly_increasing(rest);
        if rest.len() > 0 {
            assert(items[rest.len() - 1].mean.lt_spec(items[items.len() - 1].mean));
        }
        assert(rest.push(items.last()) =~= items);
    } else {
        assert(items =~= Seq::<Centroid>::empty());
    }
}

/// Means without NaN never descend exactly where each is at least all before it; and they are
/// strictly increasing exactly where each is above all before it.
pub proof fn law_orders_of_means(items: Seq<Centroid>)
    requires
        forall|i: int| 0 <= i < items.len() ==> !(#[trigger] items[i]).mean.nan(),
    ensures
        non_decreasing(items) <==> forall|i: int, j: int|
            0 <= i < j < items.len() ==> (#[trigger] items[i]).mean.ordinal() <= (
            #[trigger] items[j]).mean.ordinal(),
        strictly_increasing(items) <==> forall|i: int, j: int|
            0 <= i < j < items.len() ==> (#[trigger] items[i]).mean.ordinal() < (
            #[trigger] items[j]).mean.ordinal(),
{
    if non_decreasing(items) {
        assert forall|i: int, j: int| 0 <= i < j < items.len() implies (
        #[trigger] items[i]).mean.ordinal() <= (#[trigger] items[j]).mean.ordinal() by {
            lemma_never_below(items, i, j);
        }
    }
    if forall|i: int, j: int|
        0 <= i < j < items.len() ==> (#[trigger] items[i]).mean.ordinal() <= (
        #[trigger] items[j]).mean.ordinal() {
        assert forall|i: int| 0 < i < items.len() implies !(#[trigger] items[i]).mean.lt_spec(
            items[i - 1].mean,
        ) by {
            assert(items[i - 1].mean.ordinal() <= items[i].mean.ordinal());
        }
    }
    if strictly_increasing(items) {
        assert forall|i: int, j: int| 0 <= i < j < items.len() implies (
        #[trigger] items[i]).mean.ordinal() < (#[trigger] items[j]).mean.ordinal() by {
            assert(items[i].mean.lt_spec(items[j].mean));
        }
    }
}

proof fn lemma_never_below(items: Seq<Centroid>, i: int, j: int)
    requires
        forall|k: int| 0 <= k < items.len() ==> !(#[trigger] items[k]).mean.nan(),
        non_decreasing(items),
        0 <= i <= j < items.len(),
    ensures
        items[i].mean.ordinal() <= items[j].mean.ordinal(),
    decreases j - i,
{
    if i < j {
        lemma_never_below(items, i, j - 1);
        assert(!items[j].mean.lt_spec(items[j - 1].mean));
        assert(!items[j].mean.nan() && !items[j - 1].mean.nan());
    }
}

} // verus!
