//! Sorting numbers, by the total order of their bit patterns or by their numeric order.
use vstd::prelude::*;
use vstd::relations::*;
use vstd::seq_lib::*;

use crate::cdf;
use crate::float::Float64;

verus! {

/// The total order of bit patterns.
pub open spec fn total_order() -> spec_fn(Float64, Float64) -> bool {
    |a: Float64, b: Float64| a.total_rank() <= b.total_rank()
}

/// The numbers in ascending total order.
pub open spec fn sorted(values: Seq<Float64>) -> Seq<Float64> {
    values.sort_by(total_order())
}

/// The numbers are in ascending total order.
pub open spec fn ascending(values: Seq<Float64>) -> bool {
    forall|i: int, j: int|
        0 <= i < j < values.len() ==> (#[trigger] values[i]).total_rank() <= (
        #[trigger] values[j]).total_rank()
}

/// What is in ascending order and holds the same numbers is the sorted sequence.
pub proof fn lemma_sorted_is_unique(values: Seq<Float64>, out: Seq<Float64>)
    requires
        sorted_by(out, total_order()),
        out.to_multiset() == values.to_multiset(),
    ensures
        out == sorted(values),
{
    values.lemma_sort_by_ensures(total_order());
    lemma_sorted_unique(out, sorted(values), total_order());
}

/// Sorting keeps the numbers and puts them in ascending order.
pub proof fn lemma_sorted_is_sorted(values: Seq<Float64>)
    ensures
        ascending(sorted(values)),
        sorted(values).to_multiset() == values.to_multiset(),
        sorted(values).len() == values.len(),
{
    values.lemma_sort_by_ensures(total_order());
    values.to_multiset_ensures();
    sorted(values).to_multiset_ensures();
    let out = sorted(values);
    assert forall|i: int, j: int| 0 <= i < j < out.len() implies (
    #[trigger] out[i]).total_rank() <= (#[trigger] out[j]).total_rank() by {
        assert(total_order()(out[i], out[j]));
    }
}

fn merge(a: &Vec<Float64>, b: &Vec<Float64>) -> (out: Vec<Float64>)
    requires
        sorted_by(a@, total_order()),
        sorted_by(b@, total_order()),
    ensures
        sorted_by(out@, total_order()),
        out@.to_multiset() == a@.to_multiset().add(b@.to_multiset()),
{
    let mut out: Vec<Float64> = Vec::new();
    let mut i: usize = 0;
    let mut j: usize = 0;
    let ghost leq = total_order();
    proof {
        assert(a@.take(0) =~= Seq::<Float64>::empty());
        assert(b@.take(0) =~= Seq::<Float64>::empty());
        out@.to_multiset_ensures();
        assert(out@ =~= a@.take(0));
        assert(out@ =~= b@.take(0));
        assert(out@.to_multiset() =~= a@.take(0).to_multiset().add(b@.take(0).to_multiset()));
    }
    while i < a.len() || j < b.len()
        invariant
            i <= a.len(),
            j <= b.len(),
            leq == total_order(),
            sorted_by(a@, leq),
            sorted_by(b@, leq),
            sorted_by(out@, leq),
            out@.to_multiset() == a@.take(i as int).to_multiset().add(
                b@.take(j as int).to_multiset(),
            ),
            forall|x: int, y: int|
                0 <= x < out.len() && i <= y < a.len() ==> leq(#[trigger] out[x], #[trigger] a[y]),
            forall|x: int, y: int|
                0 <= x < out.len() && j <= y < b.len() ==> leq(#[trigger] out[x], #[trigger] b[y]),
        decreases a.len() - i + (b.len() - j),
    {
        let from_a: bool = j >= b.len() || (i < a.len() && a[i].total_le(b[j]));
        let ghost before = out@;
        if from_a {
            out.push(a[i]);
            proof {
                assert(a@.take(i + 1) =~= a@.take(i as int).push(a[i as int]));
                a@.take(i as int).to_multiset_ensures();
                before.to_multiset_ensures();
                assert(out@.to_multiset() =~= a@.take(i + 1).to_multiset().add(
                    b@.take(j as int).to_multiset(),
                ));
                assert forall|y: int| j <= y < b.len() implies leq(a[i as int], #[trigger] b[y]) by {
                    if y > j {
                        assert(leq(b[j as int], b[y]));
                    }
                }
            }
            i = i + 1;
        } else {
            out.push(b[j]);
            proof {
                assert(b@.take(j + 1) =~= b@.take(j as int).push(b[j as int]));
                b@.take(j as int).to_multiset_ensures();
                before.to_multiset_ensures();
                assert(out@.to_multiset() =~= a@.take(i as int).to_multiset().add(
                    b@.take(j + 1).to_multiset(),
                ));
                assert forall|y: int| i <= y < a.len() implies leq(b[j as int], #[trigger] a[y]) by {
                    if y > i {
                        assert(leq(a[i as int], a[y]));
                    }
                }
            }
            j = j + 1;
        }
    }
    proof {
        assert(a@.take(i as int) =~= a@);
        assert(b@.take(j as int) =~= b@);
    }
    out
}

/// Sorts the numbers of `values` from `lo` to before `hi`.
fn sort_range(values: &Vec<Float64>, lo: usize, hi: usize) -> (out: Vec<Float64>)
    requires
        lo <= hi <= values.len(),
    ensures
        sorted_by(out@, total_order()),
        out@.to_multiset() == values@.subrange(lo as int, hi as int).to_multiset(),
    decreases hi - lo,
{
    if hi - lo == 0 {
        let out: Vec<Float64> = Vec::new();
        assert(out@ =~= values@.subrange(lo as int, hi as int));
        out
    } else if hi - lo == 1 {
        let mut out: Vec<Float64> = Vec::new();
        out.push(values[lo]);
        assert(out@ =~= values@.subrange(lo as int, hi as int));
        out
    } else {
        let mid: usize = lo + (hi - lo) / 2;
        let left: Vec<Float64> = sort_range(values, lo, mid);
        let right: Vec<Float64> = sort_range(values, mid, hi);
        proof {
            let l = values@.subrange(lo as int, mid as int);
            let r = values@.subrange(mid as int, hi as int);
            assert(values@.subrange(lo as int, hi as int) =~= l + r);
            lemma_multiset_commutative(l, r);
        }
        merge(&left, &right)
    }
}

/// Sorts numbers by the total order of their bit patterns.
pub fn sort_by_total_order(values: &Vec<Float64>) -> (out: Vec<Float64>)
    ensures
        out@ == sorted(values@),
{
    let out: Vec<Float64> = sort_range(values, 0, values.len());
    proof {
        assert(values@.subrange(0, values@.len() as int) =~= values@);
        lemma_sorted_is_unique(values@, out@);
    }
    out
}

/// What is in ascending order is sorted.
pub proof fn lemma_ascending_is_sorted(values: Seq<Float64>)
    requires
        ascending(values),
    ensures
        sorted(values) == values,
{
    assert(sorted_by(values, total_order())) by {
        assert forall|i: int, j: int| 0 <= i < j < values.len() implies #[trigger] total_order()(
            values[i],
            values[j],
        ) by {}
    }
    lemma_sorted_is_unique(values, values);
}

/// The order in which numbers come does not matter: the same numbers sort alike.
pub proof fn law_sorting_forgets_the_order(a: Seq<Float64>, b: Seq<Float64>)
    requires
        a.to_multiset() == b.to_multiset(),
    ensures
        sorted(a) == sorted(b),
{
    a.lemma_sort_by_ensures(total_order());
    lemma_sorted_is_unique(b, sorted(a));
}

/// The zeros among the numbers, in their order.
pub open spec fn zeros(values: Seq<Float64>) -> Seq<Float64>
    decreases values.len(),
{
    if values.len() == 0 {
        Seq::empty()
    } else {
        let before = zeros(values.drop_last());
        if values.last().zero() {
            before.push(values.last())
        } else {
            before
        }
    }
}

/// `out` holds the numbers in ascending numeric order. Equal numbers keep their order; only
/// zeros can be equal and yet differ.
pub open spec fn stably_sorted(values: Seq<Float64>, out: Seq<Float64>) -> bool {
    &&& cdf::ascending_numbers(out)
    &&& out.to_multiset() == values.to_multiset()
    &&& zeros(out) == zeros(values)
}

/// The numbers in ascending numeric order, equal ones in the order in which they come.
pub open spec fn numerically_sorted(values: Seq<Float64>) -> Seq<Float64> {
    choose|out: Seq<Float64>| stably_sorted(values, out)
}

/// There is one such arrangement only.
pub proof fn lemma_stable_sort_is_unique(values: Seq<Float64>, a: Seq<Float64>, b: Seq<Float64>)
    requires
        stably_sorted(values, a),
        stably_sorted(values, b),
    ensures
        a == b,
{
    lemma_same_arrangement(a, b);
}

proof fn lemma_same_arrangement(a: Seq<Float64>, b: Seq<Float64>)
    requires
        cdf::ascending_numbers(a),
        cdf::ascending_numbers(b),
        a.to_multiset() == b.to_multiset(),
        zeros(a) == zeros(b),
    ensures
        a == b,
    decreases a.len(),
{
    a.to_multiset_ensures();
    b.to_multiset_ensures();
    if a.len() > 0 {
        let n = a.len() - 1;
        assert(a.to_multiset().count(a[n]) > 0) by {
            assert(a.contains(a[n]));
        }
        assert(b.contains(a[n]));
        assert(b.to_multiset().count(b[n]) > 0) by {
            assert(b.contains(b[n]));
        }
        assert(a.contains(b[n]));
        let i = choose|i: int| 0 <= i < b.len() && b[i] == a[n];
        let j = choose|j: int| 0 <= j < a.len() && a[j] == b[n];
        assert(b[i].ordinal() <= b[n].ordinal());
        assert(a[j].ordinal() <= a[n].ordinal());
        assert(!a[n].nan() && !b[n].nan());
        if a[n].zero() {
            assert(zeros(a).last() == a[n]);
            assert(zeros(b).last() == b[n]);
        }
        assert(a[n] == b[n]);
        let fa = a.drop_last();
        let fb = b.drop_last();
        assert(fa.push(a[n]) =~= a);
        assert(fb.push(b[n]) =~= b);
        fa.to_multiset_ensures();
        fb.to_multiset_ensures();
        assert(a.to_multiset() =~= fa.to_multiset().insert(a[n]));
        assert(b.to_multiset() =~= fb.to_multiset().insert(a[n]));
        assert(fa.to_multiset() =~= a.to_multiset().remove(a[n]));
        assert(fb.to_multiset() =~= b.to_multiset().remove(a[n]));
        if a[n].zero() {
            assert(zeros(fa) =~= zeros(a).drop_last());
            assert(zeros(fb) =~= zeros(b).drop_last());
        }
        lemma_part_ascends(a);
        lemma_part_ascends(b);
        lemma_same_arrangement(fa, fb);
    } else {
        assert(a =~= b);
    }
}

proof fn lemma_part_ascends(a: Seq<Float64>)
    requires
        cdf::ascending_numbers(a),
        a.len() > 0,
    ensures
        cdf::ascending_numbers(a.drop_last()),
{
    let f = a.drop_last();
    assert(forall|i: int| 0 <= i < f.len() ==> f[i] == a[i]);
    assert forall|i: int, j: int| 0 <= i <= j < f.len() implies (
    #[trigger] f[i]).ordinal() <= (#[trigger] f[j]).ordinal() by {
        assert(f[i] == a[i] && f[j] == a[j]);
    }
}

proof fn lemma_zeros_push(values: Seq<Float64>, x: Float64)
    ensures
        zeros(values.push(x)) == if x.zero() {
            zeros(values).push(x)
        } else {
            zeros(values)
        },
{
    assert(values.push(x).drop_last() =~= values);
}

proof fn lemma_zeros_concat(a: Seq<Float64>, b: Seq<Float64>)
    ensures
        zeros(a + b) == zeros(a) + zeros(b),
    decreases b.len(),
{
    if b.len() == 0 {
        assert(a + b =~= a);
        assert(zeros(a) + zeros(b) =~= zeros(a));
    } else {
        assert((a + b).drop_last() =~= a + b.drop_last());
        lemma_zeros_concat(a, b.drop_last());
        if b.last().zero() {
            assert(zeros(a) + zeros(b.drop_last()).push(b.last()) =~= (zeros(a) + zeros(
                b.drop_last(),
            )).push(b.last()));
        }
    }
}

/// Merges numbers in ascending order; of equal ones, those of `a` come first.
fn merge_numbers(a: &Vec<Float64>, b: &Vec<Float64>) -> (out: Vec<Float64>)
    requires
        cdf::ascending_numbers(a@),
        cdf::ascending_numbers(b@),
    ensures
        cdf::ascending_numbers(out@),
        out@.to_multiset() == a@.to_multiset().add(b@.to_multiset()),
        zeros(out@) == zeros(a@) + zeros(b@),
{
    let mut out: Vec<Float64> = Vec::new();
    let mut i: usize = 0;
    let mut j: usize = 0;
    proof {
        assert(a@.take(0) =~= Seq::<Float64>::empty());
        assert(b@.take(0) =~= Seq::<Float64>::empty());
        out@.to_multiset_ensures();
        assert(out@ =~= a@.take(0));
        assert(out@ =~= b@.take(0));
        assert(out@.to_multiset() =~= a@.take(0).to_multiset().add(b@.take(0).to_multiset()));
        assert(zeros(out@) =~= zeros(a@.take(0)) + zeros(b@.take(0)));
    }
    while i < a.len() || j < b.len()
        invariant
            i <= a.len(),
            j <= b.len(),
            cdf::ascending_numbers(a@),
            cdf::ascending_numbers(b@),
            cdf::ascending_numbers(out@),
            out@.to_multiset() == a@.take(i as int).to_multiset().add(
                b@.take(j as int).to_multiset(),
            ),
            zeros(out@) == zeros(a@.take(i as int)) + zeros(b@.take(j as int)),
            zeros(b@.take(j as int)).len() > 0 && i < a.len() ==> 0 < a@[i as int].ordinal(),
            forall|x: int, y: int|
                0 <= x < out@.len() && i <= y < a@.len() ==> (#[trigger] out@[x]).ordinal() <= (
                #[trigger] a@[y]).ordinal(),
            forall|x: int, y: int|
                0 <= x < out@.len() && j <= y < b@.len() ==> (#[trigger] out@[x]).ordinal() <= (
                #[trigger] b@[y]).ordinal(),
        decreases a.len() - i + (b.len() - j),
    {
        let from_a: bool = j >= b.len() || (i < a.len() && !b[j].lt(a[i]));
        let ghost before = out@;
        let ghost za = zeros(a@.take(i as int));
        let ghost zb = zeros(b@.take(j as int));
        if from_a {
            out.push(a[i]);
            proof {
                assert(a@.take(i + 1) =~= a@.take(i as int).push(a[i as int]));
                a@.take(i as int).to_multiset_ensures();
                before.to_multiset_ensures();
                assert(out@.to_multiset() =~= a@.take(i + 1).to_multiset().add(
                    b@.take(j as int).to_multiset(),
                ));
                lemma_zeros_push(before, a[i as int]);
                lemma_zeros_push(a@.take(i as int), a[i as int]);
                if a[i as int].zero() {
                    assert(zb.len() == 0);
                    assert((za + zb).push(a[i as int]) =~= za.push(a[i as int]) + zb);
                }
                assert(!a@[i as int].nan());
                if i + 1 < a.len() {
                    assert(a@[i as int].ordinal() <= a@[i + 1].ordinal());
                }
                assert forall|y: int| j <= y < b@.len() implies a@[i as int].ordinal() <= (
                #[trigger] b@[y]).ordinal() by {
                    assert(!b@[j as int].nan());
                    assert(b@[j as int].ordinal() <= b@[y].ordinal());
                }
                lemma_ascending_push(before, a[i as int]);
            }
            i = i + 1;
        } else {
            out.push(b[j]);
            proof {
                assert(b@.take(j + 1) =~= b@.take(j as int).push(b[j as int]));
                b@.take(j as int).to_multiset_ensures();
                before.to_multiset_ensures();
                assert(out@.to_multiset() =~= a@.take(i as int).to_multiset().add(
                    b@.take(j + 1).to_multiset(),
                ));
                lemma_zeros_push(before, b[j as int]);
                lemma_zeros_push(b@.take(j as int), b[j as int]);
                if b[j as int].zero() {
                    assert((za + zb).push(b[j as int]) =~= za + zb.push(b[j as int]));
                }
                assert(!b@[j as int].nan());
                assert forall|y: int| i <= y < a@.len() implies b@[j as int].ordinal() <= (
                #[trigger] a@[y]).ordinal() by {
                    assert(a@[i as int].ordinal() <= a@[y].ordinal());
                }
                lemma_ascending_push(before, b[j as int]);
            }
            j = j + 1;
        }
    }
    proof {
        assert(a@.take(i as int) =~= a@);
        assert(b@.take(j as int) =~= b@);
    }
    out
}

proof fn lemma_ascending_push(values: Seq<Float64>, x: Float64)
    requires
        cdf::ascending_numbers(values),
        !x.nan(),
        forall|i: int| 0 <= i < values.len() ==> (#[trigger] values[i]).ordinal() <= x.ordinal(),
    ensures
        cdf::ascending_numbers(values.push(x)),
{
    let out = values.push(x);
    assert forall|i: int, j: int| 0 <= i <= j < out.len() implies (
    #[trigger] out[i]).ordinal() <= (#[trigger] out[j]).ordinal() by {
        if j < values.len() {
            assert(values[i].ordinal() <= values[j].ordinal());
        } else if i < values.len() {
            assert(values[i].ordinal() <= x.ordinal());
        }
    }
}

/// Sorts the numbers of `values` from `lo` to before `hi` by their numeric order.
fn sort_numbers_range(values: &Vec<Float64>, lo: usize, hi: usize) -> (out: Vec<Float64>)
    requires
        lo <= hi <= values.len(),
        cdf::no_nan(values@),
    ensures
        stably_sorted(values@.subrange(lo as int, hi as int), out@),
    decreases hi - lo,
{
    if hi - lo <= 1 {
        let mut out: Vec<Float64> = Vec::new();
        if lo < hi {
            assert(!values@[lo as int].nan());
            out.push(values[lo]);
        }
        assert(out@ =~= values@.subrange(lo as int, hi as int));
        out
    } else {
        let mid: usize = lo + (hi - lo) / 2;
        let left: Vec<Float64> = sort_numbers_range(values, lo, mid);
        let right: Vec<Float64> = sort_numbers_range(values, mid, hi);
        proof {
            let l = values@.subrange(lo as int, mid as int);
            let r = values@.subrange(mid as int, hi as int);
            assert(values@.subrange(lo as int, hi as int) =~= l + r);
            lemma_multiset_commutative(l, r);
            lemma_zeros_concat(l, r);
        }
        merge_numbers(&left, &right)
    }
}

/// Sorts numbers by their numeric order. Equal ones keep their order.
pub fn sort_numbers(values: &Vec<Float64>) -> (out: Vec<Float64>)
    requires
        cdf::no_nan(values@),
    ensures
        out@ == numerically_sorted(values@),
        stably_sorted(values@, out@),
{
    let out: Vec<Float64> = sort_numbers_range(values, 0, values.len());
    proof {
        assert(values@.subrange(0, values@.len() as int) =~= values@);
        lemma_stable_sort_is_unique(values@, out@, numerically_sorted(values@));
    }
    out
}

/// A copy of the numbers.
pub fn copied(values: &[Float64]) -> (copy: Vec<Float64>)
    ensures
        copy@ == values@,
{
    let mut copy: Vec<Float64> = Vec::new();
    let mut i: usize = 0;
    while i < values.len()
        invariant
            i <= values@.len(),
            copy@ == values@.take(i as int),
        decreases values@.len() - i,
    {
        copy.push(values[i]);
        assert(values@.take(i + 1) =~= values@.take(i as int).push(values@[i as int]));
        i = i + 1;
    }
    assert(values@.take(i as int) =~= values@);
    copy
}

} // verus!
