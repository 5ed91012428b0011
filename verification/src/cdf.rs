//! Estimation of the cumulative distribution function.
//!
//! - Outside the support the estimate is 0 or 1.
//! - In the tails it is a guarded linear ramp between the extreme and the edge mean, with
//!   half of the edge weight.
//! - At the mean of a centroid it is the weight before it and half of its own.
//! - Between centroids it is interpolated from centre to centre, where centroids of weight
//!   1 do not contribute their half to the span.
use vstd::prelude::*;

use crate::centroid::Centroid;
use crate::digest::{DigestView, TDigest};
use crate::float::Float64;
use crate::float::{HALF_BITS, ONE_BITS, TWO_BITS};
use crate::merges;

verus! {

/// The arrays that an estimate reads, one entry per centroid.
#[derive(Debug)]
pub struct CdfLight {
    pub means: Vec<Float64>,
    pub weights: Vec<Float64>,
    /// The weight before each centroid.
    pub prefix: Vec<Float64>,
    pub count: Float64,
}

/// What the arrays hold.
#[verifier::ext_equal]
pub struct CdfModel {
    pub means: Seq<Float64>,
    pub weights: Seq<Float64>,
    pub prefix: Seq<Float64>,
    pub count: Float64,
}

impl View for CdfLight {
    type V = CdfModel;

    open spec fn view(&self) -> CdfModel {
        CdfModel {
            means: self.means@,
            weights: self.weights@,
            prefix: self.prefix@,
            count: self.count,
        }
    }
}

pub open spec fn half() -> Float64 {
    Float64 { bits: HALF_BITS }
}

pub open spec fn one() -> Float64 {
    Float64 { bits: ONE_BITS }
}

pub open spec fn two() -> Float64 {
    Float64 { bits: TWO_BITS }
}

pub open spec fn zero() -> Float64 {
    Float64::zero_spec(false)
}

/// The sum of numbers, added up from the left.
pub open spec fn sum(values: Seq<Float64>) -> Float64
    decreases values.len(),
{
    if values.len() == 0 {
        zero()
    } else {
        sum(values.drop_last()).plus_spec(values.last())
    }
}

/// Where a value stands among the means.
pub enum Slot {
    /// It is the mean at this position.
    Hit(int),
    /// It would be inserted at this position.
    Gap(int),
}

/// No number is NaN, and none is below any before it.
pub open spec fn ascending_numbers(means: Seq<Float64>) -> bool {
    &&& no_nan(means)
    &&& forall|i: int, j: int|
        0 <= i <= j < means.len() ==> (#[trigger] means[i]).ordinal() <= (
        #[trigger] means[j]).ordinal()
}

/// No number is NaN.
pub open spec fn no_nan(means: Seq<Float64>) -> bool {
    forall|i: int| 0 <= i < means.len() ==> !(#[trigger] means[i]).nan()
}

/// The numbers are strictly increasing.
pub open spec fn strictly_ascending_numbers(means: Seq<Float64>) -> bool {
    &&& no_nan(means)
    &&& forall|i: int, j: int|
        0 <= i < j < means.len() ==> (#[trigger] means[i]).ordinal() < (
        #[trigger] means[j]).ordinal()
}

/// `slot` is a place of `val` among `means`. Among means that are out of order, any
/// position will do for a gap.
pub open spec fn is_slot(means: Seq<Float64>, val: Float64, slot: Slot) -> bool {
    match slot {
        Slot::Hit(i) => 0 <= i < means.len() && means[i].eq_spec(val),
        Slot::Gap(i) => {
            &&& 0 <= i <= means.len()
            &&& ascending_numbers(means) ==> {
                &&& forall|j: int| 0 <= j < i ==> (#[trigger] means[j]).lt_spec(val)
                &&& forall|j: int| i <= j < means.len() ==> val.lt_spec(#[trigger] means[j])
            }
        },
    }
}

/// The place of `val` among strictly increasing means.
pub open spec fn slot_of(means: Seq<Float64>, val: Float64) -> Slot {
    choose|slot: Slot| is_slot(means, val, slot)
}

/// The place of `val` among the means from `lo` to before `hi`, by bisection. Where several
/// means are equal to `val`, it is the one that bisection meets first.
pub open spec fn place(means: Seq<Float64>, val: Float64, lo: int, hi: int) -> Slot
    decreases hi - lo,
{
    let mid = lo + (hi - lo) / 2;
    if lo >= hi {
        Slot::Gap(lo)
    } else if means[mid].eq_spec(val) {
        Slot::Hit(mid)
    } else if means[mid].lt_spec(val) {
        place(means, val, mid + 1, hi)
    } else {
        place(means, val, lo, mid)
    }
}

impl CdfModel {
    /// The arrays of a digest with the given centroids and count.
    pub open spec fn of(centroids: Seq<Centroid>, count: Float64) -> CdfModel {
        let weights = centroids.map_values(|c: Centroid| c.weight);
        CdfModel {
            means: centroids.map_values(|c: Centroid| c.mean),
            weights,
            prefix: Seq::new(centroids.len(), |i: int| sum(weights.take(i))),
            count,
        }
    }

    /// There is a centroid, and an entry for each in every array.
    pub open spec fn well_formed(self) -> bool {
        &&& self.means.len() > 0
        &&& self.weights.len() == self.means.len()
        &&& self.prefix.len() == self.means.len()
    }

    /// At the mean of centroid `i`: the weight before it and half of its own.
    pub open spec fn at_mean(self, i: int) -> Float64 {
        self.prefix[i].plus_spec(half().times_spec(self.weights[i])).over_spec(self.count)
    }

    /// Left of the first mean.
    pub open spec fn in_left_tail(self, val: Float64, min: Float64) -> Float64 {
        let gap = self.means[0].minus_spec(min);
        if val.lt_spec(min) || !zero().lt_spec(gap) {
            zero()
        } else if val.eq_spec(min) {
            half().over_spec(self.count)
        } else {
            let ramp = val.minus_spec(min).over_spec(gap).times_spec(
                self.weights[0].over_spec(two()).minus_spec(one()),
            );
            one().plus_spec(ramp).over_spec(self.count)
        }
    }

    /// Right of the last mean.
    pub open spec fn in_right_tail(self, val: Float64, max: Float64) -> Float64 {
        let last = self.means.len() - 1;
        let gap = max.minus_spec(self.means[last]);
        if max.lt_spec(val) || !zero().lt_spec(gap) {
            one()
        } else if val.eq_spec(max) {
            one().minus_spec(half().over_spec(self.count))
        } else {
            let ramp = max.minus_spec(val).over_spec(gap).times_spec(
                self.weights[last].over_spec(two()).minus_spec(one()),
            );
            one().minus_spec(one().plus_spec(ramp).over_spec(self.count))
        }
    }

    /// Between the centroids `i - 1` and `i`.
    pub open spec fn between(self, val: Float64, i: int) -> Float64 {
        let ml = self.means[i - 1];
        let mr = self.means[i];
        let wl = self.weights[i - 1];
        let wr = self.weights[i];
        let before = self.prefix[i - 1];
        let gap = mr.minus_spec(ml);
        let dw = half().times_spec(wl.plus_spec(wr));
        if gap.le_spec(zero()) {
            before.plus_spec(dw).over_spec(self.count)
        } else if wl.eq_spec(one()) && wr.eq_spec(one()) {
            before.plus_spec(one()).over_spec(self.count)
        } else {
            let left = excluded(wl);
            let right = excluded(wr);
            let span = dw.minus_spec(left).minus_spec(right);
            let base = before.plus_spec(wl.over_spec(two())).plus_spec(left);
            let frac = val.minus_spec(ml).over_spec(gap);
            base.plus_spec(span.times_spec(frac)).over_spec(self.count)
        }
    }

    /// The estimate at `val`, which stands at `slot` among the means.
    pub open spec fn at_slot(self, val: Float64, min: Float64, max: Float64, slot: Slot) -> Float64 {
        match slot {
            Slot::Hit(i) => self.at_mean(i),
            Slot::Gap(i) => if i == 0 {
                self.in_left_tail(val, min)
            } else if i == self.means.len() {
                self.in_right_tail(val, max)
            } else {
                self.between(val, i)
            },
        }
    }

    /// The estimate at `val`.
    pub open spec fn estimate(self, val: Float64, min: Float64, max: Float64) -> Float64 {
        self.at_slot(val, min, max, place(self.means, val, 0, self.means.len() as int))
    }

    /// `r` is an estimate at `val`. Where the means are strictly increasing, there is one
    /// only.
    pub open spec fn estimates(self, val: Float64, min: Float64, max: Float64, r: Float64) -> bool {
        &&& exists|slot: Slot| #[trigger]
            is_slot(self.means, val, slot) && r == self.at_slot(val, min, max, slot)
        &&& strictly_ascending_numbers(self.means) ==> r == self.at_slot(
            val,
            min,
            max,
            slot_of(self.means, val),
        )
    }
}

/// The estimates of a digest, one for each query. A digest without centroids estimates NaN.
pub open spec fn answers(d: DigestView, vals: Seq<Float64>) -> Seq<Float64> {
    vals.map_values(
        |v: Float64|
            if d.centroids.len() == 0 {
                Float64::nan_spec()
            } else {
                CdfModel::of(d.centroids, d.count).estimate(v, d.min, d.max)
            },
    )
}

/// Each answer depends on its own query only, not on the others or on where it stands.
pub proof fn law_answers_depend_on_their_own_query(
    d: DigestView,
    a: Seq<Float64>,
    b: Seq<Float64>,
    i: int,
    j: int,
)
    requires
        0 <= i < a.len(),
        0 <= j < b.len(),
        a[i] == b[j],
    ensures
        answers(d, a).len() == a.len(),
        answers(d, b).len() == b.len(),
        answers(d, a)[i] == answers(d, b)[j],
        answers(d, a)[i] == answers(d, seq![a[i]])[0],
{
}

/// What a centroid of weight `w` takes out of the span of an interpolation.
pub open spec fn excluded(w: Float64) -> Float64 {
    if w.eq_spec(one()) {
        half()
    } else {
        zero()
    }
}

/// A value has one place among strictly increasing means.
pub proof fn lemma_slot_is_unique(means: Seq<Float64>, val: Float64, slot: Slot)
    requires
        strictly_ascending_numbers(means),
        is_slot(means, val, slot),
    ensures
        slot_of(means, val) == slot,
{
    let other = slot_of(means, val);
    assert(is_slot(means, val, other));
    assert(ascending_numbers(means)) by {
        assert forall|i: int, j: int| 0 <= i <= j < means.len() implies (
        #[trigger] means[i]).ordinal() <= (#[trigger] means[j]).ordinal() by {}
    }
    match (slot, other) {
        (Slot::Hit(a), Slot::Hit(b)) => {
            if a < b {
                assert(means[a].ordinal() < means[b].ordinal());
            } else if b < a {
                assert(means[b].ordinal() < means[a].ordinal());
            }
        },
        (Slot::Hit(a), Slot::Gap(b)) => {
            assert(means[a].lt_spec(val) || val.lt_spec(means[a]));
        },
        (Slot::Gap(a), Slot::Hit(b)) => {
            assert(means[b].lt_spec(val) || val.lt_spec(means[b]));
        },
        (Slot::Gap(a), Slot::Gap(b)) => {
            if a < b {
                assert(val.lt_spec(means[a]));
                assert(means[a].lt_spec(val));
            } else if b < a {
                assert(val.lt_spec(means[b]));
                assert(means[b].lt_spec(val));
            }
        },
    }
}

/// The arrays of a digest.
pub fn build_arrays_light(td: &TDigest) -> (r: CdfLight)
    ensures
        r@ == CdfModel::of(td@.centroids, td@.count),
{
    let mut means: Vec<Float64> = Vec::new();
    let mut weights: Vec<Float64> = Vec::new();
    let mut prefix: Vec<Float64> = Vec::new();
    let mut run: Float64 = Float64::from_bits(0);
    let ghost cs = td.centroids@;
    let ghost all = cs.map_values(|c: Centroid| c.weight);
    let mut i: usize = 0;
    assert(all.take(0) =~= Seq::<Float64>::empty());
    while i < td.centroids.len()
        invariant
            cs == td.centroids@,
            all == cs.map_values(|c: Centroid| c.weight),
            i <= cs.len(),
            means.len() == i,
            weights.len() == i,
            prefix.len() == i,
            forall|k: int| 0 <= k < i ==> means[k] == (#[trigger] cs[k]).mean,
            forall|k: int| 0 <= k < i ==> weights[k] == (#[trigger] cs[k]).weight,
            run == sum(all.take(i as int)),
            forall|k: int| 0 <= k < i ==> #[trigger] prefix[k] == sum(all.take(k)),
        decreases cs.len() - i,
    {
        let c: Centroid = td.centroids[i];
        means.push(c.mean);
        weights.push(c.weight);
        prefix.push(run);
        run = run.plus(c.weight);
        assert(all.take(i + 1).drop_last() =~= all.take(i as int));
        i = i + 1;
    }
    let r = CdfLight { means, weights, prefix, count: td.count };
    assert(r@ =~= CdfModel::of(td@.centroids, td@.count));
    r
}

/// Bisection finds a place of the value.
pub proof fn lemma_place_is_slot(means: Seq<Float64>, val: Float64, lo: int, hi: int)
    requires
        no_nan(means),
        !val.nan(),
        0 <= lo <= hi <= means.len(),
        ascending_numbers(means) ==> {
            &&& forall|j: int| 0 <= j < lo ==> (#[trigger] means[j]).lt_spec(val)
            &&& forall|j: int| hi <= j < means.len() ==> val.lt_spec(#[trigger] means[j])
        },
    ensures
        is_slot(means, val, place(means, val, lo, hi)),
    decreases hi - lo,
{
    let mid = lo + (hi - lo) / 2;
    if lo < hi && !means[mid].eq_spec(val) {
        assert(!means[mid].nan());
        if means[mid].lt_spec(val) {
            lemma_place_is_slot(means, val, mid + 1, hi);
        } else {
            lemma_place_is_slot(means, val, lo, mid);
        }
    }
}

/// The place of a value among means: its position, or where it would be inserted.
fn search(means: &Vec<Float64>, val: Float64) -> (r: Result<usize, usize>)
    requires
        no_nan(means@),
        !val.nan(),
    ensures
        match r {
            Ok(i) => is_slot(means@, val, Slot::Hit(i as int)),
            Err(i) => is_slot(means@, val, Slot::Gap(i as int)),
        },
        place(means@, val, 0, means@.len() as int) == match r {
            Ok(i) => Slot::Hit(i as int),
            Err(i) => Slot::Gap(i as int),
        },
{
    let mut lo: usize = 0;
    let mut hi: usize = means.len();
    while lo < hi
        invariant
            lo <= hi <= means.len(),
            no_nan(means@),
            !val.nan(),
            place(means@, val, 0, means@.len() as int) == place(means@, val, lo as int, hi as int),
            ascending_numbers(means@) ==> {
                &&& forall|j: int| 0 <= j < lo ==> (#[trigger] means@[j]).lt_spec(val)
                &&& forall|j: int| hi <= j < means@.len() ==> val.lt_spec(#[trigger] means@[j])
            },
        decreases hi - lo,
    {
        let mid: usize = lo + (hi - lo) / 2;
        let m: Float64 = means[mid];
        if m.num_eq(val) {
            return Ok(mid);
        }
        if m.lt(val) {
            lo = mid + 1;
        } else {
            hi = mid;
        }
    }
    Err(lo)
}

/// The estimate at one value.
pub fn cdf_at_val_fast(val: Float64, light: &CdfLight, min_v: Float64, max_v: Float64) -> (r: Float64)
    requires
        light@.well_formed(),
        no_nan(light@.means),
        !val.nan(),
    ensures
        r == light@.estimate(val, min_v, max_v),
        light@.estimates(val, min_v, max_v, r),
{
    let half: Float64 = Float64::from_bits(HALF_BITS);
    let one: Float64 = Float64::from_bits(ONE_BITS);
    let two: Float64 = Float64::from_bits(TWO_BITS);
    let zero: Float64 = Float64::from_bits(0);
    let n: usize = light.means.len();
    let count: Float64 = light.count;
    let found: Result<usize, usize> = search(&light.means, val);
    let ghost slot = match found {
        Ok(i) => Slot::Hit(i as int),
        Err(i) => Slot::Gap(i as int),
    };
    proof {
        assert(is_slot(light.means@, val, slot));
        if strictly_ascending_numbers(light.means@) {
            lemma_slot_is_unique(light.means@, val, slot);
        }
    }
    match found {
        // Exact hit: half of the weight lies at or below the mean.
        Ok(idx) => light.prefix[idx].plus(half.times(light.weights[idx])).over(count),
        Err(idx) => {
            if idx == 0 {
                if val.lt(min_v) {
                    return zero;
                }
                let gap: Float64 = light.means[0].minus(min_v);
                if zero.lt(gap) {
                    if val.num_eq(min_v) {
                        return half.over(count);
                    }
                    let ramp: Float64 = val.minus(min_v).over(gap).times(
                        light.weights[0].over(two).minus(one),
                    );
                    return one.plus(ramp).over(count);
                }
                return zero;
            }
            if idx == n {
                if max_v.lt(val) {
                    return one;
                }
                let gap: Float64 = max_v.minus(light.means[n - 1]);
                if zero.lt(gap) {
                    if val.num_eq(max_v) {
                        return one.minus(half.over(count));
                    }
                    let ramp: Float64 = max_v.minus(val).over(gap).times(
                        light.weights[n - 1].over(two).minus(one),
                    );
                    return one.minus(one.plus(ramp).over(count));
                }
                return one;
            }
            let ml: Float64 = light.means[idx - 1];
            let mr: Float64 = light.means[idx];
            let wl: Float64 = light.weights[idx - 1];
            let wr: Float64 = light.weights[idx];
            let before: Float64 = light.prefix[idx - 1];
            let gap: Float64 = mr.minus(ml);
            let dw: Float64 = half.times(wl.plus(wr));
            if gap.le(zero) {
                return before.plus(dw).over(count);
            }
            let left_unit: bool = wl.num_eq(one);
            let right_unit: bool = wr.num_eq(one);
            if left_unit && right_unit {
                return before.plus(one).over(count);
            }
            let left: Float64 = if left_unit {
                half
            } else {
                zero
            };
            let right: Float64 = if right_unit {
                half
            } else {
                zero
            };
            let span: Float64 = dw.minus(left).minus(right);
            let base: Float64 = before.plus(wl.over(two)).plus(left);
            let frac: Float64 = val.minus(ml).over(gap);
            base.plus(span.times(frac)).over(count)
        },
    }
}

impl TDigest {
    /// Estimates the cumulative distribution function at each value. A digest without
    /// centroids estimates NaN.
    pub fn estimate_cdf(&self, vals: &[Float64]) -> (out: Vec<Float64>)
        requires
            self@.centroids.len() > 0 && vals@.len() > 0 ==> {
                &&& no_nan(vals@)
                &&& no_nan(self@.centroids.map_values(|c: Centroid| c.mean))
            },
        ensures
            out@ == answers(self@, vals@),
            self@.centroids.len() > 0 ==> forall|i: int|
                0 <= i < out@.len() ==> CdfModel::of(self@.centroids, self@.count).estimates(
                    vals@[i],
                    self@.min,
                    self@.max,
                    #[trigger] out@[i],
                ),
    {
        let mut out: Vec<Float64> = Vec::new();
        let mut i: usize = 0;
        if self.centroids.len() == 0 {
            while i < vals.len()
                invariant
                    i <= vals@.len(),
                    out.len() == i,
                    forall|k: int| 0 <= k < i ==> #[trigger] out[k] == Float64::nan_spec(),
                decreases vals@.len() - i,
            {
                out.push(Float64::nan_value());
                i = i + 1;
            }
            assert(out@ =~= answers(self@, vals@));
            return out;
        }
        let light: CdfLight = build_arrays_light(self);
        while i < vals.len()
            invariant
                i <= vals@.len(),
                out.len() == i,
                light@.well_formed(),
                light@ == CdfModel::of(self@.centroids, self@.count),
                vals@.len() > 0 ==> no_nan(vals@) && no_nan(light@.means),
                forall|k: int|
                    0 <= k < i ==> #[trigger] out[k] == light@.estimate(
                        vals@[k],
                        self@.min,
                        self@.max,
                    ),
                forall|k: int|
                    0 <= k < i ==> light@.estimates(
                        vals@[k],
                        self@.min,
                        self@.max,
                        #[trigger] out[k],
                    ),
            decreases vals@.len() - i,
        {
            out.push(cdf_at_val_fast(vals[i], &light, self.min, self.max));
            i = i + 1;
        }
        assert(out@ =~= answers(self@, vals@));
        out
    }

    /// Estimates the cumulative distribution function at each value.
    pub fn cdf(&self, x: &[Float64]) -> (out: Vec<Float64>)
        requires
            self@.centroids.len() > 0 && x@.len() > 0 ==> {
                &&& no_nan(x@)
                &&& no_nan(self@.centroids.map_values(|c: Centroid| c.mean))
            },
        ensures
            out@ == answers(self@, x@),
            self@.centroids.len() > 0 ==> forall|i: int|
                0 <= i < out@.len() ==> CdfModel::of(self@.centroids, self@.count).estimates(
                    x@[i],
                    self@.min,
                    self@.max,
                    #[trigger] out@[i],
                ),
    {
        self.estimate_cdf(x)
    }
}

/// The exact distribution function at the values from position `start` to before `end` of
/// `n` sorted values, which are all equal: half of them count as below.
pub open spec fn tie_midpoint(start: int, end: int, n: int) -> Float64 {
    Float64::from_int_spec(start + end).times_spec(half()).over_spec(Float64::from_int_spec(n))
}

/// The exact distribution function at each of the sorted values from position `start` on,
/// of `n` in all.
pub open spec fn exact_ecdf(values: Seq<Float64>, start: int, n: int) -> Seq<Float64>
    decreases values.len(),
{
    if values.len() == 0 {
        Seq::empty()
    } else {
        let len = merges::first_run(values);
        proof {
            merges::lemma_run_length_bound(values.drop_first(), values[0]);
        }
        Seq::new(len, |i: int| tie_midpoint(start, start + len, n)) + exact_ecdf(
            values.skip(len as int),
            start + len,
            n,
        )
    }
}

/// The exact distribution function at each of the sorted values: the fraction of values
/// below it, and half of those equal to it.
pub fn exact_ecdf_for_sorted(sorted: &[Float64]) -> (out: Vec<Float64>)
    requires
        sorted@.len() <= 0x7fff_ffff_ffff_ffff,
    ensures
        out@ == exact_ecdf(sorted@, 0, sorted@.len() as int),
{
    let n: usize = sorted.len();
    let half: Float64 = Float64::from_bits(HALF_BITS);
    let nf: Float64 = Float64::from_u64(n as u64);
    let mut out: Vec<Float64> = Vec::new();
    let mut i: usize = 0;
    let ghost whole = exact_ecdf(sorted@, 0, n as int);
    assert(sorted@.skip(0) =~= sorted@);
    assert(out@ + whole =~= whole);
    while i < n
        invariant
            n == sorted@.len(),
            n <= 0x7fff_ffff_ffff_ffff,
            i <= n,
            half == self::half(),
            nf == Float64::from_int_spec(n as int),
            out@ + exact_ecdf(sorted@.skip(i as int), i as int, n as int) == whole,
        decreases n - i,
    {
        let ghost rest = sorted@.skip(i as int);
        let first: Float64 = sorted[i];
        let mut j: usize = i + 1;
        assert(rest.drop_first() =~= sorted@.skip(i + 1));
        while j < n && sorted[j].num_eq(first)
            invariant
                n == sorted@.len(),
                i < j <= n,
                j - i - 1 + merges::run_length(sorted@.skip(j as int), first)
                    == merges::run_length(sorted@.skip(i + 1), first),
            ensures
                j == n || !sorted@[j as int].eq_spec(first),
            decreases n - j,
        {
            assert(sorted@.skip(j as int).drop_first() =~= sorted@.skip(j + 1));
            j = j + 1;
        }
        assert(j - i == merges::first_run(rest));
        let val: Float64 = Float64::from_u64(i as u64 + j as u64).times(half).over(nf);
        let ghost before = out@;
        let ghost tie = Seq::new((j - i) as nat, |k: int| val);
        let mut k: usize = i;
        while k < j
            invariant
                i <= k <= j,
                out@ == before + Seq::new((k - i) as nat, |x: int| val),
            decreases j - k,
        {
            out.push(val);
            assert(out@ =~= before + Seq::new((k + 1 - i) as nat, |x: int| val));
            k = k + 1;
        }
        proof {
            let later = exact_ecdf(sorted@.skip(j as int), j as int, n as int);
            assert(rest.skip(j - i) =~= sorted@.skip(j as int));
            assert(exact_ecdf(rest, i as int, n as int) =~= tie + later);
            assert(out@ + later =~= before + (tie + later));
        }
        i = j;
    }
    proof {
        assert(sorted@.skip(n as int) =~= Seq::<Float64>::empty());
        assert(out@ + exact_ecdf(sorted@.skip(n as int), n as int, n as int) =~= out@);
    }
    out
}

} // verus!
