//! The digest, its builder, and the merging of values and digests into it.
//!
//! Merging produces a normalized stream of centroids. What compresses that stream to the
//! capacity of the digest is given by the caller: a function from the header of the
//! result, its capacity and the stream to the finished digest.
use vstd::prelude::*;

use crate::centroid;
use crate::centroid::Centroid;
use crate::float::{Float64, HALF_BITS};
use crate::merges;
use crate::merges::{normalize_stream, KWayCentroidMerge, MergeByMean, NormalizedStream};
use crate::policy::SingletonPolicy;
use crate::scale::ScaleFamily;
use crate::sort;
use crate::sort::{copied, sort_by_total_order};

verus! {

/// A t-digest: centroids in ascending order of their means, and what is known of all
/// values together.
#[derive(Debug)]
pub struct TDigest {
    pub centroids: Vec<Centroid>,
    pub max_size: usize,
    pub sum: Float64,
    pub count: Float64,
    pub max: Float64,
    pub min: Float64,
    pub scale: ScaleFamily,
    pub policy: SingletonPolicy,
}

/// What a digest holds.
#[verifier::ext_equal]
pub struct DigestView {
    pub centroids: Seq<Centroid>,
    pub max_size: usize,
    pub sum: Float64,
    pub count: Float64,
    pub max: Float64,
    pub min: Float64,
    pub scale: ScaleFamily,
    pub policy: SingletonPolicy,
}

impl View for TDigest {
    type V = DigestView;

    open spec fn view(&self) -> DigestView {
        DigestView {
            centroids: self.centroids@,
            max_size: self.max_size,
            sum: self.sum,
            count: self.count,
            max: self.max,
            min: self.min,
            scale: self.scale,
            policy: self.policy,
        }
    }
}

/// The capacity of a digest for which none was chosen.
pub const DEFAULT_MAX_SIZE: usize = 1000;

impl DigestView {
    /// A digest without values.
    pub open spec fn empty(
        max_size: usize,
        scale: ScaleFamily,
        policy: SingletonPolicy,
    ) -> DigestView {
        DigestView {
            centroids: Seq::empty(),
            max_size,
            sum: Float64::zero_spec(false),
            count: Float64::zero_spec(false),
            max: Float64::nan_spec(),
            min: Float64::nan_spec(),
            scale,
            policy,
        }
    }

    /// The default digest without values.
    pub open spec fn default_spec() -> DigestView {
        Self::empty(DEFAULT_MAX_SIZE, ScaleFamily::K2, SingletonPolicy::Use)
    }

    /// The digest has counted something.
    pub open spec fn counted(self) -> bool {
        Float64::zero_spec(false).lt_spec(self.count)
    }

    /// The header of the digest that results from merging `values`, sorted, into this one.
    pub open spec fn header_for_values(self, values: Seq<Float64>) -> DigestView {
        DigestView {
            count: self.count.plus_spec(Float64::from_int_spec(values.len() as int)),
            min: if self.counted() {
                self.min.min_spec(values[0])
            } else {
                values[0]
            },
            max: if self.counted() {
                self.max.max_spec(values.last())
            } else {
                values.last()
            },
            ..Self::empty(self.max_size, self.scale, self.policy)
        }
    }

    /// The stream of centroids that results from merging `values`, sorted, into this one.
    pub open spec fn stream_for_values(self, values: Seq<Float64>) -> Seq<Centroid> {
        merges::merged_by_mean(self.centroids, values, self.policy.marks_values_spec())
    }

    /// The digest takes part in a merge of digests.
    pub open spec fn contributes(self) -> bool {
        self.counted() && self.centroids.len() > 0
    }
}

/// What a merge of digests gathers from those that take part.
#[verifier::ext_equal]
pub struct Gathered {
    /// Count, extremes and settings of the result. The settings are those of the first
    /// digest that takes part.
    pub header: DigestView,
    pub runs: Seq<Seq<Centroid>>,
}

/// What a merge of the given digests gathers, from the first to the last.
pub open spec fn gathered(digests: Seq<DigestView>) -> Gathered
    decreases digests.len(),
{
    if digests.len() == 0 {
        Gathered {
            header: DigestView {
                min: Float64::infinity_spec(false),
                max: Float64::infinity_spec(true),
                ..DigestView::default_spec()
            },
            runs: Seq::empty(),
        }
    } else {
        let before = gathered(digests.drop_last());
        let d = digests.last();
        if d.contributes() {
            let settings = if before.runs.len() == 0 {
                d
            } else {
                before.header
            };
            Gathered {
                header: DigestView {
                    count: before.header.count.plus_spec(d.count),
                    min: before.header.min.min_spec(d.min),
                    max: before.header.max.max_spec(d.max),
                    ..DigestView::empty(settings.max_size, settings.scale, settings.policy)
                },
                runs: before.runs.push(d.centroids),
            }
        } else {
            before
        }
    }
}

/// What digests hold.
pub open spec fn views(digests: Seq<TDigest>) -> Seq<DigestView> {
    digests.map_values(|d: TDigest| d@)
}

/// The arguments that a compression gets: the header, its capacity, and the normalized
/// stream of `items`.
pub open spec fn compression_input(
    args: (TDigest, usize, NormalizedStream),
    header: DigestView,
    items: Seq<Centroid>,
) -> bool {
    &&& args.0@ == header
    &&& args.1 == header.max_size
    &&& args.2.normalizes(items)
}

/// `compress` takes the header with the normalized stream of `items`.
pub open spec fn takes<C>(compress: C, header: DigestView, items: Seq<Centroid>) -> bool where
    C: Fn(TDigest, usize, NormalizedStream) -> TDigest,
 {
    forall|args: (TDigest, usize, NormalizedStream)|
        compression_input(args, header, items) ==> #[trigger] compress.requires(args)
}

/// The digest `c` with the settings of the header.
pub open spec fn settled(header: DigestView, c: DigestView) -> DigestView {
    DigestView { max_size: header.max_size, scale: header.scale, policy: header.policy, ..c }
}

/// The digest `r` is what `compress` makes of the header and the normalized stream of
/// `items`, with the settings of the header.
pub open spec fn compressed<C>(
    compress: C,
    header: DigestView,
    items: Seq<Centroid>,
    r: DigestView,
) -> bool where C: Fn(TDigest, usize, NormalizedStream) -> TDigest {
    exists|args: (TDigest, usize, NormalizedStream), c: TDigest|
        compression_input(args, header, items) && #[trigger] compress.ensures(args, c) && r
            == settled(header, c@)
}

/// Compresses a normalized stream, and puts the settings of the header back.
fn compress_with<C>(
    header: TDigest,
    stream: NormalizedStream,
    compress: C,
    Ghost(items): Ghost<Seq<Centroid>>,
) -> (r: TDigest) where C: Fn(TDigest, usize, NormalizedStream) -> TDigest,

    requires
        stream.normalizes(items),
        takes(compress, header@, items),
    ensures
        compressed(compress, header@, items, r@),
{
    let (max_size, scale, policy): (usize, ScaleFamily, SingletonPolicy) = (
        header.max_size,
        header.scale,
        header.policy,
    );
    let ghost args = (header, max_size, stream);
    assert(compression_input(args, header@, items));
    let c: TDigest = compress(header, max_size, stream);
    let r: TDigest = TDigest { max_size, scale, policy, ..c };
    assert(r@ == settled(header@, c@));
    r
}

impl Gathered {
    /// Nothing was counted.
    pub open spec fn blank(self) -> bool {
        self.header.count.eq_spec(Float64::zero_spec(false))
    }

    /// What was gathered can be merged: the runs do not descend, and `compress` takes
    /// them.
    pub open spec fn mergeable<C>(self, compress: C) -> bool where
        C: Fn(TDigest, usize, NormalizedStream) -> TDigest,
     {
        !self.blank() ==> {
            &&& centroid::non_decreasing(merges::merged_runs(self.runs))
            &&& takes(compress, self.header, merges::merged_runs(self.runs))
        }
    }

    /// The digest `r` is what `compress` makes of what was gathered; the default digest
    /// where nothing was counted.
    pub open spec fn merged<C>(self, compress: C, r: TDigest) -> bool where
        C: Fn(TDigest, usize, NormalizedStream) -> TDigest,
     {
        if self.blank() {
            r@ == DigestView::default_spec()
        } else {
            compressed(compress, self.header, merges::merged_runs(self.runs), r@)
        }
    }
}

/// Centroids and totals that a digest is made of.
#[verifier::ext_equal]
pub struct Parts {
    pub centroids: Seq<Centroid>,
    pub sum: Float64,
    pub count: Float64,
    pub max: Float64,
    pub min: Float64,
    pub max_size: usize,
}

impl Parts {
    /// The digest of these parts, with the given capacity.
    pub open spec fn digest(self, max_size: usize) -> DigestView {
        DigestView {
            centroids: self.centroids,
            max_size,
            sum: self.sum,
            count: self.count,
            max: self.max,
            min: self.min,
            scale: ScaleFamily::K2,
            policy: SingletonPolicy::Use,
        }
    }

    /// What is merged where the centroids exceed the capacity.
    pub open spec fn gathered(self) -> Gathered {
        gathered(seq![self.digest(self.centroids.len() as usize)])
    }

    /// The centroids fit the capacity, or there is nothing to merge, or they do not descend
    /// when merged.
    pub open spec fn ordered(self) -> bool {
        ||| self.centroids.len() <= self.max_size
        ||| self.gathered().blank()
        ||| centroid::non_decreasing(merges::merged_runs(self.gathered().runs))
    }

    /// A digest can be made of these parts: they do not exceed the capacity, or they can
    /// be merged.
    pub open spec fn constructible<C>(self, compress: C) -> bool where
        C: Fn(TDigest, usize, NormalizedStream) -> TDigest,
     {
        self.centroids.len() > self.max_size ==> self.gathered().mergeable(compress)
    }

    /// The digest `r` is made of these parts: it holds them as they are, or it is merged
    /// from them.
    pub open spec fn constructed<C>(self, compress: C, r: TDigest) -> bool where
        C: Fn(TDigest, usize, NormalizedStream) -> TDigest,
     {
        if self.centroids.len() <= self.max_size {
            r@ == self.digest(self.max_size)
        } else {
            self.gathered().merged(compress, r)
        }
    }
}

/// Settings for a new digest.
#[derive(Clone, Copy, Debug)]
pub struct TDigestBuilder {
    pub max_size: usize,
    pub scale: ScaleFamily,
    pub policy: SingletonPolicy,
}

impl Default for TDigestBuilder {
    fn default() -> (r: TDigestBuilder)
        ensures
            r == (TDigestBuilder {
                max_size: DEFAULT_MAX_SIZE,
                scale: ScaleFamily::K2,
                policy: SingletonPolicy::Use,
            }),
    {
        TDigestBuilder {
            max_size: DEFAULT_MAX_SIZE,
            scale: ScaleFamily::K2,
            policy: SingletonPolicy::Use,
        }
    }
}

impl TDigestBuilder {
    pub fn new() -> (r: TDigestBuilder)
        ensures
            r == (TDigestBuilder {
                max_size: DEFAULT_MAX_SIZE,
                scale: ScaleFamily::K2,
                policy: SingletonPolicy::Use,
            }),
    {
        TDigestBuilder::default()
    }

    pub fn max_size(self, n: usize) -> (r: TDigestBuilder)
        ensures
            r == (TDigestBuilder { max_size: n, ..self }),
    {
        TDigestBuilder { max_size: n, ..self }
    }

    pub fn scale(self, s: ScaleFamily) -> (r: TDigestBuilder)
        ensures
            r == (TDigestBuilder { scale: s, ..self }),
    {
        TDigestBuilder { scale: s, ..self }
    }

    pub fn singleton_policy(self, p: SingletonPolicy) -> (r: TDigestBuilder)
        ensures
            r == (TDigestBuilder { policy: p, ..self }),
    {
        TDigestBuilder { policy: p, ..self }
    }

    /// A digest without values.
    pub fn build(self) -> (r: TDigest)
        ensures
            r@ == DigestView::empty(self.max_size, self.scale, self.policy),
    {
        TDigest {
            centroids: Vec::new(),
            max_size: self.max_size,
            sum: Float64::from_bits(0),
            count: Float64::from_bits(0),
            max: Float64::nan_value(),
            min: Float64::nan_value(),
            scale: self.scale,
            policy: self.policy,
        }
    }
}

impl Default for TDigest {
    fn default() -> (r: TDigest)
        ensures
            r@ == DigestView::default_spec(),
    {
        TDigestBuilder::new().build()
    }
}

impl Clone for TDigest {
    fn clone(&self) -> (r: TDigest)
        ensures
            r@ == self@,
    {
        let mut centroids: Vec<Centroid> = Vec::new();
        let mut i: usize = 0;
        while i < self.centroids.len()
            invariant
                i <= self.centroids.len(),
                centroids@ == self.centroids@.take(i as int),
            decreases self.centroids.len() - i,
        {
            centroids.push(self.centroids[i]);
            assert(self.centroids@.take(i + 1) =~= self.centroids@.take(i as int).push(
                self.centroids@[i as int],
            ));
            i = i + 1;
        }
        assert(self.centroids@.take(i as int) =~= self.centroids@);
        TDigest {
            centroids,
            max_size: self.max_size,
            sum: self.sum,
            count: self.count,
            max: self.max,
            min: self.min,
            scale: self.scale,
            policy: self.policy,
        }
    }
}

impl DigestView {
    /// The digests have equal settings and equal numbers.
    pub open spec fn same(self, other: DigestView) -> bool {
        &&& self.centroids.len() == other.centroids.len()
        &&& forall|i: int|
            0 <= i < self.centroids.len() ==> (#[trigger] self.centroids[i]).same(
                other.centroids[i],
            )
        &&& self.max_size == other.max_size
        &&& self.sum.same(other.sum)
        &&& self.count.same(other.count)
        &&& self.max.same(other.max)
        &&& self.min.same(other.min)
        &&& self.scale == other.scale
        &&& self.policy == other.policy
    }
}

impl PartialEq for TDigest {
    fn eq(&self, other: &TDigest) -> (r: bool) {
        if self.centroids.len() != other.centroids.len() {
            return false;
        }
        let mut i: usize = 0;
        while i < self.centroids.len()
            invariant
                i <= self.centroids.len(),
                self.centroids.len() == other.centroids.len(),
                forall|k: int|
                    0 <= k < i ==> (#[trigger] self.centroids@[k]).same(other.centroids@[k]),
            decreases self.centroids.len() - i,
        {
            if !self.centroids[i].same_as(other.centroids[i]) {
                assert(!self@.centroids[i as int].same(other@.centroids[i as int]));
                return false;
            }
            i = i + 1;
        }
        self.max_size == other.max_size && self.sum.nan_last_eq(other.sum)
            && self.count.nan_last_eq(other.count) && self.max.nan_last_eq(other.max)
            && self.min.nan_last_eq(other.min) && self.scale == other.scale && self.policy
            == other.policy
    }
}

impl vstd::std_specs::cmp::PartialEqSpecImpl for TDigest {
    open spec fn obeys_eq_spec() -> bool {
        true
    }

    open spec fn eq_spec(&self, other: &TDigest) -> bool {
        self@.same(other@)
    }
}

impl TDigest {
    /// Entry point for fluent construction.
    pub fn builder() -> (r: TDigestBuilder)
        ensures
            r == (TDigestBuilder {
                max_size: DEFAULT_MAX_SIZE,
                scale: ScaleFamily::K2,
                policy: SingletonPolicy::Use,
            }),
    {
        TDigestBuilder::default()
    }

    /// A digest without values, with the given capacity.
    pub fn new_with_size(max_size: usize) -> (r: TDigest)
        ensures
            r@ == DigestView::empty(max_size, ScaleFamily::K2, SingletonPolicy::Use),
    {
        TDigest::builder().max_size(max_size).build()
    }

    pub fn set_sum(&mut self, s: Float64)
        ensures
            final(self)@ == (DigestView { sum: s, ..old(self)@ }),
    {
        self.sum = s;
    }

    pub fn set_count(&mut self, c: Float64)
        ensures
            final(self)@ == (DigestView { count: c, ..old(self)@ }),
    {
        self.count = c;
    }

    pub fn set_min(&mut self, v: Float64)
        ensures
            final(self)@ == (DigestView { min: v, ..old(self)@ }),
    {
        self.min = v;
    }

    pub fn set_max(&mut self, v: Float64)
        ensures
            final(self)@ == (DigestView { max: v, ..old(self)@ }),
    {
        self.max = v;
    }

    /// The header of the digest that results from merging `values`, which are sorted.
    pub fn new_result_for_values(&self, values: &[Float64]) -> (r: TDigest)
        requires
            values@.len() > 0,
        ensures
            r@ == self@.header_for_values(values@),
    {
        let n: usize = values.len();
        let zero: Float64 = Float64::from_bits(0);
        let vmin: Float64 = values[0];
        let vmax: Float64 = values[n - 1];
        let (min, max): (Float64, Float64) = if zero.lt(self.count) {
            (self.min.min(vmin), self.max.max(vmax))
        } else {
            (vmin, vmax)
        };
        TDigest {
            centroids: Vec::new(),
            max_size: self.max_size,
            sum: zero,
            count: self.count.plus(Float64::from_u64(n as u64)),
            max,
            min,
            scale: self.scale,
            policy: self.policy,
        }
    }

    /// Estimates the quantile at `q`, by the given method.
    pub fn quantile<Q>(&self, q: Float64, estimate: Q) -> (r: Float64) where
        Q: Fn(&TDigest, Float64) -> Float64,

        requires
            estimate.requires((self, q)),
        ensures
            estimate.ensures((self, q), r),
    {
        estimate(self, q)
    }

    /// Estimates the median, by the given method.
    pub fn median<Q>(&self, estimate: Q) -> (r: Float64) where
        Q: Fn(&TDigest, Float64) -> Float64,

        requires
            estimate.requires((self, Float64 { bits: HALF_BITS })),
        ensures
            estimate.ensures((self, Float64 { bits: HALF_BITS }), r),
    {
        estimate(self, Float64::from_bits(HALF_BITS))
    }

    /// Merges sorted values: they are interleaved with the centroids, normalized, and
    /// handed to `compress`. Without values the digest stays as it is.
    pub fn merge_sorted<C>(&self, sorted_values: Vec<Float64>, compress: C) -> (r: TDigest) where
        C: Fn(TDigest, usize, NormalizedStream) -> TDigest,

        requires
            sorted_values@.len() > 0 ==> centroid::non_decreasing(
                self@.stream_for_values(sorted_values@),
            ),
            sorted_values@.len() > 0 ==> takes(
                compress,
                self@.header_for_values(sorted_values@),
                self@.stream_for_values(sorted_values@),
            ),
        ensures
            sorted_values@.len() == 0 ==> r@ == self@,
            sorted_values@.len() > 0 ==> compressed(
                compress,
                self@.header_for_values(sorted_values@),
                self@.stream_for_values(sorted_values@),
                r@,
            ),
    {
        if sorted_values.len() == 0 {
            return self.clone();
        }
        let header: TDigest = self.new_result_for_values(sorted_values.as_slice());
        let mut stream: MergeByMean = MergeByMean::from_centroids_and_values(
            self.centroids.as_slice(),
            sorted_values.as_slice(),
            self.policy.marks_values(),
        );
        let items: Vec<Centroid> = stream.collect();
        let normalized: NormalizedStream = normalize_stream(items);
        compress_with(
            header,
            normalized,
            compress,
            Ghost(self@.stream_for_values(sorted_values@)),
        )
    }

    /// Merges values in any order: they are sorted by their total order first.
    pub fn merge_unsorted<C>(&self, unsorted_values: Vec<Float64>, compress: C) -> (r:
        TDigest) where C: Fn(TDigest, usize, NormalizedStream) -> TDigest,

        requires
            unsorted_values@.len() > 0 ==> centroid::non_decreasing(
                self@.stream_for_values(sort::sorted(unsorted_values@)),
            ),
            unsorted_values@.len() > 0 ==> takes(
                compress,
                self@.header_for_values(sort::sorted(unsorted_values@)),
                self@.stream_for_values(sort::sorted(unsorted_values@)),
            ),
        ensures
            unsorted_values@.len() == 0 ==> r@ == self@,
            unsorted_values@.len() > 0 ==> compressed(
                compress,
                self@.header_for_values(sort::sorted(unsorted_values@)),
                self@.stream_for_values(sort::sorted(unsorted_values@)),
                r@,
            ),
    {
        let sorted_values: Vec<Float64> = sort_by_total_order(&unsorted_values);
        proof {
            sort::lemma_sorted_is_sorted(unsorted_values@);
        }
        self.merge_sorted(sorted_values, compress)
    }

    /// A digest of the given values with the given capacity.
    pub fn from_unsorted<C>(values: &[Float64], max_size: usize, compress: C) -> (r:
        TDigest) where C: Fn(TDigest, usize, NormalizedStream) -> TDigest,

        requires
            ({
                let base = DigestView::empty(max_size, ScaleFamily::K2, SingletonPolicy::Use);
                values@.len() > 0 ==> takes(
                    compress,
                    base.header_for_values(sort::sorted(values@)),
                    base.stream_for_values(sort::sorted(values@)),
                )
            }),
        ensures
            ({
                let base = DigestView::empty(max_size, ScaleFamily::K2, SingletonPolicy::Use);
                &&& values@.len() == 0 ==> r@ == base
                &&& values@.len() > 0 ==> compressed(
                    compress,
                    base.header_for_values(sort::sorted(values@)),
                    base.stream_for_values(sort::sorted(values@)),
                    r@,
                )
            }),
    {
        let base: TDigest = TDigest::builder().max_size(max_size).build();
        let copy: Vec<Float64> = copied(values);
        proof {
            sort::lemma_sorted_is_sorted(values@);
            merges::law_merge_by_mean_never_descends(
                base@.centroids,
                sort::sorted(values@),
                base@.policy.marks_values_spec(),
            );
        }
        base.merge_unsorted(copy, compress)
    }

    /// Merges digests: the centroids of those that have any are merged by mean,
    /// normalized, and handed to `compress`. The settings are those of the first such
    /// digest; where there is none, the result is the default digest.
    pub fn merge_digests<C>(digests: Vec<TDigest>, compress: C) -> (r: TDigest) where
        C: Fn(TDigest, usize, NormalizedStream) -> TDigest,

        requires
            gathered(views(digests@)).mergeable(compress),
        ensures
            gathered(views(digests@)).merged(compress, r),
    {
        let zero: Float64 = Float64::from_bits(0);
        let mut chosen: TDigestBuilder = TDigestBuilder::default();
        let mut runs: Vec<&[Centroid]> = Vec::new();
        let mut total_count: Float64 = zero;
        let mut min: Float64 = Float64::infinity(false);
        let mut max: Float64 = Float64::infinity(true);
        let ghost all = views(digests@);
        let mut i: usize = 0;
        assert(all.take(0) =~= Seq::<DigestView>::empty());
        assert(merges::slices_view(runs@) =~= Seq::<Seq<Centroid>>::empty());
        while i < digests.len()
            invariant
                i <= digests.len(),
                all == views(digests@),
                zero == Float64::zero_spec(false),
                ({
                    let g = gathered(all.take(i as int));
                    &&& g.runs == merges::slices_view(runs@)
                    &&& g.header == (DigestView {
                        count: total_count,
                        min,
                        max,
                        ..DigestView::empty(chosen.max_size, chosen.scale, chosen.policy)
                    })
                }),
            decreases digests.len() - i,
        {
            let d: &TDigest = &digests[i];
            let ghost before = runs@;
            assert(all.take(i + 1).drop_last() =~= all.take(i as int));
            assert(all.take(i + 1).last() == d@);
            if zero.lt(d.count) && d.centroids.len() > 0 {
                if runs.len() == 0 {
                    chosen = TDigestBuilder {
                        max_size: d.max_size,
                        scale: d.scale,
                        policy: d.policy,
                    };
                }
                total_count = total_count.plus(d.count);
                min = min.min(d.min);
                max = max.max(d.max);
                runs.push(d.centroids.as_slice());
                assert(merges::slices_view(runs@) =~= merges::slices_view(before).push(
                    d.centroids@,
                ));
            }
            i = i + 1;
        }
        assert(all.take(i as int) =~= all);
        if total_count.num_eq(zero) {
            return TDigest::default();
        }
        let header: TDigest = TDigest {
            centroids: Vec::new(),
            max_size: chosen.max_size,
            sum: zero,
            count: total_count,
            max,
            min,
            scale: chosen.scale,
            policy: chosen.policy,
        };
        let mut stream: KWayCentroidMerge = KWayCentroidMerge::new(runs);
        let items: Vec<Centroid> = stream.collect();
        let normalized: NormalizedStream = normalize_stream(items);
        compress_with(
            header,
            normalized,
            compress,
            Ghost(merges::merged_runs(gathered(all).runs)),
        )
    }

    /// A digest of given centroids and totals. Where they exceed the capacity, they are
    /// merged like a digest that has room for all of them.
    pub fn new<C>(
        centroids: Vec<Centroid>,
        sum: Float64,
        count: Float64,
        max: Float64,
        min: Float64,
        max_size: usize,
        compress: C,
    ) -> (r: TDigest) where C: Fn(TDigest, usize, NormalizedStream) -> TDigest,

        requires
            (Parts { centroids: centroids@, sum, count, max, min, max_size }).constructible(
                compress,
            ),
        ensures
            (Parts { centroids: centroids@, sum, count, max, min, max_size }).constructed(
                compress,
                r,
            ),
    {
        let n: usize = centroids.len();
        let size: usize = if n <= max_size {
            max_size
        } else {
            n
        };
        let whole: TDigest = TDigest {
            centroids,
            max_size: size,
            sum,
            count,
            max,
            min,
            scale: ScaleFamily::K2,
            policy: SingletonPolicy::Use,
        };
        if n <= max_size {
            whole
        } else {
            let mut digests: Vec<TDigest> = Vec::new();
            digests.push(TDigest::new_with_size(100));
            digests.push(whole);
            proof {
                let all = views(digests@);
                let one = seq![whole@];
                // the digest without values takes no part
                assert(all.drop_last() =~= seq![digests@[0]@]);
                assert(all.drop_last().drop_last() =~= Seq::<DigestView>::empty());
                assert(one.drop_last() =~= Seq::<DigestView>::empty());
                assert(!digests@[0]@.contributes());
                reveal_with_fuel(gathered, 3);
                assert(gathered(all) == gathered(one));
            }
            TDigest::merge_digests(digests, compress)
        }
    }

    /// The mean of all values; 0 where none was counted.
    pub fn mean(&self) -> (r: Float64)
        ensures
            r == if self@.counted() {
                self.sum.over_spec(self.count)
            } else {
                Float64::zero_spec(false)
            },
    {
        let zero: Float64 = Float64::from_bits(0);
        if zero.lt(self.count) {
            self.sum.over(self.count)
        } else {
            zero
        }
    }

    pub fn sum(&self) -> (r: Float64)
        ensures
            r == self.sum,
    {
        self.sum
    }

    pub fn count(&self) -> (r: Float64)
        ensures
            r == self.count,
    {
        self.count
    }

    pub fn max(&self) -> (r: Float64)
        ensures
            r == self.max,
    {
        self.max
    }

    pub fn min(&self) -> (r: Float64)
        ensures
            r == self.min,
    {
        self.min
    }

    pub fn scale(&self) -> (r: ScaleFamily)
        ensures
            r == self.scale,
    {
        self.scale
    }

    pub fn singleton_policy(&self) -> (r: SingletonPolicy)
        ensures
            r == self.policy,
    {
        self.policy
    }

    pub fn is_empty(&self) -> (r: bool)
        ensures
            r == (self.centroids@.len() == 0),
    {
        self.centroids.len() == 0
    }

    pub fn max_size(&self) -> (r: usize)
        ensures
            r == self.max_size,
    {
        self.max_size
    }

    pub fn centroids(&self) -> (r: &[Centroid])
        ensures
            r@ == self.centroids@,
    {
        self.centroids.as_slice()
    }
}

/// Finishes a digest that has room for the whole stream: every centroid is kept, and the
/// sum is that of the weighted means.
pub fn keep_all(header: TDigest, _max_size: usize, stream: NormalizedStream) -> (r: TDigest)
    ensures
        r@ == (DigestView { centroids: stream.out@, sum: stream.total_mw, ..header@ }),
{
    let mut r: TDigest = TDigest { centroids: stream.out, ..header };
    r.set_sum(stream.total_mw);
    r
}

} // verus!
