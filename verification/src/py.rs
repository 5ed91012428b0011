//! The digest as scripting languages see it: built from an array, with its settings given
//! by name and errors as messages.
use vstd::prelude::*;
use vstd::string::*;

use crate::cdf;
use crate::cdf::CdfModel;
use crate::centroid::Centroid;
use crate::digest;
use crate::digest::{DigestView, TDigest, TDigestBuilder};
use crate::float::{Float64, HALF_BITS};
use crate::merges;
use crate::merges::NormalizedStream;
use crate::policy::SingletonPolicy;
use crate::scale;
use crate::scale::{parse_scale, ScaleFamily};
use crate::sort;

verus! {

/// A digest for scripting languages.
#[derive(Debug)]
pub struct PyTDigest {
    pub inner: TDigest,
}

/// The scale family that a name stands for; `K2` without a name.
pub open spec fn scale_named(name: Option<&str>) -> Option<ScaleFamily> {
    match name {
        None => Some(ScaleFamily::K2),
        Some(text) => scale::family_named(scale::lowercase(text@)),
    }
}

impl PyTDigest {
    /// A digest of the values in `xs`. The capacity must be positive, and the scale the
    /// name of a family. Nothing is marked as a singleton.
    pub fn from_array<C>(
        xs: Vec<Float64>,
        max_size: usize,
        scale: Option<&str>,
        compress: C,
    ) -> (r: Result<PyTDigest, String>) where
        C: Fn(TDigest, usize, NormalizedStream) -> TDigest,

        requires
            max_size > 0 && xs@.len() > 0 ==> (scale_named(scale) matches Some(family) ==> {
                let base = DigestView::empty(max_size, family, SingletonPolicy::Off);
                digest::takes(
                    compress,
                    base.header_for_values(sort::sorted(xs@)),
                    base.stream_for_values(sort::sorted(xs@)),
                )
            }),
        ensures
            max_size == 0 ==> (r matches Err(message) && message@ == "max_size must be > 0"@),
            max_size > 0 ==> match scale_named(scale) {
                None => r matches Err(message) && message@ == scale::invalid_scale_message(
                    scale::lowercase(scale->0@),
                ),
                Some(family) => {
                    let base = DigestView::empty(max_size, family, SingletonPolicy::Off);
                    r matches Ok(built) && if xs@.len() == 0 {
                        built.inner@ == base
                    } else {
                        digest::compressed(
                            compress,
                            base.header_for_values(sort::sorted(xs@)),
                            base.stream_for_values(sort::sorted(xs@)),
                            built.inner@,
                        )
                    }
                },
            },
    {
        if max_size == 0 {
            return Err("max_size must be > 0".to_string());
        }
        match parse_scale(scale) {
            Err(message) => Err(message),
            Ok(family) => {
                let base: TDigest = TDigestBuilder::new().max_size(max_size).scale(
                    family,
                ).singleton_policy(SingletonPolicy::Off).build();
                proof {
                    sort::lemma_sorted_is_sorted(xs@);
                    merges::law_merge_by_mean_never_descends(
                        base@.centroids,
                        sort::sorted(xs@),
                        false,
                    );
                }
                Ok(PyTDigest { inner: base.merge_unsorted(xs, compress) })
            },
        }
    }

    /// Estimates the median, by the given method.
    pub fn median<Q>(&self, estimate: Q) -> (r: Float64) where
        Q: Fn(&TDigest, Float64) -> Float64,

        requires
            estimate.requires((&self.inner, Float64 { bits: HALF_BITS })),
        ensures
            estimate.ensures((&self.inner, Float64 { bits: HALF_BITS }), r),
    {
        self.inner.median(estimate)
    }

    /// Estimates the quantile at `q`, by the given method.
    pub fn quantile<Q>(&self, q: Float64, estimate: Q) -> (r: Float64) where
        Q: Fn(&TDigest, Float64) -> Float64,

        requires
            estimate.requires((&self.inner, q)),
        ensures
            estimate.ensures((&self.inner, q), r),
    {
        self.inner.quantile(q, estimate)
    }

    /// Estimates the cumulative distribution function at each value.
    pub fn cdf(&self, x: &[Float64]) -> (out: Vec<Float64>)
        requires
            self.inner@.centroids.len() > 0 && x@.len() > 0 ==> {
                &&& cdf::no_nan(x@)
                &&& cdf::no_nan(self.inner@.centroids.map_values(|c: Centroid| c.mean))
            },
        ensures
            out@ == cdf::answers(self.inner@, x@),
            self.inner@.centroids.len() > 0 ==> forall|i: int|
                0 <= i < out@.len() ==> CdfModel::of(
                    self.inner@.centroids,
                    self.inner@.count,
                ).estimates(x@[i], self.inner@.min, self.inner@.max, #[trigger] out@[i]),
    {
        self.inner.estimate_cdf(x)
    }
}

/// Without a name the scale is `K2`; a name stands for its family whatever the case of its
/// letters.
pub proof fn law_scales_are_named_in_any_case(a: &str, b: &str)
    requires
        scale::lowercase(a@) == scale::lowercase(b@),
    ensures
        scale_named(None) == Some(ScaleFamily::K2),
        scale_named(Some(a)) == scale_named(Some(b)),
        scale_named(Some(a)) == Some(ScaleFamily::Quad) <==> scale::lowercase(a@) == seq![
            'q',
            'u',
            'a',
            'd',
        ],
        scale_named(Some(a)) == Some(ScaleFamily::K1) <==> scale::lowercase(a@) == seq!['k', '1'],
        scale_named(Some(a)) == Some(ScaleFamily::K2) <==> scale::lowercase(a@) == seq!['k', '2'],
        scale_named(Some(a)) == Some(ScaleFamily::K3) <==> scale::lowercase(a@) == seq!['k', '3'],
{
    scale::law_each_family_has_its_name(scale::lowercase(a@));
}

} // verus!
