//! A t-digest: a compact sketch of a distribution that is merged from values and from
//! other sketches, and that estimates the cumulative distribution function.
//!
//! - `float`, `rounding`, `sort`: binary64 arithmetic on bit patterns, specified by
//!   correct rounding, and sorting by the total order of bit patterns or as numbers.
//! - `centroid`, `merges`, `digest`, `policy`, `scale`: centroids, the two merges that
//!   produce streams of them, and the digest that is built from such a stream. What
//!   compresses a stream to a given capacity is handed in by the caller.
//! - `cdf`: the estimate of the distribution function, and the exact one.
//! - `codecs`: digests as columns of a table, in a canonical and a compact form.
//! - `py`: the digest as scripting languages see it.
//! - `quality`: samples of different shapes, and reports on the quality of a digest.
//!
//! The laws of the library are proof functions whose names begin with `law_`. They stand
//! beside the definitions that they speak of, or in `weights`, `float_laws`, `digest_laws`,
//! `merge_laws`, `sum_laws`, `cdf_laws`, `estimate_laws`, `symmetry_laws`, `scaling_laws`,
//! `ecdf_laws`, `codec_laws` and `quality_laws`; `exact` holds what these need of exact
//! arithmetic.
pub mod rounding;
pub mod float;
pub mod sort;
pub mod policy;
pub mod scale;
pub mod centroid;
pub mod merges;
pub mod digest;
pub mod cdf;
pub mod codecs;
pub mod py;
pub mod quality;
pub mod exact;
pub mod float_laws;
pub mod weights;
pub mod digest_laws;
pub mod merge_laws;
pub mod sum_laws;
pub mod cdf_laws;
pub mod symmetry_laws;
pub mod scaling_laws;
pub mod estimate_laws;
pub mod ecdf_laws;
pub mod codec_laws;
pub mod quality_laws;

pub use centroid::Centroid;
pub use digest::{TDigest, TDigestBuilder};
pub use float::Float64;
pub use policy::SingletonPolicy;
pub use scale::ScaleFamily;
