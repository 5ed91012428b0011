//! Engineering feedback on digests: samples of different shapes, and how far the quantiles
//! of a digest are from those of its data.
//!
//! Drawing random fractions and the transcendental functions are the caller's part: it
//! hands the draws in, and gets the samples back.
use vstd::arithmetic::div_mod::*;
use vstd::prelude::*;

use rand::rngs::StdRng;
use rand::Rng;

use crate::cdf;
use crate::centroid;
use crate::digest;
use crate::digest::{DigestView, TDigest};
use crate::digest_laws;
use crate::exact;
use crate::float::{Float64, HALF_BITS, INF_BODY, ONE_BITS};
use crate::merges::NormalizedStream;
use crate::policy::SingletonPolicy;
use crate::rounding;
use crate::scale::ScaleFamily;
use crate::sort;
use crate::sort::{copied, sort_numbers};
use crate::weights;

verus! {

/// The bit pattern of 0.1.
pub const TENTH_BITS: u64 = 0x3fb9_9999_9999_999a;

/// The bit pattern of 0.2.
pub const FIFTH_BITS: u64 = 0x3fc9_9999_9999_999a;

/// The bit pattern of 0.9.
pub const NINE_TENTHS_BITS: u64 = 0x3fec_cccc_cccc_cccd;

/// The bit pattern of 0.001.
pub const THOUSANDTH_BITS: u64 = 0x3f50_624d_d2f1_a9fc;

/// The bit pattern of the least draw that is let through: `10^-12`.
pub const LEAST_DRAW_BITS: u64 = 0x3d71_9799_812d_ea11;

/// The bit pattern of what the mean error counts in the score: 1200.
pub const MAE_FACTOR_BITS: u64 = 0x4092_c000_0000_0000;

/// The bit pattern of what the greatest error counts in the score: 18.
pub const KS_FACTOR_BITS: u64 = 0x4032_0000_0000_0000;

/// The steps of the grid of quantiles.
pub const GRID_STEPS: u64 = 1000;

/// A compact report.
#[derive(Clone, Copy, Debug)]
pub struct QualityReport {
    pub n: usize,
    /// The greatest absolute error of a quantile.
    pub ks: Float64,
    /// The mean absolute error over a grid of quantiles.
    pub mae: Float64,
    /// A single number for rough comparison; higher is better.
    pub score: Float64,
}

/// The shapes of samples.
#[derive(Clone, Copy, Debug)]
pub enum DistKind {
    /// Uniform in `[0, 1)`.
    Uniform,
    /// Standard normal, mapped to about `[0, 1]`.
    Normal,
    /// The exponential of a normal number with the given deviation, squashed to `[0, 1]`.
    LogNormal { sigma: Float64 },
    /// A mixture of regimes that stresses tails and clumps.
    Mixture,
}

/// The regimes of a mixture.
#[derive(Clone, Copy, Debug, PartialEq, Eq, Structural)]
pub enum Regime {
    /// Tight clumps with tiny noise.
    Clump,
    /// Broad uniform.
    Broad,
    /// Heavy tails.
    Tail,
}

/// The number, or the end of the unit interval that it lies beyond.
pub open spec fn in_unit(x: Float64) -> Float64 {
    x.clamp_spec(cdf::zero(), cdf::one())
}

/// The number lies in the unit interval.
pub open spec fn is_unit(x: Float64) -> bool {
    cdf::zero().le_spec(x) && x.le_spec(cdf::one())
}

fn clamp_to_unit(x: Float64) -> (r: Float64)
    ensures
        r == in_unit(x),
{
    x.clamp(Float64::from_bits(0), Float64::from_bits(ONE_BITS))
}

/// The sample for a standard normal number `z`: `0.5 + 0.2 z`, clamped.
fn normal_sample(z: Float64) -> (r: Float64)
    ensures
        r == in_unit(cdf::half().plus_spec((Float64 { bits: FIFTH_BITS }).times_spec(z))),
{
    clamp_to_unit(Float64::from_bits(HALF_BITS).plus(Float64::from_bits(FIFTH_BITS).times(z)))
}

/// The number whose exponential a log-normal sample needs.
pub fn log_normal_exponent(sigma: Float64, z: Float64) -> (r: Float64)
    ensures
        r == sigma.times_spec(z),
{
    sigma.times(z)
}

/// The sample for a positive number `x`: `x / (1 + x)`, clamped.
fn log_normal_sample(x: Float64) -> (r: Float64)
    ensures
        r == in_unit(x.over_spec(cdf::one().plus_spec(x))),
{
    clamp_to_unit(x.over(Float64::from_bits(ONE_BITS).plus(x)))
}

/// The regime for a draw among 100: the first 30 are clumps, the next 40 are broad, the
/// rest are tails.
pub fn regime(bucket: u32) -> (r: Regime)
    ensures
        r is Clump <==> bucket < 30,
        r is Broad <==> 30 <= bucket < 70,
        r is Tail <==> 70 <= bucket,
{
    if bucket <= 29 {
        Regime::Clump
    } else if bucket <= 69 {
        Regime::Broad
    } else {
        Regime::Tail
    }
}

/// The centre of a clump for a draw among 3.
pub open spec fn clump_center(index: u32) -> Float64 {
    if index == 0 {
        Float64 { bits: TENTH_BITS }
    } else if index == 1 {
        cdf::half()
    } else {
        Float64 { bits: NINE_TENTHS_BITS }
    }
}

/// The sample of a clump: its centre and a thousandth of the noise, clamped.
fn clump_sample(index: u32, noise: Float64) -> (r: Float64)
    ensures
        r == in_unit(
            clump_center(index).plus_spec(
                (Float64 { bits: THOUSANDTH_BITS }).times_spec(noise),
            ),
        ),
{
    let center: Float64 = if index == 0 {
        Float64::from_bits(TENTH_BITS)
    } else if index == 1 {
        Float64::from_bits(HALF_BITS)
    } else {
        Float64::from_bits(NINE_TENTHS_BITS)
    };
    clamp_to_unit(center.plus(Float64::from_bits(THOUSANDTH_BITS).times(noise)))
}

/// The sample for a uniform draw, clamped.
fn broad_sample(u: Float64) -> (r: Float64)
    ensures
        r == in_unit(u),
{
    clamp_to_unit(u)
}

/// A uniform draw that is kept away from 0.
pub fn guarded_draw(u: Float64) -> (r: Float64)
    ensures
        r == u.clamp_spec(Float64 { bits: LEAST_DRAW_BITS }, cdf::one()),
{
    u.clamp(Float64::from_bits(LEAST_DRAW_BITS), Float64::from_bits(ONE_BITS))
}

/// The sample of a tail, for a small positive number: near 0 on the left, near 1 on the
/// right.
fn tail_sample(left: bool, power: Float64) -> (r: Float64)
    ensures
        r == in_unit(if left {
            power
        } else {
            cdf::one().minus_spec(power)
        }),
{
    if left {
        clamp_to_unit(power)
    } else {
        clamp_to_unit(Float64::from_bits(ONE_BITS).minus(power))
    }
}

/// The generator `rand::rngs::StdRng`. Nothing is known of its state.
#[verifier::external_type_specification]
#[verifier::external_body]
pub struct ExStdRng(StdRng);

/// `rand::Rng::random_range` on the integers from 0 to before `n`: the draw is one of
/// them. Which one it is, is left to chance.
#[verifier::external_body]
fn draw_below(rng: &mut StdRng, n: u32) -> (r: u32)
    requires
        n > 0,
    ensures
        r < n,
{
    rng.random_range(0..n)
}

/// Draws a bucket among 100, and gives it with its regime.
pub fn draw_regime(rng: &mut StdRng) -> (r: (u32, Regime))
    ensures
        r.0 < 100,
        r.1 is Clump <==> r.0 < 30,
        r.1 is Broad <==> 30 <= r.0 < 70,
        r.1 is Tail <==> 70 <= r.0,
{
    let bucket: u32 = draw_below(rng, 100);
    (bucket, regime(bucket))
}

/// Draws the index of a clump among 3.
pub fn draw_clump(rng: &mut StdRng) -> (index: u32)
    ensures
        index < 3,
{
    draw_below(rng, 3)
}

/// What has to be drawn for a sample.
#[derive(Clone, Copy, Debug)]
pub enum Shape {
    /// A uniform number.
    Uniform,
    /// A standard normal number.
    Normal,
    /// The exponential of a normal number with the given deviation.
    LogNormal { sigma: Float64 },
    /// The index of a clump, and noise.
    Clump,
    /// A uniform number, in the mixture.
    Broad,
    /// The exponent and the side of a tail, and a uniform number.
    Tail,
}

/// What has to be drawn for a sample of the given kind. In the mixture it is decided by the
/// regime of the bucket; for other kinds the bucket does not matter.
pub open spec fn shape_spec(kind: DistKind, bucket: u32) -> Shape {
    match kind {
        DistKind::Uniform => Shape::Uniform,
        DistKind::Normal => Shape::Normal,
        DistKind::LogNormal { sigma } => Shape::LogNormal { sigma },
        DistKind::Mixture => if bucket < 30 {
            Shape::Clump
        } else if bucket < 70 {
            Shape::Broad
        } else {
            Shape::Tail
        },
    }
}

/// What has to be drawn for a sample of the given kind.
pub fn shape(kind: DistKind, bucket: u32) -> (r: Shape)
    ensures
        r == shape_spec(kind, bucket),
{
    match kind {
        DistKind::Uniform => Shape::Uniform,
        DistKind::Normal => Shape::Normal,
        DistKind::LogNormal { sigma } => Shape::LogNormal { sigma },
        DistKind::Mixture => match regime(bucket) {
            Regime::Clump => Shape::Clump,
            Regime::Broad => Shape::Broad,
            Regime::Tail => Shape::Tail,
        },
    }
}

/// Draws what decides the shape of a sample: a bucket among 100 in the mixture, and nothing
/// for other kinds. Gives the bucket, 0 where none is drawn, and the shape.
pub fn draw_shape(kind: DistKind, rng: &mut StdRng) -> (r: (u32, Shape))
    ensures
        r.0 < 100,
        r.1 == shape_spec(kind, r.0),
        !(kind is Mixture) ==> r.0 == 0 && *final(rng) == *old(rng),
{
    let bucket: u32 = match kind {
        DistKind::Mixture => draw_regime(rng).0,
        _ => 0,
    };
    (bucket, shape(kind, bucket))
}

/// What was drawn for a sample.
#[derive(Clone, Copy, Debug)]
pub enum Draw {
    /// A uniform number, which is the sample.
    Uniform(Float64),
    /// A standard normal number.
    Normal(Float64),
    /// The exponential of a normal number.
    LogNormal(Float64),
    /// The index of a clump and the noise, in the mixture.
    Clump { index: u32, noise: Float64 },
    /// A uniform number, in the mixture.
    Broad(Float64),
    /// The side of a tail and the power of a guarded draw, in the mixture.
    Tail { left: bool, power: Float64 },
}

impl Draw {
    /// The sample for what was drawn.
    pub open spec fn sample_spec(self) -> Float64 {
        match self {
            Draw::Uniform(u) => u,
            Draw::Normal(z) => in_unit(
                cdf::half().plus_spec((Float64 { bits: FIFTH_BITS }).times_spec(z)),
            ),
            Draw::LogNormal(x) => in_unit(x.over_spec(cdf::one().plus_spec(x))),
            Draw::Clump { index, noise } => in_unit(
                clump_center(index).plus_spec(
                    (Float64 { bits: THOUSANDTH_BITS }).times_spec(noise),
                ),
            ),
            Draw::Broad(u) => in_unit(u),
            Draw::Tail { left, power } => in_unit(if left {
                power
            } else {
                cdf::one().minus_spec(power)
            }),
        }
    }

    /// What was drawn is a number of the kind that the sample needs.
    pub open spec fn plain(self) -> bool {
        match self {
            Draw::Uniform(u) => is_unit(u),
            Draw::Normal(z) => z.finite(),
            Draw::LogNormal(x) => x.finite() && cdf::zero().le_spec(x),
            Draw::Clump { index, noise } => noise.finite(),
            Draw::Broad(u) => !u.nan(),
            Draw::Tail { left, power } => power.finite(),
        }
    }

    /// The sample for what was drawn.
    pub fn sample(self) -> (r: Float64)
        ensures
            r == self.sample_spec(),
    {
        match self {
            Draw::Uniform(u) => u,
            Draw::Normal(z) => normal_sample(z),
            Draw::LogNormal(x) => log_normal_sample(x),
            Draw::Clump { index, noise } => clump_sample(index, noise),
            Draw::Broad(u) => broad_sample(u),
            Draw::Tail { left, power } => tail_sample(left, power),
        }
    }
}

/// The samples for what was drawn, one for each.
pub fn gen_dataset(draws: &Vec<Draw>) -> (out: Vec<Float64>)
    ensures
        out@ == draws@.map_values(|d: Draw| d.sample_spec()),
{
    let mut out: Vec<Float64> = Vec::new();
    let mut i: usize = 0;
    while i < draws.len()
        invariant
            i <= draws@.len(),
            out@.len() == i,
            forall|k: int| 0 <= k < i ==> #[trigger] out@[k] == draws@[k].sample_spec(),
        decreases draws@.len() - i,
    {
        out.push(draws[i].sample());
        i = i + 1;
    }
    assert(out@ =~= draws@.map_values(|d: Draw| d.sample_spec()));
    out
}

/// A constant times a finite number, added to another constant, is a number.
proof fn lemma_shifted_is_a_number(base: Float64, factor: Float64, x: Float64)
    requires
        base.finite(),
        factor.finite(),
        x.finite(),
    ensures
        !base.plus_spec(factor.times_spec(x)).nan(),
{
    exact::lemma_times(factor, x);
    if factor.times_spec(x).finite() {
        exact::lemma_plus(base, factor.times_spec(x));
    }
}

/// Every sample lies in the unit interval, so that different shapes can be compared.
pub proof fn law_samples_lie_in_the_unit_interval(draw: Draw)
    requires
        draw.plain(),
    ensures
        is_unit(draw.sample_spec()),
{
    match draw {
        Draw::Uniform(u) => {},
        Draw::Normal(z) => {
            lemma_shifted_is_a_number(cdf::half(), Float64 { bits: FIFTH_BITS }, z);
        },
        Draw::LogNormal(x) => {
            let y = cdf::one().plus_spec(x);
            weights::lemma_constants();
            assert(0 * exact::h() == 0) by (nonlinear_arith);
            exact::lemma_value_order(cdf::zero(), x);
            exact::lemma_plus(cdf::one(), x);
            exact::lemma_rounded_at_least(cdf::one().value() + x.value(), 1, cdf::one());
            if y.finite() {
                exact::lemma_value_order(cdf::one(), y);
                exact::lemma_over(x, y);
            }
        },
        Draw::Clump { index, noise } => {
            lemma_shifted_is_a_number(
                clump_center(index),
                Float64 { bits: THOUSANDTH_BITS },
                noise,
            );
        },
        Draw::Broad(u) => {},
        Draw::Tail { left, power } => {
            exact::lemma_minus(cdf::one(), power);
        },
    }
}

/// The least integer that is not below a finite number that is not negative.
pub open spec fn ceiling(x: Float64) -> int {
    if x.value() == x.truncated() * Float64::unit() {
        x.truncated()
    } else {
        x.truncated() + 1
    }
}

/// The position of quantile `q` among `n` order statistics: `q (n - 1)`.
pub open spec fn quantile_position(n: int, q: Float64) -> Float64 {
    q.times_spec(Float64::from_int_spec(n).minus_spec(cdf::one()))
}

/// The quantile of sorted values, interpolated between order statistics. It is NaN where
/// there are no values, and the least value where `q` is NaN.
pub open spec fn expected_quantile_spec(sorted: Seq<Float64>, q: Float64) -> Float64 {
    let n = sorted.len() as int;
    if n == 0 {
        Float64::nan_spec()
    } else if q.nan() || q.le_spec(cdf::zero()) {
        sorted[0]
    } else if cdf::one().le_spec(q) {
        sorted[n - 1]
    } else {
        let t = quantile_position(n, q);
        let lo = t.truncated();
        let hi = ceiling(t);
        if lo == hi {
            sorted[lo]
        } else {
            let alpha = t.minus_spec(Float64::from_int_spec(lo));
            cdf::one().minus_spec(alpha).times_spec(sorted[lo]).plus_spec(
                alpha.times_spec(sorted[hi]),
            )
        }
    }
}

/// A quantile strictly between 0 and 1 lies between two order statistics.
pub proof fn lemma_quantile_position(n: int, q: Float64)
    requires
        1 <= n <= 0x20_0000_0000_0000,
        cdf::zero().lt_spec(q),
        q.lt_spec(cdf::one()),
    ensures
        ({
            let t = quantile_position(n, q);
            &&& t.finite()
            &&& 0 <= t.value()
            &&& 0 <= t.truncated() <= ceiling(t) <= n - 1
        }),
{
    let a = Float64::from_int_spec(n).minus_spec(cdf::one());
    let t = quantile_position(n, q);
    let u = Float64::unit();
    weights::lemma_constants();
    exact::lemma_from_int(n);
    exact::lemma_halves_minus(Float64::from_int_spec(n), 2 * n, cdf::one(), 2);
    exact::lemma_value_order(cdf::zero(), q);
    exact::lemma_value_order(q, cdf::one());
    assert(0 * exact::h() == 0) by (nonlinear_arith);
    assert((2 * n - 2) * exact::h() == (n - 1) * u) by (nonlinear_arith)
        requires
            u == 2 * exact::h(),
    ;
    assert(a.value() == (n - 1) * u);
    let num = q.value() * a.value();
    assert(0 <= num <= a.value() * u) by (nonlinear_arith)
        requires
            num == q.value() * a.value(),
            0 < q.value() < u,
            a.value() == (n - 1) * u,
            1 <= n,
    ;
    exact::lemma_times(q, a);
    exact::lemma_rounded_at_most(num, u, a);
    assert(cdf::zero().value() * u == 0) by (nonlinear_arith)
        requires
            cdf::zero().value() == 0,
    ;
    exact::lemma_rounded_at_least(num, u, cdf::zero());
    assert(t.finite());
    exact::lemma_value_order(t, a);
    exact::lemma_value_order(cdf::zero(), t);
    t.lemma_magnitude_is_not_negative();
    let m = t.magnitude();
    exact::lemma_zero_magnitude();
    assert(t.value() == m) by {
        if t.negative() {
            assert(m == 0);
        }
    }
    lemma_fundamental_div_mod(m, u);
    lemma_div_pos_is_pos(m, u);
    assert(m / u <= n - 1) by (nonlinear_arith)
        requires
            m <= (n - 1) * u,
            m == u * (m / u) + m % u,
            0 <= m % u,
            0 < u,
    ;
    if t.negative() {
        lemma_div_of0(u);
    }
    assert(t.truncated() == m / u);
    if m / u == n - 1 {
        assert(m == (m / u) * u) by (nonlinear_arith)
            requires
                m <= (n - 1) * u,
                m / u == n - 1,
                m == u * (m / u) + m % u,
                0 <= m % u,
        ;
    }
}

/// An integer part that is small is represented exactly.
proof fn lemma_integer_part(t: Float64, lo: int)
    requires
        t.finite(),
        0 <= t.value(),
        lo == t.truncated(),
        0 <= lo <= 0x20_0000_0000_0000,
    ensures
        ceiling(t) == lo <==> Float64::from_int_spec(lo).eq_spec(t),
{
    let x = Float64::from_int_spec(lo);
    weights::lemma_constants();
    exact::lemma_from_int(lo);
    exact::lemma_value_order(x, t);
    assert((2 * lo) * exact::h() == lo * Float64::unit()) by (nonlinear_arith)
        requires
            Float64::unit() == 2 * exact::h(),
    ;
}

/// The quantile of sorted values, interpolated between order statistics.
pub fn expected_quantile(sorted: &[Float64], q: Float64) -> (r: Float64)
    requires
        sorted@.len() <= 0x20_0000_0000_0000,
    ensures
        r == expected_quantile_spec(sorted@, q),
{
    let n: usize = sorted.len();
    let zero: Float64 = Float64::from_bits(0);
    let one: Float64 = Float64::from_bits(ONE_BITS);
    if n == 0 {
        return Float64::nan_value();
    }
    if q.is_nan() || q.le(zero) {
        return sorted[0];
    }
    if one.le(q) {
        return sorted[n - 1];
    }
    let t: Float64 = q.times(Float64::from_u64(n as u64).minus(one));
    proof {
        lemma_quantile_position(n as int, q);
    }
    let lo: u64 = t.to_u64();
    let below: Float64 = Float64::from_u64(lo);
    proof {
        lemma_integer_part(t, lo as int);
    }
    if below.num_eq(t) {
        sorted[lo as usize]
    } else {
        let alpha: Float64 = t.minus(below);
        one.minus(alpha).times(sorted[lo as usize]).plus(alpha.times(sorted[lo as usize + 1]))
    }
}

/// Point `i` of the grid of quantiles.
pub open spec fn grid_point_spec(i: int) -> Float64 {
    Float64::from_int_spec(i).over_spec(Float64::from_int_spec(GRID_STEPS as int))
}

/// Point `i` of the grid of quantiles: `i / 1000`.
pub fn grid_point(i: u64) -> (r: Float64)
    ensures
        r == grid_point_spec(i as int),
{
    Float64::from_u64(i).over(Float64::from_u64(GRID_STEPS))
}

/// The error of the estimate at each point of the grid.
pub open spec fn grid_errors(estimates: Seq<Float64>, sorted: Seq<Float64>) -> Seq<Float64> {
    Seq::new(
        estimates.len(),
        |k: int|
            estimates[k].minus_spec(
                expected_quantile_spec(sorted, grid_point_spec(k + 1)),
            ).abs_spec(),
    )
}

/// The greatest error; 0 where none is above it.
pub open spec fn greatest_error(errors: Seq<Float64>) -> Float64
    decreases errors.len(),
{
    if errors.len() == 0 {
        cdf::zero()
    } else {
        let before = greatest_error(errors.drop_last());
        if before.lt_spec(errors.last()) {
            errors.last()
        } else {
            before
        }
    }
}

/// The mean error over the grid.
pub open spec fn mean_error(errors: Seq<Float64>) -> Float64 {
    cdf::sum(errors).over_spec(Float64::from_int_spec(GRID_STEPS - 1))
}

/// Compares estimates of the quantiles at the inner points of the grid with the order
/// statistics of sorted data. Gives the greatest and the mean absolute error.
pub fn quantile_grid_errors(estimates: &[Float64], sorted: &[Float64]) -> (r: (Float64, Float64))
    requires
        estimates@.len() == GRID_STEPS - 1,
        sorted@.len() <= 0x20_0000_0000_0000,
    ensures
        r.0 == greatest_error(grid_errors(estimates@, sorted@)),
        r.1 == mean_error(grid_errors(estimates@, sorted@)),
{
    let mut ks: Float64 = Float64::from_bits(0);
    let mut total: Float64 = Float64::from_bits(0);
    let ghost errors = grid_errors(estimates@, sorted@);
    let mut i: usize = 0;
    assert(errors.take(0) =~= Seq::<Float64>::empty());
    while i < estimates.len()
        invariant
            i <= estimates@.len() < GRID_STEPS,
            sorted@.len() <= 0x20_0000_0000_0000,
            errors == grid_errors(estimates@, sorted@),
            ks == greatest_error(errors.take(i as int)),
            total == cdf::sum(errors.take(i as int)),
        decreases estimates@.len() - i,
    {
        let q: Float64 = grid_point(i as u64 + 1);
        let err: Float64 = estimates[i].minus(expected_quantile(sorted, q)).abs();
        assert(errors[i as int] == err);
        assert(errors.take(i + 1).drop_last() =~= errors.take(i as int));
        total = total.plus(err);
        if ks.lt(err) {
            ks = err;
        }
        i = i + 1;
    }
    assert(errors.take(i as int) =~= errors);
    (ks, total.over(Float64::from_u64(GRID_STEPS - 1)))
}

/// The logarithm of a score: the errors, weighted, with their sign turned.
pub open spec fn score_exponent(ks: Float64, mae: Float64) -> Float64 {
    (Float64 { bits: MAE_FACTOR_BITS }).times_spec(mae).plus_spec(
        (Float64 { bits: KS_FACTOR_BITS }).times_spec(ks),
    ).negated_spec()
}

impl QualityReport {
    /// A report of the given errors. The score is what `exp`, the exponential function,
    /// gives for the weighted errors: smaller errors, greater score.
    pub fn from_metrics<E>(n: usize, ks: Float64, mae: Float64, exp: E) -> (r: QualityReport) where
        E: Fn(Float64) -> Float64,

        requires
            exp.requires((score_exponent(ks, mae),)),
        ensures
            r.n == n,
            r.ks == ks,
            r.mae == mae,
            exp.ensures((score_exponent(ks, mae),), r.score),
    {
        let weighted: Float64 = Float64::from_bits(MAE_FACTOR_BITS).times(mae).plus(
            Float64::from_bits(KS_FACTOR_BITS).times(ks),
        );
        QualityReport { n, ks, mae, score: exp(weighted.negated()) }
    }
}

/// The estimates of a digest at the inner points of the grid.
pub open spec fn grid_estimates<Q>(td: TDigest, estimate: Q, estimates: Seq<Float64>) -> bool where
    Q: Fn(&TDigest, Float64) -> Float64,
 {
    &&& estimates.len() == GRID_STEPS - 1
    &&& forall|k: int|
        0 <= k < estimates.len() ==> estimate.ensures(
            (&td, grid_point_spec(k + 1)),
            #[trigger] estimates[k],
        )
}

/// `td` is the digest of sorted data with the given capacity.
pub open spec fn digest_of_data<C>(
    sorted: Seq<Float64>,
    max_size: usize,
    compress: C,
    td: TDigest,
) -> bool where C: Fn(TDigest, usize, NormalizedStream) -> TDigest {
    let base = DigestView::empty(max_size, ScaleFamily::K2, SingletonPolicy::Use);
    if sorted.len() == 0 {
        td@ == base
    } else {
        digest::compressed(
            compress,
            base.header_for_values(sorted),
            base.stream_for_values(sorted),
            td@,
        )
    }
}

/// The report says how far the estimates are from sorted data.
pub open spec fn reports<E>(
    sorted: Seq<Float64>,
    estimates: Seq<Float64>,
    exp: E,
    r: QualityReport,
) -> bool where E: Fn(Float64) -> Float64 {
    let errors = grid_errors(estimates, sorted);
    &&& r.n == sorted.len()
    &&& r.ks == greatest_error(errors)
    &&& r.mae == mean_error(errors)
    &&& exp.ensures((score_exponent(r.ks, r.mae),), r.score)
}

/// Builds a digest of the data, sorted by numeric order, and reports how far its quantiles
/// are from those of the data.
pub fn assess<C, Q, E>(
    data: Vec<Float64>,
    max_size: usize,
    compress: C,
    estimate: Q,
    exp: E,
) -> (r: QualityReport) where
    C: Fn(TDigest, usize, NormalizedStream) -> TDigest,
    Q: Fn(&TDigest, Float64) -> Float64,
    E: Fn(Float64) -> Float64,

    requires
        data@.len() <= 0x20_0000_0000_0000,
        cdf::no_nan(data@),
        ({
            let base = DigestView::empty(max_size, ScaleFamily::K2, SingletonPolicy::Use);
            let sorted = sort::numerically_sorted(data@);
            data@.len() > 0 ==> digest::takes(
                compress,
                base.header_for_values(sorted),
                base.stream_for_values(sorted),
            )
        }),
        forall|td: TDigest, q: Float64|
            digest_of_data(sort::numerically_sorted(data@), max_size, compress, td)
                ==> #[trigger] estimate.requires((&td, q)),
        forall|x: Float64| #[trigger] exp.requires((x,)),
    ensures
        exists|td: TDigest, estimates: Seq<Float64>| #[trigger]
            grid_estimates(td, estimate, estimates) && digest_of_data(
                sort::numerically_sorted(data@),
                max_size,
                compress,
                td,
            ) && reports(sort::numerically_sorted(data@), estimates, exp, r),
{
    let n: usize = data.len();
    let sorted: Vec<Float64> = sort_numbers(&data);
    let base: TDigest = TDigest::new_with_size(max_size);
    proof {
        data@.to_multiset_ensures();
        sorted@.to_multiset_ensures();
        if data@.len() > 0 {
            weights::lemma_constants();
            assert(weights::weights(base@.centroids) =~= Seq::<Float64>::empty());
            assert(0 * exact::h() == 0) by (nonlinear_arith);
            digest_laws::law_merging_values_is_consistent(
                base@,
                sorted@,
                (DigestView {
                    centroids: centroid::coalesced(base@.stream_for_values(sorted@)),
                    ..base@.header_for_values(sorted@)
                }),
            );
        }
    }
    let td: TDigest = base.merge_sorted(copied(sorted.as_slice()), compress);
    assert(digest_of_data(sorted@, max_size, compress, td));
    let mut estimates: Vec<Float64> = Vec::new();
    let mut i: u64 = 1;
    while i < GRID_STEPS
        invariant
            1 <= i <= GRID_STEPS,
            estimates@.len() == i - 1,
            digest_of_data(sorted@, max_size, compress, td),
            forall|t: TDigest, q: Float64|
                digest_of_data(sorted@, max_size, compress, t) ==> #[trigger] estimate.requires(
                    (&t, q),
                ),
            forall|k: int|
                0 <= k < i - 1 ==> estimate.ensures(
                    (&td, grid_point_spec(k + 1)),
                    #[trigger] estimates@[k],
                ),
        decreases GRID_STEPS - i,
    {
        let q: Float64 = grid_point(i);
        let e: Float64 = estimate(&td, q);
        estimates.push(e);
        i = i + 1;
    }
    let (ks, mae): (Float64, Float64) = quantile_grid_errors(
        estimates.as_slice(),
        sorted.as_slice(),
    );
    let r: QualityReport = QualityReport::from_metrics(n, ks, mae, exp);
    proof {
        assert(grid_estimates(td, estimate, estimates@));
        assert(reports(sorted@, estimates@, exp, r));
    }
    r
}

/// A positive factor keeps the order of numbers that are not negative.
proof fn lemma_factor_keeps_order(c: Float64, x: Float64, y: Float64)
    requires
        c.finite(),
        0 < c.value(),
        cdf::zero().le_spec(x),
        x.le_spec(y),
    ensures
        cdf::zero().le_spec(c.times_spec(x)),
        c.times_spec(x).le_spec(c.times_spec(y)),
{
    weights::lemma_constants();
    exact::lemma_zero_magnitude();
    let zero = cdf::zero();
    let u = Float64::unit();
    assert(0 * exact::h() == 0) by (nonlinear_arith);
    c.lemma_magnitude_is_not_negative();
    exact::lemma_of(false, INF_BODY as int);
    if x.infinite() {
        assert(y.infinite());
    } else {
        exact::lemma_value_order(zero, x);
        exact::lemma_times(c, x);
        assert(0 <= c.value() * x.value()) by (nonlinear_arith)
            requires
                0 < c.value(),
                0 <= x.value(),
        ;
        assert(zero.value() * u == 0) by (nonlinear_arith)
            requires
                zero.value() == 0,
        ;
        exact::lemma_rounded_at_least(c.value() * x.value(), u, zero);
        if y.finite() {
            exact::lemma_value_order(x, y);
            exact::lemma_times(c, y);
            assert(c.value() * x.value() * u <= c.value() * y.value() * u) by (nonlinear_arith)
                requires
                    0 < c.value(),
                    x.value() <= y.value(),
                    0 < u,
            ;
            exact::lemma_rounded_order(c.value() * x.value(), u, c.value() * y.value(), u);
        }
    }
}

/// Smaller errors give a score that is no less: its logarithm never rises with an error.
pub proof fn law_smaller_errors_score_no_less(
    ks: Float64,
    mae: Float64,
    greater_ks: Float64,
    greater_mae: Float64,
)
    requires
        cdf::zero().le_spec(ks),
        cdf::zero().le_spec(mae),
        ks.le_spec(greater_ks),
        mae.le_spec(greater_mae),
    ensures
        score_exponent(greater_ks, greater_mae).le_spec(score_exponent(ks, mae)),
{
    let c = Float64 { bits: MAE_FACTOR_BITS };
    let d = Float64 { bits: KS_FACTOR_BITS };
    exact::lemma_zero_magnitude();
    rounding::lemma_magnitude_increases(52, 0, c.body());
    rounding::lemma_magnitude_increases(52, 0, d.body());
    lemma_factor_keeps_order(c, mae, greater_mae);
    lemma_factor_keeps_order(d, ks, greater_ks);
    exact::lemma_sums_keep_order(
        c.times_spec(mae),
        c.times_spec(greater_mae),
        d.times_spec(ks),
        d.times_spec(greater_ks),
    );
}

} // verus!
