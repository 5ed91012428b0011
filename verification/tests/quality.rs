use rand::{rngs::StdRng, Rng, SeedableRng};
use tdigest::digest::keep_all;
use tdigest::quality::{
    assess, draw_clump, draw_regime, draw_shape, expected_quantile, gen_dataset, grid_point,
    guarded_draw, log_normal_exponent, quantile_grid_errors, regime, shape, DistKind, Draw,
    QualityReport, Regime, Shape,
};
use tdigest::sort::sort_numbers;
use tdigest::{Float64, TDigest};

fn f(x: f64) -> Float64 {
    Float64::from_bits(x.to_bits())
}

fn g(x: Float64) -> f64 {
    f64::from_bits(x.to_bits())
}

fn fs(xs: &[f64]) -> Vec<Float64> {
    xs.iter().map(|&x| f(x)).collect()
}

fn exp(x: Float64) -> Float64 {
    f(g(x).exp())
}

#[test]
fn samples_follow_their_formulas() {
    let cases: Vec<(Draw, f64)> = vec![
        (Draw::Uniform(f(0.375)), 0.375),
        (Draw::Normal(f(0.3)), 0.5 + 0.2 * 0.3),
        (Draw::Normal(f(9.0)), 1.0),
        (Draw::Normal(f(-9.0)), 0.0),
        (Draw::LogNormal(f(3.0)), 0.75),
        (Draw::LogNormal(f(f64::MAX)), 1.0),
        (Draw::Clump { index: 0, noise: f(0.5) }, 0.10 + 1e-3 * 0.5),
        (Draw::Clump { index: 1, noise: f(-0.5) }, 0.50 + 1e-3 * -0.5),
        (Draw::Clump { index: 2, noise: f(0.25) }, 0.90 + 1e-3 * 0.25),
        (Draw::Broad(f(0.625)), 0.625),
        (Draw::Broad(f(1.5)), 1.0),
        (Draw::Tail { left: true, power: f(1e-5) }, 1e-5),
        (Draw::Tail { left: false, power: f(1e-5) }, 1.0 - 1e-5),
    ];
    let draws: Vec<Draw> = cases.iter().map(|c| c.0).collect();
    let out = gen_dataset(&draws);
    assert_eq!(out.len(), cases.len());
    for (x, (draw, want)) in out.iter().zip(&cases) {
        assert_eq!(g(*x), *want, "{draw:?}");
        assert_eq!(g(draw.sample()), *want);
        assert!((0.0..=1.0).contains(&g(*x)));
    }
    assert!(gen_dataset(&Vec::new()).is_empty());
    assert_eq!(g(log_normal_exponent(f(1.5), f(0.25))), 0.375);
    assert_eq!(g(guarded_draw(f(0.0))), 1e-12);
    assert_eq!(g(guarded_draw(f(0.7))), 0.7);
}

#[test]
fn drawn_regimes_and_clumps_stay_in_range() {
    let mut rng = StdRng::seed_from_u64(11);
    let mut plain = StdRng::seed_from_u64(11);
    let mut seen = [0usize; 3];
    for _ in 0..3000 {
        let (bucket, chosen) = draw_regime(&mut rng);
        assert!(bucket < 100);
        assert_eq!(chosen, regime(bucket));
        assert_eq!(bucket, plain.random_range(0..100));
        seen[match chosen {
            Regime::Clump => 0,
            Regime::Broad => 1,
            Regime::Tail => 2,
        }] += 1;
        let index = draw_clump(&mut rng);
        assert!(index < 3);
        assert_eq!(index, plain.random_range(0..3));
    }
    assert!(seen.iter().all(|&n| n > 700));
}

#[test]
fn buckets_choose_regimes() {
    assert_eq!(regime(0), Regime::Clump);
    assert_eq!(regime(29), Regime::Clump);
    assert_eq!(regime(30), Regime::Broad);
    assert_eq!(regime(69), Regime::Broad);
    assert_eq!(regime(70), Regime::Tail);
    assert_eq!(regime(99), Regime::Tail);
}

#[test]
fn quantiles_are_interpolated() {
    let xs = fs(&[1.0, 2.0, 4.0, 8.0]);
    assert!(expected_quantile(&[], f(0.5)).is_nan());
    assert_eq!(g(expected_quantile(&xs, f(0.0))), 1.0);
    assert_eq!(g(expected_quantile(&xs, f(-3.0))), 1.0);
    assert_eq!(g(expected_quantile(&xs, f(f64::NAN))), 1.0);
    assert_eq!(g(expected_quantile(&xs, f(1.0))), 8.0);
    assert_eq!(g(expected_quantile(&xs, f(2.0))), 8.0);
    assert_eq!(g(expected_quantile(&xs, f(0.5))), 3.0);
    let t = 0.9 * 3.0;
    let alpha = t - 2.0;
    assert_eq!(g(expected_quantile(&xs, f(0.9))), (1.0 - alpha) * 4.0 + alpha * 8.0);
    assert_eq!(g(expected_quantile(&xs[..1], f(0.4))), 1.0);
    assert_eq!(g(expected_quantile(&xs[..3], f(0.5))), 2.0);
}

#[test]
fn grid_points_are_thousandths() {
    assert_eq!(g(grid_point(1)), 0.001);
    assert_eq!(g(grid_point(333)), 333.0 / 1000.0);
    assert_eq!(g(grid_point(999)), 0.999);
}

#[test]
fn errors_are_measured_on_the_grid() {
    let sorted: Vec<f64> = (0..=1000).map(|i| f64::from(i) / 1000.0).collect();
    let sorted = fs(&sorted);
    let mut estimates: Vec<Float64> = (1..1000u64)
        .map(|i| expected_quantile(&sorted, grid_point(i)))
        .collect();
    let (ks, mae) = quantile_grid_errors(&estimates, &sorted);
    assert_eq!((g(ks), g(mae)), (0.0, 0.0));
    // one estimate off by a quarter
    estimates[499] = estimates[499].plus(f(0.25));
    let (ks, mae) = quantile_grid_errors(&estimates, &sorted);
    assert_eq!(g(ks), 0.25);
    assert_eq!(g(mae), 0.25 / 999.0);
}

#[test]
fn scores_fall_with_errors() {
    let r = QualityReport::from_metrics(5, f(0.01), f(0.0002), exp);
    assert_eq!(r.n, 5);
    assert_eq!(g(r.ks), 0.01);
    assert_eq!(g(r.mae), 0.0002);
    assert_eq!(g(r.score), (-((1200.0 * 0.0002f64) + (18.0 * 0.01))).exp());
    let worse = QualityReport::from_metrics(5, f(0.02), f(0.0002), exp);
    assert!(worse.score.lt(r.score));
    assert_eq!(g(QualityReport::from_metrics(5, f(0.0), f(0.0), exp).score), 1.0);
}

#[test]
fn a_digest_that_keeps_all_scores_well() {
    let mut rng = StdRng::seed_from_u64(42);
    let data: Vec<Float64> = (0..2000).map(|_| Draw::Uniform(f(rng.random::<f64>())).sample()).collect();
    // interpolates between the centroids, which are the data
    let by_rank = |td: &TDigest, q: Float64| {
        let means: Vec<Float64> = td.centroids().iter().map(|c| c.mean()).collect();
        expected_quantile(&means, q)
    };
    let r = assess(data, 5000, keep_all, by_rank, exp);
    assert_eq!(r.n, 2000);
    assert_eq!(g(r.ks), 0.0);
    assert_eq!(g(r.mae), 0.0);
    assert_eq!(g(r.score), 1.0);
}

#[test]
fn kinds_and_buckets_choose_shapes() {
    assert!(matches!(shape(DistKind::Uniform, 50), Shape::Uniform));
    assert!(matches!(shape(DistKind::Normal, 99), Shape::Normal));
    match shape(DistKind::LogNormal { sigma: f(2.5) }, 0) {
        Shape::LogNormal { sigma } => assert_eq!(g(sigma), 2.5),
        other => panic!("{other:?}"),
    }
    assert!(matches!(shape(DistKind::Mixture, 29), Shape::Clump));
    assert!(matches!(shape(DistKind::Mixture, 30), Shape::Broad));
    assert!(matches!(shape(DistKind::Mixture, 69), Shape::Broad));
    assert!(matches!(shape(DistKind::Mixture, 70), Shape::Tail));
}

#[test]
fn only_mixtures_draw_a_bucket() {
    let mut rng = StdRng::seed_from_u64(5);
    let mut plain = StdRng::seed_from_u64(5);
    let (bucket, drawn) = draw_shape(DistKind::Normal, &mut rng);
    assert_eq!(bucket, 0);
    assert!(matches!(drawn, Shape::Normal));
    // nothing was drawn
    for _ in 0..500 {
        let (bucket, drawn) = draw_shape(DistKind::Mixture, &mut rng);
        assert_eq!(bucket, plain.random_range(0..100));
        assert_eq!(matches!(drawn, Shape::Clump), bucket < 30);
        assert_eq!(matches!(drawn, Shape::Tail), bucket >= 70);
    }
}

#[test]
fn zeros_keep_their_order_when_numbers_are_sorted() {
    let sorted = sort_numbers(&fs(&[1.0, 0.0, -0.0, -1.0, 0.0, -0.0]));
    let bits: Vec<u64> = sorted.iter().map(|x| x.to_bits()).collect();
    let want: Vec<u64> =
        [-1.0, 0.0, -0.0, 0.0, -0.0, 1.0f64].iter().map(|x| x.to_bits()).collect();
    assert_eq!(bits, want);
}

#[test]
fn samples_may_be_negative_zero() {
    let data = fs(&[0.5, -0.0, 0.0, 1.0]);
    let by_rank = |td: &TDigest, q: Float64| {
        let mut values = Vec::new();
        for c in td.centroids() {
            for _ in 0..g(c.weight()) as usize {
                values.push(c.mean());
            }
        }
        expected_quantile(&values, q)
    };
    let r = assess(data, 100, keep_all, by_rank, exp);
    assert_eq!(r.n, 4);
    assert_eq!(g(r.ks), 0.0);
    assert_eq!(g(r.mae), 0.0);
}

/// A standard normal number, by the Box-Muller transform.
fn normal(rng: &mut StdRng) -> Float64 {
    let u1 = g(guarded_draw(f(rng.random::<f64>())));
    let u2: f64 = rng.random::<f64>();
    let r = (-2.0 * u1.ln()).sqrt();
    let theta = 2.0 * std::f64::consts::PI * u2;
    f(r * theta.cos())
}

#[test]
fn digest_builds_and_queries() {
    let mut rng = StdRng::seed_from_u64(7);
    let draws: Vec<Draw> = (0..10_000).map(|_| Draw::Normal(normal(&mut rng))).collect();
    let vals = sort_numbers(&gen_dataset(&draws));
    let td = TDigest::new_with_size(200).merge_sorted(vals, keep_all);
    let by_rank = |td: &TDigest, q: Float64| {
        let mut values = Vec::new();
        for c in td.centroids() {
            for _ in 0..g(c.weight()) as usize {
                values.push(c.mean());
            }
        }
        expected_quantile(&values, q)
    };

    let q50 = g(td.quantile(f(0.5), by_rank));
    let q10 = g(td.quantile(f(0.1), by_rank));
    let q90 = g(td.quantile(f(0.9), by_rank));
    assert!(q10 < q50 && q50 < q90, "monotonic quantiles violated");
    assert!((0.0..=1.0).contains(&q10));
    assert!((0.0..=1.0).contains(&q50));
    assert!((0.0..=1.0).contains(&q90));
    assert_eq!(g(td.median(by_rank)), q50);
}
