use rand::{rngs::StdRng, Rng, SeedableRng};
use tdigest::cdf::{build_arrays_light, cdf_at_val_fast, exact_ecdf_for_sorted};
use tdigest::digest::keep_all;
use tdigest::{Centroid, Float64, ScaleFamily, TDigest, TDigestBuilder};

fn f(x: f64) -> Float64 {
    Float64::from_bits(x.to_bits())
}

fn g(x: Float64) -> f64 {
    f64::from_bits(x.to_bits())
}

fn fs(xs: &[f64]) -> Vec<Float64> {
    xs.iter().map(|&x| f(x)).collect()
}

fn digest(cs: &[(f64, f64)], min: f64, max: f64) -> TDigest {
    let centroids = cs.iter().map(|&(m, w)| Centroid::new(f(m), f(w))).collect();
    let count: f64 = cs.iter().map(|c| c.1).sum();
    TDigest::new(centroids, f(0.0), f(count), f(max), f(min), 1000, keep_all)
}

fn at(d: &TDigest, x: f64) -> f64 {
    g(d.estimate_cdf(&[f(x)])[0])
}

#[test]
fn cdf_exact_with_enough_capacity() {
    const N: usize = 9_999;
    let mut rng = StdRng::seed_from_u64(42);
    let mut vals: Vec<f64> = (0..N)
        .map(|_| rng.random_range(0..N as u64) as f64)
        .collect();
    vals.sort_by(|a, b| a.partial_cmp(b).unwrap());
    let vals = fs(&vals);

    let exact = exact_ecdf_for_sorted(&vals);
    let approx = TDigestBuilder::new()
        .max_size(N + 1)
        .build()
        .merge_sorted(vals.clone(), keep_all)
        .estimate_cdf(&vals);

    assert_eq!(exact.len(), approx.len());
    for (i, (&e, &a)) in exact.iter().zip(&approx).enumerate() {
        assert_eq!(g(e), g(a), "CDF[{i}]");
    }
}

#[test]
fn no_centroids_estimate_nan() {
    let out = TDigest::default().estimate_cdf(&fs(&[0.0, 1.0]));
    assert_eq!(out.len(), 2);
    assert!(out.iter().all(|x| x.is_nan()));
    assert!(TDigest::default().cdf(&[]).is_empty());
}

#[test]
fn no_queries_no_estimates() {
    assert!(digest(&[(1.0, 1.0)], 1.0, 1.0).estimate_cdf(&[]).is_empty());
}

#[test]
fn outside_the_support_is_zero_or_one() {
    let d = digest(&[(1.0, 2.0), (3.0, 4.0)], 0.0, 5.0);
    assert_eq!(at(&d, -0.5), 0.0);
    assert_eq!(at(&d, f64::NEG_INFINITY), 0.0);
    assert_eq!(at(&d, 5.5), 1.0);
    assert_eq!(at(&d, f64::INFINITY), 1.0);
}

#[test]
fn hits_count_half_of_the_centroid() {
    let d = digest(&[(1.0, 2.0), (3.0, 4.0)], 0.0, 5.0);
    assert_eq!(at(&d, 1.0), 1.0 / 6.0);
    assert_eq!(at(&d, 3.0), 4.0 / 6.0);
}

#[test]
fn tails_are_guarded_ramps() {
    let d = digest(&[(1.0, 4.0), (3.0, 8.0)], 0.0, 5.0);
    assert_eq!(at(&d, 0.0), 0.5 / 12.0);
    assert_eq!(at(&d, 0.5), (1.0 + 0.5 / 1.0 * (4.0 / 2.0 - 1.0)) / 12.0);
    assert_eq!(at(&d, 5.0), 1.0 - 0.5 / 12.0);
    assert_eq!(at(&d, 4.0), 1.0 - (1.0 + 1.0 / 2.0 * (8.0 / 2.0 - 1.0)) / 12.0);
    // where an edge mean is the extreme there is no ramp
    let e = digest(&[(1.0, 2.0)], 1.0, 1.0);
    assert_eq!(at(&e, 0.999), 0.0);
    assert_eq!(at(&e, 1.0), 0.5);
    assert_eq!(at(&e, 1.001), 1.0);
}

#[test]
fn between_centroids_is_interpolated() {
    let d = digest(&[(0.0, 4.0), (2.0, 6.0)], 0.0, 2.0);
    // span of 5 from the middle of the first to the middle of the second
    assert_eq!(at(&d, 1.0), (2.0 + 5.0 * 0.5) / 10.0);
    // units do not contribute their half
    let l = digest(&[(0.0, 1.0), (2.0, 6.0)], 0.0, 2.0);
    assert_eq!(at(&l, 1.0), (0.0 + 0.5 + 0.5 + (3.5 - 0.5) * 0.5) / 7.0);
    let r = digest(&[(0.0, 6.0), (2.0, 1.0)], 0.0, 2.0);
    assert_eq!(at(&r, 1.0), (0.0 + 3.0 + (3.5 - 0.5) * 0.5) / 7.0);
    // two units: a step
    let s = digest(&[(0.0, 1.0), (2.0, 1.0)], 0.0, 2.0);
    assert_eq!(at(&s, 0.1), 0.5);
    assert_eq!(at(&s, 1.9), 0.5);
}

/// The estimate in hardware arithmetic, for strictly increasing means.
fn in_hardware(val: f64, cs: &[(f64, f64)], min: f64, max: f64) -> f64 {
    let n: f64 = cs.iter().map(|c| c.1).sum();
    let prefix = |i: usize| -> f64 { cs[..i].iter().map(|c| c.1).sum() };
    if let Some(i) = cs.iter().position(|c| c.0 == val) {
        return (prefix(i) + 0.5 * cs[i].1) / n;
    }
    let i = cs.iter().filter(|c| c.0 < val).count();
    if i == 0 {
        let gap = cs[0].0 - min;
        return if val < min || gap <= 0.0 {
            0.0
        } else if val == min {
            0.5 / n
        } else {
            (1.0 + (val - min) / gap * (cs[0].1 / 2.0 - 1.0)) / n
        };
    }
    let (ml, wl) = cs[i - 1];
    if i == cs.len() {
        let gap = max - ml;
        return if val > max || gap <= 0.0 {
            1.0
        } else if val == max {
            1.0 - 0.5 / n
        } else {
            1.0 - (1.0 + (max - val) / gap * (wl / 2.0 - 1.0)) / n
        };
    }
    let (mr, wr) = cs[i];
    if wl == 1.0 && wr == 1.0 {
        return (prefix(i - 1) + 1.0) / n;
    }
    let left = if wl == 1.0 { 0.5 } else { 0.0 };
    let right = if wr == 1.0 { 0.5 } else { 0.0 };
    let span = 0.5 * (wl + wr) - left - right;
    let base = prefix(i - 1) + wl / 2.0 + left;
    (base + span * ((val - ml) / (mr - ml))) / n
}

#[test]
fn estimates_agree_with_hardware_and_are_probabilities() {
    let mut rng = StdRng::seed_from_u64(7);
    for _ in 0..300 {
        let mut cs: Vec<(f64, f64)> = Vec::new();
        let mut m: f64 = rng.random_range(-10.0..10.0);
        for _ in 0..rng.random_range(1..20) {
            cs.push((m, f64::from(rng.random_range(1..5u32))));
            m += rng.random_range(0.001..3.0);
        }
        let min = cs[0].0 - if rng.random_bool(0.5) { 0.0 } else { 1.5 };
        let last = cs.len() - 1;
        let max = cs[last].0 + if rng.random_bool(0.5) { 0.0 } else { 2.5 };
        let d = digest(&cs, min, max);
        let mut xs: Vec<f64> = (0..40).map(|_| rng.random_range(min - 1.0..max + 1.0)).collect();
        xs.extend(cs.iter().map(|c| c.0));
        xs.push(min);
        xs.push(max);
        let out = d.estimate_cdf(&fs(&xs));
        for (x, y) in xs.iter().zip(&out) {
            assert_eq!(g(*y), in_hardware(*x, &cs, min, max), "at {x} in {cs:?}");
            assert!((0.0..=1.0).contains(&g(*y)));
        }
    }
}

#[test]
fn estimates_never_decrease_up_to_the_last_mean() {
    let d = digest(&[(0.0, 1.0), (1.0, 3.0), (1.5, 1.0), (4.0, 7.0), (9.0, 5.0)], 0.0, 11.0);
    let mut before = 0.0;
    for k in 0..=900 {
        let y = at(&d, f64::from(k) / 100.0);
        assert!(y >= before, "at {k}");
        before = y;
    }
    let mut beyond = 0.0;
    for k in 901..=1200 {
        let y = at(&d, f64::from(k) / 100.0);
        assert!(y >= beyond, "at {k}");
        beyond = y;
    }
}

#[test]
fn rounding_may_dip_right_behind_the_last_mean() {
    let d = digest(&[(0.0, 1.0), (1.0, 5.0)], 0.0, 1e17);
    assert_eq!(at(&d, 1.0), 3.5 / 6.0);
    assert_eq!(at(&d, 2.0), 1.0 - 2.5 / 6.0);
    assert!(at(&d, 2.0) < at(&d, 1.0));
}

#[test]
fn arrays_hold_means_weights_and_what_is_before() {
    let d = digest(&[(1.0, 2.0), (3.0, 4.0), (4.0, 1.0)], 0.0, 5.0);
    let light = build_arrays_light(&d);
    let all = |xs: &[Float64]| -> Vec<f64> { xs.iter().map(|&x| g(x)).collect() };
    assert_eq!(all(&light.means), vec![1.0, 3.0, 4.0]);
    assert_eq!(all(&light.weights), vec![2.0, 4.0, 1.0]);
    assert_eq!(all(&light.prefix), vec![0.0, 2.0, 6.0]);
    assert_eq!(g(light.count), 7.0);
    assert_eq!(g(cdf_at_val_fast(f(3.0), &light, f(0.0), f(5.0))), 4.0 / 7.0);
}

#[test]
fn exact_function_splits_ties() {
    let all = |xs: &[f64]| -> Vec<f64> {
        exact_ecdf_for_sorted(&fs(xs)).iter().map(|&x| g(x)).collect()
    };
    assert!(all(&[]).is_empty());
    assert_eq!(all(&[5.0]), vec![0.5]);
    assert_eq!(all(&[1.0, 1.0, 2.0, 3.0]), vec![0.25, 0.25, 0.625, 0.875]);
}

#[test]
fn answers_depend_on_their_own_query() {
    let d = digest(&[(1.0, 2.0), (3.0, 4.0), (7.0, 1.0)], 0.0, 7.0);
    let queries = [6.5, -1.0, 3.0, 2.0, 0.25, 9.0, 3.0];
    let all = d.estimate_cdf(&fs(&queries));
    for (i, &x) in queries.iter().enumerate() {
        assert_eq!(g(all[i]), at(&d, x));
    }
    let some = d.estimate_cdf(&fs(&[2.0, 6.5]));
    assert_eq!((g(some[0]), g(some[1])), (g(all[3]), g(all[0])));
}

#[test]
fn mirrored_digests_give_complements() {
    let cs = [(-3.0, 2.0), (-1.0, 1.0), (0.0, 1.0), (2.0, 5.0), (4.5, 3.0)];
    let mirrored: Vec<(f64, f64)> = cs.iter().rev().map(|&(m, w)| (-m, w)).collect();
    let d = digest(&cs, -4.0, 6.0);
    let e = digest(&mirrored, -6.0, 4.0);
    for i in -90..=130 {
        let x = f64::from(i) / 20.0;
        assert!((at(&d, x) + at(&e, -x) - 1.0).abs() <= 1e-12, "at {x}");
    }
}

#[test]
fn scaled_weights_give_the_same_estimates() {
    let cs = [(-3.0, 2.0), (-1.0, 3.0), (0.0, 2.0), (2.0, 5.0), (4.5, 3.0)];
    let scaled: Vec<(f64, f64)> = cs.iter().map(|&(m, w)| (m, 7.0 * w)).collect();
    let d = digest(&cs, -3.0, 4.5);
    let e = digest(&scaled, -3.0, 4.5);
    for i in -60..=90 {
        let x = f64::from(i) / 20.0;
        assert!((at(&d, x) - at(&e, x)).abs() <= 1e-12, "at {x}");
    }
}

#[test]
fn astronomical_weights_give_the_same_estimates() {
    let cs = [(0.0, 2.0), (1.0, 4.0), (2.0, 6.0)];
    let scaled: Vec<(f64, f64)> = cs.iter().map(|&(m, w)| (m, 1.0e36 * w)).collect();
    let d = digest(&cs, 0.0, 2.0);
    let e = digest(&scaled, 0.0, 2.0);
    for i in 0..=40 {
        let x = f64::from(i) / 20.0;
        assert!((at(&d, x) - at(&e, x)).abs() <= 1e-12 * at(&d, x), "at {x}");
    }
    // a weight of 1 stands for a single value
    let one = digest(&[(0.0, 1.0), (2.0, 3.0)], 0.0, 2.0);
    let two = digest(&[(0.0, 2.0), (2.0, 6.0)], 0.0, 2.0);
    assert!(at(&one, 0.1) != at(&two, 0.1));
}

#[test]
fn many_values_may_be_counted() {
    // half of an odd weight beyond 2^52 is rounded
    let w = 4503599627370497.0;
    let d = digest(&[(0.0, w), (1.0, w - 2.0)], 0.0, 1.0);
    assert!((at(&d, 0.0) - 0.25).abs() < 1e-12);
    assert!((at(&d, 0.5) - 0.5).abs() < 1e-12);
    assert!((at(&d, 1.0) - 0.75).abs() < 1e-12);
}

#[test]
fn cdf_small_max10_medn_100_simple() {
    let mut values: Vec<f64> = (-30..=69).map(|x| x as f64).collect();
    values[0] = -1e9; // extreme left tail
    values[99] = 1e9; // extreme right tail
    values.sort_by(|a, b| a.partial_cmp(b).unwrap());
    let values = fs(&values);

    let td = TDigestBuilder::new()
        .max_size(10)
        .scale(ScaleFamily::Quad)
        .build()
        .merge_sorted(values.clone(), keep_all);
    let approx: Vec<f64> = td.estimate_cdf(&values).into_iter().map(g).collect();
    assert_eq!(approx.len(), values.len());

    // 1) bounds + 2) monotone
    for i in 0..approx.len() {
        let p = approx[i];
        assert!((0.0..=1.0).contains(&p), "cdf[{}]={} out of [0,1]", i, p);
        if i > 0 {
            assert!(approx[i] + 1e-12 >= approx[i - 1], "non-monotone at {}", i);
        }
    }

    // 3) tails hit ~1%/~99%
    let eps = 1e-6;
    assert!(approx[0] <= 0.01 + eps, "left tail too large: {}", approx[0]);
    assert!(approx[99] >= 0.99 - eps, "right tail too small: {}", approx[99]);

    // 4) middle rank (~median) should be roughly around 0.5
    let mid = 50;
    assert!((0.49..=0.51).contains(&approx[mid]), "median sanity: {}", approx[mid]);
}

#[test]
fn exact_function_counts_below_and_not_above() {
    let values = [-1.0, -0.0, 0.0, 0.0, 2.5, 2.5, 7.0];
    let exact = exact_ecdf_for_sorted(&fs(&values));
    for (k, v) in values.iter().enumerate() {
        let below = values.iter().filter(|x| *x < v).count();
        let up_to = values.iter().filter(|x| *x <= v).count();
        assert_eq!(g(exact[k]), (below + up_to) as f64 / 2.0 / values.len() as f64);
    }
}

#[test]
fn weights_near_the_limits_give_the_same_estimates() {
    let cs = [(0.0, 2.0), (1.0, 4.0), (2.0, 6.0)];
    let d = digest(&cs, 0.0, 2.0);
    for exponent in [-1000, 1000] {
        let factor = 2.0f64.powi(exponent);
        let scaled: Vec<(f64, f64)> = cs.iter().map(|&(m, w)| (m, factor * w)).collect();
        let e = digest(&scaled, 0.0, 2.0);
        for i in 0..=40 {
            let x = f64::from(i) / 20.0;
            assert!((at(&d, x) - at(&e, x)).abs() <= 1e-12 * at(&d, x), "at {x}");
        }
    }
}
