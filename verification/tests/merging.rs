use tdigest::centroid::{coalesce_adjacent_equal_means, is_sorted_strict_by_mean};
use tdigest::digest::keep_all;
use tdigest::merges::{
    first_descent, normalize_stream, KWayCentroidMerge, MergeByMean, NormalizedStream,
};
use tdigest::quality::expected_quantile;
use tdigest::{Centroid, Float64, ScaleFamily, SingletonPolicy, TDigest, TDigestBuilder};

fn f(x: f64) -> Float64 {
    Float64::from_bits(x.to_bits())
}

fn g(x: Float64) -> f64 {
    f64::from_bits(x.to_bits())
}

fn fs(xs: &[f64]) -> Vec<Float64> {
    xs.iter().map(|&x| f(x)).collect()
}

fn c(mean: f64, weight: f64, singleton: bool) -> Centroid {
    let mut out = Centroid::new(f(mean), f(weight));
    out.mark_singleton(singleton);
    out
}

/// Mean, weight and mark of each centroid.
fn shape(cs: &[Centroid]) -> Vec<(f64, f64, bool)> {
    cs.iter().map(|c| (g(c.mean()), g(c.weight()), c.is_singleton())).collect()
}

/// Identical values become singleton piles (weight>1 with `singleton=true`);
/// distinct values are weight==1 singletons.
#[test]
fn singletons_grouped_runs() {
    // Values: three 1s, one 2, two 3s
    let vals = fs(&[1.0, 1.0, 1.0, 2.0, 3.0, 3.0]);
    let t = TDigestBuilder::new().max_size(64).build().merge_sorted(vals, keep_all);

    let cs = t.centroids();
    assert!(
        cs.windows(2).all(|w| g(w[0].mean()) != g(w[1].mean())),
        "duplicate centroid means found"
    );

    assert_eq!(cs.len(), 3);

    assert_eq!(g(cs[0].mean()), 1.0);
    assert_eq!(g(cs[0].weight()), 3.0);
    assert!(cs[0].is_singleton());

    assert_eq!(g(cs[1].mean()), 2.0);
    assert_eq!(g(cs[1].weight()), 1.0);
    assert!(cs[1].is_singleton());

    assert_eq!(g(cs[2].mean()), 3.0);
    assert_eq!(g(cs[2].weight()), 2.0);
    assert!(cs[2].is_singleton());
}

#[test]
fn policy_off_marks_nothing() {
    let base = TDigest::builder().singleton_policy(SingletonPolicy::Off).build();
    let t = base.merge_sorted(fs(&[1.0, 1.0, 2.0]), keep_all);
    assert_eq!(shape(t.centroids()), vec![(1.0, 2.0, false), (2.0, 1.0, false)]);
    // values that meet a centroid with their mean are fused into a pile all the same
    let u = t.merge_sorted(fs(&[2.0]), keep_all);
    assert_eq!(shape(u.centroids()), vec![(1.0, 2.0, false), (2.0, 2.0, true)]);
}

#[test]
fn merging_values_updates_totals() {
    let vals = [5.0, 1.0, 3.0, 4.0, 2.0, 2.0, 9.0, 7.0];
    let t = TDigestBuilder::new().max_size(64).build().merge_unsorted(fs(&vals), keep_all);
    assert_eq!(g(t.count()), 8.0);
    assert_eq!(g(t.min()), 1.0);
    assert_eq!(g(t.max()), 9.0);
    assert_eq!(g(t.sum()), 33.0);
    assert_eq!(g(t.mean()), 33.0 / 8.0);
    assert_eq!(t.max_size(), 64);

    let u = t.merge_unsorted(fs(&[-1.0, 10.0, 3.0]), keep_all);
    assert_eq!(g(u.count()), 11.0);
    assert_eq!(g(u.min()), -1.0);
    assert_eq!(g(u.max()), 10.0);
    assert_eq!(g(u.sum()), 45.0);
    assert!(is_sorted_strict_by_mean(&u.centroids));
    let counted: f64 = u.centroids().iter().map(|c| g(c.weight())).sum();
    assert_eq!(counted, 11.0);
}

#[test]
fn merging_unsorted_is_merging_sorted_after_sorting() {
    let unsorted = fs(&[5.0, -0.0, 3.0, 0.0, 2.0, 2.0]);
    let sorted = fs(&[-0.0, 0.0, 2.0, 2.0, 3.0, 5.0]);
    let base = TDigest::default();
    let a = base.merge_unsorted(unsorted.clone(), keep_all);
    let b = base.merge_sorted(sorted, keep_all);
    assert!(a == b);
    assert!(TDigest::from_unsorted(&unsorted, 1000, keep_all) == a);
}

#[test]
fn merging_no_values_changes_nothing() {
    let t = TDigest::default().merge_sorted(fs(&[1.0, 2.0]), keep_all);
    assert!(t.merge_sorted(Vec::new(), keep_all) == t);
    assert!(t.merge_unsorted(Vec::new(), keep_all) == t);
    assert!(TDigest::from_unsorted(&[], 7, keep_all) == TDigest::new_with_size(7));
}

#[test]
fn builder_keeps_what_it_was_told() {
    let d = TDigestBuilder::new().build();
    assert_eq!(d.max_size(), 1000);
    assert_eq!(d.scale(), ScaleFamily::K2);
    assert_eq!(d.singleton_policy(), SingletonPolicy::Use);
    assert!(d.is_empty());
    assert!(d.min().is_nan() && d.max().is_nan());
    assert_eq!(g(d.sum()), 0.0);
    assert_eq!(g(d.count()), 0.0);
    assert_eq!(g(d.mean()), 0.0);

    let e = TDigest::builder()
        .max_size(5)
        .max_size(7)
        .scale(ScaleFamily::Quad)
        .singleton_policy(SingletonPolicy::UseWithProtectedEdges(3))
        .build();
    assert_eq!(e.max_size(), 7);
    assert_eq!(e.scale(), ScaleFamily::Quad);
    assert_eq!(e.singleton_policy(), SingletonPolicy::UseWithProtectedEdges(3));
    assert!(SingletonPolicy::default() == SingletonPolicy::Use);
}

#[test]
fn setters_change_one_field() {
    let mut d = TDigest::default();
    d.set_sum(f(1.0));
    d.set_count(f(2.0));
    d.set_min(f(-3.0));
    d.set_max(f(4.0));
    assert_eq!(
        (g(d.sum()), g(d.count()), g(d.min()), g(d.max())),
        (1.0, 2.0, -3.0, 4.0)
    );
    assert_eq!(g(d.mean()), 0.5);
}

#[test]
fn equality_takes_nan_for_nan() {
    assert!(TDigest::default() == TDigest::default());
    assert!(TDigest::default() == TDigest::default().clone());
    assert!(TDigest::default() != TDigest::new_with_size(5));
    let mut a = TDigest::default();
    a.set_min(f(0.0));
    let mut b = TDigest::default();
    b.set_min(f(-0.0));
    assert!(a == b);
    assert!(a != TDigest::default());
}

#[test]
fn merging_two_blocks_of_digests() {
    let d1 = TDigestBuilder::new().max_size(128).build().merge_sorted(
        fs(&[1.0, 2.0, 3.0, 4.0, 5.0]),
        keep_all,
    );
    let d2 = TDigestBuilder::new().max_size(64).build().merge_sorted(
        fs(&[5.0, 6.0, 7.0, 8.0, 9.0, 10.0]),
        keep_all,
    );
    let t = TDigest::merge_digests(vec![TDigest::default(), d1, d2], keep_all);
    assert_eq!(g(t.count()), 11.0);
    assert_eq!(g(t.min()), 1.0);
    assert_eq!(g(t.max()), 10.0);
    assert_eq!(g(t.sum()), 60.0);
    // the settings are those of the first digest with values
    assert_eq!(t.max_size(), 128);
    assert_eq!(t.centroids().len(), 10);
    assert_eq!(shape(t.centroids())[4], (5.0, 2.0, true));
    assert!(is_sorted_strict_by_mean(&t.centroids));
}

#[test]
fn merging_nothing_gives_the_default() {
    assert!(TDigest::merge_digests(Vec::new(), keep_all) == TDigest::default());
    let empty = TDigest::new_with_size(3);
    assert!(TDigest::merge_digests(vec![empty], keep_all) == TDigest::default());
}

#[test]
fn new_keeps_what_fits() {
    let cs = vec![c(1.0, 1.0, false), c(2.0, 2.0, false)];
    let d = TDigest::new(cs.clone(), f(5.0), f(3.0), f(2.0), f(1.0), 2, keep_all);
    assert_eq!(shape(d.centroids()), shape(&cs));
    assert_eq!((g(d.max()), g(d.min())), (2.0, 1.0));
    assert_eq!(d.max_size(), 2);

    // beyond the capacity the centroids are merged: the capacity becomes their number,
    // and the sum is that of the merged stream
    let e = TDigest::new(cs.clone(), f(77.0), f(3.0), f(2.0), f(1.0), 1, keep_all);
    assert_eq!(shape(e.centroids()), shape(&cs));
    assert_eq!(e.max_size(), 2);
    assert_eq!(g(e.sum()), 5.0);
    assert_eq!(g(e.count()), 3.0);

    // without a count there is nothing to merge
    let z = TDigest::new(cs, f(5.0), f(0.0), f(2.0), f(1.0), 1, keep_all);
    assert!(z == TDigest::default());
}

#[test]
fn merge_by_mean_interleaves() {
    let cs = [c(1.0, 4.0, false), c(3.0, 2.0, false), c(5.0, 1.0, true)];
    let values = fs(&[0.5, 3.0, 3.0, 4.0]);
    let mut stream = MergeByMean::from_centroids_and_values(&cs, &values, true);
    let out = stream.collect();
    assert_eq!(
        shape(&out),
        vec![
            (0.5, 1.0, true),
            (1.0, 4.0, false),
            (3.0, 2.0, false),
            (3.0, 2.0, true),
            (4.0, 1.0, true),
            (5.0, 1.0, true),
        ]
    );
    assert!(stream.next().is_none());
}

#[test]
fn merge_by_mean_gives_one_at_a_time() {
    let cs = [c(2.0, 1.0, false)];
    let values = fs(&[2.0]);
    let mut stream = MergeByMean::from_centroids_and_values(&cs, &values, false);
    assert_eq!(stream.next().map(|x| shape(&[x])[0]), Some((2.0, 1.0, false)));
    assert_eq!(stream.next().map(|x| shape(&[x])[0]), Some((2.0, 1.0, false)));
    assert!(stream.next().is_none());
}

#[test]
fn k_way_merge_fuses_equal_heads() {
    let a = [c(1.0, 1.0, true), c(2.0, 3.0, false)];
    let b = [c(1.0, 2.0, true), c(4.0, 1.0, true)];
    let d = [c(2.0, 1.0, true)];
    let e: [Centroid; 0] = [];
    let mut merge = KWayCentroidMerge::new(vec![&a, &b, &e, &d]);
    let out = merge.collect();
    assert_eq!(
        shape(&out),
        vec![(1.0, 3.0, true), (2.0, 4.0, false), (4.0, 1.0, true)]
    );
    assert!(merge.next().is_none());
    assert!(KWayCentroidMerge::new(Vec::new()).next().is_none());
}

#[test]
fn k_way_merge_fuses_within_a_run_and_puts_nan_last() {
    let a = [c(1.0, 1.0, true), c(1.0, 2.0, true), c(f64::NAN, 1.0, true)];
    let b = [c(7.0, 1.0, true)];
    let out = KWayCentroidMerge::new(vec![&a, &b]).collect();
    assert_eq!(out.len(), 3);
    assert_eq!(shape(&out)[0], (1.0, 3.0, true));
    assert_eq!(shape(&out)[1], (7.0, 1.0, true));
    assert!(out[2].mean().is_nan());
}

#[test]
fn normalizing_fuses_and_totals() {
    let items = vec![c(1.0, 2.0, false), c(1.0, 3.0, false), c(4.0, 1.0, false)];
    let s = normalize_stream(items);
    assert_eq!(shape(&s.out), vec![(1.0, 5.0, true), (4.0, 1.0, false)]);
    assert_eq!(g(s.total_w), 6.0);
    assert_eq!(g(s.total_mw), 9.0);
    assert_eq!((g(s.min), g(s.max)), (1.0, 4.0));

    let none = normalize_stream(Vec::new());
    assert!(none.out.is_empty());
    assert_eq!((g(none.min), g(none.max)), (f64::INFINITY, f64::NEG_INFINITY));
}

#[test]
fn descents_are_found() {
    assert_eq!(first_descent(&vec![c(1.0, 1.0, true), c(1.0, 1.0, true)]), None);
    assert_eq!(
        first_descent(&vec![c(1.0, 1.0, true), c(3.0, 1.0, true), c(2.0, 1.0, true)]),
        Some(2)
    );
    assert_eq!(first_descent(&Vec::new()), None);
}

#[test]
fn strict_order_is_recognized() {
    assert!(is_sorted_strict_by_mean(&Vec::new()));
    assert!(is_sorted_strict_by_mean(&vec![c(1.0, 1.0, true)]));
    assert!(is_sorted_strict_by_mean(&vec![c(1.0, 1.0, true), c(2.0, 1.0, true)]));
    assert!(!is_sorted_strict_by_mean(&vec![c(1.0, 1.0, true), c(1.0, 1.0, true)]));
    assert!(!is_sorted_strict_by_mean(&vec![c(2.0, 1.0, true), c(1.0, 1.0, true)]));
}

#[test]
fn coalescing_keeps_distinct_means() {
    let items = vec![c(1.0, 2.0, false), c(2.0, 3.0, true)];
    assert_eq!(shape(&coalesce_adjacent_equal_means(items.clone())), shape(&items));
    let fused = coalesce_adjacent_equal_means(vec![c(-0.0, 1.0, false), c(0.0, 1.0, false)]);
    assert_eq!(shape(&fused), vec![(0.0, 2.0, true)]);
}

#[test]
fn compression_gets_the_header_and_the_capacity() {
    let d = TDigest::new_with_size(2);
    let halved = |header: TDigest, max_size: usize, stream: NormalizedStream| {
        assert_eq!(max_size, 2);
        assert_eq!(g(header.count()), 3.0);
        assert_eq!((g(header.min()), g(header.max())), (1.0, 3.0));
        assert!(header.is_empty());
        let mut r = header;
        r.set_sum(stream.total_mw);
        r.centroids = vec![stream.out[0], c(2.5, 2.0, false)];
        r
    };
    let t = d.merge_sorted(fs(&[1.0, 2.0, 3.0]), halved);
    assert_eq!(shape(t.centroids()), vec![(1.0, 1.0, true), (2.5, 2.0, false)]);
    assert_eq!(g(t.sum()), 6.0);
}

#[test]
fn quantiles_go_through_the_given_method() {
    let d = TDigest::default().merge_sorted(fs(&[1.0, 2.0, 3.0]), keep_all);
    let at_rank = |td: &TDigest, q: Float64| {
        let i = (g(q) * (td.centroids().len() - 1) as f64) as usize;
        td.centroids()[i].mean()
    };
    assert_eq!(g(d.quantile(f(1.0), at_rank)), 3.0);
    assert_eq!(g(d.median(at_rank)), 2.0);
}

/// The quantile of the values that the centroids stand for, interpolated.
fn by_rank(td: &TDigest, q: Float64) -> Float64 {
    let mut values = Vec::new();
    for c in td.centroids() {
        for _ in 0..g(c.weight()) as usize {
            values.push(c.mean());
        }
    }
    expected_quantile(&values, q)
}

fn assert_rel_close(label: &str, want: f64, got: f64, tolerance: f64) {
    assert!((want - got).abs() <= tolerance * want.abs(), "{label}: want {want}, got {got}");
}

#[test]
fn merge_unsorted_smoke_small() {
    let vals = vec![5.0, 1.0, 3.0, 4.0, 2.0, 2.0, 9.0, 7.0];
    let t = TDigestBuilder::new().max_size(64).build().merge_unsorted(fs(&vals), keep_all);

    assert_eq!(g(t.count()), vals.len() as f64);
    assert_eq!(g(t.min()), 1.0);
    assert_eq!(g(t.max()), 9.0);

    assert_eq!(g(t.quantile(f(0.0), by_rank)), 1.0);
    assert_eq!(g(t.quantile(f(1.0), by_rank)), 9.0);

    let expected_mean = vals.iter().sum::<f64>() / (vals.len() as f64);
    assert_rel_close("mean", expected_mean, g(t.mean()), 1e-9);
}

#[test]
fn merge_digests_two_blocks_smoke() {
    let block = |range: std::ops::RangeInclusive<i32>| {
        let vals: Vec<f64> = range.map(f64::from).collect();
        TDigestBuilder::new().max_size(128).build().merge_sorted(fs(&vals), keep_all)
    };
    let t = TDigest::merge_digests(vec![block(1..=5), block(6..=10)], keep_all);

    assert_eq!(g(t.count()), 10.0);
    assert_eq!(g(t.min()), 1.0);
    assert_eq!(g(t.max()), 10.0);

    assert_eq!(g(t.quantile(f(0.0), by_rank)), 1.0);
    assert_eq!(g(t.quantile(f(1.0), by_rank)), 10.0);
    assert_rel_close("Q(0.50)", 5.5, g(t.quantile(f(0.5), by_rank)), 1e-9);
}

/// Keeps everything, but forgets the settings.
fn forgetful(header: TDigest, max_size: usize, stream: NormalizedStream) -> TDigest {
    let mut r = TDigest::new_with_size(1);
    let kept = keep_all(header, max_size, stream);
    r.set_sum(kept.sum());
    r.set_count(kept.count());
    r.set_min(kept.min());
    r.set_max(kept.max());
    r.centroids = kept.centroids;
    r
}

#[test]
fn settings_survive_compression() {
    let base = TDigestBuilder::new()
        .max_size(7)
        .scale(ScaleFamily::K1)
        .singleton_policy(SingletonPolicy::Off)
        .build();
    let kept = base.merge_sorted(fs(&[1.0, 2.0]), keep_all);
    assert!(base.merge_sorted(fs(&[1.0, 2.0]), forgetful) == kept);
    assert!(base.merge_unsorted(fs(&[2.0, 1.0]), forgetful) == kept);
    assert_eq!(kept.max_size(), 7);

    // the settings are those of the first digest with values
    let other = TDigestBuilder::new().max_size(9).scale(ScaleFamily::K3).build();
    let merged = TDigest::merge_digests(vec![other, kept.clone(), kept.clone()], forgetful);
    assert_eq!(merged.max_size(), 7);
    assert_eq!(g(merged.count()), 4.0);
    assert!(merged == TDigest::merge_digests(vec![kept.clone(), kept], keep_all));
}

#[test]
fn blank_digests_and_the_order_of_digests_do_not_matter() {
    let base = TDigestBuilder::new().max_size(64).build();
    let a = base.merge_sorted(fs(&[1.0, 2.0, 2.0]), keep_all);
    let b = base.merge_sorted(fs(&[0.0, 2.0, 5.0]), keep_all);
    let merged = TDigest::merge_digests(vec![a.clone(), b.clone()], keep_all);
    assert!(TDigest::merge_digests(vec![b.clone(), a.clone()], keep_all) == merged);
    let blank = base.clone();
    assert!(TDigest::merge_digests(vec![blank.clone(), a, blank.clone(), b, blank], keep_all) == merged);
    assert_eq!(
        shape(merged.centroids()),
        vec![(0.0, 1.0, true), (1.0, 1.0, true), (2.0, 3.0, true), (5.0, 1.0, true)]
    );
}

#[test]
fn the_order_of_unsorted_values_does_not_matter() {
    let base = TDigest::default();
    let a = base.merge_unsorted(fs(&[3.0, 1.0, 2.0, 1.0]), keep_all);
    assert!(base.merge_unsorted(fs(&[1.0, 1.0, 3.0, 2.0]), keep_all) == a);
}

#[test]
fn new_beyond_the_capacity_is_a_merge() {
    let cs = vec![c(1.0, 2.0, false), c(4.0, 3.0, true)];
    let whole = TDigest::new(cs.clone(), f(14.0), f(5.0), f(4.0), f(1.0), 2, keep_all);
    let beyond = TDigest::new(cs, f(14.0), f(5.0), f(4.0), f(1.0), 1, keep_all);
    assert!(beyond == TDigest::merge_digests(vec![whole], keep_all));
}

#[test]
fn sums_add_up_but_for_rounding() {
    let base = TDigest::default();
    let blocks = [vec![0.1, 0.2, 0.2], vec![-1.0e9, 0.3], vec![1.0e9, 0.7, 0.2]];
    let digests: Vec<TDigest> =
        blocks.iter().map(|xs| base.merge_unsorted(fs(xs), keep_all)).collect();
    let sums: f64 = digests.iter().map(|d| g(d.sum())).sum();
    let magnitudes: f64 = blocks.iter().flatten().map(|x| x.abs()).sum();
    let merged = TDigest::merge_digests(digests, keep_all);
    assert_eq!(merged.centroids().len(), 6);
    assert!((g(merged.sum()) - sums).abs() <= 16.0 * f64::EPSILON * magnitudes);
}

#[test]
fn sums_grow_by_the_values() {
    let base = TDigest::default().merge_sorted(fs(&[-7.25, 0.1, 0.1]), keep_all);
    let values = [0.1, 0.3, 1.0e6];
    let merged = base.merge_sorted(fs(&values), keep_all);
    let want = g(base.sum()) + values.iter().sum::<f64>();
    assert!((g(merged.sum()) - want).abs() <= 8.0 * f64::EPSILON * 1.0e6);
    assert_eq!(merged.centroids().len(), 4);
    // close to the largest number there is
    let large = base.merge_sorted(fs(&[1.0e308]), keep_all);
    assert_eq!(g(large.sum()), 1.0e308);
}

#[test]
fn equal_heads_add_up_from_the_last_run_to_the_first() {
    // the order shows in the last digit
    let (a, b, c) = (1.0, 1.1102230246251565e-16, 1.1102230246251565e-16);
    assert!((a + b) + c != (c + b) + a);
    let first = [self::c(1.0, a, true)];
    let second = [self::c(1.0, b, true)];
    let third = [self::c(1.0, c, false), self::c(2.0, 0.5, true)];
    let runs: Vec<&[Centroid]> = vec![&first, &second, &third];
    let mut merge = KWayCentroidMerge::new(runs);
    let fused = merge.next().unwrap();
    assert_eq!((g(fused.mean()), g(fused.weight())), (1.0, (c + b) + a));
    assert!(!fused.is_singleton());
    assert_eq!(g(merge.next().unwrap().weight()), 0.5);
    assert!(merge.next().is_none());
    assert!(merge.next().is_none());
}

#[test]
fn centroids_come_before_equal_values() {
    let cs = [c(1.0, 2.5, false), c(2.0, 3.0, false)];
    let vs = fs(&[1.0, 2.0, 2.0]);
    let mut merge = MergeByMean::from_centroids_and_values(&cs, &vs, true);
    let mut out = Vec::new();
    while let Some(item) = merge.next() {
        out.push(item);
    }
    assert_eq!(
        shape(&out),
        vec![(1.0, 2.5, false), (1.0, 1.0, true), (2.0, 3.0, false), (2.0, 2.0, true)]
    );
}

#[test]
fn merge_digests_uniform_100x1000() {
    let mut digests: Vec<TDigest> = Vec::with_capacity(100);
    for _ in 1..=100 {
        let vals: Vec<f64> = (1..=1_000).map(f64::from).collect();
        let t = TDigest::builder()
            .max_size(100)
            .singleton_policy(SingletonPolicy::Use)
            .build()
            .merge_sorted(fs(&vals), keep_all);
        digests.push(t);
    }
    let t = TDigest::merge_digests(digests, keep_all);

    assert_eq!(g(t.quantile(f(1.0), by_rank)), 1000.0);
    assert_eq!(g(t.quantile(f(0.0), by_rank)), 1.0);

    assert_rel_close("Q(0.99)", 990.0, g(t.quantile(f(0.99), by_rank)), 7e-4);
    assert_rel_close("Q(0.01)", 10.0, g(t.quantile(f(0.01), by_rank)), 2e-1);
    assert_rel_close("Q(0.50)", 500.0, g(t.quantile(f(0.5), by_rank)), 2e-3);
}
