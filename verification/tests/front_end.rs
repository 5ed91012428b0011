use tdigest::digest::keep_all;
use tdigest::py::PyTDigest;
use tdigest::scale::parse_scale;
use tdigest::{Float64, ScaleFamily, SingletonPolicy, TDigest};

fn f(x: f64) -> Float64 {
    Float64::from_bits(x.to_bits())
}

fn g(x: Float64) -> f64 {
    f64::from_bits(x.to_bits())
}

#[test]
fn scales_are_named_in_any_case() {
    assert_eq!(parse_scale(None), Ok(ScaleFamily::K2));
    assert_eq!(parse_scale(Some("quad")), Ok(ScaleFamily::Quad));
    assert_eq!(parse_scale(Some("QuAd")), Ok(ScaleFamily::Quad));
    assert_eq!(parse_scale(Some("K1")), Ok(ScaleFamily::K1));
    assert_eq!(parse_scale(Some("k2")), Ok(ScaleFamily::K2));
    assert_eq!(parse_scale(Some("K3")), Ok(ScaleFamily::K3));
}

#[test]
fn unknown_scales_are_quoted() {
    assert_eq!(
        parse_scale(Some("K9-\u{c4}")),
        Err("invalid scale: k9-\u{c4} (expected 'quad', 'k1', 'k2', or 'k3')".to_string())
    );
    assert_eq!(
        parse_scale(Some("")),
        Err("invalid scale:  (expected 'quad', 'k1', 'k2', or 'k3')".to_string())
    );
}

#[test]
fn arrays_become_digests() {
    let d = PyTDigest::from_array(vec![f(3.0), f(1.0), f(1.0)], 200, Some("K1"), keep_all).unwrap();
    assert_eq!(d.inner.max_size(), 200);
    assert_eq!(d.inner.scale(), ScaleFamily::K1);
    assert_eq!(d.inner.singleton_policy(), SingletonPolicy::Off);
    assert_eq!(g(d.inner.count()), 3.0);
    assert_eq!(d.inner.centroids().len(), 2);
    assert!(!d.inner.centroids()[0].is_singleton());
    let ys: Vec<f64> = d.cdf(&[f(1.0), f(3.0)]).iter().map(|&y| g(y)).collect();
    assert_eq!(ys, vec![1.0 / 3.0, 2.5 / 3.0]);
    let last = |td: &TDigest, q: Float64| td.max().times(q);
    assert_eq!(g(d.median(last)), 1.5);
    assert_eq!(g(d.quantile(f(1.0), last)), 3.0);
}

#[test]
fn empty_arrays_become_empty_digests() {
    let d = PyTDigest::from_array(Vec::new(), 5, None, keep_all).unwrap();
    assert!(d.inner.is_empty());
    assert_eq!(d.inner.scale(), ScaleFamily::K2);
    assert!(d.cdf(&[f(1.0)])[0].is_nan());
}

#[test]
fn arrays_may_hold_nan() {
    let d = PyTDigest::from_array(vec![f(f64::NAN), f(1.0), f(-f64::NAN)], 5, None, keep_all).unwrap();
    assert_eq!(g(d.inner.count()), 3.0);
    assert_eq!(d.inner.centroids().len(), 3);
}

#[test]
fn bad_settings_are_refused() {
    let message = |r: Result<PyTDigest, String>| r.err().unwrap();
    // the capacity is looked at first
    assert_eq!(
        message(PyTDigest::from_array(vec![f(1.0)], 0, Some("x"), keep_all)),
        "max_size must be > 0"
    );
    assert_eq!(
        message(PyTDigest::from_array(vec![f(1.0)], 1, Some("X"), keep_all)),
        "invalid scale: x (expected 'quad', 'k1', 'k2', or 'k3')"
    );
}
