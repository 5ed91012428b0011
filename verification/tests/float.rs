use ordered_float::OrderedFloat;
use tdigest::codecs::TWO_TO_64_BITS;
use tdigest::float::{HALF_BITS, ONE_BITS, TWO_BITS};
use tdigest::quality::{
    FIFTH_BITS, KS_FACTOR_BITS, LEAST_DRAW_BITS, MAE_FACTOR_BITS, NINE_TENTHS_BITS,
    TENTH_BITS, THOUSANDTH_BITS,
};
use tdigest::float::Float64;
use tdigest::sort::sort_by_total_order;

fn f(x: f64) -> Float64 {
    Float64::from_bits(x.to_bits())
}

fn g(x: Float64) -> f64 {
    f64::from_bits(x.to_bits())
}

/// A small generator of bit patterns that favours special and neighbouring numbers.
struct Patterns {
    state: u64,
}

impl Patterns {
    fn word(&mut self) -> u64 {
        self.state ^= self.state << 13;
        self.state ^= self.state >> 7;
        self.state ^= self.state << 17;
        self.state.wrapping_mul(0x2545_f491_4f6c_dd1d)
    }

    fn number(&mut self) -> f64 {
        let special = [
            0.0,
            -0.0,
            1.0,
            -1.0,
            0.5,
            2.0,
            f64::INFINITY,
            f64::NEG_INFINITY,
            f64::NAN,
            f64::MAX,
            f64::MIN,
            f64::MIN_POSITIVE,
            5e-324,
            -5e-324,
            1.0 + f64::EPSILON,
            9007199254740993.0,
            1e308,
            1e-308,
            0.1,
            3.0,
        ];
        let w = self.word();
        match w % 6 {
            0 => special[(w >> 8) as usize % special.len()],
            1 => ((w >> 8) % 4096) as f64 - 2048.0,
            2 => f64::from_bits((w & !(0x7ff << 52)) | ((1000 + (w >> 8) % 48) << 52)),
            3 => f64::from_bits((w & !(0x7ff << 52)) | (((w >> 8) % 3) << 52)),
            4 => f64::from_bits((w & !(0x7ff << 52)) | ((2044 + (w >> 8) % 3) << 52)),
            _ => f64::from_bits(w),
        }
    }
}

fn agree(what: &str, a: f64, b: f64, got: Float64, want: f64) {
    if want.is_nan() {
        assert!(got.is_nan(), "{what}({a:e}, {b:e}) is {:e}, not NaN", g(got));
    } else {
        assert_eq!(got.to_bits(), want.to_bits(), "{what}({a:e}, {b:e}) is {:e}, not {want:e}", g(got));
    }
}

#[test]
fn sums_round_like_hardware() {
    let mut p = Patterns { state: 1 };
    for _ in 0..60_000 {
        let (a, b) = (p.number(), p.number());
        agree("plus", a, b, f(a).plus(f(b)), a + b);
        agree("minus", a, b, f(a).minus(f(b)), a - b);
    }
}

#[test]
fn sums_of_neighbours_round_like_hardware() {
    let mut p = Patterns { state: 2 };
    for _ in 0..60_000 {
        let a = p.number();
        let b = f64::from_bits(a.to_bits() ^ (p.word() & 0x8070_0000_0000_00ff));
        agree("plus", a, b, f(a).plus(f(b)), a + b);
        agree("minus", a, b, f(a).minus(f(b)), a - b);
    }
}

#[test]
fn products_round_like_hardware() {
    let mut p = Patterns { state: 3 };
    for _ in 0..60_000 {
        let (a, b) = (p.number(), p.number());
        agree("times", a, b, f(a).times(f(b)), a * b);
    }
}

#[test]
fn quotients_round_like_hardware() {
    let mut p = Patterns { state: 4 };
    for _ in 0..60_000 {
        let (a, b) = (p.number(), p.number());
        agree("over", a, b, f(a).over(f(b)), a / b);
    }
}

#[test]
fn exact_ties_go_to_even() {
    // 2^53 + 1 lies halfway between 2^53 and 2^53 + 2
    assert_eq!(g(f(9007199254740992.0).plus(f(1.0))), 9007199254740992.0);
    assert_eq!(g(f(9007199254740994.0).plus(f(1.0))), 9007199254740996.0);
    // half of the smallest number is halfway to zero
    assert_eq!(f(5e-324).times(f(0.5)).to_bits(), 0);
    assert_eq!(f(1.5e-323).times(f(0.5)).to_bits(), 2);
    assert_eq!(g(f(1.0).over(f(3.0))), 1.0 / 3.0);
    assert_eq!(g(f(f64::MAX).plus(f(f64::MAX))), f64::INFINITY);
}

#[test]
fn comparisons_agree_with_hardware() {
    let mut p = Patterns { state: 5 };
    for _ in 0..60_000 {
        let (a, b) = (p.number(), p.number());
        assert_eq!(f(a).lt(f(b)), a < b, "{a:e} < {b:e}");
        assert_eq!(f(a).le(f(b)), a <= b, "{a:e} <= {b:e}");
        assert_eq!(f(a).num_eq(f(b)), a == b, "{a:e} == {b:e}");
        assert_eq!(f(a).total_le(f(b)), a.total_cmp(&b).is_le(), "{a:e} total {b:e}");
        assert_eq!(f(a).is_nan(), a.is_nan());
        assert_eq!(f(a).is_finite(), a.is_finite());
        assert_eq!(f(a).abs().to_bits(), a.abs().to_bits());
        assert_eq!(f(a).negated().to_bits(), (-a).to_bits());
        let c = f(a).clamp(f(0.0), f(1.0));
        agree("clamp", a, b, c, a.clamp(0.0, 1.0));
    }
}

#[test]
fn extremes_agree_with_ordered_float() {
    let mut p = Patterns { state: 6 };
    for _ in 0..60_000 {
        let (a, b) = (p.number(), p.number());
        let least = std::cmp::min(OrderedFloat(a), OrderedFloat(b)).into_inner();
        let greatest = std::cmp::max(OrderedFloat(a), OrderedFloat(b)).into_inner();
        assert_eq!(f(a).min(f(b)).to_bits(), least.to_bits(), "min {a:e} {b:e}");
        assert_eq!(f(a).max(f(b)).to_bits(), greatest.to_bits(), "max {a:e} {b:e}");
        assert_eq!(f(a).nan_last_lt(f(b)), OrderedFloat(a) < OrderedFloat(b));
        assert_eq!(f(a).nan_last_eq(f(b)), OrderedFloat(a) == OrderedFloat(b));
    }
}

#[test]
fn conversions_agree_with_hardware() {
    let mut p = Patterns { state: 7 };
    for _ in 0..60_000 {
        let w = p.word() >> (p.word() % 64);
        assert_eq!(Float64::from_u64(w).to_bits(), (w as f64).to_bits(), "{w}");
        let i = (p.word() as i64) >> (p.word() % 64);
        assert_eq!(Float64::from_i64(i).to_bits(), (i as f64).to_bits(), "{i}");
        let a = p.number();
        assert_eq!(f(a).to_u64(), a as u64, "{a:e}");
        assert_eq!(f(a).to_i64(), a as i64, "{a:e}");
    }
    for n in [i64::MIN, i64::MIN + 1, -1, 0, 1, i64::MAX - 1, i64::MAX] {
        assert_eq!(Float64::from_i64(n).to_bits(), (n as f64).to_bits());
    }
    assert_eq!(Float64::from_u64(u64::MAX).to_bits(), (u64::MAX as f64).to_bits());
}

#[test]
fn singles_agree_with_hardware() {
    let mut p = Patterns { state: 8 };
    for _ in 0..60_000 {
        let w = p.word();
        let a = match w % 3 {
            0 => p.number(),
            1 => f64::from(f32::from_bits((w >> 8) as u32)),
            _ => f64::from_bits((w & !(0x7ff << 52)) | ((870 + (w >> 8) % 300) << 52)),
        };
        let s = f32::from_bits(f(a).to_single_bits());
        if a.is_nan() {
            assert!(s.is_nan());
        } else {
            assert_eq!(s.to_bits(), (a as f32).to_bits(), "{a:e}");
        }
        let bits = p.word() as u32;
        let d = Float64::from_single_bits(bits);
        if f32::from_bits(bits).is_nan() {
            assert!(d.is_nan());
        } else {
            assert_eq!(d.to_bits(), f64::from(f32::from_bits(bits)).to_bits(), "{bits:x}");
            // a binary32 number survives as binary64
            assert_eq!(d.to_single_bits(), bits);
        }
    }
}

#[test]
fn sorting_follows_the_total_order() {
    let mut p = Patterns { state: 9 };
    for n in [0usize, 1, 2, 3, 10, 1000] {
        let mut values: Vec<f64> = (0..n).map(|_| p.number()).collect();
        let given: Vec<Float64> = values.iter().map(|&x| f(x)).collect();
        let out = sort_by_total_order(&given);
        values.sort_by(|a, b| a.total_cmp(b));
        let want: Vec<u64> = values.iter().map(|x| x.to_bits()).collect();
        let got: Vec<u64> = out.iter().map(|x| x.to_bits()).collect();
        assert_eq!(got, want);
        // the order in which numbers come does not matter
        let backwards: Vec<Float64> = given.iter().rev().copied().collect();
        let again: Vec<u64> = sort_by_total_order(&backwards).iter().map(|x| x.to_bits()).collect();
        assert_eq!(again, want);
    }
}

#[test]
fn constants_are_what_they_say() {
    assert_eq!(f64::from_bits(HALF_BITS), 0.5);
    assert_eq!(f64::from_bits(ONE_BITS), 1.0);
    assert_eq!(f64::from_bits(TWO_BITS), 2.0);
    assert_eq!(f64::from_bits(TENTH_BITS), 0.10);
    assert_eq!(f64::from_bits(FIFTH_BITS), 0.2);
    assert_eq!(f64::from_bits(NINE_TENTHS_BITS), 0.90);
    assert_eq!(f64::from_bits(THOUSANDTH_BITS), 1e-3);
    assert_eq!(f64::from_bits(LEAST_DRAW_BITS), 1e-12);
    assert_eq!(f64::from_bits(MAE_FACTOR_BITS), 1200.0);
    assert_eq!(f64::from_bits(KS_FACTOR_BITS), 18.0);
    assert_eq!(f64::from_bits(TWO_TO_64_BITS), 18446744073709551616.0);
}
