//! Binary64 numbers.
//!
//! A `Float64` is the bit pattern of an IEEE 754 binary64 number. Its arithmetic is
//! carried out on integers, and each operation is specified by what the standard asks
//! for: the exact result, rounded to the nearest representable number, ties to even.
//! Where the result is not a number it is the canonical quiet NaN.
use vstd::arithmetic::div_mod::*;
use vstd::arithmetic::power2::*;
use vstd::prelude::*;

use crate::rounding;

verus! {

/// A binary64 number, held as its bit pattern.
#[derive(Clone, Copy, Debug)]
pub struct Float64 {
    pub bits: u64,
}

/// The sign bit.
pub const SIGN: u64 = 0x8000_0000_0000_0000;

/// Body of infinity; larger bodies are NaN.
pub const INF_BODY: u64 = 0x7ff0_0000_0000_0000;

/// The bit pattern of the canonical quiet NaN.
pub const NAN_BITS: u64 = 0x7ff8_0000_0000_0000;

/// The sign bit of a binary32 number.
pub const SINGLE_SIGN: u32 = 0x8000_0000;

/// Body of the binary32 infinity.
pub const SINGLE_INF_BODY: u32 = 0x7f80_0000;

/// The bit pattern of the canonical quiet binary32 NaN.
pub const SINGLE_NAN_BITS: u32 = 0x7fc0_0000;

/// The bit pattern of one half.
pub const HALF_BITS: u64 = 0x3fe0_0000_0000_0000;

/// The bit pattern of one.
pub const ONE_BITS: u64 = 0x3ff0_0000_0000_0000;

/// The bit pattern of two.
pub const TWO_BITS: u64 = 0x4000_0000_0000_0000;

impl Float64 {
    /// The sign bit is set.
    pub open spec fn negative(self) -> bool {
        self.bits >= SIGN
    }

    /// The bit pattern without its sign.
    pub open spec fn body(self) -> int {
        if self.negative() {
            self.bits - SIGN
        } else {
            self.bits as int
        }
    }

    /// Not a number.
    pub open spec fn nan(self) -> bool {
        self.body() > INF_BODY
    }

    /// Neither infinite nor NaN.
    pub open spec fn finite(self) -> bool {
        self.body() < INF_BODY
    }

    /// Positive or negative infinity.
    pub open spec fn infinite(self) -> bool {
        self.body() == INF_BODY
    }

    /// Positive or negative zero.
    pub open spec fn zero(self) -> bool {
        self.body() == 0
    }

    /// The magnitude of a finite number, in units of the smallest positive one.
    pub open spec fn magnitude(self) -> int {
        rounding::magnitude(52, self.body())
    }

    /// The value of a finite number, in units of the smallest positive one.
    pub open spec fn value(self) -> int {
        if self.negative() {
            -self.magnitude()
        } else {
            self.magnitude()
        }
    }

    /// The value of the number one, in the same units.
    pub open spec fn unit() -> int {
        pow2(1074) as int
    }

    /// The number with the given sign and body.
    pub open spec fn of(neg: bool, body: int) -> Float64 {
        Float64 {
            bits: if neg {
                (body + SIGN) as u64
            } else {
                body as u64
            },
        }
    }

    /// The quotient `num / den`, rounded, with the given sign.
    pub open spec fn rounded(neg: bool, num: int, den: int) -> Float64 {
        Self::of(neg, rounding::round(52, INF_BODY as int, num, den))
    }

    /// The canonical quiet NaN.
    pub open spec fn nan_spec() -> Float64 {
        Float64 { bits: NAN_BITS }
    }

    /// Infinity with the given sign.
    pub open spec fn infinity_spec(neg: bool) -> Float64 {
        Self::of(neg, INF_BODY as int)
    }

    /// Zero with the given sign.
    pub open spec fn zero_spec(neg: bool) -> Float64 {
        Self::of(neg, 0)
    }

    /// The number `n`, rounded.
    pub open spec fn from_int_spec(n: int) -> Float64 {
        if n < 0 {
            Self::rounded(true, -n * Self::unit(), 1)
        } else {
            Self::rounded(false, n * Self::unit(), 1)
        }
    }

    /// Position in the numeric order: both zeros are at 0, infinities at the ends.
    /// Meaningless for NaN.
    pub open spec fn ordinal(self) -> int {
        if self.negative() {
            -self.body()
        } else {
            self.body()
        }
    }

    /// Position in the total order of bit patterns: negative NaN, negative numbers, minus
    /// zero, zero, positive numbers, positive NaN.
    pub open spec fn total_rank(self) -> int {
        if self.negative() {
            -1 - self.body()
        } else {
            self.body()
        }
    }

    /// Position in the order in which every NaN is equal to every other and greater than
    /// all numbers, and the zeros are equal.
    pub open spec fn nan_last_rank(self) -> int {
        if self.nan() {
            INF_BODY + 1
        } else {
            self.ordinal()
        }
    }

    /// The numbers are equal, or both are NaN.
    pub open spec fn same(self, other: Float64) -> bool {
        self.nan_last_rank() == other.nan_last_rank()
    }

    /// `self < other`; false where one of them is NaN.
    pub open spec fn lt_spec(self, other: Float64) -> bool {
        !self.nan() && !other.nan() && self.ordinal() < other.ordinal()
    }

    /// `self == other` as numbers; false where one of them is NaN.
    pub open spec fn eq_spec(self, other: Float64) -> bool {
        !self.nan() && !other.nan() && self.ordinal() == other.ordinal()
    }

    /// `self <= other`; false where one of them is NaN.
    pub open spec fn le_spec(self, other: Float64) -> bool {
        !self.nan() && !other.nan() && self.ordinal() <= other.ordinal()
    }

    /// The number with its sign turned.
    pub open spec fn negated_spec(self) -> Float64 {
        Self::of(!self.negative(), self.body())
    }

    /// The number without its sign.
    pub open spec fn abs_spec(self) -> Float64 {
        Self::of(false, self.body())
    }

    /// The rounded sum. A sum that is exactly zero is positive unless both summands are
    /// negative.
    pub open spec fn plus_spec(self, other: Float64) -> Float64 {
        if self.nan() || other.nan() {
            Self::nan_spec()
        } else if self.infinite() {
            if other.infinite() && other.negative() != self.negative() {
                Self::nan_spec()
            } else {
                self
            }
        } else if other.infinite() {
            other
        } else {
            let s = self.value() + other.value();
            if s == 0 {
                Self::zero_spec(self.negative() && other.negative())
            } else if s < 0 {
                Self::rounded(true, -s, 1)
            } else {
                Self::rounded(false, s, 1)
            }
        }
    }

    /// The rounded difference.
    pub open spec fn minus_spec(self, other: Float64) -> Float64 {
        self.plus_spec(other.negated_spec())
    }

    /// The rounded product.
    pub open spec fn times_spec(self, other: Float64) -> Float64 {
        let neg = self.negative() != other.negative();
        if self.nan() || other.nan() {
            Self::nan_spec()
        } else if self.infinite() || other.infinite() {
            if self.zero() || other.zero() {
                Self::nan_spec()
            } else {
                Self::infinity_spec(neg)
            }
        } else {
            Self::rounded(neg, self.magnitude() * other.magnitude(), Self::unit())
        }
    }

    /// The rounded quotient.
    pub open spec fn over_spec(self, other: Float64) -> Float64 {
        let neg = self.negative() != other.negative();
        if self.nan() || other.nan() {
            Self::nan_spec()
        } else if self.infinite() {
            if other.infinite() {
                Self::nan_spec()
            } else {
                Self::infinity_spec(neg)
            }
        } else if other.infinite() {
            Self::zero_spec(neg)
        } else if other.zero() {
            if self.zero() {
                Self::nan_spec()
            } else {
                Self::infinity_spec(neg)
            }
        } else {
            Self::rounded(neg, self.magnitude() * Self::unit(), other.magnitude())
        }
    }

    /// The number cut off to an integer.
    pub open spec fn truncated(self) -> int {
        if self.negative() {
            -(self.magnitude() / Self::unit())
        } else {
            self.magnitude() / Self::unit()
        }
    }

    /// The number cut off to an integer between `lo` and `hi`; 0 for NaN.
    pub open spec fn saturated(self, lo: int, hi: int) -> int {
        if self.nan() {
            0
        } else if self.infinite() {
            if self.negative() {
                lo
            } else {
                hi
            }
        } else if self.truncated() < lo {
            lo
        } else if self.truncated() > hi {
            hi
        } else {
            self.truncated()
        }
    }

    /// The bit pattern of the nearest binary32 number. Its smallest positive number is
    /// `2^925` times that of binary64.
    pub open spec fn to_single_spec(self) -> u32 {
        if self.nan() {
            SINGLE_NAN_BITS
        } else {
            let body = if self.infinite() {
                SINGLE_INF_BODY as int
            } else {
                rounding::round(23, SINGLE_INF_BODY as int, self.magnitude(), pow2(925) as int)
            };
            if self.negative() {
                (body + SINGLE_SIGN) as u32
            } else {
                body as u32
            }
        }
    }

    /// The number that a binary32 bit pattern stands for.
    pub open spec fn from_single_spec(bits: u32) -> Float64 {
        let neg = bits >= SINGLE_SIGN;
        let body = if neg {
            bits - SINGLE_SIGN
        } else {
            bits as int
        };
        if body > SINGLE_INF_BODY {
            Self::nan_spec()
        } else if body == SINGLE_INF_BODY {
            Self::infinity_spec(neg)
        } else {
            Self::rounded(neg, rounding::magnitude(23, body) * pow2(925), 1)
        }
    }

    /// The lesser number, NaN being the greatest; the first one of equals.
    pub open spec fn min_spec(self, other: Float64) -> Float64 {
        if other.nan_last_rank() < self.nan_last_rank() {
            other
        } else {
            self
        }
    }

    /// The greater number, NaN being the greatest; the second one of equals.
    pub open spec fn max_spec(self, other: Float64) -> Float64 {
        if other.nan_last_rank() < self.nan_last_rank() {
            self
        } else {
            other
        }
    }

    /// The number, or the bound that it lies beyond.
    pub open spec fn clamp_spec(self, lo: Float64, hi: Float64) -> Float64 {
        if self.lt_spec(lo) {
            lo
        } else if hi.lt_spec(self) {
            hi
        } else {
            self
        }
    }

    /// The number with the given bit pattern.
    pub fn from_bits(bits: u64) -> (r: Float64)
        ensures
            r.bits == bits,
    {
        Float64 { bits }
    }

    /// The bit pattern.
    pub fn to_bits(self) -> (bits: u64)
        ensures
            bits == self.bits,
    {
        self.bits
    }

    fn get_body(self) -> (b: u64)
        ensures
            b == self.body(),
    {
        if self.bits >= SIGN {
            self.bits - SIGN
        } else {
            self.bits
        }
    }

    fn get_negative(self) -> (b: bool)
        ensures
            b == self.negative(),
    {
        self.bits >= SIGN
    }

    fn make(neg: bool, body: u64) -> (r: Float64)
        requires
            body < SIGN,
        ensures
            r == Self::of(neg, body as int),
            r.negative() == neg,
            r.body() == body,
    {
        if neg {
            Float64 { bits: body + SIGN }
        } else {
            Float64 { bits: body }
        }
    }

    /// Whether the number is NaN.
    pub fn is_nan(self) -> (r: bool)
        ensures
            r == self.nan(),
    {
        self.get_body() > INF_BODY
    }

    /// Whether the number is neither infinite nor NaN.
    pub fn is_finite(self) -> (r: bool)
        ensures
            r == self.finite(),
    {
        self.get_body() < INF_BODY
    }

    /// `self < other`.
    pub fn lt(self, other: Float64) -> (r: bool)
        ensures
            r == self.lt_spec(other),
    {
        if self.is_nan() || other.is_nan() {
            false
        } else if self.get_negative() {
            if other.get_negative() {
                self.get_body() > other.get_body()
            } else {
                self.get_body() > 0 || other.get_body() > 0
            }
        } else {
            !other.get_negative() && self.get_body() < other.get_body()
        }
    }

    /// `self == other` as numbers.
    pub fn num_eq(self, other: Float64) -> (r: bool)
        ensures
            r == self.eq_spec(other),
    {
        if self.is_nan() || other.is_nan() {
            false
        } else if self.get_negative() == other.get_negative() {
            self.get_body() == other.get_body()
        } else {
            self.get_body() == 0 && other.get_body() == 0
        }
    }

    /// `self <= other`.
    pub fn le(self, other: Float64) -> (r: bool)
        ensures
            r == self.le_spec(other),
    {
        self.lt(other) || self.num_eq(other)
    }

    /// Significand and scale of a finite number.
    fn get_parts(self) -> (r: (u64, u32))
        requires
            self.finite(),
        ensures
            self.magnitude() == r.0 * pow2(r.1 as nat),
            r.0 < 0x20_0000_0000_0000,
            r.1 <= 2045,
            r.1 > 0 ==> r.0 >= 0x10_0000_0000_0000,
            r.0 == 0 <==> self.zero(),
            self.body() == r.1 * 0x10_0000_0000_0000 + r.0,
    {
        let body: u64 = self.get_body();
        let exponent: u64 = body / 0x10_0000_0000_0000;
        let fraction: u64 = body % 0x10_0000_0000_0000;
        proof {
            lemma2_to64_rest();
            rounding::lemma_parts_of_body(52, body as int);
        }
        if exponent == 0 {
            (fraction, 0)
        } else {
            (fraction + 0x10_0000_0000_0000, (exponent - 1) as u32)
        }
    }

    /// A number that is located by non-negative powers of two.
    proof fn lemma_located(m: int, e: nat, inexact: bool, num: int)
        requires
            inexact ==> m * pow2(e) < num < (m + 1) * pow2(e),
            !inexact ==> num == m * pow2(e),
        ensures
            rounding::located(m, e as int, inexact, num, 1),
    {
        let k = pow2(rounding::offset()) as int;
        lemma_pow2_pos(rounding::offset());
        lemma_pow2_adds(e, rounding::offset());
        let p = pow2(e) as int;
        assert(m * (p * k * 1) == (m * p) * k) by (nonlinear_arith);
        assert((m + 1) * (p * k * 1) == ((m + 1) * p) * k) by (nonlinear_arith);
        if inexact {
            assert((m * p) * k < num * k < ((m + 1) * p) * k) by (nonlinear_arith)
                requires
                    m * p < num < (m + 1) * p,
                    0 < k,
            ;
        }
    }

    /// Rounds a located number.
    fn round(
        neg: bool,
        m: u128,
        e: i32,
        inexact: bool,
        Ghost(num): Ghost<int>,
        Ghost(den): Ghost<int>,
    ) -> (r: Float64)
        requires
            -1200 <= e <= 4000,
            m < 0x4000_0000_0000_0000_0000_0000_0000_0000,
            inexact ==> m >= 0x40_0000_0000_0000,
            0 <= num,
            0 < den,
            rounding::located(m as int, e as int, inexact, num, den),
        ensures
            r == Self::rounded(neg, num, den),
    {
        proof {
            lemma2_to64();
            lemma2_to64_rest();
            lemma_pow2_adds(63, 63);
            lemma_pow2_unfold(127);
            assert(pow2(126) == 0x4000_0000_0000_0000_0000_0000_0000_0000);
        }
        let body: u64 = rounding::round_located(52, 2047, m, e, inexact, Ghost(num), Ghost(den));
        proof {
            rounding::lemma_rounding_is_unique(52, INF_BODY as int, body as int, num, den);
        }
        Self::make(neg, body)
    }

    /// The sum of two magnitudes.
    fn add_magnitudes(neg: bool, ma: u64, ta: u32, mb: u64, tb: u32) -> (r: Float64)
        requires
            ma < 0x20_0000_0000_0000,
            mb < 0x20_0000_0000_0000,
            tb <= ta <= 2045,
            ta > 0 ==> ma >= 0x10_0000_0000_0000,
        ensures
            r == Self::rounded(neg, ma * pow2(ta as nat) + mb * pow2(tb as nat), 1),
    {
        let ghost pa = pow2(ta as nat) as int;
        let ghost pb = pow2(tb as nat) as int;
        let ghost num = ma * pa + mb * pb;
        proof {
            lemma_pow2_pos(ta as nat);
            lemma_pow2_pos(tb as nat);
            assert(0 <= num) by (nonlinear_arith)
                requires
                    num == ma * pa + mb * pb,
                    0 < pa,
                    0 < pb,
                    0 <= ma,
                    0 <= mb,
            ;
        }
        let d: u32 = ta - tb;
        if d <= 70 {
            let p: u128 = rounding::power_of_two(d);
            proof {
                Self::lemma_pow2_up_to_70(d as nat);
                assert(ma * p + mb < 0x20_0000_0000_0000 * 0x40_0000_0000_0000_0000
                    + 0x20_0000_0000_0000) by (nonlinear_arith)
                    requires
                        ma < 0x20_0000_0000_0000,
                        mb < 0x20_0000_0000_0000,
                        0 <= p <= 0x40_0000_0000_0000_0000,
                ;
                assert(0 <= ma * p) by (nonlinear_arith)
                    requires
                        0 <= ma,
                        0 <= p,
                ;
                lemma_pow2_adds(d as nat, tb as nat);
                assert((ma * p + mb) * pb == num) by (nonlinear_arith)
                    requires
                        num == ma * pa + mb * pb,
                        pa == p * pb,
                ;
            }
            let m: u128 = (ma as u128) * p + mb as u128;
            proof {
                Self::lemma_located(m as int, tb as nat, false, num);
            }
            Self::round(neg, m, tb as i32, false, Ghost(num), Ghost(1))
        } else if mb == 0 {
            proof {
                assert(num == ma * pa) by (nonlinear_arith)
                    requires
                        num == ma * pa + mb * pb,
                        mb == 0,
                ;
                Self::lemma_located(ma as int, ta as nat, false, num);
            }
            Self::round(neg, ma as u128, ta as i32, false, Ghost(num), Ghost(1))
        } else {
            let m: u128 = (ma as u128) * 0x1_0000;
            proof {
                Self::lemma_far_below(mb as int, tb as nat, ta as nat);
                let g = pow2((ta - 16) as nat) as int;
                lemma2_to64();
                lemma_pow2_adds(16, (ta - 16) as nat);
                assert(m * g == ma * pa) by (nonlinear_arith)
                    requires
                        m == ma * 0x1_0000,
                        pa == 0x1_0000 * g,
                ;
                assert((m + 1) * g == m * g + g) by (nonlinear_arith);
                Self::lemma_located(m as int, (ta - 16) as nat, true, num);
            }
            Self::round(neg, m, ta as i32 - 16, true, Ghost(num), Ghost(1))
        }
    }

    proof fn lemma_pow2_up_to_70(d: nat)
        requires
            d <= 70,
        ensures
            0 < pow2(d) <= 0x40_0000_0000_0000_0000,
    {
        lemma2_to64();
        lemma2_to64_rest();
        lemma_pow2_adds(6, 64);
        lemma_pow2_pos(d);
        if d < 70 {
            lemma_pow2_strictly_increases(d, 70);
        }
    }

    /// A significand more than 70 scales down counts for less than `2^-16` of the scale.
    proof fn lemma_far_below(mb: int, tb: nat, ta: nat)
        requires
            0 < mb < 0x20_0000_0000_0000,
            tb + 70 < ta,
        ensures
            0 < mb * pow2(tb) < pow2((ta - 16) as nat),
    {
        lemma2_to64();
        lemma2_to64_rest();
        lemma_pow2_pos(tb);
        lemma_pow2_adds(53, tb);
        lemma_pow2_strictly_increases(53 + tb, (ta - 16) as nat);
        let pb = pow2(tb) as int;
        assert(0 < mb * pb < 0x20_0000_0000_0000 * pb) by (nonlinear_arith)
            requires
                0 < mb < 0x20_0000_0000_0000,
                0 < pb,
        ;
    }

    /// The difference of two magnitudes, the larger one first.
    fn sub_magnitudes(neg: bool, ma: u64, ta: u32, mb: u64, tb: u32) -> (r: Float64)
        requires
            ma < 0x20_0000_0000_0000,
            mb < 0x20_0000_0000_0000,
            tb <= ta <= 2045,
            ta > 0 ==> ma >= 0x10_0000_0000_0000,
            ma * pow2(ta as nat) > mb * pow2(tb as nat),
        ensures
            r == Self::rounded(neg, ma * pow2(ta as nat) - mb * pow2(tb as nat), 1),
    {
        let ghost pa = pow2(ta as nat) as int;
        let ghost pb = pow2(tb as nat) as int;
        let ghost num = ma * pa - mb * pb;
        proof {
            lemma_pow2_pos(ta as nat);
            lemma_pow2_pos(tb as nat);
        }
        let d: u32 = ta - tb;
        if d <= 70 {
            let p: u128 = rounding::power_of_two(d);
            proof {
                Self::lemma_pow2_up_to_70(d as nat);
                assert(ma * p < 0x20_0000_0000_0000 * 0x40_0000_0000_0000_0000)
                    by (nonlinear_arith)
                    requires
                        ma < 0x20_0000_0000_0000,
                        0 < p <= 0x40_0000_0000_0000_0000,
                ;
                lemma_pow2_adds(d as nat, tb as nat);
                assert((ma * p - mb) * pb == num) by (nonlinear_arith)
                    requires
                        num == ma * pa - mb * pb,
                        pa == p * pb,
                ;
                assert(ma * p - mb > 0) by (nonlinear_arith)
                    requires
                        (ma * p - mb) * pb > 0,
                        pb > 0,
                ;
            }
            let m: u128 = (ma as u128) * p - mb as u128;
            proof {
                Self::lemma_located(m as int, tb as nat, false, num);
            }
            Self::round(neg, m, tb as i32, false, Ghost(num), Ghost(1))
        } else if mb == 0 {
            proof {
                assert(num == ma * pa) by (nonlinear_arith)
                    requires
                        num == ma * pa - mb * pb,
                        mb == 0,
                ;
                Self::lemma_located(ma as int, ta as nat, false, num);
            }
            Self::round(neg, ma as u128, ta as i32, false, Ghost(num), Ghost(1))
        } else {
            let m: u128 = (ma as u128) * 0x1_0000 - 1;
            proof {
                Self::lemma_far_below(mb as int, tb as nat, ta as nat);
                let g = pow2((ta - 16) as nat) as int;
                lemma2_to64();
                lemma_pow2_adds(16, (ta - 16) as nat);
                assert((m + 1) * g == ma * pa) by (nonlinear_arith)
                    requires
                        m + 1 == ma * 0x1_0000,
                        pa == 0x1_0000 * g,
                ;
                assert((m + 1) * g == m * g + g) by (nonlinear_arith);
                Self::lemma_located(m as int, (ta - 16) as nat, true, num);
            }
            Self::round(neg, m, ta as i32 - 16, true, Ghost(num), Ghost(1))
        }
    }

    /// The number with its sign turned.
    pub fn negated(self) -> (r: Float64)
        ensures
            r == self.negated_spec(),
    {
        Self::make(!self.get_negative(), self.get_body())
    }

    /// The number without its sign.
    pub fn abs(self) -> (r: Float64)
        ensures
            r == self.abs_spec(),
    {
        Self::make(false, self.get_body())
    }

    /// The rounded sum.
    pub fn plus(self, other: Float64) -> (r: Float64)
        ensures
            r == self.plus_spec(other),
    {
        if self.is_nan() || other.is_nan() {
            return Float64 { bits: NAN_BITS };
        }
        let a: u64 = self.get_body();
        let b: u64 = other.get_body();
        let na: bool = self.get_negative();
        let nb: bool = other.get_negative();
        if a == INF_BODY {
            if b == INF_BODY && na != nb {
                return Float64 { bits: NAN_BITS };
            }
            return self;
        }
        if b == INF_BODY {
            return other;
        }
        let (ma, ta) = self.get_parts();
        let (mb, tb) = other.get_parts();
        proof {
            if a < b {
                rounding::lemma_magnitude_increases(52, a as int, b as int);
            }
            if b < a {
                rounding::lemma_magnitude_increases(52, b as int, a as int);
            }
            lemma2_to64_rest();
            rounding::lemma_parts_of_body(52, 0);
            lemma2_to64();
            assert(rounding::magnitude(52, 0) == 0);
            if a > 0 {
                rounding::lemma_magnitude_increases(52, 0, a as int);
            }
            if b > 0 {
                rounding::lemma_magnitude_increases(52, 0, b as int);
            }
        }
        if na == nb {
            if a == 0 && b == 0 {
                Self::make(na, 0)
            } else if ta >= tb {
                Self::add_magnitudes(na, ma, ta, mb, tb)
            } else {
                Self::add_magnitudes(na, mb, tb, ma, ta)
            }
        } else if a == b {
            Self::make(false, 0)
        } else if a > b {
            Self::sub_magnitudes(na, ma, ta, mb, tb)
        } else {
            Self::sub_magnitudes(nb, mb, tb, ma, ta)
        }
    }

    /// The rounded difference.
    pub fn minus(self, other: Float64) -> (r: Float64)
        ensures
            r == self.minus_spec(other),
    {
        self.plus(other.negated())
    }

    /// The rounded product.
    pub fn times(self, other: Float64) -> (r: Float64)
        ensures
            r == self.times_spec(other),
    {
        if self.is_nan() || other.is_nan() {
            return Float64 { bits: NAN_BITS };
        }
        let a: u64 = self.get_body();
        let b: u64 = other.get_body();
        let neg: bool = self.get_negative() != other.get_negative();
        if a == INF_BODY || b == INF_BODY {
            if a == 0 || b == 0 {
                return Float64 { bits: NAN_BITS };
            }
            return Self::make(neg, INF_BODY);
        }
        let (ma, ta) = self.get_parts();
        let (mb, tb) = other.get_parts();
        proof {
            assert(0 <= ma * mb < 0x400_0000_0000_0000_0000_0000_0000) by (nonlinear_arith)
                requires
                    0 <= ma < 0x20_0000_0000_0000,
                    0 <= mb < 0x20_0000_0000_0000,
            ;
        }
        let m: u128 = (ma as u128) * (mb as u128);
        let e: i32 = ta as i32 + tb as i32 - 1074;
        let ghost num = self.magnitude() * other.magnitude();
        proof {
            let pa = pow2(ta as nat) as int;
            let pb = pow2(tb as nat) as int;
            let k = pow2(rounding::offset()) as int;
            let v = pow2((e + rounding::offset()) as nat) as int;
            lemma_pow2_pos(ta as nat);
            lemma_pow2_pos(tb as nat);
            lemma_pow2_pos(1074);
            lemma_pow2_adds(ta as nat, tb as nat);
            lemma_pow2_adds((ta + tb) as nat, rounding::offset());
            lemma_pow2_adds((e + rounding::offset()) as nat, 1074);
            assert(num == (ma * mb) * (pa * pb)) by (nonlinear_arith)
                requires
                    num == (ma * pa) * (mb * pb),
            ;
            assert(num * k == m * (v * Self::unit())) by (nonlinear_arith)
                requires
                    num == m * (pa * pb),
                    (pa * pb) * k == v * Self::unit(),
            ;
            assert(0 <= num) by (nonlinear_arith)
                requires
                    num == m * (pa * pb),
                    0 < pa,
                    0 < pb,
                    0 <= m,
            ;
        }
        Self::round(neg, m, e, false, Ghost(num), Ghost(Self::unit()))
    }

    /// Shifts a significand up until its leading digit is in place.
    fn normalize(m: u64) -> (r: (u64, u32))
        requires
            0 < m < 0x20_0000_0000_0000,
        ensures
            0x10_0000_0000_0000 <= r.0 < 0x20_0000_0000_0000,
            r.1 <= 52,
            r.0 == m * pow2(r.1 as nat),
    {
        let mut n: u64 = m;
        let mut k: u32 = 0;
        proof {
            lemma2_to64();
        }
        while n < 0x10_0000_0000_0000
            invariant
                0 < m,
                0 < n < 0x20_0000_0000_0000,
                k <= 52,
                n == m * pow2(k as nat),
                pow2(k as nat) <= n,
            decreases 0x20_0000_0000_0000 - n,
        {
            proof {
                lemma_pow2_unfold((k + 1) as nat);
                assert(2 * n == m * (2 * pow2(k as nat))) by (nonlinear_arith)
                    requires
                        n == m * pow2(k as nat),
                ;
                if k >= 52 {
                    lemma2_to64_rest();
                }
            }
            n = 2 * n;
            k = k + 1;
        }
        (n, k)
    }

    /// The rounded quotient.
    pub fn over(self, other: Float64) -> (r: Float64)
        ensures
            r == self.over_spec(other),
    {
        if self.is_nan() || other.is_nan() {
            return Float64 { bits: NAN_BITS };
        }
        let a: u64 = self.get_body();
        let b: u64 = other.get_body();
        let neg: bool = self.get_negative() != other.get_negative();
        if a == INF_BODY {
            if b == INF_BODY {
                return Float64 { bits: NAN_BITS };
            }
            return Self::make(neg, INF_BODY);
        }
        if b == INF_BODY {
            return Self::make(neg, 0);
        }
        if b == 0 {
            if a == 0 {
                return Float64 { bits: NAN_BITS };
            }
            return Self::make(neg, INF_BODY);
        }
        let (ma, ta) = self.get_parts();
        let (mb, tb) = other.get_parts();
        let ghost num = self.magnitude() * Self::unit();
        let ghost den = other.magnitude();
        proof {
            lemma_pow2_pos(ta as nat);
            lemma_pow2_pos(tb as nat);
            lemma_pow2_pos(1074);
            assert(0 < den) by (nonlinear_arith)
                requires
                    den == mb * pow2(tb as nat),
                    0 < mb,
                    0 < pow2(tb as nat),
            ;
            assert(0 <= num) by (nonlinear_arith)
                requires
                    num == (ma * pow2(ta as nat)) * Self::unit(),
                    0 <= ma,
                    0 < pow2(ta as nat),
                    0 < Self::unit(),
            ;
        }
        if ma == 0 {
            proof {
                assert(num == 0) by (nonlinear_arith)
                    requires
                        num == (ma * pow2(ta as nat)) * Self::unit(),
                        ma == 0,
                ;
                let u = pow2(rounding::offset()) * den;
                assert(0 * u == 0 * pow2(rounding::offset())) by (nonlinear_arith);
            }
            return Self::round(neg, 0, 0, false, Ghost(num), Ghost(den));
        }
        let (na, ka) = Self::normalize(ma);
        let (nb, kb) = Self::normalize(mb);
        let dividend: u128 = (na as u128) * 0x80_0000_0000_0000;
        let divisor: u128 = nb as u128;
        let q: u128 = dividend / divisor;
        let rem: u128 = dividend % divisor;
        let e: i32 = ta as i32 - ka as i32 - tb as i32 + kb as i32 + 1019;
        proof {
            lemma_fundamental_div_mod(dividend as int, divisor as int);
            lemma_mod_bound(dividend as int, divisor as int);
            assert(dividend == q * nb + rem) by (nonlinear_arith)
                requires
                    dividend == divisor * q + rem,
                    divisor == nb,
            ;
            assert(0x40_0000_0000_0000 <= q < 0x100_0000_0000_0000) by (nonlinear_arith)
                requires
                    dividend == q * nb + rem,
                    dividend == na * 0x80_0000_0000_0000,
                    0 <= rem < nb,
                    0x10_0000_0000_0000 <= na < 0x20_0000_0000_0000,
                    0x10_0000_0000_0000 <= nb < 0x20_0000_0000_0000,
            ;
            Self::lemma_quotient_located(
                ma as int,
                ta as nat,
                ka as nat,
                mb as int,
                tb as nat,
                kb as nat,
                q as int,
                rem as int,
            );
        }
        Self::round(neg, q, e, rem != 0, Ghost(num), Ghost(den))
    }

    /// Dividing normalized significands locates the quotient.
    proof fn lemma_quotient_located(
        ma: int,
        ta: nat,
        ka: nat,
        mb: int,
        tb: nat,
        kb: nat,
        q: int,
        rem: int,
    )
        requires
            ka <= 52,
            kb <= 52,
            ta <= 2045,
            tb <= 2045,
            (ma * pow2(ka)) * 0x80_0000_0000_0000 == q * (mb * pow2(kb)) + rem,
            0 <= rem < mb * pow2(kb),
        ensures
            rounding::located(
                q,
                ta - ka - tb + kb + 1019,
                rem != 0,
                (ma * pow2(ta)) * Self::unit(),
                mb * pow2(tb),
            ),
    {
        let o = rounding::offset();
        let e = ta - ka - tb + kb + 1019;
        let v = pow2((e + o) as nat) as int;
        let pa = pow2(ta) as int;
        let pb = pow2(tb) as int;
        let na = ma * pow2(ka);
        let nb = mb * pow2(kb);
        let y = pow2((ta - ka + 2219) as nat) as int;
        lemma_pow2_pos((ta - ka + 2219) as nat);
        lemma2_to64_rest();
        // divisor side: v * 2^tb == 2^kb * y
        lemma_pow2_adds((e + o) as nat, tb);
        lemma_pow2_adds(kb, (ta - ka + 2219) as nat);
        assert(v * pb == pow2(kb) * y);
        assert(forall|x: int| #[trigger] (x * (v * (mb * pb))) == x * nb * y) by {
            assert forall|x: int| #[trigger] (x * (v * (mb * pb))) == x * nb * y by {
                assert(x * (v * (mb * pb)) == x * mb * (v * pb)) by (nonlinear_arith);
                assert(x * mb * (pow2(kb) * y) == x * (mb * pow2(kb)) * y) by (nonlinear_arith);
            }
        }
        // dividend side: 2^ta * 2^1074 * 2^1200 == 2^ka * 2^55 * y
        lemma_pow2_adds(1074, o);
        lemma_pow2_adds(ta, (1074 + o) as nat);
        lemma_pow2_adds(ka, 55);
        lemma_pow2_adds((ka + 55) as nat, (ta - ka + 2219) as nat);
        assert(pow2(55) == 0x80_0000_0000_0000);
        let n = (ma * pa) * Self::unit() * pow2(o);
        assert(n == na * 0x80_0000_0000_0000 * y) by (nonlinear_arith)
            requires
                n == (ma * pa) * Self::unit() * pow2(o),
                pa * (Self::unit() * pow2(o)) == (pow2(ka) * 0x80_0000_0000_0000) * y,
                na == ma * pow2(ka),
        ;
        assert(n == q * nb * y + rem * y) by (nonlinear_arith)
            requires
                n == na * 0x80_0000_0000_0000 * y,
                na * 0x80_0000_0000_0000 == q * nb + rem,
        ;
        assert((q + 1) * nb * y == q * nb * y + nb * y) by (nonlinear_arith);
        assert(rem * y < nb * y) by (nonlinear_arith)
            requires
                rem < nb,
                0 < y,
        ;
        if rem != 0 {
            assert(0 < rem * y) by (nonlinear_arith)
                requires
                    0 < rem,
                    0 < y,
            ;
        } else {
            assert(rem * y == 0) by (nonlinear_arith)
                requires
                    rem == 0,
            ;
        }
        assert(q * (v * (mb * pb)) == q * nb * y);
        assert((q + 1) * (v * (mb * pb)) == (q + 1) * nb * y);
    }

    /// An integer as a number.
    pub fn from_u64(n: u64) -> (r: Float64)
        ensures
            r == Self::from_int_spec(n as int),
    {
        proof {
            lemma_pow2_pos(1074);
            Self::lemma_located(n as int, 1074, false, n * Self::unit());
            assert(0 <= n * Self::unit()) by (nonlinear_arith)
                requires
                    0 <= n,
                    0 < Self::unit(),
            ;
        }
        Self::round(false, n as u128, 1074, false, Ghost(n * Self::unit()), Ghost(1))
    }

    /// A signed integer as a number.
    pub fn from_i64(n: i64) -> (r: Float64)
        ensures
            r == Self::from_int_spec(n as int),
    {
        if n < 0 {
            let m: u64 = (-(n as i128)) as u64;
            proof {
                lemma_pow2_pos(1074);
                Self::lemma_located(m as int, 1074, false, m * Self::unit());
                assert(0 <= m * Self::unit()) by (nonlinear_arith)
                    requires
                        0 <= m,
                        0 < Self::unit(),
                ;
            }
            Self::round(true, m as u128, 1074, false, Ghost(m * Self::unit()), Ghost(1))
        } else {
            Self::from_u64(n as u64)
        }
    }

    /// The magnitude cut off to an integer, at most `2^64`.
    fn truncated_magnitude(self) -> (r: u128)
        requires
            self.finite(),
        ensures
            self.magnitude() / Self::unit() < 0x1_0000_0000_0000_0000 ==> r == self.magnitude()
                / Self::unit(),
            self.magnitude() / Self::unit() >= 0x1_0000_0000_0000_0000 ==> r
                == 0x1_0000_0000_0000_0000,
    {
        let (m, t) = self.get_parts();
        let ghost u = Self::unit();
        let ghost p = pow2(t as nat) as int;
        proof {
            lemma_pow2_pos(1074);
            lemma_pow2_pos(t as nat);
        }
        if t >= 1074 {
            let d: u32 = t - 1074;
            proof {
                lemma_pow2_pos(d as nat);
                lemma_pow2_adds(d as nat, 1074);
                assert(m * p == (m * pow2(d as nat)) * u) by (nonlinear_arith)
                    requires
                        p == pow2(d as nat) * u,
                ;
                lemma_div_multiples_vanish(m * pow2(d as nat), u);
                assert(self.magnitude() == u * (m * pow2(d as nat))) by (nonlinear_arith)
                    requires
                        self.magnitude() == (m * pow2(d as nat)) * u,
                ;
            }
            if d >= 12 {
                proof {
                    lemma2_to64();
                    if d > 12 {
                        lemma_pow2_strictly_increases(12, d as nat);
                    }
                    assert(m * pow2(d as nat) >= 0x1_0000_0000_0000_0000) by (nonlinear_arith)
                        requires
                            m >= 0x10_0000_0000_0000,
                            pow2(d as nat) >= 0x1000,
                    ;
                }
                0x1_0000_0000_0000_0000
            } else {
                let f: u128 = rounding::power_of_two(d);
                proof {
                    lemma2_to64();
                    lemma_pow2_strictly_increases(d as nat, 12);
                    assert(m * f < 0x20_0000_0000_0000 * 0x1000) by (nonlinear_arith)
                        requires
                            m < 0x20_0000_0000_0000,
                            0 < f < 0x1000,
                    ;
                }
                let r: u128 = (m as u128) * f;
                if r >= 0x1_0000_0000_0000_0000 {
                    0x1_0000_0000_0000_0000
                } else {
                    r
                }
            }
        } else {
            let d: u32 = 1074 - t;
            proof {
                lemma_pow2_pos(d as nat);
                lemma_pow2_adds(d as nat, t as nat);
                // (m * p) / (2^d * p) == m / 2^d
                assert(m * p == p * m) by (nonlinear_arith);
                assert(u == p * pow2(d as nat)) by (nonlinear_arith)
                    requires
                        u == pow2(d as nat) * p,
                ;
                lemma_div_denominator(p * m, p, pow2(d as nat) as int);
                lemma_div_multiples_vanish(m as int, p);
                lemma_div_pos_is_pos(m as int, pow2(d as nat) as int);
                lemma_div_is_ordered_by_denominator(m as int, 1, pow2(d as nat) as int);
                assert(m as int / 1 == m);
            }
            if d >= 53 {
                proof {
                    lemma2_to64_rest();
                    if d > 53 {
                        lemma_pow2_strictly_increases(53, d as nat);
                    }
                    lemma_basic_div(m as int, pow2(d as nat) as int);
                }
                0
            } else {
                let f: u128 = rounding::power_of_two(d);
                (m as u128) / f
            }
        }
    }

    /// The number cut off to an unsigned integer.
    pub fn to_u64(self) -> (r: u64)
        ensures
            r == self.saturated(0, u64::MAX as int),
    {
        if self.is_nan() {
            return 0;
        }
        if self.get_body() == INF_BODY {
            return if self.get_negative() {
                0
            } else {
                u64::MAX
            };
        }
        let n: u128 = self.truncated_magnitude();
        proof {
            lemma_pow2_pos(1074);
            self.lemma_magnitude_is_not_negative();
            lemma_div_pos_is_pos(self.magnitude(), Self::unit());
        }
        if self.get_negative() {
            0
        } else if n > u64::MAX as u128 {
            u64::MAX
        } else {
            n as u64
        }
    }

    pub proof fn lemma_magnitude_is_not_negative(self)
        ensures
            self.magnitude() >= 0,
    {
        rounding::lemma_magnitude_increases(52, self.body(), self.body() + 1);
    }

    /// The number cut off to a signed integer.
    pub fn to_i64(self) -> (r: i64)
        ensures
            r == self.saturated(i64::MIN as int, i64::MAX as int),
    {
        if self.is_nan() {
            return 0;
        }
        if self.get_body() == INF_BODY {
            return if self.get_negative() {
                i64::MIN
            } else {
                i64::MAX
            };
        }
        let n: u128 = self.truncated_magnitude();
        proof {
            lemma_pow2_pos(1074);
            self.lemma_magnitude_is_not_negative();
            lemma_div_pos_is_pos(self.magnitude(), Self::unit());
        }
        if self.get_negative() {
            if n > 0x7fff_ffff_ffff_ffff {
                i64::MIN
            } else {
                -(n as i64)
            }
        } else if n > 0x7fff_ffff_ffff_ffff {
            i64::MAX
        } else {
            n as i64
        }
    }

    /// The canonical quiet NaN.
    pub fn nan_value() -> (r: Float64)
        ensures
            r == Self::nan_spec(),
    {
        Float64 { bits: NAN_BITS }
    }

    /// Infinity with the given sign.
    pub fn infinity(neg: bool) -> (r: Float64)
        ensures
            r == Self::infinity_spec(neg),
    {
        Self::make(neg, INF_BODY)
    }

    /// Whether the number comes before `other` in the order in which NaN is last.
    pub fn nan_last_lt(self, other: Float64) -> (r: bool)
        ensures
            r == (self.nan_last_rank() < other.nan_last_rank()),
    {
        if self.is_nan() {
            false
        } else if other.is_nan() {
            true
        } else {
            self.lt(other)
        }
    }

    /// Whether the numbers are equal, or both are NaN.
    pub fn nan_last_eq(self, other: Float64) -> (r: bool)
        ensures
            r == self.same(other),
    {
        if self.is_nan() || other.is_nan() {
            self.is_nan() && other.is_nan()
        } else {
            self.num_eq(other)
        }
    }

    /// The lesser number, NaN being the greatest; the first one of equals.
    pub fn min(self, other: Float64) -> (r: Float64)
        ensures
            r == self.min_spec(other),
    {
        if other.nan_last_lt(self) {
            other
        } else {
            self
        }
    }

    /// The greater number, NaN being the greatest; the second one of equals.
    pub fn max(self, other: Float64) -> (r: Float64)
        ensures
            r == self.max_spec(other),
    {
        if other.nan_last_lt(self) {
            self
        } else {
            other
        }
    }

    /// The number, or the bound that it lies beyond.
    pub fn clamp(self, lo: Float64, hi: Float64) -> (r: Float64)
        ensures
            r == self.clamp_spec(lo, hi),
    {
        if self.lt(lo) {
            lo
        } else if hi.lt(self) {
            hi
        } else {
            self
        }
    }

    /// Whether the number comes before `other`, or is the same, in the total order.
    pub fn total_le(self, other: Float64) -> (r: bool)
        ensures
            r == (self.total_rank() <= other.total_rank()),
    {
        if self.get_negative() {
            !other.get_negative() || self.get_body() >= other.get_body()
        } else {
            !other.get_negative() && self.get_body() <= other.get_body()
        }
    }

    /// The bit pattern of the nearest binary32 number.
    pub fn to_single_bits(self) -> (r: u32)
        ensures
            r == self.to_single_spec(),
    {
        if self.is_nan() {
            return SINGLE_NAN_BITS;
        }
        let body: u64 = if self.get_body() == INF_BODY {
            SINGLE_INF_BODY as u64
        } else {
            let (m, t) = self.get_parts();
            let ghost num = self.magnitude();
            let ghost den = pow2(925) as int;
            let e: i32 = t as i32 - 925;
            proof {
                let k = pow2(rounding::offset()) as int;
                let v = pow2((e + rounding::offset()) as nat) as int;
                lemma_pow2_pos(925);
                lemma_pow2_adds(t as nat, rounding::offset());
                lemma_pow2_adds((e + rounding::offset()) as nat, 925);
                assert(num * k == m * (v * den)) by (nonlinear_arith)
                    requires
                        num == m * pow2(t as nat),
                        pow2(t as nat) * k == v * den,
                ;
                self.lemma_magnitude_is_not_negative();
                lemma2_to64();
                lemma2_to64_rest();
                lemma_pow2_strictly_increases(53, 127);
            }
            let b: u64 = rounding::round_located(23, 255, m as u128, e, false, Ghost(num), Ghost(den));
            proof {
                rounding::lemma_rounding_is_unique(23, SINGLE_INF_BODY as int, b as int, num, den);
            }
            b
        };
        if self.get_negative() {
            body as u32 + SINGLE_SIGN
        } else {
            body as u32
        }
    }

    /// The number that a binary32 bit pattern stands for.
    pub fn from_single_bits(bits: u32) -> (r: Float64)
        ensures
            r == Self::from_single_spec(bits),
    {
        let neg: bool = bits >= SINGLE_SIGN;
        let body: u32 = if neg {
            bits - SINGLE_SIGN
        } else {
            bits
        };
        if body > SINGLE_INF_BODY {
            return Float64 { bits: NAN_BITS };
        }
        if body == SINGLE_INF_BODY {
            return Self::make(neg, INF_BODY);
        }
        let exponent: u32 = body / 0x80_0000;
        let fraction: u32 = body % 0x80_0000;
        proof {
            lemma2_to64();
            lemma2_to64_rest();
            rounding::lemma_parts_of_body(23, body as int);
        }
        let (m, t): (u32, u32) = if exponent == 0 {
            (fraction, 0)
        } else {
            (fraction + 0x80_0000, exponent - 1)
        };
        let ghost num = rounding::magnitude(23, body as int) * pow2(925);
        proof {
            assert(rounding::magnitude(23, body as int) == m * pow2(t as nat));
            lemma_pow2_pos((t + 925) as nat);
            lemma_pow2_adds(t as nat, 925);
            assert(num == m * (pow2(t as nat) * pow2(925))) by (nonlinear_arith)
                requires
                    num == (m * pow2(t as nat)) * pow2(925),
            ;
            Self::lemma_located(m as int, (t + 925) as nat, false, num);
            assert(0 <= num) by (nonlinear_arith)
                requires
                    num == m * pow2((t + 925) as nat),
                    0 <= m,
                    0 < pow2((t + 925) as nat),
            ;
        }
        Self::round(neg, m as u128, t as i32 + 925, false, Ghost(num), Ghost(1))
    }
}

} // verus!
