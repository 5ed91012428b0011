//! What a table keeps of a digest that is written and read back.
use vstd::arithmetic::div_mod::*;
use vstd::arithmetic::power2::*;
use vstd::prelude::*;

use crate::centroid::Centroid;
use crate::codecs;
use crate::codecs::{Cell, CentroidCell, DigestFields, FieldsModel, RowParts};
use crate::digest::{DigestView, Parts, TDigest};
use crate::exact;
use crate::float::{Float64, INF_BODY, SINGLE_INF_BODY, SINGLE_SIGN};
use crate::merges::NormalizedStream;
use crate::policy::SingletonPolicy;
use crate::rounding;
use crate::scale::ScaleFamily;

verus! {

/// An integer between `lo` and `hi`, other than negative zero.
pub open spec fn is_integer(w: Float64, lo: int, hi: int) -> bool {
    &&& w.finite()
    &&& w != Float64::zero_spec(true)
    &&& w.value() == w.truncated() * Float64::unit()
    &&& lo <= w.truncated() <= hi
}

/// An integer that 64 bits with a sign hold.
pub open spec fn is_long(w: Float64) -> bool {
    is_integer(w, i64::MIN as int, i64::MAX as int)
}

/// The centroids without their marks.
pub open spec fn unmarked(centroids: Seq<Centroid>) -> Seq<Centroid> {
    centroids.map_values(|c: Centroid| Centroid { singleton: false, ..c })
}

/// The number, rounded to binary32.
pub open spec fn single_rounded(x: Float64) -> Float64 {
    Float64::from_single_spec(x.to_single_spec())
}

/// The centroids without their marks, with their means rounded to binary32.
pub open spec fn narrowed(centroids: Seq<Centroid>) -> Seq<Centroid> {
    centroids.map_values(
        |c: Centroid|
            Centroid { mean: single_rounded(c.mean), weight: c.weight, singleton: false },
    )
}

/// An integer survives being written as one.
proof fn lemma_integer_survives(w: Float64)
    requires
        is_long(w),
    ensures
        w.saturated(i64::MIN as int, i64::MAX as int) == w.truncated(),
        Float64::from_int_spec(w.truncated()) == w,
{
    let n = w.truncated();
    let u = Float64::unit();
    let m = w.magnitude();
    lemma_pow2_pos(1074);
    exact::lemma_zero_magnitude();
    w.lemma_magnitude_is_not_negative();
    lemma_div_pos_is_pos(m, u);
    rounding::lemma_representable_rounds_to_itself(52, INF_BODY as int, w.body(), 1);
    if w.negative() {
        assert(w.body() > 0);
        rounding::lemma_magnitude_increases(52, 0, w.body());
        assert(n < 0) by (nonlinear_arith)
            requires
                -m == n * u,
                0 < m,
                0 < u,
        ;
        assert(-n * u == m * 1) by (nonlinear_arith)
            requires
                -m == n * u,
        ;
    } else {
        assert(n * u == m * 1);
    }
    exact::lemma_same(Float64::from_int_spec(n), w);
}

/// A capacity survives being written as a signed integer.
proof fn lemma_capacity_survives(n: usize)
    ensures
        (n as i64) as usize == n,
{
    assert((n as i64) as usize == n) by (bit_vector);
}

/// A list of cells reads as the centroids that were written to it.
proof fn lemma_listed(cells: Seq<CentroidCell>, centroids: Seq<Centroid>)
    requires
        cells.len() == centroids.len(),
        forall|i: int|
            0 <= i < cells.len() ==> (#[trigger] cells[i]).mean.number_spec() == Some(
                centroids[i].mean,
            ) && cells[i].weight.number_spec() == Some(centroids[i].weight)
                && !centroids[i].singleton,
    ensures
        codecs::listed(cells) == centroids,
    decreases cells.len(),
{
    if cells.len() > 0 {
        let front = cells.drop_last();
        let earlier = centroids.drop_last();
        assert forall|i: int| 0 <= i < front.len() implies (
        #[trigger] front[i]).mean.number_spec() == Some(earlier[i].mean)
            && front[i].weight.number_spec() == Some(earlier[i].weight)
            && !earlier[i].singleton by {
            assert(front[i] == cells[i]);
        }
        lemma_listed(front, earlier);
        assert(cells.last() == cells[cells.len() - 1]);
        assert(earlier.push(centroids.last()) =~= centroids);
    } else {
        assert(centroids =~= Seq::<Centroid>::empty());
    }
}

/// The canonical form is lossless: a digest whose weights and count are integers reads
/// back with all its numbers. Marks of singletons and settings other than the capacity are
/// not written.
pub proof fn law_canonical_form_is_lossless(d: DigestView)
    requires
        forall|i: int| 0 <= i < d.centroids.len() ==> is_long((#[trigger] d.centroids[i]).weight),
        is_long(d.count),
    ensures
        codecs::canonical(d).strict(),
        codecs::canonical(d).rows() == 1,
        codecs::canonical(d).parts(0) == (Parts {
            centroids: unmarked(d.centroids),
            sum: d.sum,
            count: d.count,
            max: d.max,
            min: d.min,
            max_size: d.max_size,
        }),
{
    let f = codecs::canonical(d);
    let cells = f.centroids->0[0]->0;
    let out = unmarked(d.centroids);
    assert forall|i: int| 0 <= i < cells.len() implies (#[trigger] cells[i]).mean.number_spec()
        == Some(out[i].mean) && cells[i].weight.number_spec() == Some(out[i].weight)
        && !out[i].singleton by {
        assert(is_long(d.centroids[i].weight));
        lemma_integer_survives(d.centroids[i].weight);
    }
    lemma_listed(cells, out);
    lemma_integer_survives(d.count);
    lemma_capacity_survives(d.max_size);
    assert(f.parts(0).centroids == out);
    assert(f.strict_row(0));
}

/// A digest within its capacity that is written in the canonical form and read back is the
/// same, but for its marks and for the settings that are not written.
pub proof fn law_written_digest_reads_back<C>(d: DigestView, compress: C, r: TDigest) where
    C: Fn(TDigest, usize, NormalizedStream) -> TDigest,

    requires
        forall|i: int| 0 <= i < d.centroids.len() ==> is_long((#[trigger] d.centroids[i]).weight),
        is_long(d.count),
        d.centroids.len() <= d.max_size,
        codecs::canonical(d).parts(0).constructed(compress, r),
    ensures
        r@ == (DigestView {
            centroids: unmarked(d.centroids),
            scale: ScaleFamily::K2,
            policy: SingletonPolicy::Use,
            ..d
        }),
{
    law_canonical_form_is_lossless(d);
}

/// The compact form keeps sum, count, capacity and every weight that is an integer of at
/// most `2^32 - 1`; means and extremes are rounded to binary32.
pub proof fn law_compact_form_keeps_counts(d: DigestView)
    requires
        forall|i: int|
            0 <= i < d.centroids.len() ==> is_integer(
                (#[trigger] d.centroids[i]).weight,
                0,
                u32::MAX as int,
            ),
        is_long(d.count),
    ensures
        codecs::compact(d).strict(),
        codecs::compact(d).rows() == 1,
        codecs::compact(d).parts(0) == (Parts {
            centroids: narrowed(d.centroids),
            sum: d.sum,
            count: d.count,
            max: single_rounded(d.max),
            min: single_rounded(d.min),
            max_size: d.max_size,
        }),
{
    let f = codecs::compact(d);
    let cells = f.centroids->0[0]->0;
    let out = narrowed(d.centroids);
    assert forall|i: int| 0 <= i < cells.len() implies (#[trigger] cells[i]).mean.number_spec()
        == Some(out[i].mean) && cells[i].weight.number_spec() == Some(out[i].weight)
        && !out[i].singleton by {
        let w = d.centroids[i].weight;
        assert(is_integer(w, 0, u32::MAX as int));
        lemma_integer_survives(w);
    }
    lemma_listed(cells, out);
    lemma_integer_survives(d.count);
    lemma_capacity_survives(d.max_size);
    assert(f.parts(0).centroids == out);
    assert(f.strict_row(0));
}

/// A digest within its capacity that is written in the compact form and read back has its
/// counts and sum; its means and extremes are rounded to binary32.
pub proof fn law_compact_digest_reads_back<C>(d: DigestView, compress: C, r: TDigest) where
    C: Fn(TDigest, usize, NormalizedStream) -> TDigest,

    requires
        forall|i: int|
            0 <= i < d.centroids.len() ==> is_integer(
                (#[trigger] d.centroids[i]).weight,
                0,
                u32::MAX as int,
            ),
        is_long(d.count),
        d.centroids.len() <= d.max_size,
        codecs::compact(d).parts(0).constructed(compress, r),
    ensures
        r@ == (DigestView {
            centroids: narrowed(d.centroids),
            max: single_rounded(d.max),
            min: single_rounded(d.min),
            scale: ScaleFamily::K2,
            policy: SingletonPolicy::Use,
            ..d
        }),
{
    law_compact_form_keeps_counts(d);
}

/// A binary32 number survives as binary64.
pub proof fn law_single_survives(bits: u32)
    requires
        bits <= SINGLE_INF_BODY || SINGLE_SIGN <= bits <= SINGLE_SIGN + SINGLE_INF_BODY,
    ensures
        Float64::from_single_spec(bits).to_single_spec() == bits,
{
    let neg = bits >= SINGLE_SIGN;
    let body = if neg {
        bits - SINGLE_SIGN
    } else {
        bits as int
    };
    let x = Float64::from_single_spec(bits);
    if body < SINGLE_INF_BODY {
        let m = rounding::magnitude(23, body);
        let q = rounding::significand_of(23, body);
        let t = rounding::scale_of(23, body);
        lemma2_to64();
        rounding::lemma_parts_of_body(23, body);
        assert(t <= 253) by {
            lemma_fundamental_div_mod(body, 0x80_0000);
        }
        lemma_pow2_pos(925);
        lemma_pow2_adds(t, 925);
        let b = exact::lemma_representable(q, t + 925);
        assert(m * pow2(925) == q * pow2(t + 925)) by (nonlinear_arith)
            requires
                m == q * pow2(t),
                pow2(t + 925) == pow2(t) * pow2(925),
        ;
        rounding::lemma_representable_rounds_to_itself(
            52,
            INF_BODY as int,
            b,
            1,
        );
        assert(rounding::magnitude(52, b) * 1 == m * pow2(925));
        exact::lemma_of(neg, b);
        rounding::lemma_representable_rounds_to_itself(
            23,
            SINGLE_INF_BODY as int,
            body,
            pow2(925) as int,
        );
    } else {
        exact::lemma_of(neg, INF_BODY as int);
    }
}

/// Row `i` of a column, as a column of its own.
pub open spec fn row_of(column: Option<Seq<Cell>>, i: int) -> Option<Seq<Cell>> {
    match column {
        Some(cells) => Some(
            if 0 <= i < cells.len() {
                seq![cells[i]]
            } else {
                Seq::empty()
            },
        ),
        None => None,
    }
}

/// Row `i` of a column of lists, as a column of its own.
pub open spec fn list_of(
    column: Option<Seq<Option<Seq<CentroidCell>>>>,
    i: int,
) -> Option<Seq<Option<Seq<CentroidCell>>>> {
    match column {
        Some(lists) => Some(
            if 0 <= i < lists.len() {
                seq![lists[i]]
            } else {
                Seq::empty()
            },
        ),
        None => None,
    }
}

/// The table that holds only row `i` of each column.
pub open spec fn only_row(f: FieldsModel, i: int) -> FieldsModel {
    FieldsModel {
        centroids: list_of(f.centroids, i),
        sum: row_of(f.sum, i),
        min: row_of(f.min, i),
        max: row_of(f.max, i),
        count: row_of(f.count, i),
        max_size: row_of(f.max_size, i),
    }
}

/// What is read for a row is what is read for the one row of the table that holds nothing
/// else: every part comes from that row of its column.
pub proof fn law_each_row_is_read_by_itself(f: FieldsModel, i: int)
    requires
        0 <= i,
    ensures
        f.parts(i) == only_row(f, i).parts(0),
{
    assert(f.parts(i) =~= only_row(f, i).parts(0));
}

/// The canonical forms of digests, one below the other.
pub open spec fn stacked(digests: Seq<DigestView>) -> FieldsModel {
    FieldsModel {
        centroids: Some(digests.map_values(|d: DigestView| codecs::canonical(d).centroids->0[0])),
        sum: Some(digests.map_values(|d: DigestView| codecs::canonical(d).sum->0[0])),
        min: Some(digests.map_values(|d: DigestView| codecs::canonical(d).min->0[0])),
        max: Some(digests.map_values(|d: DigestView| codecs::canonical(d).max->0[0])),
        count: Some(digests.map_values(|d: DigestView| codecs::canonical(d).count->0[0])),
        max_size: Some(digests.map_values(|d: DigestView| codecs::canonical(d).max_size->0[0])),
    }
}

/// Digests that are written one below the other are read back each from its row.
pub proof fn law_stacked_digests_read_back(digests: Seq<DigestView>, i: int)
    requires
        0 <= i < digests.len(),
        forall|k: int|
            0 <= k < digests[i].centroids.len() ==> is_long(
                (#[trigger] digests[i].centroids[k]).weight,
            ),
        is_long(digests[i].count),
    ensures
        stacked(digests).rows() == digests.len(),
        stacked(digests).parts(i) == (Parts {
            centroids: unmarked(digests[i].centroids),
            sum: digests[i].sum,
            count: digests[i].count,
            max: digests[i].max,
            min: digests[i].min,
            max_size: digests[i].max_size,
        }),
{
    let f = stacked(digests);
    let d = digests[i];
    let one = codecs::canonical(d);
    law_each_row_is_read_by_itself(f, i);
    assert(only_row(f, i).centroids->0 =~= one.centroids->0);
    assert(only_row(f, i).sum->0 =~= one.sum->0);
    assert(only_row(f, i).min->0 =~= one.min->0);
    assert(only_row(f, i).max->0 =~= one.max->0);
    assert(only_row(f, i).count->0 =~= one.count->0);
    assert(only_row(f, i).max_size->0 =~= one.max_size->0);
    assert(only_row(f, i) =~= one);
    law_canonical_form_is_lossless(d);
}

/// The number `x` is what a cell says; 0 where it says nothing.
pub open spec fn reads_as(cell: Cell, x: Float64) -> bool {
    match cell {
        Cell::Null => x == Float64::zero_spec(false),
        Cell::Double(y) => x == y,
        Cell::Single(bits) => x == Float64::from_single_spec(bits),
        Cell::Int(n) => x == Float64::from_int_spec(n as int),
        Cell::Unsigned(n) => x == Float64::from_int_spec(n as int),
    }
}

/// Sum and extremes of a row are what the cells of the columns of these names say, whatever
/// the other columns hold; 0 where there is no such cell.
pub proof fn law_numbers_are_read_from_their_columns(f: FieldsModel, i: int)
    ensures
        f.sum matches Some(column) && 0 <= i < column.len() ==> reads_as(
            f.sum->0[i],
            f.parts(i).sum,
        ),
        f.min matches Some(column) && 0 <= i < column.len() ==> reads_as(
            f.min->0[i],
            f.parts(i).min,
        ),
        f.max matches Some(column) && 0 <= i < column.len() ==> reads_as(
            f.max->0[i],
            f.parts(i).max,
        ),
        !(f.sum matches Some(column) && 0 <= i < column.len()) ==> f.parts(i).sum
            == Float64::zero_spec(false),
        !(f.min matches Some(column) && 0 <= i < column.len()) ==> f.parts(i).min
            == Float64::zero_spec(false),
        !(f.max matches Some(column) && 0 <= i < column.len()) ==> f.parts(i).max
            == Float64::zero_spec(false),
{
}

/// `n` is the number `x` with its fraction cut off, or the bound that it lies beyond; 0
/// where `x` is NaN.
pub open spec fn cut_off(x: Float64, lo: int, hi: int, n: int) -> bool {
    let u = Float64::unit();
    if x.nan() {
        n == 0
    } else if x.infinite() {
        n == if x.negative() {
            lo
        } else {
            hi
        }
    } else if (hi + 1) * u <= x.value() {
        n == hi
    } else if x.value() <= (lo - 1) * u {
        n == lo
    } else if 0 <= x.value() {
        n * u <= x.value() < (n + 1) * u
    } else {
        (n - 1) * u < x.value() <= n * u
    }
}

/// Saturating conversion cuts off the fraction.
pub proof fn law_saturation_cuts_off(x: Float64, lo: int, hi: int)
    requires
        lo <= 0 < hi,
    ensures
        cut_off(x, lo, hi, x.saturated(lo, hi)),
        lo <= x.saturated(lo, hi) <= hi,
{
    let u = Float64::unit();
    let m = x.magnitude();
    lemma_pow2_pos(1074);
    if x.finite() {
        x.lemma_magnitude_is_not_negative();
        lemma_fundamental_div_mod(m, u);
        let q = m / u;
        let r = m % u;
        assert(0 <= r < u);
        assert(0 <= q) by (nonlinear_arith)
            requires
                m == u * q + r,
                0 <= m,
                0 <= r < u,
        ;
        assert(q * u <= m < (q + 1) * u) by (nonlinear_arith)
            requires
                m == u * q + r,
                0 <= r < u,
        ;
        assert((hi + 1) * u <= m <==> hi + 1 <= q) by (nonlinear_arith)
            requires
                q * u <= m < (q + 1) * u,
                0 < u,
        ;
        assert(-m <= (lo - 1) * u <==> -q <= lo - 1) by (nonlinear_arith)
            requires
                q * u <= m < (q + 1) * u,
                0 < u,
        ;
        assert(0 < (hi + 1) * u && (lo - 1) * u < 0) by (nonlinear_arith)
            requires
                lo <= 0 < hi,
                0 < u,
        ;
        assert((-q) * u == -(q * u) && (-q - 1) * u == -((q + 1) * u)) by (nonlinear_arith);
        if m == 0 {
            assert(q == 0) by (nonlinear_arith)
                requires
                    q * u <= 0,
                    0 <= q,
                    0 < u,
            ;
        }
    }
}

/// The integer that a cell says, where it lies between `lo` and `hi`: fractions are cut
/// off.
pub open spec fn says_integer(cell: Cell, lo: int, hi: int, n: Option<int>) -> bool {
    match cell {
        Cell::Null => n is None,
        Cell::Double(x) => part_of_number(x, lo, hi, n),
        Cell::Single(bits) => part_of_number(Float64::from_single_spec(bits), lo, hi, n),
        Cell::Int(k) => n == if lo <= k <= hi {
            Some(k as int)
        } else {
            None
        },
        Cell::Unsigned(k) => n == if lo <= k <= hi {
            Some(k as int)
        } else {
            None
        },
    }
}

/// The integer part of a number, where it lies between `lo` and `hi`.
pub open spec fn part_of_number(x: Float64, lo: int, hi: int, n: Option<int>) -> bool {
    let u = Float64::unit();
    match n {
        Some(k) => {
            &&& x.finite()
            &&& lo <= k <= hi
            &&& if 0 <= x.value() {
                k * u <= x.value() < (k + 1) * u
            } else {
                (k - 1) * u < x.value() <= k * u
            }
        },
        None => x.finite() ==> x.value() <= (lo - 1) * u || (hi + 1) * u <= x.value(),
    }
}

/// A cell as an integer is what it says.
pub proof fn law_cells_say_integers(cell: Cell, lo: int, hi: int)
    requires
        lo <= 0 < hi,
    ensures
        says_integer(cell, lo, hi, cell.integer_spec(lo, hi)),
{
    match cell {
        Cell::Double(x) => {
            lemma_part_of_number(x, lo, hi);
        },
        Cell::Single(bits) => {
            lemma_part_of_number(Float64::from_single_spec(bits), lo, hi);
        },
        _ => {},
    }
}

proof fn lemma_part_of_number(x: Float64, lo: int, hi: int)
    requires
        lo <= 0 < hi,
    ensures
        part_of_number(x, lo, hi, codecs::integer_part(x, lo, hi)),
{
    let u = Float64::unit();
    lemma_pow2_pos(1074);
    if x.finite() {
        let m = x.magnitude();
        let q = m / u;
        let n = x.truncated();
        x.lemma_magnitude_is_not_negative();
        lemma_fundamental_div_mod(m, u);
        assert(q * u <= m < (q + 1) * u) by (nonlinear_arith)
            requires
                m == u * q + m % u,
                0 <= m % u < u,
        ;
        assert(0 <= q) by (nonlinear_arith)
            requires
                0 <= m < (q + 1) * u,
                0 < u,
        ;
        assert((-q) * u == -(q * u) && (-q - 1) * u == -((q + 1) * u)) by (nonlinear_arith);
        if m == 0 {
            assert(q == 0) by (nonlinear_arith)
                requires
                    q * u <= 0,
                    0 <= q,
                    0 < u,
            ;
        }
        if n > hi {
            assert((hi + 1) * u <= q * u) by (nonlinear_arith)
                requires
                    hi + 1 <= q,
                    0 < u,
            ;
        } else if n < lo {
            assert((-q) * u <= (lo - 1) * u) by (nonlinear_arith)
                requires
                    -q <= lo - 1,
                    0 < u,
            ;
        }
    }
}

/// Count and capacity of a row are the integers that the cells of the columns of these
/// names say. A count that only fits without a sign wraps around; what says no integer
/// counts 0.
pub proof fn law_counts_are_read_from_their_columns(f: FieldsModel, i: int)
    requires
        f.count is Some,
        f.max_size is Some,
        0 <= i < f.count->0.len(),
        0 <= i < f.max_size->0.len(),
    ensures
        ({
            let cell = f.count->0[i];
            let count = f.parts(i).count;
            match cell.integer_spec(i64::MIN as int, i64::MAX as int) {
                Some(n) => count == Float64::from_int_spec(n),
                None => match cell.integer_spec(0, u64::MAX as int) {
                    Some(n) => count == Float64::from_int_spec(n - 0x1_0000_0000_0000_0000),
                    None => count == Float64::from_int_spec(0),
                },
            }
        }),
        ({
            let capacity = f.parts(i).max_size;
            match f.max_size->0[i].integer_spec(i64::MIN as int, i64::MAX as int) {
                Some(n) => 0 <= n <= usize::MAX ==> capacity == n,
                None => capacity == 0,
            }
        }),
{
    let cell = f.count->0[i];
    law_cells_say_integers(cell, i64::MIN as int, i64::MAX as int);
    if cell.integer_spec(i64::MIN as int, i64::MAX as int) is None {
        if let Some(n) = cell.integer_spec(0, u64::MAX as int) {
            let k = n as u64;
            assert(k > i64::MAX) by {
                match cell {
                    Cell::Double(x) => {},
                    Cell::Single(bits) => {},
                    _ => {},
                }
            }
            assert((k as i64) == k - 0x1_0000_0000_0000_0000) by (bit_vector)
                requires
                    k > 0x7fff_ffff_ffff_ffff,
            ;
        }
    }
}

/// A list is read cell by cell: each that has a mean and a weight is a centroid without a
/// mark, and others are left out.
pub proof fn law_lists_are_read_cell_by_cell(a: Seq<CentroidCell>, b: Seq<CentroidCell>, c: CentroidCell)
    ensures
        codecs::listed(Seq::empty()) == Seq::<Centroid>::empty(),
        codecs::listed(a + b) == codecs::listed(a) + codecs::listed(b),
        c.mean is Null || c.weight is Null ==> codecs::listed(seq![c]) == Seq::<Centroid>::empty(),
        !(c.mean is Null || c.weight is Null) ==> {
            let out = codecs::listed(seq![c]);
            &&& out.len() == 1
            &&& reads_as(c.mean, out[0].mean)
            &&& reads_as(c.weight, out[0].weight)
            &&& !out[0].singleton
        },
    decreases b.len(),
{
    assert(seq![c].drop_last() =~= Seq::<CentroidCell>::empty());
    reveal_with_fuel(codecs::listed, 2);
    if b.len() == 0 {
        assert(a + b =~= a);
        assert(codecs::listed(a) + codecs::listed(b) =~= codecs::listed(a));
    } else {
        law_lists_are_read_cell_by_cell(a, b.drop_last(), c);
        assert((a + b).drop_last() =~= a + b.drop_last());
        assert((a + b).last() == b.last());
        assert(codecs::listed(a + b) =~= codecs::listed(a) + codecs::listed(b));
    }
}

/// The centroids of a row are those of the list in that row of their column.
pub proof fn law_centroids_are_read_from_their_column(f: FieldsModel, i: int)
    ensures
        f.centroids matches Some(column) && 0 <= i < column.len() ==> match f.centroids->0[i] {
            Some(cells) => f.parts(i).centroids == codecs::listed(cells),
            None => f.parts(i).centroids.len() == 0,
        },
        !(f.centroids matches Some(column) && 0 <= i < column.len())
            ==> f.parts(i).centroids.len() == 0,
{
}

/// The columns of the canonical form, each by itself: sum and extremes as they are, and
/// counts, weights and the capacity as integers.
pub proof fn law_canonical_columns_hold_the_digest(d: DigestView)
    ensures
        ({
            let f = codecs::canonical(d);
            &&& f.sum == Some(seq![Cell::Double(d.sum)])
            &&& f.min == Some(seq![Cell::Double(d.min)])
            &&& f.max == Some(seq![Cell::Double(d.max)])
            &&& f.count is Some && f.count->0.len() == 1
            &&& f.count->0[0] matches Cell::Int(n) && cut_off(
                d.count,
                i64::MIN as int,
                i64::MAX as int,
                n as int,
            )
            &&& f.max_size is Some && f.max_size->0.len() == 1
            &&& d.max_size <= i64::MAX ==> (f.max_size->0[0] matches Cell::Int(n) && n
                == d.max_size)
            &&& f.centroids is Some && f.centroids->0.len() == 1
            &&& f.centroids->0[0] matches Some(cells) && {
                &&& cells.len() == d.centroids.len()
                &&& forall|k: int|
                    0 <= k < cells.len() ==> (#[trigger] cells[k]).mean == Cell::Double(
                        d.centroids[k].mean,
                    ) && (cells[k].weight matches Cell::Int(n) && cut_off(
                        d.centroids[k].weight,
                        i64::MIN as int,
                        i64::MAX as int,
                        n as int,
                    ))
            }
        }),
{
    let f = codecs::canonical(d);
    let cells = f.centroids->0[0]->0;
    law_saturation_cuts_off(d.count, i64::MIN as int, i64::MAX as int);
    assert forall|k: int| 0 <= k < cells.len() implies (#[trigger] cells[k]).mean == Cell::Double(
        d.centroids[k].mean,
    ) && (cells[k].weight matches Cell::Int(n) && cut_off(
        d.centroids[k].weight,
        i64::MIN as int,
        i64::MAX as int,
        n as int,
    )) by {
        law_saturation_cuts_off(d.centroids[k].weight, i64::MIN as int, i64::MAX as int);
    }
}

/// The columns of the compact form, each by itself: means and extremes as binary32 numbers,
/// weights as integers of 32 bits, or null where they do not fit; sum, count and capacity as
/// in the canonical form.
pub proof fn law_compact_columns_hold_the_digest(d: DigestView)
    ensures
        ({
            let f = codecs::compact(d);
            &&& f.sum == Some(seq![Cell::Double(d.sum)])
            &&& f.min == Some(seq![Cell::Single(d.min.to_single_spec())])
            &&& f.max == Some(seq![Cell::Single(d.max.to_single_spec())])
            &&& f.count is Some && f.count->0.len() == 1
            &&& f.count->0[0] matches Cell::Int(n) && cut_off(
                d.count,
                i64::MIN as int,
                i64::MAX as int,
                n as int,
            )
            &&& f.max_size is Some && f.max_size->0.len() == 1
            &&& d.max_size <= i64::MAX ==> (f.max_size->0[0] matches Cell::Int(n) && n
                == d.max_size)
            &&& f.centroids is Some && f.centroids->0.len() == 1
            &&& f.centroids->0[0] matches Some(cells) && {
                &&& cells.len() == d.centroids.len()
                &&& forall|k: int|
                    0 <= k < cells.len() ==> (#[trigger] cells[k]).mean == Cell::Single(
                        d.centroids[k].mean.to_single_spec(),
                    ) && narrow(d.centroids[k].weight, cells[k].weight)
            }
        }),
{
    let f = codecs::compact(d);
    let cells = f.centroids->0[0]->0;
    law_saturation_cuts_off(d.count, i64::MIN as int, i64::MAX as int);
    assert forall|k: int| 0 <= k < cells.len() implies (#[trigger] cells[k]).mean == Cell::Single(
        d.centroids[k].mean.to_single_spec(),
    ) && narrow(d.centroids[k].weight, cells[k].weight) by {
        let w = d.centroids[k].weight;
        law_saturation_cuts_off(w, i64::MIN as int, i64::MAX as int);
        assert(cut_off(
            w,
            i64::MIN as int,
            i64::MAX as int,
            w.saturated(i64::MIN as int, i64::MAX as int),
        ));
    }
}

/// The cell is the number with its fraction cut off, as an integer of 32 bits without a
/// sign; null where it does not fit.
pub open spec fn narrow(x: Float64, cell: Cell) -> bool {
    exists|n: int| #[trigger]
        cut_off(x, i64::MIN as int, i64::MAX as int, n) && match cell {
            Cell::Unsigned(k) => k == n && 0 <= n <= u32::MAX,
            Cell::Null => n < 0 || n > u32::MAX,
            _ => false,
        }
}

/// The strict reader takes a table exactly where no column is missing or shorter than that of
/// the counts, and in every row there is a list, whose means are binary64 or binary32 numbers
/// and whose weights are not null, the sum is a binary64 number, the extremes are binary64
/// or binary32 numbers, and count and capacity are integers with a sign.
pub proof fn law_strict_tables_have_all_numbers(f: FieldsModel)
    ensures
        f.strict() <==> {
            &&& f.centroids is Some && f.sum is Some && f.min is Some && f.max is Some
            &&& f.count is Some && f.max_size is Some
            &&& f.centroids->0.len() >= f.count->0.len()
            &&& f.sum->0.len() >= f.count->0.len()
            &&& f.min->0.len() >= f.count->0.len()
            &&& f.max->0.len() >= f.count->0.len()
            &&& f.max_size->0.len() >= f.count->0.len()
            &&& forall|i: int|
                0 <= i < f.count->0.len() ==> {
                    &&& (#[trigger] f.count->0[i]) is Int
                    &&& f.max_size->0[i] is Int
                    &&& f.sum->0[i] is Double
                    &&& f.min->0[i] is Double || f.min->0[i] is Single
                    &&& f.max->0[i] is Double || f.max->0[i] is Single
                    &&& f.centroids->0[i] is Some
                    &&& forall|k: int|
                        0 <= k < f.centroids->0[i]->0.len() ==> {
                            let c = #[trigger] f.centroids->0[i]->0[k];
                            &&& c.mean is Double || c.mean is Single
                            &&& !(c.weight is Null)
                        }
                }
        },
        f.count matches Some(cells) ==> f.rows() == cells.len(),
{
    if f.strict() {
        assert forall|i: int| 0 <= i < f.count->0.len() implies {
            &&& (#[trigger] f.count->0[i]) is Int
            &&& f.max_size->0[i] is Int
            &&& f.sum->0[i] is Double
            &&& f.min->0[i] is Double || f.min->0[i] is Single
            &&& f.max->0[i] is Double || f.max->0[i] is Single
            &&& f.centroids->0[i] is Some
            &&& forall|k: int|
                0 <= k < f.centroids->0[i]->0.len() ==> {
                    let c = #[trigger] f.centroids->0[i]->0[k];
                    &&& c.mean is Double || c.mean is Single
                    &&& !(c.weight is Null)
                }
        } by {
            assert(f.strict_row(i));
        }
    } else if f.complete() && f.centroids->0.len() >= f.rows() && f.sum->0.len() >= f.rows()
        && f.min->0.len() >= f.rows() && f.max->0.len() >= f.rows() && f.max_size->0.len()
        >= f.rows() {
        let i = choose|i: int| 0 <= i < f.rows() && !(#[trigger] f.strict_row(i));
        assert(0 <= i < f.rows() && !f.strict_row(i));
        let c = f.count->0[i];
    }
}

/// A table is what its columns hold, cell by cell, and it is complete where none is missing.
pub proof fn law_tables_are_their_columns(fields: DigestFields)
    ensures
        fields.sum matches Some(cells) ==> fields@.sum == Some(cells@),
        fields.min matches Some(cells) ==> fields@.min == Some(cells@),
        fields.max matches Some(cells) ==> fields@.max == Some(cells@),
        fields.count matches Some(cells) ==> fields@.count == Some(cells@),
        fields.max_size matches Some(cells) ==> fields@.max_size == Some(cells@),
        fields.centroids matches Some(rows) ==> fields@.centroids is Some
            && fields@.centroids->0.len() == rows@.len() && forall|i: int|
            0 <= i < rows@.len() ==> match rows@[i] {
                Some(list) => (#[trigger] fields@.centroids->0[i]) == Some(list@),
                None => fields@.centroids->0[i] is None,
            },
        fields@.complete() <==> fields.sum is Some && fields.min is Some && fields.max is Some
            && fields.count is Some && fields.max_size is Some && fields.centroids is Some,
{
}

/// What is read for a row is what its parts are, one by one.
pub proof fn law_row_parts_are_their_fields(row: RowParts)
    ensures
        row@.centroids == row.centroids@,
        row@.sum == row.sum,
        row@.count == row.count,
        row@.min == row.min,
        row@.max == row.max,
        row@.max_size == row.max_size,
{
}

} // verus!
