//! Digests as columns of a table.
//!
//! - The canonical form holds means, sum and extremes as binary64 numbers, and weights,
//!   count and capacity as 64-bit integers.
//! - The compact form holds means and extremes as binary32 numbers and weights as
//!   unsigned 32-bit integers; sum, count and capacity are as in the canonical form.
//!
//! `parse_tdigests_any` reads both, and whatever else can be taken for them;
//! `parse_tdigests` reads the two forms, with weights of any kind.
use vstd::prelude::*;
use vstd::string::*;

use crate::centroid::Centroid;
use crate::digest;
use crate::digest::{DigestView, Parts, TDigest};
use crate::exact;
use crate::float::Float64;
use crate::float::SIGN;
use crate::merges;
use crate::merges::{first_descent, KWayCentroidMerge, NormalizedStream};
use crate::rounding;
use vstd::arithmetic::div_mod::*;
use vstd::arithmetic::power2::*;

verus! {

/// The bit pattern of `2^64`.
pub const TWO_TO_64_BITS: u64 = 0x43f0_0000_0000_0000;

/// A number in a table.
#[derive(Clone, Copy, Debug)]
pub enum Cell {
    /// No number.
    Null,
    /// A binary64 number.
    Double(Float64),
    /// A binary32 number, given by its bit pattern.
    Single(u32),
    Int(i64),
    Unsigned(u64),
}

/// A centroid in a table.
#[derive(Clone, Copy, Debug)]
pub struct CentroidCell {
    pub mean: Cell,
    pub weight: Cell,
}

/// The columns of a table of digests. A column may be missing.
#[derive(Debug)]
pub struct DigestFields {
    /// A list of centroids per row, or no list.
    pub centroids: Option<Vec<Option<Vec<CentroidCell>>>>,
    pub sum: Option<Vec<Cell>>,
    pub min: Option<Vec<Cell>>,
    pub max: Option<Vec<Cell>>,
    pub count: Option<Vec<Cell>>,
    pub max_size: Option<Vec<Cell>>,
}

/// A named column whose rows are digests; or anything else, which has no fields.
#[derive(Debug)]
pub struct DigestSeries {
    pub name: String,
    pub len: usize,
    pub fields: Option<DigestFields>,
}

/// What the columns of a table of digests hold.
#[verifier::ext_equal]
pub struct FieldsModel {
    pub centroids: Option<Seq<Option<Seq<CentroidCell>>>>,
    pub sum: Option<Seq<Cell>>,
    pub min: Option<Seq<Cell>>,
    pub max: Option<Seq<Cell>>,
    pub count: Option<Seq<Cell>>,
    pub max_size: Option<Seq<Cell>>,
}

/// What a list column holds.
pub open spec fn lists(column: Seq<Option<Vec<CentroidCell>>>) -> Seq<Option<Seq<CentroidCell>>> {
    column.map_values(
        |row: Option<Vec<CentroidCell>>|
            match row {
                Some(list) => Some(list@),
                None => None,
            },
    )
}

/// What a column holds, where there is one.
pub open spec fn held(column: Option<Vec<Cell>>) -> Option<Seq<Cell>> {
    match column {
        Some(cells) => Some(cells@),
        None => None,
    }
}

impl View for DigestFields {
    type V = FieldsModel;

    open spec fn view(&self) -> FieldsModel {
        FieldsModel {
            centroids: match self.centroids {
                Some(column) => Some(lists(column@)),
                None => None,
            },
            sum: held(self.sum),
            min: held(self.min),
            max: held(self.max),
            count: held(self.count),
            max_size: held(self.max_size),
        }
    }
}

/// The integer part of a finite number, where it lies between `lo` and `hi`.
pub open spec fn integer_part(x: Float64, lo: int, hi: int) -> Option<int> {
    if x.finite() && lo <= x.truncated() <= hi {
        Some(x.truncated())
    } else {
        None
    }
}

impl Cell {
    /// The cell as a binary64 number.
    pub open spec fn number_spec(self) -> Option<Float64> {
        match self {
            Cell::Null => None,
            Cell::Double(x) => Some(x),
            Cell::Single(bits) => Some(Float64::from_single_spec(bits)),
            Cell::Int(n) => Some(Float64::from_int_spec(n as int)),
            Cell::Unsigned(n) => Some(Float64::from_int_spec(n as int)),
        }
    }

    /// The cell as an integer between `lo` and `hi`; fractions are cut off.
    pub open spec fn integer_spec(self, lo: int, hi: int) -> Option<int> {
        match self {
            Cell::Null => None,
            Cell::Double(x) => integer_part(x, lo, hi),
            Cell::Single(bits) => integer_part(Float64::from_single_spec(bits), lo, hi),
            Cell::Int(n) => if lo <= n <= hi {
                Some(n as int)
            } else {
                None
            },
            Cell::Unsigned(n) => if lo <= n <= hi {
                Some(n as int)
            } else {
                None
            },
        }
    }

    /// The cell as a signed integer; 0 where it is none.
    pub open spec fn signed_spec(self) -> i64 {
        match self.integer_spec(i64::MIN as int, i64::MAX as int) {
            Some(n) => n as i64,
            None => 0,
        }
    }

    /// The cell as a count. An integer that only fits without a sign wraps around; what is
    /// no integer counts 0.
    pub open spec fn count_spec(self) -> i64 {
        match self.integer_spec(i64::MIN as int, i64::MAX as int) {
            Some(n) => n as i64,
            None => match self.integer_spec(0, u64::MAX as int) {
                Some(n) => (n as u64) as i64,
                None => 0,
            },
        }
    }

    /// The cell as a binary64 number; 0 where it is none.
    pub open spec fn number_or_zero(self) -> Float64 {
        match self.number_spec() {
            Some(x) => x,
            None => Float64::zero_spec(false),
        }
    }

    /// The cell as a binary64 number.
    pub fn number(self) -> (r: Option<Float64>)
        ensures
            r == self.number_spec(),
    {
        match self {
            Cell::Null => None,
            Cell::Double(x) => Some(x),
            Cell::Single(bits) => Some(Float64::from_single_bits(bits)),
            Cell::Int(n) => Some(Float64::from_i64(n)),
            Cell::Unsigned(n) => Some(Float64::from_u64(n)),
        }
    }

    fn or_zero(self) -> (r: Float64)
        ensures
            r == self.number_or_zero(),
    {
        match self.number() {
            Some(x) => x,
            None => Float64::from_bits(0),
        }
    }

    /// The cell as a signed integer.
    pub fn signed(self) -> (r: Option<i64>)
        ensures
            match r {
                Some(n) => self.integer_spec(i64::MIN as int, i64::MAX as int) == Some(n as int),
                None => self.integer_spec(i64::MIN as int, i64::MAX as int) is None,
            },
    {
        match self {
            Cell::Null => None,
            Cell::Double(x) => signed_part(x),
            Cell::Single(bits) => signed_part(Float64::from_single_bits(bits)),
            Cell::Int(n) => Some(n),
            Cell::Unsigned(n) => if n <= i64::MAX as u64 {
                Some(n as i64)
            } else {
                None
            },
        }
    }

    /// The cell as an unsigned integer.
    pub fn unsigned(self) -> (r: Option<u64>)
        ensures
            match r {
                Some(n) => self.integer_spec(0, u64::MAX as int) == Some(n as int),
                None => self.integer_spec(0, u64::MAX as int) is None,
            },
    {
        match self {
            Cell::Null => None,
            Cell::Double(x) => unsigned_part(x),
            Cell::Single(bits) => unsigned_part(Float64::from_single_bits(bits)),
            Cell::Int(n) => if 0 <= n {
                Some(n as u64)
            } else {
                None
            },
            Cell::Unsigned(n) => Some(n),
        }
    }
}

/// The integer part of a number as a signed integer.
fn signed_part(x: Float64) -> (r: Option<i64>)
    ensures
        match r {
            Some(n) => integer_part(x, i64::MIN as int, i64::MAX as int) == Some(n as int),
            None => integer_part(x, i64::MIN as int, i64::MAX as int) is None,
        },
{
    if !x.is_finite() {
        return None;
    }
    let t: u64 = x.abs().to_u64();
    proof {
        lemma_pow2_pos(1074);
        x.lemma_magnitude_is_not_negative();
        lemma_div_pos_is_pos(x.magnitude(), Float64::unit());
    }
    if x.bits >= SIGN {
        if t <= 0x8000_0000_0000_0000 {
            Some((-(t as i128)) as i64)
        } else {
            None
        }
    } else if t <= 0x7fff_ffff_ffff_ffff {
        Some(t as i64)
    } else {
        None
    }
}

/// The integer part of a number as an unsigned integer.
fn unsigned_part(x: Float64) -> (r: Option<u64>)
    ensures
        match r {
            Some(n) => integer_part(x, 0, u64::MAX as int) == Some(n as int),
            None => integer_part(x, 0, u64::MAX as int) is None,
        },
{
    if !x.is_finite() {
        return None;
    }
    let t: u64 = x.abs().to_u64();
    let limit: Float64 = Float64::from_bits(TWO_TO_64_BITS);
    proof {
        lemma_pow2_pos(1074);
        x.lemma_magnitude_is_not_negative();
        lemma_div_pos_is_pos(x.magnitude(), Float64::unit());
        lemma_two_to_64();
        exact::lemma_value_order(x, limit);
        let m = x.magnitude();
        let u = Float64::unit();
        lemma_fundamental_div_mod(m, u);
        assert(m < 0x1_0000_0000_0000_0000 * u <==> m / u < 0x1_0000_0000_0000_0000)
            by (nonlinear_arith)
            requires
                0 < u,
                m == u * (m / u) + m % u,
                0 <= m % u < u,
        ;
    }
    if x.bits >= SIGN {
        if t == 0 {
            Some(0)
        } else {
            None
        }
    } else if x.lt(limit) {
        Some(t)
    } else {
        None
    }
}

proof fn lemma_two_to_64()
    ensures
        (Float64 { bits: TWO_TO_64_BITS }).finite(),
        (Float64 { bits: TWO_TO_64_BITS }).value() == 0x1_0000_0000_0000_0000 * Float64::unit(),
{
    let q = 0x10_0000_0000_0000int;
    lemma2_to64();
    lemma2_to64_rest();
    rounding::lemma_magnitude_of_parts(52, 1086, q);
    lemma_pow2_adds(52, 1086);
    lemma_pow2_adds(64, 1074);
    assert(TWO_TO_64_BITS == 1086 * 0x10_0000_0000_0000int + q);
}

/// The centroids in a list: those of which mean and weight are there.
pub open spec fn listed(cells: Seq<CentroidCell>) -> Seq<Centroid>
    decreases cells.len(),
{
    if cells.len() == 0 {
        Seq::empty()
    } else {
        let before = listed(cells.drop_last());
        match (cells.last().mean.number_spec(), cells.last().weight.number_spec()) {
            (Some(mean), Some(weight)) => before.push(
                Centroid { mean, weight, singleton: false },
            ),
            _ => before,
        }
    }
}

/// The cell in a row of a column; null where there is none.
pub open spec fn cell_at(column: Option<Seq<Cell>>, i: int) -> Cell {
    match column {
        Some(cells) => if 0 <= i < cells.len() {
            cells[i]
        } else {
            Cell::Null
        },
        None => Cell::Null,
    }
}

/// The cell is a floating-point number.
pub open spec fn floating(cell: Cell) -> bool {
    cell is Double || cell is Single
}

/// Every mean in the list is a floating-point number, and every weight is there.
pub open spec fn strict_cells(cells: Seq<CentroidCell>) -> bool {
    forall|k: int|
        0 <= k < cells.len() ==> floating((#[trigger] cells[k]).mean) && !(cells[k].weight is Null)
}

impl FieldsModel {
    /// No column is missing.
    pub open spec fn complete(self) -> bool {
        &&& self.centroids is Some
        &&& self.sum is Some
        &&& self.min is Some
        &&& self.max is Some
        &&& self.count is Some
        &&& self.max_size is Some
    }

    /// The centroids of a row.
    pub open spec fn centroids_at(self, i: int) -> Seq<Centroid> {
        match self.centroids {
            Some(column) => if 0 <= i < column.len() {
                match column[i] {
                    Some(cells) => listed(cells),
                    None => Seq::empty(),
                }
            } else {
                Seq::empty()
            },
            None => Seq::empty(),
        }
    }

    /// What the digest in a row is made of.
    pub open spec fn parts(self, i: int) -> Parts {
        Parts {
            centroids: self.centroids_at(i),
            sum: cell_at(self.sum, i).number_or_zero(),
            count: Float64::from_int_spec(cell_at(self.count, i).count_spec() as int),
            max: cell_at(self.max, i).number_or_zero(),
            min: cell_at(self.min, i).number_or_zero(),
            max_size: cell_at(self.max_size, i).signed_spec() as usize,
        }
    }

    /// How many rows the strict reader finds.
    pub open spec fn rows(self) -> nat {
        match self.count {
            Some(cells) => cells.len(),
            None => 0,
        }
    }

    /// No column is missing or short, every number in them is there, and all are of the kinds
    /// of the canonical or the compact form, but for the weights, which are of any kind.
    pub open spec fn strict(self) -> bool {
        &&& self.complete()
        &&& self.centroids->0.len() >= self.rows()
        &&& self.sum->0.len() >= self.rows()
        &&& self.min->0.len() >= self.rows()
        &&& self.max->0.len() >= self.rows()
        &&& self.max_size->0.len() >= self.rows()
        &&& forall|i: int| 0 <= i < self.rows() ==> #[trigger] self.strict_row(i)
    }

    /// A row of such kinds.
    pub open spec fn strict_row(self, i: int) -> bool {
        &&& self.centroids->0[i] matches Some(cells) && strict_cells(cells)
        &&& self.sum->0[i] is Double
        &&& floating(self.min->0[i])
        &&& floating(self.max->0[i])
        &&& self.count->0[i] is Int
        &&& self.max_size->0[i] is Int
    }
}

/// Reads the centroids in a list.
fn read_centroids(cells: &Vec<CentroidCell>) -> (out: Vec<Centroid>)
    ensures
        out@ == listed(cells@),
{
    let mut out: Vec<Centroid> = Vec::new();
    let mut i: usize = 0;
    assert(cells@.take(0) =~= Seq::<CentroidCell>::empty());
    while i < cells.len()
        invariant
            i <= cells.len(),
            out@ == listed(cells@.take(i as int)),
        decreases cells.len() - i,
    {
        let cell: CentroidCell = cells[i];
        assert(cells@.take(i + 1).drop_last() =~= cells@.take(i as int));
        if let (Some(mean), Some(weight)) = (cell.mean.number(), cell.weight.number()) {
            out.push(Centroid::new(mean, weight));
        }
        i = i + 1;
    }
    assert(cells@.take(i as int) =~= cells@);
    out
}

/// The cell in a row of a column; null where there is none.
fn read_cell(column: &Option<Vec<Cell>>, i: usize) -> (r: Cell)
    ensures
        r == cell_at(held(*column), i as int),
{
    match column {
        Some(cells) => if i < cells.len() {
            cells[i]
        } else {
            Cell::Null
        },
        None => Cell::Null,
    }
}

/// What the digest in a row is made of.
#[derive(Debug)]
pub struct RowParts {
    pub centroids: Vec<Centroid>,
    pub sum: Float64,
    pub count: Float64,
    pub max: Float64,
    pub min: Float64,
    pub max_size: usize,
}

impl View for RowParts {
    type V = Parts;

    open spec fn view(&self) -> Parts {
        Parts {
            centroids: self.centroids@,
            sum: self.sum,
            count: self.count,
            max: self.max,
            min: self.min,
            max_size: self.max_size,
        }
    }
}

impl RowParts {
    /// Whether the centroids fit the capacity, or have nothing to merge, or do not descend
    /// when merged.
    pub fn ordered(&self) -> (r: bool)
        ensures
            r == self@.ordered(),
    {
        let n: usize = self.centroids.len();
        if n <= self.max_size {
            return true;
        }
        let zero: Float64 = Float64::from_bits(0);
        let ghost whole = self@.digest(n);
        proof {
            assert(seq![whole].drop_last() =~= Seq::<DigestView>::empty());
            reveal_with_fuel(digest::gathered, 2);
        }
        if !zero.lt(self.count) {
            return true;
        }
        let mut runs: Vec<&[Centroid]> = Vec::new();
        runs.push(self.centroids.as_slice());
        proof {
            exact::lemma_zero_plus(self.count);
            assert(merges::slices_view(runs@) =~= seq![self.centroids@]);
            assert(Seq::<Seq<Centroid>>::empty().push(self.centroids@) =~= seq![self.centroids@]);
        }
        let mut stream: KWayCentroidMerge = KWayCentroidMerge::new(runs);
        let items: Vec<Centroid> = stream.collect();
        first_descent(&items).is_none()
    }
}

/// Reads a row of a table.
pub fn read_row(fields: &DigestFields, i: usize) -> (r: RowParts)
    ensures
        r@ == fields@.parts(i as int),
{
    let mut centroids: Vec<Centroid> = Vec::new();
    if let Some(column) = &fields.centroids {
        if i < column.len() {
            if let Some(cells) = &column[i] {
                centroids = read_centroids(cells);
            }
        }
    }
    let count: Cell = read_cell(&fields.count, i);
    let counted: i64 = match count.signed() {
        Some(n) => n,
        None => match count.unsigned() {
            Some(n) => n as i64,
            None => 0,
        },
    };
    let max_size: usize = match read_cell(&fields.max_size, i).signed() {
        Some(n) => n as usize,
        None => 0,
    };
    assert(centroids@ =~= fields@.centroids_at(i as int));
    RowParts {
        centroids,
        sum: read_cell(&fields.sum, i).or_zero(),
        count: Float64::from_i64(counted),
        max: read_cell(&fields.max, i).or_zero(),
        min: read_cell(&fields.min, i).or_zero(),
        max_size,
    }
}

/// Makes a digest of each of the first `n` rows.
fn digests_of_rows<C>(fields: &DigestFields, n: usize, compress: C) -> (out: Vec<TDigest>) where
    C: Fn(TDigest, usize, NormalizedStream) -> TDigest + Copy,

    requires
        forall|i: int| 0 <= i < n ==> (#[trigger] fields@.parts(i)).constructible(compress),
    ensures
        out@.len() == n,
        forall|i: int|
            0 <= i < n ==> fields@.parts(i).constructed(compress, #[trigger] out@[i]),
{
    let mut out: Vec<TDigest> = Vec::new();
    let mut i: usize = 0;
    while i < n
        invariant
            i <= n,
            out@.len() == i,
            forall|k: int| 0 <= k < n ==> (#[trigger] fields@.parts(k)).constructible(compress),
            forall|k: int|
                0 <= k < i ==> fields@.parts(k).constructed(compress, #[trigger] out@[k]),
        decreases n - i,
    {
        let row: RowParts = read_row(fields, i);
        assert(fields@.parts(i as int).constructible(compress));
        out.push(
            TDigest::new(
                row.centroids,
                row.sum,
                row.count,
                row.max,
                row.min,
                row.max_size,
                compress,
            ),
        );
        i = i + 1;
    }
    out
}

/// Reads the digests of a table in any form. Where there is no table, or a column is
/// missing, there are none. A scalar that is no number reads as 0, and a centroid of which
/// a part is missing is left out.
pub fn parse_tdigests_any<C>(input: &DigestSeries, compress: C) -> (out: Vec<TDigest>) where
    C: Fn(TDigest, usize, NormalizedStream) -> TDigest + Copy,

    requires
        input.fields matches Some(fields) ==> (fields@.complete() ==> forall|i: int|
            0 <= i < input.len ==> (#[trigger] fields@.parts(i)).constructible(compress)),
    ensures
        match input.fields {
            Some(fields) => if fields@.complete() {
                &&& out@.len() == input.len
                &&& forall|i: int|
                    0 <= i < input.len ==> fields@.parts(i).constructed(
                        compress,
                        #[trigger] out@[i],
                    )
            } else {
                out@.len() == 0
            },
            None => out@.len() == 0,
        },
{
    match &input.fields {
        Some(fields) => if is_complete(fields) {
            digests_of_rows(fields, input.len, compress)
        } else {
            Vec::new()
        },
        None => Vec::new(),
    }
}

/// Reads the digests of a table in the canonical or the compact form, with weights of any
/// kind. Where there is no table, there are none.
pub fn parse_tdigests<C>(input: &DigestSeries, compress: C) -> (out: Vec<TDigest>) where
    C: Fn(TDigest, usize, NormalizedStream) -> TDigest + Copy,

    requires
        input.fields matches Some(fields) ==> {
            &&& fields@.strict()
            &&& forall|i: int|
                0 <= i < fields@.rows() ==> (#[trigger] fields@.parts(i)).constructible(compress)
        },
    ensures
        match input.fields {
            Some(fields) => {
                &&& out@.len() == fields@.rows()
                &&& forall|i: int|
                    0 <= i < fields@.rows() ==> fields@.parts(i).constructed(
                        compress,
                        #[trigger] out@[i],
                    )
            },
            None => out@.len() == 0,
        },
{
    match &input.fields {
        Some(fields) => digests_of_rows(fields, row_count(fields), compress),
        None => Vec::new(),
    }
}

/// Whether no column is missing.
pub fn is_complete(fields: &DigestFields) -> (r: bool)
    ensures
        r == fields@.complete(),
{
    fields.centroids.is_some() && fields.sum.is_some() && fields.min.is_some()
        && fields.max.is_some() && fields.count.is_some() && fields.max_size.is_some()
}

/// How many rows the strict reader finds.
pub fn row_count(fields: &DigestFields) -> (r: usize)
    ensures
        r == fields@.rows(),
{
    match &fields.count {
        Some(cells) => cells.len(),
        None => 0,
    }
}

fn is_floating(cell: Cell) -> (r: bool)
    ensures
        r == floating(cell),
{
    matches!(cell, Cell::Double(_) | Cell::Single(_))
}

/// Whether the list in a row holds what the strict reader demands.
fn strict_list(cells: &Vec<CentroidCell>) -> (r: bool)
    ensures
        r == strict_cells(cells@),
{
    let mut k: usize = 0;
    while k < cells.len()
        invariant
            k <= cells.len(),
            forall|j: int|
                0 <= j < k ==> floating((#[trigger] cells@[j]).mean) && !(cells@[j].weight is Null),
        decreases cells.len() - k,
    {
        let cell: CentroidCell = cells[k];
        let good: bool = is_floating(cell.mean) && !matches!(cell.weight, Cell::Null);
        if !good {
            assert(!(floating(cells@[k as int].mean) && !(cells@[k as int].weight is Null)));
            return false;
        }
        k = k + 1;
    }
    true
}

/// Whether the table is one that the strict reader takes.
pub fn is_strict(fields: &DigestFields) -> (r: bool)
    ensures
        r == fields@.strict(),
{
    if let (Some(centroids), Some(sum), Some(min), Some(max), Some(count), Some(max_size)) = (
        &fields.centroids,
        &fields.sum,
        &fields.min,
        &fields.max,
        &fields.count,
        &fields.max_size,
    ) {
        let n: usize = count.len();
        if centroids.len() < n || sum.len() < n || min.len() < n || max.len() < n
            || max_size.len() < n {
            return false;
        }
        let mut i: usize = 0;
        while i < n
            invariant
                i <= n,
                n == count@.len() == fields@.rows(),
                n <= centroids@.len(),
                n <= sum@.len(),
                n <= min@.len(),
                n <= max@.len(),
                n <= max_size@.len(),
                fields@.complete(),
                fields@.centroids == Some(lists(centroids@)),
                fields@.sum == Some(sum@),
                fields@.min == Some(min@),
                fields@.max == Some(max@),
                fields@.count == Some(count@),
                fields@.max_size == Some(max_size@),
                forall|k: int| 0 <= k < i ==> #[trigger] fields@.strict_row(k),
            decreases n - i,
        {
            let list: bool = match &centroids[i] {
                Some(cells) => strict_list(cells),
                None => false,
            };
            let scalars: bool = matches!(sum[i], Cell::Double(_)) && is_floating(min[i])
                && is_floating(max[i]) && matches!(count[i], Cell::Int(_))
                && matches!(max_size[i], Cell::Int(_));
            assert(fields@.strict_row(i as int) == (list && scalars));
            if !list || !scalars {
                return false;
            }
            i = i + 1;
        }
        true
    } else {
        false
    }
}

/// A weight or a count as an integer.
pub open spec fn integer_cell(x: Float64) -> Cell {
    Cell::Int(x.saturated(i64::MIN as int, i64::MAX as int) as i64)
}

/// The canonical form of a digest, as a table of one row.
pub open spec fn canonical(d: DigestView) -> FieldsModel {
    FieldsModel {
        centroids: Some(
            seq![
                Some(
                    d.centroids.map_values(
                        |c: Centroid|
                            CentroidCell {
                                mean: Cell::Double(c.mean),
                                weight: integer_cell(c.weight),
                            },
                    ),
                ),
            ],
        ),
        sum: Some(seq![Cell::Double(d.sum)]),
        min: Some(seq![Cell::Double(d.min)]),
        max: Some(seq![Cell::Double(d.max)]),
        count: Some(seq![integer_cell(d.count)]),
        max_size: Some(seq![Cell::Int(d.max_size as i64)]),
    }
}

/// A number as binary32.
pub open spec fn single_cell(x: Float64) -> Cell {
    Cell::Single(x.to_single_spec())
}

/// A weight as an unsigned 32-bit integer; null where it does not fit.
pub open spec fn narrow_cell(x: Float64) -> Cell {
    let n = x.saturated(i64::MIN as int, i64::MAX as int);
    if 0 <= n <= u32::MAX {
        Cell::Unsigned(n as u64)
    } else {
        Cell::Null
    }
}

/// The compact form of a digest, as a table of one row.
pub open spec fn compact(d: DigestView) -> FieldsModel {
    FieldsModel {
        centroids: Some(
            seq![
                Some(
                    d.centroids.map_values(
                        |c: Centroid|
                            CentroidCell {
                                mean: single_cell(c.mean),
                                weight: narrow_cell(c.weight),
                            },
                    ),
                ),
            ],
        ),
        min: Some(seq![single_cell(d.min)]),
        max: Some(seq![single_cell(d.max)]),
        ..canonical(d)
    }
}

/// A column of one row.
fn one_row(cell: Cell) -> (r: Option<Vec<Cell>>)
    ensures
        held(r) == Some(seq![cell]),
{
    let mut column: Vec<Cell> = Vec::new();
    column.push(cell);
    assert(column@ =~= seq![cell]);
    Some(column)
}

/// Writes the canonical form of a digest: a table of one row.
pub fn tdigest_to_series(tdigest: TDigest, name: &str) -> (r: DigestSeries)
    ensures
        r.name@ == name@,
        r.len == 1,
        r.fields matches Some(fields) && fields@ == canonical(tdigest@),
{
    let mut cells: Vec<CentroidCell> = Vec::new();
    let mut i: usize = 0;
    while i < tdigest.centroids.len()
        invariant
            i <= tdigest.centroids.len(),
            cells@.len() == i,
            forall|k: int|
                0 <= k < i ==> #[trigger] cells@[k] == (CentroidCell {
                    mean: Cell::Double(tdigest.centroids@[k].mean),
                    weight: integer_cell(tdigest.centroids@[k].weight),
                }),
        decreases tdigest.centroids.len() - i,
    {
        let c: Centroid = tdigest.centroids[i];
        cells.push(
            CentroidCell { mean: Cell::Double(c.mean), weight: Cell::Int(c.weight.to_i64()) },
        );
        i = i + 1;
    }
    assert(Some(cells@) =~= canonical(tdigest@).centroids->0[0]);
    let mut rows: Vec<Option<Vec<CentroidCell>>> = Vec::new();
    rows.push(Some(cells));
    assert(lists(rows@) =~= canonical(tdigest@).centroids->0);
    let fields: DigestFields = DigestFields {
        centroids: Some(rows),
        sum: one_row(Cell::Double(tdigest.sum)),
        min: one_row(Cell::Double(tdigest.min)),
        max: one_row(Cell::Double(tdigest.max)),
        count: one_row(Cell::Int(tdigest.count.to_i64())),
        max_size: one_row(Cell::Int(tdigest.max_size as i64)),
    };
    DigestSeries { name: name.to_string(), len: 1, fields: Some(fields) }
}

/// Writes the compact form of a digest: a table of one row.
pub fn tdigest_to_series_32(td: TDigest, name: &str) -> (r: DigestSeries)
    ensures
        r.name@ == name@,
        r.len == 1,
        r.fields matches Some(fields) && fields@ == compact(td@),
{
    let mut cells: Vec<CentroidCell> = Vec::new();
    let mut i: usize = 0;
    while i < td.centroids.len()
        invariant
            i <= td.centroids.len(),
            cells@.len() == i,
            forall|k: int|
                0 <= k < i ==> #[trigger] cells@[k] == (CentroidCell {
                    mean: single_cell(td.centroids@[k].mean),
                    weight: narrow_cell(td.centroids@[k].weight),
                }),
        decreases td.centroids.len() - i,
    {
        let c: Centroid = td.centroids[i];
        let n: i64 = c.weight.to_i64();
        let weight: Cell = if 0 <= n && n <= u32::MAX as i64 {
            Cell::Unsigned(n as u64)
        } else {
            Cell::Null
        };
        cells.push(CentroidCell { mean: Cell::Single(c.mean.to_single_bits()), weight });
        i = i + 1;
    }
    assert(Some(cells@) =~= compact(td@).centroids->0[0]);
    let mut rows: Vec<Option<Vec<CentroidCell>>> = Vec::new();
    rows.push(Some(cells));
    assert(lists(rows@) =~= compact(td@).centroids->0);
    let fields: DigestFields = DigestFields {
        centroids: Some(rows),
        sum: one_row(Cell::Double(td.sum)),
        min: one_row(Cell::Single(td.min.to_single_bits())),
        max: one_row(Cell::Single(td.max.to_single_bits())),
        count: one_row(Cell::Int(td.count.to_i64())),
        max_size: one_row(Cell::Int(td.max_size as i64)),
    };
    DigestSeries { name: name.to_string(), len: 1, fields: Some(fields) }
}

} // verus!
