use tdigest::codecs::{
    is_complete, is_strict, parse_tdigests, parse_tdigests_any, read_row, row_count,
    tdigest_to_series, tdigest_to_series_32, Cell,
    CentroidCell, DigestFields, DigestSeries,
};
use tdigest::digest::keep_all;
use tdigest::{Centroid, Float64, TDigest};

fn f(x: f64) -> Float64 {
    Float64::from_bits(x.to_bits())
}

fn g(x: Float64) -> f64 {
    f64::from_bits(x.to_bits())
}

fn double(x: f64) -> Cell {
    Cell::Double(f(x))
}

fn single(x: f32) -> Cell {
    Cell::Single(x.to_bits())
}

fn listed(cells: &[(Cell, Cell)]) -> Option<Vec<CentroidCell>> {
    Some(cells.iter().map(|&(mean, weight)| CentroidCell { mean, weight }).collect())
}

/// A cell as text, for comparison.
fn show(cell: &Cell) -> String {
    match cell {
        Cell::Null => "null".to_string(),
        Cell::Double(x) => format!("double {:?}", g(*x)),
        Cell::Single(bits) => format!("single {:?}", f32::from_bits(*bits)),
        Cell::Int(n) => format!("int {n}"),
        Cell::Unsigned(n) => format!("unsigned {n}"),
    }
}

fn column(cells: &Option<Vec<Cell>>) -> Vec<String> {
    cells.as_ref().unwrap().iter().map(show).collect()
}

fn centroid_column(fields: &DigestFields) -> Vec<Vec<(String, String)>> {
    fields
        .centroids
        .as_ref()
        .unwrap()
        .iter()
        .map(|row| row.as_ref().unwrap().iter().map(|c| (show(&c.mean), show(&c.weight))).collect())
        .collect()
}

fn digest(cs: &[(f64, f64)], sum: f64, count: f64, max: f64, min: f64, max_size: usize) -> TDigest {
    let centroids = cs.iter().map(|&(m, w)| Centroid::new(f(m), f(w))).collect();
    TDigest::new(centroids, f(sum), f(count), f(max), f(min), max_size, keep_all)
}

#[test]
fn test_tdigest_deserializstion() {
    // Canonical payload with integer weights.
    let series = DigestSeries {
        name: "tdigest".to_string(),
        len: 2,
        fields: Some(DigestFields {
            centroids: Some(vec![
                listed(&[
                    (double(4.0), Cell::Int(1)),
                    (double(5.0), Cell::Int(1)),
                    (double(6.0), Cell::Int(1)),
                ]),
                listed(&[
                    (double(1.0), Cell::Int(1)),
                    (double(2.0), Cell::Int(1)),
                    (double(3.0), Cell::Int(1)),
                ]),
            ]),
            sum: Some(vec![double(15.0), double(6.0)]),
            min: Some(vec![double(4.0), double(1.0)]),
            max: Some(vec![double(6.0), double(3.0)]),
            count: Some(vec![Cell::Int(3), Cell::Int(3)]),
            max_size: Some(vec![Cell::Int(100), Cell::Int(100)]),
        }),
    };
    let res = parse_tdigests(&series, keep_all);

    let expected = vec![
        digest(&[(4.0, 1.0), (5.0, 1.0), (6.0, 1.0)], 15.0, 3.0, 6.0, 4.0, 100),
        digest(&[(1.0, 1.0), (2.0, 1.0), (3.0, 1.0)], 6.0, 3.0, 3.0, 1.0, 100),
    ];
    assert!(res == expected);
    // the tolerant reader reads the same
    assert!(parse_tdigests_any(&series, keep_all) == expected);
}

#[test]
fn test_tdigest_serialization_roundtrip() {
    // Canonical → canonical (weights as 64-bit integers)
    let tdigest = digest(
        &[(10.0, 1.0), (20.0, 2.0), (30.0, 3.0)],
        60.0,
        3.0,
        30.0,
        10.0,
        300,
    );
    let ser = tdigest_to_series(tdigest.clone(), "n");
    assert_eq!(ser.name, "n");
    assert_eq!(ser.len, 1);
    let fields = ser.fields.as_ref().unwrap();
    let text = |m: &str, w: &str| (m.to_string(), w.to_string());
    assert_eq!(
        centroid_column(fields),
        vec![vec![
            text("double 10.0", "int 1"),
            text("double 20.0", "int 2"),
            text("double 30.0", "int 3"),
        ]]
    );
    assert_eq!(column(&fields.sum), vec!["double 60.0"]);
    assert_eq!(column(&fields.min), vec!["double 10.0"]);
    assert_eq!(column(&fields.max), vec!["double 30.0"]);
    assert_eq!(column(&fields.count), vec!["int 3"]);
    assert_eq!(column(&fields.max_size), vec!["int 300"]);
    let again = parse_tdigests(&ser, keep_all);
    assert_eq!(again.len(), 1);
    assert!(again[0] == tdigest);

    // Compact writer (mean binary32, weight unsigned, extremes binary32) parses back to
    // the same digest.
    let compact = tdigest_to_series_32(tdigest.clone(), "n");
    let parsed = parse_tdigests_any(&compact, keep_all);
    assert_eq!(parsed.len(), 1);
    assert_eq!(g(parsed[0].count()), g(tdigest.count()));
    assert_eq!(parsed[0].max_size(), tdigest.max_size());
    assert_eq!(parsed[0].centroids().len(), tdigest.centroids().len());
    assert!(parsed[0] == tdigest);
}

#[test]
fn compact_form_rounds_to_single() {
    let d = digest(&[(0.1, 4294967295.0), (0.2, 4294967296.0)], 0.3, 5.0, 0.2, 0.1, 9);
    let ser = tdigest_to_series_32(d, "x");
    let fields = ser.fields.as_ref().unwrap();
    let cs = centroid_column(fields);
    assert_eq!(cs[0][0], (format!("single {:?}", 0.1f32), "unsigned 4294967295".to_string()));
    // a weight that does not fit is null, and its centroid is left out when read
    assert_eq!(cs[0][1].1, "null");
    assert_eq!(column(&fields.min), vec![format!("single {:?}", 0.1f32)]);
    assert_eq!(column(&fields.max), vec![format!("single {:?}", 0.2f32)]);
    assert_eq!(column(&fields.sum), vec!["double 0.3"]);
    let parsed = parse_tdigests_any(&ser, keep_all);
    assert_eq!(parsed[0].centroids().len(), 1);
    assert_eq!(g(parsed[0].centroids()[0].mean()), f64::from(0.1f32));
    assert_eq!(g(parsed[0].min()), f64::from(0.1f32));
    assert_eq!(g(parsed[0].max()), f64::from(0.2f32));
}

#[test]
fn canonical_form_cuts_off_fractions() {
    let d = digest(&[(1.0, 2.75)], 1.0, f64::NAN, 1.0, 1.0, 9);
    let ser = tdigest_to_series(d, "x");
    let fields = ser.fields.as_ref().unwrap();
    assert_eq!(centroid_column(fields)[0][0].1, "int 2");
    assert_eq!(column(&fields.count), vec!["int 0"]);
    let e = digest(&[(1.0, 1e300)], 1.0, -2.5, 1.0, 1.0, 9);
    let ser = tdigest_to_series(e, "x");
    let fields = ser.fields.as_ref().unwrap();
    assert_eq!(centroid_column(fields)[0][0].1, format!("int {}", i64::MAX));
    assert_eq!(column(&fields.count), vec!["int -2"]);
}

fn mixed() -> DigestFields {
    DigestFields {
        centroids: Some(vec![
            listed(&[
                (single(1.5), Cell::Unsigned(7)),
                (Cell::Null, Cell::Int(1)),
                (double(2.0), Cell::Null),
                (Cell::Int(3), double(2.5)),
            ]),
            None,
        ]),
        sum: Some(vec![Cell::Null, Cell::Int(-4)]),
        min: Some(vec![single(1.5), Cell::Null]),
        max: Some(vec![double(3.0), Cell::Unsigned(8)]),
        count: Some(vec![Cell::Unsigned(u64::MAX), double(9.75)]),
        max_size: Some(vec![Cell::Int(10), Cell::Null]),
    }
}

#[test]
fn tolerant_reader_takes_what_it_can() {
    let series = DigestSeries { name: "x".to_string(), len: 2, fields: Some(mixed()) };
    let out = parse_tdigests_any(&series, keep_all);
    assert_eq!(out.len(), 2);
    assert!(out[0] == digest(&[(1.5, 7.0), (3.0, 2.5)], 0.0, -1.0, 3.0, 1.5, 10));
    assert!(out[1] == digest(&[], -4.0, 9.0, 8.0, 0.0, 0));
}

#[test]
fn tolerant_reader_finds_nothing_without_a_column() {
    let drops: [fn(&mut DigestFields); 6] = [
        |x| x.centroids = None,
        |x| x.sum = None,
        |x| x.min = None,
        |x| x.max = None,
        |x| x.count = None,
        |x| x.max_size = None,
    ];
    for drop_one in drops {
        let mut fields = mixed();
        drop_one(&mut fields);
        let series = DigestSeries { name: "x".to_string(), len: 2, fields: Some(fields) };
        assert!(parse_tdigests_any(&series, keep_all).is_empty());
    }
}

#[test]
fn what_is_no_table_holds_no_digests() {
    let series = DigestSeries { name: "x".to_string(), len: 5, fields: None };
    assert!(parse_tdigests_any(&series, keep_all).is_empty());
    assert!(parse_tdigests(&series, keep_all).is_empty());
}

#[test]
fn strict_reader_takes_weights_of_any_kind() {
    let series = DigestSeries {
        name: "x".to_string(),
        len: 1,
        fields: Some(DigestFields {
            centroids: Some(vec![listed(&[
                (double(1.0), Cell::Unsigned(2)),
                (double(2.0), double(0.5)),
                (double(3.0), single(4.0)),
            ])]),
            sum: Some(vec![double(1.0)]),
            min: Some(vec![double(-1.0)]),
            max: Some(vec![double(3.0)]),
            count: Some(vec![Cell::Int(6)]),
            max_size: Some(vec![Cell::Int(3)]),
        }),
    };
    let out = parse_tdigests(&series, keep_all);
    assert_eq!(out.len(), 1);
    assert!(out[0] == digest(&[(1.0, 2.0), (2.0, 0.5), (3.0, 4.0)], 1.0, 6.0, 3.0, -1.0, 3));
}

#[test]
fn cells_convert() {
    assert_eq!(double(9.75).signed(), Some(9));
    assert_eq!(double(-9.75).signed(), Some(-9));
    assert_eq!(double(9223372036854775808.0).signed(), None);
    assert_eq!(double(-9223372036854775808.0).signed(), Some(i64::MIN));
    assert_eq!(double(f64::NAN).signed(), None);
    assert_eq!(double(f64::INFINITY).signed(), None);
    assert_eq!(single(2.5).signed(), Some(2));
    assert_eq!(Cell::Unsigned(u64::MAX).signed(), None);
    assert_eq!(Cell::Unsigned(5).signed(), Some(5));
    assert_eq!(Cell::Int(-5).signed(), Some(-5));
    assert_eq!(Cell::Null.signed(), None);
    assert_eq!(double(9223372036854775808.0).unsigned(), Some(9223372036854775808));
    assert_eq!(double(18446744073709551616.0).unsigned(), None);
    assert_eq!(double(18446744073709549568.0).unsigned(), Some(18446744073709549568));
    assert_eq!(double(-0.5).unsigned(), Some(0));
    assert_eq!(double(-1.0).unsigned(), None);
    assert_eq!(single(2.5).unsigned(), Some(2));
    assert_eq!(Cell::Int(-1).unsigned(), None);
    assert_eq!(Cell::Int(7).unsigned(), Some(7));
    assert_eq!(Cell::Null.unsigned(), None);
    assert_eq!(Cell::Int(i64::MAX).number().map(g), Some(i64::MAX as f64));
    assert_eq!(Cell::Unsigned(u64::MAX).number().map(g), Some(u64::MAX as f64));
    assert_eq!(single(0.1).number().map(g), Some(f64::from(0.1f32)));
    assert!(Cell::Null.number().is_none());
}

fn canonical() -> DigestFields {
    let d = digest(&[(1.0, 1.0), (2.0, 2.0)], 5.0, 3.0, 2.0, 1.0, 9);
    tdigest_to_series(d, "x").fields.unwrap()
}

#[test]
fn strict_form_is_recognized() {
    assert!(is_strict(&canonical()));
    assert!(is_complete(&canonical()));
    assert_eq!(row_count(&canonical()), 1);
    let breaks: [fn(&mut DigestFields); 8] = [
        |x| x.sum = None,
        |x| x.max = Some(Vec::new()),
        |x| x.count = Some(vec![Cell::Unsigned(3)]),
        |x| x.min = Some(vec![Cell::Null]),
        |x| x.max_size = Some(vec![Cell::Double(Float64::from_bits(0))]),
        |x| x.centroids = Some(vec![None]),
        |x| x.centroids.as_mut().unwrap()[0].as_mut().unwrap()[1].mean = Cell::Int(0),
        |x| x.centroids.as_mut().unwrap()[0].as_mut().unwrap()[1].weight = Cell::Null,
    ];
    for break_one in breaks {
        let mut fields = canonical();
        break_one(&mut fields);
        assert!(!is_strict(&fields));
    }
    // means and extremes may be of single precision, but not the sum
    let mut halved = canonical();
    halved.min = Some(vec![single(1.0)]);
    halved.max = Some(vec![single(2.0)]);
    halved.centroids.as_mut().unwrap()[0].as_mut().unwrap()[1].mean = single(2.0);
    assert!(is_strict(&halved));
    halved.sum = Some(vec![single(5.0)]);
    assert!(!is_strict(&halved));
    // rows beyond those that are counted do not matter
    let mut longer = canonical();
    longer.sum.as_mut().unwrap().push(Cell::Null);
    assert!(is_strict(&longer));
}

#[test]
fn rows_that_descend_beyond_the_capacity_are_recognized() {
    let mut fields = canonical();
    fields.centroids = Some(vec![listed(&[
        (double(2.0), Cell::Int(1)),
        (double(1.0), Cell::Int(1)),
    ])]);
    // they fit
    assert!(read_row(&fields, 0).ordered());
    fields.max_size = Some(vec![Cell::Int(1)]);
    assert!(!read_row(&fields, 0).ordered());
    // nothing is merged without a count
    fields.count = Some(vec![Cell::Int(0)]);
    assert!(read_row(&fields, 0).ordered());
    // a row that is not there has no centroids
    assert!(read_row(&fields, 7).centroids.is_empty());
}

#[test]
fn rows_beyond_the_capacity_are_merged() {
    let mut fields = canonical();
    fields.max_size = Some(vec![Cell::Int(1)]);
    assert!(read_row(&fields, 0).ordered());
    let series = DigestSeries { name: "x".to_string(), len: 1, fields: Some(fields) };
    let out = parse_tdigests(&series, keep_all);
    assert_eq!(out[0].max_size(), 2);
    assert_eq!(g(out[0].sum()), 5.0);
    assert_eq!(out[0].centroids().len(), 2);
}

#[test]
fn strict_reader_takes_the_compact_form() {
    let written = digest(&[(10.0, 1.0), (20.0, 2.0)], 50.0, 3.0, 20.0, 10.0, 300);
    let series = tdigest_to_series_32(written.clone(), "x");
    let fields = series.fields.as_ref().unwrap();
    assert!(is_strict(fields));
    assert_eq!(row_count(fields), 1);
    assert_eq!(column(&fields.min), vec!["single 10.0"]);
    let out = parse_tdigests(&series, keep_all);
    assert_eq!(out.len(), 1);
    assert!(out[0] == written);
    assert!(parse_tdigests_any(&series, keep_all)[0] == written);
}
