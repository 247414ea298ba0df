//! Greedy assignment and the comparisons that it rests on.

use trackforge::assignment::greedy_match;
use trackforge::number::Single;

fn single(x: f32) -> Single {
    Single::from_bits(x.to_bits())
}

fn matrix(rows: &[&[f32]]) -> Vec<Vec<Single>> {
    rows.iter()
        .map(|row| row.iter().map(|x| single(*x)).collect())
        .collect()
}

#[test]
fn cheapest_pair_goes_first() {
    let cost = matrix(&[&[0.4, 0.2], &[0.3, 0.1]]);
    let (matches, rows, columns) = greedy_match(&cost, single(0.5));
    assert_eq!(matches, vec![(1, 1), (0, 0)]);
    assert!(rows.is_empty());
    assert!(columns.is_empty());
}

#[test]
fn cutoff_is_inclusive() {
    let cost = matrix(&[&[0.5], &[0.6]]);
    assert_eq!(greedy_match(&cost, single(0.5)).0, vec![(0, 0)]);
    let (matches, rows, columns) = greedy_match(&cost, single(0.49));
    assert!(matches.is_empty());
    assert_eq!(rows, vec![0, 1]);
    assert_eq!(columns, vec![0]);
}

#[test]
fn ties_go_by_row_then_column() {
    let cost = matrix(&[&[0.1, 0.1, 0.1], &[0.1, 0.1, 0.1]]);
    let (matches, rows, columns) = greedy_match(&cost, single(1.0));
    assert_eq!(matches, vec![(0, 0), (1, 1)]);
    assert!(rows.is_empty());
    assert_eq!(columns, vec![2]);
    // The two zeros tie as well.
    let zeros = matrix(&[&[0.0, -0.0]]);
    assert_eq!(greedy_match(&zeros, single(1.0)).0, vec![(0, 0)]);
}

#[test]
fn nan_is_never_matched() {
    let cost = matrix(&[&[f32::NAN, 0.3]]);
    assert_eq!(greedy_match(&cost, single(1.0)).0, vec![(0, 1)]);
    assert!(greedy_match(&cost, single(f32::NAN)).0.is_empty());
}

#[test]
fn empty_matrices() {
    let (matches, rows, columns) = greedy_match(&vec![], single(1.0));
    assert!(matches.is_empty() && rows.is_empty() && columns.is_empty());
    let (matches, rows, columns) = greedy_match(&vec![vec![], vec![]], single(1.0));
    assert!(matches.is_empty() && columns.is_empty());
    assert_eq!(rows, vec![0, 1]);
}

#[test]
fn comparisons_are_those_of_the_numbers() {
    let samples = [
        0.0,
        -0.0,
        1.0,
        -1.0,
        0.5,
        0.8,
        1e-45,
        -1e-45,
        f32::MIN_POSITIVE,
        f32::MAX,
        f32::MIN,
        f32::INFINITY,
        f32::NEG_INFINITY,
        f32::NAN,
        -f32::NAN,
        123.456,
        -123.457,
    ];
    for a in samples {
        for b in samples {
            assert_eq!(single(a) < single(b), a < b, "{a} {b}");
            assert_eq!(single(a) <= single(b), a <= b, "{a} {b}");
            assert_eq!(single(a) > single(b), a > b, "{a} {b}");
            assert_eq!(single(a) >= single(b), a >= b, "{a} {b}");
            assert_eq!(single(a) == single(b), a == b, "{a} {b}");
            assert_eq!(single(a).partial_cmp(&single(b)), a.partial_cmp(&b), "{a} {b}");
        }
        assert_eq!(single(a).to_bits(), a.to_bits());
    }
    assert_eq!(trackforge::number::MAX_BITS, f32::MAX.to_bits());
}
