use live_plotter::buffer::{Point, SeriesBuffer};
use live_plotter::extent::{axis_range, candidates, extent, line_window, nearest, visible_y, Candidate, Extent};
use live_plotter::number::Number;

fn num(v: f64) -> Number {
    Number { bits: v.to_bits() }
}

fn pt(x: f64, y: f64) -> Point {
    Point { x: num(x), y: num(y) }
}

fn series(points: &[(f64, f64)]) -> SeriesBuffer {
    let mut b = SeriesBuffer::new(100);
    for &(x, y) in points {
        b.push(pt(x, y));
    }
    b
}

fn span(first_x: f64, last_x: f64, min_y: f64, max_y: f64) -> Extent {
    Extent { first_x: num(first_x), last_x: num(last_x), min_y: num(min_y), max_y: num(max_y) }
}

#[test]
fn nothing_spans_a_default() {
    assert_eq!(extent(&vec![]), span(0.0, 0.0, -1.0, 1.0));
    assert_eq!(extent(&vec![series(&[])]), span(0.0, 0.0, -1.0, 1.0));
}

#[test]
fn the_extent_holds_all_samples() {
    let all = vec![series(&[(3.0, 1.0), (5.0, -2.0)]), series(&[]), series(&[(1.0, 7.0), (2.0, 0.0)])];
    assert_eq!(extent(&all), span(1.0, 5.0, -2.0, 7.0));
    let odd = vec![series(&[(1.0, f64::NAN), (2.0, 4.0)])];
    assert_eq!(extent(&odd), span(1.0, 2.0, 4.0, 4.0));
    let none = vec![series(&[(1.0, f64::NAN)])];
    assert_eq!(extent(&none), span(1.0, 1.0, -1.0, 1.0));
}

#[test]
fn a_window_begins_one_sample_early() {
    let b = series(&[(1.0, 0.0), (2.0, 0.0), (3.0, 0.0), (4.0, 0.0)]);
    assert_eq!(line_window(&b, num(2.5), num(3.5)), (1, 3));
    assert_eq!(line_window(&b, num(0.0), num(2.0)), (0, 1));
    assert_eq!(line_window(&b, num(2.0), num(4.0)), (0, 4));
    assert_eq!(line_window(&b, num(9.0), num(10.0)), (3, 4));
    assert_eq!(line_window(&b, num(-2.0), num(-1.0)), (0, 0));
}

#[test]
fn the_range_of_values_is_that_of_what_is_shown() {
    let all = vec![series(&[(1.0, 50.0), (2.0, 3.0), (3.0, 5.0)]), series(&[(1.0, -90.0)]), series(&[])];
    let vis = vec![true, false, true];
    assert_eq!(visible_y(&all, &vis, num(3.0), &vec![]), Some((num(3.0), num(5.0))));
    assert_eq!(visible_y(&all, &vis, num(0.0), &vec![]), Some((num(3.0), num(50.0))));
    assert_eq!(visible_y(&all, &vis, num(3.0), &vec![num(0.0), num(9.0)]), Some((num(0.0), num(9.0))));
    assert_eq!(visible_y(&all, &vec![false; 3], num(0.0), &vec![]), None);
    assert_eq!(visible_y(&all, &vec![false; 3], num(0.0), &vec![num(2.0)]), Some((num(2.0), num(2.0))));
}

#[test]
fn the_value_axis_has_a_margin_or_a_default() {
    let margin = |lo: Number, hi: Number| {
        let (lo, hi) = (f64::from_bits(lo.bits), f64::from_bits(hi.bits));
        (num(lo - 1.0), num(hi + 2.0))
    };
    assert_eq!(axis_range(Some((num(3.0), num(5.0))), &margin), (num(2.0), num(7.0)));
    assert_eq!(axis_range(None, &margin), (num(-1.0), num(1.0)));
}

#[test]
fn candidates_are_all_samples_of_the_shown_series() {
    let points: Vec<(f64, f64)> = (0..10).map(|i| (i as f64, 0.0)).collect();
    let all = vec![series(&points), series(&points), series(&[(4.0, 1.0)])];
    let expected: Vec<Candidate> = (0..10)
        .map(|i| Candidate { series: 0, point: pt(i as f64, 0.0) })
        .chain([Candidate { series: 2, point: pt(4.0, 1.0) }])
        .collect();
    assert_eq!(candidates(&all, &vec![true, false, true]), expected);
    assert_eq!(candidates(&all, &vec![false, false, true]), vec![expected[10]]);
    assert!(candidates(&all, &vec![false; 3]).is_empty());
    assert_eq!(candidates(&all, &vec![true]).len(), 10);
    assert_eq!(candidates(&vec![series(&[]), series(&[(4.0, 1.0)])], &vec![true; 5]).len(), 1);
}

#[test]
fn the_first_of_the_nearest_is_taken() {
    let d: Vec<Number> = [f64::NAN, 4.0, 2.0, 3.0, 2.0].map(num).to_vec();
    assert_eq!(nearest(&d), Some(2));
    assert_eq!(nearest(&vec![]), None);
    assert_eq!(nearest(&vec![num(f64::INFINITY), num(f64::NAN)]), None);
}
