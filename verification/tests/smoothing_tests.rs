use live_plotter::buffer::{Point, SeriesBuffer};
use live_plotter::number::Number;
use live_plotter::smoothing::{recompute_smoothing, smooth_next, smooth_series};

fn num(v: f64) -> Number {
    Number { bits: v.to_bits() }
}

fn val(n: Number) -> f64 {
    f64::from_bits(n.bits)
}

fn pt(x: f64, y: f64) -> Point {
    Point { x: num(x), y: num(y) }
}

fn half(prev: Point, cur: Point) -> Number {
    num((val(prev.y) + val(cur.y)) / 2.0)
}

fn series(capacity: usize, ys: &[f64]) -> SeriesBuffer {
    let mut b = SeriesBuffer::new(capacity);
    for (i, &y) in ys.iter().enumerate() {
        b.push(pt(i as f64, y));
    }
    b
}

fn held(b: &SeriesBuffer) -> Vec<(f64, f64)> {
    b.range(0, b.len()).iter().map(|p| (val(p.x), val(p.y))).collect()
}

#[test]
fn every_sample_is_weighed_against_the_smoothed_one_before() {
    let raw = series(10, &[0.0, 8.0, 8.0, 0.0]);
    let mut out = series(10, &[99.0]);
    smooth_series(&raw, &mut out, num(1.0), &half);
    assert_eq!(held(&out), vec![(0.0, 0.0), (1.0, 4.0), (2.0, 6.0), (3.0, 3.0)]);
}

#[test]
fn nothing_is_smoothed_at_the_least_time_constant() {
    let raw = series(10, &[1.0, 5.0, 2.0]);
    let mut out = SeriesBuffer::new(10);
    smooth_series(&raw, &mut out, num(1e-6), &half);
    assert_eq!(held(&out), held(&raw));
    smooth_series(&raw, &mut out, num(1.1e-6), &half);
    assert_eq!(held(&out), vec![(0.0, 1.0), (1.0, 3.0), (2.0, 2.5)]);
    smooth_series(&raw, &mut out, num(f64::NAN), &half);
    assert_eq!(held(&out), vec![(0.0, 1.0), (1.0, 3.0), (2.0, 2.5)]);
}

#[test]
fn an_empty_series_empties_its_smoothed_one() {
    let raw = SeriesBuffer::new(10);
    let mut out = series(10, &[1.0, 2.0]);
    smooth_series(&raw, &mut out, num(1.0), &half);
    assert!(out.is_empty());
}

#[test]
fn all_series_are_smoothed_in_place() {
    let raw = vec![series(10, &[0.0, 2.0]), series(10, &[4.0])];
    let mut out = vec![SeriesBuffer::new(10), SeriesBuffer::new(10), series(10, &[7.0])];
    recompute_smoothing(&raw, &mut out, num(1.0), &half);
    assert_eq!(held(&out[0]), vec![(0.0, 0.0), (1.0, 1.0)]);
    assert_eq!(held(&out[1]), vec![(0.0, 4.0)]);
    assert_eq!(held(&out[2]), vec![(0.0, 7.0)]);
}

#[test]
fn smoothing_as_samples_come_in_gives_the_same() {
    let ys = [3.0, 1.0, 4.0, 1.0, 5.0, 9.0, 2.0, 6.0];
    let raw = series(100, &ys);
    let mut anew = SeriesBuffer::new(100);
    smooth_series(&raw, &mut anew, num(2.0), &half);
    let mut stream = SeriesBuffer::new(100);
    for (i, &y) in ys.iter().enumerate() {
        let cur = pt(i as f64, y);
        let smoothed = smooth_next(&stream, num(2.0), cur, &half);
        stream.push(Point { x: cur.x, y: smoothed });
    }
    assert_eq!(held(&stream), held(&anew));
}

#[test]
fn the_first_sample_keeps_its_value() {
    let none = SeriesBuffer::new(4);
    assert_eq!(smooth_next(&none, num(5.0), pt(1.0, 3.0), &half), num(3.0));
    let one = series(4, &[1.0]);
    assert_eq!(smooth_next(&one, num(5.0), pt(1.0, 3.0), &half), num(2.0));
    assert_eq!(smooth_next(&one, num(0.0), pt(1.0, 3.0), &half), num(3.0));
}

#[test]
fn smoothing_anew_forgets_what_was_there() {
    let raw = vec![series(10, &[0.0, 8.0, 8.0]), series(10, &[1.0, 5.0])];
    let mut out = vec![SeriesBuffer::new(10), SeriesBuffer::new(10)];
    let mut other = vec![series(10, &[9.0, 9.0, 9.0, 9.0]), series(10, &[7.0])];
    recompute_smoothing(&raw, &mut out, num(1.0), &half);
    recompute_smoothing(&raw, &mut other, num(1.0), &half);
    assert_eq!(held(&out[0]), vec![(0.0, 0.0), (1.0, 4.0), (2.0, 6.0)]);
    assert_eq!(held(&out[1]), vec![(0.0, 1.0), (1.0, 3.0)]);
    assert_eq!(held(&other[0]), held(&out[0]));
    assert_eq!(held(&other[1]), held(&out[1]));
    recompute_smoothing(&raw, &mut out, num(1.0), &half);
    assert_eq!(held(&out[0]), held(&other[0]));
    assert_eq!(held(&out[1]), held(&other[1]));
}
