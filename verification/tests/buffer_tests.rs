use live_plotter::buffer::{Point, SeriesBuffer};
use live_plotter::number::Number;

fn num(v: f64) -> Number {
    Number { bits: v.to_bits() }
}

fn pt(x: f64, y: f64) -> Point {
    Point { x: num(x), y: num(y) }
}

fn held(b: &SeriesBuffer) -> Vec<Point> {
    b.range(0, b.len())
}

fn filled(xs: &[f64]) -> SeriesBuffer {
    let mut b = SeriesBuffer::new(100);
    for &x in xs {
        b.push(pt(x, 0.0));
    }
    b
}

#[test]
fn a_new_buffer_is_empty() {
    let b = SeriesBuffer::new(3);
    assert!(b.is_empty());
    assert_eq!(b.len(), 0);
    assert_eq!(b.first(), None);
    assert_eq!(b.last(), None);
    assert_eq!(b.search_x(num(1.0)), 0);
}

#[test]
fn a_full_buffer_drops_its_oldest_sample() {
    let mut b = SeriesBuffer::new(2);
    for i in 1..=5 {
        b.push(pt(i as f64, 10.0 * i as f64));
    }
    assert_eq!(b.len(), 2);
    assert_eq!(b.first(), Some(&pt(4.0, 40.0)));
    assert_eq!(b.last(), Some(&pt(5.0, 50.0)));
    assert_eq!(b.get(0), pt(4.0, 40.0));
}

#[test]
fn a_buffer_for_nothing_holds_the_last_sample() {
    let mut b = SeriesBuffer::new(0);
    b.push(pt(1.0, 1.0));
    assert_eq!(b.len(), 1);
    b.push(pt(2.0, 2.0));
    assert_eq!(held(&b), vec![pt(2.0, 2.0)]);
}

#[test]
fn late_samples_settle_in_time_order() {
    let mut b = SeriesBuffer::new(10);
    for x in [1.0, 5.0, 3.0, 3.0, 0.5, 9.0] {
        let y = b.len() as f64;
        b.push_in_order(pt(x, y));
    }
    assert_eq!(
        held(&b),
        vec![
            pt(0.5, 4.0),
            pt(1.0, 0.0),
            pt(3.0, 2.0),
            pt(3.0, 3.0),
            pt(5.0, 1.0),
            pt(9.0, 5.0)
        ]
    );
}

#[test]
fn a_late_sample_in_a_full_buffer_still_evicts_the_oldest() {
    let mut b = SeriesBuffer::new(2);
    b.push_in_order(pt(5.0, 0.0));
    b.push_in_order(pt(6.0, 1.0));
    b.push_in_order(pt(1.0, 2.0));
    assert_eq!(held(&b), vec![pt(1.0, 2.0), pt(6.0, 1.0)]);
}

#[test]
fn search_finds_the_first_sample_that_is_not_before() {
    let b = filled(&[1.0, 2.0, 2.0, 4.0]);
    assert_eq!(b.search_x(num(0.0)), 0);
    assert_eq!(b.search_x(num(1.0)), 0);
    assert_eq!(b.search_x(num(1.5)), 1);
    assert_eq!(b.search_x(num(2.0)), 1);
    assert_eq!(b.search_x(num(3.0)), 3);
    assert_eq!(b.search_x(num(4.5)), 4);
    assert_eq!(b.search_x(num(f64::NAN)), 0);
}

#[test]
fn later_searches_end_no_earlier() {
    let b = filled(&[3.0, 1.0, 4.0, 1.0, 5.0, 9.0, 2.0]);
    let mut before = 0;
    for i in 0..12 {
        let k = b.search_x(num(i as f64));
        assert!(before <= k);
        before = k;
    }
}

#[test]
fn clear_keeps_the_capacity() {
    let mut b = SeriesBuffer::new(1);
    b.push(pt(1.0, 1.0));
    b.clear();
    assert!(b.is_empty());
    b.push(pt(2.0, 2.0));
    b.push(pt(3.0, 3.0));
    assert_eq!(held(&b), vec![pt(3.0, 3.0)]);
}

#[test]
fn range_is_half_open() {
    let b = filled(&[1.0, 2.0, 3.0, 4.0]);
    assert_eq!(b.range(1, 3), vec![pt(2.0, 0.0), pt(3.0, 0.0)]);
    assert_eq!(b.range(2, 2), vec![]);
}
