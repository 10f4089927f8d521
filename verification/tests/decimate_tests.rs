use live_plotter::buffer::{Point, SeriesBuffer};
use live_plotter::decimate::{m4, m4_lines};
use live_plotter::number::Number;

fn num(v: f64) -> Number {
    Number { bits: v.to_bits() }
}

fn val(n: Number) -> f64 {
    f64::from_bits(n.bits)
}

fn series(ys: &[f64]) -> SeriesBuffer {
    let mut b = SeriesBuffer::new(1000);
    for (i, &y) in ys.iter().enumerate() {
        b.push(Point { x: num(i as f64), y: num(y) });
    }
    b
}

fn xs(points: &[Point]) -> Vec<f64> {
    points.iter().map(|p| val(p.x)).collect()
}

#[test]
fn few_samples_are_all_kept() {
    let b = series(&[1.0, 5.0, 2.0, 7.0]);
    assert_eq!(xs(&m4(&b, 0, 4, 1, &vec![0; 4])), vec![0.0, 1.0, 2.0, 3.0]);
    assert_eq!(xs(&m4(&b, 1, 3, 0, &vec![0; 2])), vec![1.0, 2.0]);
    assert_eq!(xs(&m4(&b, 2, 2, 5, &vec![])), Vec::<f64>::new());
    assert_eq!(m4_lines(&b, 0, 4, 1, &vec![0, 9, 20, 30]).len(), 1);
}

#[test]
fn a_column_keeps_first_lowest_highest_and_last() {
    let b = series(&[3.0, 9.0, 4.0, 1.0, 2.0, 3.0]);
    assert_eq!(xs(&m4(&b, 0, 6, 1, &vec![0; 6])), vec![0.0, 1.0, 3.0, 5.0]);
}

#[test]
fn a_sample_is_kept_once() {
    let falling = series(&[5.0, 4.0, 3.0, 2.0, 1.0]);
    assert_eq!(xs(&m4(&falling, 0, 5, 1, &vec![0; 5])), vec![0.0, 4.0]);
    let level = series(&[2.0, 2.0, 2.0, 2.0, 2.0]);
    assert_eq!(xs(&m4(&level, 0, 5, 1, &vec![0; 5])), vec![0.0, 4.0]);
    let peak = series(&[1.0, 2.0, 8.0, 2.0, 1.5]);
    assert_eq!(xs(&m4(&peak, 0, 5, 1, &vec![0; 5])), vec![0.0, 2.0, 4.0]);
}

#[test]
fn each_column_is_decimated_by_itself() {
    let b = series(&[0.0, 5.0, -5.0, 1.0, 1.0, 1.0, 7.0, 1.0, 1.0, 3.0]);
    let cols = vec![0, 0, 0, 0, 1, 1, 1, 1, 1, 4];
    assert_eq!(
        xs(&m4(&b, 0, 10, 2, &cols)),
        vec![0.0, 1.0, 2.0, 3.0, 4.0, 6.0, 8.0, 9.0]
    );
}

#[test]
fn a_window_is_decimated_from_its_start() {
    let b = series(&[9.0, 9.0, 3.0, 8.0, 4.0, 1.0, 2.0, 3.0, 9.0]);
    assert_eq!(xs(&m4(&b, 2, 8, 1, &vec![7; 6])), vec![2.0, 3.0, 5.0, 7.0]);
}

#[test]
fn lines_break_where_columns_are_empty() {
    let b = series(&[1.0, 2.0, 3.0, 4.0, 5.0, 6.0, 7.0, 8.0, 9.0]);
    let cols = vec![0, 0, 0, 1, 1, 5, 5, 5, 6];
    let lines = m4_lines(&b, 0, 9, 2, &cols);
    assert_eq!(lines.len(), 2);
    assert_eq!(xs(&lines[0]), vec![0.0, 2.0, 3.0, 4.0]);
    assert_eq!(xs(&lines[1]), vec![5.0, 7.0, 8.0]);
    let together: Vec<Point> = lines.concat();
    assert_eq!(together, m4(&b, 0, 9, 2, &cols));
}

#[test]
fn columns_at_the_ends_of_their_range_are_told_apart() {
    let b = series(&[1.0, 2.0, 3.0, 4.0, 5.0, 6.0]);
    let cols = vec![i64::MIN, i64::MIN, i64::MIN, i64::MAX, i64::MAX, i64::MAX];
    let lines = m4_lines(&b, 0, 6, 1, &cols);
    assert_eq!(lines.len(), 2);
    assert_eq!(xs(&lines[1]), vec![3.0, 5.0]);
}

#[test]
fn spikes_stay_within_what_is_kept() {
    let ys: Vec<f64> = (0..200).map(|i| ((i * 37 + 11) % 101) as f64).collect();
    let b = series(&ys);
    let cols: Vec<i64> = (0..200).map(|i| i / 25).collect();
    let kept = m4(&b, 0, 200, 8, &cols);
    assert!(kept.len() <= 32);
    for c in 0..8usize {
        let in_column = |p: &&Point| val(p.x) as usize / 25 == c;
        let lo = kept.iter().filter(in_column).map(|p| val(p.y)).fold(f64::INFINITY, f64::min);
        let hi = kept.iter().filter(in_column).map(|p| val(p.y)).fold(f64::NEG_INFINITY, f64::max);
        for y in &ys[c * 25..(c + 1) * 25] {
            assert!(lo <= *y && *y <= hi);
        }
    }
    let order = xs(&kept);
    assert!(order.windows(2).all(|w| w[0] < w[1]));
}

#[test]
fn spikes_stay_visible_beside_what_is_no_number() {
    let b = series(&[f64::NAN, 5.0, 1.0, 9.0, 2.0]);
    assert_eq!(xs(&m4(&b, 0, 5, 1, &vec![0; 5])), vec![0.0, 2.0, 3.0, 4.0]);
    let b = series(&[f64::NAN, f64::NAN, 4.0, 4.0, f64::NAN, f64::NAN]);
    assert_eq!(xs(&m4(&b, 0, 6, 1, &vec![0; 6])), vec![0.0, 2.0, 5.0]);
    let b = series(&[2.0, f64::NAN, 8.0, f64::NAN, 1.0, 3.0]);
    assert_eq!(xs(&m4(&b, 0, 6, 1, &vec![0; 6])), vec![0.0, 2.0, 4.0, 5.0]);
    let b = series(&[f64::NAN; 5]);
    assert_eq!(xs(&m4(&b, 0, 5, 1, &vec![0; 5])), vec![0.0, 4.0]);
}

#[test]
fn the_first_of_equal_extremes_is_kept() {
    let b = series(&[3.0, 7.0, 1.0, 7.0, 1.0, 3.0]);
    assert_eq!(xs(&m4(&b, 0, 6, 1, &vec![0; 6])), vec![0.0, 1.0, 2.0, 5.0]);
}

#[test]
fn lines_break_over_empty_columns_behind_them_too() {
    let b = series(&[1.0; 7]);
    let lines = m4_lines(&b, 0, 7, 1, &vec![5, 5, 5, 5, 5, 1, 1]);
    assert_eq!(lines.len(), 2);
    assert_eq!(xs(&lines[0]), vec![0.0, 4.0]);
    assert_eq!(xs(&lines[1]), vec![5.0, 6.0]);
    // One column back leaves none empty.
    assert_eq!(m4_lines(&b, 0, 7, 1, &vec![5, 5, 5, 5, 5, 4, 4]).len(), 1);
    let ends = vec![i64::MAX, i64::MAX, i64::MAX, i64::MAX, i64::MIN, i64::MIN, i64::MIN];
    assert_eq!(m4_lines(&b, 0, 7, 1, &ends).len(), 2);
}

#[test]
fn lines_go_on_over_columns_that_hold_samples() {
    let b = series(&[1.0; 5]);
    let lines = m4_lines(&b, 0, 5, 1, &vec![1, 2, 3, 1, 3]);
    assert_eq!(lines.len(), 1);
    assert_eq!(xs(&lines[0]), vec![0.0, 1.0, 2.0, 3.0, 4.0]);
    // Column 2 is taken by the last sample only.
    assert_eq!(m4_lines(&b, 0, 5, 1, &vec![1, 1, 3, 3, 2]).len(), 1);
    // Column 2 is empty, and every step over it is cut.
    assert_eq!(m4_lines(&b, 0, 5, 1, &vec![1, 3, 1, 3, 4]).len(), 4);
}

#[test]
fn a_run_keeps_the_same_samples_anywhere() {
    let ys = [3.0, 9.0, 4.0, 1.0, 2.0, 3.0];
    let alone = m4(&series(&ys), 0, 6, 1, &vec![4; 6]);
    let mut more = vec![-50.0, 70.0, 0.0];
    more.extend(ys);
    more.extend([80.0, -60.0]);
    let cols = vec![0, 0, 3, 4, 4, 4, 4, 4, 4, 5, 9];
    let kept = m4(&series(&more), 0, 11, 1, &cols);
    let there: Vec<f64> = xs(&kept).into_iter().filter(|x| (3.0..9.0).contains(x)).map(|x| x - 3.0).collect();
    assert_eq!(there, xs(&alone));
}

#[test]
fn decimating_twice_changes_nothing() {
    let ys: Vec<f64> = (0..200).map(|i| if i % 23 == 0 { f64::NAN } else { ((i * 37 + 11) % 101) as f64 }).collect();
    let b = series(&ys);
    let cols: Vec<i64> = (0..200).map(|i| i / 20).collect();
    let once = m4(&b, 0, 200, 4, &cols);
    let mut again = SeriesBuffer::new(1000);
    let mut cols_again = Vec::new();
    for p in &once {
        again.push(*p);
        cols_again.push(cols[val(p.x) as usize]);
    }
    assert!(once.len() > 16 && once.len() < 200);
    assert_eq!(m4(&again, 0, once.len(), 4, &cols_again), once);
}
