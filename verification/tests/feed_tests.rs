use live_plotter::buffer::{Point, SeriesBuffer};
use live_plotter::feed::{ingest, read_values, series_buffers, Feed, LineResult, Row};
use live_plotter::labels::display_labels;
use live_plotter::number::Number;

fn num(v: f64) -> Number {
    Number { bits: v.to_bits() }
}

fn val(n: Number) -> f64 {
    f64::from_bits(n.bits)
}

fn parse(s: &str) -> Option<Number> {
    s.parse::<f64>().ok().map(num)
}

fn clock(n: u64) -> Number {
    num(5.0 * n as f64)
}

fn half(prev: Point, cur: Point) -> Number {
    num((val(prev.y) + val(cur.y)) / 2.0)
}

fn held(b: &SeriesBuffer) -> Vec<(f64, f64)> {
    b.range(0, b.len()).iter().map(|p| (val(p.x), val(p.y))).collect()
}

struct Stream {
    feed: Feed,
    raw: Vec<SeriesBuffer>,
    smoothed: Vec<SeriesBuffer>,
}

fn stream(labels: &[&str], sort: bool, is_ts: bool, capacity: usize) -> Stream {
    let given: Vec<String> = labels.iter().map(|s| s.to_string()).collect();
    let shown = display_labels(&given, sort);
    Stream {
        feed: Feed::new(&given, &shown, is_ts),
        raw: series_buffers(given.len(), capacity),
        smoothed: series_buffers(given.len(), capacity),
    }
}

fn take(s: &mut Stream, line: &str, tau: f64) -> LineResult {
    s.feed.take_line(line, &parse, &clock, &mut s.raw, &mut s.smoothed, num(tau), &half)
}

#[test]
fn rows_without_a_time_are_counted() {
    let mut s = stream(&["a", "b"], false, false, 10);
    assert_eq!(take(&mut s, "1 2", 1e-6), LineResult::Taken);
    assert_eq!(take(&mut s, "   ", 1e-6), LineResult::Blank);
    assert_eq!(take(&mut s, "3,4", 1e-6), LineResult::Taken);
    assert_eq!(s.feed.seq, 2);
    assert_eq!(held(&s.raw[0]), vec![(0.0, 1.0), (5.0, 3.0)]);
    assert_eq!(held(&s.raw[1]), vec![(0.0, 2.0), (5.0, 4.0)]);
    assert_eq!(held(&s.smoothed[1]), held(&s.raw[1]));
}

#[test]
fn a_wrong_number_of_fields_is_refused() {
    let mut s = stream(&["a", "b"], false, false, 10);
    assert_eq!(take(&mut s, "1", 1e-6), LineResult::WrongCount { expected: 2, found: 1 });
    assert_eq!(take(&mut s, ",,", 1e-6), LineResult::WrongCount { expected: 2, found: 0 });
    let mut t = stream(&["a", "b"], false, true, 10);
    assert_eq!(take(&mut t, "1 2", 1e-6), LineResult::WrongCount { expected: 3, found: 2 });
    assert_eq!(s.feed.seq, 0);
    assert!(s.raw[0].is_empty() && s.smoothed[0].is_empty());
}

#[test]
fn a_time_that_is_no_number_is_refused() {
    let mut s = stream(&["a"], false, true, 10);
    assert_eq!(take(&mut s, "noon 1", 1e-6), LineResult::BadTime);
    assert_eq!(take(&mut s, "none 1", 1e-6), LineResult::BadTime);
    assert_eq!(s.feed.seq, 0);
    assert!(s.raw[0].is_empty());
}

#[test]
fn missing_and_unreadable_values_are_passed_over() {
    let mut s = stream(&["a", "b", "c", "d"], false, false, 10);
    assert_eq!(take(&mut s, "None NULL abc 4", 1e-6), LineResult::Taken);
    assert!(s.raw[0].is_empty() && s.raw[1].is_empty() && s.raw[2].is_empty());
    assert_eq!(held(&s.raw[3]), vec![(0.0, 4.0)]);
}

#[test]
fn columns_go_where_their_labels_are_shown() {
    let mut s = stream(&["b", "c", "a"], true, false, 10);
    take(&mut s, "1 2 3", 1e-6);
    assert_eq!(held(&s.raw[0]), vec![(0.0, 3.0)]);
    assert_eq!(held(&s.raw[1]), vec![(0.0, 1.0)]);
    assert_eq!(held(&s.raw[2]), vec![(0.0, 2.0)]);
}

#[test]
fn equal_labels_share_a_series() {
    let mut s = stream(&["a", "a"], false, false, 10);
    take(&mut s, "1 2", 1e-6);
    assert_eq!(held(&s.raw[0]), vec![(0.0, 1.0), (0.0, 2.0)]);
    assert!(s.raw[1].is_empty());
}

#[test]
fn late_rows_settle_among_the_raw_samples_only() {
    let mut s = stream(&["a"], false, true, 10);
    take(&mut s, "10 1", 1e-6);
    take(&mut s, "30 3", 1e-6);
    take(&mut s, "20 2", 1e-6);
    assert_eq!(held(&s.raw[0]), vec![(10.0, 1.0), (20.0, 2.0), (30.0, 3.0)]);
    assert_eq!(held(&s.smoothed[0]), vec![(10.0, 1.0), (30.0, 3.0), (20.0, 2.0)]);
}

#[test]
fn values_are_smoothed_as_they_come_in() {
    let mut s = stream(&["a"], false, false, 10);
    for line in ["0", "8", "8"] {
        take(&mut s, line, 1.0);
    }
    assert_eq!(held(&s.raw[0]), vec![(0.0, 0.0), (5.0, 8.0), (10.0, 8.0)]);
    assert_eq!(held(&s.smoothed[0]), vec![(0.0, 0.0), (5.0, 4.0), (10.0, 6.0)]);
}

#[test]
fn no_series_outgrows_its_limit() {
    let mut s = stream(&["a", "b"], false, true, 3);
    for i in 0..20 {
        take(&mut s, &format!("{} {} none", (i * 7) % 13, i), 1.0);
        assert!(s.raw[0].len() <= 3 && s.smoothed[0].len() <= 3);
        let x: Vec<f64> = held(&s.raw[0]).iter().map(|p| p.0).collect();
        assert!(x.windows(2).all(|w| w[0] <= w[1]));
    }
    assert!(s.raw[1].is_empty());
}

#[test]
fn values_are_read_from_a_field_on() {
    let fields = vec!["9", "1.5", "none", "x"];
    assert_eq!(read_values(&fields, 1, &parse), vec![Some(num(1.5)), None, None]);
    assert_eq!(read_values(&fields, 4, &parse), vec![]);
}

#[test]
fn a_row_goes_into_both_buffers() {
    let mut raw = series_buffers(2, 4);
    let mut smoothed = series_buffers(2, 4);
    let row = Row { x: num(1.0), values: vec![Some(num(2.0)), None] };
    ingest(&mut raw, &mut smoothed, true, &vec![1, 0], &row, num(1.0), &half);
    assert_eq!(held(&raw[1]), vec![(1.0, 2.0)]);
    assert_eq!(held(&smoothed[1]), vec![(1.0, 2.0)]);
    assert!(raw[0].is_empty());
}
