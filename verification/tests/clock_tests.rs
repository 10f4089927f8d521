use live_plotter::clock::{
    axis_label, format_x_val, format_x_val_at, local_offset, major_step, offset_or_zero, FIRST_SECOND,
    LAST_SECOND,
};
use live_plotter::number::Number;

fn num(v: f64) -> Number {
    Number { bits: v.to_bits() }
}

fn at(secs: i64, nanos: u32, offset: i32) -> String {
    format_x_val_at(true, secs, nanos, offset, "plain".to_string())
}

#[test]
fn clock_times_at_an_offset() {
    assert_eq!(at(0, 0, 0), "00:00:00");
    assert_eq!(at(3661, 500_000_000, 0), "01:01:01");
    assert_eq!(at(1_700_000_000, 0, 0), "22:13:20");
    assert_eq!(at(1_700_000_000, 0, 3600), "23:13:20");
    assert_eq!(at(0, 0, -1), "23:59:59");
    assert_eq!(at(-1, 0, 86399), "23:59:58");
    assert_eq!(at(59, 1_500_000_000, 0), "00:00:60");
}

#[test]
fn what_is_no_time_is_written_plain() {
    assert_eq!(at(0, 1_000_000_000, 0), "plain");
    assert_eq!(at(59, 2_000_000_000, 0), "plain");
    assert_eq!(at(i64::MAX, 0, 0), "plain");
    assert_eq!(at(i64::MIN, 0, 0), "plain");
    assert_eq!(format_x_val_at(false, 0, 0, 0, "12".to_string()), "12");
}

#[test]
fn the_calendar_has_a_first_and_a_last_second() {
    assert_eq!(at(FIRST_SECOND, 0, 0), "00:00:00");
    assert_eq!(at(FIRST_SECOND - 1, 0, 0), "plain");
    assert_eq!(at(LAST_SECOND, 0, 0), "23:59:59");
    assert_eq!(at(LAST_SECOND + 1, 0, 0), "plain");
    assert_eq!(at(FIRST_SECOND, 0, -1), "23:59:59");
    assert_eq!(at(LAST_SECOND, 0, 1), "00:00:00");
    let (on, wide) = (num(0.0), num(1e6));
    assert_eq!(axis_label(on, LAST_SECOND, 1, wide, num(1.0)), "01/01 00:00");
    assert_eq!(axis_label(on, FIRST_SECOND, -1, wide, num(1.0)), "12/31 23:59");
}

#[test]
fn local_times() {
    let offset = local_offset(1_700_000_000);
    assert!(-86400 < offset && offset < 86400);
    let text = format_x_val(true, 1_700_000_000, 0, "plain".to_string());
    assert_eq!(text, at(1_700_000_000, 0, offset));
    assert_eq!(format_x_val(true, i64::MAX, 0, "plain".to_string()), "plain");
    assert_eq!(format_x_val(false, 0, 0, "plain".to_string()), "plain");
    assert_eq!(local_offset(i64::MAX), 0);
}

#[test]
fn an_offset_that_was_not_found_is_zero() {
    assert_eq!(offset_or_zero(Some(-3600)), -3600);
    assert_eq!(offset_or_zero(Some(86399)), 86399);
    assert_eq!(offset_or_zero(None), 0);
}

#[test]
fn axis_labels_fit_the_span() {
    let (on, t) = (num(0.0), 1_700_000_000);
    assert_eq!(axis_label(on, t, 0, num(86401.0), num(3600.0)), "11/14 22:13");
    assert_eq!(axis_label(on, t, 0, num(86400.0), num(60.0)), "22:13");
    assert_eq!(axis_label(on, t, 0, num(100.0), num(30.0)), "22:13:20");
    assert_eq!(axis_label(on, 951_782_400, 0, num(1e6), num(1.0)), "02/29 00:00");
}

#[test]
fn marks_off_the_major_step_have_no_label() {
    assert_eq!(axis_label(num(1e-5), 0, 0, num(100.0), num(1.0)), "");
    assert_eq!(axis_label(num(9e-6), 0, 0, num(100.0), num(1.0)), "00:00:00");
    assert_eq!(axis_label(num(f64::NAN), 0, 0, num(100.0), num(1.0)), "");
    assert_eq!(axis_label(num(0.0), i64::MAX, 0, num(100.0), num(1.0)), "");
}

#[test]
fn the_widest_step_that_fits_is_taken() {
    let step = |span: f64| major_step(&|s: u32| num(span / s as f64));
    assert_eq!(step(4.0 * 86400.0), 86400);
    assert_eq!(step(4.0 * 86400.0 - 1.0), 43200);
    assert_eq!(step(500.0), 120);
    assert_eq!(step(20.0), 5);
    assert_eq!(step(1.0), 1);
    assert_eq!(step(f64::NAN), 1);
}
