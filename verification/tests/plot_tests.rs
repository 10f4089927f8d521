use live_plotter::buffer::{Point, SeriesBuffer};
use live_plotter::extent::{Candidate, Extent};
use live_plotter::legend::{corner_of_lower, legend_corner, BadLegendPos, Corner};
use live_plotter::number::Number;
use live_plotter::palette::dimmed;
use live_plotter::plot::{
    series_lines, LineStyle, ListItem, LivePlotApp, Options, Status, Tone, ViewMode, ViewRect, XAnchor, YAnchor,
};

fn num(v: f64) -> Number {
    Number { bits: v.to_bits() }
}

fn val(n: Number) -> f64 {
    f64::from_bits(n.bits)
}

fn pt(x: f64, y: f64) -> Point {
    Point { x: num(x), y: num(y) }
}

fn options(pos: &str) -> Options {
    Options {
        include_y: vec![num(0.0)],
        colors: None,
        title: "Title".to_string(),
        timestamp: true,
        max_tau: num(60.0),
        viewport_width: num(500.0),
        legend_pos: pos.to_string(),
    }
}

fn app(labels: usize) -> LivePlotApp {
    let labels = (0..labels).map(|i| format!("s{}", i)).collect();
    LivePlotApp::new(options("LeftTop"), labels).unwrap()
}

fn view(min_x: f64, max_x: f64) -> ViewRect {
    ViewRect { min_x: num(min_x), min_y: num(-1.0), max_x: num(max_x), max_y: num(1.0) }
}

fn series(n: usize) -> SeriesBuffer {
    let mut b = SeriesBuffer::new(10_000);
    for i in 0..n {
        b.push(pt(i as f64, (i % 7) as f64));
    }
    b
}

fn whole(x: Number) -> i64 {
    val(x) as i64 / 100
}

#[test]
fn legend_positions_in_any_case() {
    assert_eq!(legend_corner("none"), Ok(None));
    assert_eq!(legend_corner("LeftTop"), Ok(Some(Corner::LeftTop)));
    assert_eq!(legend_corner("RIGHTTOP"), Ok(Some(Corner::RightTop)));
    assert_eq!(legend_corner("leftBottom"), Ok(Some(Corner::LeftBottom)));
    assert_eq!(legend_corner("rightbottom"), Ok(Some(Corner::RightBottom)));
    for bad in ["", "top", "left top", "Lefttöp"] {
        assert_eq!(legend_corner(bad), Err(BadLegendPos));
    }
    assert_eq!(corner_of_lower(&"LeftTop".to_string()), Err(BadLegendPos));
}

#[test]
fn a_window_opens_in_its_initial_state() {
    let a = app(2);
    assert_eq!(a.labels, vec!["s0", "s1"]);
    assert_eq!(a.visible, vec![true, true]);
    assert_eq!(a.highlighted, vec![false, false]);
    assert_eq!(a.colors.len(), 256);
    assert_eq!(a.include_y_values, vec![num(0.0)]);
    assert_eq!((a.title.as_str(), a.is_ts_mode, a.legend_corner), ("Title", true, Some(Corner::LeftTop)));
    assert_eq!((a.tau, a.max_tau, a.default_width), (num(0.000001), num(60.0), num(500.0)));
    assert_eq!((a.x_zoom, a.scroll_offset, a.y_zoom), (num(1.0), num(0.0), num(1.0)));
    assert_eq!((a.y_min, a.y_max, a.y_nat_h), (num(-1.0), num(1.0), num(1.0)));
    assert_eq!((a.anchor_x, a.anchor_y), (XAnchor::Right, YAnchor::Bottom));
    assert!(a.auto_follow && !a.identifying && !a.view_settling && !a.side_panel_collapsed);
    assert!(a.identified.is_none() && a.last_view_rect.is_none() && a.cached_lines.is_empty());
    assert_eq!(a.cached_bins, 0);
    assert!(matches!(LivePlotApp::new(options("middle"), vec![]), Err(BadLegendPos)));
}

#[test]
fn series_are_shown_and_hidden() {
    let mut a = app(3);
    a.cached_lines = vec![vec![]];
    a.toggle_visible(1);
    assert_eq!(a.visible, vec![true, false, true]);
    assert!(a.cached_lines.is_empty());
    a.toggle_visible(1);
    assert_eq!(a.visible, vec![true, true, true]);
    a.hide_all();
    assert_eq!(a.visible, vec![false; 3]);
    a.show_all();
    assert_eq!(a.visible, vec![true; 3]);
}

#[test]
fn the_last_highlight_takes_the_identified_sample_along() {
    let mut a = app(3);
    a.toggle_highlight(0);
    a.toggle_highlight(2);
    let found = Some(Candidate { series: 2, point: pt(1.0, 2.0) });
    a.identified = found;
    a.toggle_highlight(2);
    assert_eq!(a.identified, found);
    a.toggle_highlight(0);
    assert_eq!(a.identified, None);
    assert!(!a.any_highlighted());
    a.toggle_highlight(1);
    a.identified = found;
    a.unhighlight();
    assert_eq!((a.highlighted.clone(), a.identified), (vec![false; 3], None));
}

#[test]
fn clicks_in_the_legend() {
    let mut a = app(2);
    a.legend_clicked(Some(1), true);
    assert_eq!(a.highlighted, vec![false, true]);
    a.legend_clicked(None, false);
    assert_eq!(a.highlighted, vec![false, true]);
    assert_eq!((a.legend_tone(0), a.legend_tone(1)), (Tone::Dull, Tone::Bright));
    a.legend_clicked(None, true);
    assert_eq!(a.highlighted, vec![false, false]);
    assert_eq!(a.legend_tone(0), Tone::Normal);
}

#[test]
fn clicks_in_the_list_of_series() {
    let mut a = app(2);
    a.list_clicked(Some(ListItem::Swatch(1)), true);
    assert_eq!(a.highlighted, vec![false, true]);
    a.cached_lines = vec![vec![]];
    a.list_clicked(Some(ListItem::Label(0)), true);
    assert_eq!((a.visible.clone(), a.highlighted.clone()), (vec![false, true], vec![false, true]));
    assert!(a.cached_lines.is_empty());
    a.list_clicked(None, false);
    assert_eq!(a.highlighted, vec![false, true]);
    a.identified = Some(Candidate { series: 1, point: pt(1.0, 2.0) });
    a.list_clicked(None, true);
    assert_eq!((a.highlighted.clone(), a.identified), (vec![false, false], None));
    assert_eq!(a.visible, vec![false, true]);
}

#[test]
fn lines_of_late_samples_are_cut_at_gaps() {
    let mut b = SeriesBuffer::new(1000);
    for i in 0..70 {
        b.push(pt(500.0 + i as f64, 0.0));
    }
    for i in 0..70 {
        b.push(pt(100.0 + i as f64, 0.0));
    }
    let lines = series_lines(&b, true, view(0.0, 1000.0), 10, &whole);
    assert_eq!(lines.len(), 2);
    assert_eq!((lines[0][0], lines[1][0]), (pt(500.0, 0.0), pt(100.0, 0.0)));
}

#[test]
fn swatches_fade_beside_a_highlight() {
    let mut a = app(2);
    assert_eq!(a.swatch_color(0), a.colors[0]);
    a.toggle_highlight(1);
    assert_eq!(a.swatch_color(1), a.colors[1]);
    assert_eq!(a.swatch_color(0), dimmed(a.colors[0]));
    assert_ne!(a.swatch_color(0), a.colors[0]);
}

#[test]
fn the_status_field() {
    let mut a = app(1);
    assert_eq!(a.status(true), Status::Ended);
    assert_eq!(a.status(false), Status::Live);
    a.x_zoomed(num(2.0), num(7.0));
    assert_eq!(a.status(false), Status::Explore);
    assert_eq!((a.x_zoom, a.scroll_offset), (num(2.0), num(7.0)));
    a.reset_viewport();
    assert_eq!(a.status(false), Status::Live);
    assert_eq!(a.x_zoom, num(1.0));
}

#[test]
fn anchors_stay_in_place() {
    let (l, c, r) = (num(1.0), num(2.0), num(3.0));
    assert_eq!(XAnchor::Left.pick(l, c, r), l);
    assert_eq!(XAnchor::Center.pick(l, c, r), c);
    assert_eq!(XAnchor::Right.pick(l, c, r), r);
    assert_eq!(YAnchor::Top.pick(l, c, r), l);
    assert_eq!(YAnchor::Center.pick(l, c, r), c);
    assert_eq!(YAnchor::Bottom.pick(l, c, r), r);
    let at = num(10.0);
    let range = |y: YAnchor| y.range(at, num(2.0), num(6.0), num(14.0), num(18.0));
    assert_eq!(range(YAnchor::Top), (num(2.0), at));
    assert_eq!(range(YAnchor::Center), (num(6.0), num(14.0)));
    assert_eq!(range(YAnchor::Bottom), (at, num(18.0)));
}

#[test]
fn the_viewport_keeps_up_with_the_stream() {
    let mut a = app(1);
    a.keep_up(num(40.0), num(10.0));
    assert_eq!(a.scroll_offset, num(40.0));
    a.keep_up(num(-40.0), num(10.0));
    assert_eq!(a.scroll_offset, num(10.0));
    a.y_zoomed(num(3.0), (num(-5.0), num(5.0)));
    a.keep_up(num(99.0), num(10.0));
    assert_eq!(a.scroll_offset, num(10.0));
    assert_eq!((a.y_zoom, a.y_min, a.y_max), (num(3.0), num(-5.0), num(5.0)));
}

#[test]
fn columns_are_coarse_for_six_frames() {
    let mut a = app(1);
    assert_eq!(a.bins(1000), 1000);
    assert!(!a.note_interaction(true));
    assert!(!a.auto_follow);
    assert_eq!(a.bins(1000), 250);
    for left in (0..6).rev() {
        assert!(a.note_interaction(false));
        assert_eq!(a.interacting_frames, left);
    }
    assert!(!a.note_interaction(false));
    assert_eq!(a.bins(1000), 1000);
}

#[test]
fn there_are_at_least_sixteen_columns() {
    let mut a = app(1);
    assert_eq!(a.bins(0), 16);
    a.note_interaction(true);
    assert_eq!(a.bins(40), 16);
    assert_eq!(a.bins(68), 17);
}

#[test]
fn the_view_follows_applies_or_syncs() {
    let mut a = app(1);
    assert_eq!(a.view_mode(true), ViewMode::Follow);
    a.follow(num(3.0), (num(-2.0), num(2.0)), num(0.0));
    assert_eq!((a.scroll_offset, a.y_min, a.y_max), (num(3.0), num(-2.0), num(2.0)));
    assert_eq!((a.y_nat_h, a.y_zoom), (num(0.001), num(1.0)));
    let all = Extent { first_x: num(1.0), last_x: num(9.0), min_y: num(-4.0), max_y: num(6.0) };
    a.zoom_to_all(all, num(62.5), num(10.0));
    assert!(!a.auto_follow);
    assert_eq!((a.scroll_offset, a.x_zoom, a.y_nat_h), (num(1.0), num(62.5), num(10.0)));
    assert_eq!((a.y_min, a.y_max), (num(-4.0), num(6.0)));
    assert_eq!(a.view_mode(true), ViewMode::Apply);
    assert_eq!(a.view_mode(false), ViewMode::Sync);
    a.sync(view(5.0, 7.0), num(2.0), num(250.0), num(2.0), num(0.0));
    assert_eq!((a.scroll_offset, a.x_zoom, a.y_zoom), (num(5.0), num(250.0), num(0.001)));
    a.sync(view(6.0, 6.0), num(0.0), num(9.0), num(f64::NAN), num(9.0));
    assert_eq!((a.scroll_offset, a.x_zoom, a.y_zoom), (num(6.0), num(250.0), num(0.001)));
}

#[test]
fn lines_are_made_when_they_are_stale() {
    let mut a = app(2);
    a.toggle_visible(1);
    let data = vec![series(1000), series(1000)];
    let v = view(0.0, 1000.0);
    assert!(a.refresh_lines(&data, false, v, 20, &whole));
    assert_eq!(a.cached_lines.len(), 2);
    assert_eq!(a.cached_lines[0].len(), 1);
    // Ten columns of four, but for the three that begin with an extreme.
    assert_eq!(a.cached_lines[0][0].len(), 37);
    assert!(a.cached_lines[1].is_empty());
    assert!(a.view_settling);
    assert!(a.refresh_lines(&data, false, v, 20, &whole));
    assert!(!a.view_settling);
    assert!(!a.refresh_lines(&data, false, v, 20, &whole));
    assert!(a.need_recompute(true, v, 20));
    assert!(a.need_recompute(false, view(0.0, 999.0), 20));
    assert!(!a.need_recompute(false, v, 20));
    a.set_tau(num(2.0));
    assert!(a.need_recompute(false, v, 20));
}

#[test]
fn a_view_without_numbers_is_never_fresh() {
    let mut a = app(1);
    let v = view(f64::NAN, f64::NAN);
    a.refresh_lines(&vec![series(10)], false, v, 100, &whole);
    assert!(a.need_recompute(false, v, 100));
    assert_eq!(a.cached_lines[0], vec![vec![]]);
}

#[test]
fn lines_on_a_narrow_plot_stay() {
    let mut a = app(1);
    let data = vec![series(10)];
    let v = view(0.0, 10.0);
    a.note_interaction(true);
    a.refresh_lines(&data, false, v, 10, &whole);
    assert_eq!(a.cached_bins, 16);
    assert!(!a.need_recompute(false, v, 10));
    assert!(a.need_recompute(false, v, 100));
}

#[test]
fn coarse_lines_are_made_anew_when_the_view_has_settled() {
    let mut a = app(1);
    let data = vec![series(1000)];
    let v = view(0.0, 1000.0);
    let tens = |x: Number| val(x) as i64 / 10;
    a.note_interaction(true);
    a.refresh_lines(&data, false, v, 400, &tens);
    assert_eq!(a.cached_bins, 100);
    let coarse = a.cached_lines[0][0].len();
    assert!(coarse < 1000);
    while a.note_interaction(false) {
        if a.interacting_frames > 0 {
            a.refresh_lines(&data, false, v, 400, &tens);
            assert_eq!(a.cached_lines[0][0].len(), coarse);
        }
    }
    assert!(a.need_recompute(false, v, 400));
    a.refresh_lines(&data, false, v, 400, &tens);
    assert_eq!(a.cached_bins, 400);
    assert_eq!(a.cached_lines[0][0].len(), 1000);
    assert!(!a.need_recompute(false, v, 400));
}

#[test]
fn lines_of_one_series() {
    let b = series(10);
    let lines = series_lines(&b, true, view(2.5, 5.5), 100, &whole);
    assert_eq!(lines, vec![b.range(2, 6)]);
    assert!(series_lines(&b, false, view(2.5, 5.5), 100, &whole).is_empty());
    assert!(series_lines(&series(0), true, view(2.5, 5.5), 100, &whole).is_empty());
}

#[test]
fn highlighted_lines_stand_out() {
    let mut a = app(3);
    a.cached_lines = vec![vec![vec![pt(0.0, 0.0)]], vec![vec![pt(0.0, 0.0)]], vec![]];
    assert_eq!(a.line_style(0), Some(LineStyle { width_tenths: 15, opacity_percent: 100 }));
    assert_eq!(a.line_style(2), None);
    a.toggle_highlight(0);
    assert_eq!(a.line_style(0), Some(LineStyle { width_tenths: 25, opacity_percent: 100 }));
    assert_eq!(a.line_style(1), Some(LineStyle { width_tenths: 10, opacity_percent: 25 }));
    a.visible[1] = false;
    assert_eq!(a.line_style(1), None);
}

#[test]
fn lines_without_samples_have_no_style() {
    let mut a = app(1);
    a.refresh_lines(&vec![series(10)], false, view(-9.0, -5.0), 100, &whole);
    assert_eq!(a.cached_lines[0], vec![vec![]]);
    assert_eq!(a.line_style(0), None);
    a.cached_lines = vec![vec![vec![], vec![pt(0.0, 0.0)]]];
    assert!(a.line_style(0).is_some());
}

#[test]
fn a_click_identifies_the_nearest_sample() {
    let mut a = app(2);
    let data = vec![series(10), series(0)];
    let distance = |c: Candidate| num((val(c.point.x) - 4.2).abs());
    a.identify(&data, &distance, num(1.0));
    assert_eq!(a.identified, None);
    a.toggle_identify();
    assert!(a.identifying);
    a.identify(&data, &distance, num(1.0));
    assert_eq!(a.identified, Some(Candidate { series: 0, point: pt(4.0, 4.0) }));
    assert_eq!(a.highlighted, vec![true, false]);
    assert!(!a.identifying);
    assert_eq!(a.caption("4.0000", "00:00:04").unwrap(), "s0 ➔ Y: 4.0000 | X: 00:00:04");
    a.toggle_identify();
    assert_eq!(a.identified, None);
    a.identify(&data, &distance, num(0.1));
    assert_eq!(a.identified, None);
    assert!(!a.identifying);
    assert_eq!(a.caption("", ""), None);
    a.toggle_identify();
    a.toggle_identify();
    assert!(!a.identifying);
}

#[test]
fn the_nearest_sample_may_be_far_along_the_time_axis() {
    let mut a = app(2);
    let mut steep = SeriesBuffer::new(100);
    for i in 0..20 {
        steep.push(pt(i as f64 * 0.01, if i == 0 { 0.0 } else { 50.0 }));
    }
    let data = vec![steep, series(10)];
    // A click at (0.19, 0): nineteen samples of the first series are closer in
    // time than the one that is nearest.
    let distance = |c: Candidate| num((val(c.point.x) - 0.19).powi(2) + val(c.point.y).powi(2));
    a.toggle_visible(1);
    a.toggle_identify();
    a.identify(&data, &distance, num(1.0));
    assert_eq!(a.identified, Some(Candidate { series: 0, point: pt(0.0, 0.0) }));
    assert_eq!(a.highlighted, vec![true, false]);
    // Hidden series are passed over, and equal distances go to the first series.
    a.toggle_visible(1);
    a.toggle_identify();
    a.identify(&data, &distance, num(1.0));
    assert_eq!(a.identified.unwrap().series, 0);
    a.toggle_visible(0);
    a.toggle_identify();
    a.identify(&data, &distance, num(1.0));
    assert_eq!(a.identified, Some(Candidate { series: 1, point: pt(0.0, 0.0) }));
}

#[test]
fn all_series_are_smoothed_with_the_time_constant() {
    let mut a = app(1);
    let raw = vec![series(3)];
    let mut smoothed = vec![SeriesBuffer::new(10)];
    let zero = |_: Point, _: Point| num(0.5);
    a.recompute_smoothing(&raw, &mut smoothed, &zero);
    assert_eq!(smoothed[0].get(2), pt(2.0, 2.0));
    a.set_tau(num(1.0));
    a.recompute_smoothing(&raw, &mut smoothed, &zero);
    assert_eq!(smoothed[0].get(2), pt(2.0, 0.5));
    assert_eq!(smoothed[0].get(0), pt(0.0, 0.0));
}
