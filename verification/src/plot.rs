//! The state of the plot window, and what each event does to it.

use vstd::prelude::*;
use vstd::string::StringExecFns;
use vstd::utf8::is_ascii_chars;
use crate::buffer::{in_time_order, Point, SeriesBuffer};
use crate::decimate::{decimated, drawn, lines_are_cut_at_gaps, m4_lines, spikes_stay_visible, POINTS_PER_COLUMN};
use crate::extent::{
    candidates, clickable, clickable_are_the_shown, clickable_at, clickable_in_turn, first_nearest, is_shown, line_end,
    line_start, line_window, lines_take_in_the_view, nearest, nearest_within, shown_before, shown_before_grows, within,
    Candidate, Extent,
};
use crate::legend::{corner_named, legend_corner, lowercase, BadLegendPos, Corner};
use crate::number::{Number, MINUS_ONE, ONE};
use crate::palette::{dimmed, generate_palette, named_colors, padded, premultiplied, Color, DIM_ALPHA, PALETTE_SIZE};
use crate::smoothing::{limits, recompute_smoothing, recomputed, samples, NO_SMOOTHING};
use crate::text::lowered;

verus! {

/// The frames that stay coarse after the last interaction.
pub const COARSE_FRAMES: u8 = 6;

/// The least number of columns that lines are decimated to.
pub const LEAST_BINS: usize = 16;

/// How many times fewer columns there are while the view is moved.
pub const COARSENESS: usize = 4;

/// `0.001`, the least height and the least zoom.
pub const LEAST: u64 = 0x3f50_624d_d2f1_a9fc;

/// What stays in place when the time axis is zoomed.
#[derive(Clone, Copy, Debug, PartialEq, Eq, Structural)]
pub enum XAnchor {
    Left,
    Center,
    Right,
}

/// What stays in place when the value axis is zoomed.
#[derive(Clone, Copy, Debug, PartialEq, Eq, Structural)]
pub enum YAnchor {
    Top,
    Center,
    Bottom,
}

/// What a click in the list of series is on.
#[derive(Clone, Copy, Debug, PartialEq, Eq, Structural)]
pub enum ListItem {
    Swatch(usize),
    Label(usize),
}

impl XAnchor {
    /// The one of three positions that is the anchor's.
    pub fn pick(self, left: Number, center: Number, right: Number) -> (r: Number)
        ensures
            self is Left ==> r == left,
            self is Center ==> r == center,
            self is Right ==> r == right,
    {
        match self {
            XAnchor::Left => left,
            XAnchor::Center => center,
            XAnchor::Right => right,
        }
    }
}

impl YAnchor {
    /// The one of three values that is the anchor's.
    pub fn pick(self, top: Number, center: Number, bottom: Number) -> (r: Number)
        ensures
            self is Top ==> r == top,
            self is Center ==> r == center,
            self is Bottom ==> r == bottom,
    {
        match self {
            YAnchor::Top => top,
            YAnchor::Center => center,
            YAnchor::Bottom => bottom,
        }
    }

    /// The range of values around an anchor that stays at `at`: `below` and
    /// `above` are a full height from it, the other two half a height.
    pub fn range(
        self,
        at: Number,
        below: Number,
        half_below: Number,
        half_above: Number,
        above: Number,
    ) -> (r: (Number, Number))
        ensures
            self is Top ==> r == (below, at),
            self is Center ==> r == (half_below, half_above),
            self is Bottom ==> r == (at, above),
    {
        match self {
            YAnchor::Top => (below, at),
            YAnchor::Center => (half_below, half_above),
            YAnchor::Bottom => (at, above),
        }
    }
}

/// The part of the plane that the plot shows.
#[derive(Clone, Copy, Debug, PartialEq, Eq, Structural)]
pub struct ViewRect {
    pub min_x: Number,
    pub min_y: Number,
    pub max_x: Number,
    pub max_y: Number,
}

/// The four bounds of two views are the same numbers.
pub open spec fn same_view(a: ViewRect, b: ViewRect) -> bool {
    &&& a.min_x.same_number(b.min_x)
    &&& a.min_y.same_number(b.min_y)
    &&& a.max_x.same_number(b.max_x)
    &&& a.max_y.same_number(b.max_y)
}

impl ViewRect {
    fn equals(self, other: ViewRect) -> (r: bool)
        ensures
            r == same_view(self, other),
    {
        self.min_x.equals(other.min_x) && self.min_y.equals(other.min_y) && self.max_x.equals(other.max_x)
            && self.max_y.equals(other.max_y)
    }
}

/// What the status field says.
#[derive(Clone, Copy, Debug, PartialEq, Eq, Structural)]
pub enum Status {
    Ended,
    Live,
    Explore,
}

/// How the text of a series in the legend stands out.
#[derive(Clone, Copy, Debug, PartialEq, Eq, Structural)]
pub enum Tone {
    Bright,
    Dull,
    Normal,
}

/// How a line is drawn: its width in tenths of a point, and how much of its
/// colour is left.
#[derive(Clone, Copy, Debug, PartialEq, Eq, Structural)]
pub struct LineStyle {
    pub width_tenths: u8,
    pub opacity_percent: u8,
}

/// Where the bounds of a frame come from.
#[derive(Clone, Copy, Debug, PartialEq, Eq, Structural)]
pub enum ViewMode {
    /// The latest samples.
    Follow,
    /// The state, which an event has changed.
    Apply,
    /// The plot, which the user may have moved.
    Sync,
}

/// What the user asks for at the start.
#[derive(Debug)]
pub struct Options {
    pub include_y: Vec<Number>,
    pub colors: Option<Vec<String>>,
    pub title: String,
    pub timestamp: bool,
    pub max_tau: Number,
    pub viewport_width: Number,
    pub legend_pos: String,
}

/// The state of the plot window.
#[derive(Debug)]
pub struct LivePlotApp {
    pub include_y_values: Vec<Number>,
    pub labels: Vec<String>,
    pub colors: Vec<Color>,
    pub visible: Vec<bool>,
    pub title: String,
    pub is_ts_mode: bool,
    pub legend_corner: Option<Corner>,
    pub side_panel_collapsed: bool,
    pub tau: Number,
    pub max_tau: Number,
    pub default_width: Number,
    pub x_zoom: Number,
    pub scroll_offset: Number,
    pub y_zoom: Number,
    pub y_min: Number,
    pub y_max: Number,
    pub y_nat_h: Number,
    pub auto_follow: bool,
    pub anchor_x: XAnchor,
    pub anchor_y: YAnchor,
    pub last_view_rect: Option<ViewRect>,
    pub view_settling: bool,
    /// For each series, the lines that are drawn.
    pub cached_lines: Vec<Vec<Vec<Point>>>,
    /// The number of columns that those lines were made for.
    pub cached_bins: usize,
    /// Counts down after an interaction; above zero, columns are coarse.
    pub interacting_frames: u8,
    /// Which series stand out.
    pub highlighted: Vec<bool>,
    /// The next click on the plot finds the nearest sample.
    pub identifying: bool,
    /// What the last such click found.
    pub identified: Option<Candidate>,
}

/// One of the flags is set.
pub open spec fn any_set(flags: Seq<bool>) -> bool {
    exists|i: int| 0 <= i < flags.len() && #[trigger] flags[i]
}

/// The flags after the `i`-th has been switched.
pub open spec fn toggled(flags: Seq<bool>, i: int) -> Seq<bool> {
    flags.update(i, !flags[i])
}

/// The frames that stay coarse after one more.
pub open spec fn next_frames(frames: u8, interacting: bool) -> u8 {
    if interacting {
        COARSE_FRAMES
    } else if frames > 0 {
        (frames - 1) as u8
    } else {
        0
    }
}

fn any(flags: &Vec<bool>) -> (r: bool)
    ensures
        r == any_set(flags@),
{
    let mut i: usize = 0;
    while i < flags.len()
        invariant
            i <= flags@.len(),
            forall|k: int| 0 <= k < i ==> !#[trigger] flags@[k],
        decreases flags@.len() - i,
    {
        if flags[i] {
            return true;
        }
        i = i + 1;
    }
    false
}

fn flags(n: usize, value: bool) -> (r: Vec<bool>)
    ensures
        r@ == Seq::new(n as nat, |i: int| value),
{
    let mut out: Vec<bool> = Vec::new();
    let mut i: usize = 0;
    while i < n
        invariant
            i <= n,
            out@ == Seq::new(i as nat, |k: int| value),
        decreases n - i,
    {
        out.push(value);
        i = i + 1;
        assert(out@ =~= Seq::new(i as nat, |k: int| value));
    }
    out
}

/// The number of columns on a plot that is `px_w` pixels wide.
pub open spec fn bins_for(px_w: int, coarse: bool) -> int {
    let full = if px_w > LEAST_BINS { px_w } else { LEAST_BINS as int };
    if !coarse {
        full
    } else if full / COARSENESS as int > LEAST_BINS {
        full / COARSENESS as int
    } else {
        LEAST_BINS as int
    }
}

/// The view holds a range of the samples, if maybe an empty one.
pub open spec fn window_valid(s: Seq<Point>, view: ViewRect) -> bool {
    s.len() == 0 || line_start(s, view.min_x) <= line_end(s, view.max_x)
}

/// `cols` is what `column` says of the samples.
pub open spec fn columns_of<C: Fn(Number) -> i64>(column: C, w: Seq<Point>, cols: Seq<i64>) -> bool {
    &&& cols.len() == w.len()
    &&& forall|i: int| 0 <= i < w.len() ==> call_ensures(column, (w[i].x,), #[trigger] cols[i])
}

pub open spec fn line_views(lines: Vec<Vec<Point>>) -> Seq<Seq<Point>> {
    lines@.map_values(|line: Vec<Point>| line@)
}

/// One of the lines holds a sample.
pub open spec fn any_drawn(lines: Seq<Seq<Point>>) -> bool {
    exists|k: int| 0 <= k < lines.len() && (#[trigger] lines[k]).len() > 0
}

fn has_samples(lines: &Vec<Vec<Point>>) -> (r: bool)
    ensures
        r == any_drawn(line_views(*lines)),
{
    let ghost views = line_views(*lines);
    let mut k: usize = 0;
    while k < lines.len()
        invariant
            k <= lines@.len(),
            views == line_views(*lines),
            forall|j: int| 0 <= j < k ==> (#[trigger] views[j]).len() == 0,
        decreases lines@.len() - k,
    {
        assert(views[k as int] == lines@[k as int]@);
        if lines[k].len() > 0 {
            return true;
        }
        k = k + 1;
    }
    false
}

/// `lines` are those of a series in a view: none for one that is hidden or
/// empty, else those through what decimation leaves of it.
pub open spec fn lines_of<C: Fn(Number) -> i64>(
    column: C,
    s: Seq<Point>,
    shown: bool,
    view: ViewRect,
    bins: nat,
    lines: Seq<Seq<Point>>,
) -> bool {
    if !shown || s.len() == 0 {
        lines == Seq::<Seq<Point>>::empty()
    } else {
        let w = s.subrange(line_start(s, view.min_x), line_end(s, view.max_x));
        exists|cols: Seq<i64>| #[trigger] columns_of(column, w, cols) && lines == drawn(w, cols, bins)
    }
}

/// Makes the lines of one series.
pub fn series_lines<C: Fn(Number) -> i64>(
    buf: &SeriesBuffer,
    shown: bool,
    view: ViewRect,
    bins: usize,
    column: &C,
) -> (r: Vec<Vec<Point>>)
    requires
        shown ==> window_valid(buf@, view),
        bins * POINTS_PER_COLUMN <= usize::MAX,
        forall|x: Number| call_requires(*column, (x,)),
    ensures
        lines_of(*column, buf@, shown, view, bins as nat, line_views(r)),
{
    if !shown || buf.is_empty() {
        let none: Vec<Vec<Point>> = Vec::new();
        assert(line_views(none) =~= Seq::<Seq<Point>>::empty());
        return none;
    }
    let (start, end) = line_window(buf, view.min_x, view.max_x);
    let ghost w = buf@.subrange(start as int, end as int);
    let mut cols: Vec<i64> = Vec::new();
    let mut i: usize = start;
    while i < end
        invariant
            start <= i <= end <= buf@.len(),
            w == buf@.subrange(start as int, end as int),
            forall|x: Number| call_requires(*column, (x,)),
            cols@.len() == i - start,
            forall|k: int| 0 <= k < cols@.len() ==> call_ensures(*column, (w[k].x,), #[trigger] cols@[k]),
        decreases end - i,
    {
        let c: i64 = column(buf.get(i).x);
        cols.push(c);
        i = i + 1;
    }
    assert(columns_of(*column, w, cols@));
    m4_lines(buf, start, end, bins, &cols)
}

/// How the lines of series `i` are drawn.
pub open spec fn style_for(highlighted: Seq<bool>, i: int) -> LineStyle {
    if !any_set(highlighted) {
        LineStyle { width_tenths: 15, opacity_percent: 100 }
    } else if highlighted[i] {
        LineStyle { width_tenths: 25, opacity_percent: 100 }
    } else {
        LineStyle { width_tenths: 10, opacity_percent: 25 }
    }
}

/// `d` is what `distance` says of the samples `near`.
pub open spec fn distances<D: Fn(Candidate) -> Number>(distance: D, near: Seq<Candidate>, d: Seq<Number>) -> bool {
    &&& d.len() == near.len()
    &&& forall|k: int| 0 <= k < near.len() ==> call_ensures(distance, (near[k],), #[trigger] d[k])
}

impl LivePlotApp {
    /// There is one flag of each kind per series and a palette of colours, and
    /// a sample is identified only while some series is highlighted.
    pub open spec fn wf(self) -> bool {
        &&& self.visible@.len() == self.labels@.len()
        &&& self.highlighted@.len() == self.labels@.len()
        &&& self.colors@.len() >= PALETTE_SIZE
        &&& self.interacting_frames <= COARSE_FRAMES
        &&& self.identified matches Some(c) ==> c.series < self.labels@.len() && any_set(self.highlighted@)
    }

    /// The state of a window that has just opened.
    pub fn new(options: Options, labels: Vec<String>) -> (r: Result<LivePlotApp, BadLegendPos>)
        ensures
            corner_named(lowercase(options.legend_pos@)) is Err <==> r is Err,
            is_ascii_chars(options.legend_pos@) ==> corner_named(lowercase(options.legend_pos@)) == corner_named(
                lowered(options.legend_pos@),
            ),
            r matches Ok(app) ==> {
                &&& app.wf()
                &&& corner_named(lowercase(options.legend_pos@)) == Ok::<Option<Corner>, BadLegendPos>(app.legend_corner)
                &&& app.include_y_values == options.include_y
                &&& app.labels == labels
                &&& app.colors@ == padded(named_colors(options.colors))
                &&& app.visible@ == Seq::new(labels@.len(), |i: int| true)
                &&& app.title == options.title
                &&& app.is_ts_mode == options.timestamp
                &&& !app.side_panel_collapsed
                &&& app.tau == (Number { bits: NO_SMOOTHING })
                &&& app.max_tau == options.max_tau
                &&& app.default_width == options.viewport_width
                &&& app.x_zoom == (Number { bits: ONE })
                &&& app.scroll_offset == (Number { bits: 0 })
                &&& app.y_zoom == (Number { bits: ONE })
                &&& app.y_min == (Number { bits: MINUS_ONE })
                &&& app.y_max == (Number { bits: ONE })
                &&& app.y_nat_h == (Number { bits: ONE })
                &&& app.auto_follow
                &&& app.anchor_x is Right
                &&& app.anchor_y is Bottom
                &&& app.last_view_rect is None
                &&& !app.view_settling
                &&& app.cached_lines@.len() == 0
                &&& app.cached_bins == 0
                &&& app.interacting_frames == 0
                &&& app.highlighted@ == Seq::new(labels@.len(), |i: int| false)
                &&& !app.identifying
                &&& app.identified is None
            },
    {
        let corner: Option<Corner> = match legend_corner(options.legend_pos.as_str()) {
            Ok(corner) => corner,
            Err(e) => return Err(e),
        };
        let n: usize = labels.len();
        Ok(
            LivePlotApp {
                include_y_values: options.include_y,
                labels,
                colors: generate_palette(options.colors),
                visible: flags(n, true),
                title: options.title,
                is_ts_mode: options.timestamp,
                legend_corner: corner,
                side_panel_collapsed: false,
                tau: Number { bits: NO_SMOOTHING },
                max_tau: options.max_tau,
                default_width: options.viewport_width,
                x_zoom: Number { bits: ONE },
                scroll_offset: Number { bits: 0 },
                y_zoom: Number { bits: ONE },
                y_min: Number { bits: MINUS_ONE },
                y_max: Number { bits: ONE },
                y_nat_h: Number { bits: ONE },
                auto_follow: true,
                anchor_x: XAnchor::Right,
                anchor_y: YAnchor::Bottom,
                last_view_rect: None,
                view_settling: false,
                cached_lines: Vec::new(),
                cached_bins: 0,
                interacting_frames: 0,
                highlighted: flags(n, false),
                identifying: false,
                identified: None,
            },
        )
    }

    // --- series panel ---

    /// Shows every series.
    pub fn show_all(&mut self)
        ensures
            final(self).visible@ == Seq::new(old(self).visible@.len(), |i: int| true),
            final(self).cached_lines@.len() == 0,
            *final(self) == (LivePlotApp {
                visible: final(self).visible,
                cached_lines: final(self).cached_lines,
                ..*old(self)
            }),
            old(self).wf() ==> final(self).wf(),
    {
        self.visible = flags(self.visible.len(), true);
        self.cached_lines = Vec::new();
    }

    /// Hides every series.
    pub fn hide_all(&mut self)
        ensures
            final(self).visible@ == Seq::new(old(self).visible@.len(), |i: int| false),
            final(self).cached_lines@.len() == 0,
            *final(self) == (LivePlotApp {
                visible: final(self).visible,
                cached_lines: final(self).cached_lines,
                ..*old(self)
            }),
            old(self).wf() ==> final(self).wf(),
    {
        self.visible = flags(self.visible.len(), false);
        self.cached_lines = Vec::new();
    }

    /// Shows a series that is hidden, or hides it.
    pub fn toggle_visible(&mut self, i: usize)
        requires
            i < old(self).visible@.len(),
        ensures
            final(self).visible@ == toggled(old(self).visible@, i as int),
            final(self).cached_lines@.len() == 0,
            *final(self) == (LivePlotApp {
                visible: final(self).visible,
                cached_lines: final(self).cached_lines,
                ..*old(self)
            }),
            old(self).wf() ==> final(self).wf(),
    {
        let shown: bool = self.visible[i];
        self.visible.set(i, !shown);
        self.cached_lines = Vec::new();
    }

    /// Highlights no series, and forgets what was identified.
    pub fn unhighlight(&mut self)
        ensures
            final(self).highlighted@ == Seq::new(old(self).highlighted@.len(), |i: int| false),
            *final(self) == (LivePlotApp {
                highlighted: final(self).highlighted,
                identified: None,
                ..*old(self)
            }),
            old(self).wf() ==> final(self).wf(),
    {
        self.highlighted = flags(self.highlighted.len(), false);
        self.identified = None;
    }

    /// Highlights a series, or no longer; the last highlight takes what was
    /// identified with it.
    pub fn toggle_highlight(&mut self, i: usize)
        requires
            i < old(self).highlighted@.len(),
        ensures
            final(self).highlighted@ == toggled(old(self).highlighted@, i as int),
            *final(self) == (LivePlotApp {
                highlighted: final(self).highlighted,
                identified: if any_set(final(self).highlighted@) {
                    old(self).identified
                } else {
                    None
                },
                ..*old(self)
            }),
            old(self).wf() ==> final(self).wf(),
    {
        let on: bool = self.highlighted[i];
        self.highlighted.set(i, !on);
        if !any(&self.highlighted) {
            self.identified = None;
        }
    }

    pub fn any_highlighted(&self) -> (r: bool)
        ensures
            r == any_set(self.highlighted@),
    {
        any(&self.highlighted)
    }

    /// The colour of a series in the panel: its own, faded while others are
    /// highlighted and it is not.
    pub fn swatch_color(&self, i: usize) -> (r: Color)
        requires
            i < self.highlighted@.len(),
            i < self.colors@.len(),
        ensures
            self.highlighted@[i as int] || !any_set(self.highlighted@) ==> r == self.colors@[i as int],
            !self.highlighted@[i as int] && any_set(self.highlighted@) ==> ({
                let c = self.colors@[i as int];
                r == premultiplied(c.r, c.g, c.b, DIM_ALPHA)
            }),
    {
        if self.highlighted[i] || !any(&self.highlighted) {
            self.colors[i]
        } else {
            dimmed(self.colors[i])
        }
    }

    // --- legend ---

    /// How the text of a series stands out in the legend.
    pub fn legend_tone(&self, i: usize) -> (r: Tone)
        requires
            i < self.highlighted@.len(),
        ensures
            r is Bright <==> self.highlighted@[i as int],
            r is Dull <==> !self.highlighted@[i as int] && any_set(self.highlighted@),
    {
        if self.highlighted[i] {
            Tone::Bright
        } else if any(&self.highlighted) {
            Tone::Dull
        } else {
            Tone::Normal
        }
    }

    /// A click in the legend: on the series `item`, or on the background.
    pub fn legend_clicked(&mut self, item: Option<usize>, on_background: bool)
        requires
            item matches Some(i) ==> i < old(self).highlighted@.len(),
        ensures
            item matches Some(i) ==> {
                &&& final(self).highlighted@ == toggled(old(self).highlighted@, i as int)
                &&& *final(self) == (LivePlotApp {
                    highlighted: final(self).highlighted,
                    identified: if any_set(final(self).highlighted@) {
                        old(self).identified
                    } else {
                        None
                    },
                    ..*old(self)
                })
            },
            item is None && on_background ==> {
                &&& final(self).highlighted@ == Seq::new(old(self).highlighted@.len(), |i: int| false)
                &&& *final(self) == (LivePlotApp {
                    highlighted: final(self).highlighted,
                    identified: None,
                    ..*old(self)
                })
            },
            item is None && !on_background ==> *final(self) == *old(self),
            old(self).wf() ==> final(self).wf(),
    {
        match item {
            Some(i) => self.toggle_highlight(i),
            None => {
                if on_background {
                    self.unhighlight();
                }
            },
        }
    }

    /// A click in the list of series: on the swatch or the label of one, or
    /// elsewhere in the list. A swatch highlights, a label shows or hides, and a
    /// click beside them highlights no series.
    pub fn list_clicked(&mut self, item: Option<ListItem>, in_list: bool)
        requires
            item matches Some(ListItem::Swatch(i)) ==> i < old(self).highlighted@.len(),
            item matches Some(ListItem::Label(i)) ==> i < old(self).visible@.len(),
        ensures
            item matches Some(ListItem::Swatch(i)) ==> {
                &&& final(self).highlighted@ == toggled(old(self).highlighted@, i as int)
                &&& *final(self) == (LivePlotApp {
                    highlighted: final(self).highlighted,
                    identified: if any_set(final(self).highlighted@) {
                        old(self).identified
                    } else {
                        None
                    },
                    ..*old(self)
                })
            },
            item matches Some(ListItem::Label(i)) ==> {
                &&& final(self).visible@ == toggled(old(self).visible@, i as int)
                &&& final(self).cached_lines@.len() == 0
                &&& *final(self) == (LivePlotApp {
                    visible: final(self).visible,
                    cached_lines: final(self).cached_lines,
                    ..*old(self)
                })
            },
            item is None && in_list ==> {
                &&& final(self).highlighted@ == Seq::new(old(self).highlighted@.len(), |i: int| false)
                &&& *final(self) == (LivePlotApp {
                    highlighted: final(self).highlighted,
                    identified: None,
                    ..*old(self)
                })
            },
            item is None && !in_list ==> *final(self) == *old(self),
            old(self).wf() ==> final(self).wf(),
    {
        match item {
            Some(ListItem::Swatch(i)) => self.toggle_highlight(i),
            Some(ListItem::Label(i)) => self.toggle_visible(i),
            None => {
                if in_list {
                    self.unhighlight();
                }
            },
        }
    }

    // --- header ---

    /// What the status field says.
    pub fn status(&self, stream_ended: bool) -> (r: Status)
        ensures
            r is Ended <==> stream_ended,
            r is Live <==> !stream_ended && self.auto_follow,
    {
        if stream_ended {
            Status::Ended
        } else if self.auto_follow {
            Status::Live
        } else {
            Status::Explore
        }
    }

    /// The time axis has been zoomed, and now begins at `offset`.
    pub fn x_zoomed(&mut self, zoom: Number, offset: Number)
        ensures
            *final(self) == (LivePlotApp {
                x_zoom: zoom,
                scroll_offset: offset,
                auto_follow: false,
                ..*old(self)
            }),
            old(self).wf() ==> final(self).wf(),
    {
        self.x_zoom = zoom;
        self.scroll_offset = offset;
        self.auto_follow = false;
    }

    /// The value axis has been zoomed to a range of values.
    pub fn y_zoomed(&mut self, zoom: Number, range: (Number, Number))
        ensures
            *final(self) == (LivePlotApp {
                y_zoom: zoom,
                y_min: range.0,
                y_max: range.1,
                auto_follow: false,
                ..*old(self)
            }),
            old(self).wf() ==> final(self).wf(),
    {
        self.y_zoom = zoom;
        self.y_min = range.0;
        self.y_max = range.1;
        self.auto_follow = false;
    }

    /// Goes back to following the stream at the initial zoom.
    pub fn reset_viewport(&mut self)
        ensures
            *final(self) == (LivePlotApp {
                x_zoom: (Number { bits: ONE }),
                y_zoom: (Number { bits: ONE }),
                auto_follow: true,
                ..*old(self)
            }),
            old(self).wf() ==> final(self).wf(),
    {
        self.x_zoom = Number { bits: ONE };
        self.y_zoom = Number { bits: ONE };
        self.auto_follow = true;
    }

    /// Where the stream is followed, keeps the viewport's start at `start`, but
    /// not before the first sample.
    pub fn keep_up(&mut self, start: Number, first_x: Number)
        ensures
            *final(self) == (LivePlotApp {
                scroll_offset: if old(self).auto_follow {
                    start.upper_of(first_x)
                } else {
                    old(self).scroll_offset
                },
                ..*old(self)
            }),
            old(self).wf() ==> final(self).wf(),
    {
        if self.auto_follow {
            self.scroll_offset = start.max(first_x);
        }
    }

    /// Starts to identify a sample, with what was identified before forgotten,
    /// or gives it up.
    pub fn toggle_identify(&mut self)
        ensures
            *final(self) == (LivePlotApp {
                identifying: !old(self).identifying,
                identified: if old(self).identifying {
                    old(self).identified
                } else {
                    None
                },
                ..*old(self)
            }),
            old(self).wf() ==> final(self).wf(),
    {
        self.identifying = !self.identifying;
        if self.identifying {
            self.identified = None;
        }
    }

    /// What is said of the identified sample, given the texts of its value and
    /// its position.
    pub fn caption(&self, y_text: &str, x_text: &str) -> (r: Option<String>)
        requires
            self.identified matches Some(c) ==> c.series < self.labels@.len(),
        ensures
            r is Some <==> self.identified is Some,
            r matches Some(t) ==> t@ == self.labels@[self.identified->0.series as int]@ + " \u{2794} Y: "@ + y_text@
                + " | X: "@ + x_text@,
    {
        match self.identified {
            Some(c) => {
                let mut text: String = self.labels[c.series].clone();
                text.append(" \u{2794} Y: ");
                text.append(y_text);
                text.append(" | X: ");
                text.append(x_text);
                Some(text)
            },
            None => None,
        }
    }

    // --- smoothing ---

    /// Smooths all series anew.
    pub fn recompute_smoothing<F: Fn(Point, Point) -> Number>(
        &self,
        raw: &Vec<SeriesBuffer>,
        smoothed: &mut Vec<SeriesBuffer>,
        blend: &F,
    )
        requires
            raw@.len() <= old(smoothed)@.len(),
            forall|p: Point, q: Point| call_requires(*blend, (p, q)),
        ensures
            limits(final(smoothed)@) == limits(old(smoothed)@),
            recomputed(
                *blend,
                self.tau,
                samples(raw@),
                limits(old(smoothed)@),
                samples(old(smoothed)@),
                samples(final(smoothed)@),
            ),
    {
        recompute_smoothing(raw, smoothed, self.tau, blend);
    }

    /// Takes a new time constant; lines are to be made anew.
    pub fn set_tau(&mut self, tau: Number)
        ensures
            final(self).cached_lines@.len() == 0,
            *final(self) == (LivePlotApp { tau, cached_lines: final(self).cached_lines, ..*old(self) }),
            old(self).wf() ==> final(self).wf(),
    {
        self.tau = tau;
        self.cached_lines = Vec::new();
    }

    // --- viewport ---

    /// Notes in each frame whether the user moves the view, and tells whether
    /// another frame is to follow.
    pub fn note_interaction(&mut self, interacting: bool) -> (repaint: bool)
        ensures
            repaint == (!interacting && old(self).interacting_frames > 0),
            interacting ==> final(self).interacting_frames == 6,
            !interacting && old(self).interacting_frames > 0 ==> final(self).interacting_frames
                == old(self).interacting_frames - 1,
            !interacting && old(self).interacting_frames == 0 ==> final(self).interacting_frames == 0,
            *final(self) == (LivePlotApp {
                auto_follow: old(self).auto_follow && !interacting,
                interacting_frames: next_frames(old(self).interacting_frames, interacting),
                ..*old(self)
            }),
            old(self).wf() ==> final(self).wf(),
    {
        if interacting {
            self.auto_follow = false;
            self.interacting_frames = COARSE_FRAMES;
            false
        } else if self.interacting_frames > 0 {
            self.interacting_frames = self.interacting_frames - 1;
            true
        } else {
            false
        }
    }

    pub open spec fn coarse(self) -> bool {
        self.interacting_frames > 0
    }

    /// Shows all samples: `zoom` fits their time, `height` is that of their
    /// values.
    pub fn zoom_to_all(&mut self, extent: Extent, zoom: Number, height: Number)
        ensures
            *final(self) == (LivePlotApp {
                auto_follow: false,
                scroll_offset: extent.first_x,
                x_zoom: zoom,
                y_min: extent.min_y,
                y_max: extent.max_y,
                y_nat_h: height.upper_of(Number { bits: LEAST }),
                y_zoom: (Number { bits: ONE }),
                ..*old(self)
            }),
            old(self).wf() ==> final(self).wf(),
    {
        self.auto_follow = false;
        self.scroll_offset = extent.first_x;
        self.x_zoom = zoom;
        self.y_min = extent.min_y;
        self.y_max = extent.max_y;
        self.y_nat_h = height.max(Number { bits: LEAST });
        self.y_zoom = Number { bits: ONE };
    }

    /// Where the bounds of this frame come from.
    pub fn view_mode(&self, trigger: bool) -> (r: ViewMode)
        ensures
            r is Follow <==> self.auto_follow,
            r is Apply <==> !self.auto_follow && trigger,
    {
        if self.auto_follow {
            ViewMode::Follow
        } else if trigger {
            ViewMode::Apply
        } else {
            ViewMode::Sync
        }
    }

    /// Follows the stream: the viewport begins at `start` and shows `range`, of
    /// height `height`.
    pub fn follow(&mut self, start: Number, range: (Number, Number), height: Number)
        ensures
            *final(self) == (LivePlotApp {
                y_min: range.0,
                y_max: range.1,
                y_nat_h: height.upper_of(Number { bits: LEAST }),
                y_zoom: (Number { bits: ONE }),
                scroll_offset: start,
                ..*old(self)
            }),
            old(self).wf() ==> final(self).wf(),
    {
        self.y_min = range.0;
        self.y_max = range.1;
        self.y_nat_h = height.max(Number { bits: LEAST });
        self.y_zoom = Number { bits: ONE };
        self.scroll_offset = start;
    }

    /// Takes the bounds over from the plot, of `width` and `height`; the zooms
    /// that go with these are taken where they are above zero.
    pub fn sync(&mut self, view: ViewRect, width: Number, x_zoom: Number, height: Number, y_zoom: Number)
        ensures
            *final(self) == (LivePlotApp {
                scroll_offset: view.min_x,
                y_min: view.min_y,
                y_max: view.max_y,
                x_zoom: if (Number { bits: 0 }).less(width) {
                    x_zoom
                } else {
                    old(self).x_zoom
                },
                y_zoom: if (Number { bits: 0 }).less(height) {
                    y_zoom.upper_of(Number { bits: LEAST })
                } else {
                    old(self).y_zoom
                },
                ..*old(self)
            }),
            old(self).wf() ==> final(self).wf(),
    {
        self.scroll_offset = view.min_x;
        self.y_min = view.min_y;
        self.y_max = view.max_y;
        if (Number { bits: 0 }).lt(width) {
            self.x_zoom = x_zoom;
        }
        if (Number { bits: 0 }).lt(height) {
            self.y_zoom = y_zoom.max(Number { bits: LEAST });
        }
    }

    // --- lines ---

    /// The number of columns that lines are decimated to, on a plot that is
    /// `px_w` pixels wide: fewer while the view is moved.
    pub fn bins(&self, px_w: usize) -> (r: usize)
        ensures
            r == bins_for(px_w as int, self.coarse()),
            self.interacting_frames == 0 && px_w >= 16 ==> r == px_w,
            self.interacting_frames > 0 && px_w >= 64 ==> r == px_w / 4,
            self.interacting_frames == 0 && px_w < 16 ==> r == 16,
            self.interacting_frames > 0 && px_w < 64 ==> r == 16,
    {
        let full: usize = if px_w > LEAST_BINS { px_w } else { LEAST_BINS };
        if self.interacting_frames > 0 {
            if full / COARSENESS > LEAST_BINS {
                full / COARSENESS
            } else {
                LEAST_BINS
            }
        } else {
            full
        }
    }

    /// The lines are to be made anew: there are new samples, there are no
    /// lines, or these were made for another number of columns or another view.
    pub open spec fn lines_stale(self, data_changed: bool, view: ViewRect, px_w: int) -> bool {
        ||| data_changed
        ||| self.cached_lines@.len() == 0
        ||| self.cached_bins != bins_for(px_w, self.coarse())
        ||| match self.last_view_rect {
            None => true,
            Some(last) => !same_view(last, view),
        }
    }

    /// Tells whether the lines are to be made anew.
    pub fn need_recompute(&self, data_changed: bool, view: ViewRect, px_w: usize) -> (r: bool)
        ensures
            r == self.lines_stale(data_changed, view, px_w as int),
            data_changed ==> r,
            self.cached_lines@.len() == 0 ==> r,
            self.last_view_rect is None ==> r,
            self.last_view_rect matches Some(last) && !same_view(last, view) ==> r,
            self.cached_bins != bins_for(px_w as int, self.interacting_frames > 0) ==> r,
    {
        if data_changed || self.cached_lines.len() == 0 || self.cached_bins != self.bins(px_w) {
            return true;
        }
        match self.last_view_rect {
            None => true,
            Some(last) => !last.equals(view),
        }
    }

    /// The lines are those of the samples `all` in a view, at `bins` columns.
    pub open spec fn lines_made<C: Fn(Number) -> i64>(
        self,
        column: C,
        all: Seq<Seq<Point>>,
        view: ViewRect,
        bins: int,
    ) -> bool {
        &&& self.cached_lines@.len() == all.len()
        &&& forall|i: int|
            0 <= i < all.len() ==> lines_of(
                column,
                all[i],
                self.visible@[i],
                view,
                bins as nat,
                line_views(#[trigger] self.cached_lines@[i]),
            )
    }

    /// `after` is the state with its lines up to date: made anew where they
    /// were stale, as they were elsewhere.
    pub open spec fn refreshed_to<C: Fn(Number) -> i64>(
        self,
        after: Self,
        column: C,
        all: Seq<Seq<Point>>,
        data_changed: bool,
        view: ViewRect,
        px_w: int,
    ) -> bool {
        if self.lines_stale(data_changed, view, px_w) {
            &&& after.lines_made(column, all, view, bins_for(px_w, self.coarse()))
            &&& after.cached_bins == bins_for(px_w, self.coarse())
            &&& after == (LivePlotApp {
                cached_lines: after.cached_lines,
                cached_bins: after.cached_bins,
                last_view_rect: Some(view),
                view_settling: true,
                ..self
            })
        } else {
            after == (LivePlotApp { view_settling: false, ..self })
        }
    }

    /// Brings the lines of all series up to date for a view, where they are not,
    /// and tells whether another frame is to follow.
    ///
    /// `column` tells the pixel column of a position.
    pub fn refresh_lines<C: Fn(Number) -> i64>(
        &mut self,
        smoothed: &Vec<SeriesBuffer>,
        data_changed: bool,
        view: ViewRect,
        px_w: usize,
        column: &C,
    ) -> (repaint: bool)
        requires
            smoothed@.len() <= old(self).visible@.len(),
            px_w * POINTS_PER_COLUMN <= usize::MAX,
            forall|i: int|
                0 <= i < smoothed@.len() && old(self).visible@[i] ==> window_valid(#[trigger] smoothed@[i]@, view),
            forall|x: Number| call_requires(*column, (x,)),
        ensures
            repaint == (old(self).lines_stale(data_changed, view, px_w as int) || old(self).view_settling),
            data_changed ==> repaint && final(self).lines_made(
                *column,
                samples(smoothed@),
                view,
                bins_for(px_w as int, old(self).interacting_frames > 0),
            ),
            old(self).refreshed_to(
                *final(self),
                *column,
                samples(smoothed@),
                data_changed,
                view,
                px_w as int,
            ),
            old(self).wf() ==> final(self).wf(),
    {
        if self.need_recompute(data_changed, view, px_w) {
            let bins: usize = self.bins(px_w);
            let mut lines: Vec<Vec<Vec<Point>>> = Vec::new();
            let mut i: usize = 0;
            while i < smoothed.len()
                invariant
                    i <= smoothed@.len() <= self.visible@.len(),
                    *self == *old(self),
                    bins == bins_for(px_w as int, old(self).coarse()),
                    bins * POINTS_PER_COLUMN <= usize::MAX,
                    forall|k: int|
                        0 <= k < smoothed@.len() && old(self).visible@[k] ==> window_valid(
                            #[trigger] smoothed@[k]@,
                            view,
                        ),
                    forall|x: Number| call_requires(*column, (x,)),
                    lines@.len() == i,
                    forall|k: int|
                        0 <= k < i ==> lines_of(
                            *column,
                            smoothed@[k]@,
                            old(self).visible@[k],
                            view,
                            bins as nat,
                            line_views(#[trigger] lines@[k]),
                        ),
                decreases smoothed@.len() - i,
            {
                let buf: &SeriesBuffer = &smoothed[i];
                let shown: bool = self.visible[i];
                assert(shown ==> window_valid(smoothed@[i as int]@, view));
                let one: Vec<Vec<Point>> = series_lines(buf, shown, view, bins, column);
                lines.push(one);
                i = i + 1;
            }
            self.cached_lines = lines;
            self.cached_bins = bins;
            self.last_view_rect = Some(view);
            self.view_settling = true;
            true
        } else if self.view_settling {
            self.view_settling = false;
            true
        } else {
            false
        }
    }

    /// How the lines of a series are drawn: those of a highlighted series
    /// stand out, the others fade. `None` where nothing is drawn.
    pub fn line_style(&self, i: usize) -> (r: Option<LineStyle>)
        requires
            i < self.cached_lines@.len(),
            i < self.visible@.len(),
            i < self.highlighted@.len(),
        ensures
            r is Some <==> self.visible@[i as int] && any_drawn(line_views(self.cached_lines@[i as int])),
            r matches Some(style) ==> style == style_for(self.highlighted@, i as int),
    {
        if !self.visible[i] || !has_samples(&self.cached_lines[i]) {
            return None;
        }
        if !any(&self.highlighted) {
            Some(LineStyle { width_tenths: 15, opacity_percent: 100 })
        } else if self.highlighted[i] {
            Some(LineStyle { width_tenths: 25, opacity_percent: 100 })
        } else {
            Some(LineStyle { width_tenths: 10, opacity_percent: 25 })
        }
    }

    // --- identifying ---

    /// What a click that is to identify one of `shown`, at distances `d`, makes
    /// of the state: where one is nearer than `limit`, the first of the nearest
    /// is identified and its series highlighted.
    pub open spec fn identified_to(self, after: Self, shown: Seq<Candidate>, d: Seq<Number>, limit: Number) -> bool {
        if within(d, limit) {
            exists|k: int|
                {
                    &&& #[trigger] first_nearest(d, k)
                    &&& after.highlighted@ == self.highlighted@.update(shown[k].series as int, true)
                    &&& after == (LivePlotApp {
                        identified: Some(shown[k]),
                        highlighted: after.highlighted,
                        identifying: false,
                        ..self
                    })
                }
        } else {
            after == (LivePlotApp { identifying: false, ..self })
        }
    }

    /// A click on the plot. Where a sample is to be identified, the nearest one
    /// of all that are shown is, if it is nearer than `limit`, and its series is
    /// highlighted.
    ///
    /// `distance` tells how far a sample is from the click.
    pub fn identify<D: Fn(Candidate) -> Number>(&mut self, smoothed: &Vec<SeriesBuffer>, distance: &D, limit: Number)
        requires
            old(self).wf(),
            forall|c: Candidate| call_requires(*distance, (c,)),
        ensures
            final(self).wf(),
            !old(self).identifying ==> *final(self) == *old(self),
            old(self).identifying ==> exists|d: Seq<Number>|
                #[trigger] distances(*distance, clickable(samples(smoothed@), old(self).visible@), d)
                    && old(self).identified_to(
                    *final(self),
                    clickable(samples(smoothed@), old(self).visible@),
                    d,
                    limit,
                ),
    {
        if !self.identifying {
            return;
        }
        let shown: Vec<Candidate> = candidates(smoothed, &self.visible);
        let mut d: Vec<Number> = Vec::new();
        let mut i: usize = 0;
        while i < shown.len()
            invariant
                i <= shown@.len(),
                *self == *old(self),
                forall|c: Candidate| call_requires(*distance, (c,)),
                d@.len() == i,
                forall|k: int| 0 <= k < i ==> call_ensures(*distance, (shown@[k],), #[trigger] d@[k]),
            decreases shown@.len() - i,
        {
            d.push(distance(shown[i]));
            i = i + 1;
        }
        assert(distances(*distance, shown@, d@));
        proof {
            nearest_within(d@, limit);
        }
        if let Some(k) = nearest(&d) {
            if d[k].lt(limit) {
                let c: Candidate = shown[k];
                proof {
                    assert(self.visible@.len() == self.visible.len());
                    assert(shown@.contains(c));
                    clickable_are_the_shown(samples(smoothed@), self.visible@, c);
                    assert(first_nearest(d@, k as int));
                }
                self.identified = Some(c);
                self.highlighted.set(c.series, true);
                assert(self.highlighted@[c.series as int]);
            }
        }
        self.identifying = false;
    }
}

/// After a click that is to identify a sample: where a sample of a shown series
/// is nearer than `limit`, one is identified. It is of a shown series and nearer
/// than `limit`, and no sample of a shown series is nearer than it. Where none is
/// nearer than `limit`, what was identified stays. `of` is what `distance` tells
/// of each sample.
pub proof fn identified_is_nearest<D: Fn(Candidate) -> Number>(
    before: LivePlotApp,
    after: LivePlotApp,
    all: Seq<Seq<Point>>,
    distance: D,
    d: Seq<Number>,
    limit: Number,
    of: spec_fn(Candidate) -> Number,
    c: Candidate,
)
    requires
        before.visible@.len() <= usize::MAX,
        forall|e: Candidate, y: Number| #[trigger] call_ensures(distance, (e,), y) ==> y == of(e),
        distances(distance, clickable(all, before.visible@), d),
        before.identified_to(after, clickable(all, before.visible@), d, limit),
        is_shown(all, before.visible@, c),
    ensures
        of(c).less(limit) ==> within(d, limit),
        within(d, limit) ==> {
            &&& after.identified is Some
            &&& is_shown(all, before.visible@, after.identified->0)
            &&& of(after.identified->0).less(limit)
            &&& !of(c).less(of(after.identified->0))
        },
        !within(d, limit) ==> after.identified == before.identified,
{
    let shown = clickable(all, before.visible@);
    clickable_are_the_shown(all, before.visible@, c);
    let j = shown.index_of(c);
    assert(d[j] == of(c)) by {
        assert(call_ensures(distance, (shown[j],), d[j]));
    }
    if within(d, limit) {
        let k = choose|k: int|
            {
                &&& #[trigger] first_nearest(d, k)
                &&& after.highlighted@ == before.highlighted@.update(shown[k].series as int, true)
                &&& after == (LivePlotApp {
                    identified: Some(shown[k]),
                    highlighted: after.highlighted,
                    identifying: false,
                    ..before
                })
            };
        assert(call_ensures(distance, (shown[k],), d[k]));
        assert(shown.contains(shown[k]));
        clickable_are_the_shown(all, before.visible@, shown[k]);
        let w = choose|w: int| 0 <= w < d.len() && (#[trigger] d[w]).less(limit);
        assert(d[k].at_most(d[w]));
    }
}

/// After a click that is to identify a sample: where none of the samples of the
/// shown series is nearer than `limit`, nothing is found. Elsewhere the nearest of
/// them is, the first in turn of those at its distance, and its series is
/// highlighted. `of` is what `distance` tells of each sample.
pub proof fn click_finds_the_nearest<D: Fn(Candidate) -> Number>(
    before: LivePlotApp,
    after: LivePlotApp,
    all: Seq<Seq<Point>>,
    distance: D,
    d: Seq<Number>,
    limit: Number,
    of: spec_fn(int, Point) -> Number,
)
    requires
        before.visible@.len() <= usize::MAX,
        forall|e: Candidate, y: Number|
            #[trigger] call_ensures(distance, (e,), y) ==> y == of(e.series as int, e.point),
        distances(distance, clickable(all, before.visible@), d),
        before.identified_to(after, clickable(all, before.visible@), d, limit),
    ensures
        (forall|i: int, j: int|
            0 <= i < all.len() && i < before.visible@.len() && before.visible@[i] && 0 <= j < all[i].len() ==> !of(
                i,
                #[trigger] all[i][j],
            ).less(limit)) ==> after == (LivePlotApp { identifying: false, ..before }),
        (exists|i: int, j: int|
            0 <= i < all.len() && i < before.visible@.len() && before.visible@[i] && 0 <= j < all[i].len() && of(
                i,
                #[trigger] all[i][j],
            ).less(limit)) ==> exists|i: int, j: int|
            {
                &&& 0 <= i < all.len() && i < before.visible@.len() && before.visible@[i] && 0 <= j < all[i].len()
                &&& after.identified == Some(Candidate { series: i as usize, point: #[trigger] all[i][j] })
                &&& after.highlighted@ == before.highlighted@.update(i, true)
                &&& after == (LivePlotApp {
                    identified: after.identified,
                    highlighted: after.highlighted,
                    identifying: false,
                    ..before
                })
                &&& of(i, all[i][j]).less(limit)
                &&& forall|m: int, n: int|
                    0 <= m < all.len() && m < before.visible@.len() && before.visible@[m] && 0 <= n < all[m].len() ==> !of(
                        m,
                        #[trigger] all[m][n],
                    ).less(of(i, all[i][j])) && (m < i || (m == i && n < j) ==> of(m, all[m][n]).nan() || of(
                        i,
                        all[i][j],
                    ).less(of(m, all[m][n])))
            },
{
    let vis = before.visible@;
    let shown = clickable(all, vis);
    assert forall|m: int, n: int|
        0 <= m < all.len() && m < vis.len() && vis[m] && 0 <= n < all[m].len() implies {
        let k = shown_before(all, vis, m) + n;
        0 <= k < d.len() && d[k] == of(m, #[trigger] all[m][n])
    } by {
        clickable_in_turn(all, vis, m, n);
        let k = shown_before(all, vis, m) + n;
        assert(call_ensures(distance, (shown[k],), d[k]));
    }
    if within(d, limit) {
        let k = choose|k: int|
            {
                &&& #[trigger] first_nearest(d, k)
                &&& after.highlighted@ == before.highlighted@.update(shown[k].series as int, true)
                &&& after == (LivePlotApp {
                    identified: Some(shown[k]),
                    highlighted: after.highlighted,
                    identifying: false,
                    ..before
                })
            };
        let w = choose|w: int| 0 <= w < d.len() && (#[trigger] d[w]).less(limit);
        assert(d[k].at_most(d[w]));
        clickable_at(all, vis, k);
        let i = shown[k].series as int;
        let j = k - shown_before(all, vis, i);
        assert(d[k] == of(i, all[i][j]));
        assert forall|m: int, n: int|
            0 <= m < all.len() && m < vis.len() && vis[m] && 0 <= n < all[m].len() implies !of(
            m,
            #[trigger] all[m][n],
        ).less(of(i, all[i][j])) && (m < i || (m == i && n < j) ==> of(m, all[m][n]).nan() || of(i, all[i][j]).less(
            of(m, all[m][n]),
        )) by {
            let q = shown_before(all, vis, m) + n;
            assert(d[q] == of(m, all[m][n]));
            if m < i {
                shown_before_grows(all, vis, m, i);
            }
        }
    } else {
        assert forall|m: int, n: int|
            0 <= m < all.len() && m < vis.len() && vis[m] && 0 <= n < all[m].len() implies !of(
            m,
            #[trigger] all[m][n],
        ).less(limit) by {
            let q = shown_before(all, vis, m) + n;
            assert(d[q] == of(m, all[m][n]));
        }
    }
}

/// Switching a flag turns it over and leaves all others.
pub proof fn toggling_turns_one_over(flags: Seq<bool>, i: int)
    requires
        0 <= i < flags.len(),
    ensures
        toggled(flags, i).len() == flags.len(),
        toggled(flags, i)[i] != flags[i],
        forall|k: int| 0 <= k < flags.len() && k != i ==> #[trigger] toggled(flags, i)[k] == flags[k],
{
}

/// A flag is set among all where one of them is, and only there.
pub proof fn any_set_is_one_set(flags: Seq<bool>)
    ensures
        any_set(flags) <==> flags.contains(true),
{
    if flags.contains(true) {
        assert(flags[flags.index_of(true)]);
    }
    if any_set(flags) {
        let i = choose|i: int| 0 <= i < flags.len() && #[trigger] flags[i];
        assert(flags[i] == true);
    }
}

/// Lines stand out beside those of series that are not highlighted: they are wider
/// and keep all of their colour, which the others lose most of. Where no series is
/// highlighted all lines are drawn alike, in full colour and in between in width.
pub proof fn highlighted_lines_stand_out(highlighted: Seq<bool>, i: int, j: int)
    requires
        0 <= i < highlighted.len(),
        0 <= j < highlighted.len(),
    ensures
        highlighted[i] ==> style_for(highlighted, i).opacity_percent == 100,
        highlighted[i] && !highlighted[j] ==> {
            &&& style_for(highlighted, i).width_tenths > style_for(highlighted, j).width_tenths
            &&& style_for(highlighted, j).opacity_percent == 25
        },
        highlighted[i] == highlighted[j] ==> style_for(highlighted, i) == style_for(highlighted, j),
        (forall|k: int| 0 <= k < highlighted.len() ==> !#[trigger] highlighted[k]) ==> style_for(highlighted, i) == (
        LineStyle { width_tenths: 15, opacity_percent: 100 }),
{
}

/// A series that is toggled twice is as it was.
pub proof fn toggled_twice(flags: Seq<bool>, i: int)
    requires
        0 <= i < flags.len(),
    ensures
        toggled(toggled(flags, i), i) == flags,
{
    assert(toggled(toggled(flags, i), i) =~= flags);
}

/// The frames that stay coarse after `k` frames without an interaction.
pub open spec fn frames_after_quiet(frames: u8, k: nat) -> u8
    decreases k,
{
    if k == 0 {
        frames
    } else {
        next_frames(frames_after_quiet(frames, (k - 1) as nat), false)
    }
}

/// After an interaction, columns are coarse for a fixed number of frames and at
/// full resolution from there on.
pub proof fn coarse_frames_end(k: nat)
    ensures
        frames_after_quiet(COARSE_FRAMES, k) > 0 <==> k < COARSE_FRAMES,
        frames_after_quiet(COARSE_FRAMES, k) == (if k < COARSE_FRAMES {
            COARSE_FRAMES - k
        } else {
            0
        }),
    decreases k,
{
    if k > 0 {
        coarse_frames_end((k - 1) as nat);
    }
}

/// Coarse columns are never more than those at full resolution, and there are
/// never less than the least number of columns.
pub proof fn coarse_is_coarser(px_w: int)
    requires
        0 <= px_w,
    ensures
        LEAST_BINS <= bins_for(px_w, true) <= bins_for(px_w, false),
        px_w <= bins_for(px_w, false),
{
}

/// The number of columns is that of the pixels, and a quarter of it while the view
/// is moved, but never less than sixteen.
pub proof fn columns_are_pixels(px_w: int)
    requires
        0 <= px_w,
    ensures
        px_w >= 16 ==> bins_for(px_w, false) == px_w,
        px_w < 16 ==> bins_for(px_w, false) == 16,
        px_w >= 64 ==> bins_for(px_w, true) == px_w / 4,
        px_w < 64 ==> bins_for(px_w, true) == 16,
{
}

/// Brought up to date, the lines are those of the samples as they are now, in the
/// view as it is now, wherever samples have come in, there are no lines yet, or
/// the number of columns or a bound of the view is another one, in whatever state
/// the window is. Elsewhere they are left as they were.
pub proof fn refreshed_lines_are_current<C: Fn(Number) -> i64>(
    before: LivePlotApp,
    after: LivePlotApp,
    column: C,
    all: Seq<Seq<Point>>,
    data_changed: bool,
    view: ViewRect,
    px_w: int,
)
    requires
        before.refreshed_to(after, column, all, data_changed, view, px_w),
    ensures
        ({
            let bins = bins_for(px_w, before.interacting_frames > 0);
            let moved = match before.last_view_rect {
                None => true,
                Some(last) => {
                    ||| last.min_x.nan() || view.min_x.nan() || last.min_x.less(view.min_x) || view.min_x.less(last.min_x)
                    ||| last.min_y.nan() || view.min_y.nan() || last.min_y.less(view.min_y) || view.min_y.less(last.min_y)
                    ||| last.max_x.nan() || view.max_x.nan() || last.max_x.less(view.max_x) || view.max_x.less(last.max_x)
                    ||| last.max_y.nan() || view.max_y.nan() || last.max_y.less(view.max_y) || view.max_y.less(last.max_y)
                },
            };
            let anew = data_changed || before.cached_lines@.len() == 0 || before.cached_bins != bins || moved;
            &&& anew ==> {
                &&& after.cached_lines@.len() == all.len()
                &&& forall|i: int|
                    0 <= i < all.len() ==> lines_of(
                        column,
                        all[i],
                        before.visible@[i],
                        view,
                        bins as nat,
                        (#[trigger] after.cached_lines@[i])@.map_values(|line: Vec<Point>| line@),
                    )
                &&& after.last_view_rect == Some(view)
                &&& after.cached_bins == bins
            }
            &&& !anew ==> after.cached_lines == before.cached_lines && after.last_view_rect == before.last_view_rect
                && after.cached_bins == before.cached_bins
            &&& after.view_settling == anew
            &&& after == (LivePlotApp {
                cached_lines: after.cached_lines,
                cached_bins: after.cached_bins,
                last_view_rect: after.last_view_rect,
                view_settling: after.view_settling,
                ..before
            })
        }),
{
}

/// A series that is hidden or empty has no lines. The lines of any other are those
/// that decimation draws through the samples of its window in the view, in the
/// columns that these lie in.
pub proof fn lines_are_those_of_the_window<C: Fn(Number) -> i64>(
    column: C,
    s: Seq<Point>,
    shown: bool,
    view: ViewRect,
    bins: nat,
    lines: Seq<Seq<Point>>,
)
    requires
        lines_of(column, s, shown, view, bins, lines),
    ensures
        !shown || s.len() == 0 ==> lines.len() == 0,
        shown && s.len() > 0 ==> ({
            let w = s.subrange(line_start(s, view.min_x), line_end(s, view.max_x));
            exists|cols: Seq<i64>|
                {
                    &&& cols.len() == w.len()
                    &&& forall|i: int| 0 <= i < w.len() ==> call_ensures(column, (w[i].x,), #[trigger] cols[i])
                    &&& lines == #[trigger] drawn(w, cols, bins)
                }
        }),
{
    if shown && s.len() > 0 {
        let w = s.subrange(line_start(s, view.min_x), line_end(s, view.max_x));
        let cols = choose|cols: Seq<i64>| #[trigger] columns_of(column, w, cols) && lines == drawn(w, cols, bins);
        assert(lines == drawn(w, cols, bins));
    }
}

/// Every spike in view is drawn: of a series in time order that is shown, a number
/// inside the view is between two that lie in its own pixel column and are on the
/// lines. The bounds of the view on the time axis are to be numbers.
pub proof fn lines_show_every_spike<C: Fn(Number) -> i64>(
    column: C,
    s: Seq<Point>,
    view: ViewRect,
    bins: nat,
    lines: Seq<Seq<Point>>,
    j: int,
)
    requires
        lines_of(column, s, true, view, bins, lines),
        in_time_order(s),
        !view.min_x.nan() && !view.max_x.nan(),
        0 <= j < s.len(),
        !s[j].x.less(view.min_x) && s[j].x.less(view.max_x),
        !s[j].y.nan(),
    ensures
        exists|p: Point, q: Point, c: i64|
            {
                &&& #[trigger] lines.flatten().contains(p) && #[trigger] lines.flatten().contains(q)
                &&& s.contains(p) && s.contains(q)
                &&& #[trigger] call_ensures(column, (s[j].x,), c)
                &&& call_ensures(column, (p.x,), c) && call_ensures(column, (q.x,), c)
                &&& !p.y.nan() && !s[j].y.less(p.y)
                &&& !q.y.nan() && !q.y.less(s[j].y)
            },
{
    let (a, b) = (line_start(s, view.min_x), line_end(s, view.max_x));
    lines_take_in_the_view(s, view.min_x, view.max_x, j);
    let w = s.subrange(a, b);
    let cols = choose|cols: Seq<i64>| #[trigger] columns_of(column, w, cols) && lines == drawn(w, cols, bins);
    lines_are_cut_at_gaps(w, cols, bins);
    assert(w[j - a] == s[j]);
    spikes_stay_visible(w, cols, bins, j - a);
    let d = decimated(w, cols, bins);
    let (k, l) = choose|k: int, l: int|
        {
            &&& 0 <= k < w.len() && 0 <= l < w.len()
            &&& cols[k] == cols[j - a] && cols[l] == cols[j - a]
            &&& !w[j - a].y.less(w[k].y) && !w[k].y.nan()
            &&& !w[l].y.less(w[j - a].y) && !w[l].y.nan()
            &&& d.contains(#[trigger] w[k])
            &&& d.contains(#[trigger] w[l])
        };
    let c = cols[j - a];
    assert(call_ensures(column, (w[k].x,), cols[k]));
    assert(call_ensures(column, (w[l].x,), cols[l]));
    assert(call_ensures(column, (s[j].x,), c));
    assert(s[a + k] == w[k] && s[a + l] == w[l]);
    assert(lines.flatten().contains(w[k]) && lines.flatten().contains(w[l]));
}

/// Lines that were made for a view stay, as long as no samples come in and the
/// view and the number of columns are the same. The bounds of the view are to be
/// numbers.
pub proof fn lines_stay_fresh(app: LivePlotApp, view: ViewRect, px_w: int)
    requires
        app.cached_lines@.len() > 0,
        app.cached_bins == bins_for(px_w, app.coarse()),
        app.last_view_rect == Some(view),
        !view.min_x.nan() && !view.min_y.nan() && !view.max_x.nan() && !view.max_y.nan(),
    ensures
        !app.lines_stale(false, view, px_w),
{
}

/// Once the view has settled, lines are at full resolution: where the ones that
/// were there are kept, they are to be those of the same samples in the same
/// view, at the number of columns that the state says.
pub proof fn settled_lines_are_full<C: Fn(Number) -> i64>(
    before: LivePlotApp,
    after: LivePlotApp,
    column: C,
    all: Seq<Seq<Point>>,
    data_changed: bool,
    view: ViewRect,
    px_w: int,
)
    requires
        before.refreshed_to(after, column, all, data_changed, view, px_w),
        before.interacting_frames == 0,
        before.lines_stale(data_changed, view, px_w) || before.lines_made(
            column,
            all,
            view,
            before.cached_bins as int,
        ),
    ensures
        after.lines_made(column, all, view, bins_for(px_w, false)),
        after.cached_bins == bins_for(px_w, false),
{
}

/// Coarse lines do not outlast the interaction: as soon as it is over, they are
/// made anew at full resolution, on every plot that is wide enough for coarse
/// lines to be coarser.
pub proof fn coarse_lines_are_replaced<C: Fn(Number) -> i64>(
    before: LivePlotApp,
    after: LivePlotApp,
    column: C,
    all: Seq<Seq<Point>>,
    data_changed: bool,
    view: ViewRect,
    px_w: int,
)
    requires
        before.refreshed_to(after, column, all, data_changed, view, px_w),
        before.interacting_frames == 0,
        before.cached_bins == bins_for(px_w, true),
        px_w > LEAST_BINS,
    ensures
        before.lines_stale(data_changed, view, px_w),
        after.lines_made(column, all, view, bins_for(px_w, false)),
{
}

} // verus!
