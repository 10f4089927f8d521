//! What the samples span, which of them a viewport shows, and which is nearest
//! to a click.

use vstd::prelude::*;
use crate::buffer::{found, in_time_order, search_ends, search_finds, search_grows, Point, SeriesBuffer};
use crate::number::{Number, INFINITY, MINUS_ONE, NEG_INFINITY, ONE};
use crate::smoothing::samples;

verus! {

/// The lowest value of `s`, from `acc` on.
pub open spec fn lowest_y(s: Seq<Point>, acc: Number) -> Number
    decreases s.len(),
{
    if s.len() == 0 {
        acc
    } else {
        lowest_y(s.drop_last(), acc).lower_of(s.last().y)
    }
}

/// The highest value of `s`, from `acc` on.
pub open spec fn highest_y(s: Seq<Point>, acc: Number) -> Number
    decreases s.len(),
{
    if s.len() == 0 {
        acc
    } else {
        highest_y(s.drop_last(), acc).upper_of(s.last().y)
    }
}

/// The lowest of `ys`, from `acc` on.
pub open spec fn lowest_of(ys: Seq<Number>, acc: Number) -> Number
    decreases ys.len(),
{
    if ys.len() == 0 {
        acc
    } else {
        lowest_of(ys.drop_last(), acc).lower_of(ys.last())
    }
}

/// The highest of `ys`, from `acc` on.
pub open spec fn highest_of(ys: Seq<Number>, acc: Number) -> Number
    decreases ys.len(),
{
    if ys.len() == 0 {
        acc
    } else {
        highest_of(ys.drop_last(), acc).upper_of(ys.last())
    }
}

/// The lowest value of all series, from `acc` on.
pub open spec fn lowest_in(all: Seq<Seq<Point>>, acc: Number) -> Number
    decreases all.len(),
{
    if all.len() == 0 {
        acc
    } else {
        lowest_y(all.last(), lowest_in(all.drop_last(), acc))
    }
}

/// The highest value of all series, from `acc` on.
pub open spec fn highest_in(all: Seq<Seq<Point>>, acc: Number) -> Number
    decreases all.len(),
{
    if all.len() == 0 {
        acc
    } else {
        highest_y(all.last(), highest_in(all.drop_last(), acc))
    }
}

/// The earliest position that a series begins at.
pub open spec fn earliest(all: Seq<Seq<Point>>) -> Option<Number>
    decreases all.len(),
{
    if all.len() == 0 {
        None
    } else {
        let before = earliest(all.drop_last());
        let s = all.last();
        if s.len() == 0 || (before matches Some(e) && !s.first().x.less(e)) {
            before
        } else {
            Some(s.first().x)
        }
    }
}

/// The latest position that a series ends at.
pub open spec fn latest(all: Seq<Seq<Point>>) -> Option<Number>
    decreases all.len(),
{
    if all.len() == 0 {
        None
    } else {
        let before = latest(all.drop_last());
        let s = all.last();
        if s.len() == 0 || (before matches Some(e) && !e.less(s.last().x)) {
            before
        } else {
            Some(s.last().x)
        }
    }
}

/// What all the samples span.
#[derive(Clone, Copy, Debug, PartialEq, Eq, Structural)]
pub struct Extent {
    pub first_x: Number,
    pub last_x: Number,
    pub min_y: Number,
    pub max_y: Number,
}

pub open spec fn or_zero(x: Option<Number>) -> Number {
    match x {
        Some(x) => x,
        None => Number { bits: 0 },
    }
}

/// The span of all series: from 0 to 0 in time where there are no samples, and
/// from -1 to 1 in value where no value bounds it below.
pub open spec fn extent_of(all: Seq<Seq<Point>>) -> Extent {
    let lo = lowest_in(all, Number { bits: INFINITY });
    let hi = highest_in(all, Number { bits: NEG_INFINITY });
    Extent {
        first_x: or_zero(earliest(all)),
        last_x: or_zero(latest(all)),
        min_y: if lo.infinite() { Number { bits: MINUS_ONE } } else { lo },
        max_y: if lo.infinite() { Number { bits: ONE } } else { hi },
    }
}

/// Widens a range of values to those of the samples from `from` on.
fn widen(buf: &SeriesBuffer, from: usize, lo: Number, hi: Number) -> (r: (Number, Number))
    requires
        from <= buf@.len(),
    ensures
        r.0 == lowest_y(buf@.skip(from as int), lo),
        r.1 == highest_y(buf@.skip(from as int), hi),
{
    let n: usize = buf.len();
    let ghost s = buf@.skip(from as int);
    let mut a: Number = lo;
    let mut b: Number = hi;
    let mut i: usize = from;
    assert(s.take(0) =~= Seq::<Point>::empty());
    while i < n
        invariant
            n == buf@.len(),
            from <= i <= n,
            s == buf@.skip(from as int),
            a == lowest_y(s.take(i - from), lo),
            b == highest_y(s.take(i - from), hi),
        decreases n - i,
    {
        let y: Number = buf.get(i).y;
        a = a.min(y);
        b = b.max(y);
        assert(s.take(i + 1 - from).drop_last() =~= s.take(i - from));
        i = i + 1;
    }
    assert(s.take(n - from) =~= s);
    (a, b)
}

/// Finds what all the samples span.
pub fn extent(all: &Vec<SeriesBuffer>) -> (r: Extent)
    ensures
        r == extent_of(samples(all@)),
{
    let ghost s = samples(all@);
    let mut first: Option<Number> = None;
    let mut last: Option<Number> = None;
    let mut lo: Number = Number { bits: INFINITY };
    let mut hi: Number = Number { bits: NEG_INFINITY };
    let mut i: usize = 0;
    while i < all.len()
        invariant
            i <= all@.len(),
            s == samples(all@),
            first == earliest(s.take(i as int)),
            last == latest(s.take(i as int)),
            lo == lowest_in(s.take(i as int), Number { bits: INFINITY }),
            hi == highest_in(s.take(i as int), Number { bits: NEG_INFINITY }),
        decreases all@.len() - i,
    {
        let buf: &SeriesBuffer = &all[i];
        if let (Some(f), Some(l)) = (buf.first(), buf.last()) {
            let earlier: bool = match first {
                Some(e) => f.x.lt(e),
                None => true,
            };
            if earlier {
                first = Some(f.x);
            }
            let later: bool = match last {
                Some(e) => e.lt(l.x),
                None => true,
            };
            if later {
                last = Some(l.x);
            }
        }
        let (a, b) = widen(buf, 0, lo, hi);
        lo = a;
        hi = b;
        proof {
            assert(s.take(i + 1).drop_last() =~= s.take(i as int));
            assert(s.take(i + 1).last() == buf@);
            assert(buf@.skip(0) =~= buf@);
        }
        i = i + 1;
    }
    assert(s.take(all@.len() as int) =~= s);
    let bounded: bool = !lo.is_infinite();
    Extent {
        first_x: match first {
            Some(x) => x,
            None => Number { bits: 0 },
        },
        last_x: match last {
            Some(x) => x,
            None => Number { bits: 0 },
        },
        min_y: if bounded { lo } else { Number { bits: MINUS_ONE } },
        max_y: if bounded { hi } else { Number { bits: ONE } },
    }
}

/// The first sample that a line over a viewport from `x` on begins with: the
/// one before the first inside.
pub open spec fn line_start(s: Seq<Point>, x: Number) -> int {
    if found(s, x) > 0 {
        found(s, x) - 1
    } else {
        0
    }
}

/// The end of the samples of a line over a viewport up to `x`: all of them where
/// the last one is inside.
pub open spec fn line_end(s: Seq<Point>, x: Number) -> int {
    if s.last().x.at_most(x) {
        s.len() as int
    } else {
        found(s, x)
    }
}

fn find_line_start(buf: &SeriesBuffer, x: Number) -> (r: usize)
    ensures
        r == line_start(buf@, x),
        r <= buf@.len(),
        buf@.len() > 0 ==> r < buf@.len(),
{
    let k: usize = buf.search_x(x);
    if k > 0 {
        k - 1
    } else {
        0
    }
}

/// The samples of a line over the viewport from `min_x` to `max_x`.
pub fn line_window(buf: &SeriesBuffer, min_x: Number, max_x: Number) -> (r: (usize, usize))
    requires
        buf@.len() > 0,
    ensures
        r.0 == line_start(buf@, min_x),
        r.1 == line_end(buf@, max_x),
        r.0 < buf@.len(),
        r.1 <= buf@.len(),
        r.0 == (if found(buf@, min_x) > 0 {
            found(buf@, min_x) - 1
        } else {
            0
        }),
        r.1 == (if buf@.last().x.at_most(max_x) {
            buf@.len() as int
        } else {
            found(buf@, max_x)
        }),
{
    let n: usize = buf.len();
    let start: usize = find_line_start(buf, min_x);
    let end: usize = if buf.get(n - 1).x.le(max_x) {
        n
    } else {
        buf.search_x(max_x)
    };
    (start, end)
}

/// A viewport that does not end before it begins shows a range of samples.
pub proof fn window_is_a_range(s: Seq<Point>, min_x: Number, max_x: Number)
    requires
        s.len() > 0,
        min_x.at_most(max_x),
    ensures
        0 <= line_start(s, min_x) <= line_end(s, max_x) <= s.len(),
{
    search_grows(s, min_x, max_x);
}

/// A line over a viewport, of samples in time order, takes in every sample inside
/// it, the one right before it, where there is one, and no other before. It takes
/// in nothing beyond the viewport, and everything where all ends inside it. The
/// bounds of the viewport are to be numbers.
pub proof fn lines_take_in_the_view(s: Seq<Point>, min_x: Number, max_x: Number, j: int)
    requires
        in_time_order(s),
        !min_x.nan() && !max_x.nan(),
        0 <= j < s.len(),
    ensures
        0 <= line_start(s, min_x) < s.len(),
        0 <= line_end(s, max_x) <= s.len(),
        !s[j].x.less(min_x) ==> line_start(s, min_x) <= j,
        j > line_start(s, min_x) ==> !s[j].x.less(min_x),
        s[0].x.less(min_x) ==> s[line_start(s, min_x)].x.less(min_x),
        !s[0].x.less(min_x) ==> line_start(s, min_x) == 0,
        s[j].x.less(max_x) ==> j < line_end(s, max_x),
        j < line_end(s, max_x) ==> !max_x.less(s[j].x),
        !max_x.less(s[s.len() - 1].x) ==> line_end(s, max_x) == s.len(),
{
    search_finds(s, min_x);
    search_finds(s, max_x);
    assert(s[0].x.rank() <= s[j].x.rank() <= s[s.len() - 1].x.rank());
    assert(!s[j].x.nan() && !s[0].x.nan() && !s[s.len() - 1].x.nan());
    let (f, g) = (found(s, min_x), found(s, max_x));
    if f > 0 {
        assert(s[f - 1].x.less(min_x));
    }
    if g > 0 {
        assert(s[g - 1].x.less(max_x));
    }
}

/// The lowest value that the shown series have from `x` on.
pub open spec fn lowest_shown(all: Seq<Seq<Point>>, visible: Seq<bool>, x: Number) -> Number
    decreases all.len(),
{
    if all.len() == 0 {
        Number { bits: INFINITY }
    } else {
        let before = lowest_shown(all.drop_last(), visible, x);
        let s = all.last();
        if visible[all.len() - 1] {
            lowest_y(s.skip(line_start(s, x)), before)
        } else {
            before
        }
    }
}

/// The highest value that the shown series have from `x` on.
pub open spec fn highest_shown(all: Seq<Seq<Point>>, visible: Seq<bool>, x: Number) -> Number
    decreases all.len(),
{
    if all.len() == 0 {
        Number { bits: NEG_INFINITY }
    } else {
        let before = highest_shown(all.drop_last(), visible, x);
        let s = all.last();
        if visible[all.len() - 1] {
            highest_y(s.skip(line_start(s, x)), before)
        } else {
            before
        }
    }
}

/// The range of values to show from `x` on: of the shown series and of the
/// values that are to be in view. `None` where no value bounds it below.
pub fn visible_y(all: &Vec<SeriesBuffer>, visible: &Vec<bool>, x: Number, include_y: &Vec<Number>) -> (r: Option<
    (Number, Number),
>)
    requires
        all@.len() <= visible@.len(),
    ensures
        r is None <==> lowest_of(include_y@, lowest_shown(samples(all@), visible@, x)).infinite(),
        r matches Some(y) ==> {
            &&& y.0 == lowest_of(include_y@, lowest_shown(samples(all@), visible@, x))
            &&& y.1 == highest_of(include_y@, highest_shown(samples(all@), visible@, x))
        },
{
    let ghost s = samples(all@);
    let mut lo: Number = Number { bits: INFINITY };
    let mut hi: Number = Number { bits: NEG_INFINITY };
    let mut i: usize = 0;
    while i < all.len()
        invariant
            i <= all@.len() <= visible@.len(),
            s == samples(all@),
            lo == lowest_shown(s.take(i as int), visible@, x),
            hi == highest_shown(s.take(i as int), visible@, x),
        decreases all@.len() - i,
    {
        let buf: &SeriesBuffer = &all[i];
        if visible[i] {
            let from: usize = find_line_start(buf, x);
            let (a, b) = widen(buf, from, lo, hi);
            lo = a;
            hi = b;
        }
        proof {
            assert(s.take(i + 1).drop_last() =~= s.take(i as int));
            assert(s.take(i + 1).last() == buf@);
        }
        i = i + 1;
    }
    assert(s.take(all@.len() as int) =~= s);
    let ghost lo0 = lo;
    let ghost hi0 = hi;
    let mut k: usize = 0;
    assert(include_y@.take(0) =~= Seq::<Number>::empty());
    while k < include_y.len()
        invariant
            k <= include_y@.len(),
            lo == lowest_of(include_y@.take(k as int), lo0),
            hi == highest_of(include_y@.take(k as int), hi0),
        decreases include_y@.len() - k,
    {
        lo = lo.min(include_y[k]);
        hi = hi.max(include_y[k]);
        assert(include_y@.take(k + 1).drop_last() =~= include_y@.take(k as int));
        k = k + 1;
    }
    assert(include_y@.take(include_y@.len() as int) =~= include_y@);
    if lo.is_infinite() {
        None
    } else {
        Some((lo, hi))
    }
}

/// The range of the value axis: what `margin` makes of the range of values, or,
/// where there is none, -1 to 1.
pub fn axis_range<M: Fn(Number, Number) -> (Number, Number)>(range: Option<(Number, Number)>, margin: &M) -> (r: (
    Number,
    Number,
))
    requires
        forall|lo: Number, hi: Number| call_requires(*margin, (lo, hi)),
    ensures
        match range {
            Some((lo, hi)) => call_ensures(*margin, (lo, hi), r),
            None => r == (Number { bits: MINUS_ONE }, Number { bits: ONE }),
        },
{
    match range {
        Some((lo, hi)) => margin(lo, hi),
        None => (Number { bits: MINUS_ONE }, Number { bits: ONE }),
    }
}

/// A sample that a click may mean.
#[derive(Clone, Copy, Debug, PartialEq, Eq, Structural)]
pub struct Candidate {
    pub series: usize,
    pub point: Point,
}

/// The samples of one series, as its own.
pub open spec fn own(s: Seq<Point>, series: int) -> Seq<Candidate> {
    Seq::new(s.len(), |j: int| Candidate { series: series as usize, point: s[j] })
}

/// The samples of the shown ones of `all`, series after series.
pub open spec fn shown_in(all: Seq<Seq<Point>>, visible: Seq<bool>) -> Seq<Candidate>
    decreases all.len(),
{
    if all.len() == 0 {
        Seq::empty()
    } else {
        let before = shown_in(all.drop_last(), visible);
        if visible[all.len() - 1] {
            before + own(all.last(), all.len() - 1)
        } else {
            before
        }
    }
}

/// The series that have a place among the flags.
pub open spec fn flagged(all: Seq<Seq<Point>>, visible: Seq<bool>) -> Seq<Seq<Point>> {
    if all.len() <= visible.len() {
        all
    } else {
        all.take(visible.len() as int)
    }
}

/// All samples that a click may mean: those of the shown series.
pub open spec fn clickable(all: Seq<Seq<Point>>, visible: Seq<bool>) -> Seq<Candidate> {
    shown_in(flagged(all, visible), visible)
}

/// `c` is a sample of a series that is shown.
pub open spec fn is_shown(all: Seq<Seq<Point>>, visible: Seq<bool>, c: Candidate) -> bool {
    &&& c.series < all.len() && c.series < visible.len()
    &&& visible[c.series as int]
    &&& all[c.series as int].contains(c.point)
}

proof fn shown_in_is_shown(all: Seq<Seq<Point>>, visible: Seq<bool>, c: Candidate)
    requires
        all.len() <= visible.len() <= usize::MAX,
    ensures
        shown_in(all, visible).contains(c) <==> is_shown(all, visible, c),
    decreases all.len(),
{
    if all.len() > 0 {
        let rest = all.drop_last();
        let i = all.len() - 1;
        let s = all.last();
        shown_in_is_shown(rest, visible, c);
        let before = shown_in(rest, visible);
        let whole = shown_in(all, visible);
        if c.series < i {
            assert(rest[c.series as int] == all[c.series as int]);
        }
        if whole.contains(c) {
            let k = whole.index_of(c);
            if k < before.len() {
                assert(before[k] == c);
            } else {
                assert(own(s, i)[k - before.len()] == c);
                assert(s[k - before.len()] == c.point);
            }
        }
        if is_shown(all, visible, c) {
            if c.series == i {
                let j = s.index_of(c.point);
                assert(own(s, i)[j] == c);
                assert(whole[before.len() + j] == c);
            } else {
                let k = before.index_of(c);
                assert(whole[k] == c);
            }
        }
    }
}

/// A click may mean every sample of a shown series, and no other.
pub proof fn clickable_are_the_shown(all: Seq<Seq<Point>>, visible: Seq<bool>, c: Candidate)
    requires
        visible.len() <= usize::MAX,
    ensures
        clickable(all, visible).contains(c) <==> is_shown(all, visible, c),
{
    let part = flagged(all, visible);
    shown_in_is_shown(part, visible, c);
    if c.series < part.len() {
        assert(part[c.series as int] == all[c.series as int]);
    }
}

/// Gathers all samples of the shown series.
pub fn candidates(all: &Vec<SeriesBuffer>, visible: &Vec<bool>) -> (r: Vec<Candidate>)
    ensures
        r@ == clickable(samples(all@), visible@),
{
    let ghost s = samples(all@);
    let n: usize = if all.len() < visible.len() { all.len() } else { visible.len() };
    let mut out: Vec<Candidate> = Vec::new();
    let mut i: usize = 0;
    while i < n
        invariant
            i <= n <= all@.len(),
            n <= visible@.len(),
            s == samples(all@),
            out@ == shown_in(s.take(i as int), visible@),
        decreases n - i,
    {
        let buf: &SeriesBuffer = &all[i];
        let ghost before = out@;
        if visible[i] {
            let len: usize = buf.len();
            let ghost want = own(buf@, i as int);
            let mut j: usize = 0;
            assert(out@ =~= before + want.take(0));
            while j < len
                invariant
                    j <= len == buf@.len(),
                    want == own(buf@, i as int),
                    out@ == before + want.take(j as int),
                decreases len - j,
            {
                out.push(Candidate { series: i, point: buf.get(j) });
                assert(want.take(j + 1) =~= want.take(j as int).push(want[j as int]));
                assert(out@ =~= before + want.take(j + 1));
                j = j + 1;
            }
            assert(want.take(len as int) =~= want);
        }
        proof {
            assert(s.take(i + 1).drop_last() =~= s.take(i as int));
            assert(s.take(i + 1).last() == buf@);
        }
        i = i + 1;
    }
    assert(s.take(n as int) =~= flagged(s, visible@));
    out
}

/// One of the distances is below `limit`.
pub open spec fn within(d: Seq<Number>, limit: Number) -> bool {
    exists|k: int| 0 <= k < d.len() && (#[trigger] d[k]).less(limit)
}

/// `k` is the first of those at the least distance.
pub open spec fn first_nearest(d: Seq<Number>, k: int) -> bool {
    &&& 0 <= k < d.len()
    &&& !d[k].nan()
    &&& forall|i: int| 0 <= i < d.len() && !(#[trigger] d[i]).nan() ==> d[k].at_most(d[i])
    &&& forall|i: int| 0 <= i < k && !(#[trigger] d[i]).nan() ==> d[k].less(d[i])
}

/// Where something is below `limit`, what is found is the first of the nearest,
/// and is below `limit` too.
pub proof fn nearest_within(d: Seq<Number>, limit: Number)
    ensures
        within(d, limit) <==> (nearest_of(d) matches Some(k) && d[k].less(limit)),
        nearest_of(d) matches Some(k) ==> first_nearest(d, k),
{
    nearest_is_nearest(d);
    if within(d, limit) {
        let k = choose|k: int| 0 <= k < d.len() && (#[trigger] d[k]).less(limit);
        assert(d[k].less(Number { bits: INFINITY }));
    }
}

/// The first of the least distances below infinity.
pub open spec fn nearest_of(d: Seq<Number>) -> Option<int>
    decreases d.len(),
{
    if d.len() == 0 {
        None
    } else {
        let before = nearest_of(d.drop_last());
        let best = match before {
            Some(k) => d[k],
            None => Number { bits: INFINITY },
        };
        if d.last().less(best) {
            Some(d.len() - 1)
        } else {
            before
        }
    }
}

/// Finds the first of the least distances below infinity.
pub fn nearest(d: &Vec<Number>) -> (r: Option<usize>)
    ensures
        match r {
            Some(k) => k < d@.len() && nearest_of(d@) == Some(k as int),
            None => nearest_of(d@) is None,
        },
{
    let mut best: Option<usize> = None;
    let mut least: Number = Number { bits: INFINITY };
    let mut i: usize = 0;
    while i < d.len()
        invariant
            i <= d@.len(),
            match best {
                Some(k) => k < i && nearest_of(d@.take(i as int)) == Some(k as int) && least == d@[k as int],
                None => nearest_of(d@.take(i as int)) is None && least == (Number { bits: INFINITY }),
            },
        decreases d@.len() - i,
    {
        assert(d@.take(i + 1).drop_last() =~= d@.take(i as int));
        if d[i].lt(least) {
            least = d[i];
            best = Some(i);
        }
        i = i + 1;
    }
    assert(d@.take(d@.len() as int) =~= d@);
    best
}

/// The sample that is found is at a distance that no other is below, and every
/// one before it is farther or at no distance at all; where none is found, none
/// is at a distance below infinity.
pub proof fn nearest_is_nearest(d: Seq<Number>)
    ensures
        nearest_of(d) matches Some(k) ==> {
            &&& 0 <= k < d.len()
            &&& d[k].less(Number { bits: INFINITY })
            &&& forall|i: int| 0 <= i < d.len() ==> !(#[trigger] d[i]).less(d[k])
            &&& forall|i: int| 0 <= i < k ==> d[k].less(#[trigger] d[i]) || d[i].nan()
        },
        nearest_of(d) is None ==> forall|i: int|
            0 <= i < d.len() ==> !(#[trigger] d[i]).less(Number { bits: INFINITY }),
    decreases d.len(),
{
    if d.len() > 0 {
        let rest = d.drop_last();
        nearest_is_nearest(rest);
        assert forall|i: int| 0 <= i < rest.len() implies rest[i] == #[trigger] d[i] by {}
    }
}

proof fn series_bounds(s: Seq<Point>, lo: Number, hi: Number)
    requires
        !lo.nan(),
        !hi.nan(),
    ensures
        !lowest_y(s, lo).nan() && lowest_y(s, lo).at_most(lo),
        !highest_y(s, hi).nan() && hi.at_most(highest_y(s, hi)),
        forall|j: int| 0 <= j < s.len() && !(#[trigger] s[j]).y.nan() ==> lowest_y(s, lo).at_most(s[j].y),
        forall|j: int| 0 <= j < s.len() && !(#[trigger] s[j]).y.nan() ==> s[j].y.at_most(highest_y(s, hi)),
    decreases s.len(),
{
    if s.len() > 0 {
        let rest = s.drop_last();
        series_bounds(rest, lo, hi);
        assert forall|j: int| 0 <= j < rest.len() implies rest[j] == #[trigger] s[j] by {}
    }
}

proof fn all_bounds(all: Seq<Seq<Point>>, lo: Number, hi: Number)
    requires
        !lo.nan(),
        !hi.nan(),
    ensures
        !lowest_in(all, lo).nan() && lowest_in(all, lo).at_most(lo),
        !highest_in(all, hi).nan() && hi.at_most(highest_in(all, hi)),
        forall|i: int, j: int|
            0 <= i < all.len() && 0 <= j < all[i].len() && !(#[trigger] all[i][j]).y.nan() ==> lowest_in(all, lo).at_most(
                all[i][j].y,
            ) && all[i][j].y.at_most(highest_in(all, hi)),
    decreases all.len(),
{
    if all.len() > 0 {
        let rest = all.drop_last();
        all_bounds(rest, lo, hi);
        series_bounds(all.last(), lowest_in(rest, lo), highest_in(rest, hi));
        assert forall|i: int, j: int|
            0 <= i < all.len() && 0 <= j < all[i].len() && !(#[trigger] all[i][j]).y.nan() implies lowest_in(
            all,
            lo,
        ).at_most(all[i][j].y) && all[i][j].y.at_most(highest_in(all, hi)) by {
            if i < rest.len() {
                assert(rest[i][j] == all[i][j]);
            }
        }
    }
}

/// Every value is within the extent, unless the lowest is without bound.
pub proof fn extent_holds_the_values(all: Seq<Seq<Point>>, i: int, j: int)
    requires
        0 <= i < all.len(),
        0 <= j < all[i].len(),
        !all[i][j].y.nan(),
        !lowest_in(all, Number { bits: INFINITY }).infinite(),
    ensures
        extent_of(all).min_y.at_most(all[i][j].y),
        all[i][j].y.at_most(extent_of(all).max_y),
{
    all_bounds(all, Number { bits: INFINITY }, Number { bits: NEG_INFINITY });
    assert(!all[i][j].y.nan());
}

proof fn shown_bounds(all: Seq<Seq<Point>>, visible: Seq<bool>, x: Number)
    ensures
        !lowest_shown(all, visible, x).nan(),
        !highest_shown(all, visible, x).nan(),
        forall|i: int, j: int|
            0 <= i < all.len() && visible[i] && line_start(all[i], x) <= j < all[i].len() && !(#[trigger] all[i][j]).y.nan()
                ==> lowest_shown(all, visible, x).at_most(all[i][j].y) && all[i][j].y.at_most(
                highest_shown(all, visible, x),
            ),
    decreases all.len(),
{
    if all.len() > 0 {
        let rest = all.drop_last();
        let s = all.last();
        let from = line_start(s, x);
        shown_bounds(rest, visible, x);
        search_ends(s, x);
        if visible[all.len() - 1] {
            series_bounds(s.skip(from), lowest_shown(rest, visible, x), highest_shown(rest, visible, x));
        }
        assert forall|i: int, j: int|
            0 <= i < all.len() && visible[i] && line_start(all[i], x) <= j < all[i].len() && !(#[trigger] all[i][j]).y.nan()
            implies lowest_shown(all, visible, x).at_most(all[i][j].y) && all[i][j].y.at_most(
            highest_shown(all, visible, x),
        ) by {
            if i < rest.len() {
                assert(rest[i][j] == all[i][j]);
            } else {
                assert(s.skip(from)[j - from] == all[i][j]);
            }
        }
    }
}

proof fn include_bounds(ys: Seq<Number>, lo: Number, hi: Number)
    requires
        !lo.nan(),
        !hi.nan(),
    ensures
        !lowest_of(ys, lo).nan() && lowest_of(ys, lo).at_most(lo),
        !highest_of(ys, hi).nan() && hi.at_most(highest_of(ys, hi)),
        forall|k: int| 0 <= k < ys.len() && !(#[trigger] ys[k]).nan() ==> lowest_of(ys, lo).at_most(ys[k]) && ys[k].at_most(
            highest_of(ys, hi),
        ),
    decreases ys.len(),
{
    if ys.len() > 0 {
        let rest = ys.drop_last();
        include_bounds(rest, lo, hi);
        assert forall|k: int| 0 <= k < rest.len() implies rest[k] == #[trigger] ys[k] by {}
    }
}

/// The range of values to show holds every number of a shown series from the
/// start of its line on.
pub proof fn visible_y_holds_the_values(
    all: Seq<Seq<Point>>,
    visible: Seq<bool>,
    x: Number,
    include_y: Seq<Number>,
    i: int,
    j: int,
)
    requires
        0 <= i < all.len() <= visible.len(),
        visible[i],
        line_start(all[i], x) <= j < all[i].len(),
        !all[i][j].y.nan(),
    ensures
        lowest_of(include_y, lowest_shown(all, visible, x)).at_most(all[i][j].y),
        all[i][j].y.at_most(highest_of(include_y, highest_shown(all, visible, x))),
{
    shown_bounds(all, visible, x);
    include_bounds(include_y, lowest_shown(all, visible, x), highest_shown(all, visible, x));
    assert(!all[i][j].y.nan());
}

/// The range of values to show holds every number that is to be in view.
pub proof fn visible_y_holds_the_included(
    all: Seq<Seq<Point>>,
    visible: Seq<bool>,
    x: Number,
    include_y: Seq<Number>,
    k: int,
)
    requires
        0 <= k < include_y.len(),
        !include_y[k].nan(),
    ensures
        lowest_of(include_y, lowest_shown(all, visible, x)).at_most(include_y[k]),
        include_y[k].at_most(highest_of(include_y, highest_shown(all, visible, x))),
{
    shown_bounds(all, visible, x);
    include_bounds(include_y, lowest_shown(all, visible, x), highest_shown(all, visible, x));
}

proof fn series_tight(s: Seq<Point>, lo: Number, hi: Number)
    ensures
        lowest_y(s, lo) == lo || exists|j: int| 0 <= j < s.len() && (#[trigger] s[j]).y == lowest_y(s, lo),
        highest_y(s, hi) == hi || exists|j: int| 0 <= j < s.len() && (#[trigger] s[j]).y == highest_y(s, hi),
    decreases s.len(),
{
    if s.len() > 0 {
        let rest = s.drop_last();
        series_tight(rest, lo, hi);
        assert forall|j: int| 0 <= j < rest.len() implies #[trigger] rest[j] == s[j] by {}
        assert(s[s.len() - 1] == s.last());
        if lowest_y(s, lo) != lo && lowest_y(s, lo) != s.last().y {
            let j = choose|j: int| 0 <= j < rest.len() && (#[trigger] rest[j]).y == lowest_y(rest, lo);
            assert(s[j].y == lowest_y(s, lo));
        }
        if highest_y(s, hi) != hi && highest_y(s, hi) != s.last().y {
            let j = choose|j: int| 0 <= j < rest.len() && (#[trigger] rest[j]).y == highest_y(rest, hi);
            assert(s[j].y == highest_y(s, hi));
        }
    }
}

proof fn include_tight(ys: Seq<Number>, lo: Number, hi: Number)
    ensures
        lowest_of(ys, lo) == lo || ys.contains(lowest_of(ys, lo)),
        highest_of(ys, hi) == hi || ys.contains(highest_of(ys, hi)),
    decreases ys.len(),
{
    if ys.len() > 0 {
        let rest = ys.drop_last();
        include_tight(rest, lo, hi);
        assert(ys[ys.len() - 1] == ys.last());
        if rest.contains(lowest_of(rest, lo)) {
            assert(ys[rest.index_of(lowest_of(rest, lo))] == lowest_of(rest, lo));
        }
        if rest.contains(highest_of(rest, hi)) {
            assert(ys[rest.index_of(highest_of(rest, hi))] == highest_of(rest, hi));
        }
    }
}

proof fn shown_tight(all: Seq<Seq<Point>>, visible: Seq<bool>, x: Number)
    ensures
        lowest_shown(all, visible, x) == (Number { bits: INFINITY }) || exists|i: int, j: int|
            0 <= i < all.len() && visible[i] && line_start(all[i], x) <= j < all[i].len() && (#[trigger] all[i][j]).y
                == lowest_shown(all, visible, x),
        highest_shown(all, visible, x) == (Number { bits: NEG_INFINITY }) || exists|i: int, j: int|
            0 <= i < all.len() && visible[i] && line_start(all[i], x) <= j < all[i].len() && (#[trigger] all[i][j]).y
                == highest_shown(all, visible, x),
    decreases all.len(),
{
    if all.len() > 0 {
        let rest = all.drop_last();
        let s = all.last();
        let from = line_start(s, x);
        let (lo, hi) = (lowest_shown(rest, visible, x), highest_shown(rest, visible, x));
        shown_tight(rest, visible, x);
        search_ends(s, x);
        if lo != (Number { bits: INFINITY }) {
            let (i, j) = choose|i: int, j: int|
                0 <= i < rest.len() && visible[i] && line_start(rest[i], x) <= j < rest[i].len() && (
                #[trigger] rest[i][j]).y == lo;
            assert(all[i][j].y == lo);
        }
        if hi != (Number { bits: NEG_INFINITY }) {
            let (i, j) = choose|i: int, j: int|
                0 <= i < rest.len() && visible[i] && line_start(rest[i], x) <= j < rest[i].len() && (
                #[trigger] rest[i][j]).y == hi;
            assert(all[i][j].y == hi);
        }
        let l = all.len() - 1;
        if visible[l] {
            let part = s.skip(from);
            series_tight(part, lo, hi);
            if lowest_shown(all, visible, x) != lo {
                let j = choose|j: int| 0 <= j < part.len() && (#[trigger] part[j]).y == lowest_y(part, lo);
                assert(all[l][from + j].y == lowest_shown(all, visible, x));
            }
            if highest_shown(all, visible, x) != hi {
                let j = choose|j: int| 0 <= j < part.len() && (#[trigger] part[j]).y == highest_y(part, hi);
                assert(all[l][from + j].y == highest_shown(all, visible, x));
            }
        }
    }
}

/// The range of values to show is no wider than it has to be: each of its ends is
/// a value that is to be in view, or the value of a sample of a shown series from
/// the start of its line on.
pub proof fn visible_y_is_tight(all: Seq<Seq<Point>>, visible: Seq<bool>, x: Number, include_y: Seq<Number>)
    requires
        all.len() <= visible.len(),
        !lowest_of(include_y, lowest_shown(all, visible, x)).infinite(),
    ensures
        include_y.contains(lowest_of(include_y, lowest_shown(all, visible, x))) || exists|i: int, j: int|
            0 <= i < all.len() && visible[i] && line_start(all[i], x) <= j < all[i].len() && (#[trigger] all[i][j]).y
                == lowest_of(include_y, lowest_shown(all, visible, x)),
        include_y.contains(highest_of(include_y, highest_shown(all, visible, x))) || exists|i: int, j: int|
            0 <= i < all.len() && visible[i] && line_start(all[i], x) <= j < all[i].len() && (#[trigger] all[i][j]).y
                == highest_of(include_y, highest_shown(all, visible, x)),
{
    let (lo, hi) = (lowest_shown(all, visible, x), highest_shown(all, visible, x));
    shown_tight(all, visible, x);
    shown_bounds(all, visible, x);
    include_tight(include_y, lo, hi);
    include_bounds(include_y, lo, hi);
    let y = lowest_of(include_y, lo);
    if include_y.contains(y) {
        assert(!include_y[include_y.index_of(y)].nan());
    }
}

/// There is a range of values to show where one of the values that it has to hold
/// is finite and none is negative infinity, and only there.
pub proof fn visible_y_is_found(all: Seq<Seq<Point>>, visible: Seq<bool>, x: Number, include_y: Seq<Number>)
    requires
        all.len() <= visible.len(),
    ensures
        lowest_of(include_y, lowest_shown(all, visible, x)).infinite() <==> {
            ||| include_y.contains(Number { bits: NEG_INFINITY })
            ||| exists|i: int, j: int|
                0 <= i < all.len() && visible[i] && line_start(all[i], x) <= j < all[i].len() && (
                #[trigger] all[i][j]).y == (Number { bits: NEG_INFINITY })
            ||| {
                &&& forall|k: int| 0 <= k < include_y.len() ==> !(#[trigger] include_y[k]).finite()
                &&& forall|i: int, j: int|
                    0 <= i < all.len() && visible[i] && line_start(all[i], x) <= j < all[i].len() ==> !(
                    #[trigger] all[i][j]).y.finite()
            }
        },
{
    let (lo, hi) = (lowest_shown(all, visible, x), highest_shown(all, visible, x));
    shown_tight(all, visible, x);
    shown_bounds(all, visible, x);
    include_tight(include_y, lo, hi);
    include_bounds(include_y, lo, hi);
    let y = lowest_of(include_y, lo);
    let least = Number { bits: NEG_INFINITY };
    if include_y.contains(least) {
        assert(y.at_most(include_y[include_y.index_of(least)]));
    }
    if include_y.contains(y) {
        assert(!include_y[include_y.index_of(y)].finite() || y.finite());
    }
    assert(y.infinite() ==> y == least || y == (Number { bits: INFINITY }));
}

proof fn all_tight(all: Seq<Seq<Point>>, lo: Number, hi: Number)
    ensures
        lowest_in(all, lo) == lo || exists|i: int, j: int|
            0 <= i < all.len() && 0 <= j < all[i].len() && (#[trigger] all[i][j]).y == lowest_in(all, lo),
        highest_in(all, hi) == hi || exists|i: int, j: int|
            0 <= i < all.len() && 0 <= j < all[i].len() && (#[trigger] all[i][j]).y == highest_in(all, hi),
    decreases all.len(),
{
    if all.len() > 0 {
        let rest = all.drop_last();
        let s = all.last();
        let (a, b) = (lowest_in(rest, lo), highest_in(rest, hi));
        all_tight(rest, lo, hi);
        series_tight(s, a, b);
        let l = all.len() - 1;
        if a != lo {
            let (i, j) = choose|i: int, j: int|
                0 <= i < rest.len() && 0 <= j < rest[i].len() && (#[trigger] rest[i][j]).y == a;
            assert(all[i][j].y == a);
        }
        if b != hi {
            let (i, j) = choose|i: int, j: int|
                0 <= i < rest.len() && 0 <= j < rest[i].len() && (#[trigger] rest[i][j]).y == b;
            assert(all[i][j].y == b);
        }
        if lowest_in(all, lo) != a {
            let j = choose|j: int| 0 <= j < s.len() && (#[trigger] s[j]).y == lowest_y(s, a);
            assert(all[l][j].y == lowest_in(all, lo));
        }
        if highest_in(all, hi) != b {
            let j = choose|j: int| 0 <= j < s.len() && (#[trigger] s[j]).y == highest_y(s, b);
            assert(all[l][j].y == highest_in(all, hi));
        }
    }
}

/// The extent is no wider than the samples: where one of their values is finite
/// and none is negative infinity, both its bounds are values of samples; elsewhere
/// it is from -1 to 1.
pub proof fn extent_is_tight(all: Seq<Seq<Point>>)
    ensures
        ({
            let bounded = (exists|i: int, j: int|
                0 <= i < all.len() && 0 <= j < all[i].len() && (#[trigger] all[i][j]).y.finite()) && forall|
                i: int,
                j: int,
            |
                0 <= i < all.len() && 0 <= j < all[i].len() ==> (#[trigger] all[i][j]).y != (Number {
                    bits: NEG_INFINITY,
                });
            &&& bounded ==> exists|i: int, j: int|
                0 <= i < all.len() && 0 <= j < all[i].len() && (#[trigger] all[i][j]).y == extent_of(all).min_y
            &&& bounded ==> exists|i: int, j: int|
                0 <= i < all.len() && 0 <= j < all[i].len() && (#[trigger] all[i][j]).y == extent_of(all).max_y
            &&& bounded ==> forall|i: int, j: int|
                0 <= i < all.len() && 0 <= j < all[i].len() && !(#[trigger] all[i][j]).y.nan() ==> extent_of(
                    all,
                ).min_y.at_most(all[i][j].y) && all[i][j].y.at_most(extent_of(all).max_y)
            &&& !bounded ==> extent_of(all).min_y == (Number { bits: MINUS_ONE }) && extent_of(all).max_y == (Number {
                bits: ONE,
            })
        }),
{
    let (inf, neg) = (Number { bits: INFINITY }, Number { bits: NEG_INFINITY });
    all_tight(all, inf, neg);
    all_bounds(all, inf, neg);
    let lo = lowest_in(all, inf);
    assert(lo.infinite() ==> lo == neg || lo == inf);
}

proof fn ends_tight(all: Seq<Seq<Point>>)
    ensures
        earliest(all) is None <==> latest(all) is None,
        earliest(all) is None <==> forall|i: int| 0 <= i < all.len() ==> (#[trigger] all[i]).len() == 0,
        earliest(all) matches Some(e) ==> exists|i: int|
            0 <= i < all.len() && (#[trigger] all[i]).len() > 0 && all[i].first().x == e,
        latest(all) matches Some(e) ==> exists|i: int|
            0 <= i < all.len() && (#[trigger] all[i]).len() > 0 && all[i].last().x == e,
        forall|i: int|
            0 <= i < all.len() && (#[trigger] all[i]).len() > 0 ==> {
                &&& earliest(all) matches Some(e) && !all[i].first().x.less(e)
                &&& latest(all) matches Some(e) && !e.less(all[i].last().x)
            },
    decreases all.len(),
{
    if all.len() > 0 {
        let rest = all.drop_last();
        ends_tight(rest);
        let l = all.len() - 1;
        assert(all[l] == all.last());
        assert forall|i: int| 0 <= i < rest.len() implies #[trigger] rest[i] == all[i] by {}
        assert forall|i: int| 0 <= i < rest.len() implies #[trigger] all[i] == rest[i] by {}
        if let Some(e) = earliest(rest) {
            let i = choose|i: int| 0 <= i < rest.len() && (#[trigger] rest[i]).len() > 0 && rest[i].first().x == e;
            assert(all[i].first().x == e);
        }
        if let Some(e) = latest(rest) {
            let i = choose|i: int| 0 <= i < rest.len() && (#[trigger] rest[i]).len() > 0 && rest[i].last().x == e;
            assert(all[i].last().x == e);
        }
    }
}

/// The extent begins where one of the series begins, and none begins before it;
/// it ends where one ends, and none ends after it. Without samples it is at 0.
pub proof fn extent_begins_and_ends_with_samples(all: Seq<Seq<Point>>)
    ensures
        (forall|i: int| 0 <= i < all.len() ==> (#[trigger] all[i]).len() == 0) ==> extent_of(all).first_x == (Number {
            bits: 0,
        }) && extent_of(all).last_x == (Number { bits: 0 }),
        forall|i: int|
            0 <= i < all.len() && (#[trigger] all[i]).len() > 0 ==> !all[i].first().x.less(extent_of(all).first_x)
                && !extent_of(all).last_x.less(all[i].last().x),
        (exists|i: int| 0 <= i < all.len() && (#[trigger] all[i]).len() > 0) ==> {
            &&& exists|i: int|
                0 <= i < all.len() && (#[trigger] all[i]).len() > 0 && all[i].first().x == extent_of(all).first_x
            &&& exists|i: int|
                0 <= i < all.len() && (#[trigger] all[i]).len() > 0 && all[i].last().x == extent_of(all).last_x
        },
{
    ends_tight(all);
}

/// How many samples the shown ones of the first `n` series hold.
pub open spec fn shown_before(all: Seq<Seq<Point>>, visible: Seq<bool>, n: int) -> int
    decreases n,
{
    if n <= 0 {
        0
    } else {
        shown_before(all, visible, n - 1) + (if visible[n - 1] {
            all[n - 1].len() as int
        } else {
            0
        })
    }
}

proof fn shown_in_turn(all: Seq<Seq<Point>>, visible: Seq<bool>, i: int, j: int)
    requires
        all.len() <= visible.len() <= usize::MAX,
        0 <= i < all.len(),
        visible[i],
        0 <= j < all[i].len(),
    ensures
        0 <= shown_before(all, visible, i),
        shown_before(all, visible, i) + j < shown_in(all, visible).len(),
        shown_in(all, visible)[shown_before(all, visible, i) + j] == (Candidate { series: i as usize, point: all[i][j] }),
    decreases all.len(),
{
    let rest = all.drop_last();
    let before = shown_in(rest, visible);
    shown_in_length(rest, visible);
    shown_before_fits(all, rest, visible, all.len() - 1);
    shown_before_fits(all, rest, visible, i);
    if i < rest.len() {
        shown_in_turn(rest, visible, i, j);
        assert(rest[i][j] == all[i][j]);
    }
}

proof fn shown_in_length(all: Seq<Seq<Point>>, visible: Seq<bool>)
    requires
        all.len() <= visible.len(),
    ensures
        shown_in(all, visible).len() == shown_before(all, visible, all.len() as int),
    decreases all.len(),
{
    if all.len() > 0 {
        let rest = all.drop_last();
        shown_in_length(rest, visible);
        shown_before_fits(all, rest, visible, rest.len() as int);
    }
}

proof fn shown_before_fits(all: Seq<Seq<Point>>, rest: Seq<Seq<Point>>, visible: Seq<bool>, n: int)
    requires
        0 <= n <= rest.len() <= all.len(),
        forall|i: int| 0 <= i < rest.len() ==> #[trigger] rest[i] == all[i],
    ensures
        shown_before(all, visible, n) == shown_before(rest, visible, n) >= 0,
    decreases n,
{
    if n > 0 {
        shown_before_fits(all, rest, visible, n - 1);
        assert(rest[n - 1] == all[n - 1]);
    }
}

/// What a click may mean are the samples of the shown series, every one of them
/// once: series after series, each in its own order.
pub proof fn clickable_in_turn(all: Seq<Seq<Point>>, visible: Seq<bool>, i: int, j: int)
    requires
        visible.len() <= usize::MAX,
        0 <= i < all.len() && i < visible.len(),
        visible[i],
        0 <= j < all[i].len(),
    ensures
        0 <= shown_before(all, visible, i) + j < clickable(all, visible).len(),
        clickable(all, visible)[shown_before(all, visible, i) + j] == (Candidate {
            series: i as usize,
            point: all[i][j],
        }),
        all.len() <= visible.len() ==> clickable(all, visible).len() == shown_before(
            all,
            visible,
            all.len() as int,
        ),
        all.len() > visible.len() ==> clickable(all, visible).len() == shown_before(
            all,
            visible,
            visible.len() as int,
        ),
{
    let part = flagged(all, visible);
    assert forall|k: int| 0 <= k < part.len() implies #[trigger] part[k] == all[k] by {}
    shown_in_length(part, visible);
    shown_before_fits(all, part, visible, part.len() as int);
    shown_in_turn(part, visible, i, j);
    shown_before_fits(all, part, visible, i);
}

/// The samples of a shown series have their places before those of every series
/// that comes after it.
pub proof fn shown_before_grows(all: Seq<Seq<Point>>, visible: Seq<bool>, i: int, n: int)
    requires
        0 <= i < n,
        visible[i],
    ensures
        shown_before(all, visible, i) + all[i].len() <= shown_before(all, visible, n),
    decreases n,
{
    if i < n - 1 {
        shown_before_grows(all, visible, i, n - 1);
    }
}

proof fn shown_at(all: Seq<Seq<Point>>, visible: Seq<bool>, k: int)
    requires
        all.len() <= visible.len() <= usize::MAX,
        0 <= k < shown_in(all, visible).len(),
    ensures
        ({
            let i = shown_in(all, visible)[k].series as int;
            &&& i < all.len() && visible[i]
            &&& shown_before(all, visible, i) <= k < shown_before(all, visible, i) + all[i].len()
        }),
    decreases all.len(),
{
    let rest = all.drop_last();
    let before = shown_in(rest, visible);
    let l = all.len() - 1;
    shown_in_length(rest, visible);
    shown_before_fits(all, rest, visible, l);
    if k < before.len() {
        shown_at(rest, visible, k);
        let i = before[k].series as int;
        shown_before_fits(all, rest, visible, i);
        assert(rest[i] == all[i]);
        assert(shown_in(all, visible)[k] == before[k]);
    } else {
        assert(shown_in(all, visible)[k] == own(all.last(), l)[k - before.len()]);
    }
}

/// Each that a click may mean is the sample of a shown series that has its place.
pub proof fn clickable_at(all: Seq<Seq<Point>>, visible: Seq<bool>, k: int)
    requires
        visible.len() <= usize::MAX,
        0 <= k < clickable(all, visible).len(),
    ensures
        ({
            let c = clickable(all, visible)[k];
            let i = c.series as int;
            let j = k - shown_before(all, visible, i);
            &&& i < all.len() && i < visible.len() && visible[i]
            &&& 0 <= j < all[i].len()
            &&& c.point == all[i][j]
        }),
{
    let part = flagged(all, visible);
    assert forall|n: int| 0 <= n < part.len() implies #[trigger] part[n] == all[n] by {}
    shown_at(part, visible, k);
    let i = clickable(all, visible)[k].series as int;
    shown_before_fits(all, part, visible, i);
    clickable_in_turn(all, visible, i, k - shown_before(all, visible, i));
}

/// A click may mean a sample where it is one of a series that is shown.
pub proof fn clickable_samples(all: Seq<Seq<Point>>, visible: Seq<bool>, series: usize, point: Point)
    requires
        visible.len() <= usize::MAX,
    ensures
        clickable(all, visible).contains(Candidate { series, point }) <==> {
            &&& series < all.len() && series < visible.len()
            &&& visible[series as int]
            &&& exists|j: int| 0 <= j < all[series as int].len() && #[trigger] all[series as int][j] == point
        },
{
    clickable_are_the_shown(all, visible, Candidate { series, point });
}

proof fn ends_bound(all: Seq<Seq<Point>>)
    requires
        forall|i: int| 0 <= i < all.len() ==> in_time_order(#[trigger] all[i]),
    ensures
        earliest(all) matches Some(e) ==> !e.nan(),
        latest(all) matches Some(e) ==> !e.nan(),
        forall|i: int|
            0 <= i < all.len() && (#[trigger] all[i]).len() > 0 ==> {
                &&& earliest(all) matches Some(e) && e.at_most(all[i].first().x)
                &&& latest(all) matches Some(e) && all[i].last().x.at_most(e)
            },
    decreases all.len(),
{
    if all.len() > 0 {
        let rest = all.drop_last();
        assert forall|i: int| 0 <= i < rest.len() implies in_time_order(#[trigger] rest[i]) by {
            assert(rest[i] == all[i]);
        }
        ends_bound(rest);
        let s = all.last();
        assert(in_time_order(all[all.len() - 1]));
        if s.len() > 0 {
            assert(!s[0].x.nan() && !s[s.len() - 1].x.nan());
        }
        assert forall|i: int| 0 <= i < all.len() && (#[trigger] all[i]).len() > 0 implies {
            &&& earliest(all) matches Some(e) && e.at_most(all[i].first().x)
            &&& latest(all) matches Some(e) && all[i].last().x.at_most(e)
        } by {
            if i < rest.len() {
                assert(rest[i] == all[i]);
            }
        }
    }
}

/// Every position is within the extent, for series in time order.
pub proof fn extent_holds_the_positions(all: Seq<Seq<Point>>, i: int, j: int)
    requires
        forall|k: int| 0 <= k < all.len() ==> in_time_order(#[trigger] all[k]),
        0 <= i < all.len(),
        0 <= j < all[i].len(),
    ensures
        extent_of(all).first_x.at_most(all[i][j].x),
        all[i][j].x.at_most(extent_of(all).last_x),
{
    ends_bound(all);
    let s = all[i];
    assert(in_time_order(s));
    assert(s[0].x.rank() <= s[j].x.rank() <= s[s.len() - 1].x.rank());
    assert(!s[j].x.nan());
}

} // verus!
