//! The input stream: from lines of text to samples in the buffers.

use vstd::prelude::*;
use crate::buffer::{
    evicted, in_time_order, placed, placed_keeps_time_order, placing_adds_in_order, pushed, pushing_adds_at_the_end,
    slot, slot_in_range, Point, SeriesBuffer,
};
use crate::labels::{input_to_display_map, labels_are_found_again, leads, texts};
use crate::number::Number;
use crate::smoothing::{joining_weighs, joins, limits, samples, smooth_next, NO_SMOOTHING};
use crate::text::{fields, is_missing, says_missing, split_fields, trimmed};

verus! {

/// The state of an input stream.
#[derive(Debug)]
pub struct Feed {
    /// For each input column, the series that it is shown as.
    pub route: Vec<usize>,
    /// The first field of a line is its time.
    pub is_ts: bool,
    /// The rows taken so far.
    pub seq: u64,
}

/// One row of input: a position in time, and a value for each column that has
/// one.
#[derive(Debug)]
pub struct Row {
    pub x: Number,
    pub values: Vec<Option<Number>>,
}

/// The raw samples after the first `n` columns of a row have come in.
pub open spec fn raw_fed(
    raw: Seq<Seq<Point>>,
    limits: Seq<nat>,
    in_order: bool,
    route: Seq<usize>,
    x: Number,
    values: Seq<Option<Number>>,
    n: int,
) -> Seq<Seq<Point>>
    decreases n,
{
    if n <= 0 {
        raw
    } else {
        let before = raw_fed(raw, limits, in_order, route, x, values, n - 1);
        let d = route[n - 1] as int;
        match values[n - 1] {
            None => before,
            Some(v) => before.update(
                d,
                if in_order {
                    placed(before[d], limits[d], Point { x, y: v })
                } else {
                    pushed(before[d], limits[d], Point { x, y: v })
                },
            ),
        }
    }
}

/// The smoothed samples after the first `n` columns of a row have come in, where
/// their values were smoothed to `ys`.
pub open spec fn smooth_fed(
    smoothed: Seq<Seq<Point>>,
    limits: Seq<nat>,
    route: Seq<usize>,
    x: Number,
    ys: Seq<Option<Number>>,
    n: int,
) -> Seq<Seq<Point>>
    decreases n,
{
    if n <= 0 {
        smoothed
    } else {
        let before = smooth_fed(smoothed, limits, route, x, ys, n - 1);
        let d = route[n - 1] as int;
        match ys[n - 1] {
            None => before,
            Some(y) => before.update(d, pushed(before[d], limits[d], Point { x, y })),
        }
    }
}

/// The `i`-th value is missing in both, or is smoothed to the `i`-th of `ys`
/// after what its series held by then.
pub open spec fn smoothed_at<F: Fn(Point, Point) -> Number>(
    blend: F,
    tau: Number,
    smoothed: Seq<Seq<Point>>,
    limits: Seq<nat>,
    route: Seq<usize>,
    x: Number,
    values: Seq<Option<Number>>,
    ys: Seq<Option<Number>>,
    i: int,
) -> bool {
    match (values[i], ys[i]) {
        (None, None) => true,
        (Some(v), Some(y)) => joins(
            blend,
            tau,
            smooth_fed(smoothed, limits, route, x, ys, i)[route[i] as int],
            Point { x, y: v },
            y,
        ),
        _ => false,
    }
}

/// A row has come in: `after` holds the smoothed samples that `before` grew to.
pub open spec fn smoothed_row<F: Fn(Point, Point) -> Number>(
    blend: F,
    tau: Number,
    before: Seq<Seq<Point>>,
    limits: Seq<nat>,
    route: Seq<usize>,
    x: Number,
    values: Seq<Option<Number>>,
    after: Seq<Seq<Point>>,
) -> bool {
    exists|ys: Seq<Option<Number>>|
        {
            &&& ys.len() == values.len()
            &&& forall|i: int|
                0 <= i < values.len() ==> smoothed_at(blend, tau, before, limits, route, x, values, ys, i)
            &&& after == #[trigger] smooth_fed(before, limits, route, x, ys, values.len() as int)
        }
}

/// Adds a row to the raw samples and, smoothed, to the smoothed ones.
pub fn ingest<F: Fn(Point, Point) -> Number>(
    raw: &mut Vec<SeriesBuffer>,
    smoothed: &mut Vec<SeriesBuffer>,
    is_ts: bool,
    route: &Vec<usize>,
    row: &Row,
    tau: Number,
    blend: &F,
)
    requires
        row.values@.len() == route@.len(),
        forall|i: int| 0 <= i < route@.len() ==> (#[trigger] route@[i]) < old(raw)@.len(),
        forall|i: int| 0 <= i < route@.len() ==> (#[trigger] route@[i]) < old(smoothed)@.len(),
        forall|p: Point, q: Point| call_requires(*blend, (p, q)),
    ensures
        limits(final(raw)@) == limits(old(raw)@),
        limits(final(smoothed)@) == limits(old(smoothed)@),
        samples(final(raw)@) == raw_fed(
            samples(old(raw)@),
            limits(old(raw)@),
            is_ts,
            route@,
            row.x,
            row.values@,
            route@.len() as int,
        ),
        smoothed_row(
            *blend,
            tau,
            samples(old(smoothed)@),
            limits(old(smoothed)@),
            route@,
            row.x,
            row.values@,
            samples(final(smoothed)@),
        ),
{
    let ghost rs = samples(raw@);
    let ghost rl = limits(raw@);
    let ghost ss = samples(smoothed@);
    let ghost sl = limits(smoothed@);
    let ghost vs = row.values@;
    let ghost mut ys: Seq<Option<Number>> = Seq::empty();
    let mut i: usize = 0;
    while i < route.len()
        invariant
            i <= route@.len(),
            vs == row.values@,
            vs.len() == route@.len(),
            raw@.len() == rs.len(),
            smoothed@.len() == ss.len(),
            forall|k: int| 0 <= k < route@.len() ==> (#[trigger] route@[k]) < rs.len(),
            forall|k: int| 0 <= k < route@.len() ==> (#[trigger] route@[k]) < ss.len(),
            forall|p: Point, q: Point| call_requires(*blend, (p, q)),
            limits(raw@) == rl,
            limits(smoothed@) == sl,
            ys.len() == i,
            samples(raw@) == raw_fed(rs, rl, is_ts, route@, row.x, vs, i as int),
            samples(smoothed@) == smooth_fed(ss, sl, route@, row.x, ys, i as int),
            forall|k: int| 0 <= k < i ==> smoothed_at(*blend, tau, ss, sl, route@, row.x, vs, ys, k),
        decreases route@.len() - i,
    {
        let d: usize = route[i];
        let ghost before = ys;
        match row.values[i] {
            Some(v) => {
                let p: Point = Point { x: row.x, y: v };
                assert(limits(raw@)[d as int] == raw@[d as int].limit());
                if is_ts {
                    raw[d].push_in_order(p);
                } else {
                    raw[d].push(p);
                }
                let y: Number = smooth_next(&smoothed[d], tau, p, blend);
                assert(limits(smoothed@)[d as int] == smoothed@[d as int].limit());
                smoothed[d].push(Point { x: row.x, y });
                proof {
                    ys = ys.push(Some(y));
                }
            },
            None => {
                proof {
                    ys = ys.push(None);
                }
            },
        }
        proof {
            fed_by_prefix(ss, sl, route@, row.x, before, ys, i as int);
            assert(limits(raw@) =~= rl);
            assert(limits(smoothed@) =~= sl);
            assert(samples(raw@) =~= raw_fed(rs, rl, is_ts, route@, row.x, vs, i + 1));
            assert(samples(smoothed@) =~= smooth_fed(ss, sl, route@, row.x, ys, i + 1));
            assert forall|k: int| 0 <= k < i + 1 implies smoothed_at(*blend, tau, ss, sl, route@, row.x, vs, ys, k) by {
                fed_by_prefix(ss, sl, route@, row.x, before, ys, k);
                if k < i {
                    assert(smoothed_at(*blend, tau, ss, sl, route@, row.x, vs, before, k));
                }
            }
        }
        i = i + 1;
    }
}

proof fn fed_by_prefix(
    smoothed: Seq<Seq<Point>>,
    limits: Seq<nat>,
    route: Seq<usize>,
    x: Number,
    ys: Seq<Option<Number>>,
    longer: Seq<Option<Number>>,
    n: int,
)
    requires
        n <= ys.len() <= longer.len(),
        forall|i: int| 0 <= i < ys.len() ==> #[trigger] longer[i] == ys[i],
    ensures
        smooth_fed(smoothed, limits, route, x, longer, n) == smooth_fed(smoothed, limits, route, x, ys, n),
    decreases n,
{
    if n > 0 {
        fed_by_prefix(smoothed, limits, route, x, ys, longer, n - 1);
    }
}

/// `r` is what a field is read as: nothing where it says so, else what the
/// parser makes of it.
pub open spec fn read_as<P: Fn(&str) -> Option<Number>>(parse: P, field: &str, r: Option<Number>) -> bool {
    if says_missing(field@) {
        r is None
    } else {
        call_ensures(parse, (field,), r)
    }
}

/// `values` is what the fields from `from` on are read as.
pub open spec fn values_read<P: Fn(&str) -> Option<Number>>(
    parse: P,
    fields: Seq<&str>,
    from: int,
    values: Seq<Option<Number>>,
) -> bool {
    &&& values.len() == fields.len() - from
    &&& forall|i: int| 0 <= i < values.len() ==> read_as(parse, fields[from + i], #[trigger] values[i])
}

/// Reads the fields from `from` on.
pub fn read_values<P: Fn(&str) -> Option<Number>>(fields: &Vec<&str>, from: usize, parse: &P) -> (r: Vec<Option<Number>>)
    requires
        from <= fields@.len(),
        forall|f: &str| call_requires(*parse, (f,)),
    ensures
        values_read(*parse, fields@, from as int, r@),
{
    let mut values: Vec<Option<Number>> = Vec::new();
    let mut i: usize = from;
    while i < fields.len()
        invariant
            from <= i <= fields@.len(),
            forall|f: &str| call_requires(*parse, (f,)),
            values@.len() == i - from,
            forall|k: int|
                0 <= k < values@.len() ==> read_as(*parse, fields@[from + k], #[trigger] values@[k]),
        decreases fields@.len() - i,
    {
        let field: &str = fields[i];
        let value: Option<Number> = if is_missing(field) {
            None
        } else {
            parse(field)
        };
        values.push(value);
        i = i + 1;
    }
    values
}

/// What became of a line of input.
#[derive(Clone, Copy, Debug, PartialEq, Eq, Structural)]
pub enum LineResult {
    /// There was nothing on it.
    Blank,
    /// It has another number of fields than there are columns.
    WrongCount { expected: usize, found: usize },
    /// Its time is not a number.
    BadTime,
    /// It went into the buffers.
    Taken,
}

/// `fs` are the fields of a line.
pub open spec fn fields_of(line: Seq<char>, fs: Seq<&str>) -> bool {
    fs.map_values(|f: &str| f@) == fields(line)
}

/// A line is read as the position `x` and `values`.
pub open spec fn row_read<P: Fn(&str) -> Option<Number>, X: Fn(u64) -> Number>(
    feed: Feed,
    parse: P,
    clock: X,
    line: Seq<char>,
    x: Number,
    values: Seq<Option<Number>>,
) -> bool {
    exists|fs: Seq<&str>|
        {
            &&& #[trigger] fields_of(line, fs)
            &&& if feed.is_ts {
                call_ensures(parse, (fs[0],), Some(x)) && values_read(parse, fs, 1, values)
            } else {
                call_ensures(clock, (feed.seq,), x) && values_read(parse, fs, 0, values)
            }
        }
}

/// A line with a time that cannot be read.
pub open spec fn time_refused<P: Fn(&str) -> Option<Number>>(feed: Feed, parse: P, line: Seq<char>) -> bool {
    feed.is_ts && exists|fs: Seq<&str>|
        #[trigger] fields_of(line, fs) && call_ensures(parse, (fs[0],), None::<Number>)
}

impl Feed {
    /// A stream whose columns bear the labels `given`, shown as `shown`.
    pub fn new(given: &Vec<String>, shown: &Vec<String>, is_ts: bool) -> (r: Feed)
        ensures
            r.is_ts == is_ts,
            r.seq == 0,
            leads(texts(given@), texts(shown@), r.route@),
            texts(shown@).to_multiset() == texts(given@).to_multiset() && given@.len() < usize::MAX ==> r.wf(
                given@.len() as int,
            ),
    {
        let route: Vec<usize> = input_to_display_map(given, shown);
        proof {
            if texts(shown@).to_multiset() == texts(given@).to_multiset() {
                labels_are_found_again(texts(given@), texts(shown@), route@);
            }
        }
        Feed { route, is_ts, seq: 0 }
    }

    /// The number of fields that a line is to have.
    pub open spec fn columns(self) -> int {
        if self.is_ts {
            self.route@.len() as int + 1
        } else {
            self.route@.len() as int
        }
    }

    /// Every column goes to one of `series` series.
    pub open spec fn wf(self, series: int) -> bool {
        &&& self.route@.len() < usize::MAX
        &&& forall|i: int| 0 <= i < self.route@.len() ==> (#[trigger] self.route@[i]) < series
    }

    /// The position in time of a row: its first field as `parse` reads it, or
    /// what `clock` says for the number of rows before it.
    fn position<P: Fn(&str) -> Option<Number>, X: Fn(u64) -> Number>(
        &self,
        fs: &Vec<&str>,
        parse: &P,
        clock: &X,
    ) -> (r: Option<Number>)
        requires
            self.is_ts ==> fs@.len() > 0,
            forall|f: &str| call_requires(*parse, (f,)),
            forall|n: u64| call_requires(*clock, (n,)),
        ensures
            self.is_ts ==> call_ensures(*parse, (fs@[0],), r),
            !self.is_ts ==> r is Some && call_ensures(*clock, (self.seq,), r->0),
    {
        if self.is_ts {
            parse(fs[0])
        } else {
            Some(clock(self.seq))
        }
    }

    /// Takes a line of input: splits it, reads its fields and adds its samples.
    ///
    /// `parse` reads a number, and `clock` tells the position of a row by the
    /// number of rows before it, for lines that do not begin with a time.
    pub fn take_line<P: Fn(&str) -> Option<Number>, X: Fn(u64) -> Number, F: Fn(Point, Point) -> Number>(
        &mut self,
        line: &str,
        parse: &P,
        clock: &X,
        raw: &mut Vec<SeriesBuffer>,
        smoothed: &mut Vec<SeriesBuffer>,
        tau: Number,
        blend: &F,
    ) -> (r: LineResult)
        requires
            old(self).wf(old(raw)@.len() as int),
            old(self).wf(old(smoothed)@.len() as int),
            old(self).seq < u64::MAX,
            forall|f: &str| call_requires(*parse, (f,)),
            forall|n: u64| call_requires(*clock, (n,)),
            forall|p: Point, q: Point| call_requires(*blend, (p, q)),
        ensures
            final(self).route == old(self).route,
            final(self).is_ts == old(self).is_ts,
            limits(final(raw)@) == limits(old(raw)@),
            limits(final(smoothed)@) == limits(old(smoothed)@),
            r is Blank <==> trimmed(line@).len() == 0,
            r is WrongCount <==> trimmed(line@).len() > 0 && fields(line@).len() != old(self).columns(),
            r is WrongCount <==> trimmed(line@).len() > 0 && fields(line@).len() != old(self).route@.len() + (
            if old(self).is_ts {
                1int
            } else {
                0
            }),
            r matches LineResult::WrongCount { expected, found } ==> expected == old(self).columns() && found
                == fields(line@).len(),
            r is BadTime ==> time_refused(*old(self), *parse, line@),
            !old(self).is_ts && trimmed(line@).len() > 0 && fields(line@).len() == old(self).columns() ==> r is Taken,
            !(r is Taken) ==> {
                &&& *final(self) == *old(self)
                &&& *final(raw) == *old(raw)
                &&& *final(smoothed) == *old(smoothed)
            },
            r is Taken ==> {
                &&& final(self).seq == old(self).seq + 1
                &&& exists|x: Number, values: Seq<Option<Number>>|
                    {
                        &&& #[trigger] row_read(*old(self), *parse, *clock, line@, x, values)
                        &&& samples(final(raw)@) == raw_fed(
                            samples(old(raw)@),
                            limits(old(raw)@),
                            old(self).is_ts,
                            old(self).route@,
                            x,
                            values,
                            old(self).route@.len() as int,
                        )
                        &&& smoothed_row(
                            *blend,
                            tau,
                            samples(old(smoothed)@),
                            limits(old(smoothed)@),
                            old(self).route@,
                            x,
                            values,
                            samples(final(smoothed)@),
                        )
                    }
            },
    {
        let fs: Vec<&str> = match split_fields(line) {
            Some(fs) => fs,
            None => return LineResult::Blank,
        };
        let expected: usize = if self.is_ts {
            self.route.len() + 1
        } else {
            self.route.len()
        };
        assert(fields_of(line@, fs@));
        assert(fs@.len() == fields(line@).len());
        if fs.len() != expected {
            return LineResult::WrongCount { expected, found: fs.len() };
        }
        let x: Number = match self.position(&fs, parse, clock) {
            Some(x) => x,
            None => return LineResult::BadTime,
        };
        let from: usize = if self.is_ts { 1 } else { 0 };
        let values: Vec<Option<Number>> = read_values(&fs, from, parse);
        let row: Row = Row { x, values };
        assert(row_read(*self, *parse, *clock, line@, row.x, row.values@));
        ingest(raw, smoothed, self.is_ts, &self.route, &row, tau, blend);
        self.seq = self.seq + 1;
        LineResult::Taken
    }
}

/// Buffers for `n` series, each for `capacity` samples.
pub fn series_buffers(n: usize, capacity: usize) -> (r: Vec<SeriesBuffer>)
    ensures
        samples(r@) == Seq::new(n as nat, |i: int| Seq::<Point>::empty()),
        limits(r@) == Seq::new(n as nat, |i: int| capacity as nat),
{
    let mut out: Vec<SeriesBuffer> = Vec::new();
    let mut i: usize = 0;
    while i < n
        invariant
            i <= n,
            out@.len() == i,
            forall|k: int| 0 <= k < i ==> (#[trigger] out@[k])@ == Seq::<Point>::empty(),
            forall|k: int| 0 <= k < i ==> (#[trigger] out@[k]).limit() == capacity,
        decreases n - i,
    {
        out.push(SeriesBuffer::new(capacity));
        i = i + 1;
    }
    assert(samples(out@) =~= Seq::new(n as nat, |k: int| Seq::<Point>::empty()));
    assert(limits(out@) =~= Seq::new(n as nat, |k: int| capacity as nat));
    out
}

/// Whatever comes in with a time, the raw samples stay in time order.
pub proof fn feed_keeps_time_order(
    raw: Seq<Seq<Point>>,
    limits: Seq<nat>,
    route: Seq<usize>,
    x: Number,
    values: Seq<Option<Number>>,
    n: int,
)
    requires
        !x.nan(),
        forall|k: int| 0 <= k < raw.len() ==> in_time_order(#[trigger] raw[k]),
        forall|i: int| 0 <= i < n ==> (#[trigger] route[i]) < raw.len(),
    ensures
        raw_fed(raw, limits, true, route, x, values, n).len() == raw.len(),
        forall|k: int|
            0 <= k < raw.len() ==> in_time_order(#[trigger] raw_fed(raw, limits, true, route, x, values, n)[k]),
    decreases n,
{
    if n > 0 {
        feed_keeps_time_order(raw, limits, route, x, values, n - 1);
        let before = raw_fed(raw, limits, true, route, x, values, n - 1);
        let d = route[n - 1] as int;
        assert(in_time_order(before[d]));
        if let Some(v) = values[n - 1] {
            placed_keeps_time_order(before[d], limits[d], Point { x, y: v });
        }
    }
}

/// A series holds no more samples than its limit, or one.
pub open spec fn bounded(all: Seq<Seq<Point>>, limits: Seq<nat>) -> bool {
    forall|k: int| 0 <= k < all.len() ==> (#[trigger] all[k]).len() <= limits[k] || all[k].len() <= 1
}

/// Whatever comes in, no series outgrows its limit.
pub proof fn feed_stays_bounded(
    all: Seq<Seq<Point>>,
    limits: Seq<nat>,
    in_order: bool,
    route: Seq<usize>,
    x: Number,
    values: Seq<Option<Number>>,
    n: int,
)
    requires
        bounded(all, limits),
        forall|i: int| 0 <= i < n ==> (#[trigger] route[i]) < all.len(),
    ensures
        bounded(raw_fed(all, limits, in_order, route, x, values, n), limits),
        bounded(smooth_fed(all, limits, route, x, values, n), limits),
        raw_fed(all, limits, in_order, route, x, values, n).len() == all.len(),
        smooth_fed(all, limits, route, x, values, n).len() == all.len(),
    decreases n,
{
    if n > 0 {
        feed_stays_bounded(all, limits, in_order, route, x, values, n - 1);
        let d = route[n - 1] as int;
        let raw = raw_fed(all, limits, in_order, route, x, values, n - 1);
        let smoothed = smooth_fed(all, limits, route, x, values, n - 1);
        assert(raw[d].len() <= limits[d] || raw[d].len() <= 1);
        assert(smoothed[d].len() <= limits[d] || smoothed[d].len() <= 1);
        slot_in_range(evicted(raw[d], limits[d]), x);
    }
}

/// A series that no column with a value goes to stays as it is.
pub proof fn feed_leaves_others(
    all: Seq<Seq<Point>>,
    limits: Seq<nat>,
    in_order: bool,
    route: Seq<usize>,
    x: Number,
    values: Seq<Option<Number>>,
    n: int,
    k: int,
)
    requires
        0 <= k < all.len(),
        forall|i: int| 0 <= i < n ==> (#[trigger] route[i]) < all.len(),
        forall|i: int| 0 <= i < n && #[trigger] values[i] is Some ==> route[i] != k,
    ensures
        raw_fed(all, limits, in_order, route, x, values, n)[k] == all[k],
        smooth_fed(all, limits, route, x, values, n)[k] == all[k],
        raw_fed(all, limits, in_order, route, x, values, n).len() == all.len(),
        smooth_fed(all, limits, route, x, values, n).len() == all.len(),
    decreases n,
{
    if n > 0 {
        feed_leaves_others(all, limits, in_order, route, x, values, n - 1, k);
        assert(values[n - 1] is Some ==> route[n - 1] != k);
    }
}

/// A value adds its sample to its series, whatever the value: after what the
/// columns before it made of the series, its sample is placed by its time or
/// pushed at the end, and the columns after it that go elsewhere change nothing
/// of that.
pub proof fn feed_adds_every_value(
    all: Seq<Seq<Point>>,
    limits: Seq<nat>,
    in_order: bool,
    route: Seq<usize>,
    x: Number,
    values: Seq<Option<Number>>,
    n: int,
    i: int,
)
    requires
        0 <= i < n,
        values[i] is Some,
        forall|j: int| 0 <= j < n ==> (#[trigger] route[j]) < all.len(),
        forall|j: int| i < j < n && #[trigger] values[j] is Some ==> route[j] != route[i],
    ensures
        ({
            let d = route[i] as int;
            let p = Point { x, y: values[i]->0 };
            let raw = raw_fed(all, limits, in_order, route, x, values, n)[d];
            let smoothed = smooth_fed(all, limits, route, x, values, n)[d];
            &&& in_order ==> raw == placed(raw_fed(all, limits, in_order, route, x, values, i)[d], limits[d], p)
            &&& !in_order ==> raw == pushed(raw_fed(all, limits, in_order, route, x, values, i)[d], limits[d], p)
            &&& smoothed == pushed(smooth_fed(all, limits, route, x, values, i)[d], limits[d], p)
            &&& raw.contains(p)
            &&& smoothed.last() == p
        }),
    decreases n,
{
    let d = route[i] as int;
    let p = Point { x, y: values[i]->0 };
    if n - 1 > i {
        feed_adds_every_value(all, limits, in_order, route, x, values, n - 1, i);
        feed_keeps_the_number(all, limits, in_order, route, x, values, n - 1);
        assert(values[n - 1] is Some ==> route[n - 1] != route[i]);
    } else {
        feed_keeps_the_number(all, limits, in_order, route, x, values, i);
        let before = raw_fed(all, limits, in_order, route, x, values, i)[d];
        placing_adds_in_order(before, limits[d], p);
        let after = pushed(before, limits[d], p);
        assert(after[after.len() - 1] == p);
    }
}

proof fn feed_keeps_the_number(
    all: Seq<Seq<Point>>,
    limits: Seq<nat>,
    in_order: bool,
    route: Seq<usize>,
    x: Number,
    values: Seq<Option<Number>>,
    n: int,
)
    requires
        forall|j: int| 0 <= j < n ==> (#[trigger] route[j]) < all.len(),
    ensures
        raw_fed(all, limits, in_order, route, x, values, n).len() == all.len(),
        smooth_fed(all, limits, route, x, values, n).len() == all.len(),
    decreases n,
{
    if n > 0 {
        feed_keeps_the_number(all, limits, in_order, route, x, values, n - 1);
    }
}

/// A row adds to a series that one of its values goes to exactly the sample of
/// that value: where the buffer has room, what it held before is there as it was,
/// with the sample after it, or, where samples have times, among it in time order.
pub proof fn row_adds_its_samples(
    all: Seq<Seq<Point>>,
    limits: Seq<nat>,
    in_order: bool,
    route: Seq<usize>,
    x: Number,
    values: Seq<Option<Number>>,
    i: int,
)
    requires
        values.len() == route.len(),
        0 <= i < values.len(),
        values[i] is Some,
        forall|j: int| 0 <= j < route.len() ==> (#[trigger] route[j]) < all.len(),
        forall|j: int| 0 <= j < values.len() && j != i && #[trigger] values[j] is Some ==> route[j] != route[i],
    ensures
        ({
            let d = route[i] as int;
            let p = Point { x, y: values[i]->0 };
            let raw = raw_fed(all, limits, in_order, route, x, values, values.len() as int)[d];
            &&& raw.contains(p)
            &&& in_order ==> raw == placed(all[d], limits[d], p)
            &&& !in_order ==> raw == pushed(all[d], limits[d], p)
            &&& !in_order && all[d].len() < limits[d] ==> raw == all[d].push(p)
            &&& in_order && all[d].len() < limits[d] ==> exists|k: int|
                {
                    &&& 0 <= k <= all[d].len()
                    &&& raw == #[trigger] all[d].insert(k, p)
                    &&& k > 0 ==> !x.less(all[d][k - 1].x)
                    &&& forall|j: int| k <= j < all[d].len() ==> x.less((#[trigger] all[d][j]).x)
                }
        }),
{
    let d = route[i] as int;
    let p = Point { x, y: values[i]->0 };
    let n = values.len() as int;
    feed_adds_every_value(all, limits, in_order, route, x, values, n, i);
    feed_leaves_others(all, limits, in_order, route, x, values, i, d);
    pushing_adds_at_the_end(all[d], limits[d], p);
    if in_order && all[d].len() < limits[d] {
        slot_in_range(all[d], x);
        assert(placed(all[d], limits[d], p) == all[d].insert(slot(all[d], x), p));
    }
    if !in_order && all[d].len() < limits[d] {
        let raw = pushed(all[d], limits[d], p);
        assert(raw =~= raw.drop_last().push(raw.last()));
    }
}

/// A row adds to the smoothed samples of a series that one of its values goes to
/// one sample at the row's position: the value itself where the series was empty
/// or the time constant is at most `1e-6`, else what the weighing makes of the
/// last smoothed sample and the new one. Series that no value goes to stay.
pub proof fn row_adds_its_smoothed_samples<F: Fn(Point, Point) -> Number>(
    blend: F,
    tau: Number,
    before: Seq<Seq<Point>>,
    limits: Seq<nat>,
    route: Seq<usize>,
    x: Number,
    values: Seq<Option<Number>>,
    after: Seq<Seq<Point>>,
    i: int,
)
    requires
        smoothed_row(blend, tau, before, limits, route, x, values, after),
        values.len() == route.len(),
        0 <= i < values.len(),
        values[i] is Some,
        forall|j: int| 0 <= j < route.len() ==> (#[trigger] route[j]) < before.len(),
        forall|j: int| 0 <= j < values.len() && j != i && #[trigger] values[j] is Some ==> route[j] != route[i],
    ensures
        after.len() == before.len(),
        ({
            let d = route[i] as int;
            let v = values[i]->0;
            let y = after[d].last().y;
            &&& after[d] == pushed(before[d], limits[d], Point { x, y })
            &&& before[d].len() < limits[d] ==> after[d] == before[d].push(Point { x, y })
            &&& before[d].len() == 0 || tau.at_most(Number { bits: NO_SMOOTHING }) ==> y == v
            &&& before[d].len() > 0 && !tau.at_most(Number { bits: NO_SMOOTHING }) ==> call_ensures(
                blend,
                (before[d].last(), Point { x, y: v }),
                y,
            )
        }),
        forall|k: int|
            0 <= k < before.len() && (forall|j: int|
                0 <= j < values.len() && #[trigger] values[j] is Some ==> route[j] != k) ==> #[trigger] after[k]
                == before[k],
{
    let n = values.len() as int;
    let d = route[i] as int;
    let ys = choose|ys: Seq<Option<Number>>|
        {
            &&& ys.len() == values.len()
            &&& forall|i: int|
                0 <= i < values.len() ==> smoothed_at(blend, tau, before, limits, route, x, values, ys, i)
            &&& after == #[trigger] smooth_fed(before, limits, route, x, ys, n)
        };
    assert forall|j: int| 0 <= j < n implies (#[trigger] ys[j] is Some <==> values[j] is Some) by {
        assert(smoothed_at(blend, tau, before, limits, route, x, values, ys, j));
    }
    assert(smoothed_at(blend, tau, before, limits, route, x, values, ys, i));
    assert(ys[i] is Some);
    assert forall|j: int| 0 <= j < n && j != i && #[trigger] ys[j] is Some implies route[j] != route[i] by {
        assert(values[j] is Some);
    }
    feed_adds_every_value(before, limits, false, route, x, ys, n, i);
    feed_leaves_others(before, limits, false, route, x, ys, i, d);
    feed_keeps_the_number(before, limits, false, route, x, ys, n);
    let y = ys[i]->0;
    let p = Point { x, y };
    joining_weighs(blend, tau, before[d], Point { x, y: values[i]->0 }, y);
    pushing_adds_at_the_end(before[d], limits[d], p);
    assert(after[d] =~= after[d].drop_last().push(after[d].last()));
    assert forall|k: int|
        0 <= k < before.len() && (forall|j: int|
            0 <= j < values.len() && #[trigger] values[j] is Some ==> route[j] != k) implies #[trigger] after[k]
        == before[k] by {
        assert forall|j: int| 0 <= j < n && #[trigger] ys[j] is Some implies route[j] != k by {
            assert(values[j] is Some);
        }
        feed_leaves_others(before, limits, false, route, x, ys, n, k);
    }
}

/// The values of a row are smoothed in turn, each after what those before it made
/// of its series: the value itself where that is empty or the time constant is at
/// most `1e-6`, else what the weighing makes of its last sample and the new one.
/// Each that is there is added, and none else.
pub proof fn rows_are_smoothed_in_turn<F: Fn(Point, Point) -> Number>(
    blend: F,
    tau: Number,
    before: Seq<Seq<Point>>,
    limits: Seq<nat>,
    route: Seq<usize>,
    x: Number,
    values: Seq<Option<Number>>,
    after: Seq<Seq<Point>>,
)
    requires
        smoothed_row(blend, tau, before, limits, route, x, values, after),
    ensures
        exists|ys: Seq<Option<Number>>|
            {
                &&& ys.len() == values.len()
                &&& after == #[trigger] smooth_fed(before, limits, route, x, ys, values.len() as int)
                &&& forall|i: int|
                    #![trigger ys[i]]
                    0 <= i < values.len() ==> {
                        let held = smooth_fed(before, limits, route, x, ys, i)[route[i] as int];
                        &&& ys[i] is Some <==> values[i] is Some
                        &&& ys[i] is Some && (held.len() == 0 || tau.at_most(Number { bits: NO_SMOOTHING })) ==> ys[i]
                            == values[i]
                        &&& ys[i] is Some && held.len() > 0 && !tau.at_most(Number { bits: NO_SMOOTHING }) ==> call_ensures(
                            blend,
                            (held.last(), Point { x, y: values[i]->0 }),
                            ys[i]->0,
                        )
                    }
            },
{
    let n = values.len() as int;
    let ys = choose|ys: Seq<Option<Number>>|
        {
            &&& ys.len() == values.len()
            &&& forall|i: int|
                0 <= i < values.len() ==> smoothed_at(blend, tau, before, limits, route, x, values, ys, i)
            &&& after == #[trigger] smooth_fed(before, limits, route, x, ys, n)
        };
    assert(after == smooth_fed(before, limits, route, x, ys, values.len() as int));
    assert forall|i: int|
        #![trigger ys[i]]
        0 <= i < values.len() implies {
        let held = smooth_fed(before, limits, route, x, ys, i)[route[i] as int];
        &&& ys[i] is Some <==> values[i] is Some
        &&& ys[i] is Some && (held.len() == 0 || tau.at_most(Number { bits: NO_SMOOTHING })) ==> ys[i] == values[i]
        &&& ys[i] is Some && held.len() > 0 && !tau.at_most(Number { bits: NO_SMOOTHING }) ==> call_ensures(
            blend,
            (held.last(), Point { x, y: values[i]->0 }),
            ys[i]->0,
        )
    } by {
        assert(smoothed_at(blend, tau, before, limits, route, x, values, ys, i));
        if let (Some(v), Some(y)) = (values[i], ys[i]) {
            let held = smooth_fed(before, limits, route, x, ys, i)[route[i] as int];
            joining_weighs(blend, tau, held, Point { x, y: v }, y);
        }
    }
}

/// A time is refused only where times are expected and the parser makes nothing
/// of the first field.
pub proof fn times_are_refused_by_the_parser<P: Fn(&str) -> Option<Number>>(feed: Feed, parse: P, line: Seq<char>)
    requires
        time_refused(feed, parse, line),
        fields(line).len() > 0,
    ensures
        feed.is_ts,
        exists|f: &str| f@ == fields(line)[0] && #[trigger] call_ensures(parse, (f,), None::<Number>),
{
    let fs = choose|fs: Seq<&str>|
        #[trigger] fields_of(line, fs) && call_ensures(parse, (fs[0],), None::<Number>);
    let texts = fs.map_values(|f: &str| f@);
    assert(texts.len() == fs.len());
    assert(texts[0] == fs[0]@);
}

/// A line is read field by field: with times, the first is parsed as the row's
/// position and each of the others as the value of its column; without, the
/// position is that of the number of rows before, and every field is a value. A
/// field that says so is no value, whatever the parser makes of it.
pub proof fn rows_are_read_by_fields<P: Fn(&str) -> Option<Number>, X: Fn(u64) -> Number>(
    feed: Feed,
    parse: P,
    clock: X,
    line: Seq<char>,
    x: Number,
    values: Seq<Option<Number>>,
)
    requires
        row_read(feed, parse, clock, line, x, values),
        fields(line).len() == feed.route@.len() + (if feed.is_ts { 1int } else { 0 }),
    ensures
        values.len() == feed.route@.len(),
        !feed.is_ts ==> call_ensures(clock, (feed.seq,), x),
        feed.is_ts ==> exists|f: &str| f@ == fields(line)[0] && #[trigger] call_ensures(parse, (f,), Some(x)),
        forall|i: int|
            0 <= i < values.len() ==> {
                let t = fields(line)[i + (if feed.is_ts { 1int } else { 0 })];
                &&& says_missing(t) ==> #[trigger] values[i] is None
                &&& !says_missing(t) ==> exists|f: &str| f@ == t && #[trigger] call_ensures(parse, (f,), values[i])
            },
{
    let fs = choose|fs: Seq<&str>|
        {
            &&& #[trigger] fields_of(line, fs)
            &&& if feed.is_ts {
                call_ensures(parse, (fs[0],), Some(x)) && values_read(parse, fs, 1, values)
            } else {
                call_ensures(clock, (feed.seq,), x) && values_read(parse, fs, 0, values)
            }
        };
    let texts = fs.map_values(|f: &str| f@);
    assert(texts.len() == fs.len());
    if feed.is_ts {
        assert(texts[0] == fs[0]@);
    }
    assert forall|i: int| 0 <= i < values.len() implies {
        let t = fields(line)[i + (if feed.is_ts { 1int } else { 0 })];
        &&& says_missing(t) ==> #[trigger] values[i] is None
        &&& !says_missing(t) ==> exists|f: &str| f@ == t && #[trigger] call_ensures(parse, (f,), values[i])
    } by {
        let k = i + (if feed.is_ts { 1int } else { 0 });
        assert(read_as(parse, fs[k], values[i]));
        assert(texts[k] == fs[k]@);
    }
}

} // verus!
