//! Exponential smoothing over time, for whole series and sample by sample.
//!
//! The weighing of a sample against what came before it is a function that is
//! handed in; which samples are weighed, and against what, is decided here.

use vstd::prelude::*;
use crate::buffer::{filled, keeps_the_latest, pushed, Point, SeriesBuffer};
use crate::number::Number;

verus! {

/// The largest time constant at which nothing is smoothed: `1e-6`.
pub const NO_SMOOTHING: u64 = 0x3eb0_c6f7_a0b5_ed8d;

/// At `tau`, every sample keeps its own value.
pub open spec fn smoothing_off(tau: Number) -> bool {
    tau.at_most(Number { bits: NO_SMOOTHING })
}

/// `y` is a smoothed value of `cur` after the smoothed sample `prev`.
pub open spec fn step<F: Fn(Point, Point) -> Number>(
    blend: F,
    tau: Number,
    prev: Point,
    cur: Point,
    y: Number,
) -> bool {
    if smoothing_off(tau) {
        y == cur.y
    } else {
        call_ensures(blend, (prev, cur), y)
    }
}

/// `out` is `raw` smoothed: the first sample as it is, every other one weighed
/// against the smoothed one before it.
pub open spec fn smoothing_of<F: Fn(Point, Point) -> Number>(
    blend: F,
    tau: Number,
    raw: Seq<Point>,
    out: Seq<Point>,
) -> bool {
    &&& out.len() == raw.len()
    &&& raw.len() > 0 ==> out[0] == raw[0]
    &&& forall|j: int| 0 <= j < raw.len() ==> (#[trigger] out[j]).x == raw[j].x
    &&& forall|i: int, j: int|
        0 <= i && i + 1 == j && j < raw.len() ==> #[trigger] step(blend, tau, out[i], raw[j], out[j].y)
}

/// A buffer for `limit` samples that the smoothed `raw` went through holds `held`.
pub open spec fn refilled<F: Fn(Point, Point) -> Number>(
    blend: F,
    tau: Number,
    raw: Seq<Point>,
    limit: nat,
    held: Seq<Point>,
) -> bool {
    exists|s: Seq<Point>| #[trigger] smoothing_of(blend, tau, raw, s) && held == filled(s, limit)
}

pub open spec fn samples(buffers: Seq<SeriesBuffer>) -> Seq<Seq<Point>> {
    buffers.map_values(|b: SeriesBuffer| b@)
}

pub open spec fn limits(buffers: Seq<SeriesBuffer>) -> Seq<nat> {
    buffers.map_values(|b: SeriesBuffer| b.limit())
}

/// One more smoothed sample after a smoothed series gives a smoothed series.
pub proof fn smoothing_grows<F: Fn(Point, Point) -> Number>(
    blend: F,
    tau: Number,
    raw: Seq<Point>,
    out: Seq<Point>,
    cur: Point,
    next: Point,
)
    requires
        smoothing_of(blend, tau, raw, out),
        next.x == cur.x,
        raw.len() == 0 ==> next == cur,
        raw.len() > 0 ==> step(blend, tau, out.last(), cur, next.y),
    ensures
        smoothing_of(blend, tau, raw.push(cur), out.push(next)),
{
    let longer = raw.push(cur);
    let grown = out.push(next);
    assert forall|i: int, j: int| 0 <= i && i + 1 == j && j < longer.len() implies #[trigger] step(
        blend,
        tau,
        grown[i],
        longer[j],
        grown[j].y,
    ) by {
        assert(grown[i] == out[i]);
        if j < raw.len() {
            assert(step(blend, tau, out[i], raw[j], out[j].y));
        }
    }
}

/// Refills `out` with the samples of `raw`, smoothed.
pub fn smooth_series<F: Fn(Point, Point) -> Number>(raw: &SeriesBuffer, out: &mut SeriesBuffer, tau: Number, blend: &F)
    requires
        forall|p: Point, q: Point| call_requires(*blend, (p, q)),
    ensures
        final(out).limit() == old(out).limit(),
        refilled(*blend, tau, raw@, old(out).limit(), final(out)@),
{
    out.clear();
    let ghost mut s: Seq<Point> = Seq::empty();
    let n: usize = raw.len();
    if n > 0 {
        let first: Point = raw.get(0);
        out.push(first);
        proof {
            s = s.push(first);
            assert(s.drop_last() =~= Seq::<Point>::empty());
            assert(filled(s.drop_last(), out.limit()) =~= Seq::<Point>::empty());
            assert(out@ =~= filled(s, out.limit()));
        }
        let mut prev: Point = first;
        let off: bool = tau.le(Number { bits: NO_SMOOTHING });
        let mut i: usize = 1;
        while i < n
            invariant
                n == raw@.len(),
                1 <= i <= n,
                off == smoothing_off(tau),
                forall|p: Point, q: Point| call_requires(*blend, (p, q)),
                out.limit() == old(out).limit(),
                smoothing_of(*blend, tau, raw@.take(i as int), s),
                out@ == filled(s, old(out).limit()),
                prev == s.last(),
            decreases n - i,
        {
            let cur: Point = raw.get(i);
            let y: Number = if off {
                cur.y
            } else {
                blend(prev, cur)
            };
            let next: Point = Point { x: cur.x, y };
            out.push(next);
            proof {
                let longer = s.push(next);
                assert(longer.drop_last() =~= s);
                assert(raw@.take(i + 1) =~= raw@.take(i as int).push(cur));
                smoothing_grows(*blend, tau, raw@.take(i as int), s, cur, next);
                s = longer;
            }
            prev = next;
            i = i + 1;
        }
        assert(raw@.take(n as int) =~= raw@);
    }
    assert(smoothing_of(*blend, tau, raw@, s));
}

/// `after` is what smoothing `raw` anew makes of the samples `before`, in
/// buffers of these limits: each of the first series is refilled, the others
/// are as they were.
pub open spec fn recomputed<F: Fn(Point, Point) -> Number>(
    blend: F,
    tau: Number,
    raw: Seq<Seq<Point>>,
    limits: Seq<nat>,
    before: Seq<Seq<Point>>,
    after: Seq<Seq<Point>>,
) -> bool {
    &&& after.len() == before.len()
    &&& forall|i: int| 0 <= i < raw.len() ==> refilled(blend, tau, raw[i], limits[i], #[trigger] after[i])
    &&& forall|i: int| raw.len() <= i < after.len() ==> #[trigger] after[i] == before[i]
}

/// Smooths every series of `raw` anew, each into the one of `smoothed` that has
/// its place.
pub fn recompute_smoothing<F: Fn(Point, Point) -> Number>(
    raw: &Vec<SeriesBuffer>,
    smoothed: &mut Vec<SeriesBuffer>,
    tau: Number,
    blend: &F,
)
    requires
        raw@.len() <= old(smoothed)@.len(),
        forall|p: Point, q: Point| call_requires(*blend, (p, q)),
    ensures
        limits(final(smoothed)@) == limits(old(smoothed)@),
        recomputed(
            *blend,
            tau,
            samples(raw@),
            limits(old(smoothed)@),
            samples(old(smoothed)@),
            samples(final(smoothed)@),
        ),
{
    let mut i: usize = 0;
    while i < raw.len()
        invariant
            i <= raw@.len() <= smoothed@.len(),
            smoothed@.len() == old(smoothed)@.len(),
            forall|p: Point, q: Point| call_requires(*blend, (p, q)),
            forall|k: int| 0 <= k < smoothed@.len() ==> (#[trigger] smoothed@[k]).limit() == old(smoothed)@[k].limit(),
            forall|k: int|
                0 <= k < i ==> refilled(
                    *blend,
                    tau,
                    raw@[k]@,
                    old(smoothed)@[k].limit(),
                    (#[trigger] smoothed@[k])@,
                ),
            forall|k: int| i <= k < smoothed@.len() ==> #[trigger] smoothed@[k] == old(smoothed)@[k],
        decreases raw@.len() - i,
    {
        smooth_series(&raw[i], &mut smoothed[i], tau, blend);
        i = i + 1;
    }
    proof {
        let after = samples(smoothed@);
        assert(limits(smoothed@) =~= limits(old(smoothed)@));
        assert forall|k: int| 0 <= k < raw@.len() implies refilled(
            *blend,
            tau,
            samples(raw@)[k],
            limits(old(smoothed)@)[k],
            #[trigger] after[k],
        ) by {
            assert(after[k] == smoothed@[k]@);
        }
        assert forall|k: int| raw@.len() <= k < after.len() implies #[trigger] after[k] == samples(old(smoothed)@)[k] by {
            assert(smoothed@[k] == old(smoothed)@[k]);
        }
    }
}

/// `y` is what a new sample `cur` becomes after the smoothed samples `held`.
pub open spec fn joins<F: Fn(Point, Point) -> Number>(
    blend: F,
    tau: Number,
    held: Seq<Point>,
    cur: Point,
    y: Number,
) -> bool {
    if held.len() == 0 {
        y == cur.y
    } else {
        step(blend, tau, held.last(), cur, y)
    }
}

/// The smoothed value of a new sample, from the last smoothed one.
pub fn smooth_next<F: Fn(Point, Point) -> Number>(held: &SeriesBuffer, tau: Number, cur: Point, blend: &F) -> (y: Number)
    requires
        forall|p: Point, q: Point| call_requires(*blend, (p, q)),
    ensures
        joins(*blend, tau, held@, cur, y),
        held@.len() == 0 || tau.at_most(Number { bits: NO_SMOOTHING }) ==> y == cur.y,
        held@.len() > 0 && !tau.at_most(Number { bits: NO_SMOOTHING }) ==> call_ensures(
            *blend,
            (held@.last(), cur),
            y,
        ),
{
    match held.last() {
        Some(last) => if tau.le(Number { bits: NO_SMOOTHING }) {
            cur.y
        } else {
            blend(*last, cur)
        },
        None => cur.y,
    }
}

proof fn filled_in_full(s: Seq<Point>, limit: nat)
    requires
        s.len() <= limit || s.len() <= 1,
    ensures
        filled(s, limit) == s,
    decreases s.len(),
{
    if s.len() > 0 {
        filled_in_full(s.drop_last(), limit);
    }
    assert(filled(s, limit) =~= s);
}

/// A buffer with room for the raw samples holds all of them, smoothed.
pub proof fn refilled_in_full<F: Fn(Point, Point) -> Number>(
    blend: F,
    tau: Number,
    raw: Seq<Point>,
    limit: nat,
    held: Seq<Point>,
)
    requires
        refilled(blend, tau, raw, limit, held),
        raw.len() <= limit || raw.len() <= 1,
    ensures
        smoothing_of(blend, tau, raw, held),
{
    let s = choose|s: Seq<Point>| #[trigger] smoothing_of(blend, tau, raw, s) && held == filled(s, limit);
    filled_in_full(s, limit);
}

/// The weighing gives one value for two samples.
pub open spec fn one_valued<F: Fn(Point, Point) -> Number>(blend: F) -> bool {
    forall|p: Point, q: Point, y: Number, z: Number| #[trigger]
        call_ensures(blend, (p, q), y) && #[trigger] call_ensures(blend, (p, q), z) ==> y == z
}

proof fn smoothing_is_one<F: Fn(Point, Point) -> Number>(
    blend: F,
    tau: Number,
    raw: Seq<Point>,
    s: Seq<Point>,
    t: Seq<Point>,
    n: int,
)
    requires
        one_valued(blend),
        smoothing_of(blend, tau, raw, s),
        smoothing_of(blend, tau, raw, t),
        0 <= n <= raw.len(),
    ensures
        s.take(n) == t.take(n),
    decreases n,
{
    if n > 0 {
        smoothing_is_one(blend, tau, raw, s, t, n - 1);
        let j = n - 1;
        if j > 0 {
            assert(s.take(j)[j - 1] == t.take(j)[j - 1]);
            assert(step(blend, tau, s[j - 1], raw[j], s[j].y));
            assert(step(blend, tau, t[j - 1], raw[j], t[j].y));
        }
        assert(s[j].x == t[j].x);
        assert(s.take(n) =~= s.take(j).push(s[j]));
        assert(t.take(n) =~= t.take(j).push(t[j]));
    } else {
        assert(s.take(0) =~= t.take(0));
    }
}

/// What a refilled buffer holds follows from the raw samples alone, where the
/// weighing gives one value for two samples.
pub proof fn refilled_is_one<F: Fn(Point, Point) -> Number>(
    blend: F,
    tau: Number,
    raw: Seq<Point>,
    limit: nat,
    held: Seq<Point>,
    other: Seq<Point>,
)
    requires
        one_valued(blend),
        refilled(blend, tau, raw, limit, held),
        refilled(blend, tau, raw, limit, other),
    ensures
        held == other,
{
    let s = choose|s: Seq<Point>| #[trigger] smoothing_of(blend, tau, raw, s) && held == filled(s, limit);
    let t = choose|t: Seq<Point>| #[trigger] smoothing_of(blend, tau, raw, t) && other == filled(t, limit);
    smoothing_is_one(blend, tau, raw, s, t, raw.len() as int);
    assert(s.take(raw.len() as int) =~= s);
    assert(t.take(raw.len() as int) =~= t);
}

/// Smoothing all series anew gives the same from whatever the smoothed series
/// held before, and doing it once more changes nothing, where the weighing
/// gives one value for two samples.
pub proof fn recomputing_forgets<F: Fn(Point, Point) -> Number>(
    blend: F,
    tau: Number,
    raw: Seq<Seq<Point>>,
    limits: Seq<nat>,
    before: Seq<Seq<Point>>,
    once: Seq<Seq<Point>>,
    other_before: Seq<Seq<Point>>,
    other: Seq<Seq<Point>>,
    twice: Seq<Seq<Point>>,
)
    requires
        one_valued(blend),
        raw.len() <= before.len(),
        raw.len() <= other_before.len(),
        recomputed(blend, tau, raw, limits, before, once),
        recomputed(blend, tau, raw, limits, other_before, other),
        recomputed(blend, tau, raw, limits, once, twice),
    ensures
        forall|i: int| 0 <= i < raw.len() ==> #[trigger] once[i] == other[i],
        twice == once,
{
    assert forall|i: int| 0 <= i < raw.len() implies #[trigger] once[i] == other[i] && twice[i] == once[i] by {
        assert(refilled(blend, tau, raw[i], limits[i], other[i]));
        assert(refilled(blend, tau, raw[i], limits[i], twice[i]));
        refilled_is_one(blend, tau, raw[i], limits[i], once[i], other[i]);
        refilled_is_one(blend, tau, raw[i], limits[i], once[i], twice[i]);
    }
    assert(twice =~= once);
}

/// What a refilled buffer holds are the latest of as many samples as there are
/// raw ones, at their positions. The first has its own value. At a time constant
/// of at most `1e-6` so has every other; at any other time constant, each is what
/// the weighing makes of the smoothed sample before it and of itself.
pub proof fn smoothing_weighs<F: Fn(Point, Point) -> Number>(
    blend: F,
    tau: Number,
    raw: Seq<Point>,
    limit: nat,
    held: Seq<Point>,
)
    requires
        refilled(blend, tau, raw, limit, held),
        limit > 0,
    ensures
        exists|s: Seq<Point>|
            #![trigger smoothing_of(blend, tau, raw, s)]
            {
                &&& s.len() == raw.len()
                &&& raw.len() > 0 ==> s[0] == raw[0]
                &&& forall|j: int| 0 <= j < raw.len() ==> (#[trigger] s[j]).x == raw[j].x
                &&& tau.at_most(Number { bits: NO_SMOOTHING }) ==> s == raw
                &&& !tau.at_most(Number { bits: NO_SMOOTHING }) ==> forall|i: int, j: int|
                    #![trigger s[i], s[j]]
                    0 <= i && i + 1 == j && j < raw.len() ==> call_ensures(blend, (s[i], raw[j]), s[j].y)
                &&& raw.len() <= limit ==> held == s
                &&& raw.len() > limit ==> held == s.skip(raw.len() - limit)
            },
{
    let s = choose|s: Seq<Point>| #[trigger] smoothing_of(blend, tau, raw, s) && held == filled(s, limit);
    keeps_the_latest(s, limit);
    assert(s.skip(0) =~= s);
    if tau.at_most(Number { bits: NO_SMOOTHING }) {
        assert forall|j: int| 0 <= j < raw.len() implies s[j] == raw[j] by {
            if j > 0 {
                assert(step(blend, tau, s[j - 1], raw[j], s[j].y));
            }
        }
        assert(s =~= raw);
    } else {
        assert forall|i: int, j: int|
            #![trigger s[i], s[j]]
            0 <= i && i + 1 == j && j < raw.len() implies call_ensures(blend, (s[i], raw[j]), s[j].y) by {
            assert(step(blend, tau, s[i], raw[j], s[j].y));
        }
    }
}

/// A new sample keeps its value where there is none before it, or where the time
/// constant is at most `1e-6`; elsewhere it is what the weighing makes of the
/// last smoothed sample and of it.
pub proof fn joining_weighs<F: Fn(Point, Point) -> Number>(
    blend: F,
    tau: Number,
    held: Seq<Point>,
    cur: Point,
    y: Number,
)
    requires
        joins(blend, tau, held, cur, y),
    ensures
        held.len() == 0 || tau.at_most(Number { bits: NO_SMOOTHING }) ==> y == cur.y,
        held.len() > 0 && !tau.at_most(Number { bits: NO_SMOOTHING }) ==> call_ensures(blend, (held.last(), cur), y),
{
}

/// Smoothing all series anew refills each of the first with its raw series,
/// smoothed, in full where there is room for it, and leaves the others.
pub proof fn recomputing_weighs<F: Fn(Point, Point) -> Number>(
    blend: F,
    tau: Number,
    raw: Seq<Seq<Point>>,
    limits: Seq<nat>,
    before: Seq<Seq<Point>>,
    after: Seq<Seq<Point>>,
    i: int,
)
    requires
        recomputed(blend, tau, raw, limits, before, after),
        raw.len() <= before.len(),
        0 <= i < after.len(),
    ensures
        after.len() == before.len(),
        i >= raw.len() ==> after[i] == before[i],
        i < raw.len() ==> refilled(blend, tau, raw[i], limits[i], after[i]),
        i < raw.len() && 0 < raw[i].len() <= limits[i] ==> {
            &&& after[i].len() == raw[i].len()
            &&& after[i][0] == raw[i][0]
            &&& forall|j: int| 0 <= j < raw[i].len() ==> (#[trigger] after[i][j]).x == raw[i][j].x
            &&& tau.at_most(Number { bits: NO_SMOOTHING }) ==> after[i] == raw[i]
            &&& !tau.at_most(Number { bits: NO_SMOOTHING }) ==> forall|j: int, k: int|
                #![trigger after[i][j], after[i][k]]
                0 <= j && j + 1 == k && k < raw[i].len() ==> call_ensures(
                    blend,
                    (after[i][j], raw[i][k]),
                    after[i][k].y,
                )
        },
        i < raw.len() && raw[i].len() == 0 ==> after[i].len() == 0,
{
    if i < raw.len() {
        assert(refilled(blend, tau, raw[i], limits[i], after[i]));
        if raw[i].len() == 0 || raw[i].len() <= limits[i] {
            refilled_in_full(blend, tau, raw[i], limits[i], after[i]);
        }
        if 0 < raw[i].len() <= limits[i] {
            smoothing_weighs(blend, tau, raw[i], limits[i], after[i]);
        }
    }
}

/// With smoothing off, the smoothed series is the raw one.
pub proof fn off_is_identity<F: Fn(Point, Point) -> Number>(
    blend: F,
    tau: Number,
    raw: Seq<Point>,
    limit: nat,
    held: Seq<Point>,
)
    requires
        smoothing_off(tau),
        refilled(blend, tau, raw, limit, held),
        raw.len() <= limit || raw.len() <= 1,
    ensures
        held == raw,
{
    refilled_in_full(blend, tau, raw, limit, held);
    assert forall|j: int| 0 <= j < raw.len() implies held[j] == raw[j] by {
        if j > 0 {
            assert(step(blend, tau, held[j - 1], raw[j], held[j].y));
        }
    }
    assert(held =~= raw);
}

/// Until a sample has to make room, smoothing samples as they are added at the
/// end gives what smoothing all of them anew does. Late samples, which the raw
/// series takes in further ahead, are another matter.
pub proof fn streaming_agrees<F: Fn(Point, Point) -> Number>(
    blend: F,
    tau: Number,
    raw: Seq<Point>,
    held: Seq<Point>,
    limit: nat,
    cur: Point,
    y: Number,
)
    requires
        smoothing_of(blend, tau, raw, held),
        raw.len() < limit,
        joins(blend, tau, held, cur, y),
    ensures
        smoothing_of(blend, tau, pushed(raw, limit, cur), pushed(held, limit, Point { x: cur.x, y })),
{
    smoothing_grows(blend, tau, raw, held, cur, Point { x: cur.x, y });
}

} // verus!
