//! Bounded sample buffers, one per plotted series.

use std::collections::VecDeque;
use vstd::prelude::*;
use crate::number::Number;

verus! {

/// One sample: a position on the time axis and a value.
#[derive(Clone, Copy, Debug, PartialEq, Eq, Structural)]
pub struct Point {
    pub x: Number,
    pub y: Number,
}

/// The most storage that is set aside before any sample has arrived.
pub const INITIAL_RESERVE: usize = 65536;

/// The latest samples of one series, oldest first, at most `capacity` of them.
#[derive(Debug)]
pub struct SeriesBuffer {
    data: VecDeque<Point>,
    capacity: usize,
}

/// The samples that stay when room is made for one more.
pub open spec fn evicted(s: Seq<Point>, capacity: nat) -> Seq<Point> {
    if s.len() > 0 && s.len() >= capacity {
        s.drop_first()
    } else {
        s
    }
}

/// The samples after `p` has been added at the end.
pub open spec fn pushed(s: Seq<Point>, capacity: nat, p: Point) -> Seq<Point> {
    evicted(s, capacity).push(p)
}

/// Where a sample at `x` settles when it comes in at the end and moves ahead of
/// every sample that is later than it, up to the first that is not.
pub open spec fn slot(s: Seq<Point>, x: Number) -> int
    decreases s.len(),
{
    if s.len() == 0 {
        0
    } else if x.less(s.last().x) {
        slot(s.drop_last(), x)
    } else {
        s.len() as int
    }
}

/// The samples after `p` has been added and has settled in its slot.
pub open spec fn placed(s: Seq<Point>, capacity: nat, p: Point) -> Seq<Point> {
    let kept = evicted(s, capacity);
    kept.insert(slot(kept, p.x), p)
}

/// The samples are numbered in time, and in time order.
pub open spec fn in_time_order(s: Seq<Point>) -> bool {
    &&& forall|i: int| 0 <= i < s.len() ==> !(#[trigger] s[i]).x.nan()
    &&& forall|i: int, j: int|
        0 <= i <= j < s.len() ==> (#[trigger] s[i]).x.rank() <= (#[trigger] s[j]).x.rank()
}

/// The index at which halving the range `lo..hi` by `is before x` ends.
pub open spec fn bisect(s: Seq<Point>, x: Number, lo: int, hi: int) -> int
    decreases hi - lo,
{
    if lo >= hi {
        lo
    } else {
        let mid = lo + (hi - lo) / 2;
        if s[mid].x.less(x) {
            bisect(s, x, mid + 1, hi)
        } else {
            bisect(s, x, lo, mid)
        }
    }
}

/// Where a search for `x` in all of `s` ends.
pub open spec fn found(s: Seq<Point>, x: Number) -> int {
    bisect(s, x, 0, s.len() as int)
}

impl View for SeriesBuffer {
    type V = Seq<Point>;

    closed spec fn view(&self) -> Seq<Point> {
        self.data@
    }
}

impl SeriesBuffer {
    pub closed spec fn limit(&self) -> nat {
        self.capacity as nat
    }

    /// No more samples than the capacity, or one where the capacity is zero.
    pub open spec fn wf(&self) -> bool {
        self@.len() <= self.limit() || self@.len() <= 1
    }

    pub fn new(capacity: usize) -> (r: Self)
        ensures
            r.wf(),
            r@ == Seq::<Point>::empty(),
            r.limit() == capacity,
    {
        let reserve: usize = if capacity < INITIAL_RESERVE {
            capacity
        } else {
            INITIAL_RESERVE
        };
        SeriesBuffer { data: VecDeque::with_capacity(reserve), capacity }
    }

    fn evict(&mut self)
        ensures
            final(self)@ == evicted(old(self)@, old(self).limit()),
            final(self).limit() == old(self).limit(),
    {
        if self.data.len() >= self.capacity {
            let _ = self.data.pop_front();
        }
    }

    /// Adds a sample at the end; the oldest one makes room where the buffer is
    /// full.
    pub fn push(&mut self, point: Point)
        ensures
            final(self)@ == pushed(old(self)@, old(self).limit(), point),
            final(self)@.last() == point,
            old(self)@.len() == 0 || old(self)@.len() < old(self).limit() ==> final(self)@.drop_last() == old(self)@,
            old(self)@.len() > 0 && old(self)@.len() >= old(self).limit() ==> final(self)@.drop_last()
                == old(self)@.skip(1),
            final(self).limit() == old(self).limit(),
            old(self).wf() ==> final(self).wf(),
    {
        proof {
            pushing_adds_at_the_end(self@, self.limit(), point);
        }
        self.evict();
        self.data.push_back(point);
    }

    /// Adds a sample and moves it ahead of those that are later than it.
    pub fn push_in_order(&mut self, point: Point)
        ensures
            final(self)@ == placed(old(self)@, old(self).limit(), point),
            final(self)@.contains(point),
            final(self).limit() == old(self).limit(),
            old(self).wf() ==> final(self).wf(),
    {
        self.evict();
        let ghost kept = self.data@;
        let mut j: usize = self.data.len();
        assert(kept.subrange(0, j as int) =~= kept);
        while j > 0 && point.x.lt(self.data[j - 1].x)
            invariant
                self.data@ == kept,
                j <= kept.len(),
                slot(kept.subrange(0, j as int), point.x) == slot(kept, point.x),
            decreases j,
        {
            assert(kept.subrange(0, j as int).drop_last() =~= kept.subrange(0, j - 1));
            j = j - 1;
        }
        proof {
            slot_in_range(kept, point.x);
        }
        self.data.insert(j, point);
        assert(self.data@[j as int] == point);
    }

    pub fn len(&self) -> (r: usize)
        ensures
            r == self@.len(),
    {
        self.data.len()
    }

    pub fn is_empty(&self) -> (r: bool)
        ensures
            r == (self@.len() == 0),
    {
        self.data.len() == 0
    }

    /// The index of the first sample that is not before `x`, for samples in
    /// time order; for others, one of the places where samples before `x` end.
    pub fn search_x(&self, x: Number) -> (r: usize)
        ensures
            r == found(self@, x),
            r <= self@.len(),
            r > 0 ==> self@[r - 1].x.less(x),
            r < self@.len() ==> !self@[r as int].x.less(x),
            in_time_order(self@) && !x.nan() ==> {
                &&& forall|i: int| 0 <= i < r ==> (#[trigger] self@[i]).x.less(x)
                &&& forall|i: int| r <= i < self@.len() ==> !(#[trigger] self@[i]).x.less(x)
            },
    {
        let mut lo: usize = 0;
        let mut hi: usize = self.data.len();
        while lo < hi
            invariant
                lo <= hi <= self@.len(),
                self@ == self.data@,
                bisect(self@, x, lo as int, hi as int) == found(self@, x),
                lo > 0 ==> self@[lo - 1].x.less(x),
                hi < self@.len() ==> !self@[hi as int].x.less(x),
            decreases hi - lo,
        {
            let mid: usize = lo + (hi - lo) / 2;
            if self.data[mid].x.lt(x) {
                lo = mid + 1;
            } else {
                hi = mid;
            }
        }
        lo
    }

    pub fn first(&self) -> (r: Option<&Point>)
        ensures
            r is Some <==> self@.len() > 0,
            r matches Some(p) ==> *p == self@.first(),
    {
        if self.data.len() == 0 {
            None
        } else {
            Some(&self.data[0])
        }
    }

    pub fn last(&self) -> (r: Option<&Point>)
        ensures
            r is Some <==> self@.len() > 0,
            r matches Some(p) ==> *p == self@.last(),
    {
        let n: usize = self.data.len();
        if n == 0 {
            None
        } else {
            Some(&self.data[n - 1])
        }
    }

    pub fn get(&self, i: usize) -> (r: Point)
        requires
            i < self@.len(),
        ensures
            r == self@[i as int],
    {
        self.data[i]
    }

    pub fn clear(&mut self)
        ensures
            final(self)@ == Seq::<Point>::empty(),
            final(self).limit() == old(self).limit(),
    {
        self.data.clear();
    }

    /// The samples `start..end`.
    pub fn range(&self, start: usize, end: usize) -> (r: Vec<Point>)
        requires
            start <= end <= self@.len(),
        ensures
            r@ == self@.subrange(start as int, end as int),
    {
        let mut out: Vec<Point> = Vec::new();
        let mut i: usize = start;
        while i < end
            invariant
                start <= i <= end <= self@.len(),
                self@ == self.data@,
                out@ == self@.subrange(start as int, i as int),
            decreases end - i,
        {
            out.push(self.data[i]);
            i = i + 1;
            assert(out@ =~= self@.subrange(start as int, i as int));
        }
        out
    }
}

/// Everything from the slot of `x` on is later than `x`, and what is just before
/// the slot is not.
pub proof fn slot_in_range(s: Seq<Point>, x: Number)
    ensures
        0 <= slot(s, x) <= s.len(),
        forall|i: int| slot(s, x) <= i < s.len() ==> x.less((#[trigger] s[i]).x),
        slot(s, x) > 0 ==> !x.less(s[slot(s, x) - 1].x),
    decreases s.len(),
{
    if s.len() > 0 && x.less(s.last().x) {
        let rest = s.drop_last();
        slot_in_range(rest, x);
        assert forall|i: int| slot(s, x) <= i < s.len() implies x.less((#[trigger] s[i]).x) by {
            if i < rest.len() {
                assert(rest[i] == s[i]);
            }
        }
    }
}

/// A sample that is pushed comes last, after all that were there, but for the
/// oldest where there is no room for one more.
pub proof fn pushing_adds_at_the_end(s: Seq<Point>, capacity: nat, p: Point)
    ensures
        pushed(s, capacity, p).last() == p,
        s.len() == 0 || s.len() < capacity ==> pushed(s, capacity, p).drop_last() == s,
        s.len() > 0 && s.len() >= capacity ==> pushed(s, capacity, p).drop_last() == s.skip(1),
{
    assert(s.len() == 0 || s.len() < capacity ==> pushed(s, capacity, p).drop_last() =~= s);
    assert(s.len() > 0 && s.len() >= capacity ==> pushed(s, capacity, p).drop_last() =~= s.skip(1));
}

/// A sample that is placed stands among those that were there, but for the
/// oldest where there is no room for one more: before it is one that is not
/// later, if any, and everything after it is later.
pub proof fn placing_adds_in_order(s: Seq<Point>, capacity: nat, p: Point)
    ensures
        ({
            let t = placed(s, capacity, p);
            exists|k: int|
                {
                    &&& 0 <= k < t.len() && #[trigger] t[k] == p
                    &&& s.len() == 0 || s.len() < capacity ==> t.remove(k) == s
                    &&& s.len() > 0 && s.len() >= capacity ==> t.remove(k) == s.skip(1)
                    &&& k > 0 ==> !p.x.less(t[k - 1].x)
                    &&& forall|i: int| k < i < t.len() ==> p.x.less((#[trigger] t[i]).x)
                }
        }),
{
    let kept = evicted(s, capacity);
    let t = placed(s, capacity, p);
    let k = slot(kept, p.x);
    slot_in_range(kept, p.x);
    assert(t[k] == p);
    assert(t.remove(k) =~= kept);
    assert(s.len() > 0 && s.len() >= capacity ==> kept =~= s.skip(1));
}

/// A buffer's length is a machine integer.
pub proof fn length_fits(b: &SeriesBuffer)
    ensures
        b@.len() <= usize::MAX,
{
    assert(b.data.len() == b.data@.len());
}

/// The samples after all of `ps` have been added, in turn, to none.
pub open spec fn filled(ps: Seq<Point>, capacity: nat) -> Seq<Point>
    decreases ps.len(),
{
    if ps.len() == 0 {
        Seq::empty()
    } else {
        pushed(filled(ps.drop_last(), capacity), capacity, ps.last())
    }
}

/// A buffer holds the latest samples, as many as its capacity.
pub proof fn keeps_the_latest(ps: Seq<Point>, capacity: nat)
    requires
        capacity > 0,
    ensures
        filled(ps, capacity) == ps.skip(
            if ps.len() > capacity {
                ps.len() - capacity
            } else {
                0
            },
        ),
    decreases ps.len(),
{
    if ps.len() > 0 {
        keeps_the_latest(ps.drop_last(), capacity);
    }
    assert(filled(ps, capacity) =~= ps.skip(
        if ps.len() > capacity {
            ps.len() - capacity
        } else {
            0
        },
    ));
}

/// A buffer without capacity holds the latest sample.
pub proof fn keeps_one_without_capacity(ps: Seq<Point>)
    ensures
        ps.len() > 0 ==> filled(ps, 0) == seq![ps.last()],
        ps.len() == 0 ==> filled(ps, 0).len() == 0,
    decreases ps.len(),
{
    if ps.len() > 0 {
        keeps_one_without_capacity(ps.drop_last());
        assert(filled(ps, 0) =~= seq![ps.last()]);
    }
}

/// Samples that settle in their slots stay in time order.
pub proof fn placed_keeps_time_order(s: Seq<Point>, capacity: nat, p: Point)
    requires
        in_time_order(s),
        !p.x.nan(),
    ensures
        in_time_order(placed(s, capacity, p)),
{
    let kept = evicted(s, capacity);
    slot_in_range(kept, p.x);
    let k = slot(kept, p.x);
    let out = placed(s, capacity, p);
    assert(in_time_order(kept));
    assert forall|i: int, j: int| 0 <= i <= j < out.len() implies (#[trigger] out[i]).x.rank() <= (
    #[trigger] out[j]).x.rank() by {
        if k > 0 {
            assert(kept[k - 1].x.rank() <= p.x.rank());
        }
    }
}

/// A sample that comes in on time settles at the end.
pub proof fn on_time_is_last(s: Seq<Point>, capacity: nat, p: Point)
    requires
        evicted(s, capacity).len() == 0 || !p.x.less(evicted(s, capacity).last().x),
    ensures
        placed(s, capacity, p) == pushed(s, capacity, p),
{
    assert(placed(s, capacity, p) =~= pushed(s, capacity, p));
}

/// Settling moves samples and neither drops nor adds any.
pub proof fn placed_keeps_the_samples(s: Seq<Point>, capacity: nat, p: Point)
    ensures
        placed(s, capacity, p).to_multiset() == pushed(s, capacity, p).to_multiset(),
        placed(s, capacity, p).remove(slot(evicted(s, capacity), p.x)) == evicted(s, capacity),
{
    broadcast use vstd::seq_lib::group_to_multiset_ensures;

    let kept = evicted(s, capacity);
    slot_in_range(kept, p.x);
    assert(placed(s, capacity, p).remove(slot(kept, p.x)) =~= kept);
    assert(placed(s, capacity, p).to_multiset() =~= pushed(s, capacity, p).to_multiset());
}

proof fn bisect_in_range(s: Seq<Point>, x: Number, lo: int, hi: int)
    requires
        lo <= hi,
    ensures
        lo <= bisect(s, x, lo, hi) <= hi,
    decreases hi - lo,
{
    if lo < hi {
        let mid = lo + (hi - lo) / 2;
        if s[mid].x.less(x) {
            bisect_in_range(s, x, mid + 1, hi);
        } else {
            bisect_in_range(s, x, lo, mid);
        }
    }
}

proof fn bisect_grows(s: Seq<Point>, a: Number, b: Number, lo: int, hi: int)
    requires
        lo <= hi,
        a.at_most(b),
    ensures
        bisect(s, a, lo, hi) <= bisect(s, b, lo, hi),
    decreases hi - lo,
{
    if lo < hi {
        let mid = lo + (hi - lo) / 2;
        if s[mid].x.less(a) {
            bisect_grows(s, a, b, mid + 1, hi);
        } else if s[mid].x.less(b) {
            bisect_in_range(s, a, lo, mid);
            bisect_in_range(s, b, mid + 1, hi);
        } else {
            bisect_grows(s, a, b, lo, mid);
        }
    }
}

/// A search halves what is left of the samples: it goes on after the middle one
/// where that is before `x`, and before it elsewhere, until nothing is left.
pub proof fn search_halves(s: Seq<Point>, x: Number, lo: int, hi: int)
    requires
        0 <= lo <= hi <= s.len(),
    ensures
        found(s, x) == bisect(s, x, 0, s.len() as int),
        lo == hi ==> bisect(s, x, lo, hi) == lo,
        lo < hi && s[(lo + hi) / 2].x.less(x) ==> bisect(s, x, lo, hi) == bisect(s, x, (lo + hi) / 2 + 1, hi),
        lo < hi && !s[(lo + hi) / 2].x.less(x) ==> bisect(s, x, lo, hi) == bisect(s, x, lo, (lo + hi) / 2),
{
    assert(lo < hi ==> lo + (hi - lo) / 2 == (lo + hi) / 2);
}

/// A search ends among the samples, or right after the last.
pub proof fn search_ends(s: Seq<Point>, x: Number)
    ensures
        0 <= found(s, x) <= s.len(),
{
    bisect_in_range(s, x, 0, s.len() as int);
}

proof fn bisect_finds(s: Seq<Point>, x: Number, lo: int, hi: int)
    requires
        in_time_order(s),
        !x.nan(),
        0 <= lo <= hi <= s.len(),
        forall|i: int| 0 <= i < lo ==> (#[trigger] s[i]).x.less(x),
        forall|i: int| hi <= i < s.len() ==> !(#[trigger] s[i]).x.less(x),
    ensures
        forall|i: int| 0 <= i < bisect(s, x, lo, hi) ==> (#[trigger] s[i]).x.less(x),
        forall|i: int| bisect(s, x, lo, hi) <= i < s.len() ==> !(#[trigger] s[i]).x.less(x),
    decreases hi - lo,
{
    if lo < hi {
        let mid = lo + (hi - lo) / 2;
        if s[mid].x.less(x) {
            bisect_finds(s, x, mid + 1, hi);
        } else {
            bisect_finds(s, x, lo, mid);
        }
    }
}

/// A search of samples in time order ends where those before `x` do.
pub proof fn search_finds(s: Seq<Point>, x: Number)
    requires
        in_time_order(s),
        !x.nan(),
    ensures
        0 <= found(s, x) <= s.len(),
        forall|i: int| 0 <= i < found(s, x) ==> (#[trigger] s[i]).x.less(x),
        forall|i: int| found(s, x) <= i < s.len() ==> !(#[trigger] s[i]).x.less(x),
{
    bisect_in_range(s, x, 0, s.len() as int);
    bisect_finds(s, x, 0, s.len() as int);
}

/// A search for a later position ends no earlier, whatever the order of the
/// samples.
pub proof fn search_grows(s: Seq<Point>, a: Number, b: Number)
    requires
        a.at_most(b),
    ensures
        0 <= found(s, a) <= found(s, b) <= s.len(),
{
    bisect_in_range(s, a, 0, s.len() as int);
    bisect_in_range(s, b, 0, s.len() as int);
    bisect_grows(s, a, b, 0, s.len() as int);
}

} // verus!
