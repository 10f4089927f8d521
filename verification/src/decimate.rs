//! M4 decimation: first, lowest, highest and last sample of each pixel column.
//!
//! A column is a position on the viewport's time axis, so a stretch without
//! data leaves its columns empty wherever the viewport is. The column of each
//! sample is handed in, one number per sample.

use std::collections::HashSet;
use vstd::prelude::*;
use crate::buffer::{in_time_order, length_fits, Point, SeriesBuffer};
use crate::number::Number;

verus! {

/// The most samples that a run in one column keeps.
pub const POINTS_PER_COLUMN: usize = 4;

/// The first index from `b` on whose column is not that of `a`.
pub open spec fn other_column(cols: Seq<i64>, a: int, b: int) -> int
    decreases cols.len() - b,
{
    if b >= cols.len() || cols[b] != cols[a] {
        b
    } else {
        other_column(cols, a, b + 1)
    }
}

/// The end of the run of samples that share the column of `a`.
pub open spec fn run_end(cols: Seq<i64>, a: int) -> int {
    other_column(cols, a, a + 1)
}

/// The index that a scan for a lower and lower value ends on, over `a..b`. It
/// leaves what is not a number for the first that is one.
pub open spec fn lowest(w: Seq<Point>, a: int, b: int) -> int
    decreases b - a,
{
    if b <= a + 1 {
        a
    } else {
        let m = lowest(w, a, b - 1);
        if w[b - 1].y.less(w[m].y) || (w[m].y.nan() && !w[b - 1].y.nan()) {
            b - 1
        } else {
            m
        }
    }
}

/// The index that a scan for a higher and higher value ends on, over `a..b`. It
/// leaves what is not a number for the first that is one.
pub open spec fn highest(w: Seq<Point>, a: int, b: int) -> int
    decreases b - a,
{
    if b <= a + 1 {
        a
    } else {
        let m = highest(w, a, b - 1);
        if w[m].y.less(w[b - 1].y) || (w[m].y.nan() && !w[b - 1].y.nan()) {
            b - 1
        } else {
            m
        }
    }
}

/// `m` is the first of `a..b` with the lowest value, and the very first where
/// no value is a number.
pub open spec fn first_lowest(w: Seq<Point>, a: int, b: int, m: int) -> bool {
    &&& a <= m < b
    &&& forall|j: int| a <= j < b && !(#[trigger] w[j]).y.nan() ==> w[m].y.at_most(w[j].y)
    &&& forall|j: int| a <= j < m && !(#[trigger] w[j]).y.nan() ==> w[m].y.less(w[j].y)
    &&& w[m].y.nan() ==> m == a
}

/// `m` is the first of `a..b` with the highest value, and the very first where
/// no value is a number.
pub open spec fn first_highest(w: Seq<Point>, a: int, b: int, m: int) -> bool {
    &&& a <= m < b
    &&& forall|j: int| a <= j < b && !(#[trigger] w[j]).y.nan() ==> w[j].y.at_most(w[m].y)
    &&& forall|j: int| a <= j < m && !(#[trigger] w[j]).y.nan() ==> w[j].y.less(w[m].y)
    &&& w[m].y.nan() ==> m == a
}

/// `j`, unless it is `i` again.
pub open spec fn unless_same(i: int, j: int) -> Seq<int> {
    if i == j {
        Seq::empty()
    } else {
        seq![j]
    }
}

/// First, lowest, highest and last of `a..b`, in the order they have, each once.
pub open spec fn column_indices(w: Seq<Point>, a: int, b: int) -> Seq<int> {
    let lo = lowest(w, a, b);
    let hi = highest(w, a, b);
    let p = if lo <= hi { lo } else { hi };
    let q = if lo <= hi { hi } else { lo };
    seq![a] + unless_same(a, p) + unless_same(p, q) + unless_same(q, b - 1)
}

/// The indices that are kept from `a` on, run after run.
pub open spec fn kept_indices(w: Seq<Point>, cols: Seq<i64>, a: int) -> Seq<int>
    decreases cols.len() - a,
{
    if a >= cols.len() {
        Seq::empty()
    } else {
        let b = run_end(cols, a);
        if a < b <= cols.len() {
            column_indices(w, a, b) + kept_indices(w, cols, b)
        } else {
            Seq::empty()
        }
    }
}

/// Column `c` is strictly between `p` and `q`, whichever of these comes first.
pub open spec fn between(p: i64, c: i64, q: i64) -> bool {
    p < c < q || q < c < p
}

/// Between the columns of the sample at `b` and of the one before it there is a
/// column that holds no sample.
pub open spec fn gap_before(cols: Seq<i64>, b: int) -> bool {
    0 < b < cols.len() && exists|c: i64| !(#[trigger] cols.contains(c)) && between(cols[b - 1], c, cols[b])
}

/// The kept indices from `a` on, cut where columns are left empty; `cur` is
/// what the first piece already holds.
pub open spec fn cut_indices(w: Seq<Point>, cols: Seq<i64>, a: int, cur: Seq<int>) -> Seq<Seq<int>>
    decreases cols.len() - a,
{
    let b = run_end(cols, a);
    if !(a < b <= cols.len()) {
        seq![cur]
    } else {
        let grown = cur + column_indices(w, a, b);
        if gap_before(cols, b) {
            seq![grown] + cut_indices(w, cols, b, Seq::empty())
        } else {
            cut_indices(w, cols, b, grown)
        }
    }
}

pub open spec fn points_at(w: Seq<Point>, indices: Seq<int>) -> Seq<Point> {
    Seq::new(indices.len(), |k: int| w[indices[k]])
}

/// So few samples that they are all kept.
pub open spec fn all_kept(w: Seq<Point>, n_buckets: nat) -> bool {
    n_buckets == 0 || w.len() <= n_buckets * POINTS_PER_COLUMN
}

/// What decimation to `n_buckets` columns leaves of the samples `w`.
pub open spec fn decimated(w: Seq<Point>, cols: Seq<i64>, n_buckets: nat) -> Seq<Point> {
    if all_kept(w, n_buckets) {
        w
    } else {
        points_at(w, kept_indices(w, cols, 0))
    }
}

/// The lines that are drawn through what decimation leaves: one, or several
/// where columns between the samples are empty.
pub open spec fn drawn(w: Seq<Point>, cols: Seq<i64>, n_buckets: nat) -> Seq<Seq<Point>> {
    if all_kept(w, n_buckets) {
        seq![w]
    } else {
        Seq::new(
            cut_indices(w, cols, 0, Seq::empty()).len(),
            |k: int| points_at(w, cut_indices(w, cols, 0, Seq::empty())[k]),
        )
    }
}

proof fn run_end_in_range(cols: Seq<i64>, a: int, b: int)
    requires
        0 <= a < b <= cols.len(),
        forall|i: int| a <= i < b ==> cols[i] == cols[a],
    ensures
        b <= other_column(cols, a, b) <= cols.len(),
        forall|i: int| a <= i < other_column(cols, a, b) ==> cols[i] == cols[a],
        other_column(cols, a, b) < cols.len() ==> cols[other_column(cols, a, b)] != cols[a],
    decreases cols.len() - b,
{
    if b < cols.len() && cols[b] == cols[a] {
        run_end_in_range(cols, a, b + 1);
    }
}

proof fn extremes_in_range(w: Seq<Point>, a: int, b: int)
    requires
        a < b,
    ensures
        a <= lowest(w, a, b) < b,
        a <= highest(w, a, b) < b,
    decreases b - a,
{
    if b > a + 1 {
        extremes_in_range(w, a, b - 1);
    }
}

/// One run of samples in a column, and where its extremes are.
struct Run {
    end: usize,
    lowest: usize,
    highest: usize,
}

/// Finds the run that begins at the `a`-th sample from `start` on.
fn scan_run(buf: &SeriesBuffer, start: usize, columns: &Vec<i64>, a: usize) -> (r: Run)
    requires
        start + columns@.len() <= buf@.len(),
        a < columns@.len(),
    ensures
        r.end == run_end(columns@, a as int),
        a < r.end <= columns@.len(),
        r.lowest == lowest(buf@.subrange(start as int, start + columns@.len()), a as int, r.end as int),
        r.highest == highest(buf@.subrange(start as int, start + columns@.len()), a as int, r.end as int),
        a <= r.lowest < r.end,
        a <= r.highest < r.end,
{
    let ghost w = buf@.subrange(start as int, start + columns@.len());
    proof {
        length_fits(buf);
    }
    let column: i64 = columns[a];
    let mut lo: usize = a;
    let mut hi: usize = a;
    let mut b: usize = a + 1;
    while b < columns.len() && columns[b] == column
        invariant
            start + columns@.len() <= buf@.len() <= usize::MAX,
            w == buf@.subrange(start as int, start + columns@.len()),
            column == columns@[a as int],
            a < b <= columns@.len(),
            other_column(columns@, a as int, b as int) == run_end(columns@, a as int),
            lo == lowest(w, a as int, b as int),
            hi == highest(w, a as int, b as int),
            a <= lo < b,
            a <= hi < b,
        decreases columns@.len() - b,
    {
        let y: Number = buf.get(start + b).y;
        let low: Number = buf.get(start + lo).y;
        let high: Number = buf.get(start + hi).y;
        if y.lt(low) || (low.is_nan() && !y.is_nan()) {
            lo = b;
        }
        if high.lt(y) || (high.is_nan() && !y.is_nan()) {
            hi = b;
        }
        b = b + 1;
    }
    Run { end: b, lowest: lo, highest: hi }
}

/// Adds the kept samples of a run.
fn push_run(out: &mut Vec<Point>, buf: &SeriesBuffer, start: usize, a: usize, run: &Run, Ghost(w): Ghost<Seq<Point>>)
    requires
        start + w.len() <= buf@.len(),
        w == buf@.subrange(start as int, start + w.len()),
        a < run.end <= w.len(),
        run.lowest == lowest(w, a as int, run.end as int),
        run.highest == highest(w, a as int, run.end as int),
        a <= run.lowest < run.end,
        a <= run.highest < run.end,
    ensures
        final(out)@ == old(out)@ + points_at(w, column_indices(w, a as int, run.end as int)),
{
    proof {
        length_fits(buf);
    }
    let last: usize = run.end - 1;
    let p: usize = if run.lowest <= run.highest { run.lowest } else { run.highest };
    let q: usize = if run.lowest <= run.highest { run.highest } else { run.lowest };
    out.push(buf.get(start + a));
    if p != a {
        out.push(buf.get(start + p));
    }
    if q != p {
        out.push(buf.get(start + q));
    }
    if last != q {
        out.push(buf.get(start + last));
    }
    assert(out@ =~= old(out)@ + points_at(w, column_indices(w, a as int, run.end as int)));
}

/// Decimates the samples `start..end` to `n_buckets` pixel columns.
///
/// Up to four samples are kept of each run of samples in one column, in the order
/// they have: the first, the lowest, the highest and the last. Of samples in time
/// order, a run is all that a column holds.
pub fn m4(buf: &SeriesBuffer, start: usize, end: usize, n_buckets: usize, columns: &Vec<i64>) -> (r: Vec<Point>)
    requires
        start <= end <= buf@.len(),
        columns@.len() == end - start,
        n_buckets * POINTS_PER_COLUMN <= usize::MAX,
    ensures
        r@ == decimated(buf@.subrange(start as int, end as int), columns@, n_buckets as nat),
{
    let ghost w = buf@.subrange(start as int, end as int);
    let count: usize = end - start;
    if n_buckets == 0 || count <= n_buckets * POINTS_PER_COLUMN {
        return buf.range(start, end);
    }
    let mut out: Vec<Point> = Vec::new();
    let mut a: usize = 0;
    assert(points_at(w, kept_indices(w, columns@, 0)) =~= out@ + points_at(w, kept_indices(w, columns@, 0)));
    while a < count
        invariant
            start <= end <= buf@.len(),
            count == end - start,
            columns@.len() == count,
            w == buf@.subrange(start as int, end as int),
            a <= count,
            points_at(w, kept_indices(w, columns@, 0)) == out@ + points_at(w, kept_indices(w, columns@, a as int)),
        decreases count - a,
    {
        let run: Run = scan_run(buf, start, columns, a);
        push_run(&mut out, buf, start, a, &run, Ghost(w));
        assert(points_at(w, kept_indices(w, columns@, a as int)) =~= points_at(
            w,
            column_indices(w, a as int, run.end as int),
        ) + points_at(w, kept_indices(w, columns@, run.end as int)));
        a = run.end;
        assert(points_at(w, kept_indices(w, columns@, 0)) =~= out@ + points_at(
            w,
            kept_indices(w, columns@, a as int),
        ));
    }
    assert(out@ =~= points_at(w, kept_indices(w, columns@, 0)));
    out
}

/// The columns that hold a sample.
fn held_columns(columns: &Vec<i64>) -> (held: HashSet<i64>)
    ensures
        forall|c: i64| held@.contains(c) <==> #[trigger] columns@.contains(c),
{
    let mut held: HashSet<i64> = HashSet::new();
    let mut i: usize = 0;
    while i < columns.len()
        invariant
            i <= columns@.len(),
            forall|c: i64| held@.contains(c) <==> #[trigger] columns@.take(i as int).contains(c),
        decreases columns@.len() - i,
    {
        held.insert(columns[i]);
        proof {
            let before = columns@.take(i as int);
            let after = columns@.take(i + 1);
            let new = columns@[i as int];
            assert(after =~= before.push(new));
            assert forall|c: i64| held@.contains(c) <==> #[trigger] after.contains(c) by {
                if before.contains(c) {
                    assert(after[before.index_of(c)] == c);
                }
                if after.contains(c) && c != new {
                    assert(before[after.index_of(c)] == c);
                }
                assert(after[i as int] == new);
                assert(held@.contains(c) <==> before.contains(c) || c == new);
            }
        }
        i = i + 1;
    }
    assert(columns@.take(columns@.len() as int) =~= columns@);
    held
}

/// Looks for a column between two that is not among those that hold a sample.
fn has_empty_between(held: &HashSet<i64>, p: i64, q: i64) -> (r: bool)
    ensures
        r == exists|c: i64| !(#[trigger] held@.contains(c)) && between(p, c, q),
{
    let lo: i64 = if p < q { p } else { q };
    let hi: i64 = if p < q { q } else { p };
    let mut c: i64 = lo;
    while c < hi
        invariant
            lo <= c <= hi,
            forall|d: i64| lo < d <= c && d < hi ==> #[trigger] held@.contains(d),
            forall|d: i64| between(p, d, q) <==> lo < d < hi,
        decreases hi - c,
    {
        c = c + 1;
        if c < hi && !held.contains(&c) {
            assert(between(p, c, q));
            return true;
        }
    }
    false
}

/// Decimates the samples `start..end` as `m4` does, and cuts the line through
/// them wherever a column between two neighbours holds no sample. Samples that
/// are few enough to be kept all are one line, which is not cut.
pub fn m4_lines(buf: &SeriesBuffer, start: usize, end: usize, n_buckets: usize, columns: &Vec<i64>) -> (r: Vec<Vec<Point>>)
    requires
        start <= end <= buf@.len(),
        columns@.len() == end - start,
        n_buckets * POINTS_PER_COLUMN <= usize::MAX,
    ensures
        r@.map_values(|line: Vec<Point>| line@) == drawn(
            buf@.subrange(start as int, end as int),
            columns@,
            n_buckets as nat,
        ),
{
    let ghost w = buf@.subrange(start as int, end as int);
    let count: usize = end - start;
    let mut lines: Vec<Vec<Point>> = Vec::new();
    if n_buckets == 0 || count <= n_buckets * POINTS_PER_COLUMN {
        lines.push(buf.range(start, end));
        assert(lines@.map_values(|line: Vec<Point>| line@) =~= seq![w]);
        return lines;
    }
    let held: HashSet<i64> = held_columns(columns);
    let ghost target = cut_indices(w, columns@, 0, Seq::empty());
    let ghost mut cur: Seq<int> = Seq::empty();
    let ghost mut done: Seq<Seq<int>> = Seq::empty();
    let mut line: Vec<Point> = Vec::new();
    let mut a: usize = 0;
    assert(target =~= done + target);
    while a < count
        invariant
            start <= end <= buf@.len(),
            count == end - start,
            columns@.len() == count,
            w == buf@.subrange(start as int, end as int),
            forall|c: i64| held@.contains(c) <==> #[trigger] columns@.contains(c),
            a <= count,
            target == done + cut_indices(w, columns@, a as int, cur),
            line@ == points_at(w, cur),
            lines@.len() == done.len(),
            forall|k: int| 0 <= k < done.len() ==> (#[trigger] lines@[k])@ == points_at(w, done[k]),
        decreases count - a,
    {
        let run: Run = scan_run(buf, start, columns, a);
        push_run(&mut line, buf, start, a, &run, Ghost(w));
        let ghost grown = cur + column_indices(w, a as int, run.end as int);
        assert(line@ =~= points_at(w, grown));
        if run.end < count && has_empty_between(&held, columns[run.end - 1], columns[run.end]) {
            assert(gap_before(columns@, run.end as int)) by {
                let (p, q) = (columns@[run.end - 1], columns@[run.end as int]);
                let c = choose|c: i64| !(#[trigger] held@.contains(c)) && between(p, c, q);
                assert(!columns@.contains(c));
            }
            lines.push(line);
            line = Vec::new();
            proof {
                assert(target =~= done.push(grown) + cut_indices(
                    w,
                    columns@,
                    run.end as int,
                    Seq::empty(),
                ));
                done = done.push(grown);
                cur = Seq::empty();
            }
            assert(line@ =~= points_at(w, cur));
        } else {
            assert(!gap_before(columns@, run.end as int));
            proof {
                cur = grown;
            }
        }
        a = run.end;
    }
    lines.push(line);
    proof {
        assert(target =~= done.push(cur));
        assert(lines@.map_values(|line: Vec<Point>| line@) =~= drawn(
            w,
            columns@,
            n_buckets as nat,
        ));
    }
    lines
}

/// Indices that grow.
pub open spec fn ascending(indices: Seq<int>) -> bool {
    forall|k: int, l: int|
        0 <= k < l < indices.len() ==> (#[trigger] indices[k]) < (#[trigger] indices[l])
}

/// The number of runs from `a` on: of columns that hold samples, for samples in
/// time order.
pub open spec fn run_count(cols: Seq<i64>, a: int) -> nat
    decreases cols.len() - a,
{
    let b = run_end(cols, a);
    if a < b <= cols.len() {
        1 + run_count(cols, b)
    } else {
        0
    }
}

/// `a..b` is a run of samples in one column.
pub open spec fn is_run(cols: Seq<i64>, a: int, b: int) -> bool {
    &&& 0 <= a < b <= cols.len()
    &&& forall|i: int| a <= i < b ==> #[trigger] cols[i] == cols[a]
    &&& a > 0 ==> cols[a - 1] != cols[a]
    &&& b < cols.len() ==> cols[b] != cols[a]
}

/// A run keeps one to four samples, in the order they have, its first, lowest,
/// highest and last among them.
pub proof fn column_keeps(w: Seq<Point>, a: int, b: int)
    requires
        a < b,
    ensures
        1 <= column_indices(w, a, b).len() <= POINTS_PER_COLUMN,
        ascending(column_indices(w, a, b)),
        column_indices(w, a, b).first() == a,
        column_indices(w, a, b).last() == b - 1,
        column_indices(w, a, b).contains(lowest(w, a, b)),
        column_indices(w, a, b).contains(highest(w, a, b)),
        forall|k: int|
            0 <= k < column_indices(w, a, b).len() ==> a <= (#[trigger] column_indices(w, a, b)[k]) < b,
{
    extremes_in_range(w, a, b);
    let lo = lowest(w, a, b);
    let hi = highest(w, a, b);
    let p = if lo <= hi { lo } else { hi };
    let q = if lo <= hi { hi } else { lo };
    let c = column_indices(w, a, b);
    let at_p: int = if p == a { 0 } else { 1 };
    let at_q: int = if q == p { at_p } else { at_p + 1 };
    assert(c[0] == a);
    assert(c[at_p] == p);
    assert(c[at_q] == q);
    assert(c[c.len() - 1] == b - 1);
}

/// The scans end on the first of the lowest, and of the highest, values of a
/// run.
pub proof fn extremes_are_first(w: Seq<Point>, a: int, b: int)
    requires
        a < b,
    ensures
        first_lowest(w, a, b, lowest(w, a, b)),
        first_highest(w, a, b, highest(w, a, b)),
    decreases b - a,
{
    if b > a + 1 {
        extremes_are_first(w, a, b - 1);
    }
}

proof fn extremes_are_one(w: Seq<Point>, a: int, b: int, lo: int, hi: int)
    requires
        first_lowest(w, a, b, lo),
        first_highest(w, a, b, hi),
    ensures
        lo == lowest(w, a, b),
        hi == highest(w, a, b),
{
    extremes_are_first(w, a, b);
    let (l, h) = (lowest(w, a, b), highest(w, a, b));
    assert(!w[lo].y.nan() ==> w[l].y.at_most(w[lo].y));
    assert(!w[l].y.nan() ==> w[lo].y.at_most(w[l].y));
    assert(!w[hi].y.nan() ==> w[hi].y.at_most(w[h].y));
    assert(!w[h].y.nan() ==> w[h].y.at_most(w[hi].y));
}

proof fn kept_from(w: Seq<Point>, cols: Seq<i64>, a: int)
    requires
        w.len() == cols.len(),
        0 <= a <= cols.len(),
    ensures
        ascending(kept_indices(w, cols, a)),
        forall|k: int|
            0 <= k < kept_indices(w, cols, a).len() ==> a <= (#[trigger] kept_indices(w, cols, a)[k])
                < cols.len(),
        kept_indices(w, cols, a).len() <= POINTS_PER_COLUMN * run_count(cols, a),
        a < cols.len() ==> kept_indices(w, cols, a).len() > 0 && kept_indices(w, cols, a).first() == a
            && kept_indices(w, cols, a).last() == cols.len() - 1,
    decreases cols.len() - a,
{
    if a < cols.len() {
        run_end_in_range(cols, a, a + 1);
        let b = run_end(cols, a);
        column_keeps(w, a, b);
        kept_from(w, cols, b);
        let c = column_indices(w, a, b);
        let rest = kept_indices(w, cols, b);
        let all = kept_indices(w, cols, a);
        assert(all == c + rest);
        assert forall|k: int| 0 <= k < all.len() implies a <= (#[trigger] all[k]) < cols.len() by {
            if k >= c.len() {
                assert(all[k] == rest[k - c.len()]);
            }
        }
        assert forall|k: int, l: int| 0 <= k < l < all.len() implies (#[trigger] all[k]) < (
        #[trigger] all[l]) by {
            if k >= c.len() {
                assert(all[k] == rest[k - c.len()]);
            }
            if l >= c.len() {
                assert(all[l] == rest[l - c.len()]);
            }
        }
    }
}

/// What is kept is in the order it had, starts with the first sample and ends
/// with the last, and is no more than four samples for each run in a column.
pub proof fn kept_in_order(w: Seq<Point>, cols: Seq<i64>)
    requires
        w.len() == cols.len(),
    ensures
        ascending(kept_indices(w, cols, 0)),
        forall|k: int|
            0 <= k < kept_indices(w, cols, 0).len() ==> 0 <= (#[trigger] kept_indices(w, cols, 0)[k])
                < w.len(),
        kept_indices(w, cols, 0).len() <= POINTS_PER_COLUMN * run_count(cols, 0),
        w.len() > 0 ==> kept_indices(w, cols, 0).len() > 0 && kept_indices(w, cols, 0).first() == 0
            && kept_indices(w, cols, 0).last() == w.len() - 1,
{
    kept_from(w, cols, 0);
}

proof fn runs_in_range(cols: Seq<i64>, a: int, top: int)
    requires
        0 <= a <= cols.len(),
        forall|i: int, j: int| 0 <= i <= j < cols.len() ==> (#[trigger] cols[i]) <= (#[trigger] cols[j]),
        forall|i: int| 0 <= i < cols.len() ==> (#[trigger] cols[i]) <= top,
    ensures
        a < cols.len() ==> run_count(cols, a) <= top - cols[a] + 1,
        a == cols.len() ==> run_count(cols, a) == 0,
    decreases cols.len() - a,
{
    if a < cols.len() {
        run_end_in_range(cols, a, a + 1);
        let b = run_end(cols, a);
        runs_in_range(cols, b, top);
        if b < cols.len() {
            assert(cols[a] <= cols[b]);
        }
    }
}

/// For samples in time order no more is kept than four samples for each column
/// between the first and the last.
pub proof fn kept_fits_the_columns(w: Seq<Point>, cols: Seq<i64>)
    requires
        w.len() == cols.len(),
        w.len() > 0,
        forall|i: int, j: int| 0 <= i <= j < cols.len() ==> (#[trigger] cols[i]) <= (#[trigger] cols[j]),
    ensures
        kept_indices(w, cols, 0).len() <= POINTS_PER_COLUMN * (cols.last() - cols.first() + 1),
{
    kept_from(w, cols, 0);
    runs_in_range(cols, 0, cols.last() as int);
}

proof fn spike_kept_from(w: Seq<Point>, cols: Seq<i64>, from: int, j: int) -> (r: (int, int))
    requires
        w.len() == cols.len(),
        0 <= from <= j < w.len(),
        !w[j].y.nan(),
    ensures
        kept_indices(w, cols, from).contains(r.0),
        kept_indices(w, cols, from).contains(r.1),
        0 <= r.0 < w.len(),
        0 <= r.1 < w.len(),
        cols[r.0] == cols[j],
        cols[r.1] == cols[j],
        w[r.0].y.at_most(w[j].y),
        w[j].y.at_most(w[r.1].y),
    decreases j - from,
{
    run_end_in_range(cols, from, from + 1);
    let b = run_end(cols, from);
    let c = column_indices(w, from, b);
    let rest = kept_indices(w, cols, b);
    assert(kept_indices(w, cols, from) == c + rest);
    if b <= j {
        let (k, l) = spike_kept_from(w, cols, b, j);
        let (at_k, at_l) = (rest.index_of(k), rest.index_of(l));
        assert((c + rest)[c.len() + at_k] == k);
        assert((c + rest)[c.len() + at_l] == l);
        (k, l)
    } else {
        column_keeps(w, from, b);
        extremes_are_first(w, from, b);
        let (k, l) = (lowest(w, from, b), highest(w, from, b));
        assert((c + rest)[c.index_of(k)] == k);
        assert((c + rest)[c.index_of(l)] == l);
        (k, l)
    }
}

/// Every spike stays visible: a number in a column is between two that are kept
/// of that column.
pub proof fn spikes_are_kept(w: Seq<Point>, cols: Seq<i64>, j: int)
    requires
        w.len() == cols.len(),
        0 <= j < w.len(),
        !w[j].y.nan(),
    ensures
        exists|k: int, l: int|
            {
                &&& #[trigger] kept_indices(w, cols, 0).contains(k)
                &&& #[trigger] kept_indices(w, cols, 0).contains(l)
                &&& cols[k] == cols[j] && cols[l] == cols[j]
                &&& w[k].y.at_most(w[j].y) && w[j].y.at_most(w[l].y)
            },
{
    let (k, l) = spike_kept_from(w, cols, 0, j);
}

proof fn kept_of_run(w: Seq<Point>, cols: Seq<i64>, from: int, a: int, b: int, i: int)
    requires
        w.len() == cols.len(),
        0 <= from <= a <= i < b,
        from > 0 ==> cols[from - 1] != cols[from],
        is_run(cols, a, b),
    ensures
        kept_indices(w, cols, from).contains(i) <==> column_indices(w, a, b).contains(i),
    decreases a - from,
{
    run_end_in_range(cols, from, from + 1);
    let e = run_end(cols, from);
    let c = column_indices(w, from, e);
    let rest = kept_indices(w, cols, e);
    let all = kept_indices(w, cols, from);
    assert(all == c + rest);
    column_keeps(w, from, e);
    kept_from(w, cols, e);
    if e <= a {
        kept_of_run(w, cols, e, a, b, i);
        if all.contains(i) {
            let k = all.index_of(i);
            assert(k >= c.len());
            assert(rest[k - c.len()] == i);
        }
        if rest.contains(i) {
            assert(all[c.len() + rest.index_of(i)] == i);
        }
    } else {
        assert(from == a) by {
            if from < a {
                assert(cols[a - 1] == cols[from] && cols[a] == cols[from]);
            }
        }
        assert(e == b) by {
            if e < b {
                assert(cols[e] == cols[a]);
            }
            if b < e {
                assert(cols[b] == cols[a]);
            }
        }
        if all.contains(i) {
            let k = all.index_of(i);
            if k >= c.len() {
                assert(all[k] == rest[k - c.len()]);
            } else {
                assert(c[k] == i);
            }
        }
        if c.contains(i) {
            assert(all[c.index_of(i)] == i);
        }
    }
}

proof fn column_moves(w: Seq<Point>, v: Seq<Point>, a: int, b: int, by: int)
    requires
        a < b,
        forall|i: int| a <= i < b ==> #[trigger] w[i] == v[i + by],
    ensures
        lowest(v, a + by, b + by) == lowest(w, a, b) + by,
        highest(v, a + by, b + by) == highest(w, a, b) + by,
    decreases b - a,
{
    if b > a + 1 {
        column_moves(w, v, a, b - 1, by);
        extremes_in_range(w, a, b - 1);
        assert(w[b - 1] == v[b - 1 + by]);
        assert(w[lowest(w, a, b - 1)] == v[lowest(w, a, b - 1) + by]);
        assert(w[highest(w, a, b - 1)] == v[highest(w, a, b - 1) + by]);
    }
}

/// What is kept of a run in a column depends on the samples of that run alone:
/// where the run stands in another series, `by` places further on, the same
/// samples of it are kept there, whatever is around it.
pub proof fn columns_are_decimated_alone(
    w: Seq<Point>,
    cols: Seq<i64>,
    v: Seq<Point>,
    v_cols: Seq<i64>,
    a: int,
    b: int,
    by: int,
    i: int,
)
    requires
        w.len() == cols.len(),
        v.len() == v_cols.len(),
        is_run(cols, a, b),
        is_run(v_cols, a + by, b + by),
        forall|j: int| a <= j < b ==> #[trigger] w[j] == v[j + by],
        a <= i < b,
    ensures
        kept_indices(w, cols, 0).contains(i) <==> kept_indices(v, v_cols, 0).contains(i + by),
{
    kept_of_run(w, cols, 0, a, b, i);
    kept_of_run(v, v_cols, 0, a + by, b + by, i + by);
    column_moves(w, v, a, b, by);
    let c = column_indices(w, a, b);
    let d = column_indices(v, a + by, b + by);
    assert(d =~= Seq::new(c.len(), |k: int| c[k] + by));
    if c.contains(i) {
        assert(d[c.index_of(i)] == i + by);
    }
    if d.contains(i + by) {
        assert(c[d.index_of(i + by)] == i);
    }
}

/// The indices `from..from + n`.
pub open spec fn counted(from: int, n: nat) -> Seq<int> {
    Seq::new(n, |k: int| from + k)
}

/// The kept samples of a run, by themselves, are all kept.
proof fn column_again(w: Seq<Point>, a: int, b: int, d: Seq<Point>, p: int)
    requires
        a < b,
        forall|k: int|
            0 <= k < column_indices(w, a, b).len() ==> d[p + k] == w[#[trigger] column_indices(w, a, b)[k]],
    ensures
        column_indices(d, p, p + column_indices(w, a, b).len()) == counted(p, column_indices(w, a, b).len()),
{
    let c = column_indices(w, a, b);
    let n = c.len();
    column_keeps(w, a, b);
    extremes_are_first(w, a, b);
    let (lo, hi) = (lowest(w, a, b), highest(w, a, b));
    let at_lo = c.index_of(lo);
    let at_hi = c.index_of(hi);
    assert(c[0] == a);
    assert forall|j: int| p <= j < p + n implies #[trigger] d[j] == w[c[j - p]] by {
        assert(d[p + (j - p)] == w[c[j - p]]);
    }
    assert(first_lowest(d, p, p + n, p + at_lo));
    assert(first_highest(d, p, p + n, p + at_hi));
    extremes_are_one(d, p, p + n, p + at_lo, p + at_hi);
    assert(column_indices(d, p, p + n) =~= counted(p, n));
}

proof fn kept_again(w: Seq<Point>, cols: Seq<i64>, a: int, d: Seq<Point>, d_cols: Seq<i64>, p: int)
    requires
        w.len() == cols.len(),
        0 <= a <= cols.len(),
        0 <= p,
        d.len() == d_cols.len(),
        d.len() == p + kept_indices(w, cols, a).len(),
        forall|k: int|
            0 <= k < kept_indices(w, cols, a).len() ==> d[p + k] == w[#[trigger] kept_indices(w, cols, a)[k]]
                && d_cols[p + k] == cols[kept_indices(w, cols, a)[k]],
    ensures
        kept_indices(d, d_cols, p) == counted(p, kept_indices(w, cols, a).len()),
    decreases cols.len() - a,
{
    let all = kept_indices(w, cols, a);
    if a < cols.len() {
        run_end_in_range(cols, a, a + 1);
        let b = run_end(cols, a);
        let c = column_indices(w, a, b);
        let rest = kept_indices(w, cols, b);
        column_keeps(w, a, b);
        kept_from(w, cols, b);
        assert(all == c + rest);
        let n = c.len();
        assert forall|k: int| 0 <= k < n implies d[p + k] == w[#[trigger] c[k]] && d_cols[p + k] == cols[a] by {
            assert(all[k] == c[k]);
        }
        assert forall|k: int| 0 <= k < rest.len() implies d[p + n + k] == w[#[trigger] rest[k]] && d_cols[p + n + k]
            == cols[rest[k]] by {
            assert(all[n + k] == rest[k]);
        }
        assert(c[0] == a);
        assert(d_cols[p] == cols[a]);
        assert forall|j: int| p <= j < p + n implies d_cols[j] == d_cols[p] by {
            assert(c[j - p] == all[j - p]);
        }
        if p + n < d.len() {
            assert(rest[0] == b);
            assert(d_cols[p + n + 0] == cols[b]);
        }
        run_end_is(d_cols, p, p + 1, p + n as int);
        column_again(w, a, b, d, p);
        kept_again(w, cols, b, d, d_cols, p + n as int);
        assert(kept_indices(d, d_cols, p) =~= counted(p, all.len()));
    } else {
        assert(kept_indices(d, d_cols, p) =~= counted(p, all.len()));
    }
}

proof fn run_end_is(cols: Seq<i64>, a: int, from: int, b: int)
    requires
        0 <= a < from <= b <= cols.len(),
        forall|i: int| a <= i < b ==> cols[i] == cols[a],
        b < cols.len() ==> cols[b] != cols[a],
    ensures
        other_column(cols, a, from) == b,
    decreases b - from,
{
    if from < b {
        run_end_is(cols, a, from + 1, b);
    }
}

/// The columns of the samples that decimation leaves.
pub open spec fn decimated_columns(w: Seq<Point>, cols: Seq<i64>, n_buckets: nat) -> Seq<i64> {
    if all_kept(w, n_buckets) {
        cols
    } else {
        let kept = kept_indices(w, cols, 0);
        Seq::new(kept.len(), |k: int| cols[kept[k]])
    }
}

/// Decimating what decimation left changes nothing.
pub proof fn decimating_twice_changes_nothing(w: Seq<Point>, cols: Seq<i64>, n_buckets: nat)
    requires
        w.len() == cols.len(),
    ensures
        decimated(decimated(w, cols, n_buckets), decimated_columns(w, cols, n_buckets), n_buckets) == decimated(
            w,
            cols,
            n_buckets,
        ),
{
    let d = decimated(w, cols, n_buckets);
    let d_cols = decimated_columns(w, cols, n_buckets);
    if !all_kept(w, n_buckets) {
        kept_again(w, cols, 0, d, d_cols, 0);
        assert(points_at(d, kept_indices(d, d_cols, 0)) =~= d);
    }
}

proof fn cut_flattens(w: Seq<Point>, cols: Seq<i64>, a: int, cur: Seq<int>)
    requires
        0 <= a <= cols.len(),
    ensures
        cut_indices(w, cols, a, cur).flatten() == cur + kept_indices(w, cols, a),
    decreases cols.len() - a,
{
    if a < cols.len() {
        run_end_in_range(cols, a, a + 1);
        let b = run_end(cols, a);
        let grown = cur + column_indices(w, a, b);
        assert(cur + kept_indices(w, cols, a) =~= grown + kept_indices(w, cols, b));
        if gap_before(cols, b) {
            let rest = cut_indices(w, cols, b, Seq::empty());
            cut_flattens(w, cols, b, Seq::empty());
            let all = seq![grown] + rest;
            assert(all.drop_first() =~= rest);
            assert(all.first() == grown);
            assert(Seq::<int>::empty() + kept_indices(w, cols, b) =~= kept_indices(w, cols, b));
        } else {
            cut_flattens(w, cols, b, grown);
        }
    } else {
        let all = seq![cur];
        assert(all.drop_first() =~= Seq::<Seq<int>>::empty());
        assert(all.first() == cur);
        assert(Seq::<Seq<int>>::empty().flatten() =~= Seq::<int>::empty());
        assert(all.flatten() == cur + all.drop_first().flatten());
        assert(all.flatten() =~= cur);
        assert(kept_indices(w, cols, a) =~= Seq::<int>::empty());
        assert(cur + kept_indices(w, cols, a) =~= cur);
    }
}

/// The lines hold, one after the other, exactly what is kept.
pub proof fn lines_hold_what_is_kept(w: Seq<Point>, cols: Seq<i64>)
    ensures
        cut_indices(w, cols, 0, Seq::empty()).flatten() == kept_indices(w, cols, 0),
{
    cut_flattens(w, cols, 0, Seq::empty());
    assert(Seq::<int>::empty() + kept_indices(w, cols, 0) =~= kept_indices(w, cols, 0));
}

proof fn points_of_pieces(w: Seq<Point>, pieces: Seq<Seq<int>>)
    ensures
        Seq::new(pieces.len(), |k: int| points_at(w, pieces[k])).flatten() == points_at(w, pieces.flatten()),
    decreases pieces.len(),
{
    let mapped = Seq::new(pieces.len(), |k: int| points_at(w, pieces[k]));
    if pieces.len() == 0 {
        assert(mapped.flatten() =~= points_at(w, pieces.flatten()));
    } else {
        let rest = pieces.drop_first();
        points_of_pieces(w, rest);
        assert(mapped.drop_first() =~= Seq::new(rest.len(), |k: int| points_at(w, rest[k])));
        assert(mapped.flatten() =~= points_at(w, pieces.flatten()));
    }
}

/// The lines, one after the other, are the decimated samples.
pub proof fn lines_are_the_decimated(w: Seq<Point>, cols: Seq<i64>, n_buckets: nat)
    ensures
        drawn(w, cols, n_buckets).flatten() == decimated(w, cols, n_buckets),
{
    if all_kept(w, n_buckets) {
        let all = seq![w];
        assert(all.drop_first() =~= Seq::<Seq<Point>>::empty());
        assert(Seq::<Seq<Point>>::empty().flatten() =~= Seq::<Point>::empty());
        assert(all.flatten() =~= w);
    } else {
        lines_hold_what_is_kept(w, cols);
        points_of_pieces(w, cut_indices(w, cols, 0, Seq::empty()));
    }
}

/// Every column between those of the samples at `i` and `j` holds a sample.
pub open spec fn no_gap(cols: Seq<i64>, i: int, j: int) -> bool {
    forall|c: i64| between(cols[i], c, cols[j]) ==> #[trigger] cols.contains(c)
}

/// Every column between those of two neighbours holds a sample.
pub open spec fn gapless(cols: Seq<i64>, indices: Seq<int>) -> bool {
    forall|k: int, l: int|
        0 <= k && k + 1 == l && l < indices.len() ==> #[trigger] no_gap(cols, indices[k], indices[l])
}

proof fn run_goes_on(cols: Seq<i64>, cur: Seq<int>, c: Seq<int>, a: int, b: int)
    requires
        0 <= a < b <= cols.len(),
        gapless(cols, cur),
        cur.len() > 0 ==> a > 0 && cols[cur.last()] == cols[a - 1] && !gap_before(cols, a),
        c.len() > 0,
        c.first() == a,
        forall|k: int| 0 <= k < c.len() ==> a <= (#[trigger] c[k]) < b,
        forall|i: int| a <= i < b ==> cols[i] == cols[a],
    ensures
        gapless(cols, cur + c),
{
    let grown = cur + c;
    assert forall|k: int, l: int| 0 <= k && k + 1 == l && l < grown.len() implies #[trigger] no_gap(
        cols,
        grown[k],
        grown[l],
    ) by {
        if l < cur.len() {
            assert(no_gap(cols, cur[k], cur[l]));
        } else if k >= cur.len() {
            assert(grown[k] == c[k - cur.len()] && grown[l] == c[l - cur.len()]);
        } else {
            assert(grown[k] == cur.last() && grown[l] == a);
        }
    }
}

#[verifier::spinoff_prover]
proof fn cut_gapless(w: Seq<Point>, cols: Seq<i64>, a: int, cur: Seq<int>)
    requires
        0 <= a <= cols.len(),
        gapless(cols, cur),
        cur.len() > 0 && a < cols.len() ==> a > 0 && cols[cur.last()] == cols[a - 1] && !gap_before(cols, a),
    ensures
        forall|s: int|
            0 <= s < cut_indices(w, cols, a, cur).len() ==> gapless(cols, #[trigger] cut_indices(w, cols, a, cur)[s]),
    decreases cols.len() - a,
{
    let all = cut_indices(w, cols, a, cur);
    if a < cols.len() {
        run_end_in_range(cols, a, a + 1);
        let b = run_end(cols, a);
        let c = column_indices(w, a, b);
        column_keeps(w, a, b);
        let grown = cur + c;
        run_goes_on(cols, cur, c, a, b);
        assert(grown.last() == b - 1);
        if gap_before(cols, b) {
            let rest = cut_indices(w, cols, b, Seq::empty());
            cut_gapless(w, cols, b, Seq::empty());
            assert(all == seq![grown] + rest);
            assert forall|s: int| 0 <= s < all.len() implies gapless(cols, #[trigger] all[s]) by {
                if s > 0 {
                    assert(all[s] == rest[s - 1]);
                }
            }
        } else {
            cut_gapless(w, cols, b, grown);
            assert(all == cut_indices(w, cols, b, grown));
        }
    } else {
        assert(all == seq![cur]);
        assert(all[0] == cur);
    }
}

/// No line runs over a column that holds no sample, forward or back.
pub proof fn no_line_over_a_gap(w: Seq<Point>, cols: Seq<i64>)
    ensures
        forall|s: int|
            0 <= s < cut_indices(w, cols, 0, Seq::empty()).len() ==> gapless(
                cols,
                #[trigger] cut_indices(w, cols, 0, Seq::empty())[s],
            ),
{
    cut_gapless(w, cols, 0, Seq::empty());
}

/// Piece `t` follows on piece `s`, over a gap.
pub open spec fn parted(cols: Seq<i64>, s: Seq<int>, t: Seq<int>) -> bool {
    &&& s.len() > 0 && t.len() > 0
    &&& t.first() == s.last() + 1
    &&& gap_before(cols, t.first())
}

proof fn cut_at_gaps(w: Seq<Point>, cols: Seq<i64>, a: int, cur: Seq<int>)
    requires
        0 <= a <= cols.len(),
    ensures
        cut_indices(w, cols, a, cur).len() > 0,
        cur.len() > 0 ==> cut_indices(w, cols, a, cur)[0].len() > 0 && cut_indices(w, cols, a, cur)[0].first()
            == cur.first(),
        cur.len() == 0 && a < cols.len() ==> cut_indices(w, cols, a, cur)[0].len() > 0 && cut_indices(
            w,
            cols,
            a,
            cur,
        )[0].first() == a,
        forall|s: int, t: int|
            0 <= s && s + 1 == t && t < cut_indices(w, cols, a, cur).len() ==> #[trigger] parted(
                cols,
                cut_indices(w, cols, a, cur)[s],
                cut_indices(w, cols, a, cur)[t],
            ),
    decreases cols.len() - a,
{
    let all = cut_indices(w, cols, a, cur);
    if a < cols.len() {
        run_end_in_range(cols, a, a + 1);
        let b = run_end(cols, a);
        column_keeps(w, a, b);
        let grown = cur + column_indices(w, a, b);
        if gap_before(cols, b) {
            let rest = cut_indices(w, cols, b, Seq::empty());
            cut_at_gaps(w, cols, b, Seq::empty());
            assert(all == seq![grown] + rest);
            assert forall|s: int, t: int| 0 <= s && s + 1 == t && t < all.len() implies #[trigger] parted(
                cols,
                all[s],
                all[t],
            ) by {
                assert(all[t] == rest[t - 1]);
                if s > 0 {
                    assert(all[s] == rest[s - 1]);
                    assert(parted(cols, rest[s - 1], rest[t - 1]));
                }
            }
        } else {
            cut_at_gaps(w, cols, b, grown);
        }
    }
}

/// A line ends only where the next sample is over a gap.
pub proof fn lines_end_at_gaps(w: Seq<Point>, cols: Seq<i64>)
    ensures
        forall|s: int, t: int|
            0 <= s && s + 1 == t && t < cut_indices(w, cols, 0, Seq::empty()).len() ==> #[trigger] parted(
                cols,
                cut_indices(w, cols, 0, Seq::empty())[s],
                cut_indices(w, cols, 0, Seq::empty())[t],
            ),
{
    cut_at_gaps(w, cols, 0, Seq::empty());
}

/// Every spike stays visible in what is drawn: whatever the number of columns, a
/// number is between two of its own column that decimation leaves.
pub proof fn spikes_stay_visible(w: Seq<Point>, cols: Seq<i64>, n_buckets: nat, j: int)
    requires
        w.len() == cols.len(),
        0 <= j < w.len(),
        !w[j].y.nan(),
    ensures
        exists|k: int, l: int|
            {
                &&& 0 <= k < w.len() && 0 <= l < w.len()
                &&& cols[k] == cols[j] && cols[l] == cols[j]
                &&& !w[j].y.less(w[k].y) && !w[k].y.nan()
                &&& !w[l].y.less(w[j].y) && !w[l].y.nan()
                &&& decimated(w, cols, n_buckets).contains(#[trigger] w[k])
                &&& decimated(w, cols, n_buckets).contains(#[trigger] w[l])
            },
{
    let d = decimated(w, cols, n_buckets);
    if all_kept(w, n_buckets) {
        assert(d.contains(w[j]));
    } else {
        let kept = kept_indices(w, cols, 0);
        let (k, l) = spike_kept_from(w, cols, 0, j);
        assert(d[kept.index_of(k)] == w[k]);
        assert(d[kept.index_of(l)] == w[l]);
        assert(d.contains(w[k]) && d.contains(w[l]));
    }
}

proof fn column_holds(w: Seq<Point>, a: int, b: int, i: int)
    requires
        a <= i < b,
    ensures
        column_indices(w, a, b).contains(i) <==> i == a || i == b - 1 || i == lowest(w, a, b) || i == highest(w, a, b),
{
    let c = column_indices(w, a, b);
    column_keeps(w, a, b);
    assert(c[0] == a);
    assert(c[c.len() - 1] == b - 1);
    if c.contains(i) {
        let k = c.index_of(i);
        assert(c[k] == i);
    }
}

/// The indices of the samples that decimation leaves.
pub open spec fn picked(w: Seq<Point>, cols: Seq<i64>, n_buckets: nat) -> Seq<int> {
    if all_kept(w, n_buckets) {
        counted(0, w.len())
    } else {
        kept_indices(w, cols, 0)
    }
}

/// Decimation picks samples and keeps their order. Where there are no more than
/// four for each of the columns asked for, or no columns are asked for, it picks
/// all.
pub proof fn decimation_picks(w: Seq<Point>, cols: Seq<i64>, n_buckets: nat)
    requires
        w.len() == cols.len(),
    ensures
        decimated(w, cols, n_buckets) == picked(w, cols, n_buckets).map_values(|i: int| w[i]),
        forall|k: int|
            0 <= k < picked(w, cols, n_buckets).len() ==> 0 <= #[trigger] picked(w, cols, n_buckets)[k] < w.len(),
        forall|k: int, l: int|
            0 <= k < l < picked(w, cols, n_buckets).len() ==> #[trigger] picked(w, cols, n_buckets)[k]
                < #[trigger] picked(w, cols, n_buckets)[l],
        n_buckets == 0 || w.len() <= 4 * n_buckets ==> decimated(w, cols, n_buckets) == w,
{
    if !(n_buckets == 0 || w.len() <= 4 * n_buckets) {
        kept_in_order(w, cols);
    }
    assert(decimated(w, cols, n_buckets) =~= picked(w, cols, n_buckets).map_values(|i: int| w[i]));
}

/// Where it does not pick all, decimation picks of each run `a..b` of samples in
/// one column the first, the last, the first of the lowest and the first of the
/// highest, and no other, whatever the number of columns asked for.
pub proof fn decimation_picks_of_a_run(w: Seq<Point>, cols: Seq<i64>, n_buckets: nat, a: int, b: int, i: int)
    requires
        w.len() == cols.len(),
        n_buckets > 0 && w.len() > 4 * n_buckets,
        0 <= a <= i < b <= cols.len(),
        forall|j: int| a <= j < b ==> cols[j] == cols[i],
        a == 0 || cols[a - 1] != cols[i],
        b == cols.len() || cols[b] != cols[i],
    ensures
        picked(w, cols, n_buckets).contains(i) <==> {
            ||| i == a
            ||| i == b - 1
            ||| !w[i].y.nan() && forall|j: int|
                a <= j < b && !(#[trigger] w[j]).y.nan() ==> !w[j].y.less(w[i].y) && (j < i ==> w[i].y.less(w[j].y))
            ||| !w[i].y.nan() && forall|j: int|
                a <= j < b && !(#[trigger] w[j]).y.nan() ==> !w[i].y.less(w[j].y) && (j < i ==> w[j].y.less(w[i].y))
        },
{
    assert(cols[a] == cols[i]);
    kept_of_run(w, cols, 0, a, b, i);
    column_holds(w, a, b, i);
    extremes_are_first(w, a, b);
    let (lo, hi) = (lowest(w, a, b), highest(w, a, b));
    assert(!w[i].y.nan() ==> w[lo].y.at_most(w[i].y) && w[i].y.at_most(w[hi].y));
    if !w[i].y.nan() && forall|j: int|
        a <= j < b && !(#[trigger] w[j]).y.nan() ==> !w[j].y.less(w[i].y) && (j < i ==> w[i].y.less(w[j].y)) {
        assert(!w[lo].y.nan());
        assert(i == lo);
    }
    if !w[i].y.nan() && forall|j: int|
        a <= j < b && !(#[trigger] w[j]).y.nan() ==> !w[i].y.less(w[j].y) && (j < i ==> w[j].y.less(w[i].y)) {
        assert(!w[hi].y.nan());
        assert(i == hi);
    }
}

/// The lines go through the decimated samples, one line after the other. Where
/// all samples are kept there is one line. Elsewhere a line goes on from one
/// sample to the next that is left where every column between theirs holds a
/// sample, and ends where one of these columns is empty.
pub proof fn lines_are_cut_at_gaps(w: Seq<Point>, cols: Seq<i64>, n_buckets: nat)
    requires
        w.len() == cols.len(),
    ensures
        drawn(w, cols, n_buckets).flatten() == decimated(w, cols, n_buckets),
        n_buckets == 0 || w.len() <= 4 * n_buckets ==> drawn(w, cols, n_buckets) == seq![w],
        n_buckets > 0 && w.len() > 4 * n_buckets ==> exists|pieces: Seq<Seq<int>>|
            {
                &&& #[trigger] pieces.len() == drawn(w, cols, n_buckets).len()
                &&& forall|s: int|
                    0 <= s < pieces.len() ==> (#[trigger] pieces[s]).len() > 0 && drawn(w, cols, n_buckets)[s]
                        == pieces[s].map_values(|i: int| w[i])
                &&& forall|s: int, k: int, l: int, c: i64|
                    #![trigger pieces[s][k], pieces[s][l], cols.contains(c)]
                    0 <= s < pieces.len() && 0 <= k && k + 1 == l && l < pieces[s].len() && (cols[pieces[s][k]] < c
                        < cols[pieces[s][l]] || cols[pieces[s][l]] < c < cols[pieces[s][k]]) ==> cols.contains(c)
                &&& forall|s: int, t: int|
                    #![trigger pieces[s], pieces[t]]
                    0 <= s && s + 1 == t && t < pieces.len() ==> pieces[t][0] == pieces[s].last() + 1 && exists|c: i64|
                        !(#[trigger] cols.contains(c)) && (cols[pieces[s].last()] < c < cols[pieces[t][0]]
                            || cols[pieces[t][0]] < c < cols[pieces[s].last()])
            },
{
    lines_are_the_decimated(w, cols, n_buckets);
    if n_buckets > 0 && w.len() > 4 * n_buckets {
        let lines = drawn(w, cols, n_buckets);
        let pieces = cut_indices(w, cols, 0, Seq::empty());
        assert(pieces.len() == lines.len());
        cut_gapless(w, cols, 0, Seq::empty());
        cut_at_gaps(w, cols, 0, Seq::empty());
        assert forall|s: int| 0 <= s < pieces.len() implies (#[trigger] pieces[s]).len() > 0 && lines[s]
            == pieces[s].map_values(|i: int| w[i]) by {
            if s + 1 < pieces.len() {
                assert(parted(cols, pieces[s], pieces[s + 1]));
            }
            if s > 0 {
                assert(parted(cols, pieces[s - 1], pieces[s]));
            }
            assert(lines[s] =~= pieces[s].map_values(|i: int| w[i]));
        }
        assert forall|s: int, k: int, l: int, c: i64|
            #![trigger pieces[s][k], pieces[s][l], cols.contains(c)]
            0 <= s < pieces.len() && 0 <= k && k + 1 == l && l < pieces[s].len() && (cols[pieces[s][k]] < c
                < cols[pieces[s][l]] || cols[pieces[s][l]] < c < cols[pieces[s][k]]) implies cols.contains(c) by {
            assert(gapless(cols, pieces[s]));
            assert(no_gap(cols, pieces[s][k], pieces[s][l]));
            assert(between(cols[pieces[s][k]], c, cols[pieces[s][l]]));
        }
        assert forall|s: int, t: int|
            #![trigger pieces[s], pieces[t]]
            0 <= s && s + 1 == t && t < pieces.len() implies pieces[t][0] == pieces[s].last() + 1 && exists|c: i64|
            !(#[trigger] cols.contains(c)) && (cols[pieces[s].last()] < c < cols[pieces[t][0]] || cols[pieces[t][0]] < c
                < cols[pieces[s].last()]) by {
            assert(parted(cols, pieces[s], pieces[t]));
            let b = pieces[t].first();
            let c = choose|c: i64| !(#[trigger] cols.contains(c)) && between(cols[b - 1], c, cols[b]);
            assert(!cols.contains(c));
        }
    }
}

/// Decimation leaves samples in time order where they were.
pub proof fn decimated_in_time_order(w: Seq<Point>, cols: Seq<i64>, n_buckets: nat)
    requires
        w.len() == cols.len(),
        in_time_order(w),
    ensures
        in_time_order(decimated(w, cols, n_buckets)),
        decimated(w, cols, n_buckets).len() <= w.len(),
{
    if !all_kept(w, n_buckets) {
        let kept = kept_indices(w, cols, 0);
        kept_in_order(w, cols);
        let d = decimated(w, cols, n_buckets);
        assert forall|i: int| 0 <= i < d.len() implies !(#[trigger] d[i]).x.nan() by {
            assert(d[i] == w[kept[i]]);
        }
        assert forall|i: int, j: int| 0 <= i <= j < d.len() implies (#[trigger] d[i]).x.rank() <= (
        #[trigger] d[j]).x.rank() by {
            assert(d[i] == w[kept[i]] && d[j] == w[kept[j]]);
        }
        ascending_fits(kept, w.len() as int);
    }
}

proof fn ascending_fits(indices: Seq<int>, n: int)
    requires
        ascending(indices),
        0 <= n,
        forall|k: int| 0 <= k < indices.len() ==> 0 <= (#[trigger] indices[k]) < n,
    ensures
        indices.len() <= n,
    decreases indices.len(),
{
    if indices.len() > 0 {
        let rest = indices.drop_last();
        let last = indices.last();
        assert(0 <= indices[indices.len() - 1] < n);
        assert forall|k: int| 0 <= k < rest.len() implies 0 <= (#[trigger] rest[k]) < last by {
            assert(rest[k] == indices[k]);
            assert(indices[k] < indices[indices.len() - 1]);
        }
        ascending_fits(rest, last);
    }
}

} // verus!
