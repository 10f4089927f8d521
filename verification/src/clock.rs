//! Time axis texts and grid steps.
//!
//! A time is a number of seconds since the Unix epoch, an offset the seconds
//! that local time is ahead of UTC.

use vstd::arithmetic::div_mod::{
    lemma_fundamental_div_mod, lemma_fundamental_div_mod_converse, lemma_mod_bound,
};
use vstd::prelude::*;
use crate::number::Number;

verus! {

/// The seconds of a day.
pub const DAY: i64 = 86400;

/// The earliest and the latest second that has a date.
pub const FIRST_SECOND: i64 = -8334601228800;

pub const LAST_SECOND: i64 = 8210266876799;

/// `86400.0`, `60.0`, `1e-5` and `4.0`.
pub const DAY_SPAN: u64 = 0x40f5_1800_0000_0000;

pub const MINUTE_STEP: u64 = 0x404e_0000_0000_0000;

pub const ON_MARK: u64 = 0x3ee4_f8b5_88e3_68f1;

pub const MARKS_AT_LEAST: u64 = 0x4010_0000_0000_0000;

/// The number of major grid steps to choose from.
pub const STEPS: usize = 18;

pub open spec fn digit(n: int) -> char {
    (n + '0' as int) as char
}

/// Two decimal digits.
pub open spec fn two(n: int) -> Seq<char> {
    seq![digit(n / 10), digit(n % 10)]
}

/// A second and nanoseconds that make a date and time: nanoseconds of a second,
/// or of the leap second after the last second of a minute.
pub open spec fn is_time(secs: int, nanos: int) -> bool {
    &&& FIRST_SECOND <= secs <= LAST_SECOND
    &&& nanos < 1_000_000_000 || (nanos < 2_000_000_000 && secs % 60 == 59)
}

pub open spec fn leap_year(y: int) -> bool {
    y % 4 == 0 && (y % 100 != 0 || y % 400 == 0)
}

pub open spec fn month_length(y: int, m: int) -> int {
    if m == 2 {
        if leap_year(y) { 29 } else { 28 }
    } else if m == 4 || m == 6 || m == 9 || m == 11 {
        30
    } else {
        31
    }
}

/// The days of a year before its month `m`.
pub open spec fn days_before_month(y: int, m: int) -> int
    decreases m,
{
    if m <= 1 {
        0
    } else {
        days_before_month(y, m - 1) + month_length(y, m - 1)
    }
}

/// The days from the start of 1970 to the start of the year `y`: a leap day for
/// each leap year before it but the 477 of the years 1 to 1969.
pub open spec fn days_before_year(y: int) -> int {
    let p = y - 1;
    365 * (y - 1970) + (p / 4 - p / 100 + p / 400) - 477
}

/// The `d`-th of the month `m` of the year `y` is `days` days after the epoch's.
pub open spec fn is_date(days: int, y: int, m: int, d: int) -> bool {
    &&& 1 <= m <= 12
    &&& 1 <= d <= month_length(y, m)
    &&& days == days_before_year(y) + days_before_month(y, m) + d - 1
}

/// Hours and minutes of the day.
pub open spec fn hours_minutes(local: int) -> Seq<char> {
    two(local % DAY as int / 3600) + seq![':'] + two(local % 3600 / 60)
}

/// `text` is what `pattern` writes of a time.
pub open spec fn shows(pattern: Seq<char>, secs: int, nanos: int, offset: int, text: Seq<char>) -> bool {
    let local = secs + offset;
    &&& pattern == "%H:%M:%S"@ ==> text == hours_minutes(local) + seq![':'] + two(
        local % 60 + nanos / 1_000_000_000,
    )
    &&& pattern == "%H:%M"@ ==> text == hours_minutes(local)
    &&& pattern == "%m/%d %H:%M"@ ==> exists|y: int, m: int, d: int|
        #[trigger] is_date(local / DAY as int, y, m, d) && text == two(m) + seq!['/'] + two(d) + seq![' ']
            + hours_minutes(local)
}

pub open spec fn known_pattern(pattern: Seq<char>) -> bool {
    pattern == "%H:%M:%S"@ || pattern == "%H:%M"@ || pattern == "%m/%d %H:%M"@
}

/// Writes a time with `chrono`: `DateTime::from_timestamp`, then
/// `with_timezone` to a `FixedOffset` and `format`. There is a text for the
/// seconds that have a date in chrono's calendar, with nanoseconds of that
/// second or of a leap second after it. Hours, minutes and seconds are those of
/// the shifted time, on two digits; month and day are those of its date in the
/// Gregorian calendar.
#[verifier::external_body]
fn chrono_format(secs: i64, nanos: u32, offset: i32, pattern: &str) -> (text: Option<String>)
    requires
        -DAY < offset < DAY,
        known_pattern(pattern@),
    ensures
        text is Some <==> is_time(secs as int, nanos as int),
        text matches Some(t) ==> shows(pattern@, secs as int, nanos as int, offset as int, t@),
{
    let zone = chrono::FixedOffset::east_opt(offset)?;
    let time = chrono::DateTime::from_timestamp(secs, nanos)?;
    Some(time.with_timezone(&zone).format(pattern).to_string())
}

/// Looks the offset of local time at a second up with `chrono`:
/// `DateTime::from_timestamp`, then `with_timezone` to `Local`. There is one for
/// the seconds that have a date in chrono's calendar, and it is less than a day.
/// Which one it is depends on the machine's time zone, and is not stated.
#[verifier::external_body]
fn chrono_local_offset(secs: i64) -> (offset: Option<i32>)
    ensures
        offset is Some <==> is_time(secs as int, 0),
        offset matches Some(o) ==> -DAY < o < DAY,
{
    let time = chrono::DateTime::from_timestamp(secs, 0)?;
    Some(time.with_timezone(&chrono::Local).offset().local_minus_utc())
}

/// `found` is an outcome of looking the offset of local time at a second up.
pub closed spec fn looked_up(secs: i64, found: Option<i32>) -> bool {
    call_ensures(chrono_local_offset, (secs,), found)
}

/// The offset that was found, or none at all.
pub fn offset_or_zero(found: Option<i32>) -> (offset: i32)
    ensures
        found matches Some(o) ==> offset == o,
        found is None ==> offset == 0,
{
    match found {
        Some(offset) => offset,
        None => 0,
    }
}

/// The offset of local time at a second: what the lookup finds, and none for a
/// second without a date.
///
/// Which offset a second with a date has is up to the machine's time zone.
pub fn local_offset(secs: i64) -> (offset: i32)
    ensures
        exists|found: Option<i32>| #[trigger]
            looked_up(secs, found) && offset == (match found {
                Some(o) => o,
                None => 0i32,
            }),
        -DAY < offset < DAY,
        !is_time(secs as int, 0) ==> offset == 0,
{
    let found: Option<i32> = chrono_local_offset(secs);
    assert(looked_up(secs, found));
    offset_or_zero(found)
}

/// The text of a position on the time axis: its clock time at an offset, or,
/// where it is not a time, `plain`.
///
/// `secs` and `nanos` are the position as a time, `plain` is it as a number.
pub fn format_x_val_at(is_ts: bool, secs: i64, nanos: u32, offset: i32, plain: String) -> (r: String)
    requires
        -DAY < offset < DAY,
    ensures
        is_ts && is_time(secs as int, nanos as int) ==> shows(
            "%H:%M:%S"@,
            secs as int,
            nanos as int,
            offset as int,
            r@,
        ),
        !(is_ts && is_time(secs as int, nanos as int)) ==> r == plain,
{
    if is_ts {
        if let Some(text) = chrono_format(secs, nanos, offset, "%H:%M:%S") {
            return text;
        }
    }
    plain
}

/// The text of a position on the time axis: its local clock time, or, where it
/// is not a time, `plain`.
pub fn format_x_val(is_ts: bool, secs: i64, nanos: u32, plain: String) -> (r: String)
    ensures
        is_ts && is_time(secs as int, nanos as int) ==> exists|offset: i32| #[trigger]
            call_ensures(local_offset, (secs,), offset) && shows(
                "%H:%M:%S"@,
                secs as int,
                nanos as int,
                offset as int,
                r@,
            ),
        !(is_ts && is_time(secs as int, nanos as int)) ==> r == plain,
{
    let offset: i32 = local_offset(secs);
    format_x_val_at(is_ts, secs, nanos, offset, plain)
}

/// The pattern of the texts on a time axis that spans `span` seconds, with a
/// major step of `step` seconds.
pub open spec fn axis_pattern(span: Number, step: Number) -> Seq<char> {
    if (Number { bits: DAY_SPAN }).less(span) {
        "%m/%d %H:%M"@
    } else if (Number { bits: MINUTE_STEP }).at_most(step) {
        "%H:%M"@
    } else {
        "%H:%M:%S"@
    }
}

/// The text at a mark of the time axis. Marks that are not on a major step, by
/// `off_step` seconds, and those that are not a time, have none.
pub fn axis_label(off_step: Number, secs: i64, offset: i32, span: Number, step: Number) -> (r: String)
    requires
        -DAY < offset < DAY,
    ensures
        off_step.less(Number { bits: ON_MARK }) && is_time(secs as int, 0) ==> shows(
            axis_pattern(span, step),
            secs as int,
            0,
            offset as int,
            r@,
        ),
        !(off_step.less(Number { bits: ON_MARK }) && is_time(secs as int, 0)) ==> r@ == Seq::<char>::empty(),
        off_step.less(Number { bits: ON_MARK }) && is_time(secs as int, 0) ==> {
            let long = (Number { bits: DAY_SPAN }).less(span);
            let minutes = (Number { bits: MINUTE_STEP }).at_most(step);
            &&& long ==> shows("%m/%d %H:%M"@, secs as int, 0, offset as int, r@)
            &&& !long && minutes ==> shows("%H:%M"@, secs as int, 0, offset as int, r@)
            &&& !long && !minutes ==> shows("%H:%M:%S"@, secs as int, 0, offset as int, r@)
        },
{
    if !off_step.lt(Number { bits: ON_MARK }) {
        return String::new();
    }
    let pattern: &str = if (Number { bits: DAY_SPAN }).lt(span) {
        "%m/%d %H:%M"
    } else if (Number { bits: MINUTE_STEP }).le(step) {
        "%H:%M"
    } else {
        "%H:%M:%S"
    };
    match chrono_format(secs, 0, offset, pattern) {
        Some(text) => text,
        None => String::new(),
    }
}

/// The major steps of the time grid, in seconds, the widest first.
pub open spec fn grid_steps() -> Seq<u32> {
    seq![
        86400u32, 43200u32, 21600u32, 14400u32, 10800u32, 7200u32, 3600u32, 1800u32, 900u32, 600u32,
        300u32, 120u32, 60u32, 30u32, 15u32, 10u32, 5u32, 1u32,
    ]
}

/// A step of which `ratio` says that the span holds at least four.
pub open spec fn step_fits<F: Fn(u32) -> Number>(ratio: F, step: u32) -> bool {
    exists|q: Number|
        #[trigger] call_ensures(ratio, (step,), q) && (Number { bits: MARKS_AT_LEAST }).at_most(q)
}

pub open spec fn step_misfits<F: Fn(u32) -> Number>(ratio: F, step: u32) -> bool {
    exists|q: Number|
        #[trigger] call_ensures(ratio, (step,), q) && !(Number { bits: MARKS_AT_LEAST }).at_most(q)
}

/// The widest step of which the span holds at least four, or the least of all.
/// `ratio` tells how many of a step the span holds.
pub fn major_step<F: Fn(u32) -> Number>(ratio: &F) -> (r: u32)
    requires
        forall|s: u32| call_requires(*ratio, (s,)),
    ensures
        (exists|k: int|
            {
                &&& 0 <= k < STEPS
                &&& r == #[trigger] grid_steps()[k]
                &&& step_fits(*ratio, r)
                &&& forall|j: int| 0 <= j < k ==> step_misfits(*ratio, #[trigger] grid_steps()[j])
            }) || (r == 1 && forall|j: int|
            0 <= j < STEPS ==> step_misfits(*ratio, #[trigger] grid_steps()[j])),
        grid_steps().contains(r),
        r > 1 ==> exists|q: Number|
            #[trigger] call_ensures(*ratio, (r,), q) && (Number { bits: MARKS_AT_LEAST }).at_most(q),
        forall|k: int|
            0 <= k < STEPS && #[trigger] grid_steps()[k] > r ==> exists|q: Number|
                #[trigger] call_ensures(*ratio, (grid_steps()[k],), q) && !(Number {
                    bits: MARKS_AT_LEAST,
                }).at_most(q),
{
    proof {
        grid_steps_sorted();
    }
    let steps: [u32; 18] = [
        86400, 43200, 21600, 14400, 10800, 7200, 3600, 1800, 900, 600, 300, 120, 60, 30, 15, 10, 5, 1,
    ];
    assert(steps@ =~= grid_steps());
    let mut k: usize = 0;
    while k < STEPS
        invariant
            k <= STEPS,
            steps@ == grid_steps(),
            forall|s: u32| call_requires(*ratio, (s,)),
            forall|j: int| 0 <= j < k ==> step_misfits(*ratio, #[trigger] grid_steps()[j]),
        decreases STEPS - k,
    {
        let q: Number = ratio(steps[k]);
        if (Number { bits: MARKS_AT_LEAST }).le(q) {
            assert(step_fits(*ratio, grid_steps()[k as int]));
            return steps[k];
        }
        k = k + 1;
    }
    assert(grid_steps()[STEPS - 1] == 1);
    1
}

proof fn grid_steps_sorted()
    ensures
        grid_steps().len() == STEPS,
        forall|k: int, l: int| 0 <= k < l < STEPS ==> #[trigger] grid_steps()[k] > #[trigger] grid_steps()[l],
{
}

/// The steps of the time grid go from a day down to a second, each less than the
/// one before but no less than a fifth of it, and a day is a multiple of every one.
pub proof fn grid_steps_go_down()
    ensures
        grid_steps().len() == STEPS,
        grid_steps() == seq![
            86400u32, 43200u32, 21600u32, 14400u32, 10800u32, 7200u32, 3600u32, 1800u32, 900u32, 600u32,
            300u32, 120u32, 60u32, 30u32, 15u32, 10u32, 5u32, 1u32,
        ],
        grid_steps().first() == 86400,
        grid_steps().last() == 1,
        forall|k: int| 0 <= k < STEPS ==> 86400u32 % (#[trigger] grid_steps()[k]) == 0,
        forall|k: int, l: int|
            0 <= k && k + 1 == l && l < STEPS ==> #[trigger] grid_steps()[l] < #[trigger] grid_steps()[k] && grid_steps()[k]
                <= 5 * grid_steps()[l],
{
    assert(86400u32 % 86400u32 == 0);
    assert(86400u32 % 43200u32 == 0);
    assert(86400u32 % 21600u32 == 0);
    assert(86400u32 % 14400u32 == 0);
    assert(86400u32 % 10800u32 == 0);
    assert(86400u32 % 7200u32 == 0);
    assert(86400u32 % 3600u32 == 0);
    assert(86400u32 % 1800u32 == 0);
    assert(86400u32 % 900u32 == 0);
    assert(86400u32 % 600u32 == 0);
    assert(86400u32 % 300u32 == 0);
    assert(86400u32 % 120u32 == 0);
    assert(86400u32 % 60u32 == 0);
    assert(86400u32 % 30u32 == 0);
    assert(86400u32 % 15u32 == 0);
    assert(86400u32 % 10u32 == 0);
    assert(86400u32 % 5u32 == 0);
    assert(86400u32 % 1u32 == 0);
}

proof fn multiples_step(y: int, k: int)
    requires
        k > 1,
    ensures
        y / k == (y - 1) / k + (if y % k == 0 { 1int } else { 0 }),
{
    let (q, r) = (y / k, y % k);
    lemma_fundamental_div_mod(y, k);
    lemma_mod_bound(y, k);
    if r == 0 {
        assert(y - 1 == (q - 1) * k + (k - 1)) by (nonlinear_arith)
            requires
                y == k * q,
        ;
        lemma_fundamental_div_mod_converse(y - 1, k, q - 1, k - 1);
    } else {
        assert(y - 1 == q * k + (r - 1)) by (nonlinear_arith)
            requires
                y == k * q + r,
        ;
        lemma_fundamental_div_mod_converse(y - 1, k, q, r - 1);
    }
}

proof fn multiples_nest(y: int)
    ensures
        y % 100 == 0 ==> y % 4 == 0,
        y % 400 == 0 ==> y % 100 == 0,
{
    assert(y % 100 == 0 ==> y % 4 == 0);
    assert(y % 400 == 0 ==> y % 100 == 0);
}

#[verifier::spinoff_prover]
proof fn year_length(y: int)
    ensures
        days_before_year(y + 1) == days_before_year(y) + (if leap_year(y) { 366int } else { 365 }),
{
    multiples_step(y, 4);
    multiples_step(y, 100);
    multiples_step(y, 400);
    multiples_nest(y);
}

proof fn years_in_order(y: int, z: int)
    requires
        y < z,
    ensures
        days_before_year(y) + (if leap_year(y) { 366int } else { 365 }) <= days_before_year(z),
    decreases z - y,
{
    year_length(y);
    if y + 1 < z {
        years_in_order(y + 1, z);
    }
}

proof fn months_in_order(y: int, m: int, n: int)
    requires
        1 <= m < n <= 13,
    ensures
        0 <= days_before_month(y, m),
        days_before_month(y, m) + month_length(y, m) <= days_before_month(y, n),
        days_before_month(y, 13) == (if leap_year(y) { 366int } else { 365 }),
    decreases n - m,
{
    reveal_with_fuel(days_before_month, 14);
    if m + 1 < n {
        months_in_order(y, m + 1, n);
    }
}

/// A day has one date.
pub proof fn date_is_unique(days: int, y: int, m: int, d: int, z: int, n: int, e: int)
    requires
        is_date(days, y, m, d),
        is_date(days, z, n, e),
    ensures
        y == z && m == n && d == e,
{
    months_in_order(y, m, 13);
    months_in_order(z, n, 13);
    if y < z {
        years_in_order(y, z);
    } else if z < y {
        years_in_order(z, y);
    } else if m < n {
        months_in_order(y, m, n);
    } else if n < m {
        months_in_order(y, n, m);
    }
}

/// A pattern writes one text of a time: a second one is the same.
pub proof fn text_is_unique(pattern: Seq<char>, secs: int, nanos: int, offset: int, a: Seq<char>, b: Seq<char>)
    requires
        known_pattern(pattern),
        shows(pattern, secs, nanos, offset, a),
        shows(pattern, secs, nanos, offset, b),
    ensures
        a == b,
{
    if pattern == "%m/%d %H:%M"@ {
        let local = secs + offset;
        let (y, m, d) = choose|y: int, m: int, d: int|
            #[trigger] is_date(local / DAY as int, y, m, d) && a == two(m) + seq!['/'] + two(d) + seq![' ']
                + hours_minutes(local);
        let (z, n, e) = choose|y: int, m: int, d: int|
            #[trigger] is_date(local / DAY as int, y, m, d) && b == two(m) + seq!['/'] + two(d) + seq![' ']
                + hours_minutes(local);
        date_is_unique(local / DAY as int, y, m, d, z, n, e);
    }
}

} // verus!
