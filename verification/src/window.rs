//! Calendar windows: the presets, and the start of the window a day falls in.
use vstd::arithmetic::div_mod::*;
use vstd::prelude::*;

verus! {

/// Milliseconds in one day.
pub const DAY_MS: i64 = 86_400_000;

/// Earliest day, counted from 1970-01-01, that a ledger row may carry.
pub const MIN_DAY: i32 = -36_500_000;

/// Latest day, counted from 1970-01-01, that a ledger row may carry.
pub const MAX_DAY: i32 = 36_500_000;

/// A calendar duration: whole months, or whole weeks, or nothing.
#[derive(Clone, Copy, Debug, PartialEq, Eq, Structural)]
pub struct Span {
    pub months: u16,
    pub weeks: u16,
}

impl Span {
    /// The duration of no length.
    pub open spec fn is_zero(self) -> bool {
        self.months == 0 && self.weeks == 0
    }

    /// A duration that windows can be cut by: months alone or weeks alone.
    pub open spec fn is_step(self) -> bool {
        (self.months > 0 && self.weeks == 0) || (self.months == 0 && self.weeks > 0)
    }
}

/// How rows are cut into windows: a window starts every `every`, lasts
/// `period`, and the grid of starts is shifted by `offset`.
#[derive(Clone, Copy, Debug, PartialEq, Eq, Structural)]
pub struct DynamicGroupOptions {
    pub every: Span,
    pub period: Span,
    pub offset: Span,
}

impl DynamicGroupOptions {
    /// Windows that follow one another without gap or overlap, on the
    /// unshifted grid.
    pub open spec fn contiguous(self) -> bool {
        self.every.is_step() && self.period == self.every && self.offset.is_zero()
    }
}

/// The bucket widths a net-flow report can be cut by.
#[derive(Clone, Copy, Debug, PartialEq, Eq, Structural)]
pub enum TimeGroup {
    Quarterly,
    Monthly,
    Biweekly,
    Weekly,
}

impl TimeGroup {
    /// The step of each preset: four months, one month, two weeks, one week.
    pub open spec fn step(self) -> Span {
        match self {
            TimeGroup::Quarterly => Span { months: 4, weeks: 0 },
            TimeGroup::Monthly => Span { months: 1, weeks: 0 },
            TimeGroup::Biweekly => Span { months: 0, weeks: 2 },
            TimeGroup::Weekly => Span { months: 0, weeks: 1 },
        }
    }

    /// The window options of a preset: `every` and `period` are its step,
    /// the offset is zero.
    pub fn into_dynamic_group_opts(self) -> (opts: DynamicGroupOptions)
        ensures
            opts.every == self.step(),
            opts.period == self.step(),
            opts.offset == (Span { months: 0, weeks: 0 }),
            opts.contiguous(),
    {
        let step = match self {
            TimeGroup::Quarterly => Span { months: 4, weeks: 0 },
            TimeGroup::Monthly => Span { months: 1, weeks: 0 },
            TimeGroup::Biweekly => Span { months: 0, weeks: 2 },
            TimeGroup::Weekly => Span { months: 0, weeks: 1 },
        };
        DynamicGroupOptions { every: step, period: step, offset: Span { months: 0, weeks: 0 } }
    }
}

/// The millisecond timestamp `t` cut down to the grid of `months` calendar
/// months, as polars' `Duration::truncate_ms` computes it without a time zone.
pub uninterp spec fn month_floor_ms(months: int, t: int) -> int;

/// The timestamp `t` cut down to the grid of `weeks` weeks that start on a
/// Monday: 1970-01-01 was a Thursday, four days before the grid's origin.
pub open spec fn week_floor_ms(weeks: int, t: int) -> int {
    t - (t - 4 * DAY_MS) % (7 * weeks * DAY_MS)
}

/// `Duration::truncate_ms` of polars, without a time zone, on the duration
/// that `Duration::parse` reads from the text of `months` months and
/// `weeks` weeks.
///
/// Not proved here, but claimed of polars: with exactly one of the two set
/// and `t` within the days of the calendar it returns no error; for a
/// duration of weeks alone the result is the closed form `week_floor_ms`;
/// for one of months alone it depends on `months` and `t` only, is the
/// midnight of a day, is not after `t` and lies less than `31 * months`
/// days before it, and every timestamp from the result up to `t` is cut
/// down to the same result: the result is the first midnight of a month of
/// the grid, and `t` lies less than `months` months after it.
#[verifier::external_body]
fn truncate_ms(months: u16, weeks: u16, t: i64) -> (r: Option<i64>)
    requires
        (months > 0 && weeks == 0) || (months == 0 && weeks > 0),
        MIN_DAY * DAY_MS <= t <= MAX_DAY * DAY_MS,
    ensures
        r is Some,
        weeks > 0 ==> r->0 == week_floor_ms(weeks as int, t as int),
        months > 0 ==> r->0 == month_floor_ms(months as int, t as int),
        months > 0 ==> r->0 <= t && t - r->0 < 31 * months * DAY_MS && r->0 % DAY_MS == 0,
        months > 0 ==> forall|u: int|
            r->0 <= u <= t ==> #[trigger] month_floor_ms(months as int, u) == r->0,
{
    polars::prelude::Duration::parse(&format!("{}mo{}w", months, weeks)).truncate_ms(t, None).ok()
}

/// The millisecond timestamp `months` calendar months after `t`, as
/// polars' `Duration::add_ms` computes it without a time zone.
pub uninterp spec fn month_next_ms(months: int, t: int) -> int;

/// `Duration::add_ms` of polars, without a time zone, on the duration that
/// `Duration::parse` reads from the text of `months` months and `weeks`
/// weeks, for a timestamp `t` that is a start of the grid.
///
/// Not proved here, but claimed of polars: it returns no error; for weeks
/// alone the result is `t` and that many weeks; for months alone, `t`
/// being the first midnight of a month of the grid, the result depends on
/// `months` and `t` only and is the first midnight of the month `months`
/// months later: after `t` by at most `31 * months` days, itself a start
/// of the grid, and every timestamp from `t` up to it, itself left out, is
/// cut down to `t`.
#[verifier::external_body]
fn add_ms(months: u16, weeks: u16, t: i64) -> (r: Option<i64>)
    requires
        (months > 0 && weeks == 0) || (months == 0 && weeks > 0),
        (MIN_DAY - 31 * 65535) * DAY_MS <= t <= MAX_DAY * DAY_MS,
        months > 0 ==> month_floor_ms(months as int, t as int) == t,
    ensures
        r is Some,
        weeks > 0 ==> r->0 == t + 7 * weeks * DAY_MS,
        months > 0 ==> r->0 == month_next_ms(months as int, t as int),
        months > 0 ==> t < r->0 <= t + 31 * months * DAY_MS && r->0 % DAY_MS == 0,
        months > 0 ==> month_floor_ms(months as int, r->0 as int) == r->0,
        months > 0 ==> forall|u: int|
            t <= u < r->0 ==> #[trigger] month_floor_ms(months as int, u) == t,
{
    polars::prelude::Duration::parse(&format!("{}mo{}w", months, weeks)).add_ms(t, None).ok()
}

/// The weekly grid in milliseconds is the weekly grid in days: cutting the
/// midnight of `day` down by `weeks` weeks gives the midnight of
/// `day - (day - 4) % (7 * weeks)`.
pub proof fn lemma_week_floor_days(weeks: int, day: int)
    requires
        weeks > 0,
    ensures
        week_floor_ms(weeks, day * DAY_MS) == (day - (day - 4) % (7 * weeks)) * DAY_MS,
        0 <= (day - 4) % (7 * weeks) < 7 * weeks,
{
    let d = DAY_MS as int;
    let w = 7 * weeks;
    let x = day - 4;
    let q = x / w;
    let m = x % w;
    lemma_fundamental_div_mod(x, w);
    lemma_mod_bound(x, w);
    assert(7 * weeks * d == w * d) by (nonlinear_arith)
        requires
            w == 7 * weeks,
    ;
    assert(day * d - 4 * d == q * (w * d) + m * d) by (nonlinear_arith)
        requires
            day - 4 == w * q + m,
    ;
    assert(0 <= m * d < w * d) by (nonlinear_arith)
        requires
            0 <= m < w,
            d > 0,
    ;
    lemma_fundamental_div_mod_converse(day * d - 4 * d, w * d, q, m * d);
    assert((day - m) * d == day * d - m * d) by (nonlinear_arith);
}

/// First day of the window of width `every` that `day` falls in.
pub open spec fn window_start_of(every: Span, day: int) -> int {
    if every.weeks > 0 {
        day - (day - 4) % (7 * every.weeks)
    } else {
        month_floor_ms(every.months as int, day * DAY_MS) / (DAY_MS as int)
    }
}

/// Longest distance, in days, from a window's start to a day in it.
pub open spec fn span_days(every: Span) -> int {
    if every.weeks > 0 {
        7 * every.weeks
    } else {
        31 * every.months
    }
}

/// `start` is a start of the grid: the midnight of that day is cut down
/// to itself.
pub open spec fn starts_window(every: Span, start: int) -> bool {
    if every.weeks > 0 {
        window_start_of(every, start) == start
    } else {
        month_floor_ms(every.months as int, start * DAY_MS) == start * DAY_MS
    }
}

/// The window of `day` is an interval up to `day`: it starts on the grid,
/// at most `span_days` days before `day`, and every day from its start up
/// to `day` falls in it too.
pub open spec fn window_holds(every: Span, day: int) -> bool {
    let start = window_start_of(every, day);
    &&& day - span_days(every) < start <= day
    &&& starts_window(every, start)
    &&& forall|u: int| start <= u <= day ==> #[trigger] window_start_of(every, u) == start
}

/// First day after the window of width `every` that starts on `start`.
pub open spec fn window_end_of(every: Span, start: int) -> int {
    if every.weeks > 0 {
        start + 7 * every.weeks
    } else {
        month_next_ms(every.months as int, start * DAY_MS) / (DAY_MS as int)
    }
}

/// The days from `start` up to `end`, itself left out, are one window of
/// the grid, and `end` starts the next: the window is at most `span_days`
/// long, every day in it has `start` for its window's start, and `end`
/// has itself.
pub open spec fn window_spans(every: Span, start: int, end: int) -> bool {
    &&& start < end <= start + span_days(every)
    &&& starts_window(every, end)
    &&& window_start_of(every, end) == end
    &&& forall|u: int| start <= u < end ==> #[trigger] window_start_of(every, u) == start
}

/// The day a timestamp returned for `day` stands for, given what is known
/// of every such timestamp: it is a whole number of days, not after `day`
/// and less than `reach` days before it.
pub fn day_of_floor(floor_ms: i64, day: i32, reach: i64) -> (start: i32)
    requires
        MIN_DAY <= day <= MAX_DAY,
        0 < reach <= 31 * 65535,
        floor_ms % DAY_MS == 0,
        floor_ms <= day * DAY_MS,
        day * DAY_MS - floor_ms < reach * DAY_MS,
    ensures
        start == floor_ms / DAY_MS,
        start * DAY_MS == floor_ms,
        day - reach < start <= day,
{
    let q: i64 = floor_ms / DAY_MS;
    proof {
        lemma_fundamental_div_mod(floor_ms as int, DAY_MS as int);
    }
    q as i32
}

/// First day of the window of width `every` that `day` falls in.
pub fn window_start(every: Span, day: i32) -> (start: i32)
    requires
        every.is_step(),
        MIN_DAY <= day <= MAX_DAY,
    ensures
        start == window_start_of(every, day as int),
        day - span_days(every) < start <= day,
        window_holds(every, day as int),
{
    let t: i64 = (day as i64) * DAY_MS;
    let floor_ms = truncate_ms(every.months, every.weeks, t).unwrap();
    if every.weeks > 0 {
        let w: i64 = 7 * (every.weeks as i64);
        proof {
            lemma_week_floor_days(every.weeks as int, day as int);
            lemma_week_window_holds(every, day as int);
        }
        day_of_floor(floor_ms, day, w)
    } else {
        let reach: i64 = 31 * (every.months as i64);
        proof {
            assert(31 * every.months * DAY_MS == reach * DAY_MS) by (nonlinear_arith)
                requires
                    reach == 31 * every.months,
            ;
        }
        let start = day_of_floor(floor_ms, day, reach);
        proof {
            assert forall|u: int| start <= u <= day implies #[trigger] window_start_of(every, u)
                == start by {
                assert(month_floor_ms(every.months as int, u * DAY_MS) == floor_ms);
            }
            assert(month_floor_ms(every.months as int, floor_ms as int) == floor_ms);
        }
        start
    }
}

/// Windows of whole weeks are intervals that do not overlap: a day lies
/// in the `7 * weeks` days from its window's start, and the windows of two
/// days are the same or lie apart.
pub proof fn lemma_week_windows_apart(every: Span, d1: int, d2: int)
    requires
        every.weeks > 0,
    ensures
        ({
            let w = 7 * every.weeks;
            let s1 = window_start_of(every, d1);
            let s2 = window_start_of(every, d2);
            &&& s1 <= d1 < s1 + w
            &&& s2 <= d2 < s2 + w
            &&& s1 == s2 || s1 + w <= s2 || s2 + w <= s1
        }),
{
    let w = 7 * every.weeks;
    let q1 = (d1 - 4) / w;
    let q2 = (d2 - 4) / w;
    lemma_fundamental_div_mod(d1 - 4, w);
    lemma_fundamental_div_mod(d2 - 4, w);
    lemma_mod_bound(d1 - 4, w);
    lemma_mod_bound(d2 - 4, w);
    let s1 = window_start_of(every, d1);
    let s2 = window_start_of(every, d2);
    assert(s1 == 4 + w * q1);
    assert(s2 == 4 + w * q2);
    if q1 < q2 {
        assert(w * q1 + w <= w * q2) by (nonlinear_arith)
            requires
                q1 + 1 <= q2,
                w > 0,
        ;
    } else if q2 < q1 {
        assert(w * q2 + w <= w * q1) by (nonlinear_arith)
            requires
                q2 + 1 <= q1,
                w > 0,
        ;
    }
}

/// A window of whole weeks is an interval up to each of its days.
pub proof fn lemma_week_window_holds(every: Span, day: int)
    requires
        every.weeks > 0,
    ensures
        window_holds(every, day),
{
    let start = window_start_of(every, day);
    lemma_week_windows_apart(every, day, day);
    assert forall|u: int| start <= u <= day implies #[trigger] window_start_of(every, u)
        == start by {
        lemma_week_windows_apart(every, u, day);
    }
}

/// Windows do not overlap: of two days whose windows are intervals up to
/// them, the earlier day lies in the window of the later one or before
/// that window's start.
pub proof fn lemma_windows_apart(every: Span, d1: int, d2: int)
    requires
        window_holds(every, d1),
        window_holds(every, d2),
        d1 <= d2,
    ensures
        window_start_of(every, d1) == window_start_of(every, d2) || (window_start_of(every, d1)
            <= d1 < window_start_of(every, d2)),
{
}

/// A window's start is a day of that window: the window of the start of
/// an interval up to `day` is that start.
pub proof fn lemma_start_is_in_its_window(every: Span, day: int)
    requires
        window_holds(every, day),
    ensures
        window_start_of(every, window_start_of(every, day)) == window_start_of(every, day),
{
}

/// A window of whole weeks that starts on the grid spans its weeks.
pub proof fn lemma_week_window_spans(every: Span, start: int)
    requires
        every.weeks > 0,
        starts_window(every, start),
    ensures
        window_spans(every, start, start + 7 * every.weeks),
{
    let end = start + 7 * every.weeks;
    lemma_week_windows_apart(every, end, start);
    assert forall|u: int| start <= u < end implies #[trigger] window_start_of(every, u)
        == start by {
        lemma_week_windows_apart(every, u, start);
    }
}

/// First day after the window that starts on `start`.
pub(crate) fn window_end(every: Span, start: i32) -> (end: i32)
    requires
        every.is_step(),
        MIN_DAY - span_days(every) <= start <= MAX_DAY,
        starts_window(every, start as int),
    ensures
        end == window_end_of(every, start as int),
        window_spans(every, start as int, end as int),
{
    let t: i64 = (start as i64) * DAY_MS;
    let next_ms = add_ms(every.months, every.weeks, t).unwrap();
    if every.weeks > 0 {
        proof {
            lemma_week_window_spans(every, start as int);
        }
        start + 7 * (every.weeks as i32)
    } else {
        let q: i64 = next_ms / DAY_MS;
        proof {
            lemma_fundamental_div_mod(next_ms as int, DAY_MS as int);
            assert(31 * every.months * DAY_MS == (31 * every.months) * DAY_MS) by (nonlinear_arith);
            assert forall|u: int| start <= u < q implies #[trigger] window_start_of(every, u)
                == start by {
                assert(month_floor_ms(every.months as int, u * DAY_MS) == t);
            }
            assert(month_floor_ms(every.months as int, q * DAY_MS) == next_ms);
            lemma_div_multiples_vanish(q as int, DAY_MS as int);
        }
        q as i32
    }
}

/// The window of width `every` that `day` falls in: its first day, and the
/// first day after it.
pub fn window_of(every: Span, day: i32) -> (w: (i32, i32))
    requires
        every.is_step(),
        MIN_DAY <= day <= MAX_DAY,
    ensures
        w.0 == window_start_of(every, day as int),
        w.1 == window_end_of(every, w.0 as int),
        window_spans(every, w.0 as int, w.1 as int),
        w.0 <= day < w.1,
{
    let start = window_start(every, day);
    let end = window_end(every, start);
    proof {
        lemma_day_before_end(every, day as int, end as int);
    }
    (start, end)
}

/// A day lies before the end of its window.
pub proof fn lemma_day_before_end(every: Span, day: int, end: int)
    requires
        window_holds(every, day),
        window_spans(every, window_start_of(every, day), end),
    ensures
        window_start_of(every, day) <= day < end,
{
    let start = window_start_of(every, day);
    if end <= day {
        assert(window_start_of(every, end) == start);
    }
}

/// Windows lie a full window apart: of two windows of the grid, the one
/// that starts earlier ends on or before the start of the other.
pub proof fn lemma_windows_lie_apart(every: Span, s1: int, e1: int, s2: int)
    requires
        window_spans(every, s1, e1),
        window_start_of(every, s2) == s2,
        s1 < s2,
    ensures
        e1 <= s2,
{
    if s2 < e1 {
        assert(window_start_of(every, s2) == s1);
    }
}

} // verus!
