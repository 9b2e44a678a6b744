use vstd::prelude::*;
use crate::range::ClosedRange;

verus! {

pub const SECS_PER_DAY: i64 = 86400;

pub const SECS_PER_WEEK: i64 = 604800;

/// Bound on the magnitude of every timestamp (seconds) handed to the
/// generator, far beyond any calendar date. Within it, every instant that
/// the generator derives still fits in an `i64`.
pub const TIME_LIMIT: i64 = 288230376151711744;

/// Bound on the magnitude of a day number handed to the generator.
pub const DAY_LIMIT: i64 = 3400000000000;

#[derive(Clone, Copy, Debug, PartialEq, Eq, Structural)]
pub enum Weekday {
    Mon,
    Tue,
    Wed,
    Thu,
    Fri,
    Sat,
    Sun,
}

impl Weekday {
    pub open spec fn index(self) -> int {
        match self {
            Weekday::Mon => 0,
            Weekday::Tue => 1,
            Weekday::Wed => 2,
            Weekday::Thu => 3,
            Weekday::Fri => 4,
            Weekday::Sat => 5,
            Weekday::Sun => 6,
        }
    }

    pub fn num_days_from_monday(&self) -> (r: i64)
        ensures
            r == self.index(),
    {
        match self {
            Weekday::Mon => 0,
            Weekday::Tue => 1,
            Weekday::Wed => 2,
            Weekday::Thu => 3,
            Weekday::Fri => 4,
            Weekday::Sat => 5,
            Weekday::Sun => 6,
        }
    }
}

/// The day number (whole days since 1970-01-01, rounded down) of a local timestamp.
pub open spec fn day_of(t: int) -> int {
    t / 86400
}

/// The weekday of a day number, counted from Monday: day 0 (1970-01-01) was a Thursday.
pub open spec fn weekday_of(day: int) -> int {
    (day + 3) % 7
}

/// Days from a weekday to the next day (today included) that is `target`.
pub open spec fn days_ahead(from: int, target: int) -> int {
    if from < target {
        target - from
    } else if from > target {
        7 - (from - target)
    } else {
        0
    }
}

/// A fixed offset east of UTC, in seconds, lies strictly within one day.
pub open spec fn valid_offset(offset: int) -> bool {
    -86400 < offset < 86400
}

/// How many terms of `first, first + step, first + 2 * step, ...` lie below `bound`.
pub open spec fn count_below(first: int, step: int, bound: int) -> nat
    decreases (if first < bound { bound - first } else { 0 }),
{
    if first >= bound || step <= 0 {
        0
    } else {
        1 + count_below(first + step, step, bound)
    }
}

/// chrono's day count of 1970-01-01, where 0001-01-01 is day 1.
pub const EPOCH_CE_DAY: i64 = 719163;

/// Leap years of the proleptic Gregorian calendar.
pub open spec fn is_leap(year: int) -> bool {
    (year % 4 == 0 && year % 100 != 0) || year % 400 == 0
}

/// Days in `month` (1 to 12) of `year`.
pub open spec fn month_days(year: int, month: int) -> int {
    if month == 2 {
        if is_leap(year) { 29 } else { 28 }
    } else if month == 4 || month == 6 || month == 9 || month == 11 {
        30
    } else {
        31
    }
}

/// Days of `year` before the first of `month`.
pub open spec fn days_before_month(year: int, month: int) -> int
    decreases month,
{
    if month <= 1 {
        0
    } else {
        days_before_month(year, month - 1) + month_days(year, month - 1)
    }
}

/// The day count of a calendar date, 0001-01-01 being day 1 (proleptic
/// Gregorian calendar, division rounding down), or none for a date that does
/// not exist or whose year lies outside -262143 to 262142.
pub open spec fn ce_day(year: int, month: int, day: int) -> Option<int> {
    if -262143 <= year <= 262142 && 1 <= month <= 12 && 1 <= day <= month_days(year, month) {
        let y = year - 1;
        Some(365 * y + y / 4 - y / 100 + y / 400 + days_before_month(year, month) + day)
    } else {
        None
    }
}

/// Relies on chrono's `NaiveDate::from_ymd_opt` (none for a date that does not
/// exist, or whose year lies outside -262143 to 262142) and
/// `Datelike::num_days_from_ce` (the day count of a date, 0001-01-01 being day 1).
#[verifier::external_body]
fn days_from_ce(year: i32, month: u32, day: u32) -> (r: Option<i32>)
    ensures
        match r {
            Some(d) => ce_day(year as int, month as int, day as int) == Some(d as int),
            None => ce_day(year as int, month as int, day as int) is None,
        },
{
    match chrono::NaiveDate::from_ymd_opt(year, month, day) {
        Some(d) => Some(chrono::Datelike::num_days_from_ce(&d)),
        None => None,
    }
}

/// The day number (days since 1970-01-01) of a calendar date, or none when
/// the date does not exist.
pub fn day_number(year: i32, month: u32, day: u32) -> (r: Option<i64>)
    ensures
        match ce_day(year as int, month as int, day as int) {
            Some(c) => r == Some((c - EPOCH_CE_DAY) as i64),
            None => r is None,
        },
{
    match days_from_ce(year, month, day) {
        Some(c) => Some(c as i64 - EPOCH_CE_DAY),
        None => None,
    }
}

/// The local timestamp (seconds since 1970-01-01T00:00 on the local clock)
/// of a calendar date at `time` seconds after midnight, or none when the date
/// does not exist.
pub fn local_datetime(year: i32, month: u32, day: u32, time: u32) -> (r: Option<i64>)
    requires
        time < 86400,
    ensures
        match ce_day(year as int, month as int, day as int) {
            Some(c) => r == Some(((c - EPOCH_CE_DAY) * 86400 + time) as i64),
            None => r is None,
        },
{
    match days_from_ce(year, month, day) {
        Some(c) => {
            let d = c as i64 - EPOCH_CE_DAY;
            assert(-5000000000 <= d <= 5000000000);
            assert(-5000000000 * 86400 <= d * 86400 <= 5000000000 * 86400) by (nonlinear_arith)
                requires
                    -5000000000 <= d <= 5000000000,
            ;
            Some(d * SECS_PER_DAY + time as i64)
        },
        None => None,
    }
}

/// Seconds since midnight of `h:m:s`.
pub fn hms(h: u32, m: u32, s: u32) -> (r: u32)
    requires
        h < 24,
        m < 60,
        s < 60,
    ensures
        r == h * 3600 + m * 60 + s,
        r < 86400,
{
    h * 3600 + m * 60 + s
}

/// The weekday of a day number, counted from Monday.
pub fn weekday_of_day(day: i64) -> (r: i64)
    requires
        -DAY_LIMIT <= day <= DAY_LIMIT,
    ensures
        r == weekday_of(day as int),
        0 <= r < 7,
{
    let shifted = day + 3;
    match shifted.checked_rem_euclid(7) {
        Some(r) => r,
        None => 0,
    }
}

/// The first day on or after `day` that falls on `wd`.
fn first_weekday_after(day: i64, wd: Weekday) -> (r: i64)
    requires
        -DAY_LIMIT <= day <= DAY_LIMIT,
    ensures
        r == day + days_ahead(weekday_of(day as int), wd.index()),
{
    let dt_since = weekday_of_day(day);
    let wd_since = wd.num_days_from_monday();
    if dt_since < wd_since {
        day + (wd_since - dt_since)
    } else if dt_since > wd_since {
        day + (7 - (dt_since - wd_since))
    } else {
        day
    }
}

/// A wall-clock time of day (seconds since midnight), on one weekday or, when
/// none is given, on every day.
#[derive(Clone, Copy, Debug, PartialEq, Eq, Structural)]
pub struct TimeOfDay {
    pub time: u32,
    pub day_of_week: Option<Weekday>,
}

impl TimeOfDay {
    pub fn new_tod(time: u32, day_of_week: Option<Weekday>) -> (r: TimeOfDay)
        requires
            time < 86400,
        ensures
            r == (TimeOfDay { time, day_of_week }),
    {
        TimeOfDay { time, day_of_week }
    }

    pub open spec fn valid(self) -> bool {
        self.time < 86400
    }

    /// Seconds between two occurrences: a week, or a day when no weekday is set.
    pub open spec fn step(self) -> int {
        match self.day_of_week {
            Some(_) => 604800,
            None => 86400,
        }
    }

    /// The day of the first occurrence counted from `day`: the earliest day on
    /// or after it with the right weekday.
    pub open spec fn first_day(self, day: int) -> int {
        match self.day_of_week {
            Some(w) => day + days_ahead(weekday_of(day), w.index()),
            None => day,
        }
    }

    /// The instant (UTC seconds) of occurrence `k`, counted from `day`, where
    /// local time is `offset` seconds east of UTC.
    pub open spec fn occurrence(self, day: int, offset: int, k: int) -> int {
        self.first_day(day) * 86400 + self.time - offset + k * self.step()
    }

    fn step_secs(&self) -> (r: i64)
        ensures
            r == self.step(),
    {
        match self.day_of_week {
            Some(_) => SECS_PER_WEEK,
            None => SECS_PER_DAY,
        }
    }

    fn first_occurrence(&self, day: i64, offset: i32) -> (r: i64)
        requires
            self.valid(),
            valid_offset(offset as int),
            -DAY_LIMIT <= day <= DAY_LIMIT,
        ensures
            r == self.occurrence(day as int, offset as int, 0),
            -DAY_LIMIT * 86400 - 86400 <= r <= (DAY_LIMIT + 7) * 86400 + 86400,
    {
        let first = match self.day_of_week {
            Some(d) => first_weekday_after(day, d),
            None => day,
        };
        assert(-DAY_LIMIT <= first <= DAY_LIMIT + 6);
        assert(-DAY_LIMIT * 86400 <= first * 86400 <= (DAY_LIMIT + 6) * 86400) by (nonlinear_arith)
            requires
                -DAY_LIMIT <= first <= DAY_LIMIT + 6,
        ;
        first * SECS_PER_DAY + self.time as i64 - offset as i64
    }

    /// The occurrences counted from `from` (a day number) that come before
    /// `until`, in order.
    pub fn to_succ(&self, from: i64, offset: i32, until: i64) -> (r: Vec<i64>)
        requires
            self.valid(),
            valid_offset(offset as int),
            -DAY_LIMIT <= from <= DAY_LIMIT,
        ensures
            r.len() == count_below(self.occurrence(from as int, offset as int, 0), self.step(), until as int),
            forall|k: int| 0 <= k < r.len() ==> #[trigger] r@[k] == self.occurrence(from as int, offset as int, k),
    {
        let step = self.step_secs() as i128;
        let first = self.first_occurrence(from, offset) as i128;
        let mut cur: i128 = first;
        let mut out: Vec<i64> = Vec::new();
        let ghost total = count_below(first as int, step as int, until as int);
        while cur < until as i128
            invariant
                first == self.occurrence(from as int, offset as int, 0),
                step == self.step(),
                cur == self.occurrence(from as int, offset as int, out.len() as int),
                first <= cur,
                -DAY_LIMIT * 86400 - 86400 <= first,
                total == out.len() + count_below(cur as int, step as int, until as int),
                forall|k: int| 0 <= k < out.len() ==> #[trigger] out@[k] == self.occurrence(from as int, offset as int, k),
            decreases count_below(cur as int, step as int, until as int),
        {
            out.push(cur as i64);
            proof {
                lemma_occurrence_next(*self, from as int, offset as int, (out.len() - 1) as int);
            }
            cur = cur + step;
        }
        out
    }
}

/// One recurring window: from a start time of day to an end time of day.
#[derive(Clone, Copy, Debug, PartialEq, Eq, Structural)]
pub struct TimeOfDayDuration {
    pub start: TimeOfDay,
    pub end: TimeOfDay,
}

impl TimeOfDayDuration {
    pub fn new_todd(start: TimeOfDay, end: TimeOfDay) -> (r: TimeOfDayDuration)
        ensures
            r == (TimeOfDayDuration { start, end }),
    {
        TimeOfDayDuration { start, end }
    }

    pub open spec fn valid(self) -> bool {
        self.start.valid() && self.end.valid()
    }

    /// How many end occurrences fall before the first start; the end sequence
    /// is advanced past them so that start `k` pairs with end `shift + k`.
    pub open spec fn shift(self, day: int, offset: int) -> nat {
        count_below(self.end.occurrence(day, offset, 0), self.end.step(), self.start.occurrence(day, offset, 0))
    }

    /// The windows built from the first `n` start occurrences counted from the
    /// date of the local time `now`, and whether the sequence has ended. A pair
    /// whose start is after its end is skipped; a window holding `now` (as an
    /// instant) starts at `now` instead; the sequence ends at the first window
    /// that does not start before `until`.
    pub open spec fn scan(self, now: int, offset: int, until: int, n: nat) -> (Seq<ClosedRange<i64>>, bool)
        decreases n,
    {
        if n == 0 {
            (seq![], false)
        } else {
            let prev = self.scan(now, offset, until, (n - 1) as nat);
            let k = n - 1;
            let day = day_of(now);
            let zoned_now = now - offset;
            let s = self.start.occurrence(day, offset, k);
            let e = self.end.occurrence(day, offset, self.shift(day, offset) + k);
            let clipped = if s <= zoned_now && zoned_now < e {
                zoned_now
            } else {
                s
            };
            if prev.1 || s > e {
                prev
            } else if clipped >= until {
                (prev.0, true)
            } else {
                (prev.0.push(ClosedRange { start: clipped as i64, end: e as i64 }), false)
            }
        }
    }

    /// The windows of this rule, counted from the date of the local time
    /// `now`, that start before `until` (UTC seconds).
    pub open spec fn windows(self, now: int, offset: int, until: int) -> Seq<ClosedRange<i64>> {
        let day = day_of(now);
        self.scan(now, offset, until, count_below(self.start.occurrence(day, offset, 0), self.start.step(), until)).0
    }

    /// The windows of this rule from the date of the local time `now` on, where
    /// local time is `offset` seconds east of UTC, up to the first one that
    /// does not start before `until`.
    pub fn to_iter(&self, now: i64, offset: i32, until: i64) -> (r: Vec<ClosedRange<i64>>)
        requires
            self.valid(),
            valid_offset(offset as int),
            -TIME_LIMIT <= now <= TIME_LIMIT,
            until <= TIME_LIMIT + SECS_PER_DAY,
        ensures
            r@ == self.windows(now as int, offset as int, until as int),
            forall|i: int| 0 <= i < r.len() ==> #[trigger] r@[i].start <= r@[i].end && r@[i].start < until,
            forall|i: int| 0 <= i < r.len() && #[trigger] r@[i].start <= now - offset && now - offset < r@[i].end
                ==> r@[i].start == now - offset,
            self.start.step() == self.end.step() ==> forall|i: int| 0 <= i < r.len()
                ==> #[trigger] r@[i].end == self.end.occurrence(day_of(now as int), offset as int, self.shift(day_of(now as int), offset as int) + i)
                && (r@[i].start == self.start.occurrence(day_of(now as int), offset as int, i) || r@[i].start == now - offset),
    {
        let day = match now.checked_div_euclid(SECS_PER_DAY) {
            Some(d) => d,
            None => 0,
        };
        assert(-DAY_LIMIT <= day <= DAY_LIMIT);
        let zoned_now: i64 = now - offset as i64;
        let s_step = self.start.step_secs() as i128;
        let e_step = self.end.step_secs() as i128;
        let s0 = self.start.first_occurrence(day, offset) as i128;
        let e0 = self.end.first_occurrence(day, offset) as i128;
        let ghost shift = self.shift(day as int, offset as int);
        let mut e_cur: i128 = e0;
        let ghost mut j: int = 0;
        while e_cur < s0
            invariant
                e_step == self.end.step(),
                e_cur == self.end.occurrence(day as int, offset as int, j),
                s0 == self.start.occurrence(day as int, offset as int, 0),
                e0 == self.end.occurrence(day as int, offset as int, 0),
                0 <= j,
                shift == j + count_below(e_cur as int, e_step as int, s0 as int),
                e_cur <= e0 || e_cur < s0 + e_step,
            decreases count_below(e_cur as int, e_step as int, s0 as int),
        {
            proof {
                lemma_occurrence_next(self.end, day as int, offset as int, j);
            }
            e_cur = e_cur + e_step;
            proof {
                j = j + 1;
            }
        }
        let ghost e_first = e_cur;
        let mut s_cur: i128 = s0;
        let mut out: Vec<ClosedRange<i64>> = Vec::new();
        let mut done = false;
        let ghost mut k: nat = 0;
        let ghost total = count_below(s0 as int, s_step as int, until as int);
        while s_cur < until as i128
            invariant
                s_step == self.start.step(),
                e_step == self.end.step(),
                day as int == day_of(now as int),
                zoned_now == now - offset,
                -TIME_LIMIT <= now <= TIME_LIMIT,
                until <= TIME_LIMIT + SECS_PER_DAY,
                j == shift,
                e_first == self.end.occurrence(day as int, offset as int, shift as int),
                e_first >= s0,
                forall|i: int| 0 <= i < out.len() ==> #[trigger] out@[i].start <= out@[i].end && out@[i].start < until,
                forall|i: int| 0 <= i < out.len() && #[trigger] out@[i].start <= zoned_now && zoned_now < out@[i].end
                    ==> out@[i].start == zoned_now,
                s_step == e_step ==> e_cur - s_cur == e_first - s0 && (done || out.len() == k),
                s_step == e_step ==> forall|i: int| 0 <= i < out.len()
                    ==> #[trigger] out@[i].end == self.end.occurrence(day as int, offset as int, shift + i)
                    && (out@[i].start == self.start.occurrence(day as int, offset as int, i) || out@[i].start == zoned_now),
                shift == self.shift(day as int, offset as int),
                s0 == self.start.occurrence(day as int, offset as int, 0),
                s_cur == self.start.occurrence(day as int, offset as int, k as int),
                e_cur == self.end.occurrence(day as int, offset as int, (shift + k) as int),
                -DAY_LIMIT * 86400 - 86400 <= s0 <= (DAY_LIMIT + 7) * 86400 + 86400,
                -DAY_LIMIT * 86400 - 86400 <= e0 <= (DAY_LIMIT + 7) * 86400 + 86400,
                e_first <= e0 || e_first < s0 + e_step,
                s0 <= s_cur,
                e_cur - e_first <= 7 * (s_cur - s0),
                total == k + count_below(s_cur as int, s_step as int, until as int),
                out@ == self.scan(now as int, offset as int, until as int, k).0,
                done == self.scan(now as int, offset as int, until as int, k).1,
            decreases count_below(s_cur as int, s_step as int, until as int),
        {
            let ghost k0 = k;
            let ghost prev = self.scan(now as int, offset as int, until as int, k0);
            if !done && s_cur <= e_cur {
                let start: i128 = if s_cur <= zoned_now as i128 && (zoned_now as i128) < e_cur {
                    zoned_now as i128
                } else {
                    s_cur
                };
                if start >= until as i128 {
                    done = true;
                } else {
                    out.push(ClosedRange { start: start as i64, end: e_cur as i64 });
                }
            }
            proof {
                lemma_occurrence_next(self.start, day as int, offset as int, k as int);
                lemma_occurrence_next(self.end, day as int, offset as int, (shift + k) as int);
            }
            s_cur = s_cur + s_step;
            e_cur = e_cur + e_step;
            proof {
                k = k + 1;
                assert((k - 1) as nat == k0);
                assert(self.shift(day_of(now as int), offset as int) == shift);
                assert(s_cur - s_step == self.start.occurrence(day_of(now as int), offset as int, k0 as int));
                assert(e_cur - e_step == self.end.occurrence(day_of(now as int), offset as int, (shift + k0) as int));
                assert(self.scan(now as int, offset as int, until as int, k) == (if prev.1 || s_cur - s_step > e_cur - e_step {
                    prev
                } else if (if s_cur - s_step <= zoned_now && zoned_now < e_cur - e_step { zoned_now as int } else { s_cur - s_step }) >= until {
                    (prev.0, true)
                } else {
                    (prev.0.push(ClosedRange {
                        start: (if s_cur - s_step <= zoned_now && zoned_now < e_cur - e_step { zoned_now as int } else { s_cur - s_step }) as i64,
                        end: (e_cur - e_step) as i64,
                    }), false)
                }));
            }
        }
        out
    }
}

/// The first occurrence of a weekly rule falls on the earliest day, on or
/// after the starting day, whose weekday is the rule's.
pub proof fn lemma_first_day_is_earliest(t: TimeOfDay, day: int)
    requires
        t.day_of_week is Some,
    ensures
        day <= t.first_day(day) < day + 7,
        weekday_of(t.first_day(day)) == t.day_of_week->Some_0.index(),
        forall|d: int| day <= d < t.first_day(day) ==> weekday_of(d) != t.day_of_week->Some_0.index(),
{
    let w = t.day_of_week->Some_0.index();
    let f = weekday_of(day);
    let q = (day + 3) / 7;
    vstd::arithmetic::div_mod::lemma_fundamental_div_mod(day + 3, 7);
    assert(day + 3 == 7 * q + f);
    assert(0 <= f < 7);
    let first = t.first_day(day);
    assert(weekday_of(first) == w) by {
        let n = first + 3;
        if f <= w {
            assert(n == 7 * q + w);
        } else {
            assert(n == 7 * (q + 1) + w);
        }
        assert(n % 7 == w) by (nonlinear_arith)
            requires
                n == 7 * q + w || n == 7 * (q + 1) + w,
                0 <= w < 7,
        ;
    }
    assert forall|d: int| day <= d < first implies weekday_of(d) != w by {
        let n = d + 3;
        let r = f + (d - day);
        assert(n == 7 * q + r);
        if r < 7 {
            assert(n % 7 == r) by (nonlinear_arith)
                requires
                    n == 7 * q + r,
                    0 <= r < 7,
            ;
        } else {
            assert(n % 7 == r - 7) by (nonlinear_arith)
                requires
                    n == 7 * (q + 1) + (r - 7),
                    0 <= r - 7 < 7,
            ;
        }
    }
}

/// `count_below` counts exactly the leading terms below the bound.
pub proof fn lemma_count_below(first: int, step: int, bound: int)
    requires
        step > 0,
    ensures
        first + count_below(first, step, bound) * step >= bound,
        forall|i: int| 0 <= i < count_below(first, step, bound) ==> #[trigger] (first + i * step) < bound,
    decreases (if first < bound { bound - first } else { 0 }),
{
    if first < bound {
        let n = count_below(first + step, step, bound);
        lemma_count_below(first + step, step, bound);
        assert(first + (n + 1) * step == (first + step) + n * step) by (nonlinear_arith);
        assert forall|i: int| 0 <= i < n + 1 implies #[trigger] (first + i * step) < bound by {
            if i > 0 {
                assert(first + i * step == (first + step) + (i - 1) * step) by (nonlinear_arith);
                assert((first + step) + (i - 1) * step < bound);
            }
        }
    }
}

/// After alignment, end `shift` is the first end occurrence that is not
/// earlier than the first start occurrence.
pub proof fn lemma_shift_aligns(d: TimeOfDayDuration, day: int, offset: int)
    ensures
        d.end.occurrence(day, offset, d.shift(day, offset) as int) >= d.start.occurrence(day, offset, 0),
        forall|j: int| 0 <= j < d.shift(day, offset) ==> #[trigger] d.end.occurrence(day, offset, j) < d.start.occurrence(day, offset, 0),
{
    let e0 = d.end.occurrence(day, offset, 0);
    let st = d.end.step();
    let s0 = d.start.occurrence(day, offset, 0);
    lemma_count_below(e0, st, s0);
    let n = d.shift(day, offset) as int;
    assert(d.end.occurrence(day, offset, n) == e0 + n * st) by (nonlinear_arith)
        requires
            d.end.occurrence(day, offset, n) == d.end.first_day(day) * 86400 + d.end.time - offset + n * st,
            e0 == d.end.first_day(day) * 86400 + d.end.time - offset + 0 * st,
    ;
    assert forall|j: int| 0 <= j < n implies #[trigger] d.end.occurrence(day, offset, j) < s0 by {
        assert(e0 + j * st < s0);
    }
}

proof fn lemma_occurrence_next(t: TimeOfDay, day: int, offset: int, k: int)
    ensures
        t.occurrence(day, offset, k + 1) == t.occurrence(day, offset, k) + t.step(),
{
    assert((k + 1) * t.step() == k * t.step() + t.step()) by (nonlinear_arith);
}

} // verus!
