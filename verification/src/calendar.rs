//! The proleptic Gregorian calendar on day numbers.
//!
//! A day number counts days from 1970-01-01, which is day 0. The calendar is
//! total on the years 0 to 10000: one year more on either side than an
//! instant may lie in, so that the week round any admissible day is covered.

use vstd::prelude::*;
use vstd::arithmetic::div_mod::{lemma_fundamental_div_mod, lemma_fundamental_div_mod_converse};

verus! {

/// The first year on which the calendar is defined.
pub const CAL_MIN_YEAR: i64 = 0;

/// The last year on which the calendar is defined.
pub const CAL_MAX_YEAR: i64 = 10000;

/// The day number of 0000-01-01.
pub const CAL_MIN_DAY: i64 = -719528;

/// The day number of 10001-01-01: one past the last day of the calendar.
pub const CAL_END_DAY: i64 = 2933263;

/// The days between 0000-01-01 and 1970-01-01.
pub const EPOCH_SHIFT: i64 = 719528;

/// A date of the calendar.
#[derive(Clone, Copy, Debug, PartialEq, Eq)]
pub struct CivilDate {
    pub year: i64,
    pub month: i64,
    pub day: i64,
}

/// Whether the year `y` has a February 29.
pub open spec fn is_leap(y: int) -> bool {
    y % 4 == 0 && (y % 100 != 0 || y % 400 == 0)
}

/// The number of days of the year `y`.
pub open spec fn year_len(y: int) -> int {
    if is_leap(y) {
        366
    } else {
        365
    }
}

/// The number of days of month `m` of year `y`.
pub open spec fn month_len(y: int, m: int) -> int {
    if m == 2 {
        if is_leap(y) {
            29
        } else {
            28
        }
    } else if m == 4 || m == 6 || m == 9 || m == 11 {
        30
    } else {
        31
    }
}

/// The days of year `y` that lie before its month `m`.
pub open spec fn days_before_month(y: int, m: int) -> int {
    let base: int = if m <= 1 {
        0
    } else if m == 2 {
        31
    } else if m == 3 {
        59
    } else if m == 4 {
        90
    } else if m == 5 {
        120
    } else if m == 6 {
        151
    } else if m == 7 {
        181
    } else if m == 8 {
        212
    } else if m == 9 {
        243
    } else if m == 10 {
        273
    } else if m == 11 {
        304
    } else {
        334
    };
    if m > 2 && is_leap(y) {
        base + 1
    } else {
        base
    }
}

/// The days between 0000-01-01 and the first day of year `y`, for `y >= 0`.
pub open spec fn days_before_year(y: int) -> int {
    365 * y + (y + 3) / 4 - (y + 99) / 100 + (y + 399) / 400
}

/// The day number of the first day of year `y`.
pub open spec fn year_start(y: int) -> int {
    days_before_year(y) - EPOCH_SHIFT
}

/// The day number of the first day of month `m` of year `y`.
pub open spec fn month_start(y: int, m: int) -> int {
    year_start(y) + days_before_month(y, m)
}

/// Whether `y`-`m`-`d` is a date of the calendar.
pub open spec fn valid_date(y: int, m: int, d: int) -> bool {
    CAL_MIN_YEAR <= y <= CAL_MAX_YEAR && 1 <= m <= 12 && 1 <= d <= month_len(y, m)
}

/// The day number of the date `y`-`m`-`d`.
pub open spec fn day_number(y: int, m: int, d: int) -> int {
    month_start(y, m) + d - 1
}

impl CivilDate {
    /// Whether this is a date of the calendar.
    pub open spec fn valid(self) -> bool {
        valid_date(self.year as int, self.month as int, self.day as int)
    }

    /// The day number of this date.
    pub open spec fn number(self) -> int {
        day_number(self.year as int, self.month as int, self.day as int)
    }
}

/// Whether `day` is a day of the calendar.
pub open spec fn in_calendar(day: int) -> bool {
    CAL_MIN_DAY <= day < CAL_END_DAY
}

/// The date that has the day number `day`.
pub open spec fn civil_of(day: int) -> CivilDate {
    choose|c: CivilDate| c.valid() && c.number() == day
}

/// The year of the day `day`.
pub open spec fn year_of(day: int) -> int {
    civil_of(day).year as int
}

/// The month of the day `day`, from 1.
pub open spec fn month_of(day: int) -> int {
    civil_of(day).month as int
}

/// The day of the month of the day `day`, from 1.
pub open spec fn month_day_of(day: int) -> int {
    civil_of(day).day as int
}

/// The day of the year, from 1.
pub open spec fn year_day_of(day: int) -> int {
    day - year_start(year_of(day)) + 1
}

/// The day of the week, from 0 for Monday to 6 for Sunday.
pub open spec fn weekday_of(day: int) -> int {
    (day + 3) % 7
}

/// The first day of the week that holds `day`, in weeks that begin on the
/// weekday `wkst`.
pub open spec fn week_first_day(day: int, wkst: int) -> int {
    day - (weekday_of(day) - wkst) % 7
}

/// The fourth day of the week that holds `day`. A week belongs to the year
/// in which its fourth day lies, and so has at least four days in it.
pub open spec fn week_pivot(day: int, wkst: int) -> int {
    week_first_day(day, wkst) + 3
}

/// The number of the week that holds `day`, within the year that the week
/// belongs to; week 1 is the first week with four days or more in the year.
pub open spec fn week_number(day: int, wkst: int) -> int {
    (year_day_of(week_pivot(day, wkst)) - 1) / 7 + 1
}

/// The number of weeks of the year that the week of `day` belongs to.
pub open spec fn weeks_in_week_year(day: int, wkst: int) -> int {
    let y = year_of(week_pivot(day, wkst));
    let last = year_start(y + 1) - 1;
    week_number(last - (weekday_of(last) - wkst - 3) % 7, wkst)
}

/// A year begins where the year before it ends.
pub proof fn lemma_year_step(y: int)
    requires
        0 <= y,
    ensures
        days_before_year(y + 1) == days_before_year(y) + year_len(y),
{
}

/// A later year begins later.
pub proof fn lemma_year_start_monotonic(a: int, b: int)
    requires
        0 <= a <= b,
    ensures
        year_start(a) <= year_start(b),
        a < b ==> year_start(a + 1) <= year_start(b),
    decreases b - a,
{
    if a < b {
        lemma_year_step(b - 1);
        lemma_year_start_monotonic(a, b - 1);
    }
}

/// A date lies within its year and within its month.
pub proof fn lemma_date_within_year(y: int, m: int, d: int)
    requires
        valid_date(y, m, d),
    ensures
        year_start(y) <= day_number(y, m, d) < year_start(y + 1),
        month_start(y, m) <= day_number(y, m, d) < month_start(y, m) + month_len(y, m),
        days_before_month(y, m) + month_len(y, m) <= year_len(y),
        in_calendar(day_number(y, m, d)),
{
    lemma_year_step(y);
    lemma_year_start_monotonic(0, y);
    lemma_year_start_monotonic(y + 1, 10001);
}

/// No two dates share a day number.
pub proof fn lemma_day_number_injective(a: CivilDate, b: CivilDate)
    requires
        a.valid(),
        b.valid(),
        a.number() == b.number(),
    ensures
        a == b,
{
    let (ay, am, ad) = (a.year as int, a.month as int, a.day as int);
    let (by, bm, bd) = (b.year as int, b.month as int, b.day as int);
    lemma_date_within_year(ay, am, ad);
    lemma_date_within_year(by, bm, bd);
    if ay < by {
        lemma_year_start_monotonic(ay, by);
    }
    if by < ay {
        lemma_year_start_monotonic(by, ay);
    }
    assert(ay == by);
    assert(am == bm);
}

/// The date found for a day number is the date of that day.
pub proof fn lemma_civil_of(c: CivilDate)
    requires
        c.valid(),
    ensures
        civil_of(c.number()) == c,
{
    let day = c.number();
    let e = civil_of(day);
    assert(e.valid() && e.number() == day);
    lemma_day_number_injective(c, e);
}

/// Every day of a year of the calendar is a date of that year.
pub proof fn lemma_date_exists(y: int, day: int)
    requires
        0 <= y <= 10000,
        year_start(y) <= day < year_start(y + 1),
    ensures
        year_of(day) == y,
        1 <= month_of(day) <= 12,
        month_start(y, month_of(day)) <= day < month_start(y, month_of(day)) + month_len(y, month_of(day)),
        month_day_of(day) == day - month_start(y, month_of(day)) + 1,
        civil_of(day).valid(),
{
    lemma_year_step(y);
    let rem = day - year_start(y);
    let m: int = if rem < days_before_month(y, 2) {
        1
    } else if rem < days_before_month(y, 3) {
        2
    } else if rem < days_before_month(y, 4) {
        3
    } else if rem < days_before_month(y, 5) {
        4
    } else if rem < days_before_month(y, 6) {
        5
    } else if rem < days_before_month(y, 7) {
        6
    } else if rem < days_before_month(y, 8) {
        7
    } else if rem < days_before_month(y, 9) {
        8
    } else if rem < days_before_month(y, 10) {
        9
    } else if rem < days_before_month(y, 11) {
        10
    } else if rem < days_before_month(y, 12) {
        11
    } else {
        12
    };
    let c = CivilDate { year: y as i64, month: m as i64, day: (rem - days_before_month(y, m) + 1) as i64 };
    assert(c.valid());
    assert(c.number() == day);
    lemma_civil_of(c);
}

/// The year of a day is the year within which the day lies.
pub proof fn lemma_year_of(y: int, day: int)
    requires
        0 <= y <= 10000,
        in_calendar(day),
    ensures
        year_of(day) == y <==> year_start(y) <= day < year_start(y + 1),
{
    if year_start(y) <= day < year_start(y + 1) {
        lemma_date_exists(y, day);
    } else {
        lemma_day_in_some_year(day, 0, 10001);
        let z = choose|z: int| 0 <= z < 10001 && #[trigger] year_start(z) <= day && day < year_start(z + 1);
        lemma_date_exists(z, day);
        if z < y {
            lemma_year_start_monotonic(z + 1, y);
        }
        if y < z {
            lemma_year_start_monotonic(y + 1, z);
        }
    }
}

/// A day between the first days of two years lies in one of the years
/// between them.
pub proof fn lemma_day_in_some_year(day: int, a: int, b: int)
    requires
        0 <= a < b <= 10001,
        year_start(a) <= day < year_start(b),
    ensures
        exists|z: int| a <= z < b && #[trigger] year_start(z) <= day && day < year_start(z + 1),
    decreases b - a,
{
    if day >= year_start(b - 1) {
        assert(a <= b - 1 < b && year_start(b - 1) <= day < year_start(b - 1 + 1));
    } else {
        lemma_day_in_some_year(day, a, b - 1);
    }
}

/// Whether the year `y` has a February 29. Years count from year 0.
pub fn is_leap_year(y: i64) -> (b: bool)
    requires
        0 <= y,
    ensures
        b == is_leap(y as int),
{
    y % 4 == 0 && (y % 100 != 0 || y % 400 == 0)
}

/// The number of days of the year `y`.
pub fn days_in_year(y: i64) -> (n: i64)
    requires
        0 <= y,
    ensures
        n == year_len(y as int),
{
    if is_leap_year(y) {
        366
    } else {
        365
    }
}

/// The number of days of month `m` of year `y`.
pub fn days_in_month(y: i64, m: i64) -> (n: i64)
    requires
        0 <= y,
    ensures
        n == month_len(y as int, m as int),
{
    if m == 2 {
        if is_leap_year(y) {
            29
        } else {
            28
        }
    } else if m == 4 || m == 6 || m == 9 || m == 11 {
        30
    } else {
        31
    }
}

/// The days of year `y` that lie before its month `m`.
fn month_offset(y: i64, m: i64) -> (n: i64)
    requires
        0 <= y,
    ensures
        n == days_before_month(y as int, m as int),
        0 <= n <= 335,
{
    let base: i64 = if m <= 1 {
        0
    } else if m == 2 {
        31
    } else if m == 3 {
        59
    } else if m == 4 {
        90
    } else if m == 5 {
        120
    } else if m == 6 {
        151
    } else if m == 7 {
        181
    } else if m == 8 {
        212
    } else if m == 9 {
        243
    } else if m == 10 {
        273
    } else if m == 11 {
        304
    } else {
        334
    };
    if m > 2 && is_leap_year(y) {
        base + 1
    } else {
        base
    }
}

/// The day number of the first day of year `y`.
pub fn first_day_of_year(y: i64) -> (n: i64)
    requires
        0 <= y <= 10001,
    ensures
        n == year_start(y as int),
        -719528 <= n <= 2933263,
{
    proof {
        lemma_year_start_monotonic(0, y as int);
        lemma_year_start_monotonic(y as int, 10001);
    }
    365 * y + (y + 3) / 4 - (y + 99) / 100 + (y + 399) / 400 - 719528
}

/// The day number of the first day of month `m` of year `y`.
pub fn first_day_of_month(y: i64, m: i64) -> (n: i64)
    requires
        0 <= y <= 10000,
        1 <= m <= 12,
    ensures
        n == month_start(y as int, m as int),
        in_calendar(n as int),
{
    proof {
        lemma_date_within_year(y as int, m as int, 1);
    }
    first_day_of_year(y) + month_offset(y, m)
}

/// The day number of a date.
pub fn day_number_of(y: i64, m: i64, d: i64) -> (n: i64)
    requires
        valid_date(y as int, m as int, d as int),
    ensures
        n == day_number(y as int, m as int, d as int),
        in_calendar(n as int),
{
    proof {
        lemma_date_within_year(y as int, m as int, d as int);
    }
    first_day_of_month(y, m) + d - 1
}

/// The date of a day number.
pub fn civil_from_days(day: i64) -> (c: CivilDate)
    requires
        in_calendar(day as int),
    ensures
        c == civil_of(day as int),
        c.valid(),
        c.number() == day,
{
    let n: i64 = day + 719528;
    let mut y: i64 = n / 366;
    proof {
        lemma_year_start_monotonic(0, y as int);
    }
    while y < 10000 && first_day_of_year(y + 1) <= day
        invariant
            0 <= y <= 10000,
            year_start(y as int) <= day,
            in_calendar(day as int),
        decreases 10000 - y,
    {
        y += 1;
    }
    proof {
        if y == 10000 {
            assert(year_start(10001) == 2933263);
        }
        assert(day < year_start(y + 1));
        lemma_year_step(y as int);
    }
    let rem: i64 = day - first_day_of_year(y);
    let mut m: i64 = 1;
    while m < 12 && month_offset(y, m + 1) <= rem
        invariant
            1 <= m <= 12,
            0 <= y <= 10000,
            days_before_month(y as int, m as int) <= rem,
            0 <= rem < year_len(y as int),
        decreases 12 - m,
    {
        m += 1;
    }
    let d: i64 = rem - month_offset(y, m) + 1;
    let c = CivilDate { year: y, month: m, day: d };
    proof {
        assert(c.valid());
        assert(c.number() == day);
        lemma_civil_of(c);
    }
    c
}

/// The day of the week of a day number, from 0 for Monday.
pub fn weekday_index(day: i64) -> (w: i64)
    requires
        in_calendar(day as int),
    ensures
        w == weekday_of(day as int),
        0 <= w <= 6,
{
    (day + 719533) % 7
}

/// The first second of year 1, counted from 1970-01-01T00:00:00 on the civil
/// clock: the first civil second that an instant may carry.
pub const CIVIL_MIN: i64 = -62135596800;

/// The first second of year 10000: one past the last civil second that an
/// instant may carry.
pub const CIVIL_END: i64 = 253402300800;

/// Whether the civil second `t` lies in the years 1 to 9999.
pub open spec fn in_civil_range(t: int) -> bool {
    CIVIL_MIN <= t < CIVIL_END
}

/// Whether the civil second `t` lies in the years of the calendar.
pub open spec fn in_calendar_seconds(t: int) -> bool {
    -719528 * 86400 <= t < 2933263 * 86400
}

/// The day number of the day that holds the civil second `t`.
pub open spec fn day_of(t: int) -> int {
    t / 86400
}

/// The hour of the day of the civil second `t`.
pub open spec fn hour_of(t: int) -> int {
    (t % 86400) / 3600
}

/// The minute of the hour of the civil second `t`.
pub open spec fn minute_of(t: int) -> int {
    (t % 3600) / 60
}

/// The second of the minute of the civil second `t`.
pub open spec fn second_of(t: int) -> int {
    t % 60
}

/// The civil second of a day and a time of day.
pub open spec fn civil_seconds(day: int, hour: int, minute: int, second: int) -> int {
    day * 86400 + hour * 3600 + minute * 60 + second
}

/// Whether the three fields name a time of day.
pub open spec fn valid_time(hour: int, minute: int, second: int) -> bool {
    0 <= hour <= 23 && 0 <= minute <= 59 && 0 <= second <= 59
}

/// The parts of a civil second are the parts it was made of.
pub proof fn lemma_civil_seconds_parts(day: int, hour: int, minute: int, second: int)
    requires
        valid_time(hour, minute, second),
    ensures
        day_of(civil_seconds(day, hour, minute, second)) == day,
        hour_of(civil_seconds(day, hour, minute, second)) == hour,
        minute_of(civil_seconds(day, hour, minute, second)) == minute,
        second_of(civil_seconds(day, hour, minute, second)) == second,
{
    let t = civil_seconds(day, hour, minute, second);
    let r = hour * 3600 + minute * 60 + second;
    let q = minute * 60 + second;
    lemma_fundamental_div_mod_converse(t, 86400, day, r);
    lemma_fundamental_div_mod_converse(r, 3600, hour, q);
    lemma_fundamental_div_mod_converse(t, 3600, day * 24 + hour, q);
    lemma_fundamental_div_mod_converse(q, 60, minute, second);
    lemma_fundamental_div_mod_converse(t, 60, day * 1440 + hour * 60 + minute, second);
}

/// A civil second is made of its parts.
pub proof fn lemma_civil_seconds_whole(t: int)
    ensures
        civil_seconds(day_of(t), hour_of(t), minute_of(t), second_of(t)) == t,
        valid_time(hour_of(t), minute_of(t), second_of(t)),
{
    let r = t % 86400;
    let q = r % 3600;
    lemma_fundamental_div_mod(t, 86400);
    lemma_fundamental_div_mod(r, 3600);
    lemma_fundamental_div_mod(q, 60);
    lemma_fundamental_div_mod_converse(t, 3600, (t / 86400) * 24 + r / 3600, q);
    lemma_fundamental_div_mod_converse(t, 60, (t / 86400) * 1440 + (r / 3600) * 60 + q / 60, q % 60);
}

/// The day number of the day that holds a civil second.
pub fn day_of_seconds(t: i64) -> (d: i64)
    requires
        in_calendar_seconds(t as int),
    ensures
        d == day_of(t as int),
        in_calendar(d as int),
{
    (t + 62167219200) / 86400 - 719528
}

/// The second within its day of a civil second.
pub fn second_of_day(t: i64) -> (s: i64)
    requires
        in_calendar_seconds(t as int),
    ensures
        s == (t as int) % 86400,
        0 <= s < 86400,
{
    (t + 62167219200) % 86400
}

/// A day of the week.
#[derive(Clone, Copy, Debug, PartialEq, Eq, Structural)]
pub enum Weekday {
    Mo,
    Tu,
    We,
    Th,
    Fr,
    Sa,
    Su,
}

impl Weekday {
    /// The place of the weekday in a week that begins on Monday, from 0.
    pub open spec fn index(self) -> int {
        match self {
            Weekday::Mo => 0,
            Weekday::Tu => 1,
            Weekday::We => 2,
            Weekday::Th => 3,
            Weekday::Fr => 4,
            Weekday::Sa => 5,
            Weekday::Su => 6,
        }
    }

    /// The place of the weekday in a week that begins on Monday, from 0.
    pub fn number(self) -> (n: i64)
        ensures
            n == self.index(),
            0 <= n <= 6,
    {
        match self {
            Weekday::Mo => 0,
            Weekday::Tu => 1,
            Weekday::We => 2,
            Weekday::Th => 3,
            Weekday::Fr => 4,
            Weekday::Sa => 5,
            Weekday::Su => 6,
        }
    }

    /// The weekday of a day number.
    pub fn of_day(day: i64) -> (w: Weekday)
        requires
            in_calendar(day as int),
        ensures
            w.index() == weekday_of(day as int),
    {
        let n = weekday_index(day);
        if n == 0 {
            Weekday::Mo
        } else if n == 1 {
            Weekday::Tu
        } else if n == 2 {
            Weekday::We
        } else if n == 3 {
            Weekday::Th
        } else if n == 4 {
            Weekday::Fr
        } else if n == 5 {
            Weekday::Sa
        } else {
            Weekday::Su
        }
    }
}

} // verus!
