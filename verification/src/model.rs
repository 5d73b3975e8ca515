//! What a recurrence rule means.
//!
//! A rule is a predicate on civil seconds: a civil second is a candidate of
//! the rule where its day and its time of day pass every by-part, and where
//! the parts that the rule leaves open agree with the start. The candidates
//! are grouped by period, the unit of the rule's frequency; of the periods,
//! every `interval`-th counts, from the one that holds the start.

use vstd::prelude::*;
use crate::calendar::{
    day_of, hour_of, minute_of, month_day_of, month_len, month_of, month_start, second_of, week_number, weekday_of,
    weeks_in_week_year, year_day_of, year_len, year_of, year_start, CIVIL_END, CIVIL_MIN, Weekday,
};
use crate::instant::InstantModel;

verus! {

/// The unit in which a rule repeats.
#[derive(Clone, Copy, Debug, PartialEq, Eq, Structural)]
pub enum Frequency {
    Yearly,
    Monthly,
    Weekly,
    Daily,
    Hourly,
    Minutely,
    Secondly,
}

/// A weekday, alone or with an ordinal: the `ordinal`-th such weekday of the
/// month or year, counted from the end where the ordinal is negative.
#[derive(Clone, Copy, Debug, PartialEq, Eq)]
pub struct OrdWeekday {
    pub weekday: Weekday,
    pub ordinal: Option<i64>,
}

/// Where a rule ends.
pub enum BoundModel {
    /// It does not end.
    Unbounded,
    /// After this many occurrences.
    Count(int),
    /// With the last occurrence that is not later than this instant.
    Until(int),
}

/// A recurrence rule.
pub struct RuleModel {
    pub freq: Frequency,
    pub interval: int,
    pub start: InstantModel,
    pub bound: BoundModel,
    /// The weekday on which weeks begin, from 0 for Monday.
    pub week_start: int,
    pub by_month: Seq<int>,
    pub by_month_day: Seq<int>,
    pub by_year_day: Seq<int>,
    pub by_week_no: Seq<int>,
    pub by_day: Seq<OrdWeekday>,
    pub by_hour: Seq<int>,
    pub by_minute: Seq<int>,
    pub by_second: Seq<int>,
    pub by_set_pos: Seq<int>,
}

/// The integers of a sequence of machine integers.
pub open spec fn ints(s: Seq<i64>) -> Seq<int> {
    s.map_values(|x: i64| x as int)
}

/// Every member of `s` lies between `lo` and `hi`.
pub open spec fn all_within(s: Seq<int>, lo: int, hi: int) -> bool {
    forall|i: int| 0 <= i < s.len() ==> lo <= #[trigger] s[i] <= hi
}

/// No member of `s` is zero.
pub open spec fn none_zero(s: Seq<int>) -> bool {
    forall|i: int| 0 <= i < s.len() ==> #[trigger] s[i] != 0
}

/// No weekday of `s` has an ordinal.
pub open spec fn no_ordinals(s: Seq<OrdWeekday>) -> bool {
    forall|i: int| 0 <= i < s.len() ==> (#[trigger] s[i]).ordinal is None
}

/// No ordinal in `s` is zero.
pub open spec fn ordinals_nonzero(s: Seq<OrdWeekday>) -> bool {
    forall|i: int| 0 <= i < s.len() ==> (#[trigger] s[i]).ordinal != Some(0i64)
}

impl RuleModel {
    /// The conditions that the engine relies on.
    pub open spec fn valid(self) -> bool {
        &&& self.interval >= 1
        &&& self.start.valid()
        &&& (self.bound matches BoundModel::Count(n) ==> n >= 1)
        &&& 0 <= self.week_start <= 6
        &&& all_within(self.by_month, 1, 12)
        &&& all_within(self.by_month_day, -31, 31) && none_zero(self.by_month_day)
        &&& all_within(self.by_year_day, -366, 366) && none_zero(self.by_year_day)
        &&& all_within(self.by_week_no, -53, 53) && none_zero(self.by_week_no)
        &&& ordinals_nonzero(self.by_day)
        &&& all_within(self.by_hour, 0, 23)
        &&& all_within(self.by_minute, 0, 59)
        &&& all_within(self.by_second, 0, 60)
        &&& none_zero(self.by_set_pos)
        &&& (self.freq == Frequency::Weekly ==> self.by_month_day.len() == 0 && self.by_year_day.len() == 0)
        &&& (self.freq == Frequency::Daily ==> no_ordinals(self.by_day))
        &&& (self.by_week_no.len() > 0 ==> self.freq == Frequency::Yearly)
    }

    /// Whether the rule names the days of its periods itself. Where it does
    /// not, the days are those that agree with the start.
    pub open spec fn names_days(self) -> bool {
        self.by_week_no.len() > 0 || self.by_year_day.len() > 0 || self.by_month_day.len() > 0 || self.by_day.len() > 0
    }

    /// The spans within which the ordinal of a weekday counts are months:
    /// in a monthly rule, and in a yearly one that names months.
    pub open spec fn ordinals_by_month(self) -> bool {
        self.freq == Frequency::Monthly || (self.freq == Frequency::Yearly && self.by_month.len() > 0)
    }

    /// The spans within which the ordinal of a weekday counts are years.
    pub open spec fn ordinals_by_year(self) -> bool {
        self.freq == Frequency::Yearly && self.by_month.len() == 0
    }
}

/// Whether the `pos`-th day of a span of `len` days holds the `n`-th
/// occurrence of its weekday in the span, counted from the end where `n` is
/// negative. Both `pos` and `n` count from 1.
pub open spec fn is_nth_in_span(pos: int, len: int, n: int) -> bool {
    if n > 0 {
        (pos - 1) / 7 + 1 == n
    } else {
        (len - pos) / 7 + 1 == -n
    }
}

/// Whether a number that counts from 1, or from the end with -1 for the
/// last of `len`, is in `set`.
pub open spec fn holds_either_way(set: Seq<int>, pos: int, len: int) -> bool {
    set.contains(pos) || set.contains(pos - len - 1)
}

/// Whether the month of `day` passes the months of the rule.
pub open spec fn month_ok(r: RuleModel, day: int) -> bool {
    r.by_month.len() == 0 || r.by_month.contains(month_of(day))
}

/// Whether the week of `day` passes the week numbers of the rule, counted
/// from the start of the year or, where negative, from its end.
pub open spec fn week_no_ok(r: RuleModel, day: int) -> bool {
    r.by_week_no.len() == 0 || holds_either_way(
        r.by_week_no,
        week_number(day, r.week_start),
        weeks_in_week_year(day, r.week_start),
    )
}

/// Whether `day` passes the days of the year of the rule, counted from the
/// start of the year or, where negative, from its end.
pub open spec fn year_day_ok(r: RuleModel, day: int) -> bool {
    r.by_year_day.len() == 0 || holds_either_way(r.by_year_day, year_day_of(day), year_len(year_of(day)))
}

/// Whether `day` passes the days of the month of the rule, counted from the
/// start of the month or, where negative, from its end.
pub open spec fn month_day_ok(r: RuleModel, day: int) -> bool {
    r.by_month_day.len() == 0 || holds_either_way(
        r.by_month_day,
        month_day_of(day),
        month_len(year_of(day), month_of(day)),
    )
}

/// Whether `day` is a day that the entry `e` of a rule's weekdays names.
pub open spec fn weekday_entry_ok(r: RuleModel, day: int, e: OrdWeekday) -> bool {
    e.weekday.index() == weekday_of(day) && match e.ordinal {
        None => true,
        Some(n) => if r.ordinals_by_month() {
            is_nth_in_span(month_day_of(day), month_len(year_of(day), month_of(day)), n as int)
        } else if r.ordinals_by_year() {
            is_nth_in_span(year_day_of(day), year_len(year_of(day)), n as int)
        } else {
            true
        },
    }
}

/// Whether `day` passes the weekdays of the rule.
pub open spec fn weekday_ok(r: RuleModel, day: int) -> bool {
    r.by_day.len() == 0 || exists|i: int| 0 <= i < r.by_day.len() && weekday_entry_ok(r, day, #[trigger] r.by_day[i])
}

/// What holds of the days of a rule that names no days itself: they agree
/// with the start in what is finer than the period.
pub open spec fn unnamed_day_ok(r: RuleModel, day: int) -> bool {
    let s = day_of(r.start.civil);
    r.names_days() || match r.freq {
        Frequency::Yearly => month_day_of(day) == month_day_of(s) && (r.by_month.len() == 0 ==> month_of(day) == month_of(
            s,
        )),
        Frequency::Monthly => month_day_of(day) == month_day_of(s),
        Frequency::Weekly => weekday_of(day) == weekday_of(s),
        _ => true,
    }
}

/// Whether the day `day` passes the by-parts of the rule that speak of days.
pub open spec fn day_ok(r: RuleModel, day: int) -> bool {
    &&& month_ok(r, day)
    &&& week_no_ok(r, day)
    &&& year_day_ok(r, day)
    &&& month_day_ok(r, day)
    &&& weekday_ok(r, day)
    &&& unnamed_day_ok(r, day)
}

/// Whether the frequency is coarser than hours, so that a rule without
/// hours of its own takes the hour of its start.
pub open spec fn coarser_than_hours(f: Frequency) -> bool {
    f == Frequency::Yearly || f == Frequency::Monthly || f == Frequency::Weekly || f == Frequency::Daily
}

/// Whether the frequency is coarser than minutes.
pub open spec fn coarser_than_minutes(f: Frequency) -> bool {
    coarser_than_hours(f) || f == Frequency::Hourly
}

/// Whether the frequency is coarser than seconds.
pub open spec fn coarser_than_seconds(f: Frequency) -> bool {
    coarser_than_minutes(f) || f == Frequency::Minutely
}

/// Whether the hour `h` passes: it is one of the hours of the rule or, where
/// the rule names none and is coarser than hours, the hour of the start.
pub open spec fn hour_ok(r: RuleModel, h: int) -> bool {
    if r.by_hour.len() > 0 {
        r.by_hour.contains(h)
    } else {
        coarser_than_hours(r.freq) ==> h == hour_of(r.start.civil)
    }
}

/// Whether the minute `m` passes: it is one of the minutes of the rule or,
/// where the rule names none and is coarser than minutes, the minute of the
/// start.
pub open spec fn minute_ok(r: RuleModel, m: int) -> bool {
    if r.by_minute.len() > 0 {
        r.by_minute.contains(m)
    } else {
        coarser_than_minutes(r.freq) ==> m == minute_of(r.start.civil)
    }
}

/// Whether the second `s` passes: it is one of the seconds of the rule or,
/// where the rule names none and is coarser than seconds, the second of the
/// start.
pub open spec fn second_ok(r: RuleModel, s: int) -> bool {
    if r.by_second.len() > 0 {
        r.by_second.contains(s)
    } else {
        coarser_than_seconds(r.freq) ==> s == second_of(r.start.civil)
    }
}

/// Whether the civil second `t` is a candidate of the rule: its day and its
/// time of day pass every by-part.
pub open spec fn is_candidate(r: RuleModel, t: int) -> bool {
    &&& day_ok(r, day_of(t))
    &&& hour_ok(r, hour_of(t))
    &&& minute_ok(r, minute_of(t))
    &&& second_ok(r, second_of(t))
}

/// The first civil second of the unit `u` of a frequency. Years are
/// numbered as in the calendar, months from month 1 of year 0, and weeks,
/// days, hours, minutes and seconds from the one that holds 1970-01-01T00:00:00
/// (weeks begin on the weekday `wkst`).
pub open spec fn unit_start(f: Frequency, wkst: int, u: int) -> int {
    match f {
        Frequency::Yearly => year_start(u) * 86400,
        Frequency::Monthly => month_start(u / 12, u % 12 + 1) * 86400,
        Frequency::Weekly => (7 * u + wkst - 3) * 86400,
        Frequency::Daily => u * 86400,
        Frequency::Hourly => u * 3600,
        Frequency::Minutely => u * 60,
        Frequency::Secondly => u,
    }
}

/// The unit of a frequency that holds the civil second `t`.
pub open spec fn unit_of(f: Frequency, wkst: int, t: int) -> int {
    match f {
        Frequency::Yearly => year_of(day_of(t)),
        Frequency::Monthly => year_of(day_of(t)) * 12 + month_of(day_of(t)) - 1,
        Frequency::Weekly => (day_of(t) + 3 - wkst) / 7,
        Frequency::Daily => t / 86400,
        Frequency::Hourly => t / 3600,
        Frequency::Minutely => t / 60,
        Frequency::Secondly => t,
    }
}

/// Whether the civil second `t` is on the schedule of the rule: a candidate,
/// not before the start, in a period that the interval counts.
pub open spec fn on_schedule(r: RuleModel, t: int) -> bool {
    &&& is_candidate(r, t)
    &&& t >= r.start.civil
    &&& (unit_of(r.freq, r.week_start, t) - unit_of(r.freq, r.week_start, r.start.civil)) % r.interval == 0
}

/// The seconds `s` with `from <= s < to` that the rule admits, each as the
/// civil second `base + s`, in ascending order.
pub open spec fn second_list(r: RuleModel, base: int, from: int, to: int) -> Seq<int>
    decreases to - from,
{
    if from >= to {
        Seq::empty()
    } else if second_ok(r, to - 1) {
        second_list(r, base, from, to - 1).push(base + to - 1)
    } else {
        second_list(r, base, from, to - 1)
    }
}

/// The candidates within the minutes `from` to `to - 1` of the hour that
/// begins at `base`, given that the rule admits the day and the hour.
pub open spec fn minute_list(r: RuleModel, base: int, from: int, to: int) -> Seq<int>
    decreases to - from,
{
    if from >= to {
        Seq::empty()
    } else if minute_ok(r, to - 1) {
        minute_list(r, base, from, to - 1) + second_list(r, base + (to - 1) * 60, 0, 60)
    } else {
        minute_list(r, base, from, to - 1)
    }
}

/// The candidates within the hours `from` to `to - 1` of the day that begins
/// at `base`, given that the rule admits the day.
pub open spec fn hour_list(r: RuleModel, base: int, from: int, to: int) -> Seq<int>
    decreases to - from,
{
    if from >= to {
        Seq::empty()
    } else if hour_ok(r, to - 1) {
        hour_list(r, base, from, to - 1) + minute_list(r, base + (to - 1) * 3600, 0, 60)
    } else {
        hour_list(r, base, from, to - 1)
    }
}

/// The candidates within the days `from` to `to - 1`.
pub open spec fn day_list(r: RuleModel, from: int, to: int) -> Seq<int>
    decreases to - from,
{
    if from >= to {
        Seq::empty()
    } else if day_ok(r, to - 1) {
        day_list(r, from, to - 1) + hour_list(r, (to - 1) * 86400, 0, 24)
    } else {
        day_list(r, from, to - 1)
    }
}

/// The candidates of the rule within the unit `u` of its frequency, in
/// ascending order.
pub open spec fn unit_candidates(r: RuleModel, u: int) -> Seq<int> {
    match r.freq {
        Frequency::Yearly => day_list(r, year_start(u), year_start(u + 1)),
        Frequency::Monthly => day_list(
            r,
            month_start(u / 12, u % 12 + 1),
            month_start(u / 12, u % 12 + 1) + month_len(u / 12, u % 12 + 1),
        ),
        Frequency::Weekly => day_list(r, 7 * u + r.week_start - 3, 7 * u + r.week_start + 4),
        Frequency::Daily => day_list(r, u, u + 1),
        Frequency::Hourly => if day_ok(r, day_of(u * 3600)) {
            hour_list(r, day_of(u * 3600) * 86400, hour_of(u * 3600), hour_of(u * 3600) + 1)
        } else {
            Seq::empty()
        },
        Frequency::Minutely => if day_ok(r, day_of(u * 60)) && hour_ok(r, hour_of(u * 60)) {
            minute_list(r, u * 60 - minute_of(u * 60) * 60, minute_of(u * 60), minute_of(u * 60) + 1)
        } else {
            Seq::empty()
        },
        Frequency::Secondly => if day_ok(r, day_of(u)) && hour_ok(r, hour_of(u)) && minute_ok(r, minute_of(u)) {
            second_list(r, u - second_of(u), second_of(u), second_of(u) + 1)
        } else {
            Seq::empty()
        },
    }
}

/// Whether the positions `pos` choose the entry at index `i` of a list of
/// `len` entries: positions count from 1, negative ones from the end.
pub open spec fn position_chosen(pos: Seq<int>, len: int, i: int) -> bool {
    pos.contains(i + 1) || pos.contains(i - len)
}

/// The entries of `c` among its first `n` that the positions choose, in the
/// order of `c`.
pub open spec fn chosen_upto(c: Seq<int>, pos: Seq<int>, n: int) -> Seq<int>
    decreases n,
{
    if n <= 0 {
        Seq::empty()
    } else if position_chosen(pos, c.len() as int, n - 1) {
        chosen_upto(c, pos, n - 1).push(c[n - 1])
    } else {
        chosen_upto(c, pos, n - 1)
    }
}

/// What the positions choose of the candidates of a period; all of them
/// where there are no positions.
pub open spec fn choose_positions(c: Seq<int>, pos: Seq<int>) -> Seq<int> {
    if pos.len() == 0 {
        c
    } else {
        chosen_upto(c, pos, c.len() as int)
    }
}

/// The entries among the first `n` of `s` that are not less than `floor`,
/// in the order of `s`.
pub open spec fn kept_upto(s: Seq<int>, floor: int, n: int) -> Seq<int>
    decreases n,
{
    if n <= 0 {
        Seq::empty()
    } else if s[n - 1] >= floor {
        kept_upto(s, floor, n - 1).push(s[n - 1])
    } else {
        kept_upto(s, floor, n - 1)
    }
}

/// The civil seconds that the unit `u` contributes to the rule: of its
/// candidates those that the positions choose, without those before the
/// start.
pub open spec fn unit_yield(r: RuleModel, u: int) -> Seq<int> {
    let chosen = choose_positions(unit_candidates(r, u), r.by_set_pos);
    kept_upto(chosen, r.start.civil, chosen.len() as int)
}

/// Whether the unit `u` of a frequency has a part in the years 1 to 9999.
pub open spec fn unit_in_range(f: Frequency, wkst: int, u: int) -> bool {
    unit_start(f, wkst, u + 1) > CIVIL_MIN && unit_start(f, wkst, u) < CIVIL_END
}

/// Whether a sequence ascends strictly.
pub open spec fn ascending(s: Seq<int>) -> bool {
    forall|i: int, j: int| 0 <= i < j < s.len() ==> s[i] < s[j]
}

} // verus!
