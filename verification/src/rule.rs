//! The rule value: the parts of a rule as a parser or a builder hands them
//! over, the test that admits them, and the questions that the expansion
//! asks of a rule.

use vstd::prelude::*;
use crate::calendar::{
    civil_from_days, days_in_month, days_in_year, first_day_of_year, in_calendar, lemma_date_within_year,
    lemma_year_step, month_day_of, month_len, month_of, week_number, week_pivot, weekday_index, weekday_of,
    weeks_in_week_year, year_day_of, year_len, year_of, Weekday,
};
use crate::error::RuleError;
use crate::instant::ZonedInstant;
use crate::model::{
    all_within, day_ok, holds_either_way, hour_ok, ints, is_nth_in_span, minute_ok, no_ordinals, none_zero,
    ordinals_nonzero, second_ok, weekday_entry_ok, weekday_ok, BoundModel, Frequency, OrdWeekday, RuleModel,
};

verus! {

/// The parts of a rule, as a parser or a builder hands them over. Nothing
/// is known of them until `RuleValue::new` has admitted them.
pub struct RuleParts {
    pub freq: Frequency,
    pub interval: i64,
    pub start: ZonedInstant,
    pub count: Option<i64>,
    pub until: Option<ZonedInstant>,
    pub week_start: Weekday,
    pub by_month: Vec<i64>,
    pub by_month_day: Vec<i64>,
    pub by_year_day: Vec<i64>,
    pub by_week_no: Vec<i64>,
    pub by_day: Vec<OrdWeekday>,
    pub by_hour: Vec<i64>,
    pub by_minute: Vec<i64>,
    pub by_second: Vec<i64>,
    pub by_set_pos: Vec<i64>,
}

impl RuleParts {
    /// The bound that the parts name; a count where they name both.
    pub open spec fn bound(&self) -> BoundModel {
        match (self.count, self.until) {
            (Some(n), _) => BoundModel::Count(n as int),
            (None, Some(u)) => BoundModel::Until(u@.instant),
            (None, None) => BoundModel::Unbounded,
        }
    }

    /// The rule that the parts describe.
    pub open spec fn model(&self) -> RuleModel {
        RuleModel {
            freq: self.freq,
            interval: self.interval as int,
            start: self.start@,
            bound: self.bound(),
            week_start: self.week_start.index(),
            by_month: ints(self.by_month@),
            by_month_day: ints(self.by_month_day@),
            by_year_day: ints(self.by_year_day@),
            by_week_no: ints(self.by_week_no@),
            by_day: self.by_day@,
            by_hour: ints(self.by_hour@),
            by_minute: ints(self.by_minute@),
            by_second: ints(self.by_second@),
            by_set_pos: ints(self.by_set_pos@),
        }
    }

    /// Whether the parts make a rule: they name at most one bound, and the
    /// rule they describe is valid.
    pub open spec fn acceptable(&self) -> bool {
        !(self.count is Some && self.until is Some) && self.model().valid()
    }

    /// The parts of the plain rule of a frequency and a start: every period,
    /// without bound, weeks from Monday, no by-part.
    pub fn new(freq: Frequency, start: ZonedInstant) -> (p: RuleParts)
        ensures
            p.freq == freq,
            p.interval == 1,
            p.start@ == start@,
            p.count is None,
            p.until is None,
            p.week_start == Weekday::Mo,
            p.by_month@.len() == 0,
            p.by_month_day@.len() == 0,
            p.by_year_day@.len() == 0,
            p.by_week_no@.len() == 0,
            p.by_day@.len() == 0,
            p.by_hour@.len() == 0,
            p.by_minute@.len() == 0,
            p.by_second@.len() == 0,
            p.by_set_pos@.len() == 0,
    {
        RuleParts {
            freq,
            interval: 1,
            start,
            count: None,
            until: None,
            week_start: Weekday::Mo,
            by_month: Vec::new(),
            by_month_day: Vec::new(),
            by_year_day: Vec::new(),
            by_week_no: Vec::new(),
            by_day: Vec::new(),
            by_hour: Vec::new(),
            by_minute: Vec::new(),
            by_second: Vec::new(),
            by_set_pos: Vec::new(),
        }
    }
}

/// Whether `x` is a member of `v`.
pub fn holds(v: &Vec<i64>, x: i64) -> (b: bool)
    ensures
        b == ints(v@).contains(x as int),
{
    let mut i: usize = 0;
    while i < v.len()
        invariant
            i <= v.len(),
            forall|j: int| 0 <= j < i ==> ints(v@)[j] != x,
        decreases v.len() - i,
    {
        if v[i] == x {
            assert(ints(v@)[i as int] == x as int);
            return true;
        }
        i += 1;
    }
    false
}

/// Whether every member of `v` lies between `lo` and `hi`.
fn members_within(v: &Vec<i64>, lo: i64, hi: i64) -> (b: bool)
    ensures
        b == all_within(ints(v@), lo as int, hi as int),
{
    let mut i: usize = 0;
    while i < v.len()
        invariant
            i <= v.len(),
            forall|j: int| 0 <= j < i ==> lo <= #[trigger] ints(v@)[j] <= hi,
        decreases v.len() - i,
    {
        if v[i] < lo || v[i] > hi {
            assert(!(lo <= ints(v@)[i as int] <= hi));
            return false;
        }
        i += 1;
    }
    true
}

/// Whether no member of `v` is zero.
fn members_nonzero(v: &Vec<i64>) -> (b: bool)
    ensures
        b == none_zero(ints(v@)),
{
    let mut i: usize = 0;
    while i < v.len()
        invariant
            i <= v.len(),
            forall|j: int| 0 <= j < i ==> #[trigger] ints(v@)[j] != 0,
        decreases v.len() - i,
    {
        if v[i] == 0 {
            assert(ints(v@)[i as int] == 0);
            return false;
        }
        i += 1;
    }
    true
}

/// Whether no weekday of `v` has an ordinal.
fn without_ordinals(v: &Vec<OrdWeekday>) -> (b: bool)
    ensures
        b == no_ordinals(v@),
{
    let mut i: usize = 0;
    while i < v.len()
        invariant
            i <= v.len(),
            forall|j: int| 0 <= j < i ==> (#[trigger] v@[j]).ordinal is None,
        decreases v.len() - i,
    {
        if v[i].ordinal.is_some() {
            return false;
        }
        i += 1;
    }
    true
}

/// Whether no ordinal in `v` is zero.
fn without_zero_ordinals(v: &Vec<OrdWeekday>) -> (b: bool)
    ensures
        b == ordinals_nonzero(v@),
{
    let mut i: usize = 0;
    while i < v.len()
        invariant
            i <= v.len(),
            forall|j: int| 0 <= j < i ==> (#[trigger] v@[j]).ordinal != Some(0i64),
        decreases v.len() - i,
    {
        match v[i].ordinal {
            Some(n) => {
                if n == 0 {
                    return false;
                }
            },
            None => {},
        }
        i += 1;
    }
    true
}

/// The same list once more.
fn copy_list(v: &Vec<i64>) -> (r: Vec<i64>)
    ensures
        r@ == v@,
{
    let mut r: Vec<i64> = Vec::new();
    let mut i: usize = 0;
    while i < v.len()
        invariant
            i <= v.len(),
            r@ == v@.subrange(0, i as int),
        decreases v.len() - i,
    {
        r.push(v[i]);
        i += 1;
        assert(r@ =~= v@.subrange(0, i as int));
    }
    assert(r@ =~= v@);
    r
}

/// The same weekdays once more.
fn copy_weekdays(v: &Vec<OrdWeekday>) -> (r: Vec<OrdWeekday>)
    ensures
        r@ == v@,
{
    let mut r: Vec<OrdWeekday> = Vec::new();
    let mut i: usize = 0;
    while i < v.len()
        invariant
            i <= v.len(),
            r@ == v@.subrange(0, i as int),
        decreases v.len() - i,
    {
        r.push(v[i]);
        i += 1;
        assert(r@ =~= v@.subrange(0, i as int));
    }
    assert(r@ =~= v@);
    r
}

/// What the expansion needs to know of a day.
struct DayFacts {
    year: i64,
    month: i64,
    month_day: i64,
    year_day: i64,
    weekday: i64,
    month_len: i64,
    year_len: i64,
}

/// What the expansion needs to know of the day `day`.
fn day_facts(day: i64) -> (f: DayFacts)
    requires
        in_calendar(day as int),
    ensures
        f.year == year_of(day as int),
        f.month == month_of(day as int),
        f.month_day == month_day_of(day as int),
        f.year_day == year_day_of(day as int),
        f.weekday == weekday_of(day as int),
        f.month_len == month_len(year_of(day as int), month_of(day as int)),
        f.year_len == year_len(year_of(day as int)),
        0 <= f.year <= 10000,
        1 <= f.month <= 12,
        1 <= f.month_day <= f.month_len <= 31,
        1 <= f.year_day <= f.year_len <= 366,
        0 <= f.weekday <= 6,
{
    let c = civil_from_days(day);
    proof {
        lemma_date_within_year(c.year as int, c.month as int, c.day as int);
        lemma_year_step(c.year as int);
    }
    DayFacts {
        year: c.year,
        month: c.month,
        month_day: c.day,
        year_day: day - first_day_of_year(c.year) + 1,
        weekday: weekday_index(day),
        month_len: days_in_month(c.year, c.month),
        year_len: days_in_year(c.year),
    }
}

/// Whether the `pos`-th day of a span of `len` days holds the `n`-th
/// occurrence of its weekday in the span.
fn nth_in_span(pos: i64, len: i64, n: i64) -> (b: bool)
    requires
        1 <= pos <= len <= 366,
    ensures
        b == is_nth_in_span(pos as int, len as int, n as int),
{
    if n > 0 {
        (pos - 1) / 7 + 1 == n
    } else {
        n >= -60 && (len - pos) / 7 + 1 == -n
    }
}

/// Whether `pos`, or `pos` counted from the end of `len`, is a member of `v`.
fn either_way(v: &Vec<i64>, pos: i64, len: i64) -> (b: bool)
    requires
        1 <= pos <= 366,
        1 <= len <= 366,
    ensures
        b == holds_either_way(ints(v@), pos as int, len as int),
{
    holds(v, pos) || holds(v, pos - len - 1)
}

/// The remainder of `a` by 7, from 0 to 6 also where `a` is negative.
fn week_shift(a: i64) -> (k: i64)
    requires
        -20 <= a <= 20,
    ensures
        k == (a as int) % 7,
        0 <= k <= 6,
{
    (a + 21) % 7
}

/// The fourth day of a week is its own week's fourth day.
proof fn lemma_pivot_fixed(last: int, wkst: int)
    requires
        0 <= wkst <= 6,
    ensures
        week_pivot(last - (weekday_of(last) - wkst - 3) % 7, wkst) == last - (weekday_of(last) - wkst - 3) % 7,
{
    let w = (last + 3) % 7;
    let k = (w - wkst - 3) % 7;
    let p = last - k;
    assert(weekday_of(p) == (wkst + 3) % 7);
    assert((weekday_of(p) - wkst) % 7 == 3);
}

/// The number of a week from the day of the year of its fourth day.
fn week_of_pivot(pivot: i64) -> (r: (i64, i64))
    requires
        in_calendar(pivot as int),
    ensures
        r.0 == (year_day_of(pivot as int) - 1) / 7 + 1,
        r.1 == year_of(pivot as int),
        1 <= r.0 <= 53,
        0 <= r.1 <= 10000,
{
    let f = day_facts(pivot);
    ((f.year_day - 1) / 7 + 1, f.year)
}

/// The number of the week of a day, and the number of weeks of the year
/// that the week belongs to.
fn week_facts(day: i64, wkst: i64) -> (r: (i64, i64))
    requires
        -719162 <= day < 2932897,
        0 <= wkst <= 6,
    ensures
        r.0 == week_number(day as int, wkst as int),
        r.1 == weeks_in_week_year(day as int, wkst as int),
        1 <= r.0 <= 53,
        1 <= r.1 <= 53,
{
    let k = week_shift(weekday_index(day) - wkst);
    let pivot = day - k + 3;
    let (number, year) = week_of_pivot(pivot);
    let last = first_day_of_year(year + 1) - 1;
    proof {
        lemma_year_step(year as int);
        lemma_pivot_fixed(last as int, wkst as int);
    }
    let k2 = week_shift(weekday_index(last) - wkst - 3);
    let (total, _) = week_of_pivot(last - k2);
    (number, total)
}

/// A recurrence rule that has been admitted: its parts make a valid rule.
pub struct RuleValue {
    parts: RuleParts,
}

impl View for RuleValue {
    type V = RuleModel;

    closed spec fn view(&self) -> RuleModel {
        self.parts.model()
    }
}

impl RuleValue {
    /// What holds of every rule value: its rule is valid.
    #[verifier::type_invariant]
    pub open spec fn admitted(&self) -> bool {
        self@.valid() && self.single_bound()
    }

    /// Whether the parts name one bound at most.
    pub closed spec fn single_bound(&self) -> bool {
        !(self.parts.count is Some && self.parts.until is Some)
    }

    /// Admits the parts of a rule, or refuses them with `StructuralError`:
    /// the parts are admitted exactly where they are acceptable.
    pub fn new(parts: RuleParts) -> (r: Result<RuleValue, RuleError>)
        ensures
            parts.acceptable() ==> (r matches Ok(v) && v@ == parts.model() && v@.valid()),
            !parts.acceptable() ==> r == Err::<RuleValue, RuleError>(RuleError::StructuralError),
    {
        proof {
            use_type_invariant(&parts.start);
        }
        if parts.count.is_some() && parts.until.is_some() {
            return Err(RuleError::StructuralError);
        }
        if parts.interval < 1 {
            return Err(RuleError::StructuralError);
        }
        match parts.count {
            Some(n) => {
                if n < 1 {
                    return Err(RuleError::StructuralError);
                }
            },
            None => {},
        }
        let lists_ok = members_within(&parts.by_month, 1, 12) && members_within(&parts.by_month_day, -31, 31)
            && members_nonzero(&parts.by_month_day) && members_within(&parts.by_year_day, -366, 366)
            && members_nonzero(&parts.by_year_day) && members_within(&parts.by_week_no, -53, 53) && members_nonzero(
            &parts.by_week_no,
        ) && without_zero_ordinals(&parts.by_day) && members_within(&parts.by_hour, 0, 23) && members_within(
            &parts.by_minute,
            0,
            59,
        ) && members_within(&parts.by_second, 0, 60) && members_nonzero(&parts.by_set_pos);
        if !lists_ok {
            return Err(RuleError::StructuralError);
        }
        match parts.freq {
            Frequency::Weekly => {
                if parts.by_month_day.len() > 0 || parts.by_year_day.len() > 0 {
                    return Err(RuleError::StructuralError);
                }
            },
            Frequency::Daily => {
                if !without_ordinals(&parts.by_day) {
                    return Err(RuleError::StructuralError);
                }
            },
            _ => {},
        }
        if parts.by_week_no.len() > 0 {
            match parts.freq {
                Frequency::Yearly => {},
                _ => {
                    return Err(RuleError::StructuralError);
                },
            }
        }
        Ok(RuleValue { parts })
    }

    /// The same rule once more.
    pub fn duplicate(&self) -> (r: RuleValue)
        ensures
            r@ == self@,
    {
        proof {
            use_type_invariant(self);
        }
        let until = match &self.parts.until {
            Some(z) => Some(z.duplicate()),
            None => None,
        };
        RuleValue {
            parts: RuleParts {
                freq: self.parts.freq,
                interval: self.parts.interval,
                start: self.parts.start.duplicate(),
                count: self.parts.count,
                until,
                week_start: self.parts.week_start,
                by_month: copy_list(&self.parts.by_month),
                by_month_day: copy_list(&self.parts.by_month_day),
                by_year_day: copy_list(&self.parts.by_year_day),
                by_week_no: copy_list(&self.parts.by_week_no),
                by_day: copy_weekdays(&self.parts.by_day),
                by_hour: copy_list(&self.parts.by_hour),
                by_minute: copy_list(&self.parts.by_minute),
                by_second: copy_list(&self.parts.by_second),
                by_set_pos: copy_list(&self.parts.by_set_pos),
            },
        }
    }

    /// The frequency of the rule.
    pub fn freq(&self) -> (f: Frequency)
        ensures
            f == self@.freq,
    {
        self.parts.freq
    }

    /// The interval of the rule: every how many periods it recurs.
    pub fn interval(&self) -> (n: i64)
        ensures
            n == self@.interval,
            n >= 1,
    {
        proof {
            use_type_invariant(self);
        }
        self.parts.interval
    }

    /// The start of the rule. Every rule value is valid.
    pub fn start(&self) -> (s: &ZonedInstant)
        ensures
            s@ == self@.start,
            self@.valid(),
    {
        proof {
            use_type_invariant(self);
        }
        &self.parts.start
    }

    /// The count that bounds the rule, if one does.
    pub fn count(&self) -> (c: Option<i64>)
        ensures
            match c {
                Some(n) => self@.bound == BoundModel::Count(n as int) && n >= 1,
                None => !(self@.bound is Count),
            },
    {
        proof {
            use_type_invariant(self);
        }
        self.parts.count
    }

    /// The instant that bounds the rule, if one does.
    pub fn until(&self) -> (u: Option<&ZonedInstant>)
        ensures
            match u {
                Some(z) => self@.bound == BoundModel::Until(z@.instant),
                None => !(self@.bound is Until),
            },
    {
        proof {
            use_type_invariant(self);
        }
        match &self.parts.until {
            Some(z) => Some(z),
            None => None,
        }
    }

    /// The weekday on which the weeks of the rule begin.
    pub fn week_start(&self) -> (w: Weekday)
        ensures
            w.index() == self@.week_start,
    {
        self.parts.week_start
    }

    /// The months of the rule.
    pub fn by_month(&self) -> (v: &Vec<i64>)
        ensures
            ints(v@) == self@.by_month,
    {
        &self.parts.by_month
    }

    /// The days of the month of the rule.
    pub fn by_month_day(&self) -> (v: &Vec<i64>)
        ensures
            ints(v@) == self@.by_month_day,
    {
        &self.parts.by_month_day
    }

    /// The days of the year of the rule.
    pub fn by_year_day(&self) -> (v: &Vec<i64>)
        ensures
            ints(v@) == self@.by_year_day,
    {
        &self.parts.by_year_day
    }

    /// The week numbers of the rule.
    pub fn by_week_no(&self) -> (v: &Vec<i64>)
        ensures
            ints(v@) == self@.by_week_no,
    {
        &self.parts.by_week_no
    }

    /// The weekdays of the rule.
    pub fn by_day(&self) -> (v: &Vec<OrdWeekday>)
        ensures
            v@ == self@.by_day,
    {
        &self.parts.by_day
    }

    /// The hours of the rule.
    pub fn by_hour(&self) -> (v: &Vec<i64>)
        ensures
            ints(v@) == self@.by_hour,
    {
        &self.parts.by_hour
    }

    /// The minutes of the rule.
    pub fn by_minute(&self) -> (v: &Vec<i64>)
        ensures
            ints(v@) == self@.by_minute,
    {
        &self.parts.by_minute
    }

    /// The seconds of the rule.
    pub fn by_second(&self) -> (v: &Vec<i64>)
        ensures
            ints(v@) == self@.by_second,
    {
        &self.parts.by_second
    }

    /// The positions of the rule.
    pub fn by_set_pos(&self) -> (v: &Vec<i64>)
        ensures
            ints(v@) == self@.by_set_pos,
    {
        &self.parts.by_set_pos
    }

    /// Whether the rule names the days of its periods itself.
    fn names_days(&self) -> (b: bool)
        ensures
            b == self@.names_days(),
    {
        self.parts.by_week_no.len() > 0 || self.parts.by_year_day.len() > 0 || self.parts.by_month_day.len() > 0
            || self.parts.by_day.len() > 0
    }

    /// Whether the day with the facts `f` is one that the entry `e` names.
    fn weekday_entry_admits(&self, f: &DayFacts, e: OrdWeekday, Ghost(day): Ghost<int>) -> (b: bool)
        requires
            f.month_day == month_day_of(day),
            f.year_day == year_day_of(day),
            f.weekday == weekday_of(day),
            f.month_len == month_len(year_of(day), month_of(day)),
            f.year_len == year_len(year_of(day)),
            1 <= f.month_day <= f.month_len <= 31,
            1 <= f.year_day <= f.year_len <= 366,
        ensures
            b == weekday_entry_ok(self@, day, e),
    {
        if e.weekday.number() != f.weekday {
            return false;
        }
        match e.ordinal {
            None => true,
            Some(n) => {
                let months = self.parts.by_month.len() > 0;
                match self.parts.freq {
                    Frequency::Monthly => nth_in_span(f.month_day, f.month_len, n),
                    Frequency::Yearly => if months {
                        nth_in_span(f.month_day, f.month_len, n)
                    } else {
                        nth_in_span(f.year_day, f.year_len, n)
                    },
                    _ => true,
                }
            },
        }
    }

    /// Whether the day with the facts `f` passes the weekdays of the rule.
    fn weekday_admits(&self, f: &DayFacts, Ghost(day): Ghost<int>) -> (b: bool)
        requires
            f.month_day == month_day_of(day),
            f.year_day == year_day_of(day),
            f.weekday == weekday_of(day),
            f.month_len == month_len(year_of(day), month_of(day)),
            f.year_len == year_len(year_of(day)),
            1 <= f.month_day <= f.month_len <= 31,
            1 <= f.year_day <= f.year_len <= 366,
        ensures
            b == weekday_ok(self@, day),
    {
        if self.parts.by_day.len() == 0 {
            return true;
        }
        let mut i: usize = 0;
        while i < self.parts.by_day.len()
            invariant
                i <= self.parts.by_day.len(),
                self@.by_day == self.parts.by_day@,
                forall|j: int| 0 <= j < i ==> !weekday_entry_ok(self@, day, #[trigger] self@.by_day[j]),
                f.month_day == month_day_of(day),
                f.year_day == year_day_of(day),
                f.weekday == weekday_of(day),
                f.month_len == month_len(year_of(day), month_of(day)),
                f.year_len == year_len(year_of(day)),
                1 <= f.month_day <= f.month_len <= 31,
                1 <= f.year_day <= f.year_len <= 366,
            decreases self.parts.by_day.len() - i,
        {
            if self.weekday_entry_admits(f, self.parts.by_day[i], Ghost(day)) {
                assert(weekday_entry_ok(self@, day, self@.by_day[i as int]));
                return true;
            }
            i += 1;
        }
        false
    }

    /// Whether the day passes the by-parts of the rule that speak of days.
    /// A rule that names weeks by number is asked of the days of the years
    /// 1 to 9999 only.
    pub fn admits_day(&self, day: i64) -> (b: bool)
        requires
            in_calendar(day as int),
            self@.by_week_no.len() > 0 ==> -719162 <= day < 2932897,
        ensures
            b == day_ok(self@, day as int),
    {
        proof {
            use_type_invariant(self);
        }
        let f = day_facts(day);
        if self.parts.by_month.len() > 0 && !holds(&self.parts.by_month, f.month) {
            return false;
        }
        if self.parts.by_week_no.len() > 0 {
            let (number, total) = week_facts(day, self.parts.week_start.number());
            if !either_way(&self.parts.by_week_no, number, total) {
                return false;
            }
        }
        if self.parts.by_year_day.len() > 0 && !either_way(&self.parts.by_year_day, f.year_day, f.year_len) {
            return false;
        }
        if self.parts.by_month_day.len() > 0 && !either_way(&self.parts.by_month_day, f.month_day, f.month_len) {
            return false;
        }
        if !self.weekday_admits(&f, Ghost(day as int)) {
            return false;
        }
        if self.names_days() {
            return true;
        }
        let s = day_facts(crate::calendar::day_of_seconds(self.parts.start.civil_second()));
        match self.parts.freq {
            Frequency::Yearly => f.month_day == s.month_day && (self.parts.by_month.len() > 0 || f.month == s.month),
            Frequency::Monthly => f.month_day == s.month_day,
            Frequency::Weekly => f.weekday == s.weekday,
            _ => true,
        }
    }

    /// Whether the rule admits the hour `h` of a day.
    pub fn admits_hour(&self, h: i64) -> (b: bool)
        ensures
            b == hour_ok(self@, h as int),
    {
        if self.parts.by_hour.len() > 0 {
            holds(&self.parts.by_hour, h)
        } else {
            match self.parts.freq {
                Frequency::Yearly | Frequency::Monthly | Frequency::Weekly | Frequency::Daily => h
                    == self.parts.start.hour(),
                _ => true,
            }
        }
    }

    /// Whether the rule admits the minute `m` of an hour.
    pub fn admits_minute(&self, m: i64) -> (b: bool)
        ensures
            b == minute_ok(self@, m as int),
    {
        if self.parts.by_minute.len() > 0 {
            holds(&self.parts.by_minute, m)
        } else {
            match self.parts.freq {
                Frequency::Minutely | Frequency::Secondly => true,
                _ => m == self.parts.start.minute(),
            }
        }
    }

    /// Whether the rule admits the second `s` of a minute.
    pub fn admits_second(&self, s: i64) -> (b: bool)
        ensures
            b == second_ok(self@, s as int),
    {
        if self.parts.by_second.len() > 0 {
            holds(&self.parts.by_second, s)
        } else {
            match self.parts.freq {
                Frequency::Secondly => true,
                _ => s == self.parts.start.second(),
            }
        }
    }
}

} // verus!
