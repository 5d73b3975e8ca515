//! Zoned instants: a civil date and time of day in a zone, together with the
//! absolute instant that it stands for.

use vstd::prelude::*;
use core::cmp::Ordering;
use vstd::std_specs::cmp::{PartialEqSpecImpl, PartialOrdSpecImpl};
use crate::calendar::{
    civil_from_days, civil_of, civil_seconds, day_number, day_number_of, day_of, day_of_seconds, days_in_month,
    hour_of, in_civil_range, lemma_civil_seconds_parts, lemma_civil_seconds_whole, lemma_date_within_year,
    lemma_year_start_monotonic, minute_of, month_day_of, month_of, second_of, second_of_day, valid_date, valid_time,
    weekday_of, year_of, CivilDate, Weekday,
};
use crate::error::RuleError;
use crate::zone::{instant_of, Zone};

verus! {

/// What a zoned instant is: the civil second that its date and time of day
/// make (counted on the civil clock from 1970-01-01T00:00:00), the absolute
/// instant (seconds since 1970-01-01T00:00:00 UTC), and the zone identifier.
pub struct InstantModel {
    pub civil: int,
    pub instant: int,
    pub zone: Seq<char>,
}

impl InstantModel {
    /// The civil time lies in the years 1 to 9999 and exists in the zone,
    /// and the instant is the one that the zone gives it.
    pub open spec fn valid(self) -> bool {
        in_civil_range(self.civil) && instant_of(self.zone, self.civil) == Some(self.instant)
    }
}

/// Whether the six fields name a date of the years 1 to 9999 and a time of
/// day.
pub open spec fn valid_civil_fields(year: int, month: int, day: int, hour: int, minute: int, second: int) -> bool {
    1 <= year <= 9999 && valid_date(year, month, day) && valid_time(hour, minute, second)
}

/// The civil second that the six fields make.
pub open spec fn civil_second_of(year: int, month: int, day: int, hour: int, minute: int, second: int) -> int {
    civil_seconds(day_number(year, month, day), hour, minute, second)
}

/// A civil date and time of day in a zone. Two zoned instants are equal
/// where their absolute instants are.
#[derive(Debug)]
pub struct ZonedInstant {
    civil: i64,
    instant: i64,
    zone: Zone,
}

impl View for ZonedInstant {
    type V = InstantModel;

    closed spec fn view(&self) -> InstantModel {
        InstantModel { civil: self.civil as int, instant: self.instant as int, zone: self.zone@ }
    }
}

impl PartialEq for ZonedInstant {
    fn eq(&self, other: &Self) -> (r: bool) {
        self.instant == other.instant
    }
}

impl PartialEqSpecImpl for ZonedInstant {
    open spec fn obeys_eq_spec() -> bool {
        true
    }

    open spec fn eq_spec(&self, other: &Self) -> bool {
        self@.instant == other@.instant
    }
}

impl PartialOrd for ZonedInstant {
    fn partial_cmp(&self, other: &Self) -> (r: Option<Ordering>) {
        if self.instant < other.instant {
            Some(Ordering::Less)
        } else if self.instant > other.instant {
            Some(Ordering::Greater)
        } else {
            Some(Ordering::Equal)
        }
    }
}

impl PartialOrdSpecImpl for ZonedInstant {
    open spec fn obeys_partial_cmp_spec() -> bool {
        true
    }

    open spec fn partial_cmp_spec(&self, other: &Self) -> Option<Ordering> {
        if self@.instant < other@.instant {
            Some(Ordering::Less)
        } else if self@.instant > other@.instant {
            Some(Ordering::Greater)
        } else {
            Some(Ordering::Equal)
        }
    }
}

impl ZonedInstant {
    /// What holds of every zoned instant: its civil time exists in its
    /// zone, and its instant is the one that the zone gives it.
    #[verifier::type_invariant]
    pub open spec fn consistent(&self) -> bool {
        self@.valid()
    }

    /// The zoned instant of a civil date and time of day in a zone.
    ///
    /// `DateArithmeticError` where the fields name no date of the years 1 to
    /// 9999 or no time of day, and where the civil time falls in a gap of
    /// the zone. In a fold the earlier instant is taken.
    pub fn new(year: i64, month: i64, day: i64, hour: i64, minute: i64, second: i64, zone: &Zone) -> (r: Result<
        ZonedInstant,
        RuleError,
    >)
        ensures
            r is Ok <==> valid_civil_fields(
                year as int,
                month as int,
                day as int,
                hour as int,
                minute as int,
                second as int,
            ) && instant_of(
                zone@,
                civil_second_of(year as int, month as int, day as int, hour as int, minute as int, second as int),
            ) is Some,
            r matches Ok(z) ==> z@.valid() && z@.zone == zone@ && z@.civil == civil_second_of(
                year as int,
                month as int,
                day as int,
                hour as int,
                minute as int,
                second as int,
            ),
            r matches Err(e) ==> e == RuleError::DateArithmeticError,
    {
        if year < 1 || year > 9999 || month < 1 || month > 12 || day < 1 || day > days_in_month(year, month) {
            return Err(RuleError::DateArithmeticError);
        }
        if hour < 0 || hour > 23 || minute < 0 || minute > 59 || second < 0 || second > 59 {
            return Err(RuleError::DateArithmeticError);
        }
        let n = day_number_of(year, month, day);
        proof {
            lemma_date_within_year(year as int, month as int, day as int);
            lemma_year_start_monotonic(1, year as int);
            lemma_year_start_monotonic(year as int + 1, 10000);
        }
        let civil = n * 86400 + hour * 3600 + minute * 60 + second;
        match zone.instant_at(civil) {
            Some(instant) => Ok(ZonedInstant { civil, instant, zone: zone.duplicate() }),
            None => Err(RuleError::DateArithmeticError),
        }
    }

    /// A zoned instant of parts that are known to agree.
    pub(crate) fn from_parts(civil: i64, instant: i64, zone: &Zone) -> (z: ZonedInstant)
        requires
            in_civil_range(civil as int),
            instant_of(zone@, civil as int) == Some(instant as int),
        ensures
            z@ == (InstantModel { civil: civil as int, instant: instant as int, zone: zone@ }),
    {
        ZonedInstant { civil, instant, zone: zone.duplicate() }
    }

    /// The same zoned instant once more.
    pub fn duplicate(&self) -> (z: ZonedInstant)
        ensures
            z@ == self@,
    {
        proof {
            use_type_invariant(self);
        }
        ZonedInstant { civil: self.civil, instant: self.instant, zone: self.zone.duplicate() }
    }

    /// The absolute instant, in seconds since 1970-01-01T00:00:00 UTC.
    pub fn timestamp(&self) -> (t: i64)
        ensures
            t == self@.instant,
    {
        self.instant
    }

    /// The civil second: the date and time of day as seconds on the civil
    /// clock since 1970-01-01T00:00:00.
    pub fn civil_second(&self) -> (t: i64)
        ensures
            t == self@.civil,
            self@.valid(),
    {
        proof {
            use_type_invariant(self);
        }
        self.civil
    }

    /// The zone.
    pub fn zone(&self) -> (z: &Zone)
        ensures
            z@ == self@.zone,
    {
        &self.zone
    }

    /// The civil date.
    pub fn date(&self) -> (c: CivilDate)
        ensures
            c == civil_of(day_of(self@.civil)),
            c.valid(),
            1 <= c.year <= 9999,
    {
        proof {
            use_type_invariant(self);
        }
        let c = civil_from_days(day_of_seconds(self.civil));
        proof {
            lemma_date_within_year(c.year as int, c.month as int, c.day as int);
            if c.year < 1 {
                lemma_year_start_monotonic(c.year as int + 1, 1);
            }
            if c.year > 9999 {
                lemma_year_start_monotonic(10000, c.year as int);
            }
        }
        c
    }

    /// The year of the civil date.
    pub fn year(&self) -> (y: i64)
        ensures
            y == year_of(day_of(self@.civil)),
            1 <= y <= 9999,
    {
        self.date().year
    }

    /// The month of the civil date, from 1.
    pub fn month(&self) -> (m: i64)
        ensures
            m == month_of(day_of(self@.civil)),
            1 <= m <= 12,
    {
        self.date().month
    }

    /// The day of the month of the civil date, from 1.
    pub fn day(&self) -> (d: i64)
        ensures
            d == month_day_of(day_of(self@.civil)),
    {
        self.date().day
    }

    /// The hour of the civil time of day.
    pub fn hour(&self) -> (h: i64)
        ensures
            h == hour_of(self@.civil),
    {
        proof {
            use_type_invariant(self);
        }
        second_of_day(self.civil) / 3600
    }

    /// The minute of the civil time of day.
    pub fn minute(&self) -> (m: i64)
        ensures
            m == minute_of(self@.civil),
    {
        proof {
            use_type_invariant(self);
            lemma_civil_seconds_whole(self.civil as int);
            lemma_civil_seconds_parts(
                day_of(self.civil as int),
                hour_of(self.civil as int),
                ((self.civil as int % 86400) % 3600) / 60,
                (self.civil as int % 86400) % 60,
            );
        }
        (second_of_day(self.civil) % 3600) / 60
    }

    /// The second of the civil time of day.
    pub fn second(&self) -> (s: i64)
        ensures
            s == second_of(self@.civil),
    {
        proof {
            use_type_invariant(self);
            lemma_civil_seconds_whole(self.civil as int);
            lemma_civil_seconds_parts(
                day_of(self.civil as int),
                hour_of(self.civil as int),
                ((self.civil as int % 86400) % 3600) / 60,
                (self.civil as int % 86400) % 60,
            );
        }
        second_of_day(self.civil) % 60
    }

    /// The weekday of the civil date.
    pub fn weekday(&self) -> (w: Weekday)
        ensures
            w.index() == weekday_of(day_of(self@.civil)),
    {
        proof {
            use_type_invariant(self);
        }
        Weekday::of_day(day_of_seconds(self.civil))
    }

    /// Whether this instant lies before the other.
    pub fn is_before(&self, other: &ZonedInstant) -> (b: bool)
        ensures
            b == (self@.instant < other@.instant),
    {
        self.instant < other.instant
    }
}

} // verus!
