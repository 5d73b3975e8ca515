use rrule::calendar::{
    civil_from_days, day_number_of, days_in_month, days_in_year, is_leap_year, weekday_index, CivilDate, Weekday,
};
use rrule::error::RuleError;
use rrule::instant::ZonedInstant;
use rrule::model::{Frequency, OrdWeekday};
use rrule::rule::{RuleParts, RuleValue};
use rrule::stream::Status;
use rrule::zone::{settle_local_time, LocalTime, Zone};

fn zoned(zone: &str, y: i64, mo: i64, d: i64, h: i64, mi: i64, s: i64) -> ZonedInstant {
    ZonedInstant::new(y, mo, d, h, mi, s, &Zone::named(zone).unwrap()).unwrap()
}

fn utc(y: i64, mo: i64, d: i64, h: i64, mi: i64, s: i64) -> ZonedInstant {
    zoned("UTC", y, mo, d, h, mi, s)
}

#[test]
fn calendar_round_trip_and_known_days() {
    assert_eq!(day_number_of(1970, 1, 1), 0);
    assert_eq!(day_number_of(2000, 3, 1), 11017);
    assert_eq!(day_number_of(1, 1, 1), -719162);
    assert_eq!(day_number_of(9999, 12, 31), 2932896);
    assert_eq!(civil_from_days(0), CivilDate { year: 1970, month: 1, day: 1 });
    assert_eq!(civil_from_days(11016), CivilDate { year: 2000, month: 2, day: 29 });
    assert_eq!(civil_from_days(-1), CivilDate { year: 1969, month: 12, day: 31 });
    assert_eq!(civil_from_days(2932896), CivilDate { year: 9999, month: 12, day: 31 });
    let mut n = -719162;
    while n < 2932897 {
        let c = civil_from_days(n);
        assert_eq!(day_number_of(c.year, c.month, c.day), n);
        n += 997;
    }
}

#[test]
fn leap_years_and_lengths() {
    assert!(is_leap_year(2000));
    assert!(!is_leap_year(1900));
    assert!(is_leap_year(2024));
    assert!(!is_leap_year(2023));
    assert_eq!(days_in_year(2000), 366);
    assert_eq!(days_in_year(2100), 365);
    assert_eq!(days_in_month(2024, 2), 29);
    assert_eq!(days_in_month(2023, 2), 28);
    assert_eq!(days_in_month(2023, 4), 30);
    assert_eq!(days_in_month(2023, 12), 31);
}

#[test]
fn weekdays_of_known_days() {
    assert_eq!(weekday_index(0), 3); // 1970-01-01, a Thursday
    assert_eq!(Weekday::of_day(day_number_of(2020, 1, 1)), Weekday::We);
    assert_eq!(Weekday::of_day(day_number_of(1997, 9, 1)), Weekday::Mo);
    assert_eq!(Weekday::of_day(day_number_of(1, 1, 1)), Weekday::Mo);
    assert_eq!(Weekday::Su.number(), 6);
}

#[test]
fn zoned_instant_fields_and_instant() {
    let z = zoned("Europe/Berlin", 2020, 7, 15, 13, 45, 59);
    assert_eq!((z.year(), z.month(), z.day()), (2020, 7, 15));
    assert_eq!((z.hour(), z.minute(), z.second()), (13, 45, 59));
    assert_eq!(z.weekday(), Weekday::We);
    // Berlin is two hours ahead of UTC in summer.
    assert_eq!(z.timestamp(), 1594813559);
    assert_eq!(z.civil_second(), 1594813559 + 7200);
    assert_eq!(z.zone().name(), "Europe/Berlin");
    let copy = z.duplicate();
    assert!(copy == z);
    assert!(z == zoned("UTC", 2020, 7, 15, 11, 45, 59));
    assert!(z != zoned("UTC", 2020, 7, 15, 13, 45, 59));
    assert!(z.is_before(&zoned("UTC", 2020, 7, 15, 13, 45, 59)));
}

#[test]
fn civil_fields_out_of_range_are_date_arithmetic_errors() {
    let zone = Zone::named("UTC").unwrap();
    for (y, mo, d, h, mi, s) in [
        (2021, 2, 29, 0, 0, 0),
        (2020, 2, 30, 0, 0, 0),
        (2020, 13, 1, 0, 0, 0),
        (2020, 0, 1, 0, 0, 0),
        (2020, 1, 0, 0, 0, 0),
        (0, 1, 1, 0, 0, 0),
        (10000, 1, 1, 0, 0, 0),
        (2020, 1, 1, 24, 0, 0),
        (2020, 1, 1, 0, 60, 0),
        (2020, 1, 1, 0, 0, 60),
        (2020, 1, 1, -1, 0, 0),
    ] {
        assert_eq!(
            ZonedInstant::new(y, mo, d, h, mi, s, &zone).err(),
            Some(RuleError::DateArithmeticError)
        );
    }
    assert!(ZonedInstant::new(1, 1, 1, 0, 0, 0, &zone).is_ok());
    assert!(ZonedInstant::new(9999, 12, 31, 23, 59, 59, &zone).is_ok());
}

#[test]
fn unknown_zone_is_an_error() {
    assert_eq!(Zone::named("America/Everywhere").err(), Some(RuleError::UnknownZoneError));
    assert_eq!(Zone::named("").err(), Some(RuleError::UnknownZoneError));
    assert_eq!(Zone::named("Europe/Berlin").unwrap().name(), "Europe/Berlin");
}

#[test]
fn gap_has_no_instant_and_fold_has_the_earlier() {
    assert_eq!(settle_local_time(LocalTime::Gap), None);
    assert_eq!(settle_local_time(LocalTime::Unique(7)), Some(7));
    assert_eq!(settle_local_time(LocalTime::Fold(5, 9)), Some(5));
    assert_eq!(settle_local_time(LocalTime::Fold(9, 5)), Some(5));
    let ny = Zone::named("America/New_York").unwrap();
    // 2021-03-14 02:30 does not exist in New York.
    assert_eq!(
        ZonedInstant::new(2021, 3, 14, 2, 30, 0, &ny).err(),
        Some(RuleError::DateArithmeticError)
    );
    // 2021-11-07 01:30 occurs twice; the earlier is 05:30 UTC.
    let fold = ZonedInstant::new(2021, 11, 7, 1, 30, 0, &ny).unwrap();
    assert_eq!(fold.timestamp(), 1636263000);
    assert!(fold == utc(2021, 11, 7, 5, 30, 0));
}

#[test]
fn occurrences_in_a_gap_are_left_out() {
    let mut p = RuleParts::new(Frequency::Daily, zoned("America/New_York", 2021, 3, 13, 2, 30, 0));
    p.count = Some(3);
    let all = RuleValue::new(p).unwrap().all(10).unwrap();
    let days: Vec<(i64, i64, i64)> = all.iter().map(|z| (z.month(), z.day(), z.hour())).collect();
    assert_eq!(days, vec![(3, 13, 2), (3, 15, 2), (3, 16, 2)]);
    // 02:30 EST, then 02:30 EDT.
    assert_eq!(all[0].timestamp(), 1615620600);
    assert_eq!(all[1].timestamp(), 1615789800);
}

#[test]
fn occurrences_in_a_fold_take_the_earlier_instant() {
    let mut p = RuleParts::new(Frequency::Daily, zoned("America/New_York", 2021, 11, 6, 1, 30, 0));
    p.count = Some(3);
    let all = RuleValue::new(p).unwrap().all(10).unwrap();
    let stamps: Vec<i64> = all.iter().map(|z| z.timestamp()).collect();
    // 05:30Z on the 6th and the 7th (EDT), 06:30Z on the 8th (EST).
    assert_eq!(stamps, vec![1636176600, 1636263000, 1636353000]);
}

#[test]
fn hourly_over_a_fold_stays_ascending() {
    let mut p = RuleParts::new(Frequency::Hourly, zoned("America/New_York", 2021, 11, 7, 0, 30, 0));
    p.count = Some(4);
    let all = RuleValue::new(p).unwrap().all(10).unwrap();
    let hours: Vec<i64> = all.iter().map(|z| z.hour()).collect();
    assert_eq!(hours, vec![0, 1, 2, 3]);
    for pair in all.windows(2) {
        assert!(pair[0].timestamp() < pair[1].timestamp());
    }
}

#[test]
fn parts_that_break_an_invariant_are_structural_errors() {
    let start = || utc(2020, 1, 1, 9, 0, 0);
    let refused = |p: RuleParts| RuleValue::new(p).err() == Some(RuleError::StructuralError);

    let mut p = RuleParts::new(Frequency::Daily, start());
    p.count = Some(3);
    p.until = Some(utc(2021, 1, 1, 0, 0, 0));
    assert!(refused(p));

    let mut p = RuleParts::new(Frequency::Daily, start());
    p.interval = 0;
    assert!(refused(p));

    let mut p = RuleParts::new(Frequency::Daily, start());
    p.count = Some(0);
    assert!(refused(p));

    let mut p = RuleParts::new(Frequency::Weekly, start());
    p.by_month_day = vec![1];
    assert!(refused(p));

    let mut p = RuleParts::new(Frequency::Weekly, start());
    p.by_year_day = vec![1];
    assert!(refused(p));

    let mut p = RuleParts::new(Frequency::Daily, start());
    p.by_day = vec![OrdWeekday { weekday: Weekday::Mo, ordinal: Some(1) }];
    assert!(refused(p));

    let mut p = RuleParts::new(Frequency::Monthly, start());
    p.by_week_no = vec![20];
    assert!(refused(p));

    for (month, ok) in [(0, false), (1, true), (12, true), (13, false)] {
        let mut p = RuleParts::new(Frequency::Yearly, start());
        p.by_month = vec![month];
        assert_eq!(RuleValue::new(p).is_ok(), ok);
    }
    for (day, ok) in [(-32, false), (-31, true), (0, false), (31, true), (32, false)] {
        let mut p = RuleParts::new(Frequency::Monthly, start());
        p.by_month_day = vec![day];
        assert_eq!(RuleValue::new(p).is_ok(), ok);
    }
    for (day, ok) in [(-367, false), (-366, true), (0, false), (366, true), (367, false)] {
        let mut p = RuleParts::new(Frequency::Yearly, start());
        p.by_year_day = vec![day];
        assert_eq!(RuleValue::new(p).is_ok(), ok);
    }
    for (week, ok) in [(-54, false), (-53, true), (0, false), (53, true), (54, false)] {
        let mut p = RuleParts::new(Frequency::Yearly, start());
        p.by_week_no = vec![week];
        assert_eq!(RuleValue::new(p).is_ok(), ok);
    }
    for (second, ok) in [(-1, false), (0, true), (60, true), (61, false)] {
        let mut p = RuleParts::new(Frequency::Daily, start());
        p.by_second = vec![second];
        assert_eq!(RuleValue::new(p).is_ok(), ok);
    }
    for (hour, ok) in [(-1, false), (23, true), (24, false)] {
        let mut p = RuleParts::new(Frequency::Daily, start());
        p.by_hour = vec![hour];
        assert_eq!(RuleValue::new(p).is_ok(), ok);
    }
    for (minute, ok) in [(-1, false), (59, true), (60, false)] {
        let mut p = RuleParts::new(Frequency::Daily, start());
        p.by_minute = vec![minute];
        assert_eq!(RuleValue::new(p).is_ok(), ok);
    }
    let mut p = RuleParts::new(Frequency::Monthly, start());
    p.by_set_pos = vec![0];
    assert!(refused(p));
    let mut p = RuleParts::new(Frequency::Monthly, start());
    p.by_day = vec![OrdWeekday { weekday: Weekday::Mo, ordinal: Some(0) }];
    assert!(refused(p));
}

#[test]
fn accessors_give_the_parts_back() {
    let mut p = RuleParts::new(Frequency::Yearly, utc(2020, 1, 1, 9, 0, 0));
    p.interval = 2;
    p.until = Some(utc(2030, 1, 1, 0, 0, 0));
    p.week_start = Weekday::Su;
    p.by_month = vec![1, 6];
    p.by_month_day = vec![-1];
    p.by_year_day = vec![100];
    p.by_week_no = vec![20];
    p.by_day = vec![OrdWeekday { weekday: Weekday::Fr, ordinal: Some(-1) }];
    p.by_hour = vec![9];
    p.by_minute = vec![30];
    p.by_second = vec![15];
    p.by_set_pos = vec![1, -1];
    let rule = RuleValue::new(p).unwrap();
    assert_eq!(rule.freq(), Frequency::Yearly);
    assert_eq!(rule.interval(), 2);
    assert_eq!(rule.start().timestamp(), 1577869200);
    assert_eq!(rule.count(), None);
    assert_eq!(rule.until().map(|u| u.timestamp()), Some(1893456000));
    assert_eq!(rule.week_start(), Weekday::Su);
    assert_eq!(rule.by_month(), &vec![1, 6]);
    assert_eq!(rule.by_month_day(), &vec![-1]);
    assert_eq!(rule.by_year_day(), &vec![100]);
    assert_eq!(rule.by_week_no(), &vec![20]);
    assert_eq!(rule.by_day(), &vec![OrdWeekday { weekday: Weekday::Fr, ordinal: Some(-1) }]);
    assert_eq!(rule.by_hour(), &vec![9]);
    assert_eq!(rule.by_minute(), &vec![30]);
    assert_eq!(rule.by_second(), &vec![15]);
    assert_eq!(rule.by_set_pos(), &vec![1, -1]);
    let copy = rule.duplicate();
    assert_eq!(copy.by_set_pos(), rule.by_set_pos());
    assert_eq!(copy.interval(), 2);
}

#[test]
fn second_sixty_is_admitted_and_never_given() {
    let mut p = RuleParts::new(Frequency::Minutely, utc(2020, 1, 1, 9, 0, 0));
    p.count = Some(3);
    p.by_second = vec![0, 60];
    let all = RuleValue::new(p).unwrap().all(10).unwrap();
    let got: Vec<(i64, i64)> = all.iter().map(|z| (z.minute(), z.second())).collect();
    assert_eq!(got, vec![(0, 0), (1, 0), (2, 0)]);
}

#[test]
fn year_day_366_only_in_leap_years_and_minus_one_is_december_31() {
    let mut p = RuleParts::new(Frequency::Yearly, utc(2019, 1, 1, 0, 0, 0));
    p.count = Some(2);
    p.by_year_day = vec![366];
    let all = RuleValue::new(p).unwrap().all(10).unwrap();
    let got: Vec<(i64, i64, i64)> = all.iter().map(|z| (z.year(), z.month(), z.day())).collect();
    assert_eq!(got, vec![(2020, 12, 31), (2024, 12, 31)]);

    let mut p = RuleParts::new(Frequency::Yearly, utc(2019, 1, 1, 0, 0, 0));
    p.count = Some(3);
    p.by_year_day = vec![-1];
    let all = RuleValue::new(p).unwrap().all(10).unwrap();
    let got: Vec<(i64, i64, i64)> = all.iter().map(|z| (z.year(), z.month(), z.day())).collect();
    assert_eq!(got, vec![(2019, 12, 31), (2020, 12, 31), (2021, 12, 31)]);
}

#[test]
fn month_day_31_skips_short_months_and_start_on_31_too() {
    let mut p = RuleParts::new(Frequency::Monthly, utc(2020, 1, 31, 8, 0, 0));
    p.count = Some(4);
    let all = RuleValue::new(p).unwrap().all(10).unwrap();
    let got: Vec<(i64, i64)> = all.iter().map(|z| (z.month(), z.day())).collect();
    assert_eq!(got, vec![(1, 31), (3, 31), (5, 31), (7, 31)]);
}

#[test]
fn ordinal_beyond_the_month_selects_nothing() {
    let mut p = RuleParts::new(Frequency::Monthly, utc(2020, 1, 1, 8, 0, 0));
    p.count = Some(3);
    p.by_day = vec![OrdWeekday { weekday: Weekday::Fr, ordinal: Some(5) }];
    let all = RuleValue::new(p).unwrap().all(10).unwrap();
    let got: Vec<(i64, i64, i64)> = all.iter().map(|z| (z.year(), z.month(), z.day())).collect();
    assert_eq!(got, vec![(2020, 1, 31), (2020, 5, 29), (2020, 7, 31)]);
}

#[test]
fn positions_out_of_range_select_nothing() {
    let mut p = RuleParts::new(Frequency::Monthly, utc(2020, 1, 1, 8, 0, 0));
    p.until = Some(utc(2020, 4, 1, 0, 0, 0));
    p.by_month_day = vec![1, 15];
    p.by_set_pos = vec![3, -3];
    assert_eq!(RuleValue::new(p).unwrap().all(10).unwrap().len(), 0);

    let mut p = RuleParts::new(Frequency::Monthly, utc(2020, 1, 1, 8, 0, 0));
    p.until = Some(utc(2020, 4, 1, 0, 0, 0));
    p.by_month_day = vec![1, 15, 20];
    p.by_set_pos = vec![2, -2, 3, 7];
    let all = RuleValue::new(p).unwrap().all(10).unwrap();
    let got: Vec<(i64, i64)> = all.iter().map(|z| (z.month(), z.day())).collect();
    assert_eq!(got, vec![(1, 15), (1, 20), (2, 15), (2, 20), (3, 15), (3, 20)]);
}

#[test]
fn positions_count_within_the_whole_period() {
    // The first weekday of each month; the start lies behind that of its own month.
    let mut p = RuleParts::new(Frequency::Monthly, utc(2020, 1, 15, 8, 0, 0));
    p.count = Some(2);
    p.by_day = [Weekday::Mo, Weekday::Tu, Weekday::We, Weekday::Th, Weekday::Fr]
        .iter()
        .map(|w| OrdWeekday { weekday: *w, ordinal: None })
        .collect();
    p.by_set_pos = vec![1];
    let all = RuleValue::new(p).unwrap().all(10).unwrap();
    let got: Vec<(i64, i64)> = all.iter().map(|z| (z.month(), z.day())).collect();
    assert_eq!(got, vec![(2, 3), (3, 2)]);
}

#[test]
fn secondly_rule_with_interval() {
    let mut p = RuleParts::new(Frequency::Secondly, utc(2020, 1, 1, 23, 59, 30));
    p.interval = 20;
    p.count = Some(4);
    let all = RuleValue::new(p).unwrap().all(10).unwrap();
    let got: Vec<(i64, i64, i64, i64)> = all.iter().map(|z| (z.day(), z.hour(), z.minute(), z.second())).collect();
    assert_eq!(got, vec![(1, 23, 59, 30), (1, 23, 59, 50), (2, 0, 0, 10), (2, 0, 0, 30)]);
}

#[test]
fn stream_ends_and_stays_ended() {
    let mut p = RuleParts::new(Frequency::Daily, utc(2020, 1, 1, 9, 0, 0));
    p.count = Some(1);
    let rule = RuleValue::new(p).unwrap();
    let mut it = rule.iter();
    assert_eq!(it.status(), Status::Running);
    assert!(it.next().unwrap().is_some());
    assert!(it.next().unwrap().is_none());
    assert_eq!(it.status(), Status::Finished);
    assert!(it.next().unwrap().is_none());
}

#[test]
fn sparse_rule_meets_the_cap_and_stays_failed() {
    // No February has a 30th day.
    let mut p = RuleParts::new(Frequency::Minutely, utc(2020, 1, 1, 9, 0, 0));
    p.by_month = vec![2];
    p.by_month_day = vec![30];
    let rule = RuleValue::new(p).unwrap();
    let mut it = rule.iter();
    assert_eq!(it.next().err(), Some(RuleError::BoundExceededError));
    assert_eq!(it.status(), Status::Failed(RuleError::BoundExceededError));
    assert_eq!(it.next().err(), Some(RuleError::BoundExceededError));
}

#[test]
fn rule_without_occurrences_ends_with_the_years() {
    let mut p = RuleParts::new(Frequency::Yearly, utc(2020, 1, 1, 9, 0, 0));
    p.count = Some(1);
    p.by_month = vec![2];
    p.by_month_day = vec![30];
    assert_eq!(RuleValue::new(p).unwrap().all(10).unwrap().len(), 0);
}

#[test]
fn until_is_inclusive_and_compared_as_an_instant() {
    let mut p = RuleParts::new(Frequency::Daily, zoned("Europe/Berlin", 2020, 1, 1, 9, 0, 0));
    p.until = Some(utc(2020, 1, 3, 8, 0, 0));
    assert_eq!(RuleValue::new(p).unwrap().all(10).unwrap().len(), 3);
    let mut p = RuleParts::new(Frequency::Daily, zoned("Europe/Berlin", 2020, 1, 1, 9, 0, 0));
    p.until = Some(utc(2020, 1, 3, 7, 59, 59));
    assert_eq!(RuleValue::new(p).unwrap().all(10).unwrap().len(), 2);
    let mut p = RuleParts::new(Frequency::Daily, zoned("Europe/Berlin", 2020, 1, 1, 9, 0, 0));
    p.until = Some(utc(2019, 1, 1, 0, 0, 0));
    assert_eq!(RuleValue::new(p).unwrap().all(10).unwrap().len(), 0);
}

#[test]
fn limit_cuts_a_bounded_rule_short() {
    let mut p = RuleParts::new(Frequency::Daily, utc(2020, 1, 1, 9, 0, 0));
    p.count = Some(5);
    let rule = RuleValue::new(p).unwrap();
    assert_eq!(rule.all(3).unwrap().len(), 3);
    assert_eq!(rule.all(5).unwrap().len(), 5);
    assert_eq!(rule.all(0).unwrap().len(), 0);
}

#[test]
fn two_enumerations_give_the_same() {
    let mut p = RuleParts::new(Frequency::Weekly, zoned("America/New_York", 2021, 10, 1, 1, 30, 0));
    p.count = Some(20);
    p.by_day = vec![
        OrdWeekday { weekday: Weekday::Su, ordinal: None },
        OrdWeekday { weekday: Weekday::Fr, ordinal: None },
    ];
    let rule = RuleValue::new(p).unwrap();
    let a: Vec<i64> = rule.all(100).unwrap().iter().map(|z| z.timestamp()).collect();
    let b: Vec<i64> = rule.all(100).unwrap().iter().map(|z| z.timestamp()).collect();
    assert_eq!(a, b);
    assert_eq!(a.len(), 20);
    for pair in a.windows(2) {
        assert!(pair[0] < pair[1]);
    }
}

#[test]
fn windows_and_neighbours() {
    let p = RuleParts::new(Frequency::Daily, utc(2020, 1, 1, 9, 0, 0));
    let rule = RuleValue::new(p).unwrap();
    let days = |v: Vec<ZonedInstant>| v.iter().map(|z| z.day()).collect::<Vec<i64>>();

    let lo = utc(2020, 1, 3, 9, 0, 0);
    let hi = utc(2020, 1, 6, 9, 0, 0);
    assert_eq!(days(rule.between(&lo, &hi, true).unwrap()), vec![3, 4, 5, 6]);
    assert_eq!(days(rule.between(&lo, &hi, false).unwrap()), vec![4, 5]);
    assert_eq!(days(rule.between(&hi, &lo, true).unwrap()), Vec::<i64>::new());
    assert_eq!(days(rule.between(&utc(2019, 1, 1, 0, 0, 0), &utc(2020, 1, 2, 0, 0, 0), true).unwrap()), vec![1]);

    assert_eq!(rule.before(&hi, true).unwrap().map(|z| z.day()), Some(6));
    assert_eq!(rule.before(&hi, false).unwrap().map(|z| z.day()), Some(5));
    assert_eq!(rule.before(&utc(2020, 1, 1, 9, 0, 0), false).unwrap().map(|z| z.day()), None);
    assert_eq!(rule.before(&utc(2020, 1, 1, 9, 0, 0), true).unwrap().map(|z| z.day()), Some(1));

    assert_eq!(rule.after(&lo, true).unwrap().map(|z| z.day()), Some(3));
    assert_eq!(rule.after(&lo, false).unwrap().map(|z| z.day()), Some(4));
    assert_eq!(rule.after(&utc(2000, 1, 1, 0, 0, 0), false).unwrap().map(|z| z.day()), Some(1));

    let mut p = RuleParts::new(Frequency::Daily, utc(2020, 1, 1, 9, 0, 0));
    p.count = Some(2);
    let short = RuleValue::new(p).unwrap();
    assert_eq!(short.after(&lo, true).unwrap().map(|z| z.day()), None);
    assert_eq!(short.before(&hi, true).unwrap().map(|z| z.day()), Some(2));
}
