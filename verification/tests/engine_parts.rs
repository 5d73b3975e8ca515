use rrule::calendar::{day_number_of, first_day_of_month, first_day_of_year, Weekday};
use rrule::error::RuleError;
use rrule::expand::{
    choose_by_position, expand_unit, first_second_of_unit, keep_from, start_unit, unit_is_in_range, yield_of_unit,
};
use rrule::instant::ZonedInstant;
use rrule::model::{Frequency, OrdWeekday};
use rrule::rule::{holds, RuleParts, RuleValue};
use rrule::ruleset::{RuleSet, Source};
use rrule::stream::Status;
use rrule::zone::{LocalTime, Zone};

fn utc(y: i64, mo: i64, d: i64, h: i64, mi: i64, s: i64) -> ZonedInstant {
    ZonedInstant::new(y, mo, d, h, mi, s, &Zone::named("UTC").unwrap()).unwrap()
}

fn rule_of(freq: Frequency) -> RuleValue {
    RuleValue::new(RuleParts::new(freq, utc(2020, 1, 1, 9, 0, 0))).unwrap()
}

#[test]
fn zone_reports_gaps_and_folds() {
    let ny = Zone::named("America/New_York").unwrap();
    let gap = day_number_of(2021, 3, 14) * 86400 + 2 * 3600 + 30 * 60;
    assert_eq!(ny.local_time(gap), Some(LocalTime::Gap));
    assert_eq!(ny.instant_at(gap), None);
    let fold = day_number_of(2021, 11, 7) * 86400 + 3600 + 30 * 60;
    assert_eq!(ny.local_time(fold), Some(LocalTime::Fold(1636263000, 1636266600)));
    assert_eq!(ny.instant_at(fold), Some(1636263000));
    let plain = day_number_of(2021, 7, 1) * 86400;
    assert_eq!(ny.local_time(plain), Some(LocalTime::Unique(plain + 4 * 3600)));
    let utc = Zone::named("UTC").unwrap();
    assert_eq!(utc.local_time(plain), Some(LocalTime::Unique(plain)));
    // A civil second that `chrono` cannot hold has no answer.
    assert_eq!(utc.local_time(i64::MAX), None);
    assert_eq!(utc.instant_at(i64::MAX), None);
    assert_eq!(utc.duplicate().name(), "UTC");
}

#[test]
fn first_days_of_years_and_months() {
    assert_eq!(first_day_of_year(1970), 0);
    assert_eq!(first_day_of_year(2020), 18262);
    assert_eq!(first_day_of_month(2020, 3), 18262 + 31 + 29);
    assert_eq!(first_day_of_month(2021, 3), 18262 + 366 + 31 + 28);
}

#[test]
fn units_of_the_start_and_where_they_begin() {
    let day = 18262; // 2020-01-01
    let cases = [
        (Frequency::Yearly, 2020, day * 86400),
        (Frequency::Monthly, 2020 * 12, day * 86400),
        (Frequency::Weekly, 2609, (day - 2) * 86400),
        (Frequency::Daily, day, day * 86400),
        (Frequency::Hourly, day * 24 + 9, day * 86400 + 9 * 3600),
        (Frequency::Minutely, (day * 24 + 9) * 60, day * 86400 + 9 * 3600),
        (Frequency::Secondly, day * 86400 + 9 * 3600, day * 86400 + 9 * 3600),
    ];
    for (freq, unit, first) in cases {
        let rule = rule_of(freq);
        assert_eq!(start_unit(&rule), unit);
        assert!(unit_is_in_range(&rule, unit));
        assert_eq!(first_second_of_unit(&rule, unit), first);
    }
    let mut p = RuleParts::new(Frequency::Weekly, utc(2020, 1, 1, 9, 0, 0));
    p.week_start = Weekday::Th;
    let rule = RuleValue::new(p).unwrap();
    let unit = start_unit(&rule);
    // The week from Thursday that holds 2020-01-01 begins on 2019-12-26.
    assert_eq!(first_second_of_unit(&rule, unit), (18262 - 6) * 86400);
}

#[test]
fn range_of_units() {
    let yearly = rule_of(Frequency::Yearly);
    assert!(!unit_is_in_range(&yearly, 0));
    assert!(unit_is_in_range(&yearly, 1));
    assert!(unit_is_in_range(&yearly, 9999));
    assert!(!unit_is_in_range(&yearly, 10000));
    let monthly = rule_of(Frequency::Monthly);
    assert!(!unit_is_in_range(&monthly, 11));
    assert!(unit_is_in_range(&monthly, 12));
    assert!(unit_is_in_range(&monthly, 9999 * 12 + 11));
    assert!(!unit_is_in_range(&monthly, 10000 * 12));
    let daily = rule_of(Frequency::Daily);
    assert!(unit_is_in_range(&daily, -719162));
    assert!(!unit_is_in_range(&daily, -719163));
    assert!(unit_is_in_range(&daily, 2932896));
    assert!(!unit_is_in_range(&daily, 2932897));
    let secondly = rule_of(Frequency::Secondly);
    assert!(unit_is_in_range(&secondly, 253402300799));
    assert!(!unit_is_in_range(&secondly, 253402300800));
    assert!(!unit_is_in_range(&secondly, i64::MAX));
    assert!(!unit_is_in_range(&secondly, i64::MIN));
}

#[test]
fn candidates_of_one_period() {
    let base = 18262 * 86400;
    let daily = rule_of(Frequency::Daily);
    assert_eq!(expand_unit(&daily, 18262), vec![base + 9 * 3600]);

    let mut p = RuleParts::new(Frequency::Daily, utc(2020, 1, 1, 9, 0, 0));
    p.by_hour = vec![12, 8];
    p.by_minute = vec![30, 0];
    p.by_second = vec![0, 60, 59];
    let rule = RuleValue::new(p).unwrap();
    let want = vec![
        base + 8 * 3600,
        base + 8 * 3600 + 59,
        base + 8 * 3600 + 1800,
        base + 8 * 3600 + 1859,
        base + 12 * 3600,
        base + 12 * 3600 + 59,
        base + 12 * 3600 + 1800,
        base + 12 * 3600 + 1859,
    ];
    assert_eq!(expand_unit(&rule, 18262), want);
    // Without what lies before the start at 09:00.
    assert_eq!(yield_of_unit(&rule, 18262), want[4..].to_vec());

    let mut p = RuleParts::new(Frequency::Monthly, utc(2020, 1, 1, 9, 0, 0));
    p.by_month_day = vec![-1, 1];
    let rule = RuleValue::new(p).unwrap();
    let feb = 2020 * 12 + 1;
    assert_eq!(
        expand_unit(&rule, feb),
        vec![(18262 + 31) * 86400 + 9 * 3600, (18262 + 31 + 28) * 86400 + 9 * 3600]
    );

    let mut p = RuleParts::new(Frequency::Hourly, utc(2020, 1, 1, 9, 0, 0));
    p.by_minute = vec![15, 45];
    let rule = RuleValue::new(p).unwrap();
    let hour = 18262 * 24 + 10;
    assert_eq!(expand_unit(&rule, hour), vec![hour * 3600 + 900, hour * 3600 + 2700]);

    let mut p = RuleParts::new(Frequency::Secondly, utc(2020, 1, 1, 9, 0, 0));
    p.by_minute = vec![1];
    let rule = RuleValue::new(p).unwrap();
    assert_eq!(expand_unit(&rule, base + 9 * 3600), Vec::<i64>::new());
    assert_eq!(expand_unit(&rule, base + 9 * 3600 + 61), vec![base + 9 * 3600 + 61]);
}

#[test]
fn positions_choose_from_either_end() {
    let none: Vec<i64> = Vec::new();
    assert_eq!(choose_by_position(vec![10, 20, 30, 40], &none), vec![10, 20, 30, 40]);
    assert_eq!(choose_by_position(vec![10, 20, 30, 40], &vec![1, -1]), vec![10, 40]);
    assert_eq!(choose_by_position(vec![10, 20, 30, 40], &vec![-1, 1]), vec![10, 40]);
    assert_eq!(choose_by_position(vec![10, 20, 30, 40], &vec![2, 9, -9]), vec![20]);
    assert_eq!(choose_by_position(vec![10, 20, 30, 40], &vec![4, -1, -4, 1]), vec![10, 40]);
    assert_eq!(choose_by_position(vec![10, 20, 30, 40], &vec![5]), none);
    assert_eq!(choose_by_position(Vec::new(), &vec![1]), none);
    assert_eq!(choose_by_position(vec![7], &vec![i64::MIN, i64::MAX, -1]), vec![7]);
}

#[test]
fn keep_from_drops_what_lies_below() {
    assert_eq!(keep_from(vec![1, 5, 3, 9], 4), vec![5, 9]);
    assert_eq!(keep_from(vec![1, 2], 2), vec![2]);
    assert_eq!(keep_from(vec![1, 2], 3), Vec::<i64>::new());
    assert!(holds(&vec![1, 2, 3], 2));
    assert!(!holds(&vec![1, 2, 3], 4));
    assert!(!holds(&Vec::new(), 0));
}

#[test]
fn what_a_rule_admits() {
    let mut p = RuleParts::new(Frequency::Weekly, utc(2020, 1, 1, 9, 0, 0));
    p.by_day = vec![OrdWeekday { weekday: Weekday::Mo, ordinal: None }];
    let rule = RuleValue::new(p).unwrap();
    assert!(rule.admits_day(day_number_of(2020, 1, 6)));
    assert!(!rule.admits_day(day_number_of(2020, 1, 7)));
    assert!(rule.admits_hour(9));
    assert!(!rule.admits_hour(10));
    assert!(rule.admits_minute(0));
    assert!(!rule.admits_minute(1));
    assert!(rule.admits_second(0));
    assert!(!rule.admits_second(59));

    // A weekly rule without weekdays keeps the weekday of its start.
    let weekly = rule_of(Frequency::Weekly);
    assert!(weekly.admits_day(day_number_of(2020, 1, 8)));
    assert!(!weekly.admits_day(day_number_of(2020, 1, 9)));

    // A yearly rule without days keeps the month and the day of its start.
    let yearly = rule_of(Frequency::Yearly);
    assert!(yearly.admits_day(day_number_of(2021, 1, 1)));
    assert!(!yearly.admits_day(day_number_of(2021, 2, 1)));
    assert!(!yearly.admits_day(day_number_of(2021, 1, 2)));

    // Week 1 of 2021 runs from January 4; January 1 to 3 lie in week 53 of 2020.
    let mut p = RuleParts::new(Frequency::Yearly, utc(2020, 1, 1, 9, 0, 0));
    p.by_week_no = vec![53];
    let rule = RuleValue::new(p).unwrap();
    assert!(rule.admits_day(day_number_of(2020, 12, 28)));
    assert!(rule.admits_day(day_number_of(2021, 1, 3)));
    assert!(!rule.admits_day(day_number_of(2021, 1, 4)));
    let mut p = RuleParts::new(Frequency::Yearly, utc(2020, 1, 1, 9, 0, 0));
    p.by_week_no = vec![-1];
    let rule = RuleValue::new(p).unwrap();
    assert!(rule.admits_day(day_number_of(2021, 1, 3)));
    assert!(rule.admits_day(day_number_of(2021, 12, 27)));
    assert!(!rule.admits_day(day_number_of(2021, 12, 26)));

    // An hourly rule leaves the hour open and keeps the minute of its start.
    let hourly = rule_of(Frequency::Hourly);
    assert!(hourly.admits_hour(23));
    assert!(!hourly.admits_minute(30));
    let secondly = rule_of(Frequency::Secondly);
    assert!(secondly.admits_minute(30));
    assert!(secondly.admits_second(30));
}

#[test]
fn start_is_first_where_admitted_and_left_out_where_not() {
    let daily = rule_of(Frequency::Daily);
    let mut it = daily.iter();
    let first = it.next().unwrap().unwrap();
    assert!(first == utc(2020, 1, 1, 9, 0, 0));

    // 2020-01-01 is a Wednesday.
    let mut p = RuleParts::new(Frequency::Weekly, utc(2020, 1, 1, 9, 0, 0));
    p.count = Some(2);
    p.by_day = vec![OrdWeekday { weekday: Weekday::Mo, ordinal: None }];
    let all = RuleValue::new(p).unwrap().all(10).unwrap();
    let days: Vec<i64> = all.iter().map(|z| z.day()).collect();
    assert_eq!(days, vec![6, 13]);
}

#[test]
fn sources_keep_the_next_occurrence_at_the_head() {
    let mut p = RuleParts::new(Frequency::Daily, utc(2020, 1, 1, 9, 0, 0));
    p.count = Some(4);
    let rule = RuleValue::new(p).unwrap();
    let (mut src, e) = Source::open(&rule);
    assert_eq!(e, None);
    let base = 1577869200;
    assert_eq!(src.head_instant(), Some(base));
    assert_eq!(src.pull(), None);
    assert_eq!(src.head_instant(), Some(base + 86400));
    assert_eq!(src.catch_up(base + 86400), None);
    assert_eq!(src.head_instant(), Some(base + 86400));
    assert_eq!(src.catch_up(base + 2 * 86400 + 1), None);
    assert_eq!(src.head_copy().map(|z| z.timestamp()), Some(base + 3 * 86400));
    assert_eq!(src.catch_up(i64::MAX), None);
    assert_eq!(src.head_instant(), None);
    assert_eq!(src.pull(), None);
    assert_eq!(src.head_instant(), None);
}

#[test]
fn set_is_inclusions_without_exclusions() {
    let mut a = RuleParts::new(Frequency::Daily, utc(2020, 1, 1, 9, 0, 0));
    a.count = Some(6);
    let mut b = RuleParts::new(Frequency::Daily, utc(2020, 1, 4, 9, 0, 0));
    b.interval = 2;
    b.count = Some(4);
    let mut x = RuleParts::new(Frequency::Daily, utc(2020, 1, 2, 9, 0, 0));
    x.interval = 3;
    x.count = Some(3);
    let (a, b, x) = (RuleValue::new(a).unwrap(), RuleValue::new(b).unwrap(), RuleValue::new(x).unwrap());
    let dates = [utc(2020, 1, 20, 9, 0, 0), utc(2020, 1, 3, 9, 0, 0), utc(2020, 1, 3, 12, 0, 0)];
    let ex_dates = [utc(2020, 1, 10, 9, 0, 0), utc(2020, 1, 1, 9, 0, 0), utc(2021, 1, 1, 9, 0, 0)];

    let mut inc: Vec<i64> = Vec::new();
    inc.extend(a.all(100).unwrap().iter().map(|z| z.timestamp()));
    inc.extend(b.all(100).unwrap().iter().map(|z| z.timestamp()));
    inc.extend(dates.iter().map(|z| z.timestamp()));
    let mut exc: Vec<i64> = x.all(100).unwrap().iter().map(|z| z.timestamp()).collect();
    exc.extend(ex_dates.iter().map(|z| z.timestamp()));
    inc.sort();
    inc.dedup();
    let want: Vec<i64> = inc.into_iter().filter(|t| !exc.contains(t)).collect();

    let mut set = RuleSet::new();
    set.rrule(a);
    set.rrule(b);
    set.exrule(x);
    for d in dates {
        set.rdate(d);
    }
    for d in ex_dates {
        set.exdate(d);
    }
    let got: Vec<i64> = set.all(100).unwrap().iter().map(|z| z.timestamp()).collect();
    assert_eq!(got, want);
    let day = |t: i64| (t - 1577869200) / 86400 + 1;
    let days: Vec<i64> = got.iter().map(|t| day(*t)).collect();
    // 1..6 and 4, 6, 8, 10 and 20, 3, 3 (at noon); without 2, 5, 8 and 10, 1.
    assert_eq!(days, vec![3, 3, 4, 6, 20]);
    assert_eq!(got[1] - got[0], 3 * 3600);
}

#[test]
fn set_windows_and_neighbours() {
    let mut p = RuleParts::new(Frequency::Daily, utc(2020, 1, 1, 9, 0, 0));
    p.count = Some(5);
    let mut set = RuleSet::new();
    set.rrule(RuleValue::new(p).unwrap());
    set.exdate(utc(2020, 1, 3, 9, 0, 0));
    let days = |v: Vec<ZonedInstant>| v.iter().map(|z| z.day()).collect::<Vec<i64>>();
    let lo = utc(2020, 1, 2, 9, 0, 0);
    let hi = utc(2020, 1, 4, 9, 0, 0);
    assert_eq!(days(set.between(&lo, &hi, true).unwrap()), vec![2, 4]);
    assert_eq!(days(set.between(&lo, &hi, false).unwrap()), Vec::<i64>::new());
    assert_eq!(days(set.between(&utc(2020, 1, 1, 0, 0, 0), &utc(2021, 1, 1, 0, 0, 0), false).unwrap()), vec![1, 2, 4, 5]);
    let third = utc(2020, 1, 3, 9, 0, 0);
    assert_eq!(set.before(&third, true).unwrap().map(|z| z.day()), Some(2));
    assert_eq!(set.before(&lo, false).unwrap().map(|z| z.day()), Some(1));
    assert_eq!(set.before(&utc(2020, 1, 1, 9, 0, 0), false).unwrap().map(|z| z.day()), None);
    assert_eq!(set.after(&third, true).unwrap().map(|z| z.day()), Some(4));
    assert_eq!(set.after(&hi, false).unwrap().map(|z| z.day()), Some(5));
    assert_eq!(set.after(&utc(2020, 1, 5, 9, 0, 0), false).unwrap().map(|z| z.day()), None);
}

#[test]
fn set_stream_ends_and_unbounded_set_needs_a_window() {
    let mut p = RuleParts::new(Frequency::Daily, utc(2020, 1, 1, 9, 0, 0));
    p.count = Some(2);
    let mut set = RuleSet::new();
    set.rrule(RuleValue::new(p).unwrap());
    let mut it = set.iter();
    assert_eq!(it.status(), Status::Running);
    assert_eq!(it.next().unwrap().map(|z| z.day()), Some(1));
    assert_eq!(it.next().unwrap().map(|z| z.day()), Some(2));
    assert!(it.next().unwrap().is_none());
    assert_eq!(it.status(), Status::Finished);
    assert!(it.next().unwrap().is_none());

    let mut open = RuleSet::new();
    open.rrule(rule_of(Frequency::Daily));
    assert_eq!(open.all(10).err(), Some(RuleError::BoundExceededError));
    let got = open.between(&utc(2020, 1, 1, 0, 0, 0), &utc(2020, 1, 4, 0, 0, 0), true).unwrap();
    assert_eq!(got.len(), 3);

    // An exclusion rule without bound takes every occurrence away; the stream gives up at the cap.
    let mut p = RuleParts::new(Frequency::Secondly, utc(2020, 1, 1, 9, 0, 0));
    p.until = Some(utc(2020, 2, 1, 9, 0, 0));
    let mut void = RuleSet::new();
    void.rrule(RuleValue::new(p).unwrap());
    void.exrule(rule_of(Frequency::Secondly));
    let mut it = void.iter();
    assert_eq!(it.next().err(), Some(RuleError::BoundExceededError));
    assert_eq!(it.status(), Status::Failed(RuleError::BoundExceededError));
    assert_eq!(it.next().err(), Some(RuleError::BoundExceededError));
}
