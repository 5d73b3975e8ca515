use rrule::calendar::Weekday;
use rrule::instant::ZonedInstant;
use rrule::model::{Frequency, OrdWeekday};
use rrule::rule::{RuleParts, RuleValue};
use rrule::zone::Zone;

fn ny(y: i64, mo: i64, d: i64, h: i64, mi: i64, s: i64) -> ZonedInstant {
    ZonedInstant::new(y, mo, d, h, mi, s, &Zone::named("America/New_York").unwrap()).unwrap()
}

fn utc(y: i64, mo: i64, d: i64, h: i64, mi: i64, s: i64) -> ZonedInstant {
    ZonedInstant::new(y, mo, d, h, mi, s, &Zone::named("UTC").unwrap()).unwrap()
}

fn on(weekday: Weekday) -> OrdWeekday {
    OrdWeekday { weekday, ordinal: None }
}

fn nth(n: i64, weekday: Weekday) -> OrdWeekday {
    OrdWeekday { weekday, ordinal: Some(n) }
}

fn dates(parts: RuleParts, limit: usize) -> Vec<(i64, i64, i64)> {
    let rule = RuleValue::new(parts).unwrap();
    let mut it = rule.iter();
    let mut out = Vec::new();
    while out.len() < limit {
        match it.next().unwrap() {
            Some(z) => out.push((z.year(), z.month(), z.day())),
            None => break,
        }
    }
    out
}

fn times(parts: RuleParts, limit: usize) -> Vec<(i64, i64, i64, i64, i64, i64)> {
    let rule = RuleValue::new(parts).unwrap();
    let mut it = rule.iter();
    let mut out = Vec::new();
    while out.len() < limit {
        match it.next().unwrap() {
            Some(z) => out.push((z.year(), z.month(), z.day(), z.hour(), z.minute(), z.second())),
            None => break,
        }
    }
    out
}

#[test]
fn every_other_week_on_monday_wednesday_friday_until() {
    let mut p = RuleParts::new(Frequency::Weekly, ny(1997, 9, 1, 9, 0, 0));
    p.interval = 2;
    p.until = Some(utc(1997, 12, 24, 0, 0, 0));
    p.week_start = Weekday::Su;
    p.by_day = vec![on(Weekday::Mo), on(Weekday::We), on(Weekday::Fr)];
    let got = dates(p, 1000);
    let want = vec![
        (1997, 9, 1), (1997, 9, 3), (1997, 9, 5), (1997, 9, 15), (1997, 9, 17), (1997, 9, 19), (1997, 9, 29),
        (1997, 10, 1), (1997, 10, 3), (1997, 10, 13), (1997, 10, 15), (1997, 10, 17), (1997, 10, 27),
        (1997, 10, 29), (1997, 10, 31), (1997, 11, 10), (1997, 11, 12), (1997, 11, 14), (1997, 11, 24),
        (1997, 11, 26), (1997, 11, 28), (1997, 12, 8), (1997, 12, 10), (1997, 12, 12), (1997, 12, 22),
    ];
    assert_eq!(got, want);
}

#[test]
fn monthly_on_the_first_friday() {
    let mut p = RuleParts::new(Frequency::Monthly, ny(1997, 9, 5, 9, 0, 0));
    p.count = Some(10);
    p.by_day = vec![nth(1, Weekday::Fr)];
    let want = vec![
        (1997, 9, 5), (1997, 10, 3), (1997, 11, 7), (1997, 12, 5), (1998, 1, 2), (1998, 2, 6), (1998, 3, 6),
        (1998, 4, 3), (1998, 5, 1), (1998, 6, 5),
    ];
    assert_eq!(dates(p, 100), want);
}

#[test]
fn monthly_on_the_second_to_last_monday() {
    let mut p = RuleParts::new(Frequency::Monthly, ny(1997, 9, 22, 9, 0, 0));
    p.count = Some(6);
    p.by_day = vec![nth(-2, Weekday::Mo)];
    let want = vec![(1997, 9, 22), (1997, 10, 20), (1997, 11, 17), (1997, 12, 22), (1998, 1, 19), (1998, 2, 16)];
    assert_eq!(dates(p, 100), want);
}

#[test]
fn monthly_on_the_third_to_last_day() {
    let mut p = RuleParts::new(Frequency::Monthly, ny(1997, 9, 28, 9, 0, 0));
    p.by_month_day = vec![-3];
    let want = vec![(1997, 9, 28), (1997, 10, 29), (1997, 11, 28), (1997, 12, 29), (1998, 1, 29), (1998, 2, 26)];
    assert_eq!(dates(p, 6), want);
}

#[test]
fn monthly_on_the_first_and_last_day() {
    let mut p = RuleParts::new(Frequency::Monthly, ny(1997, 9, 30, 9, 0, 0));
    p.count = Some(10);
    p.by_month_day = vec![1, -1];
    let want = vec![
        (1997, 9, 30), (1997, 10, 1), (1997, 10, 31), (1997, 11, 1), (1997, 11, 30), (1997, 12, 1),
        (1997, 12, 31), (1998, 1, 1), (1998, 1, 31), (1998, 2, 1),
    ];
    assert_eq!(dates(p, 100), want);
}

#[test]
fn every_third_year_on_days_1_100_200() {
    let mut p = RuleParts::new(Frequency::Yearly, ny(1997, 1, 1, 9, 0, 0));
    p.interval = 3;
    p.count = Some(10);
    p.by_year_day = vec![1, 100, 200];
    let want = vec![
        (1997, 1, 1), (1997, 4, 10), (1997, 7, 19), (2000, 1, 1), (2000, 4, 9), (2000, 7, 18), (2003, 1, 1),
        (2003, 4, 10), (2003, 7, 19), (2006, 1, 1),
    ];
    assert_eq!(dates(p, 100), want);
}

#[test]
fn every_twentieth_monday_of_the_year() {
    let mut p = RuleParts::new(Frequency::Yearly, ny(1997, 5, 19, 9, 0, 0));
    p.by_day = vec![nth(20, Weekday::Mo)];
    assert_eq!(dates(p, 3), vec![(1997, 5, 19), (1998, 5, 18), (1999, 5, 17)]);
}

#[test]
fn monday_of_week_number_20() {
    let mut p = RuleParts::new(Frequency::Yearly, ny(1997, 5, 12, 9, 0, 0));
    p.by_week_no = vec![20];
    p.by_day = vec![on(Weekday::Mo)];
    assert_eq!(dates(p, 3), vec![(1997, 5, 12), (1998, 5, 11), (1999, 5, 17)]);
}

#[test]
fn every_thursday_in_march() {
    let mut p = RuleParts::new(Frequency::Yearly, ny(1997, 3, 13, 9, 0, 0));
    p.by_month = vec![3];
    p.by_day = vec![on(Weekday::Th)];
    let want = vec![
        (1997, 3, 13), (1997, 3, 20), (1997, 3, 27), (1998, 3, 5), (1998, 3, 12), (1998, 3, 19), (1998, 3, 26),
        (1999, 3, 4), (1999, 3, 11), (1999, 3, 18), (1999, 3, 25),
    ];
    assert_eq!(dates(p, 11), want);
}

#[test]
fn yearly_in_june_and_july() {
    let mut p = RuleParts::new(Frequency::Yearly, ny(1997, 6, 10, 9, 0, 0));
    p.count = Some(10);
    p.by_month = vec![6, 7];
    let want = vec![
        (1997, 6, 10), (1997, 7, 10), (1998, 6, 10), (1998, 7, 10), (1999, 6, 10), (1999, 7, 10), (2000, 6, 10),
        (2000, 7, 10), (2001, 6, 10), (2001, 7, 10),
    ];
    assert_eq!(dates(p, 100), want);
}

#[test]
fn every_friday_the_thirteenth_leaves_out_a_start_that_is_none() {
    let mut p = RuleParts::new(Frequency::Monthly, ny(1997, 9, 2, 9, 0, 0));
    p.by_day = vec![on(Weekday::Fr)];
    p.by_month_day = vec![13];
    let want = vec![(1998, 2, 13), (1998, 3, 13), (1998, 11, 13), (1999, 8, 13), (2000, 10, 13)];
    assert_eq!(dates(p, 5), want);
}

#[test]
fn first_saturday_that_follows_the_first_sunday() {
    let mut p = RuleParts::new(Frequency::Monthly, ny(1997, 9, 13, 9, 0, 0));
    p.by_day = vec![on(Weekday::Sa)];
    p.by_month_day = vec![7, 8, 9, 10, 11, 12, 13];
    let want = vec![(1997, 9, 13), (1997, 10, 11), (1997, 11, 8), (1997, 12, 13), (1998, 1, 10)];
    assert_eq!(dates(p, 5), want);
}

#[test]
fn presidential_election_day() {
    let mut p = RuleParts::new(Frequency::Yearly, ny(1996, 11, 5, 9, 0, 0));
    p.interval = 4;
    p.by_month = vec![11];
    p.by_day = vec![on(Weekday::Tu)];
    p.by_month_day = vec![2, 3, 4, 5, 6, 7, 8];
    assert_eq!(dates(p, 3), vec![(1996, 11, 5), (2000, 11, 7), (2004, 11, 2)]);
}

#[test]
fn third_of_tuesday_wednesday_thursday_by_position() {
    let mut p = RuleParts::new(Frequency::Monthly, ny(1997, 9, 4, 9, 0, 0));
    p.count = Some(3);
    p.by_day = vec![on(Weekday::Tu), on(Weekday::We), on(Weekday::Th)];
    p.by_set_pos = vec![3];
    assert_eq!(dates(p, 100), vec![(1997, 9, 4), (1997, 10, 7), (1997, 11, 6)]);
}

#[test]
fn second_to_last_weekday_of_the_month() {
    let mut p = RuleParts::new(Frequency::Monthly, ny(1997, 9, 29, 9, 0, 0));
    p.by_day = vec![on(Weekday::Mo), on(Weekday::Tu), on(Weekday::We), on(Weekday::Th), on(Weekday::Fr)];
    p.by_set_pos = vec![-2];
    let want = vec![
        (1997, 9, 29), (1997, 10, 30), (1997, 11, 27), (1997, 12, 30), (1998, 1, 29), (1998, 2, 26), (1998, 3, 30),
    ];
    assert_eq!(dates(p, 7), want);
}

#[test]
fn every_three_hours_until_five() {
    let mut p = RuleParts::new(Frequency::Hourly, utc(1997, 9, 2, 9, 0, 0));
    p.interval = 3;
    p.until = Some(utc(1997, 9, 2, 17, 0, 0));
    let want = vec![(1997, 9, 2, 9, 0, 0), (1997, 9, 2, 12, 0, 0), (1997, 9, 2, 15, 0, 0)];
    assert_eq!(times(p, 100), want);
}

#[test]
fn every_fifteen_minutes_six_times() {
    let mut p = RuleParts::new(Frequency::Minutely, ny(1997, 9, 2, 9, 0, 0));
    p.interval = 15;
    p.count = Some(6);
    let want = vec![
        (1997, 9, 2, 9, 0, 0), (1997, 9, 2, 9, 15, 0), (1997, 9, 2, 9, 30, 0), (1997, 9, 2, 9, 45, 0),
        (1997, 9, 2, 10, 0, 0), (1997, 9, 2, 10, 15, 0),
    ];
    assert_eq!(times(p, 100), want);
}

#[test]
fn every_hour_and_a_half_four_times() {
    let mut p = RuleParts::new(Frequency::Minutely, ny(1997, 9, 2, 9, 0, 0));
    p.interval = 90;
    p.count = Some(4);
    let want = vec![
        (1997, 9, 2, 9, 0, 0), (1997, 9, 2, 10, 30, 0), (1997, 9, 2, 12, 0, 0), (1997, 9, 2, 13, 30, 0),
    ];
    assert_eq!(times(p, 100), want);
}

#[test]
fn every_twenty_minutes_from_nine_to_four_forty() {
    let mut p = RuleParts::new(Frequency::Daily, ny(1997, 9, 2, 9, 0, 0));
    p.by_hour = vec![9, 10, 11, 12, 13, 14, 15, 16];
    p.by_minute = vec![0, 20, 40];
    let got = times(p, 26);
    assert_eq!(got[0], (1997, 9, 2, 9, 0, 0));
    assert_eq!(got[1], (1997, 9, 2, 9, 20, 0));
    assert_eq!(got[2], (1997, 9, 2, 9, 40, 0));
    assert_eq!(got[3], (1997, 9, 2, 10, 0, 0));
    assert_eq!(got[23], (1997, 9, 2, 16, 40, 0));
    assert_eq!(got[24], (1997, 9, 3, 9, 0, 0));
    assert_eq!(got[25], (1997, 9, 3, 9, 20, 0));
}

#[test]
fn minutely_with_hours_as_a_limit_gives_the_same() {
    let mut p = RuleParts::new(Frequency::Minutely, ny(1997, 9, 2, 9, 0, 0));
    p.interval = 20;
    p.by_hour = vec![9, 10, 11, 12, 13, 14, 15, 16];
    let got = times(p, 26);
    assert_eq!(got[0], (1997, 9, 2, 9, 0, 0));
    assert_eq!(got[23], (1997, 9, 2, 16, 40, 0));
    assert_eq!(got[24], (1997, 9, 3, 9, 0, 0));
}

#[test]
fn week_start_changes_the_weeks_that_count() {
    let mut p = RuleParts::new(Frequency::Weekly, ny(1997, 8, 5, 9, 0, 0));
    p.interval = 2;
    p.count = Some(4);
    p.by_day = vec![on(Weekday::Tu), on(Weekday::Su)];
    p.week_start = Weekday::Mo;
    assert_eq!(dates(p, 100), vec![(1997, 8, 5), (1997, 8, 10), (1997, 8, 19), (1997, 8, 24)]);

    let mut q = RuleParts::new(Frequency::Weekly, ny(1997, 8, 5, 9, 0, 0));
    q.interval = 2;
    q.count = Some(4);
    q.by_day = vec![on(Weekday::Tu), on(Weekday::Su)];
    q.week_start = Weekday::Su;
    assert_eq!(dates(q, 100), vec![(1997, 8, 5), (1997, 8, 17), (1997, 8, 19), (1997, 8, 31)]);
}

#[test]
fn a_day_that_a_month_lacks_is_passed_over() {
    let mut p = RuleParts::new(Frequency::Monthly, ny(2007, 1, 15, 9, 0, 0));
    p.count = Some(5);
    p.by_month_day = vec![15, 30];
    assert_eq!(dates(p, 100), vec![(2007, 1, 15), (2007, 1, 30), (2007, 2, 15), (2007, 3, 15), (2007, 3, 30)]);
}

#[test]
fn daily_in_january_for_three_years_both_ways() {
    let mut p = RuleParts::new(Frequency::Yearly, ny(1998, 1, 1, 9, 0, 0));
    p.until = Some(utc(2000, 1, 31, 14, 0, 0));
    p.by_month = vec![1];
    p.by_day = vec![
        on(Weekday::Su), on(Weekday::Mo), on(Weekday::Tu), on(Weekday::We), on(Weekday::Th), on(Weekday::Fr),
        on(Weekday::Sa),
    ];
    let yearly = dates(p, 1000);
    let mut q = RuleParts::new(Frequency::Daily, ny(1998, 1, 1, 9, 0, 0));
    q.until = Some(utc(2000, 1, 31, 14, 0, 0));
    q.by_month = vec![1];
    let daily = dates(q, 1000);
    assert_eq!(yearly.len(), 93);
    assert_eq!(yearly, daily);
    assert_eq!(yearly[0], (1998, 1, 1));
    assert_eq!(yearly[92], (2000, 1, 31));
}
