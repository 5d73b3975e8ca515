use rrule::calendar::Weekday;
use rrule::instant::ZonedInstant;
use rrule::model::{Frequency, OrdWeekday};
use rrule::rule::{RuleParts, RuleValue};
use rrule::zone::Zone;

fn start() -> ZonedInstant {
    // A Tuesday.
    ZonedInstant::new(1997, 9, 2, 9, 0, 0, &Zone::named("UTC").unwrap()).unwrap()
}

fn on(weekday: Weekday) -> OrdWeekday {
    OrdWeekday { weekday, ordinal: None }
}

fn nth(n: i64, weekday: Weekday) -> OrdWeekday {
    OrdWeekday { weekday, ordinal: Some(n) }
}

fn first(parts: RuleParts, n: usize) -> Vec<(i64, i64, i64, i64, i64, i64)> {
    let rule = RuleValue::new(parts).unwrap();
    let mut it = rule.iter();
    let mut out = Vec::new();
    while out.len() < n {
        match it.next().unwrap() {
            Some(z) => out.push((z.year(), z.month(), z.day(), z.hour(), z.minute(), z.second())),
            None => break,
        }
    }
    out
}

fn days(parts: RuleParts, n: usize) -> Vec<(i64, i64, i64)> {
    first(parts, n).into_iter().map(|(y, m, d, _, _, _)| (y, m, d)).collect()
}

#[test]
fn yearly_week_one_on_monday() {
    let mut p = RuleParts::new(Frequency::Yearly, start());
    p.by_week_no = vec![1];
    p.by_day = vec![on(Weekday::Mo)];
    assert_eq!(days(p, 3), vec![(1997, 12, 29), (1999, 1, 4), (2000, 1, 3)]);
}

#[test]
fn yearly_week_fifty_two_on_sunday() {
    let mut p = RuleParts::new(Frequency::Yearly, start());
    p.by_week_no = vec![52];
    p.by_day = vec![on(Weekday::Su)];
    assert_eq!(days(p, 3), vec![(1997, 12, 28), (1998, 12, 27), (2000, 1, 2)]);
}

#[test]
fn yearly_last_week_on_sunday() {
    let mut p = RuleParts::new(Frequency::Yearly, start());
    p.by_week_no = vec![-1];
    p.by_day = vec![on(Weekday::Su)];
    assert_eq!(days(p, 3), vec![(1997, 12, 28), (1999, 1, 3), (2000, 1, 2)]);
}

#[test]
fn yearly_week_fifty_three_on_monday() {
    let mut p = RuleParts::new(Frequency::Yearly, start());
    p.by_week_no = vec![53];
    p.by_day = vec![on(Weekday::Mo)];
    assert_eq!(days(p, 3), vec![(1998, 12, 28), (2004, 12, 27), (2009, 12, 28)]);
}

#[test]
fn yearly_first_tuesday_and_last_thursday_of_the_year() {
    let mut p = RuleParts::new(Frequency::Yearly, start());
    p.by_day = vec![nth(1, Weekday::Tu), nth(-1, Weekday::Th)];
    assert_eq!(days(p, 3), vec![(1997, 12, 25), (1998, 1, 6), (1998, 12, 31)]);
}

#[test]
fn yearly_thirteenth_tuesday_and_thirteenth_to_last_thursday() {
    let mut p = RuleParts::new(Frequency::Yearly, start());
    p.by_day = vec![nth(13, Weekday::Tu), nth(-13, Weekday::Th)];
    assert_eq!(days(p, 3), vec![(1997, 10, 2), (1998, 3, 31), (1998, 10, 8)]);
}

#[test]
fn yearly_ordinals_count_within_the_months_named() {
    let mut p = RuleParts::new(Frequency::Yearly, start());
    p.by_month = vec![1, 3];
    p.by_day = vec![nth(1, Weekday::Tu), nth(-1, Weekday::Th)];
    assert_eq!(days(p, 3), vec![(1998, 1, 6), (1998, 1, 29), (1998, 3, 3)]);
}

#[test]
fn monthly_third_tuesday_and_third_to_last_thursday() {
    let mut p = RuleParts::new(Frequency::Monthly, start());
    p.by_day = vec![nth(3, Weekday::Tu), nth(-3, Weekday::Th)];
    assert_eq!(days(p, 3), vec![(1997, 9, 11), (1997, 9, 16), (1997, 10, 16)]);
}

#[test]
fn yearly_month_days_without_months_run_through_every_month() {
    let mut p = RuleParts::new(Frequency::Yearly, start());
    p.by_month_day = vec![1, 3];
    assert_eq!(days(p, 3), vec![(1997, 9, 3), (1997, 10, 1), (1997, 10, 3)]);
}

#[test]
fn yearly_months_and_month_days() {
    let mut p = RuleParts::new(Frequency::Yearly, start());
    p.by_month = vec![1, 3];
    p.by_month_day = vec![5, 7];
    assert_eq!(days(p, 3), vec![(1998, 1, 5), (1998, 1, 7), (1998, 3, 5)]);
}

#[test]
fn yearly_hours_expand() {
    let mut p = RuleParts::new(Frequency::Yearly, start());
    p.by_hour = vec![6, 18];
    assert_eq!(first(p, 3), vec![(1997, 9, 2, 18, 0, 0), (1998, 9, 2, 6, 0, 0), (1998, 9, 2, 18, 0, 0)]);
}

#[test]
fn yearly_positions_over_the_whole_year() {
    let mut p = RuleParts::new(Frequency::Yearly, start());
    p.by_month_day = vec![15];
    p.by_hour = vec![6, 18];
    p.by_set_pos = vec![3, -3];
    assert_eq!(first(p, 3), vec![(1997, 11, 15, 18, 0, 0), (1998, 2, 15, 6, 0, 0), (1998, 11, 15, 18, 0, 0)]);
}

#[test]
fn weekly_months_limit() {
    let mut p = RuleParts::new(Frequency::Weekly, start());
    p.by_month = vec![1, 3];
    assert_eq!(days(p, 3), vec![(1998, 1, 6), (1998, 1, 13), (1998, 1, 20)]);
}

#[test]
fn daily_year_days_limit_counted_from_either_end() {
    let mut p = RuleParts::new(Frequency::Daily, start());
    p.by_year_day = vec![1, 100, 200, 365];
    let want = vec![(1997, 12, 31), (1998, 1, 1), (1998, 4, 10), (1998, 7, 19)];
    assert_eq!(days(p, 4), want);
    let mut p = RuleParts::new(Frequency::Daily, start());
    p.by_year_day = vec![-365, -266, -166, -1];
    assert_eq!(days(p, 4), want);
}

#[test]
fn hourly_weekdays_limit() {
    let mut p = RuleParts::new(Frequency::Hourly, start());
    p.by_day = vec![on(Weekday::Tu), on(Weekday::Th)];
    p.interval = 12;
    assert_eq!(
        first(p, 4),
        vec![(1997, 9, 2, 9, 0, 0), (1997, 9, 2, 21, 0, 0), (1997, 9, 4, 9, 0, 0), (1997, 9, 4, 21, 0, 0)]
    );
}

#[test]
fn secondly_hours_limit() {
    let mut p = RuleParts::new(Frequency::Secondly, start());
    p.by_hour = vec![6, 18];
    assert_eq!(first(p, 3), vec![(1997, 9, 2, 18, 0, 0), (1997, 9, 2, 18, 0, 1), (1997, 9, 2, 18, 0, 2)]);
}

#[test]
fn minutely_seconds_expand() {
    let mut p = RuleParts::new(Frequency::Minutely, start());
    p.by_second = vec![6, 18];
    assert_eq!(first(p, 3), vec![(1997, 9, 2, 9, 0, 6), (1997, 9, 2, 9, 0, 18), (1997, 9, 2, 9, 1, 6)]);
}

#[test]
fn ordinals_are_plain_weekdays_in_a_weekly_rule() {
    let mut p = RuleParts::new(Frequency::Weekly, start());
    p.by_day = vec![nth(3, Weekday::Th)];
    assert_eq!(days(p, 3), vec![(1997, 9, 4), (1997, 9, 11), (1997, 9, 18)]);
}

#[test]
fn zoned_instants_are_ordered_by_their_instants() {
    let berlin = ZonedInstant::new(2020, 7, 15, 13, 0, 0, &Zone::named("Europe/Berlin").unwrap()).unwrap();
    let utc = ZonedInstant::new(2020, 7, 15, 12, 0, 0, &Zone::named("UTC").unwrap()).unwrap();
    // 13:00 in Berlin is 11:00 UTC.
    assert!(berlin < utc);
    assert!(utc > berlin);
    assert!(berlin <= berlin.duplicate());
    assert!(!(berlin < berlin.duplicate()));
    assert!(berlin.is_before(&utc));
}
