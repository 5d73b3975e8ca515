use rrule::calendar::Weekday;
use rrule::instant::ZonedInstant;
use rrule::model::{Frequency, OrdWeekday};
use rrule::rule::{RuleParts, RuleValue};
use rrule::ruleset::RuleSet;
use rrule::zone::Zone;

fn at(zone: &str, y: i64, mo: i64, d: i64, h: i64, mi: i64, s: i64) -> ZonedInstant {
    ZonedInstant::new(y, mo, d, h, mi, s, &Zone::named(zone).unwrap()).unwrap()
}

fn day(weekday: Weekday) -> OrdWeekday {
    OrdWeekday { weekday, ordinal: None }
}

#[test]
fn monthly_with_rdates_exrule_and_exdate() {
    let mut parts = RuleParts::new(Frequency::Monthly, at("UTC", 2012, 2, 1, 2, 30, 0));
    parts.count = Some(5);
    let mut ex_parts = RuleParts::new(Frequency::Monthly, at("UTC", 2012, 2, 1, 2, 30, 0));
    ex_parts.count = Some(2);
    let mut set = RuleSet::new();
    set.rrule(RuleValue::new(parts).unwrap());
    set.rdate(at("UTC", 2012, 7, 1, 2, 30, 0));
    set.rdate(at("UTC", 2012, 7, 2, 2, 30, 0));
    set.exrule(RuleValue::new(ex_parts).unwrap());
    set.exdate(at("UTC", 2012, 6, 1, 2, 30, 0));
    let all = set.all(100).unwrap();
    let dates: Vec<(i64, i64, i64)> = all.iter().map(|z| (z.year(), z.month(), z.day())).collect();
    assert_eq!(dates, vec![(2012, 4, 1), (2012, 5, 1), (2012, 7, 1), (2012, 7, 2)]);
    assert_eq!(all.len(), 4);
}

#[test]
fn weekly_tuesday_and_wednesday_without_wednesdays() {
    let mut parts = RuleParts::new(Frequency::Weekly, at("UTC", 2020, 1, 1, 9, 0, 0));
    parts.count = Some(4);
    parts.by_day = vec![day(Weekday::Tu), day(Weekday::We)];
    let mut ex_parts = RuleParts::new(Frequency::Weekly, at("UTC", 2020, 1, 1, 9, 0, 0));
    ex_parts.count = Some(4);
    ex_parts.by_day = vec![day(Weekday::We)];
    let mut set = RuleSet::new();
    set.rrule(RuleValue::new(parts).unwrap());
    set.exrule(RuleValue::new(ex_parts).unwrap());
    let all = set.all(100).unwrap();
    assert_eq!(all.len(), 2);
    for z in &all {
        assert_eq!(z.weekday(), Weekday::Tu);
    }
    assert_eq!((all[0].year(), all[0].month(), all[0].day()), (2020, 1, 7));
    assert_eq!((all[1].year(), all[1].month(), all[1].day()), (2020, 1, 14));
}

#[test]
fn berlin_daily_with_exdate_in_utc() {
    let mut parts = RuleParts::new(Frequency::Daily, at("Europe/Berlin", 2020, 1, 1, 9, 0, 0));
    parts.count = Some(4);
    let rule = RuleValue::new(parts).unwrap();
    assert_eq!(rule.all(100).unwrap().len(), 4);
    let mut set = RuleSet::new();
    set.rrule(rule);
    set.exdate(at("UTC", 2020, 1, 2, 8, 0, 0));
    let all = set.all(100).unwrap();
    assert_eq!(all.len(), 3);
    let days: Vec<i64> = all.iter().map(|z| z.day()).collect();
    assert_eq!(days, vec![1, 3, 4]);
    for z in &all {
        assert_eq!(z.hour(), 9);
        assert_eq!(z.zone().name(), "Europe/Berlin");
    }
    // 09:00 in Berlin is 08:00 UTC in winter.
    assert_eq!(all[0].timestamp(), 1577865600);
}

#[test]
fn empty_set_has_no_occurrences() {
    let set = RuleSet::new();
    assert_eq!(set.all(10).unwrap().len(), 0);
}

#[test]
fn equal_instants_from_two_sources_become_one() {
    let mut a = RuleParts::new(Frequency::Daily, at("UTC", 2020, 1, 1, 9, 0, 0));
    a.count = Some(3);
    let mut b = RuleParts::new(Frequency::Daily, at("Europe/Berlin", 2020, 1, 2, 10, 0, 0));
    b.count = Some(3);
    let mut set = RuleSet::new();
    set.rrule(RuleValue::new(a).unwrap());
    set.rrule(RuleValue::new(b).unwrap());
    set.rdate(at("UTC", 2020, 1, 3, 9, 0, 0));
    set.rdate(at("UTC", 2019, 12, 31, 0, 0, 0));
    let all = set.all(100).unwrap();
    let stamps: Vec<i64> = all.iter().map(|z| z.timestamp()).collect();
    let base = 1577869200; // 2020-01-01T09:00:00Z
    assert_eq!(
        stamps,
        vec![1577750400, base, base + 86400, base + 2 * 86400, base + 3 * 86400]
    );
}

#[test]
fn set_gives_all_that_its_rules_give_together() {
    // Three rules of 50,000 occurrences each, twenty seconds apart.
    let mut set = RuleSet::new();
    for second in [0, 20, 40] {
        let mut parts = RuleParts::new(Frequency::Minutely, at("UTC", 2020, 1, 1, 9, 0, second));
        parts.count = Some(50_000);
        set.rrule(RuleValue::new(parts).unwrap());
    }
    let all = set.all(200_000).unwrap();
    assert_eq!(all.len(), 150_000);
    let base = 1577869200;
    assert_eq!(all[0].timestamp(), base);
    assert_eq!(all[1].timestamp(), base + 20);
    assert_eq!(all[149_999].timestamp(), base + 49_999 * 60 + 40);
    for pair in all.windows(2) {
        assert_eq!(pair[1].timestamp() - pair[0].timestamp(), 20);
    }
}

#[test]
fn set_fails_where_the_stream_of_a_rule_meets_its_cap() {
    // One rule has more occurrences than a stream gives out.
    let mut parts = RuleParts::new(Frequency::Secondly, at("UTC", 2020, 1, 1, 9, 0, 0));
    parts.count = Some(100_001);
    let rule = RuleValue::new(parts).unwrap();
    assert_eq!(rule.all(200_000).err(), Some(rrule::error::RuleError::BoundExceededError));
    let mut set = RuleSet::new();
    set.rrule(rule);
    assert_eq!(set.all(200_000).err(), Some(rrule::error::RuleError::BoundExceededError));
}
