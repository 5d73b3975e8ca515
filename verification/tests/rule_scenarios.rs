use rrule::calendar::Weekday;
use rrule::error::RuleError;
use rrule::instant::ZonedInstant;
use rrule::model::{Frequency, OrdWeekday};
use rrule::rule::{RuleParts, RuleValue};
use rrule::zone::Zone;

fn utc(y: i64, mo: i64, d: i64, h: i64, mi: i64, s: i64) -> ZonedInstant {
    ZonedInstant::new(y, mo, d, h, mi, s, &Zone::named("UTC").unwrap()).unwrap()
}

fn plain(weekday: Weekday) -> OrdWeekday {
    OrdWeekday { weekday, ordinal: None }
}

fn fields(z: &ZonedInstant) -> (i64, i64, i64, i64, i64, i64) {
    (z.year(), z.month(), z.day(), z.hour(), z.minute(), z.second())
}

#[test]
fn daily_count_five() {
    let mut parts = RuleParts::new(Frequency::Daily, utc(2020, 1, 1, 9, 0, 0));
    parts.count = Some(5);
    let rule = RuleValue::new(parts).unwrap();
    let all = rule.all(100).unwrap();
    assert_eq!(all.len(), 5);
    for (i, z) in all.iter().enumerate() {
        assert_eq!(fields(z), (2020, 1, 1 + i as i64, 9, 0, 0));
    }
    assert_eq!(all[0].timestamp(), 1577869200);
    assert_eq!(all[4].timestamp(), 1577869200 + 4 * 86400);
}

#[test]
fn weekly_interval_five_until_on_monday_and_friday() {
    let mut parts = RuleParts::new(Frequency::Weekly, utc(2012, 2, 1, 9, 30, 0));
    parts.interval = 5;
    parts.until = Some(utc(2013, 1, 30, 23, 0, 0));
    parts.by_day = vec![plain(Weekday::Mo), plain(Weekday::Fr)];
    let rule = RuleValue::new(parts).unwrap();
    let all = rule.all(1000).unwrap();
    assert_eq!(all.len(), 21);
    assert_eq!(fields(&all[0]), (2012, 2, 3, 9, 30, 0));
    assert_eq!(all[0].weekday(), Weekday::Fr);
    for z in &all {
        assert!(z.weekday() == Weekday::Mo || z.weekday() == Weekday::Fr);
        assert_eq!((z.hour(), z.minute(), z.second()), (9, 30, 0));
    }
    for pair in all.windows(2) {
        let gap = pair[1].timestamp() - pair[0].timestamp();
        if pair[0].weekday() == Weekday::Mo {
            // Monday to the Friday of the same week.
            assert_eq!(gap, 4 * 86400);
        } else {
            // Friday to the Monday five weeks on.
            assert_eq!(gap, (5 * 7 - 4) * 86400);
        }
    }
}

#[test]
fn yearly_on_leap_day() {
    let mut parts = RuleParts::new(Frequency::Yearly, utc(2000, 2, 29, 0, 0, 0));
    parts.count = Some(3);
    parts.by_month = vec![2];
    parts.by_month_day = vec![29];
    let rule = RuleValue::new(parts).unwrap();
    let all = rule.all(10).unwrap();
    let dates: Vec<(i64, i64, i64)> = all.iter().map(|z| (z.year(), z.month(), z.day())).collect();
    assert_eq!(dates, vec![(2000, 2, 29), (2004, 2, 29), (2008, 2, 29)]);
}

#[test]
fn unbounded_rule_with_limit_used_up_is_an_error() {
    let parts = RuleParts::new(Frequency::Daily, utc(2020, 1, 1, 9, 0, 0));
    let rule = RuleValue::new(parts).unwrap();
    assert_eq!(rule.all(10).err(), Some(RuleError::BoundExceededError));
}
