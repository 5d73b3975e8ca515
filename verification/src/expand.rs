//! The expansion of one period of a rule into its candidates.

use vstd::prelude::*;
use crate::calendar::{
    day_of_seconds, days_in_month, first_day_of_month, first_day_of_year, in_calendar, lemma_civil_seconds_whole,
    lemma_date_within_year, lemma_year_start_monotonic, lemma_year_step, minute_of, second_of, second_of_day,
    year_start, CIVIL_END, CIVIL_MIN,
};
use crate::candidates::{in_unit, lemma_unit_candidates, lemma_unit_yield};
use crate::laws::lemma_unit_span;
use crate::model::{
    ascending, choose_positions, chosen_upto, day_list, hour_list, ints, is_candidate, kept_upto, minute_list,
    position_chosen, second_list, unit_candidates, unit_in_range, unit_of, unit_start, unit_yield, Frequency,
};
use crate::rule::{holds, RuleValue};

verus! {

/// Appends the candidates among the seconds `from` to `to - 1` of the minute
/// that begins at `base`.
fn push_seconds(rule: &RuleValue, base: i64, from: i64, to: i64, out: &mut Vec<i64>)
    requires
        0 <= from <= to <= 60,
        -0x4000_0000_0000_0000 < base < 0x4000_0000_0000_0000,
    ensures
        ints(final(out)@) == ints(old(out)@) + second_list(rule@, base as int, from as int, to as int),
{
    let ghost before = ints(out@);
    let mut s: i64 = from;
    assert(ints(out@) =~= before + second_list(rule@, base as int, from as int, s as int));
    while s < to
        invariant
            from <= s <= to <= 60,
            0 <= from,
            -0x4000_0000_0000_0000 < base < 0x4000_0000_0000_0000,
            ints(out@) == before + second_list(rule@, base as int, from as int, s as int),
        decreases to - s,
    {
        let ghost prev = ints(out@);
        if rule.admits_second(s) {
            out.push(base + s);
            assert(ints(out@) =~= prev.push(base + s));
        }
        s += 1;
        assert(ints(out@) =~= before + second_list(rule@, base as int, from as int, s as int));
    }
}

/// Appends the candidates within the minutes `from` to `to - 1` of the hour
/// that begins at `base`.
fn push_minutes(rule: &RuleValue, base: i64, from: i64, to: i64, out: &mut Vec<i64>)
    requires
        0 <= from <= to <= 60,
        -0x2000_0000_0000_0000 < base < 0x2000_0000_0000_0000,
    ensures
        ints(final(out)@) == ints(old(out)@) + minute_list(rule@, base as int, from as int, to as int),
{
    let ghost before = ints(out@);
    let mut m: i64 = from;
    assert(ints(out@) =~= before + minute_list(rule@, base as int, from as int, m as int));
    while m < to
        invariant
            from <= m <= to <= 60,
            0 <= from,
            -0x2000_0000_0000_0000 < base < 0x2000_0000_0000_0000,
            ints(out@) == before + minute_list(rule@, base as int, from as int, m as int),
        decreases to - m,
    {
        let ghost prev = ints(out@);
        if rule.admits_minute(m) {
            push_seconds(rule, base + m * 60, 0, 60, out);
        }
        m += 1;
        assert(ints(out@) =~= before + minute_list(rule@, base as int, from as int, m as int));
    }
}

/// Appends the candidates within the hours `from` to `to - 1` of the day
/// that begins at `base`.
fn push_hours(rule: &RuleValue, base: i64, from: i64, to: i64, out: &mut Vec<i64>)
    requires
        0 <= from <= to <= 24,
        -0x1000_0000_0000_0000 < base < 0x1000_0000_0000_0000,
    ensures
        ints(final(out)@) == ints(old(out)@) + hour_list(rule@, base as int, from as int, to as int),
{
    let ghost before = ints(out@);
    let mut h: i64 = from;
    assert(ints(out@) =~= before + hour_list(rule@, base as int, from as int, h as int));
    while h < to
        invariant
            from <= h <= to <= 24,
            0 <= from,
            -0x1000_0000_0000_0000 < base < 0x1000_0000_0000_0000,
            ints(out@) == before + hour_list(rule@, base as int, from as int, h as int),
        decreases to - h,
    {
        if rule.admits_hour(h) {
            push_minutes(rule, base + h * 3600, 0, 60, out);
        }
        h += 1;
        assert(ints(out@) =~= before + hour_list(rule@, base as int, from as int, h as int));
    }
}

/// Appends the candidates within the days `from` to `to - 1`.
fn push_days(rule: &RuleValue, from: i64, to: i64, out: &mut Vec<i64>)
    requires
        from <= to,
        in_calendar(from as int),
        -719528 <= to <= 2933263,
        rule@.by_week_no.len() > 0 ==> -719162 <= from && to <= 2932897,
    ensures
        ints(final(out)@) == ints(old(out)@) + day_list(rule@, from as int, to as int),
{
    let ghost before = ints(out@);
    let mut d: i64 = from;
    assert(ints(out@) =~= before + day_list(rule@, from as int, d as int));
    while d < to
        invariant
            from <= d <= to,
            in_calendar(from as int),
            -719528 <= to <= 2933263,
            rule@.by_week_no.len() > 0 ==> -719162 <= from && to <= 2932897,
            ints(out@) == before + day_list(rule@, from as int, d as int),
        decreases to - d,
    {
        if rule.admits_day(d) {
            push_hours(rule, d * 86400, 0, 24, out);
        }
        d += 1;
        assert(ints(out@) =~= before + day_list(rule@, from as int, d as int));
    }
}

/// Only a yearly rule names weeks by number.
proof fn rule_names_no_weeks(rule: &RuleValue)
    requires
        rule@.valid(),
    ensures
        rule@.freq != Frequency::Yearly ==> rule@.by_week_no.len() == 0,
{
}

/// Whether the unit `u` of the rule's frequency has a part in the years 1
/// to 9999.
pub fn unit_is_in_range(rule: &RuleValue, u: i64) -> (b: bool)
    ensures
        b == unit_in_range(rule@.freq, rule@.week_start, u as int),
{
    let wkst = rule.week_start().number();
    match rule.freq() {
        Frequency::Yearly => {
            proof {
                if 0 <= u {
                    lemma_year_start_monotonic(0, u as int);
                    lemma_year_start_monotonic(0, u as int + 1);
                }
                if 1 <= u {
                    lemma_year_start_monotonic(1, u as int);
                    lemma_year_start_monotonic(2, u as int + 1);
                }
                if 0 <= u <= 9999 {
                    lemma_year_start_monotonic(u as int, 10000);
                }
                if 10000 <= u {
                    lemma_year_start_monotonic(10000, u as int);
                }
                lemma_year_range(u as int);
            }
            1 <= u && u <= 9999
        },
        Frequency::Monthly => {
            proof {
                lemma_month_range(u as int);
            }
            12 <= u && u <= 119999
        },
        Frequency::Weekly => -102738 <= u && u <= 418985 && 7 * u + wkst + 4 > -719162 && 7 * u + wkst - 3 < 2932897,
        Frequency::Daily => -719162 <= u && u < 2932897,
        Frequency::Hourly => -17259888 <= u && u < 70389528,
        Frequency::Minutely => -1035593280 <= u && u < 4223371680,
        Frequency::Secondly => CIVIL_MIN <= u && u < CIVIL_END,
    }
}

/// The years whose first second lies in the years 1 to 9999 are those years.
pub proof fn lemma_year_range(u: int)
    ensures
        unit_in_range(Frequency::Yearly, 0, u) <==> 1 <= u <= 9999,
{
    assert(year_start(1) * 86400 == CIVIL_MIN);
    assert(year_start(10000) * 86400 == CIVIL_END);
    if 1 <= u <= 9999 {
        lemma_year_start_monotonic(1, u);
        lemma_year_start_monotonic(2, u + 1);
        lemma_year_start_monotonic(u, 10000);
        if u < 9999 {
            lemma_year_start_monotonic(u + 1, 10000);
        }
        lemma_year_step(u);
    } else if u >= 10000 {
        lemma_year_start_monotonic(10000, u);
    } else if 0 <= u {
        assert(u == 0);
    } else {
        assert(u + 1 <= 0);
        lemma_year_before_calendar(u + 1);
    }
}

/// The years before year 1 begin before it.
proof fn lemma_year_before_calendar(y: int)
    requires
        y <= 0,
    ensures
        year_start(y) < year_start(1),
    decreases -y,
{
    if y < 0 {
        lemma_year_before_calendar(y + 1);
        assert(year_start(y) < year_start(y + 1));
    }
}

/// The months with a part in the years 1 to 9999 are the months of those
/// years.
pub proof fn lemma_month_range(u: int)
    ensures
        unit_in_range(Frequency::Monthly, 0, u) <==> 12 <= u <= 119999,
{
    let y = u / 12;
    let m = u % 12 + 1;
    let y2 = (u + 1) / 12;
    let m2 = (u + 1) % 12 + 1;
    assert(year_start(1) * 86400 == CIVIL_MIN);
    assert(year_start(10000) * 86400 == CIVIL_END);
    if 12 <= u <= 119999 {
        lemma_date_within_year(y, m, 1);
        lemma_year_start_monotonic(1, y);
        lemma_year_start_monotonic(y + 1, 10000);
        if m2 == 1 {
            assert(y2 == y + 1);
            lemma_year_start_monotonic(2, y2);
        } else {
            assert(y2 == y);
            lemma_date_within_year(y2, m2, 1);
        }
    } else if u >= 120000 {
        lemma_year_start_monotonic(10000, y);
    } else if 0 <= u {
        assert(y == 0);
        if m2 == 1 {
            assert(y2 == 1);
        } else {
            assert(y2 == 0);
        }
    } else {
        assert(y2 <= 0);
        lemma_year_before_calendar(y2);
        lemma_year_before_calendar(0);
        if y2 < 0 {
            lemma_year_before_calendar(y2 + 1);
            assert(year_start(y2 + 1) - year_start(y2) >= 365);
        }
    }
}

/// The candidates of a yearly rule in the year `u`.
fn expand_year(rule: &RuleValue, u: i64) -> (out: Vec<i64>)
    requires
        rule@.freq == Frequency::Yearly,
        1 <= u <= 9999,
    ensures
        ints(out@) == unit_candidates(rule@, u as int),
{
    let mut out: Vec<i64> = Vec::new();
    proof {
        use_type_invariant(rule);
    }
    assert(ints(out@) =~= Seq::<int>::empty());
    proof {
        lemma_year_start_monotonic(1, u as int);
        lemma_year_start_monotonic(u as int + 1, 10000);
        lemma_year_step(u as int);
    }
    push_days(rule, first_day_of_year(u), first_day_of_year(u + 1), &mut out);
    out
}

/// The candidates of a monthly rule in the month `u`.
fn expand_month(rule: &RuleValue, u: i64) -> (out: Vec<i64>)
    requires
        rule@.freq == Frequency::Monthly,
        12 <= u <= 119999,
    ensures
        ints(out@) == unit_candidates(rule@, u as int),
{
    let mut out: Vec<i64> = Vec::new();
    proof {
        use_type_invariant(rule);
    }
    assert(ints(out@) =~= Seq::<int>::empty());
    let y = u / 12;
    let m = u % 12 + 1;
    proof {
        rule_names_no_weeks(rule);
        lemma_date_within_year(y as int, m as int, 1);
    }
    let first = first_day_of_month(y, m);
    push_days(rule, first, first + days_in_month(y, m), &mut out);
    out
}

/// The candidates of a weekly or daily rule in its unit `u`: the days `from`
/// to `to - 1`.
fn expand_days(rule: &RuleValue, u: i64, from: i64, to: i64) -> (out: Vec<i64>)
    requires
        rule@.freq == Frequency::Weekly || rule@.freq == Frequency::Daily,
        from <= to,
        in_calendar(from as int),
        -719528 <= to <= 2933263,
        unit_candidates(rule@, u as int) == day_list(rule@, from as int, to as int),
    ensures
        ints(out@) == unit_candidates(rule@, u as int),
{
    let mut out: Vec<i64> = Vec::new();
    proof {
        use_type_invariant(rule);
    }
    assert(ints(out@) =~= Seq::<int>::empty());
    proof {
        rule_names_no_weeks(rule);
    }
    push_days(rule, from, to, &mut out);
    out
}

/// The candidates of an hourly rule in the hour `u`.
fn expand_hour(rule: &RuleValue, u: i64) -> (out: Vec<i64>)
    requires
        rule@.freq == Frequency::Hourly,
        -17259888 <= u < 70389528,
    ensures
        ints(out@) == unit_candidates(rule@, u as int),
{
    let mut out: Vec<i64> = Vec::new();
    proof {
        use_type_invariant(rule);
    }
    assert(ints(out@) =~= Seq::<int>::empty());
    proof {
        rule_names_no_weeks(rule);
    }
    let t = u * 3600;
    let day = day_of_seconds(t);
    if rule.admits_day(day) {
        let h = second_of_day(t) / 3600;
        push_hours(rule, day * 86400, h, h + 1, &mut out);
    }
    out
}

/// The candidates of a minutely rule in the minute `u`.
fn expand_minute(rule: &RuleValue, u: i64) -> (out: Vec<i64>)
    requires
        rule@.freq == Frequency::Minutely,
        -1035593280 <= u < 4223371680,
    ensures
        ints(out@) == unit_candidates(rule@, u as int),
{
    let mut out: Vec<i64> = Vec::new();
    proof {
        use_type_invariant(rule);
    }
    assert(ints(out@) =~= Seq::<int>::empty());
    let t = u * 60;
    let day = day_of_seconds(t);
    let sod = second_of_day(t);
    proof {
        rule_names_no_weeks(rule);
        lemma_civil_seconds_whole(t as int);
    }
    if rule.admits_day(day) && rule.admits_hour(sod / 3600) {
        let m = (sod % 3600) / 60;
        assert(m == minute_of(t as int));
        push_minutes(rule, t - m * 60, m, m + 1, &mut out);
    }
    out
}

/// The candidates of a secondly rule in the second `u`.
fn expand_second(rule: &RuleValue, u: i64) -> (out: Vec<i64>)
    requires
        rule@.freq == Frequency::Secondly,
        CIVIL_MIN <= u < CIVIL_END,
    ensures
        ints(out@) == unit_candidates(rule@, u as int),
{
    let mut out: Vec<i64> = Vec::new();
    proof {
        use_type_invariant(rule);
    }
    assert(ints(out@) =~= Seq::<int>::empty());
    let day = day_of_seconds(u);
    let sod = second_of_day(u);
    proof {
        rule_names_no_weeks(rule);
        lemma_civil_seconds_whole(u as int);
    }
    if rule.admits_day(day) && rule.admits_hour(sod / 3600) && rule.admits_minute((sod % 3600) / 60) {
        let s = sod % 60;
        assert(s == second_of(u as int));
        assert((sod % 3600) / 60 == minute_of(u as int));
        push_seconds(rule, u - s, s, s + 1, &mut out);
    }
    out
}

/// The candidates of the rule in the unit `u` of its frequency: the civil
/// seconds of the unit that the rule admits, each once, in ascending order.
pub fn expand_unit(rule: &RuleValue, u: i64) -> (out: Vec<i64>)
    requires
        unit_in_range(rule@.freq, rule@.week_start, u as int),
    ensures
        ints(out@) == unit_candidates(rule@, u as int),
        ascending(ints(out@)),
        forall|t: int|
            #![trigger ints(out@).contains(t)]
            ints(out@).contains(t) <==> (in_unit(rule@.freq, rule@.week_start, u as int, t) && is_candidate(rule@, t)),
{
    let wkst = rule.week_start().number();
    proof {
        use_type_invariant(rule);
        lemma_unit_span(rule@.freq, rule@.week_start, u as int);
        lemma_unit_candidates(rule@, u as int);
    }
    match rule.freq() {
        Frequency::Yearly => expand_year(rule, u),
        Frequency::Monthly => expand_month(rule, u),
        Frequency::Weekly => expand_days(rule, u, 7 * u + wkst - 3, 7 * u + wkst + 4),
        Frequency::Daily => expand_days(rule, u, u, u + 1),
        Frequency::Hourly => expand_hour(rule, u),
        Frequency::Minutely => expand_minute(rule, u),
        Frequency::Secondly => expand_second(rule, u),
    }
}

/// Of the candidates of a period, those that the positions choose, in the
/// order of the candidates: the entry at position `k` for a position `k`
/// from 1 on, the entry `-k` places from the end for a negative one. A
/// position beyond either end chooses nothing; no positions choose all.
pub fn choose_by_position(cands: Vec<i64>, positions: &Vec<i64>) -> (out: Vec<i64>)
    ensures
        ints(out@) == choose_positions(ints(cands@), ints(positions@)),
{
    if positions.len() == 0 {
        return cands;
    }
    let mut out: Vec<i64> = Vec::new();
    let len = cands.len();
    let mut i: usize = 0;
    assert(ints(out@) =~= chosen_upto(ints(cands@), ints(positions@), 0));
    while i < len
        invariant
            i <= len,
            len == cands.len(),
            ints(out@) == chosen_upto(ints(cands@), ints(positions@), i as int),
        decreases len - i,
    {
        let ghost prev = ints(out@);
        if position_is_chosen(positions, len, i) {
            out.push(cands[i]);
            assert(ints(out@) =~= prev.push(ints(cands@)[i as int]));
        }
        i += 1;
    }
    out
}

/// Whether the positions choose the entry at index `i` of `len` entries.
fn position_is_chosen(positions: &Vec<i64>, len: usize, i: usize) -> (b: bool)
    requires
        i < len,
    ensures
        b == position_chosen(ints(positions@), len as int, i as int),
{
    let mut k: usize = 0;
    while k < positions.len()
        invariant
            k <= positions.len(),
            i < len,
            forall|j: int| 0 <= j < k ==> ints(positions@)[j] != i + 1 && ints(positions@)[j] != i - len,
        decreases positions.len() - k,
    {
        let p: i128 = positions[k] as i128;
        if p == i as i128 + 1 || p == i as i128 - len as i128 {
            assert(ints(positions@)[k as int] == p);
            return true;
        }
        k += 1;
    }
    false
}

/// The entries of `list` that are not less than `floor`.
pub fn keep_from(list: Vec<i64>, floor: i64) -> (out: Vec<i64>)
    ensures
        ints(out@) == kept_upto(ints(list@), floor as int, list@.len() as int),
        forall|i: int| 0 <= i < out@.len() ==> #[trigger] out@[i] >= floor,
{
    let mut out: Vec<i64> = Vec::new();
    let mut i: usize = 0;
    assert(ints(out@) =~= kept_upto(ints(list@), floor as int, 0));
    while i < list.len()
        invariant
            i <= list.len(),
            ints(out@) == kept_upto(ints(list@), floor as int, i as int),
            forall|j: int| 0 <= j < out@.len() ==> #[trigger] out@[j] >= floor,
        decreases list.len() - i,
    {
        let ghost prev = ints(out@);
        if list[i] >= floor {
            out.push(list[i]);
            assert(ints(out@) =~= prev.push(ints(list@)[i as int]));
        }
        i += 1;
    }
    out
}

/// What the unit `u` contributes to the rule: of its candidates those that
/// the positions choose, without those before the start. Where the rule has
/// no positions these are the candidates of the unit from the start on.
pub fn yield_of_unit(rule: &RuleValue, u: i64) -> (out: Vec<i64>)
    requires
        unit_in_range(rule@.freq, rule@.week_start, u as int),
    ensures
        ints(out@) == unit_yield(rule@, u as int),
        forall|i: int| 0 <= i < out@.len() ==> #[trigger] out@[i] >= rule@.start.civil,
        ascending(ints(out@)),
        forall|t: int|
            #![trigger ints(out@).contains(t)]
            ints(out@).contains(t) ==> in_unit(rule@.freq, rule@.week_start, u as int, t) && is_candidate(rule@, t)
                && t >= rule@.start.civil,
        rule@.by_set_pos.len() == 0 ==> forall|t: int|
            #![trigger ints(out@).contains(t)]
            in_unit(rule@.freq, rule@.week_start, u as int, t) && is_candidate(rule@, t) && t >= rule@.start.civil
                ==> ints(out@).contains(t),
{
    proof {
        use_type_invariant(rule);
        lemma_unit_span(rule@.freq, rule@.week_start, u as int);
        lemma_unit_yield(rule@, u as int);
    }
    let cands = expand_unit(rule, u);
    let chosen = choose_by_position(cands, rule.by_set_pos());
    keep_from(chosen, rule.start().civil_second())
}

/// The unit of the rule's frequency that holds its start.
pub fn start_unit(rule: &RuleValue) -> (u: i64)
    ensures
        u == unit_of(rule@.freq, rule@.week_start, rule@.start.civil),
        CIVIL_MIN <= u < CIVIL_END,
{
    let start = rule.start();
    let t = start.civil_second();
    let wkst = rule.week_start().number();
    match rule.freq() {
        Frequency::Yearly => start.year(),
        Frequency::Monthly => start.year() * 12 + start.month() - 1,
        Frequency::Weekly => (day_of_seconds(t) + 3 - wkst + 719530) / 7 - 102790,
        Frequency::Daily => day_of_seconds(t),
        Frequency::Hourly => (t + 62167219200) / 3600 - 17268672,
        Frequency::Minutely => (t + 62167219200) / 60 - 1036120320,
        Frequency::Secondly => t,
    }
}

/// The first civil second of the unit `u` of the rule's frequency: where
/// the period begins.
pub fn first_second_of_unit(rule: &RuleValue, u: i64) -> (t: i64)
    requires
        unit_in_range(rule@.freq, rule@.week_start, u as int),
    ensures
        t == unit_start(rule@.freq, rule@.week_start, u as int),
{
    let wkst = rule.week_start().number();
    proof {
        use_type_invariant(rule);
        lemma_unit_span(rule@.freq, rule@.week_start, u as int);
    }
    match rule.freq() {
        Frequency::Yearly => first_day_of_year(u) * 86400,
        Frequency::Monthly => first_day_of_month(u / 12, u % 12 + 1) * 86400,
        Frequency::Weekly => (7 * u + wkst - 3) * 86400,
        Frequency::Daily => u * 86400,
        Frequency::Hourly => u * 3600,
        Frequency::Minutely => u * 60,
        Frequency::Secondly => u,
    }
}

} // verus!
