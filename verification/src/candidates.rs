//! What the candidates of a period are: exactly the civil seconds of the
//! period that the rule admits, in ascending order.

use vstd::prelude::*;
use crate::calendar::{
    day_of, hour_of, lemma_civil_seconds_parts, lemma_civil_seconds_whole, lemma_date_exists, lemma_date_within_year,
    lemma_year_of, lemma_year_step, minute_of, month_len, month_start, second_of, year_start,
};
use crate::model::{
    ascending, choose_positions, chosen_upto, day_list, day_ok, hour_list, hour_ok, is_candidate, kept_upto,
    minute_list, minute_ok, position_chosen, second_list, second_ok, unit_candidates, unit_of, unit_start, unit_yield,
    Frequency, RuleModel,
};

verus! {

/// Whether `s` ascends strictly and lies between `lo` and `hi - 1`.
pub open spec fn bounded_ascending(s: Seq<int>, lo: int, hi: int) -> bool {
    ascending(s) && forall|i: int| 0 <= i < s.len() ==> lo <= #[trigger] s[i] < hi
}

/// Two ascending lists, the first below the second, join to one.
pub proof fn lemma_join(a: Seq<int>, b: Seq<int>, lo: int, mid: int, hi: int)
    requires
        bounded_ascending(a, lo, mid),
        bounded_ascending(b, mid, hi),
        lo <= mid <= hi,
    ensures
        bounded_ascending(a + b, lo, hi),
        forall|t: int| (a + b).contains(t) <==> a.contains(t) || b.contains(t),
{
    let c = a + b;
    assert forall|i: int, j: int| 0 <= i < j < c.len() implies c[i] < c[j] by {
        if j < a.len() {
            assert(c[i] == a[i] && c[j] == a[j]);
        } else if i < a.len() {
            assert(c[i] == a[i] && c[j] == b[j - a.len()]);
        } else {
            assert(c[i] == b[i - a.len()] && c[j] == b[j - a.len()]);
        }
    }
    assert forall|i: int| 0 <= i < c.len() implies lo <= #[trigger] c[i] < hi by {
        if i < a.len() {
            assert(c[i] == a[i]);
        } else {
            assert(c[i] == b[i - a.len()]);
        }
    }
    assert forall|t: int| c.contains(t) <==> a.contains(t) || b.contains(t) by {
        if c.contains(t) {
            let i = choose|i: int| 0 <= i < c.len() && c[i] == t;
            if i < a.len() {
                assert(a[i] == t);
            } else {
                assert(b[i - a.len()] == t);
            }
        }
        if a.contains(t) {
            let i = choose|i: int| 0 <= i < a.len() && a[i] == t;
            assert(c[i] == t);
        }
        if b.contains(t) {
            let i = choose|i: int| 0 <= i < b.len() && b[i] == t;
            assert(c[i + a.len()] == t);
        }
    }
}

/// The list of the seconds of a minute holds the admitted seconds, each
/// once, in ascending order.
pub proof fn lemma_second_list(r: RuleModel, base: int, from: int, to: int)
    requires
        from <= to,
    ensures
        bounded_ascending(second_list(r, base, from, to), base + from, base + to),
        forall|t: int|
            second_list(r, base, from, to).contains(t) <==> (base + from <= t < base + to && second_ok(r, t - base)),
    decreases to - from,
{
    let list = second_list(r, base, from, to);
    if from < to {
        lemma_second_list(r, base, from, to - 1);
        let head = second_list(r, base, from, to - 1);
        if second_ok(r, to - 1) {
            let one = seq![base + to - 1];
            assert(list =~= head + one);
            assert(bounded_ascending(one, base + to - 1, base + to));
            lemma_join(head, one, base + from, base + to - 1, base + to);
            assert forall|t: int| list.contains(t) <==> (base + from <= t < base + to && second_ok(r, t - base)) by {
                assert(list.contains(t) <==> head.contains(t) || one.contains(t));
                assert(head.contains(t) <==> (base + from <= t < base + to - 1 && second_ok(r, t - base)));
                if t == base + to - 1 {
                    assert(one[0] == t);
                }
            }
        }
    }
}

/// The list of the minutes of an hour holds the admitted seconds of the
/// admitted minutes.
pub proof fn lemma_minute_list(r: RuleModel, base: int, from: int, to: int)
    requires
        from <= to,
    ensures
        bounded_ascending(minute_list(r, base, from, to), base + from * 60, base + to * 60),
        forall|t: int|
            minute_list(r, base, from, to).contains(t) <==> (base + from * 60 <= t < base + to * 60 && minute_ok(
                r,
                (t - base) / 60,
            ) && second_ok(r, (t - base) % 60)),
    decreases to - from,
{
    let list = minute_list(r, base, from, to);
    if from < to {
        lemma_minute_list(r, base, from, to - 1);
        let head = minute_list(r, base, from, to - 1);
        let inner = base + (to - 1) * 60;
        if minute_ok(r, to - 1) {
            let tail = second_list(r, inner, 0, 60);
            lemma_second_list(r, inner, 0, 60);
            lemma_join(head, tail, base + from * 60, inner, base + to * 60);
        }
        assert forall|t: int|
            list.contains(t) <==> (base + from * 60 <= t < base + to * 60 && minute_ok(r, (t - base) / 60)
                && second_ok(r, (t - base) % 60)) by {
            assert(head.contains(t) <==> (base + from * 60 <= t < inner && minute_ok(r, (t - base) / 60) && second_ok(
                r,
                (t - base) % 60,
            )));
            if minute_ok(r, to - 1) {
                let tail = second_list(r, inner, 0, 60);
                assert(list.contains(t) <==> head.contains(t) || tail.contains(t));
                assert(tail.contains(t) <==> (inner + 0 <= t < inner + 60 && second_ok(r, t - inner)));
            } else {
                assert(list == head);
            }
            if inner <= t < inner + 60 {
                assert((t - base) / 60 == to - 1);
                assert((t - base) % 60 == t - inner);
            }
        }
    }
}

/// The list of the hours of a day holds the admitted seconds of the
/// admitted minutes of the admitted hours.
pub proof fn lemma_hour_list(r: RuleModel, base: int, from: int, to: int)
    requires
        from <= to,
    ensures
        bounded_ascending(hour_list(r, base, from, to), base + from * 3600, base + to * 3600),
        forall|t: int|
            hour_list(r, base, from, to).contains(t) <==> (base + from * 3600 <= t < base + to * 3600 && hour_ok(
                r,
                (t - base) / 3600,
            ) && minute_ok(r, ((t - base) % 3600) / 60) && second_ok(r, (t - base) % 60)),
    decreases to - from,
{
    let list = hour_list(r, base, from, to);
    if from < to {
        lemma_hour_list(r, base, from, to - 1);
        let head = hour_list(r, base, from, to - 1);
        let inner = base + (to - 1) * 3600;
        if hour_ok(r, to - 1) {
            let tail = minute_list(r, inner, 0, 60);
            lemma_minute_list(r, inner, 0, 60);
            lemma_join(head, tail, base + from * 3600, inner, base + to * 3600);
        }
        assert forall|t: int|
            list.contains(t) <==> (base + from * 3600 <= t < base + to * 3600 && hour_ok(r, (t - base) / 3600)
                && minute_ok(r, ((t - base) % 3600) / 60) && second_ok(r, (t - base) % 60)) by {
            assert(head.contains(t) <==> (base + from * 3600 <= t < inner && hour_ok(r, (t - base) / 3600)
                && minute_ok(r, ((t - base) % 3600) / 60) && second_ok(r, (t - base) % 60)));
            if hour_ok(r, to - 1) {
                let tail = minute_list(r, inner, 0, 60);
                assert(list.contains(t) <==> head.contains(t) || tail.contains(t));
                assert(tail.contains(t) <==> (inner + 0 * 60 <= t < inner + 60 * 60 && minute_ok(r, (t - inner) / 60)
                    && second_ok(r, (t - inner) % 60)));
            } else {
                assert(list == head);
            }
            if inner <= t < inner + 3600 {
                lemma_within_hour(t - base, to - 1);
                assert(t - inner == (t - base) % 3600);
            }
        }
    }
}

/// The parts of a number within the hour `h`.
proof fn lemma_within_hour(x: int, h: int)
    requires
        h * 3600 <= x < h * 3600 + 3600,
    ensures
        x / 3600 == h,
        x % 3600 == x - h * 3600,
        (x % 3600) % 60 == x % 60,
{
    let q = x - h * 3600;
    vstd::arithmetic::div_mod::lemma_fundamental_div_mod_converse(x, 3600, h, q);
    vstd::arithmetic::div_mod::lemma_fundamental_div_mod(q, 60);
    vstd::arithmetic::div_mod::lemma_fundamental_div_mod_converse(x, 60, h * 60 + q / 60, q % 60);
}

/// The list of days holds the candidates of those days.
pub proof fn lemma_day_list(r: RuleModel, from: int, to: int)
    requires
        from <= to,
    ensures
        bounded_ascending(day_list(r, from, to), from * 86400, to * 86400),
        forall|t: int| day_list(r, from, to).contains(t) <==> (from * 86400 <= t < to * 86400 && is_candidate(r, t)),
    decreases to - from,
{
    let list = day_list(r, from, to);
    if from < to {
        lemma_day_list(r, from, to - 1);
        let head = day_list(r, from, to - 1);
        let inner = (to - 1) * 86400;
        if day_ok(r, to - 1) {
            let tail = hour_list(r, inner, 0, 24);
            lemma_hour_list(r, inner, 0, 24);
            lemma_join(head, tail, from * 86400, inner, to * 86400);
        }
        assert forall|t: int| list.contains(t) <==> (from * 86400 <= t < to * 86400 && is_candidate(r, t)) by {
            assert(head.contains(t) <==> (from * 86400 <= t < inner && is_candidate(r, t)));
            if day_ok(r, to - 1) {
                let tail = hour_list(r, inner, 0, 24);
                assert(list.contains(t) <==> head.contains(t) || tail.contains(t));
                assert(tail.contains(t) <==> (inner + 0 * 3600 <= t < inner + 24 * 3600 && hour_ok(
                    r,
                    (t - inner) / 3600,
                ) && minute_ok(r, ((t - inner) % 3600) / 60) && second_ok(r, (t - inner) % 60)));
            } else {
                assert(list == head);
            }
            if inner <= t < inner + 86400 {
                lemma_within_day(t, to - 1);
            }
        }
    }
}

/// The parts of a civil second within the day `d`.
proof fn lemma_within_day(t: int, d: int)
    requires
        d * 86400 <= t < d * 86400 + 86400,
    ensures
        day_of(t) == d,
        hour_of(t) == (t - d * 86400) / 3600,
        minute_of(t) == ((t - d * 86400) % 3600) / 60,
        second_of(t) == (t - d * 86400) % 60,
{
    let x = t - d * 86400;
    vstd::arithmetic::div_mod::lemma_fundamental_div_mod_converse(t, 86400, d, x);
    lemma_civil_seconds_whole(t);
    lemma_civil_seconds_whole(x);
    assert(day_of(x) == 0);
    lemma_civil_seconds_parts(d, hour_of(x), minute_of(x), second_of(x));
}

/// A month ends where the next begins.
pub proof fn lemma_month_end(u: int)
    requires
        0 <= u,
    ensures
        unit_start(Frequency::Monthly, 0, u + 1) == (month_start(u / 12, u % 12 + 1) + month_len(
            u / 12,
            u % 12 + 1,
        )) * 86400,
        month_len(u / 12, u % 12 + 1) >= 28,
{
    let y = u / 12;
    let m = u % 12 + 1;
    if m == 12 {
        assert((u + 1) / 12 == y + 1 && (u + 1) % 12 == 0);
        lemma_year_step(y);
    } else {
        assert((u + 1) / 12 == y && (u + 1) % 12 + 1 == m + 1);
    }
}

/// Whether a civil second lies in the unit `u`: from the first second of
/// the unit to the last before the next.
pub open spec fn in_unit(f: Frequency, wkst: int, u: int, t: int) -> bool {
    unit_start(f, wkst, u) <= t < unit_start(f, wkst, u + 1)
}

/// The unit of a civil second is the unit within which it lies.
pub proof fn lemma_unit_of(f: Frequency, wkst: int, u: int, t: int)
    requires
        0 <= wkst <= 6,
        -719528 * 86400 <= t < 2933263 * 86400,
        -719528 * 86400 <= unit_start(f, wkst, u),
        unit_start(f, wkst, u + 1) <= 2933263 * 86400,
        f == Frequency::Yearly ==> 0 <= u <= 10000,
        f == Frequency::Monthly ==> 0 <= u <= 120011,
    ensures
        unit_of(f, wkst, t) == u <==> in_unit(f, wkst, u, t),
{
    let day = day_of(t);
    match f {
        Frequency::Yearly => {
            lemma_year_of(u, day);
        },
        Frequency::Monthly => {
            let y = u / 12;
            let m = u % 12 + 1;
            lemma_month_end(u);
            lemma_year_of(y, day);
            lemma_date_within_year(y, m, 1);
            lemma_date_within_year(y, m, month_len(y, m));
            if year_start(y) <= day < year_start(y + 1) {
                lemma_date_exists(y, day);
                if month_start(y, m) <= day < month_start(y, m) + month_len(y, m) {
                    let c = crate::calendar::CivilDate {
                        year: y as i64,
                        month: m as i64,
                        day: (day - month_start(y, m) + 1) as i64,
                    };
                    assert(c.valid());
                    assert(c.number() == day);
                    crate::calendar::lemma_civil_of(c);
                }
            } else {
                crate::calendar::lemma_day_in_some_year(day, 0, 10001);
                let z = choose|z: int| 0 <= z < 10001 && #[trigger] year_start(z) <= day && day < year_start(z + 1);
                lemma_date_exists(z, day);
            }
        },
        _ => {},
    }
}

/// The candidates of a unit are exactly the civil seconds of the unit that
/// the rule admits, in ascending order.
pub proof fn lemma_unit_candidates(r: RuleModel, u: int)
    requires
        0 <= r.week_start <= 6,
        r.freq == Frequency::Yearly ==> 0 <= u <= 10000,
        r.freq == Frequency::Monthly ==> 0 <= u <= 120011,
    ensures
        ascending(unit_candidates(r, u)),
        forall|t: int|
            #![trigger unit_candidates(r, u).contains(t)]
            #![trigger is_candidate(r, t)]
            unit_candidates(r, u).contains(t) <==> (in_unit(r.freq, r.week_start, u, t) && is_candidate(r, t)),
{
    let list = unit_candidates(r, u);
    match r.freq {
        Frequency::Yearly => {
            lemma_year_step(u);
            lemma_day_list(r, year_start(u), year_start(u + 1));
        },
        Frequency::Monthly => {
            lemma_month_end(u);
            let first = month_start(u / 12, u % 12 + 1);
            lemma_day_list(r, first, first + month_len(u / 12, u % 12 + 1));
        },
        Frequency::Weekly => {
            lemma_day_list(r, 7 * u + r.week_start - 3, 7 * u + r.week_start + 4);
        },
        Frequency::Daily => {
            lemma_day_list(r, u, u + 1);
        },
        Frequency::Hourly => {
            let first = u * 3600;
            let day = day_of(first);
            let h = hour_of(first);
            lemma_civil_seconds_whole(first);
            lemma_within_hour(first, u);
            assert(first == day * 86400 + h * 3600);
            if day_ok(r, day) {
                lemma_hour_list(r, day * 86400, h, h + 1);
            }
            assert forall|t: int| list.contains(t) <==> (in_unit(r.freq, r.week_start, u, t) && is_candidate(r, t)) by {
                if first <= t < first + 3600 {
                    lemma_within_day(t, day);
                    lemma_within_hour(t - day * 86400, h);
                }
            }
        },
        Frequency::Minutely => {
            let first = u * 60;
            let day = day_of(first);
            let h = hour_of(first);
            let m = minute_of(first);
            let base = first - m * 60;
            lemma_civil_seconds_whole(first);
            assert(second_of(first) == 0);
            assert(base == day * 86400 + h * 3600);
            if day_ok(r, day) && hour_ok(r, h) {
                lemma_minute_list(r, base, m, m + 1);
            }
            assert forall|t: int| list.contains(t) <==> (in_unit(r.freq, r.week_start, u, t) && is_candidate(r, t)) by {
                if first <= t < first + 60 {
                    lemma_within_day(t, day);
                    lemma_within_hour(t - day * 86400, h);
                    assert((t - base) / 60 == m);
                    assert((t - base) % 60 == (t - day * 86400) % 60);
                    assert(((t - day * 86400) % 3600) / 60 == m);
                }
            }
        },
        Frequency::Secondly => {
            let s = second_of(u);
            lemma_second_list(r, u - s, s, s + 1);
        },
    }
}

/// What the positions choose of an ascending list ascends, and holds
/// exactly the entries at the chosen indices.
pub proof fn lemma_chosen(c: Seq<int>, pos: Seq<int>, n: int)
    requires
        ascending(c),
        0 <= n <= c.len(),
    ensures
        ascending(chosen_upto(c, pos, n)),
        forall|t: int|
            chosen_upto(c, pos, n).contains(t) <==> exists|i: int|
                0 <= i < n && position_chosen(pos, c.len() as int, i) && #[trigger] c[i] == t,
    decreases n,
{
    let list = chosen_upto(c, pos, n);
    if n > 0 {
        lemma_chosen(c, pos, n - 1);
        let head = chosen_upto(c, pos, n - 1);
        if position_chosen(pos, c.len() as int, n - 1) {
            assert forall|i: int, j: int| 0 <= i < j < list.len() implies list[i] < list[j] by {
                if j == head.len() {
                    assert(head.contains(head[i]));
                    let k = choose|k: int|
                        0 <= k < n - 1 && position_chosen(pos, c.len() as int, k) && #[trigger] c[k] == head[i];
                    assert(c[k] < c[n - 1]);
                }
            }
            assert forall|t: int|
                list.contains(t) <==> exists|i: int|
                    0 <= i < n && position_chosen(pos, c.len() as int, i) && #[trigger] c[i] == t by {
                if list.contains(t) {
                    let j = choose|j: int| 0 <= j < list.len() && list[j] == t;
                    if j < head.len() {
                        assert(head[j] == t);
                        assert(head.contains(t));
                    } else {
                        assert(c[n - 1] == t);
                    }
                }
                if exists|i: int| 0 <= i < n && position_chosen(pos, c.len() as int, i) && #[trigger] c[i] == t {
                    let i = choose|i: int|
                        0 <= i < n && position_chosen(pos, c.len() as int, i) && #[trigger] c[i] == t;
                    if i < n - 1 {
                        assert(head.contains(t));
                        let j = choose|j: int| 0 <= j < head.len() && head[j] == t;
                        assert(list[j] == t);
                    } else {
                        assert(list[head.len() as int] == t);
                    }
                }
            }
        }
    }
}

/// What is kept of an ascending list ascends, and holds exactly the
/// entries that are not less than the floor.
pub proof fn lemma_kept(s: Seq<int>, floor: int, n: int)
    requires
        ascending(s),
        0 <= n <= s.len(),
    ensures
        ascending(kept_upto(s, floor, n)),
        forall|t: int|
            kept_upto(s, floor, n).contains(t) <==> (t >= floor && exists|i: int| 0 <= i < n && #[trigger] s[i] == t),
    decreases n,
{
    let list = kept_upto(s, floor, n);
    if n > 0 {
        lemma_kept(s, floor, n - 1);
        let head = kept_upto(s, floor, n - 1);
        if s[n - 1] >= floor {
            assert forall|i: int, j: int| 0 <= i < j < list.len() implies list[i] < list[j] by {
                if j == head.len() {
                    assert(head.contains(head[i]));
                    let k = choose|k: int| 0 <= k < n - 1 && #[trigger] s[k] == head[i];
                    assert(s[k] < s[n - 1]);
                }
            }
            assert forall|t: int|
                list.contains(t) <==> (t >= floor && exists|i: int| 0 <= i < n && #[trigger] s[i] == t) by {
                if list.contains(t) {
                    let j = choose|j: int| 0 <= j < list.len() && list[j] == t;
                    if j < head.len() {
                        assert(head[j] == t);
                        assert(head.contains(t));
                    } else {
                        assert(s[n - 1] == t);
                    }
                }
                if t >= floor && exists|i: int| 0 <= i < n && #[trigger] s[i] == t {
                    let i = choose|i: int| 0 <= i < n && #[trigger] s[i] == t;
                    if i < n - 1 {
                        assert(head.contains(t));
                        let j = choose|j: int| 0 <= j < head.len() && head[j] == t;
                        assert(list[j] == t);
                    } else {
                        assert(list[head.len() as int] == t);
                    }
                }
            }
        } else {
            assert forall|t: int|
                list.contains(t) <==> (t >= floor && exists|i: int| 0 <= i < n && #[trigger] s[i] == t) by {
                if t >= floor && exists|i: int| 0 <= i < n && #[trigger] s[i] == t {
                    let i = choose|i: int| 0 <= i < n && #[trigger] s[i] == t;
                    assert(i < n - 1);
                }
            }
        }
    }
}

/// What a unit yields: ascending civil seconds of the unit, not before the
/// start, each a candidate of the rule; and every such candidate where the
/// rule has no positions.
pub proof fn lemma_unit_yield(r: RuleModel, u: int)
    requires
        0 <= r.week_start <= 6,
        r.freq == Frequency::Yearly ==> 0 <= u <= 10000,
        r.freq == Frequency::Monthly ==> 0 <= u <= 120011,
    ensures
        ascending(unit_yield(r, u)),
        forall|t: int|
            #![trigger unit_yield(r, u).contains(t)]
            unit_yield(r, u).contains(t) ==> in_unit(r.freq, r.week_start, u, t) && is_candidate(r, t) && t
                >= r.start.civil,
        r.by_set_pos.len() == 0 ==> forall|t: int|
            #![trigger unit_yield(r, u).contains(t)]
            in_unit(r.freq, r.week_start, u, t) && is_candidate(r, t) && t >= r.start.civil ==> unit_yield(
                r,
                u,
            ).contains(t),
{
    let c = unit_candidates(r, u);
    lemma_unit_candidates(r, u);
    let chosen = choose_positions(c, r.by_set_pos);
    if r.by_set_pos.len() > 0 {
        lemma_chosen(c, r.by_set_pos, c.len() as int);
    }
    assert forall|t: int| chosen.contains(t) implies c.contains(t) by {
        if r.by_set_pos.len() > 0 {
            let i = choose|i: int|
                0 <= i < c.len() && position_chosen(r.by_set_pos, c.len() as int, i) && #[trigger] c[i] == t;
            assert(c[i] == t);
        }
    }
    lemma_kept(chosen, r.start.civil, chosen.len() as int);
    assert forall|t: int| #![trigger unit_yield(r, u).contains(t)] unit_yield(r, u).contains(t) implies in_unit(
        r.freq,
        r.week_start,
        u,
        t,
    ) && is_candidate(r, t) && t >= r.start.civil by {
        let kept = kept_upto(chosen, r.start.civil, chosen.len() as int);
        assert(kept == unit_yield(r, u));
        assert(kept.contains(t));
        assert(t >= r.start.civil);
        let i = choose|i: int| 0 <= i < chosen.len() && #[trigger] chosen[i] == t;
        assert(chosen[i] == t);
        assert(chosen.contains(t));
        assert(c.contains(t));
        assert(in_unit(r.freq, r.week_start, u, t));
        assert(is_candidate(r, t));
    }
    if r.by_set_pos.len() == 0 {
        assert forall|t: int|
            #![trigger unit_yield(r, u).contains(t)]
            in_unit(r.freq, r.week_start, u, t) && is_candidate(r, t) && t >= r.start.civil implies unit_yield(
            r,
            u,
        ).contains(t) by {
            assert(c.contains(t));
            let i = choose|i: int| 0 <= i < c.len() && c[i] == t;
            assert(chosen[i] == t);
        }
    }
}

/// What the positions of a rule select of the candidates of a period: the
/// entry at position `k` for every position `k` from 1 to the number of
/// candidates, the entry `-k` places from the end for every negative
/// position down to minus that number, and nothing else. What is selected
/// keeps the order of the candidates.
pub proof fn lemma_positions_select(c: Seq<int>, pos: Seq<int>)
    requires
        ascending(c),
        pos.len() > 0,
    ensures
        ascending(choose_positions(c, pos)),
        forall|k: int|
            pos.contains(k) && 1 <= k <= c.len() ==> choose_positions(c, pos).contains(#[trigger] c[k - 1]),
        forall|k: int|
            pos.contains(k) && -c.len() <= k <= -1 ==> choose_positions(c, pos).contains(#[trigger] c[c.len() + k]),
        forall|t: int|
            choose_positions(c, pos).contains(t) ==> exists|i: int|
                0 <= i < c.len() && (pos.contains(i + 1) || pos.contains(i - c.len())) && #[trigger] c[i] == t,
{
    let len = c.len() as int;
    lemma_chosen(c, pos, len);
    assert forall|k: int| pos.contains(k) && 1 <= k <= c.len() implies choose_positions(c, pos).contains(
        #[trigger] c[k - 1],
    ) by {
        assert(position_chosen(pos, len, k - 1));
    }
    assert forall|k: int| pos.contains(k) && -c.len() <= k <= -1 implies choose_positions(c, pos).contains(
        #[trigger] c[c.len() + k],
    ) by {
        assert(position_chosen(pos, len, len + k));
    }
    assert forall|t: int| choose_positions(c, pos).contains(t) implies exists|i: int|
        0 <= i < c.len() && (pos.contains(i + 1) || pos.contains(i - c.len())) && #[trigger] c[i] == t by {
        let i = choose|i: int| 0 <= i < len && position_chosen(pos, len, i) && #[trigger] c[i] == t;
        assert(pos.contains(i + 1) || pos.contains(i - c.len()));
    }
}

} // verus!
