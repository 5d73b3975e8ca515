//! What holds of every stream of a rule, and of what `all` returns.

use vstd::prelude::*;
use vstd::arithmetic::div_mod::{lemma_mod_add_multiples_vanish, lemma_small_mod};
use crate::calendar::{
    day_of, lemma_date_exists, lemma_date_within_year, lemma_day_in_some_year, lemma_year_start_monotonic,
    lemma_year_step, month_of, year_start, CIVIL_END,
};
use crate::candidates::{in_unit, lemma_month_end, lemma_unit_of, lemma_unit_yield};
use crate::error::RuleError;
use crate::expand::{lemma_month_range, lemma_year_range};
use crate::instant::InstantModel;
use crate::model::{
    ascending, is_candidate, on_schedule, unit_in_range, unit_of, unit_start, unit_yield, BoundModel, Frequency,
    RuleModel,
};
use crate::query::{
    after_outcome, all_outcome, before_outcome, between_outcome, first_reaching, gather, gather_with, past, reaches,
    sweep,
};
use crate::stream::{
    admissible, advance, advance_with, expanded, initial_stream, lemma_advance_status, passed_over, EMIT_CAP,
    IDLE_CAP, Status, Step, StreamModel,
};
use crate::zone::{instant_of, local_mapping, LocalTime};

verus! {

/// Whether the unit `u` is one that the interval of the rule counts: the
/// unit of the start, or a whole number of intervals behind it.
pub open spec fn counted_unit(r: RuleModel, u: int) -> bool {
    let first = unit_of(r.freq, r.week_start, r.start.civil);
    u >= first && (u - first) % r.interval == 0
}

/// Whether `o` is an occurrence that the rule `r` can have: a civil second
/// on the schedule of the rule, in the zone of the start, with the instant
/// that the zone gives it, not before the start.
pub open spec fn is_occurrence_of(r: RuleModel, o: InstantModel) -> bool {
    &&& o.zone == r.start.zone
    &&& o.valid()
    &&& on_schedule(r, o.civil)
    &&& o.instant >= r.start.instant
}

/// What holds of a stream of the rule `r` under the bound `b` at every
/// pull.
pub open spec fn coherent(r: RuleModel, b: BoundModel, s: StreamModel) -> bool {
    &&& s.emitted >= 0
    &&& s.idle >= 0
    &&& counted_unit(r, s.unit)
    &&& forall|i: int| 0 <= i < s.pending.len() ==> on_schedule(r, #[trigger] s.pending[i])
    &&& (b matches BoundModel::Count(c) ==> s.emitted <= c)
    &&& (s.last matches Some(l) ==> l >= r.start.instant && (b matches BoundModel::Until(u) ==> l <= u))
}

/// The instants of a run ascend strictly.
pub open spec fn instants_ascend(s: Seq<InstantModel>) -> bool {
    forall|i: int, j: int| 0 <= i < j < s.len() ==> s[i].instant < s[j].instant
}

/// A unit with a part in the years 1 to 9999 lies within the calendar.
pub proof fn lemma_unit_span(f: Frequency, wkst: int, u: int)
    requires
        0 <= wkst <= 6,
        unit_in_range(f, wkst, u),
    ensures
        -719528 * 86400 <= unit_start(f, wkst, u),
        unit_start(f, wkst, u + 1) <= 2933263 * 86400,
        unit_start(f, wkst, u) < unit_start(f, wkst, u + 1),
        f == Frequency::Yearly ==> 1 <= u <= 9999,
        f == Frequency::Monthly ==> 12 <= u <= 119999,
{
    match f {
        Frequency::Yearly => {
            lemma_year_range(u);
            assert(unit_start(f, wkst, u) == unit_start(f, 0, u));
            assert(unit_start(f, wkst, u + 1) == unit_start(f, 0, u + 1));
            lemma_year_start_monotonic(0, u);
            lemma_year_start_monotonic(u + 1, 10001);
            lemma_year_step(u);
        },
        Frequency::Monthly => {
            lemma_month_range(u);
            assert(unit_start(f, wkst, u) == unit_start(f, 0, u));
            assert(unit_start(f, wkst, u + 1) == unit_start(f, 0, u + 1));
            lemma_month_end(u);
            let y = u / 12;
            let m = u % 12 + 1;
            lemma_date_within_year(y, m, 1);
            lemma_year_start_monotonic(y + 1, 10001);
        },
        _ => {},
    }
}

/// The unit of the start of a valid rule is counted, holds the start, and
/// has a part in the years 1 to 9999.
pub proof fn lemma_start_unit(r: RuleModel)
    requires
        r.valid(),
    ensures
        counted_unit(r, unit_of(r.freq, r.week_start, r.start.civil)),
        in_unit(r.freq, r.week_start, unit_of(r.freq, r.week_start, r.start.civil), r.start.civil),
        unit_in_range(r.freq, r.week_start, unit_of(r.freq, r.week_start, r.start.civil)),
{
    let t = r.start.civil;
    let u = unit_of(r.freq, r.week_start, t);
    let day = day_of(t);
    lemma_small_mod(0, r.interval as nat);
    match r.freq {
        Frequency::Yearly => {
            lemma_day_in_some_year(day, 1, 10000);
            let z = choose|z: int| 1 <= z < 10000 && #[trigger] year_start(z) <= day && day < year_start(z + 1);
            lemma_date_exists(z, day);
            lemma_unit_of(r.freq, r.week_start, u, t);
            lemma_year_start_monotonic(0, z);
            lemma_year_start_monotonic(z + 1, 10001);
        },
        Frequency::Monthly => {
            lemma_day_in_some_year(day, 1, 10000);
            let z = choose|z: int| 1 <= z < 10000 && #[trigger] year_start(z) <= day && day < year_start(z + 1);
            lemma_date_exists(z, day);
            assert(u / 12 == z && u % 12 + 1 == month_of(day));
            lemma_month_end(u);
            lemma_date_within_year(z, month_of(day), 1);
            lemma_year_start_monotonic(z + 1, 10001);
            lemma_unit_of(r.freq, r.week_start, u, t);
        },
        _ => {},
    }
}

/// What a counted unit yields is on the schedule of the rule.
pub proof fn lemma_yield_on_schedule(r: RuleModel, u: int)
    requires
        r.valid(),
        counted_unit(r, u),
        unit_in_range(r.freq, r.week_start, u),
    ensures
        forall|i: int| 0 <= i < unit_yield(r, u).len() ==> on_schedule(r, #[trigger] unit_yield(r, u)[i]),
        counted_unit(r, u + r.interval),
{
    lemma_unit_span(r.freq, r.week_start, u);
    lemma_unit_yield(r, u);
    let first = unit_of(r.freq, r.week_start, r.start.civil);
    lemma_mod_add_multiples_vanish(u - first, r.interval);
    assert(u + r.interval - first == r.interval + (u - first));
    assert forall|i: int| 0 <= i < unit_yield(r, u).len() implies on_schedule(r, #[trigger] unit_yield(r, u)[i]) by {
        let t = unit_yield(r, u)[i];
        assert(unit_yield(r, u).contains(t));
        lemma_unit_of(r.freq, r.week_start, u, t);
    }
}

/// What one pull gives, and what it leaves.
///
/// An occurrence is an occurrence that the rule can have; it lies behind
/// the one before it, within the count and not behind the until-instant.
/// The end and a failure leave what was given out as it was.
pub proof fn lemma_advance(r: RuleModel, b: BoundModel, s: StreamModel)
    requires
        r.valid(),
        coherent(r, b, s),
    ensures
        ({
            let (s1, step) = advance_with(r, b, s);
            &&& coherent(r, b, s1)
            &&& match step {
                Step::Occurrence(o) => {
                    &&& is_occurrence_of(r, o)
                    &&& admissible(r, s, o.instant)
                    &&& s.status is Running
                    &&& s1.status is Running
                    &&& s1.last == Some(o.instant)
                    &&& s1.emitted == s.emitted + 1
                    &&& s.emitted < EMIT_CAP
                    &&& (b matches BoundModel::Count(c) ==> s.emitted < c)
                    &&& (b matches BoundModel::Until(u) ==> o.instant <= u)
                },
                Step::Done => s1.status is Finished && s1.last == s.last && s1.emitted == s.emitted,
                Step::Failure(e) => s1.status == Status::Failed(e) && s1.last == s.last && s1.emitted == s.emitted,
            }
        }),
    decreases IDLE_CAP - s.idle, (if s.pending.len() == 0 { 1int } else { 0int }),
{
    if s.status is Running && !(b matches BoundModel::Count(n) && s.emitted >= n) && !(s.emitted >= EMIT_CAP || s.idle
        >= IDLE_CAP) {
        if s.pending.len() == 0 {
            if unit_in_range(r.freq, r.week_start, s.unit) {
                lemma_yield_on_schedule(r, s.unit);
                lemma_advance(r, b, expanded(r, s));
            }
        } else {
            let t = s.pending[0];
            let rest = passed_over(s);
            assert forall|i: int| 0 <= i < rest.pending.len() implies on_schedule(r, #[trigger] rest.pending[i]) by {
                assert(rest.pending[i] == s.pending[i + 1]);
            }
            if t < CIVIL_END {
                match instant_of(r.start.zone, t) {
                    None => {
                        lemma_advance(r, b, rest);
                    },
                    Some(i) => {
                        if !admissible(r, s, i) {
                            lemma_advance(r, b, rest);
                        }
                    },
                }
            }
        }
    }
}

/// The stream of a valid rule is coherent before the first pull.
pub proof fn lemma_initial(r: RuleModel)
    requires
        r.valid(),
    ensures
        coherent(r, r.bound, initial_stream(r)),
{
    lemma_start_unit(r);
}

/// What a run of pulls gives: occurrences that the rule can have, in
/// strictly ascending order of their instants, each behind what the stream
/// gave out before; no more than were asked for and no more than the count
/// leaves; none behind the until-instant.
pub proof fn lemma_gather(r: RuleModel, b: BoundModel, s: StreamModel, n: nat)
    requires
        r.valid(),
        coherent(r, b, s),
    ensures
        ({
            let g = gather_with(r, b, s, n);
            &&& instants_ascend(g.occurrences)
            &&& g.occurrences.len() <= n
            &&& forall|i: int|
                0 <= i < g.occurrences.len() ==> is_occurrence_of(r, #[trigger] g.occurrences[i]) && admissible(
                    r,
                    s,
                    g.occurrences[i].instant,
                )
            &&& (b matches BoundModel::Count(c) ==> s.emitted + g.occurrences.len() <= c)
            &&& (b matches BoundModel::Until(u) ==> forall|i: int|
                0 <= i < g.occurrences.len() ==> (#[trigger] g.occurrences[i]).instant <= u)
        }),
    decreases n,
{
    if n > 0 {
        lemma_advance(r, b, s);
        let (s1, step) = advance_with(r, b, s);
        match step {
            Step::Occurrence(o) => {
                let rest = gather_with(r, b, s1, (n - 1) as nat);
                lemma_gather(r, b, s1, (n - 1) as nat);
                let g = gather_with(r, b, s, n);
                assert(g.occurrences =~= seq![o] + rest.occurrences);
                assert forall|i: int| 0 <= i < g.occurrences.len() implies is_occurrence_of(
                    r,
                    #[trigger] g.occurrences[i],
                ) && admissible(r, s, g.occurrences[i].instant) by {
                    if i > 0 {
                        assert(g.occurrences[i] == rest.occurrences[i - 1]);
                    }
                }
                assert forall|i: int, j: int| 0 <= i < j < g.occurrences.len() implies g.occurrences[i].instant
                    < g.occurrences[j].instant by {
                    assert(g.occurrences[j] == rest.occurrences[j - 1]);
                    if i > 0 {
                        assert(g.occurrences[i] == rest.occurrences[i - 1]);
                    }
                }
                match b {
                    BoundModel::Until(u) => {
                        assert forall|i: int| 0 <= i < g.occurrences.len() implies (
                        #[trigger] g.occurrences[i]).instant <= u by {
                            if i > 0 {
                                assert(g.occurrences[i] == rest.occurrences[i - 1]);
                            }
                        }
                    },
                    _ => {},
                }
            },
            _ => {},
        }
    }
}

/// What `all` returns, where it returns occurrences: occurrences that the
/// rule can have, in strictly ascending order of their instants, `limit`
/// at most; no more than the count of the rule, and none behind its
/// until-instant.
pub proof fn lemma_all(r: RuleModel, limit: nat)
    requires
        r.valid(),
    ensures
        all_outcome(r, limit) matches Ok(seq) ==> {
            &&& instants_ascend(seq)
            &&& seq.len() <= limit
            &&& forall|i: int| 0 <= i < seq.len() ==> is_occurrence_of(r, #[trigger] seq[i])
            &&& (r.bound matches BoundModel::Count(c) ==> seq.len() <= c)
            &&& (r.bound matches BoundModel::Until(u) ==> forall|i: int|
                0 <= i < seq.len() ==> (#[trigger] seq[i]).instant <= u)
        },
{
    lemma_initial(r);
    lemma_gather(r, r.bound, initial_stream(r), limit);
}

/// Two enumerations of one rule give the same: what `all` returns is a
/// function of the rule and the limit.
pub proof fn lemma_deterministic(a: RuleModel, b: RuleModel, limit: nat)
    requires
        a == b,
    ensures
        all_outcome(a, limit) == all_outcome(b, limit),
        advance(a, initial_stream(a)) == advance(b, initial_stream(b)),
{
}

/// While the count is not reached a pull gives what it gives without the
/// count.
pub proof fn lemma_advance_within_count(r: RuleModel, c: int, s: StreamModel)
    requires
        s.emitted < c,
    ensures
        advance_with(r, BoundModel::Count(c), s) == advance_with(r, BoundModel::Unbounded, s),
    decreases IDLE_CAP - s.idle, (if s.pending.len() == 0 { 1int } else { 0int }),
{
    if s.status is Running && !(s.emitted >= EMIT_CAP || s.idle >= IDLE_CAP) {
        if s.pending.len() == 0 {
            if unit_in_range(r.freq, r.week_start, s.unit) {
                lemma_advance_within_count(r, c, expanded(r, s));
            }
        } else {
            let t = s.pending[0];
            if t < CIVIL_END {
                match instant_of(r.start.zone, t) {
                    None => {
                        lemma_advance_within_count(r, c, passed_over(s));
                    },
                    Some(i) => {
                        if !admissible(r, s, i) {
                            lemma_advance_within_count(r, c, passed_over(s));
                        }
                    },
                }
            }
        }
    }
}

/// The smaller of two numbers.
pub open spec fn least(a: int, b: int) -> nat {
    if a <= b {
        if a >= 0 {
            a as nat
        } else {
            0
        }
    } else {
        if b >= 0 {
            b as nat
        } else {
            0
        }
    }
}

/// A run under a count is the run without the count, cut off where the
/// count is reached: the count takes the first occurrences and changes
/// none.
pub proof fn lemma_count_cuts(r: RuleModel, c: int, s: StreamModel, n: nat)
    requires
        0 <= s.emitted <= c,
        !(s.status is Failed),
    ensures
        gather_with(r, BoundModel::Count(c), s, n) == gather_with(
            r,
            BoundModel::Unbounded,
            s,
            least(n as int, c - s.emitted),
        ),
    decreases n,
{
    if n > 0 {
        if s.emitted < c {
            lemma_advance_within_count(r, c, s);
            let (s1, step) = advance_with(r, BoundModel::Unbounded, s);
            lemma_advance_status(r, BoundModel::Unbounded, s);
            match step {
                Step::Occurrence(o) => {
                    lemma_count_cuts(r, c, s1, (n - 1) as nat);
                    assert(least(n as int, c - s.emitted) - 1 == least(n - 1, c - s1.emitted));
                },
                _ => {},
            }
        }
    }
}

/// A rule with the count `c` has exactly `c` occurrences where the rule
/// without the count has that many, and `all` returns them where the limit
/// leaves room.
pub proof fn lemma_count_exact(r: RuleModel, c: int, limit: nat)
    requires
        r.valid(),
        r.bound == BoundModel::Count(c),
        limit >= c,
        gather_with(r, BoundModel::Unbounded, initial_stream(r), c as nat).failure is None,
        gather_with(r, BoundModel::Unbounded, initial_stream(r), c as nat).occurrences.len() == c,
    ensures
        all_outcome(r, limit) matches Ok(seq) && seq.len() == c && seq == gather_with(
            r,
            BoundModel::Unbounded,
            initial_stream(r),
            c as nat,
        ).occurrences,
{
    lemma_count_cuts(r, c, initial_stream(r), limit);
}

/// The start of a rule is its first occurrence where the rule admits it:
/// where the start is a candidate of the rule, the rule has no positions,
/// and the until-instant, if there is one, is not before the start.
pub proof fn lemma_start_first(r: RuleModel)
    requires
        r.valid(),
        is_candidate(r, r.start.civil),
        r.by_set_pos.len() == 0,
        r.bound matches BoundModel::Until(u) ==> r.start.instant <= u,
    ensures
        advance(r, initial_stream(r)).1 == Step::Occurrence(r.start),
{
    let s0 = initial_stream(r);
    let u = s0.unit;
    lemma_start_unit(r);
    lemma_unit_span(r.freq, r.week_start, u);
    lemma_unit_yield(r, u);
    let y = unit_yield(r, u);
    assert(y.contains(r.start.civil));
    let k = choose|k: int| 0 <= k < y.len() && y[k] == r.start.civil;
    assert(y.contains(y[0]));
    assert(y[0] >= r.start.civil);
    if k > 0 {
        assert(y[0] < y[k]);
    }
    let s1 = expanded(r, s0);
    assert(advance(r, s0) == advance_with(r, r.bound, s1));
    assert(s1.pending[0] == r.start.civil);
    assert(instant_of(r.start.zone, r.start.civil) == Some(r.start.instant));
    assert(advance_with(r, r.bound, s1).1 == Step::Occurrence(r.start));
}

/// The start is given out only where the rule admits it, and then first:
/// an occurrence at the civil time of the start makes the start a
/// candidate of the rule, and no occurrence of a run from the start of the
/// stream comes before it.
pub proof fn lemma_start_only_first(r: RuleModel, limit: nat, k: int)
    requires
        r.valid(),
        0 <= k < gather(r, initial_stream(r), limit).occurrences.len(),
        gather(r, initial_stream(r), limit).occurrences[k].civil == r.start.civil,
    ensures
        is_candidate(r, r.start.civil),
        k == 0,
        gather(r, initial_stream(r), limit).occurrences[k] == r.start,
{
    lemma_initial(r);
    lemma_gather(r, r.bound, initial_stream(r), limit);
    let occ = gather(r, initial_stream(r), limit).occurrences;
    assert(is_occurrence_of(r, occ[k]));
    assert(is_occurrence_of(r, occ[0]));
    if k > 0 {
        assert(occ[0].instant < occ[k].instant);
    }
}

/// The policy on gaps and folds: the civil time of an occurrence exists in
/// the zone, and in a fold its instant is the earlier of the two.
pub proof fn lemma_gap_fold(r: RuleModel, o: InstantModel)
    requires
        is_occurrence_of(r, o),
    ensures
        local_mapping(r.start.zone, o.civil) matches Some(m) && !(m is Gap),
        local_mapping(r.start.zone, o.civil) matches Some(LocalTime::Fold(a, b)) ==> o.instant <= a && o.instant <= b
            && (o.instant == a || o.instant == b),
        local_mapping(r.start.zone, o.civil) matches Some(LocalTime::Unique(a)) ==> o.instant == a,
{
}

/// What a sweep of a window gives: occurrences that the rule can have, in
/// strictly ascending order of their instants, each within the window and
/// behind what the stream gave out before.
pub proof fn lemma_sweep(r: RuleModel, s: StreamModel, lo: Option<int>, hi: int, inclusive: bool)
    requires
        r.valid(),
        coherent(r, r.bound, s),
    ensures
        ({
            let g = sweep(r, s, lo, hi, inclusive);
            &&& instants_ascend(g.occurrences)
            &&& forall|i: int|
                0 <= i < g.occurrences.len() ==> {
                    &&& is_occurrence_of(r, #[trigger] g.occurrences[i])
                    &&& admissible(r, s, g.occurrences[i].instant)
                    &&& !past(g.occurrences[i].instant, hi, inclusive)
                    &&& (lo matches Some(l) ==> reaches(g.occurrences[i].instant, l, inclusive))
                }
        }),
    decreases EMIT_CAP - s.emitted,
{
    lemma_advance(r, r.bound, s);
    let (s1, step) = advance(r, s);
    match step {
        Step::Occurrence(o) => {
            if !past(o.instant, hi, inclusive) {
                lemma_sweep(r, s1, lo, hi, inclusive);
                let rest = sweep(r, s1, lo, hi, inclusive);
                let g = sweep(r, s, lo, hi, inclusive);
                if lo matches Some(l) && !reaches(o.instant, l, inclusive) {
                    assert(g == rest);
                } else {
                    assert(g.occurrences =~= seq![o] + rest.occurrences);
                    assert forall|i: int| 0 <= i < g.occurrences.len() implies {
                        &&& is_occurrence_of(r, #[trigger] g.occurrences[i])
                        &&& admissible(r, s, g.occurrences[i].instant)
                        &&& !past(g.occurrences[i].instant, hi, inclusive)
                        &&& (lo matches Some(l) ==> reaches(g.occurrences[i].instant, l, inclusive))
                    } by {
                        if i > 0 {
                            assert(g.occurrences[i] == rest.occurrences[i - 1]);
                        }
                    }
                    assert forall|i: int, j: int| 0 <= i < j < g.occurrences.len() implies g.occurrences[i].instant
                        < g.occurrences[j].instant by {
                        assert(g.occurrences[j] == rest.occurrences[j - 1]);
                        if i > 0 {
                            assert(g.occurrences[i] == rest.occurrences[i - 1]);
                        }
                    }
                }
            }
        },
        _ => {},
    }
}

/// What `between` returns, where it returns occurrences: occurrences that
/// the rule can have, within the window, in strictly ascending order.
pub proof fn lemma_between(r: RuleModel, lo: int, hi: int, inclusive: bool)
    requires
        r.valid(),
    ensures
        between_outcome(r, lo, hi, inclusive) matches Ok(seq) ==> {
            &&& instants_ascend(seq)
            &&& forall|i: int|
                0 <= i < seq.len() ==> is_occurrence_of(r, #[trigger] seq[i]) && reaches(seq[i].instant, lo, inclusive)
                    && !past(seq[i].instant, hi, inclusive)
        },
{
    lemma_initial(r);
    lemma_sweep(r, initial_stream(r), Some(lo), hi, inclusive);
}

/// What `before` returns, where it returns an occurrence: one that the
/// rule can have, not behind the instant asked for.
pub proof fn lemma_before(r: RuleModel, hi: int, inclusive: bool)
    requires
        r.valid(),
    ensures
        before_outcome(r, hi, inclusive) matches Ok(Some(o)) ==> is_occurrence_of(r, o) && !past(
            o.instant,
            hi,
            inclusive,
        ),
{
    lemma_initial(r);
    lemma_sweep(r, initial_stream(r), None, hi, inclusive);
}

/// The first occurrence that reaches an instant is one that the rule can
/// have, and reaches it.
pub proof fn lemma_first_reaching(r: RuleModel, s: StreamModel, lo: int, inclusive: bool)
    requires
        r.valid(),
        coherent(r, r.bound, s),
    ensures
        first_reaching(r, s, lo, inclusive) matches Ok(Some(o)) ==> is_occurrence_of(r, o) && reaches(
            o.instant,
            lo,
            inclusive,
        ),
    decreases EMIT_CAP - s.emitted,
{
    lemma_advance(r, r.bound, s);
    let (s1, step) = advance(r, s);
    match step {
        Step::Occurrence(o) => {
            if !reaches(o.instant, lo, inclusive) {
                lemma_first_reaching(r, s1, lo, inclusive);
            }
        },
        _ => {},
    }
}

/// What `after` returns, where it returns an occurrence: one that the rule
/// can have, behind the instant asked for.
pub proof fn lemma_after(r: RuleModel, lo: int, inclusive: bool)
    requires
        r.valid(),
    ensures
        after_outcome(r, lo, inclusive) matches Ok(Some(o)) ==> is_occurrence_of(r, o) && reaches(
            o.instant,
            lo,
            inclusive,
        ),
{
    lemma_initial(r);
    lemma_first_reaching(r, initial_stream(r), lo, inclusive);
}

/// A stream that has failed fails in the same way at every later pull, and
/// a stream that has ended stays ended.
pub proof fn lemma_poisoned(r: RuleModel, b: BoundModel, s: StreamModel)
    ensures
        ({
            let (s1, step) = advance_with(r, b, s);
            &&& (step matches Step::Failure(e) ==> advance_with(r, b, s1) == (s1, Step::Failure(e)))
            &&& (step is Done ==> advance_with(r, b, s1) == (s1, Step::Done))
        }),
    decreases IDLE_CAP - s.idle, (if s.pending.len() == 0 { 1int } else { 0int }),
{
    if s.status is Running && !(b matches BoundModel::Count(n) && s.emitted >= n) && !(s.emitted >= EMIT_CAP || s.idle
        >= IDLE_CAP) {
        if s.pending.len() == 0 {
            if unit_in_range(r.freq, r.week_start, s.unit) {
                lemma_poisoned(r, b, expanded(r, s));
            }
        } else {
            let t = s.pending[0];
            if t < CIVIL_END {
                match instant_of(r.start.zone, t) {
                    None => {
                        lemma_poisoned(r, b, passed_over(s));
                    },
                    Some(i) => {
                        if !admissible(r, s, i) {
                            lemma_poisoned(r, b, passed_over(s));
                        }
                    },
                }
            }
        }
    }
}

/// Whether the instant `x` lies within a window: not behind its far end,
/// and at or behind its near end where it has one.
pub open spec fn inside(x: int, lo: Option<int>, hi: int, inclusive: bool) -> bool {
    !past(x, hi, inclusive) && (lo matches Some(l) ==> reaches(x, l, inclusive))
}

/// The occurrences of `s` that lie within a window, in the order of `s`.
pub open spec fn in_window(s: Seq<InstantModel>, lo: Option<int>, hi: int, inclusive: bool) -> Seq<InstantModel>
    decreases s.len(),
{
    if s.len() == 0 {
        Seq::empty()
    } else if inside(s[0].instant, lo, hi, inclusive) {
        seq![s[0]] + in_window(s.skip(1), lo, hi, inclusive)
    } else {
        in_window(s.skip(1), lo, hi, inclusive)
    }
}

/// The first occurrence of `s` that reaches the instant `lo`.
pub open spec fn first_in(s: Seq<InstantModel>, lo: int, inclusive: bool) -> Option<InstantModel>
    decreases s.len(),
{
    if s.len() == 0 {
        None
    } else if reaches(s[0].instant, lo, inclusive) {
        Some(s[0])
    } else {
        first_in(s.skip(1), lo, inclusive)
    }
}

/// Occurrences behind the far end of a window leave nothing within it.
pub proof fn lemma_all_past(s: Seq<InstantModel>, lo: Option<int>, hi: int, inclusive: bool)
    requires
        forall|i: int| 0 <= i < s.len() ==> past((#[trigger] s[i]).instant, hi, inclusive),
    ensures
        in_window(s, lo, hi, inclusive) == Seq::<InstantModel>::empty(),
    decreases s.len(),
{
    if s.len() > 0 {
        let t = s.skip(1);
        assert forall|i: int| 0 <= i < t.len() implies past((#[trigger] t[i]).instant, hi, inclusive) by {
            assert(t[i] == s[i + 1]);
        }
        lemma_all_past(t, lo, hi, inclusive);
    }
}

/// A sweep of a window gives what a run to the end of the stream gives
/// within the window.
pub proof fn lemma_sweep_of_run(r: RuleModel, s: StreamModel, n: nat, lo: Option<int>, hi: int, inclusive: bool)
    requires
        r.valid(),
        coherent(r, r.bound, s),
        gather(r, s, n).failure is None,
        gather(r, s, n).occurrences.len() < n,
    ensures
        sweep(r, s, lo, hi, inclusive).failure is None,
        sweep(r, s, lo, hi, inclusive).occurrences == in_window(gather(r, s, n).occurrences, lo, hi, inclusive),
    decreases n,
{
    lemma_advance(r, r.bound, s);
    lemma_gather(r, r.bound, s, n);
    let (s1, step) = advance(r, s);
    let g = gather(r, s, n);
    match step {
        Step::Occurrence(o) => {
            let g1 = gather(r, s1, (n - 1) as nat);
            assert(g.occurrences =~= seq![o] + g1.occurrences);
            assert(g.occurrences.skip(1) =~= g1.occurrences);
            assert(g.occurrences[0] == o);
            if past(o.instant, hi, inclusive) {
                assert forall|i: int| 0 <= i < g.occurrences.len() implies past(
                    (#[trigger] g.occurrences[i]).instant,
                    hi,
                    inclusive,
                ) by {
                    if i > 0 {
                        assert(g.occurrences[0].instant < g.occurrences[i].instant);
                    }
                }
                lemma_all_past(g.occurrences, lo, hi, inclusive);
            } else {
                lemma_sweep_of_run(r, s1, (n - 1) as nat, lo, hi, inclusive);
            }
        },
        _ => {},
    }
}

/// The first occurrence that reaches an instant is the first such
/// occurrence of a run to the end of the stream.
pub proof fn lemma_first_of_run(r: RuleModel, s: StreamModel, n: nat, lo: int, inclusive: bool)
    requires
        r.valid(),
        coherent(r, r.bound, s),
        gather(r, s, n).failure is None,
        gather(r, s, n).occurrences.len() < n,
    ensures
        first_reaching(r, s, lo, inclusive) == Ok::<Option<InstantModel>, RuleError>(
            first_in(gather(r, s, n).occurrences, lo, inclusive),
        ),
    decreases n,
{
    lemma_advance(r, r.bound, s);
    let (s1, step) = advance(r, s);
    let g = gather(r, s, n);
    match step {
        Step::Occurrence(o) => {
            let g1 = gather(r, s1, (n - 1) as nat);
            assert(g.occurrences =~= seq![o] + g1.occurrences);
            assert(g.occurrences.skip(1) =~= g1.occurrences);
            assert(g.occurrences[0] == o);
            if !reaches(o.instant, lo, inclusive) {
                lemma_first_of_run(r, s1, (n - 1) as nat, lo, inclusive);
            }
        },
        _ => {},
    }
}

/// The window queries agree with `all`: where `all` returns every
/// occurrence of a rule, `between` returns those of them within the
/// window, `before` the last of them up to its instant, and `after` the
/// first of them from its instant on.
pub proof fn lemma_windows_agree(r: RuleModel, limit: nat, lo: int, hi: int, inclusive: bool)
    requires
        r.valid(),
        all_outcome(r, limit) is Ok,
        all_outcome(r, limit)->Ok_0.len() < limit,
    ensures
        between_outcome(r, lo, hi, inclusive) == Ok::<Seq<InstantModel>, RuleError>(
            in_window(all_outcome(r, limit)->Ok_0, Some(lo), hi, inclusive),
        ),
        before_outcome(r, hi, inclusive) == Ok::<Option<InstantModel>, RuleError>(
            if in_window(all_outcome(r, limit)->Ok_0, None, hi, inclusive).len() > 0 {
                Some(in_window(all_outcome(r, limit)->Ok_0, None, hi, inclusive).last())
            } else {
                None
            },
        ),
        after_outcome(r, lo, inclusive) == Ok::<Option<InstantModel>, RuleError>(
            first_in(all_outcome(r, limit)->Ok_0, lo, inclusive),
        ),
{
    lemma_initial(r);
    let s = initial_stream(r);
    lemma_sweep_of_run(r, s, limit, Some(lo), hi, inclusive);
    lemma_sweep_of_run(r, s, limit, None, hi, inclusive);
    lemma_first_of_run(r, s, limit, lo, inclusive);
}

} // verus!
