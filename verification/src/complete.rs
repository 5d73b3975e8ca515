//! Nothing is left out: in a zone whose instants run with its civil times,
//! the stream of a rule without positions gives every civil second on the
//! schedule of the rule that exists in the zone, up to its bound.

use vstd::prelude::*;
use vstd::arithmetic::div_mod::lemma_fundamental_div_mod;
use crate::calendar::{
    day_of, in_civil_range, lemma_date_exists, lemma_date_within_year, lemma_day_in_some_year,
    lemma_year_start_monotonic, month_of, year_start, CIVIL_END,
};
use crate::candidates::{in_unit, lemma_month_end, lemma_unit_of, lemma_unit_yield};
use crate::error::RuleError;
use crate::instant::InstantModel;
use crate::laws::{counted_unit, lemma_start_unit, lemma_unit_span, lemma_yield_on_schedule};
use crate::model::{
    ascending, on_schedule, unit_in_range, unit_of, unit_start, unit_yield, BoundModel, Frequency, RuleModel,
};
use crate::query::{all_outcome, gather_with};
use crate::stream::{
    admissible, advance_with, expanded, initial_stream, passed_over, EMIT_CAP, IDLE_CAP, Status, Step, StreamModel,
};
use crate::zone::instant_of;

verus! {

/// A later unit begins later.
pub proof fn lemma_unit_start_monotonic(f: Frequency, wkst: int, a: int, b: int)
    requires
        a <= b,
        f == Frequency::Yearly || f == Frequency::Monthly ==> 0 <= a,
    ensures
        unit_start(f, wkst, a) <= unit_start(f, wkst, b),
        a < b ==> unit_start(f, wkst, a + 1) <= unit_start(f, wkst, b),
        unit_start(f, wkst, a) < unit_start(f, wkst, a + 1),
    decreases b - a,
{
    match f {
        Frequency::Yearly => {
            lemma_year_start_monotonic(a, b);
            lemma_year_start_monotonic(a, a + 1);
            crate::calendar::lemma_year_step(a);
        },
        Frequency::Monthly => {
            lemma_month_end(a);
            assert(unit_start(f, wkst, a + 1) == unit_start(Frequency::Monthly, 0, a + 1));
            if a < b {
                lemma_unit_start_monotonic(f, wkst, a + 1, b);
            }
        },
        _ => {},
    }
}

/// A civil second of the years 1 to 9999 lies in its unit.
pub proof fn lemma_unit_holds(f: Frequency, wkst: int, t: int)
    requires
        0 <= wkst <= 6,
        in_civil_range(t),
    ensures
        in_unit(f, wkst, unit_of(f, wkst, t), t),
        f == Frequency::Yearly ==> 1 <= unit_of(f, wkst, t) <= 9999,
        f == Frequency::Monthly ==> 12 <= unit_of(f, wkst, t) <= 119999,
{
    let u = unit_of(f, wkst, t);
    let day = day_of(t);
    match f {
        Frequency::Yearly => {
            lemma_day_in_some_year(day, 1, 10000);
            let z = choose|z: int| 1 <= z < 10000 && #[trigger] year_start(z) <= day && day < year_start(z + 1);
            lemma_date_exists(z, day);
            lemma_year_start_monotonic(0, z);
            lemma_year_start_monotonic(z + 1, 10001);
            lemma_unit_of(f, wkst, u, t);
        },
        Frequency::Monthly => {
            lemma_day_in_some_year(day, 1, 10000);
            let z = choose|z: int| 1 <= z < 10000 && #[trigger] year_start(z) <= day && day < year_start(z + 1);
            lemma_date_exists(z, day);
            assert(u / 12 == z && u % 12 + 1 == month_of(day));
            lemma_month_end(u);
            lemma_date_within_year(z, month_of(day), 1);
            lemma_year_start_monotonic(z + 1, 10001);
            lemma_unit_of(f, wkst, u, t);
        },
        _ => {},
    }
}

/// Of two numbers that differ from `base` by multiples of `m`, the greater
/// is greater by `m` at least.
pub proof fn lemma_counted_gap(base: int, a: int, b: int, m: int)
    requires
        m >= 1,
        (a - base) % m == 0,
        (b - base) % m == 0,
        a < b,
    ensures
        a + m <= b,
{
    lemma_fundamental_div_mod(a - base, m);
    lemma_fundamental_div_mod(b - base, m);
    let qa = (a - base) / m;
    let qb = (b - base) / m;
    assert(a - base == m * qa);
    assert(b - base == m * qb);
    assert(qa < qb) by (nonlinear_arith)
        requires
            m >= 1,
            m * qa < m * qb,
    ;
    assert(m * qb - m * qa >= m) by (nonlinear_arith)
        requires
            m >= 1,
            qb - qa >= 1,
    ;
}

/// Whether the civil second `t` is due under the bound `b`: it is on the
/// schedule of the rule, in the years 1 to 9999, exists in the zone, and
/// its instant is not behind the until-instant.
pub open spec fn due(r: RuleModel, b: BoundModel, t: int) -> bool {
    &&& on_schedule(r, t)
    &&& t < CIVIL_END
    &&& instant_of(r.start.zone, t) is Some
    &&& (b matches BoundModel::Until(u) ==> instant_of(r.start.zone, t)->0 <= u)
}

/// Whether the instants of the zone run with its civil times on the
/// schedule of the rule: a later civil second has a later instant, and none
/// has an instant before that of the start.
pub open spec fn orderly(r: RuleModel) -> bool {
    &&& forall|t: int|
        #![trigger on_schedule(r, t)]
        on_schedule(r, t) && t < CIVIL_END && instant_of(r.start.zone, t) is Some ==> instant_of(r.start.zone, t)->0
            >= r.start.instant
    &&& forall|t1: int, t2: int|
        #![trigger on_schedule(r, t1), on_schedule(r, t2)]
        on_schedule(r, t1) && on_schedule(r, t2) && t1 < t2 < CIVIL_END && instant_of(r.start.zone, t1) is Some
            && instant_of(r.start.zone, t2) is Some ==> instant_of(r.start.zone, t1)->0 < instant_of(
            r.start.zone,
            t2,
        )->0
}

/// Whether the civil second `t` is still to come in the stream `s`: it is
/// pending, or on the schedule in a unit not yet expanded.
pub open spec fn to_come(r: RuleModel, s: StreamModel, t: int) -> bool {
    s.pending.contains(t) || (on_schedule(r, t) && t >= unit_start(r.freq, r.week_start, s.unit))
}

/// What holds of a running stream of a rule in an orderly zone at every
/// pull.
pub open spec fn steady(r: RuleModel, b: BoundModel, s: StreamModel) -> bool {
    &&& s.status is Running
    &&& !(b is Count)
    &&& counted_unit(r, s.unit)
    &&& ascending(s.pending)
    &&& forall|i: int|
        0 <= i < s.pending.len() ==> on_schedule(r, #[trigger] s.pending[i]) && s.pending[i] < unit_start(
            r.freq,
            r.week_start,
            s.unit,
        )
    &&& forall|t: int|
        #![trigger due(r, b, t)]
        due(r, b, t) && to_come(r, s, t) ==> admissible(r, s, instant_of(r.start.zone, t)->0)
}

/// What is to come once the next unit is expanded is what was to come.
proof fn lemma_expanded_to_come(r: RuleModel, b: BoundModel, s: StreamModel, t: int)
    requires
        r.valid(),
        r.by_set_pos.len() == 0,
        steady(r, b, s),
        s.pending.len() == 0,
        unit_in_range(r.freq, r.week_start, s.unit),
        on_schedule(r, t),
        t < CIVIL_END,
    ensures
        to_come(r, s, t) <==> to_come(r, expanded(r, s), t),
{
    let f = r.freq;
    let w = r.week_start;
    let u = s.unit;
    let first = unit_of(f, w, r.start.civil);
    lemma_unit_span(f, w, u);
    lemma_unit_yield(r, u);
    lemma_unit_start_monotonic(f, w, u, u + r.interval);
    lemma_unit_holds(f, w, t);
    lemma_unit_holds(f, w, r.start.civil);
    let ut = unit_of(f, w, t);
    let y = unit_yield(r, u);
    if y.contains(t) {
        assert(in_unit(f, w, u, t));
    }
    if t >= unit_start(f, w, u) && !y.contains(t) {
        assert(!in_unit(f, w, u, t));
        if ut <= u {
            lemma_unit_start_monotonic(f, w, ut, u);
            lemma_unit_start_monotonic(f, w, ut + 1, u + 1);
        }
        lemma_counted_gap(first, u, ut, r.interval);
        lemma_unit_start_monotonic(f, w, u + r.interval, ut);
    }
}

/// A pull on a steady stream gives the first due civil second that is to
/// come, and ends only where none is.
pub proof fn lemma_advance_complete(r: RuleModel, b: BoundModel, s: StreamModel)
    requires
        r.valid(),
        r.by_set_pos.len() == 0,
        orderly(r),
        steady(r, b, s),
    ensures
        match advance_with(r, b, s).1 {
            Step::Occurrence(o) => {
                &&& steady(r, b, advance_with(r, b, s).0)
                &&& due(r, b, o.civil)
                &&& forall|t: int|
                    #![trigger due(r, b, t)]
                    due(r, b, t) && to_come(r, s, t) ==> t == o.civil || to_come(r, advance_with(r, b, s).0, t)
            },
            Step::Done => forall|t: int| #![trigger due(r, b, t)] !(due(r, b, t) && to_come(r, s, t)),
            Step::Failure(e) => true,
        },
    decreases IDLE_CAP - s.idle, (if s.pending.len() == 0 { 1int } else { 0int }),
{
    let f = r.freq;
    let w = r.week_start;
    let zone = r.start.zone;
    if !(s.emitted >= EMIT_CAP || s.idle >= IDLE_CAP) {
        if s.pending.len() == 0 {
            let first = unit_of(f, w, r.start.civil);
            lemma_unit_holds(f, w, r.start.civil);
            if !unit_in_range(f, w, s.unit) {
                lemma_unit_start_monotonic(f, w, first + 1, s.unit + 1);
                assert(unit_start(f, w, s.unit) >= CIVIL_END);
            } else {
                let s1 = expanded(r, s);
                lemma_yield_on_schedule(r, s.unit);
                lemma_unit_yield(r, s.unit);
                lemma_unit_span(f, w, s.unit);
                lemma_unit_start_monotonic(f, w, s.unit, s.unit + r.interval);
                assert forall|i: int| 0 <= i < s1.pending.len() implies on_schedule(r, #[trigger] s1.pending[i])
                    && s1.pending[i] < unit_start(f, w, s1.unit) by {
                    assert(s1.pending.contains(s1.pending[i]));
                    assert(in_unit(f, w, s.unit, s1.pending[i]));
                }
                assert forall|t: int| #![trigger due(r, b, t)] due(r, b, t) && to_come(r, s1, t) implies admissible(
                    r,
                    s1,
                    instant_of(zone, t)->0,
                ) by {
                    lemma_expanded_to_come(r, b, s, t);
                }
                lemma_advance_complete(r, b, s1);
                assert forall|t: int| #![trigger due(r, b, t)] due(r, b, t) && to_come(r, s, t) implies to_come(
                    r,
                    s1,
                    t,
                ) by {
                    lemma_expanded_to_come(r, b, s, t);
                }
            }
        } else {
            let t0 = s.pending[0];
            let s1 = passed_over(s);
            assert(s.pending.contains(t0));
            assert forall|i: int| 0 <= i < s1.pending.len() implies on_schedule(r, #[trigger] s1.pending[i])
                && s1.pending[i] < unit_start(f, w, s1.unit) by {
                assert(s1.pending[i] == s.pending[i + 1]);
            }
            assert forall|i: int, j: int| 0 <= i < j < s1.pending.len() implies s1.pending[i] < s1.pending[j] by {
                assert(s1.pending[i] == s.pending[i + 1] && s1.pending[j] == s.pending[j + 1]);
            }
            // What is to come besides the head is to come behind it.
            assert forall|t: int| to_come(r, s, t) && t != t0 implies to_come(r, s1, t) && t > t0 by {
                if s.pending.contains(t) {
                    let k = choose|k: int| 0 <= k < s.pending.len() && s.pending[k] == t;
                    assert(s1.pending[k - 1] == t);
                }
            }
            assert forall|t: int| to_come(r, s1, t) implies to_come(r, s, t) && t != t0 by {
                if s1.pending.contains(t) {
                    let k = choose|k: int| 0 <= k < s1.pending.len() && s1.pending[k] == t;
                    assert(s.pending[k + 1] == t);
                }
            }
            if t0 >= CIVIL_END {
                assert forall|t: int| #![trigger due(r, b, t)] !(due(r, b, t) && to_come(r, s, t)) by {
                    if due(r, b, t) && to_come(r, s, t) && t != t0 {
                        assert(t > t0);
                    }
                }
            } else {
                match instant_of(zone, t0) {
                    None => {
                        assert(!due(r, b, t0));
                        assert forall|t: int| #![trigger due(r, b, t)] due(r, b, t) && to_come(
                            r,
                            s1,
                            t,
                        ) implies admissible(r, s1, instant_of(zone, t)->0) by {
                            assert(to_come(r, s, t));
                        }
                        lemma_advance_complete(r, b, s1);
                    },
                    Some(i) => {
                        if !admissible(r, s, i) {
                            assert(!due(r, b, t0));
                            assert forall|t: int| #![trigger due(r, b, t)] due(r, b, t) && to_come(
                                r,
                                s1,
                                t,
                            ) implies admissible(r, s1, instant_of(zone, t)->0) by {
                                assert(to_come(r, s, t));
                            }
                            lemma_advance_complete(r, b, s1);
                        } else if b matches BoundModel::Until(u) && i > u {
                            assert forall|t: int| #![trigger due(r, b, t)] !(due(r, b, t) && to_come(r, s, t)) by {
                                if due(r, b, t) && to_come(r, s, t) && t != t0 {
                                    assert(t > t0);
                                    assert(on_schedule(r, t0) && on_schedule(r, t));
                                }
                            }
                        } else {
                            let s2 = advance_with(r, b, s).0;
                            assert(s2.pending == s1.pending);
                            assert(due(r, b, t0));
                            assert forall|t: int| #![trigger due(r, b, t)] due(r, b, t) && to_come(
                                r,
                                s2,
                                t,
                            ) implies admissible(r, s2, instant_of(zone, t)->0) by {
                                assert(to_come(r, s1, t));
                                assert(t > t0);
                                assert(on_schedule(r, t0) && on_schedule(r, t));
                            }
                            assert forall|t: int| #![trigger due(r, b, t)] due(r, b, t) && to_come(
                                r,
                                s,
                                t,
                            ) implies t == t0 || to_come(r, s2, t) by {
                                if t != t0 {
                                    assert(to_come(r, s1, t));
                                }
                            }
                        }
                    },
                }
            }
        }
    }
}

/// A run to the end of a steady stream gives every due civil second that
/// was to come.
pub proof fn lemma_run_complete(r: RuleModel, b: BoundModel, s: StreamModel, n: nat)
    requires
        r.valid(),
        r.by_set_pos.len() == 0,
        orderly(r),
        steady(r, b, s),
        gather_with(r, b, s, n).failure is None,
        gather_with(r, b, s, n).occurrences.len() < n,
    ensures
        forall|t: int|
            #![trigger due(r, b, t)]
            due(r, b, t) && to_come(r, s, t) ==> exists|k: int|
                0 <= k < gather_with(r, b, s, n).occurrences.len() && (#[trigger] gather_with(
                    r,
                    b,
                    s,
                    n,
                ).occurrences[k]).civil == t,
    decreases n,
{
    if n > 0 {
        lemma_advance_complete(r, b, s);
        let (s1, step) = advance_with(r, b, s);
        let g = gather_with(r, b, s, n);
        match step {
            Step::Occurrence(o) => {
                let g1 = gather_with(r, b, s1, (n - 1) as nat);
                assert(g.occurrences =~= seq![o] + g1.occurrences);
                lemma_run_complete(r, b, s1, (n - 1) as nat);
                assert forall|t: int| #![trigger due(r, b, t)] due(r, b, t) && to_come(r, s, t) implies exists|k: int|
                    0 <= k < g.occurrences.len() && (#[trigger] g.occurrences[k]).civil == t by {
                    if t == o.civil {
                        assert(g.occurrences[0].civil == t);
                    } else {
                        assert(to_come(r, s1, t));
                        let k = choose|k: int|
                            0 <= k < g1.occurrences.len() && (#[trigger] g1.occurrences[k]).civil == t;
                        assert(g.occurrences[k + 1].civil == t);
                    }
                }
            },
            _ => {},
        }
    }
}

/// Nothing is left out. In a zone whose instants run with its civil times,
/// a rule without positions and without count has every due civil second
/// among what `all` returns, where `all` returns all that the rule has:
/// every civil second on the schedule of the rule, in the years 1 to 9999,
/// that exists in the zone and whose instant is not behind the
/// until-instant.
pub proof fn lemma_nothing_left_out(r: RuleModel, limit: nat)
    requires
        r.valid(),
        r.by_set_pos.len() == 0,
        !(r.bound is Count),
        orderly(r),
        all_outcome(r, limit) is Ok,
        all_outcome(r, limit)->Ok_0.len() < limit,
    ensures
        forall|t: int|
            #![trigger due(r, r.bound, t)]
            due(r, r.bound, t) ==> exists|k: int|
                0 <= k < all_outcome(r, limit)->Ok_0.len() && (#[trigger] all_outcome(r, limit)->Ok_0[k]).civil == t,
{
    let s = initial_stream(r);
    lemma_start_unit(r);
    assert(steady(r, r.bound, s));
    lemma_run_complete(r, r.bound, s, limit);
    assert forall|t: int| #![trigger due(r, r.bound, t)] due(r, r.bound, t) implies to_come(r, s, t) by {}
}

} // verus!
