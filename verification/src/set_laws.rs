//! What holds of the stream of a rule set: it gives, in ascending order,
//! exactly what its inclusions give and its exclusions do not.

use vstd::prelude::*;
use crate::error::RuleError;
use crate::instant::InstantModel;
use crate::laws::{
    coherent, first_in, in_window, instants_ascend, lemma_advance, lemma_all_past, lemma_gather, lemma_initial,
};
use crate::model::RuleModel;
use crate::query::{gather, gather_with, past, reaches};
use crate::set_model::{
    all_caught_up, all_opened, caught_up, date_at, entry_at, excluded, fresh, head_at, heads_at, initial_set_stream,
    least_date, least_head, lemma_least_date, lemma_least_head, lemma_round, next_entry, opened, pulled, refilled,
    set_advance, set_after_outcome, set_all_outcome, set_before_outcome, set_between_outcome, set_first_reaching,
    set_gather, set_measure, set_sweep, RuleSetModel, SetStreamModel, SourceModel,
};
use crate::stream::{advance, initial_stream, lemma_advance_status, EMIT_CAP, Step};

verus! {

/// A head is found at an instant exactly where a source has one there.
pub proof fn lemma_head_at(srcs: Seq<SourceModel>, m: int, n: int)
    requires
        0 <= n <= srcs.len(),
    ensures
        head_at(srcs, m, n) is Some <==> exists|k: int| 0 <= k < n && heads_at(#[trigger] srcs[k], m),
        head_at(srcs, m, n) matches Some(h) ==> h.instant == m,
    decreases n,
{
    if n > 0 {
        lemma_head_at(srcs, m, n - 1);
        if exists|k: int| 0 <= k < n && heads_at(#[trigger] srcs[k], m) {
            let k = choose|k: int| 0 <= k < n && heads_at(#[trigger] srcs[k], m);
            if k < n - 1 {
                assert(heads_at(srcs[k], m));
            }
        }
        if head_at(srcs, m, n) is Some {
            if head_at(srcs, m, n - 1) is Some {
                let k = choose|k: int| 0 <= k < n - 1 && heads_at(#[trigger] srcs[k], m);
                assert(heads_at(srcs[k], m));
            } else {
                assert(heads_at(srcs[n - 1], m));
            }
        }
    }
}

/// A date is found at an instant exactly where one lies there.
pub proof fn lemma_date_at(dates: Seq<InstantModel>, m: int, n: int)
    requires
        0 <= n <= dates.len(),
    ensures
        date_at(dates, m, n) is Some <==> exists|k: int| 0 <= k < n && (#[trigger] dates[k]).instant == m,
        date_at(dates, m, n) matches Some(d) ==> d.instant == m,
    decreases n,
{
    if n > 0 {
        lemma_date_at(dates, m, n - 1);
        if exists|k: int| 0 <= k < n && (#[trigger] dates[k]).instant == m {
            let k = choose|k: int| 0 <= k < n && (#[trigger] dates[k]).instant == m;
            if k < n - 1 {
                assert(dates[k].instant == m);
            }
        }
        if date_at(dates, m, n) is Some {
            if date_at(dates, m, n - 1) is Some {
                let k = choose|k: int| 0 <= k < n - 1 && (#[trigger] dates[k]).instant == m;
                assert(dates[k].instant == m);
            } else {
                assert(dates[n - 1].instant == m);
            }
        }
    }
}

/// Refilling pulls the sources with the instant at their head and leaves
/// the others.
pub proof fn lemma_refilled(srcs: Seq<SourceModel>, m: int, n: int)
    requires
        0 <= n <= srcs.len(),
    ensures
        refilled(srcs, m, n).0.len() == srcs.len(),
        forall|k: int| n <= k < srcs.len() ==> #[trigger] refilled(srcs, m, n).0[k] == srcs[k],
        refilled(srcs, m, n).1 is None ==> forall|k: int|
            0 <= k < n ==> #[trigger] refilled(srcs, m, n).0[k] == (if heads_at(srcs[k], m) {
                pulled(srcs[k]).0
            } else {
                srcs[k]
            }) && (heads_at(srcs[k], m) ==> pulled(srcs[k]).1 is None),
    decreases n,
{
    if n > 0 {
        lemma_refilled(srcs, m, n - 1);
        let (done, e) = refilled(srcs, m, n - 1);
        assert(done[n - 1] == srcs[n - 1]);
        let now = refilled(srcs, m, n);
        if now.1 is None {
            assert(e is None);
            assert forall|k: int| 0 <= k < n implies #[trigger] now.0[k] == (if heads_at(srcs[k], m) {
                pulled(srcs[k]).0
            } else {
                srcs[k]
            }) && (heads_at(srcs[k], m) ==> pulled(srcs[k]).1 is None) by {
                if k < n - 1 {
                    assert(now.0[k] == done[k]);
                }
            }
        }
    }
}

/// Catching up catches every source up.
pub proof fn lemma_all_caught_up(srcs: Seq<SourceModel>, m: int, n: int)
    requires
        0 <= n <= srcs.len(),
    ensures
        all_caught_up(srcs, m, n).0.len() == srcs.len(),
        forall|k: int| n <= k < srcs.len() ==> #[trigger] all_caught_up(srcs, m, n).0[k] == srcs[k],
        all_caught_up(srcs, m, n).1 is None ==> forall|k: int|
            0 <= k < n ==> #[trigger] all_caught_up(srcs, m, n).0[k] == caught_up(srcs[k], m).0 && caught_up(
                srcs[k],
                m,
            ).1 is None,
    decreases n,
{
    if n > 0 {
        lemma_all_caught_up(srcs, m, n - 1);
        let (done, e) = all_caught_up(srcs, m, n - 1);
        assert(done[n - 1] == srcs[n - 1]);
        let now = all_caught_up(srcs, m, n);
        if now.1 is None {
            assert(e is None);
            assert(now.0 == done.update(n - 1, caught_up(done[n - 1], m).0));
            assert forall|k: int| 0 <= k < n implies #[trigger] now.0[k] == caught_up(srcs[k], m).0 && caught_up(
                srcs[k],
                m,
            ).1 is None by {
                if k < n - 1 {
                    assert(now.0[k] == done[k]);
                }
            }
        }
    }
}

/// Opening opens every rule.
pub proof fn lemma_all_opened(rules: Seq<RuleModel>, n: int)
    requires
        0 <= n <= rules.len(),
    ensures
        all_opened(rules, n).1 is None ==> all_opened(rules, n).0.len() == n && forall|k: int|
            0 <= k < n ==> #[trigger] all_opened(rules, n).0[k] == opened(rules[k]).0 && opened(rules[k]).1 is None,
    decreases n,
{
    if n > 0 {
        lemma_all_opened(rules, n - 1);
        let (done, e) = all_opened(rules, n - 1);
        let now = all_opened(rules, n);
        if now.1 is None {
            assert(e is None);
            assert(now.0 == done.push(opened(rules[n - 1]).0));
            assert forall|k: int| 0 <= k < n implies #[trigger] now.0[k] == opened(rules[k]).0 && opened(
                rules[k],
            ).1 is None by {
                if k < n - 1 {
                    assert(now.0[k] == done[k]);
                }
            }
        }
    }
}

/// Whether the instant `x` lies behind the floor, or at it where the floor
/// is not strict. Without a floor every instant does.
pub open spec fn behind(floor: Option<int>, strict: bool, x: int) -> bool {
    match floor {
        None => true,
        Some(l) => if strict {
            x > l
        } else {
            x >= l
        },
    }
}

/// Whether one of the occurrences is at the instant `x`.
pub open spec fn has_instant(s: Seq<InstantModel>, x: int) -> bool {
    exists|k: int| 0 <= k < s.len() && (#[trigger] s[k]).instant == x
}

/// Every occurrence that the rule gives from its start, until its stream
/// ends or fails.
#[verifier::opaque]
pub open spec fn everything(r: RuleModel) -> Seq<InstantModel> {
    gather(r, initial_stream(r), (EMIT_CAP + 1) as nat).occurrences
}

/// Every occurrence that the stream of a source has still to give, behind
/// the one at its head.
#[verifier::opaque]
pub open spec fn rest_of(src: SourceModel) -> Seq<InstantModel> {
    gather(src.rule, src.stream, (EMIT_CAP + 1 - src.stream.emitted) as nat).occurrences
}

/// Whether the source stands for its rule from the floor on: the instants
/// of the rule behind the floor are the one at the head and those that the
/// stream has still to give.
#[verifier::opaque]
pub open spec fn tracks(src: SourceModel, floor: Option<int>, strict: bool) -> bool {
    &&& src.rule.valid()
    &&& coherent(src.rule, src.rule.bound, src.stream)
    &&& src.stream.emitted <= EMIT_CAP
    &&& match src.head {
        Some(h) => src.stream.last == Some(h.instant) && behind(floor, strict, h.instant),
        None => rest_of(src).len() == 0,
    }
    &&& forall|x: int|
        #![trigger behind(floor, strict, x)]
        behind(floor, strict, x) ==> (has_instant(everything(src.rule), x) <==> (heads_at(src, x) || has_instant(
            rest_of(src),
            x,
        )))
}

/// What a stream has still to give lies behind what it gave last.
pub proof fn lemma_rest_behind(src: SourceModel)
    requires
        src.rule.valid(),
        coherent(src.rule, src.rule.bound, src.stream),
    ensures
        instants_ascend(rest_of(src)),
        forall|k: int|
            0 <= k < rest_of(src).len() ==> (src.stream.last matches Some(l) ==> (#[trigger] rest_of(src)[k]).instant
                > l),
{
    reveal(rest_of);
    lemma_gather(src.rule, src.rule.bound, src.stream, (EMIT_CAP + 1 - src.stream.emitted) as nat);
}

/// A pull brings the first of what the stream had still to give to the
/// head.
pub proof fn lemma_pull(src: SourceModel, floor: Option<int>, strict: bool)
    requires
        src.rule.valid(),
        coherent(src.rule, src.rule.bound, src.stream),
        src.stream.emitted <= EMIT_CAP,
        forall|x: int|
            #![trigger behind(floor, strict, x)]
            behind(floor, strict, x) ==> (has_instant(everything(src.rule), x) <==> has_instant(rest_of(src), x)),
        forall|k: int| 0 <= k < rest_of(src).len() ==> behind(floor, strict, (#[trigger] rest_of(src)[k]).instant),
        pulled(src).1 is None,
    ensures
        tracks(pulled(src).0, floor, strict),
        pulled(src).0.rule == src.rule,
{
    reveal(rest_of);
    reveal(tracks);
    let r = src.rule;
    let s = src.stream;
    let n = (EMIT_CAP + 1 - s.emitted) as nat;
    let (s1, step) = advance(r, s);
    let src1 = pulled(src).0;
    lemma_advance(r, r.bound, s);
    lemma_advance_status(r, r.bound, s);
    let rest = rest_of(src);
    assert(rest == gather_with(r, r.bound, s, n).occurrences);
    match step {
        Step::Occurrence(o) => {
            let rest1 = rest_of(src1);
            assert(rest1 == gather_with(r, r.bound, s1, (n - 1) as nat).occurrences);
            assert(rest =~= seq![o] + rest1);
            assert(rest[0] == o);
            assert forall|x: int| #![trigger behind(floor, strict, x)] behind(floor, strict, x) implies (has_instant(
                everything(r),
                x,
            ) <==> (heads_at(src1, x) || has_instant(rest1, x))) by {
                if has_instant(rest, x) {
                    let k = choose|k: int| 0 <= k < rest.len() && (#[trigger] rest[k]).instant == x;
                    if k > 0 {
                        assert(rest1[k - 1].instant == x);
                    }
                }
                if has_instant(rest1, x) {
                    let k = choose|k: int| 0 <= k < rest1.len() && (#[trigger] rest1[k]).instant == x;
                    assert(rest[k + 1].instant == x);
                }
                if heads_at(src1, x) {
                    assert(rest[0].instant == x);
                }
            }
        },
        Step::Done => {
            let n1 = (EMIT_CAP + 1 - s1.emitted) as nat;
            assert(advance(r, s1) == (s1, Step::Done));
            assert(gather_with(r, r.bound, s1, n1).occurrences =~= Seq::<InstantModel>::empty());
            assert(rest =~= Seq::<InstantModel>::empty());
        },
        Step::Failure(e) => {},
    }
}

/// The source of a rule, once opened, stands for all of the rule.
pub proof fn lemma_opened_tracks(r: RuleModel, strict: bool)
    requires
        r.valid(),
        opened(r).1 is None,
    ensures
        tracks(opened(r).0, None, strict),
        opened(r).0.rule == r,
{
    reveal(rest_of);
    reveal(everything);
    reveal(tracks);
    let src = SourceModel { rule: r, stream: initial_stream(r), head: None };
    lemma_initial(r);
    lemma_pull(src, None, strict);
}

/// A source with the instant `m` at its head, once pulled, stands for its
/// rule behind `m`.
pub proof fn lemma_pulled_tracks(src: SourceModel, floor: Option<int>, strict: bool, m: int)
    requires
        tracks(src, floor, strict),
        heads_at(src, m),
        pulled(src).1 is None,
    ensures
        tracks(pulled(src).0, Some(m), true),
        pulled(src).0.rule == src.rule,
{
    reveal(tracks);
    lemma_rest_behind(src);
    let rest = rest_of(src);
    let top: Option<int> = Some(m);
    assert forall|x: int| #![trigger behind(top, true, x)] behind(top, true, x) implies (has_instant(
        everything(src.rule),
        x,
    ) <==> has_instant(rest, x)) by {
        assert(behind(floor, strict, x));
        assert(!heads_at(src, x));
    }
    assert forall|k: int| 0 <= k < rest.len() implies behind(top, true, (#[trigger] rest[k]).instant) by {}
    lemma_pull(src, top, true);
}

/// A source whose head lies behind a new floor stands for its rule from
/// the new floor on.
pub proof fn lemma_kept_tracks(src: SourceModel, floor: Option<int>, strict: bool, m: int, strict2: bool)
    requires
        tracks(src, floor, strict),
        behind(floor, strict, m),
        src.head matches Some(h) ==> behind(Some(m), strict2, h.instant),
    ensures
        tracks(src, Some(m), strict2),
{
    reveal(tracks);
    let top: Option<int> = Some(m);
    assert forall|x: int| #![trigger behind(top, strict2, x)] behind(top, strict2, x) implies (has_instant(
        everything(src.rule),
        x,
    ) <==> (heads_at(src, x) || has_instant(rest_of(src), x))) by {
        assert(behind(floor, strict, x));
    }
}

/// What a source that stands for its rule holds at its head.
pub proof fn lemma_tracks_head(src: SourceModel, floor: Option<int>, strict: bool)
    requires
        tracks(src, floor, strict),
    ensures
        src.rule.valid(),
        coherent(src.rule, src.rule.bound, src.stream),
        src.stream.emitted <= EMIT_CAP,
        src.head matches Some(h) ==> src.stream.last == Some(h.instant) && behind(floor, strict, h.instant),
        src.head is None ==> rest_of(src).len() == 0,
        forall|k: int|
            0 <= k < rest_of(src).len() ==> (src.head matches Some(h) ==> (#[trigger] rest_of(src)[k]).instant
                > h.instant),
{
    reveal(tracks);
    lemma_rest_behind(src);
}

/// Where a source that stands for its rule has an instant behind its
/// floor.
pub proof fn lemma_tracks_at(src: SourceModel, floor: Option<int>, strict: bool, x: int)
    requires
        tracks(src, floor, strict),
        behind(floor, strict, x),
    ensures
        has_instant(everything(src.rule), x) <==> (heads_at(src, x) || has_instant(rest_of(src), x)),
{
    reveal(tracks);
}

/// A source that has caught up with the instant `m` stands for its rule
/// from `m` on, and has `m` at its head exactly where the rule has an
/// occurrence there.
pub proof fn lemma_caught_up_tracks(src: SourceModel, floor: Option<int>, strict: bool, m: int)
    requires
        tracks(src, floor, strict),
        behind(floor, strict, m),
        caught_up(src, m).1 is None,
    ensures
        tracks(caught_up(src, m).0, Some(m), false),
        caught_up(src, m).0.rule == src.rule,
        has_instant(everything(src.rule), m) <==> heads_at(caught_up(src, m).0, m),
    decreases EMIT_CAP - src.stream.emitted,
{
    lemma_tracks_head(src, floor, strict);
    if src.head is Some && src.head->0.instant < m {
        let at = src.head->0.instant;
        let (s1, e) = pulled(src);
        lemma_pulled_tracks(src, floor, strict, at);
        if s1.head is None {
            lemma_kept_tracks(s1, Some(at), true, m, false);
            lemma_tracks_head(s1, Some(m), false);
            lemma_tracks_at(s1, Some(m), false, m);
        } else {
            lemma_advance_status(src.rule, src.rule.bound, src.stream);
            lemma_caught_up_tracks(s1, Some(at), true, m);
        }
    } else {
        lemma_kept_tracks(src, floor, strict, m, false);
        lemma_tracks_at(src, Some(m), false, m);
        if has_instant(rest_of(src), m) {
            let k = choose|k: int| 0 <= k < rest_of(src).len() && (#[trigger] rest_of(src)[k]).instant == m;
            assert(rest_of(src)[k].instant > src.head->0.instant);
        }
    }
}

/// Whether every rule of the set is valid.
pub open spec fn set_valid(set: RuleSetModel) -> bool {
    &&& forall|i: int| 0 <= i < set.rules.len() ==> (#[trigger] set.rules[i]).valid()
    &&& forall|j: int| 0 <= j < set.ex_rules.len() ==> (#[trigger] set.ex_rules[j]).valid()
}

/// Whether an inclusion of the set has the instant `x`: an inclusion rule
/// has an occurrence there, or an inclusion date lies there.
pub open spec fn included(set: RuleSetModel, x: int) -> bool {
    (exists|i: int| 0 <= i < set.rules.len() && has_instant(everything(#[trigger] set.rules[i]), x)) || (exists|
        d: int,
    | 0 <= d < set.dates.len() && (#[trigger] set.dates[d]).instant == x)
}

/// Whether an exclusion of the set has the instant `x`.
pub open spec fn left_out(set: RuleSetModel, x: int) -> bool {
    (exists|j: int| 0 <= j < set.ex_rules.len() && has_instant(everything(#[trigger] set.ex_rules[j]), x)) || (
    exists|d: int| 0 <= d < set.ex_dates.len() && (#[trigger] set.ex_dates[d]).instant == x)
}

/// Whether the instant `x` belongs to the set: to its inclusions and not to
/// its exclusions.
pub open spec fn belongs(set: RuleSetModel, x: int) -> bool {
    included(set, x) && !left_out(set, x)
}

/// Whether no fresh instant before `upto` belongs to the set; without
/// `upto`, no fresh instant at all.
pub open spec fn none_between(set: RuleSetModel, last: Option<int>, upto: Option<int>) -> bool {
    forall|x: int| #![trigger belongs(set, x)] fresh(last, x) && (upto matches Some(m) ==> x < m) ==> !belongs(set, x)
}

/// What holds of the stream of a set at every pull: every source stands
/// for its rule from the last instant dealt with.
#[verifier::opaque]
pub open spec fn set_inv(set: RuleSetModel, s: SetStreamModel) -> bool {
    &&& s.inc.len() == set.rules.len()
    &&& s.ex.len() == set.ex_rules.len()
    &&& forall|i: int|
        0 <= i < s.inc.len() ==> (#[trigger] s.inc[i]).rule == set.rules[i] && tracks(s.inc[i], s.last, true)
    &&& forall|j: int|
        0 <= j < s.ex.len() ==> (#[trigger] s.ex[j]).rule == set.ex_rules[j] && tracks(s.ex[j], s.last, false)
}

/// The next entry of a set stream is the least fresh instant of the
/// inclusions.
pub proof fn lemma_entry(set: RuleSetModel, s: SetStreamModel)
    requires
        set_inv(set, s),
    ensures
        match next_entry(set, s) {
            None => forall|x: int| #![trigger included(set, x)] fresh(s.last, x) ==> !included(set, x),
            Some(m) => {
                &&& fresh(s.last, m)
                &&& included(set, m)
                &&& forall|x: int| #![trigger included(set, x)] fresh(s.last, x) && x < m ==> !included(set, x)
                &&& entry_at(set, s, m) matches Some(o) && o.instant == m
                &&& forall|i: int|
                    0 <= i < s.inc.len() ==> ((#[trigger] s.inc[i]).head matches Some(h) ==> h.instant >= m)
            },
        },
{
    reveal(set_inv);
    let n = s.inc.len() as int;
    let nd = set.dates.len() as int;
    lemma_least_head(s.inc, s.last, n);
    lemma_least_date(set.dates, s.last, nd);
    let lh = least_head(s.inc, s.last, n);
    let ld = least_date(set.dates, s.last, nd);
    // Every head of a source that stands for its rule is fresh.
    assert forall|i: int| 0 <= i < s.inc.len() implies ((#[trigger] s.inc[i]).head matches Some(h) ==> fresh(
        s.last,
        h.instant,
    )) by {
        lemma_tracks_head(s.inc[i], s.last, true);
    }
    assert forall|x: int|
        #![trigger included(set, x)]
        fresh(s.last, x) && (next_entry(set, s) matches Some(m) ==> x < m) implies !included(set, x) by {
        if exists|i: int| 0 <= i < set.rules.len() && has_instant(everything(#[trigger] set.rules[i]), x) {
            let i = choose|i: int| 0 <= i < set.rules.len() && has_instant(everything(#[trigger] set.rules[i]), x);
            assert(s.inc[i].rule == set.rules[i]);
            lemma_tracks_head(s.inc[i], s.last, true);
            lemma_tracks_at(s.inc[i], s.last, true, x);
            if has_instant(rest_of(s.inc[i]), x) {
                let k = choose|k: int|
                    0 <= k < rest_of(s.inc[i]).len() && (#[trigger] rest_of(s.inc[i])[k]).instant == x;
                assert(rest_of(s.inc[i])[k].instant > s.inc[i].head->0.instant);
            }
        }
        if exists|d: int| 0 <= d < set.dates.len() && (#[trigger] set.dates[d]).instant == x {
            let d = choose|d: int| 0 <= d < set.dates.len() && (#[trigger] set.dates[d]).instant == x;
            assert(fresh(s.last, set.dates[d].instant));
        }
    }
    match next_entry(set, s) {
        None => {},
        Some(m) => {
            lemma_head_at(s.inc, m, n);
            lemma_date_at(set.dates, m, nd);
            if lh == Some(m) {
                let k = choose|k: int| 0 <= k < n && heads_at(#[trigger] s.inc[k], m);
                assert(s.inc[k].rule == set.rules[k]);
                lemma_tracks_head(s.inc[k], s.last, true);
                lemma_tracks_at(s.inc[k], s.last, true, m);
                assert(has_instant(everything(set.rules[k]), m));
            } else {
                let d = choose|d: int| 0 <= d < nd && (#[trigger] set.dates[d]).instant == m;
                assert(set.dates[d].instant == m);
            }
        },
    }
}

/// After a refill at the least head every inclusion source stands for its
/// rule behind that instant.
pub proof fn lemma_after_refill(set: RuleSetModel, s: SetStreamModel, m: int)
    requires
        set_inv(set, s),
        fresh(s.last, m),
        forall|i: int| 0 <= i < s.inc.len() ==> ((#[trigger] s.inc[i]).head matches Some(h) ==> h.instant >= m),
        refilled(s.inc, m, s.inc.len() as int).1 is None,
    ensures
        refilled(s.inc, m, s.inc.len() as int).0.len() == set.rules.len(),
        forall|i: int|
            0 <= i < set.rules.len() ==> (#[trigger] refilled(s.inc, m, s.inc.len() as int).0[i]).rule
                == set.rules[i] && tracks(refilled(s.inc, m, s.inc.len() as int).0[i], Some(m), true),
{
    reveal(set_inv);
    let n = s.inc.len() as int;
    lemma_refilled(s.inc, m, n);
    let inc1 = refilled(s.inc, m, n).0;
    assert forall|i: int| 0 <= i < set.rules.len() implies (#[trigger] inc1[i]).rule == set.rules[i] && tracks(
        inc1[i],
        Some(m),
        true,
    ) by {
        let src = s.inc[i];
        assert(src.rule == set.rules[i]);
        if heads_at(src, m) {
            lemma_pulled_tracks(src, s.last, true, m);
        } else {
            lemma_kept_tracks(src, s.last, true, m, true);
        }
    }
}

/// After catching up with an instant every exclusion source stands for
/// its rule from that instant on, and the instant is excluded exactly where
/// an exclusion of the set has it.
pub proof fn lemma_after_catch_up(set: RuleSetModel, s: SetStreamModel, m: int)
    requires
        set_inv(set, s),
        fresh(s.last, m),
        all_caught_up(s.ex, m, s.ex.len() as int).1 is None,
    ensures
        all_caught_up(s.ex, m, s.ex.len() as int).0.len() == set.ex_rules.len(),
        forall|j: int|
            0 <= j < set.ex_rules.len() ==> (#[trigger] all_caught_up(s.ex, m, s.ex.len() as int).0[j]).rule
                == set.ex_rules[j] && tracks(all_caught_up(s.ex, m, s.ex.len() as int).0[j], Some(m), false),
        excluded(set, all_caught_up(s.ex, m, s.ex.len() as int).0, m) <==> left_out(set, m),
{
    reveal(set_inv);
    let n = s.ex.len() as int;
    lemma_all_caught_up(s.ex, m, n);
    let ex1 = all_caught_up(s.ex, m, n).0;
    assert forall|j: int| 0 <= j < set.ex_rules.len() implies (#[trigger] ex1[j]).rule == set.ex_rules[j] && tracks(
        ex1[j],
        Some(m),
        false,
    ) && (has_instant(everything(set.ex_rules[j]), m) <==> heads_at(ex1[j], m)) by {
        let src = s.ex[j];
        assert(src.rule == set.ex_rules[j]);
        lemma_caught_up_tracks(src, s.last, false, m);
    }
    lemma_head_at(ex1, m, n);
    lemma_date_at(set.ex_dates, m, set.ex_dates.len() as int);
    if head_at(ex1, m, n) is Some {
        let j = choose|j: int| 0 <= j < n && heads_at(#[trigger] ex1[j], m);
        assert(has_instant(everything(set.ex_rules[j]), m));
    }
    if exists|j: int| 0 <= j < set.ex_rules.len() && has_instant(everything(#[trigger] set.ex_rules[j]), m) {
        let j = choose|j: int| 0 <= j < set.ex_rules.len() && has_instant(everything(#[trigger] set.ex_rules[j]), m);
        assert(heads_at(ex1[j], m));
    }
}

/// What one pull on the stream of a set gives: the least fresh instant
/// that belongs to the set, or the end where no fresh instant does.
pub proof fn lemma_set_advance(set: RuleSetModel, s: SetStreamModel)
    requires
        set_inv(set, s),
        s.status is Running,
    ensures
        match set_advance(set, s).1 {
            Step::Occurrence(o) => {
                &&& set_inv(set, set_advance(set, s).0)
                &&& set_advance(set, s).0.status is Running
                &&& set_advance(set, s).0.last == Some(o.instant)
                &&& fresh(s.last, o.instant)
                &&& belongs(set, o.instant)
                &&& none_between(set, s.last, Some(o.instant))
            },
            Step::Done => none_between(set, s.last, None),
            Step::Failure(e) => true,
        },
    decreases set_measure(set, s),
{
    lemma_entry(set, s);
    match next_entry(set, s) {
        None => {},
        Some(m) => {
            let (inc, e1) = refilled(s.inc, m, s.inc.len() as int);
            if e1 is None {
                lemma_after_refill(set, s, m);
                let (ex, e2) = all_caught_up(s.ex, m, s.ex.len() as int);
                if e2 is None {
                    lemma_after_catch_up(set, s, m);
                    let entry = entry_at(set, s, m);
                    let s1 = SetStreamModel { inc, ex, last: Some(m), ..s };
                    assert(set_inv(set, s1)) by {
                        reveal(set_inv);
                    }
                    if excluded(set, ex, m) || entry is None {
                        lemma_round(set, s, m, s1);
                        lemma_set_advance(set, s1);
                        assert(!belongs(set, m));
                    }
                }
            }
        },
    }
}

/// What a run of pulls on the stream of a set gives: fresh instants that
/// belong to the set, in strictly ascending order; and every such instant,
/// where the run is not cut short.
pub proof fn lemma_set_gather(set: RuleSetModel, s: SetStreamModel, n: nat)
    requires
        set_inv(set, s),
        s.status is Running,
    ensures
        instants_ascend(set_gather(set, s, n).occurrences),
        forall|k: int|
            0 <= k < set_gather(set, s, n).occurrences.len() ==> fresh(
                s.last,
                (#[trigger] set_gather(set, s, n).occurrences[k]).instant,
            ) && belongs(set, set_gather(set, s, n).occurrences[k].instant),
        set_gather(set, s, n).failure is None && set_gather(set, s, n).occurrences.len() < n ==> forall|x: int|
            #![trigger belongs(set, x)]
            fresh(s.last, x) && belongs(set, x) ==> has_instant(set_gather(set, s, n).occurrences, x),
    decreases n,
{
    if n > 0 {
        lemma_set_advance(set, s);
        let (s1, step) = set_advance(set, s);
        let g = set_gather(set, s, n);
        match step {
            Step::Occurrence(o) => {
                let rest = set_gather(set, s1, (n - 1) as nat);
                lemma_set_gather(set, s1, (n - 1) as nat);
                assert(g.occurrences =~= seq![o] + rest.occurrences);
                assert forall|k: int| 0 <= k < g.occurrences.len() implies fresh(
                    s.last,
                    (#[trigger] g.occurrences[k]).instant,
                ) && belongs(set, g.occurrences[k].instant) by {
                    if k > 0 {
                        assert(g.occurrences[k] == rest.occurrences[k - 1]);
                    }
                }
                assert forall|i: int, j: int| 0 <= i < j < g.occurrences.len() implies g.occurrences[i].instant
                    < g.occurrences[j].instant by {
                    assert(g.occurrences[j] == rest.occurrences[j - 1]);
                    if i > 0 {
                        assert(g.occurrences[i] == rest.occurrences[i - 1]);
                    }
                }
                if g.failure is None && g.occurrences.len() < n {
                    assert forall|x: int| #![trigger belongs(set, x)] fresh(s.last, x) && belongs(
                        set,
                        x,
                    ) implies has_instant(g.occurrences, x) by {
                        if x == o.instant {
                            assert(g.occurrences[0].instant == x);
                        } else {
                            assert(x > o.instant);
                            assert(has_instant(rest.occurrences, x));
                            let k = choose|k: int|
                                0 <= k < rest.occurrences.len() && (#[trigger] rest.occurrences[k]).instant == x;
                            assert(g.occurrences[k + 1].instant == x);
                        }
                    }
                }
            },
            _ => {},
        }
    }
}

/// The stream of a set of valid rules, where it starts running, has every
/// source stand for all of its rule.
pub proof fn lemma_initial_set(set: RuleSetModel)
    requires
        set_valid(set),
        initial_set_stream(set).status is Running,
    ensures
        set_inv(set, initial_set_stream(set)),
{
    reveal(set_inv);
    let s = initial_set_stream(set);
    lemma_all_opened(set.rules, set.rules.len() as int);
    lemma_all_opened(set.ex_rules, set.ex_rules.len() as int);
    assert forall|i: int| 0 <= i < s.inc.len() implies (#[trigger] s.inc[i]).rule == set.rules[i] && tracks(
        s.inc[i],
        s.last,
        true,
    ) by {
        lemma_opened_tracks(set.rules[i], true);
    }
    assert forall|j: int| 0 <= j < s.ex.len() implies (#[trigger] s.ex[j]).rule == set.ex_rules[j] && tracks(
        s.ex[j],
        s.last,
        false,
    ) by {
        lemma_opened_tracks(set.ex_rules[j], false);
    }
}

/// The occurrences of a rule set ascend strictly, and each belongs to the
/// set: an inclusion has it and no exclusion does.
pub proof fn lemma_set_sound(set: RuleSetModel, limit: nat)
    requires
        set_valid(set),
    ensures
        set_all_outcome(set, limit) matches Ok(seq) ==> instants_ascend(seq) && forall|k: int|
            0 <= k < seq.len() ==> belongs(set, (#[trigger] seq[k]).instant),
{
    let s = initial_set_stream(set);
    if s.status is Running {
        lemma_initial_set(set);
        lemma_set_gather(set, s, limit);
    } else {
        assert(set_gather(set, s, limit).occurrences.len() == 0);
    }
}

/// Set composition: the stream of a rule set, run to its end, gives
/// exactly the instants that an inclusion rule or an inclusion date has
/// and no exclusion rule or exclusion date has. A run has come to the end
/// of the stream where it gave fewer occurrences than it was asked for.
pub proof fn lemma_set_composition(set: RuleSetModel, limit: nat)
    requires
        set_valid(set),
    ensures
        set_gather(set, initial_set_stream(set), limit).failure is None && set_gather(
            set,
            initial_set_stream(set),
            limit,
        ).occurrences.len() < limit ==> forall|x: int|
            #![trigger belongs(set, x)]
            has_instant(set_gather(set, initial_set_stream(set), limit).occurrences, x) <==> belongs(set, x),
{
    let s = initial_set_stream(set);
    let g = set_gather(set, s, limit);
    if s.status is Running {
        lemma_initial_set(set);
        lemma_set_gather(set, s, limit);
        assert forall|x: int| #![trigger belongs(set, x)] has_instant(g.occurrences, x) implies belongs(set, x) by {
            let k = choose|k: int| 0 <= k < g.occurrences.len() && (#[trigger] g.occurrences[k]).instant == x;
            assert(belongs(set, g.occurrences[k].instant));
        }
    }
}

/// The stream of a set that has failed fails in the same way at every
/// later pull, and one that has ended stays ended.
pub proof fn lemma_set_poisoned(set: RuleSetModel, s: SetStreamModel)
    ensures
        ({
            let (s1, step) = set_advance(set, s);
            &&& (step matches Step::Failure(e) ==> set_advance(set, s1) == (s1, Step::Failure(e)))
            &&& (step is Done ==> set_advance(set, s1) == (s1, Step::Done))
        }),
    decreases set_measure(set, s),
{
    if s.status is Running {
        match next_entry(set, s) {
            None => {},
            Some(m) => {
                let entry = entry_at(set, s, m);
                let (inc, e1) = refilled(s.inc, m, s.inc.len() as int);
                if e1 is None {
                    let (ex, e2) = all_caught_up(s.ex, m, s.ex.len() as int);
                    if e2 is None && (excluded(set, ex, m) || entry is None) {
                        let s1 = SetStreamModel { inc, ex, last: Some(m), ..s };
                        lemma_round(set, s, m, s1);
                        lemma_set_poisoned(set, s1);
                    }
                }
            },
        }
    }
}

/// A sweep of a window on the stream of a set gives what a run to the end
/// of the stream gives within the window.
pub proof fn lemma_set_sweep_of_run(
    set: RuleSetModel,
    s: SetStreamModel,
    n: nat,
    lo: Option<int>,
    hi: int,
    inclusive: bool,
)
    requires
        set_inv(set, s),
        s.status is Running,
        set_gather(set, s, n).failure is None,
        set_gather(set, s, n).occurrences.len() < n,
    ensures
        set_sweep(set, s, lo, hi, inclusive).failure is None,
        set_sweep(set, s, lo, hi, inclusive).occurrences == in_window(
            set_gather(set, s, n).occurrences,
            lo,
            hi,
            inclusive,
        ),
    decreases n,
{
    lemma_set_advance(set, s);
    lemma_set_gather(set, s, n);
    let (s1, step) = set_advance(set, s);
    let g = set_gather(set, s, n);
    match step {
        Step::Occurrence(o) => {
            let g1 = set_gather(set, s1, (n - 1) as nat);
            assert(g.occurrences =~= seq![o] + g1.occurrences);
            assert(g.occurrences.skip(1) =~= g1.occurrences);
            assert(g.occurrences[0] == o);
            if past(o.instant, hi, inclusive) {
                assert forall|i: int| 0 <= i < g.occurrences.len() implies past(
                    (#[trigger] g.occurrences[i]).instant,
                    hi,
                    inclusive,
                ) by {
                    if i > 0 {
                        assert(g.occurrences[0].instant < g.occurrences[i].instant);
                    }
                }
                lemma_all_past(g.occurrences, lo, hi, inclusive);
            } else {
                lemma_set_sweep_of_run(set, s1, (n - 1) as nat, lo, hi, inclusive);
            }
        },
        _ => {},
    }
}

/// The first occurrence of a set that reaches an instant is the first
/// such occurrence of a run to the end of its stream.
pub proof fn lemma_set_first_of_run(set: RuleSetModel, s: SetStreamModel, n: nat, lo: int, inclusive: bool)
    requires
        set_inv(set, s),
        s.status is Running,
        set_gather(set, s, n).failure is None,
        set_gather(set, s, n).occurrences.len() < n,
    ensures
        set_first_reaching(set, s, lo, inclusive) == Ok::<Option<InstantModel>, RuleError>(
            first_in(set_gather(set, s, n).occurrences, lo, inclusive),
        ),
    decreases n,
{
    lemma_set_advance(set, s);
    let (s1, step) = set_advance(set, s);
    let g = set_gather(set, s, n);
    match step {
        Step::Occurrence(o) => {
            let g1 = set_gather(set, s1, (n - 1) as nat);
            assert(g.occurrences =~= seq![o] + g1.occurrences);
            assert(g.occurrences.skip(1) =~= g1.occurrences);
            assert(g.occurrences[0] == o);
            if !reaches(o.instant, lo, inclusive) {
                lemma_set_first_of_run(set, s1, (n - 1) as nat, lo, inclusive);
            }
        },
        _ => {},
    }
}

/// The window queries of a rule set agree with `all`: where `all` returns
/// every occurrence of the set, `between` returns those of them within the
/// window, `before` the last of them up to its instant, and `after` the
/// first of them from its instant on.
pub proof fn lemma_set_windows_agree(set: RuleSetModel, limit: nat, lo: int, hi: int, inclusive: bool)
    requires
        set_valid(set),
        set_all_outcome(set, limit) is Ok,
        set_all_outcome(set, limit)->Ok_0.len() < limit,
    ensures
        set_between_outcome(set, lo, hi, inclusive) == Ok::<Seq<InstantModel>, RuleError>(
            in_window(set_all_outcome(set, limit)->Ok_0, Some(lo), hi, inclusive),
        ),
        set_before_outcome(set, hi, inclusive) == Ok::<Option<InstantModel>, RuleError>(
            if in_window(set_all_outcome(set, limit)->Ok_0, None, hi, inclusive).len() > 0 {
                Some(in_window(set_all_outcome(set, limit)->Ok_0, None, hi, inclusive).last())
            } else {
                None
            },
        ),
        set_after_outcome(set, lo, inclusive) == Ok::<Option<InstantModel>, RuleError>(
            first_in(set_all_outcome(set, limit)->Ok_0, lo, inclusive),
        ),
{
    let s = initial_set_stream(set);
    assert(s.status is Running);
    lemma_initial_set(set);
    lemma_set_sweep_of_run(set, s, limit, Some(lo), hi, inclusive);
    lemma_set_sweep_of_run(set, s, limit, None, hi, inclusive);
    lemma_set_first_of_run(set, s, limit, lo, inclusive);
}

} // verus!
