//! What a rule set means: the stream that merges the streams of its
//! inclusion rules and its inclusion dates in ascending order of their
//! instants, and drops what an exclusion rule or an exclusion date has.

use vstd::prelude::*;
use crate::error::RuleError;
use crate::instant::InstantModel;
use crate::model::RuleModel;
use crate::query::{after_prefix, past, reaches, Run};
use crate::stream::{advance, initial_stream, lemma_advance_status, EMIT_CAP, Status, Step, StreamModel};

verus! {

/// A rule set: inclusion rules, inclusion dates, exclusion rules and
/// exclusion dates.
pub struct RuleSetModel {
    pub rules: Seq<RuleModel>,
    pub dates: Seq<InstantModel>,
    pub ex_rules: Seq<RuleModel>,
    pub ex_dates: Seq<InstantModel>,
}

/// The stream of one rule of a set, with the occurrence at its head: the
/// next that the stream has to give, already pulled.
pub struct SourceModel {
    pub rule: RuleModel,
    pub stream: StreamModel,
    pub head: Option<InstantModel>,
}

/// The source after one pull: the head is the occurrence that the pull
/// gave, if it gave one; the error is the failure of the stream.
pub open spec fn pulled(src: SourceModel) -> (SourceModel, Option<RuleError>) {
    let (s1, step) = advance(src.rule, src.stream);
    match step {
        Step::Occurrence(o) => (SourceModel { stream: s1, head: Some(o), ..src }, None),
        Step::Done => (SourceModel { stream: s1, head: None, ..src }, None),
        Step::Failure(e) => (SourceModel { stream: s1, head: None, ..src }, Some(e)),
    }
}

/// The source of a rule, with the first occurrence at its head.
pub open spec fn opened(r: RuleModel) -> (SourceModel, Option<RuleError>) {
    pulled(SourceModel { rule: r, stream: initial_stream(r), head: None })
}

/// The source once its head does not lie before the instant `m`: pulled
/// while it did.
pub open spec fn caught_up(src: SourceModel, m: int) -> (SourceModel, Option<RuleError>)
    decreases EMIT_CAP - src.stream.emitted,
{
    if src.head matches Some(h) && h.instant < m {
        let (s1, e) = pulled(src);
        if e is Some || s1.head is None {
            (s1, e)
        } else {
            proof {
                lemma_advance_status(src.rule, src.rule.bound, src.stream);
            }
            caught_up(s1, m)
        }
    } else {
        (src, None)
    }
}

/// Whether the source has the instant `m` at its head.
pub open spec fn heads_at(src: SourceModel, m: int) -> bool {
    src.head matches Some(h) && h.instant == m
}

/// Whether an entry at the instant `x` may follow the last instant that a
/// set stream has dealt with.
pub open spec fn fresh(last: Option<int>, x: int) -> bool {
    match last {
        Some(l) => x > l,
        None => true,
    }
}

/// The lesser of two instants, of which either may be missing.
pub open spec fn lesser(a: Option<int>, b: Option<int>) -> Option<int> {
    match (a, b) {
        (Some(x), Some(y)) => Some(if x <= y {
            x
        } else {
            y
        }),
        (Some(x), None) => Some(x),
        (None, y) => y,
    }
}

/// The least fresh instant at the head of one of the first `n` sources.
pub open spec fn least_head(srcs: Seq<SourceModel>, last: Option<int>, n: int) -> Option<int>
    decreases n,
{
    if n <= 0 {
        None
    } else {
        lesser(
            least_head(srcs, last, n - 1),
            match srcs[n - 1].head {
                Some(h) => if fresh(last, h.instant) {
                    Some(h.instant)
                } else {
                    None
                },
                None => None,
            },
        )
    }
}

/// The least fresh instant of one of the first `n` dates.
pub open spec fn least_date(dates: Seq<InstantModel>, last: Option<int>, n: int) -> Option<int>
    decreases n,
{
    if n <= 0 {
        None
    } else {
        lesser(
            least_date(dates, last, n - 1),
            if fresh(last, dates[n - 1].instant) {
                Some(dates[n - 1].instant)
            } else {
                None
            },
        )
    }
}

/// The head at the instant `m` of the first of the first `n` sources that
/// has one.
pub open spec fn head_at(srcs: Seq<SourceModel>, m: int, n: int) -> Option<InstantModel>
    decreases n,
{
    if n <= 0 {
        None
    } else {
        match head_at(srcs, m, n - 1) {
            Some(h) => Some(h),
            None => if heads_at(srcs[n - 1], m) {
                srcs[n - 1].head
            } else {
                None
            },
        }
    }
}

/// The first of the first `n` dates at the instant `m`.
pub open spec fn date_at(dates: Seq<InstantModel>, m: int, n: int) -> Option<InstantModel>
    decreases n,
{
    if n <= 0 {
        None
    } else {
        match date_at(dates, m, n - 1) {
            Some(d) => Some(d),
            None => if dates[n - 1].instant == m {
                Some(dates[n - 1])
            } else {
                None
            },
        }
    }
}

/// The first `n` sources once those with the instant `m` at their head
/// have been pulled. The error is that of the first pull that failed;
/// the sources behind it are left as they were.
pub open spec fn refilled(srcs: Seq<SourceModel>, m: int, n: int) -> (Seq<SourceModel>, Option<RuleError>)
    decreases n,
{
    if n <= 0 {
        (srcs, None)
    } else {
        let (done, e) = refilled(srcs, m, n - 1);
        if e is Some || !heads_at(done[n - 1], m) {
            (done, e)
        } else {
            let (src, e1) = pulled(done[n - 1]);
            (done.update(n - 1, src), e1)
        }
    }
}

/// The first `n` sources once each has caught up with the instant `m`. The
/// error is that of the first source that failed; the sources behind it
/// are left as they were.
pub open spec fn all_caught_up(srcs: Seq<SourceModel>, m: int, n: int) -> (Seq<SourceModel>, Option<RuleError>)
    decreases n,
{
    if n <= 0 {
        (srcs, None)
    } else {
        let (done, e) = all_caught_up(srcs, m, n - 1);
        if e is Some {
            (done, e)
        } else {
            let (src, e1) = caught_up(done[n - 1], m);
            (done.update(n - 1, src), e1)
        }
    }
}

/// The sources of the first `n` rules, each with its first occurrence at
/// the head. The error is that of the first stream that failed.
pub open spec fn all_opened(rules: Seq<RuleModel>, n: int) -> (Seq<SourceModel>, Option<RuleError>)
    decreases n,
{
    if n <= 0 {
        (Seq::empty(), None)
    } else {
        let (done, e) = all_opened(rules, n - 1);
        if e is Some {
            (done, e)
        } else {
            let (src, e1) = opened(rules[n - 1]);
            (done.push(src), e1)
        }
    }
}

/// The state of the stream of a rule set.
pub struct SetStreamModel {
    /// The sources of the inclusion rules.
    pub inc: Seq<SourceModel>,
    /// The sources of the exclusion rules.
    pub ex: Seq<SourceModel>,
    /// The last instant dealt with: given out or dropped.
    pub last: Option<int>,
    pub status: Status,
}

/// The stream of a rule set before the first pull: every rule has its
/// first occurrence at the head. Where a stream fails at once, the stream
/// of the set has failed.
pub open spec fn initial_set_stream(set: RuleSetModel) -> SetStreamModel {
    let (inc, e1) = all_opened(set.rules, set.rules.len() as int);
    let (ex, e2) = if e1 is Some {
        (Seq::empty(), None)
    } else {
        all_opened(set.ex_rules, set.ex_rules.len() as int)
    };
    SetStreamModel {
        inc,
        ex,
        last: None,
        status: match (e1, e2) {
            (Some(e), _) => Status::Failed(e),
            (None, Some(e)) => Status::Failed(e),
            (None, None) => Status::Running,
        },
    }
}

/// The next entry of a set stream: the least fresh instant at the head of
/// an inclusion source or of an inclusion date.
pub open spec fn next_entry(set: RuleSetModel, s: SetStreamModel) -> Option<int> {
    lesser(
        least_head(s.inc, s.last, s.inc.len() as int),
        least_date(set.dates, s.last, set.dates.len() as int),
    )
}

/// What stands for the entries at the instant `m`: the head of the first
/// inclusion source that has one there, else the first inclusion date
/// there.
pub open spec fn entry_at(set: RuleSetModel, s: SetStreamModel, m: int) -> Option<InstantModel> {
    match head_at(s.inc, m, s.inc.len() as int) {
        Some(h) => Some(h),
        None => date_at(set.dates, m, set.dates.len() as int),
    }
}

/// Whether the instant `m` is excluded: an exclusion source has it at its
/// head, or an exclusion date lies there.
pub open spec fn excluded(set: RuleSetModel, ex: Seq<SourceModel>, m: int) -> bool {
    head_at(ex, m, ex.len() as int) is Some || date_at(set.ex_dates, m, set.ex_dates.len() as int) is Some
}

/// The stream of a set with another status.
pub open spec fn set_with_status(s: SetStreamModel, status: Status) -> SetStreamModel {
    SetStreamModel { status, ..s }
}

/// What an inclusion source has still to give at most: the occurrence at
/// its head and what the cap of its stream leaves behind it; nothing where
/// its head is empty.
pub open spec fn weight(src: SourceModel) -> nat {
    if src.head is Some {
        if src.stream.emitted < EMIT_CAP {
            (EMIT_CAP - src.stream.emitted + 1) as nat
        } else {
            1
        }
    } else {
        0
    }
}

/// What the first `n` sources have still to give at most.
pub open spec fn total_weight(srcs: Seq<SourceModel>, n: int) -> nat
    decreases n,
{
    if n <= 0 {
        0
    } else {
        total_weight(srcs, n - 1) + weight(srcs[n - 1])
    }
}

/// How many of the first `n` dates are fresh.
pub open spec fn fresh_count(dates: Seq<InstantModel>, last: Option<int>, n: int) -> nat
    decreases n,
{
    if n <= 0 {
        0
    } else if fresh(last, dates[n - 1].instant) {
        fresh_count(dates, last, n - 1) + 1
    } else {
        fresh_count(dates, last, n - 1)
    }
}

/// What the stream of a set has still to deal with at most: what its
/// inclusion sources have still to give, and its fresh inclusion dates. The
/// stream of a set has no cap of its own; this is what bounds it.
pub open spec fn set_measure(set: RuleSetModel, s: SetStreamModel) -> nat {
    total_weight(s.inc, s.inc.len() as int) + fresh_count(set.dates, s.last, set.dates.len() as int)
}

/// The least fresh head is a fresh instant at the head of a source, and no
/// fresh head lies before it.
pub proof fn lemma_least_head(srcs: Seq<SourceModel>, last: Option<int>, n: int)
    requires
        0 <= n <= srcs.len(),
    ensures
        match least_head(srcs, last, n) {
            Some(m) => fresh(last, m) && (exists|k: int| 0 <= k < n && heads_at(#[trigger] srcs[k], m)) && forall|
                k: int,
            |
                0 <= k < n ==> ((#[trigger] srcs[k]).head matches Some(h) ==> !fresh(last, h.instant) || h.instant
                    >= m),
            None => forall|k: int|
                0 <= k < n ==> ((#[trigger] srcs[k]).head matches Some(h) ==> !fresh(last, h.instant)),
        },
    decreases n,
{
    if n > 0 {
        lemma_least_head(srcs, last, n - 1);
        match least_head(srcs, last, n) {
            Some(m) => {
                if heads_at(srcs[n - 1], m) {
                } else {
                    let k = choose|k: int| 0 <= k < n - 1 && heads_at(#[trigger] srcs[k], m);
                    assert(heads_at(srcs[k], m));
                }
            },
            None => {},
        }
    }
}

/// The least fresh date is a fresh date, and no fresh date lies before it.
pub proof fn lemma_least_date(dates: Seq<InstantModel>, last: Option<int>, n: int)
    requires
        0 <= n <= dates.len(),
    ensures
        match least_date(dates, last, n) {
            Some(m) => fresh(last, m) && (exists|k: int| 0 <= k < n && (#[trigger] dates[k]).instant == m)
                && forall|k: int| 0 <= k < n && fresh(last, (#[trigger] dates[k]).instant) ==> dates[k].instant >= m,
            None => forall|k: int| 0 <= k < n ==> !fresh(last, (#[trigger] dates[k]).instant),
        },
    decreases n,
{
    if n > 0 {
        lemma_least_date(dates, last, n - 1);
        match least_date(dates, last, n) {
            Some(m) => {
                if dates[n - 1].instant == m {
                } else {
                    let k = choose|k: int| 0 <= k < n - 1 && (#[trigger] dates[k]).instant == m;
                    assert(dates[k].instant == m);
                }
            },
            None => {},
        }
    }
}

/// A pull takes from what a source has still to give.
pub proof fn lemma_weight_pulled(src: SourceModel)
    requires
        src.head is Some,
        pulled(src).1 is None,
    ensures
        weight(pulled(src).0) < weight(src),
{
    lemma_advance_status(src.rule, src.rule.bound, src.stream);
}

/// Sources that agree among the first `n` have as much to give there.
pub proof fn lemma_total_weight_same(a: Seq<SourceModel>, b: Seq<SourceModel>, n: int)
    requires
        0 <= n <= a.len(),
        n <= b.len(),
        forall|k: int| 0 <= k < n ==> #[trigger] a[k] == b[k],
    ensures
        total_weight(a, n) == total_weight(b, n),
    decreases n,
{
    if n > 0 {
        lemma_total_weight_same(a, b, n - 1);
    }
}

/// A refill takes from what the sources have still to give, where a source
/// has the instant at its head.
pub proof fn lemma_refilled_weight(srcs: Seq<SourceModel>, m: int, n: int)
    requires
        0 <= n <= srcs.len(),
        refilled(srcs, m, n).1 is None,
    ensures
        refilled(srcs, m, n).0.len() == srcs.len(),
        forall|k: int| n <= k < srcs.len() ==> #[trigger] refilled(srcs, m, n).0[k] == srcs[k],
        total_weight(refilled(srcs, m, n).0, n) <= total_weight(srcs, n),
        (exists|k: int| 0 <= k < n && heads_at(#[trigger] srcs[k], m)) ==> total_weight(refilled(srcs, m, n).0, n)
            < total_weight(srcs, n),
    decreases n,
{
    if n > 0 {
        let (done, e) = refilled(srcs, m, n - 1);
        lemma_refilled_weight(srcs, m, n - 1);
        let now = refilled(srcs, m, n).0;
        assert(done[n - 1] == srcs[n - 1]);
        lemma_total_weight_same(now, done, n - 1);
        if heads_at(srcs[n - 1], m) {
            lemma_weight_pulled(srcs[n - 1]);
        } else if exists|k: int| 0 <= k < n && heads_at(#[trigger] srcs[k], m) {
            let k = choose|k: int| 0 <= k < n && heads_at(#[trigger] srcs[k], m);
            assert(heads_at(srcs[k], m));
        }
    }
}

/// A later instant leaves no more dates fresh, and fewer where a date lies
/// at it.
pub proof fn lemma_fresh_count(dates: Seq<InstantModel>, last: Option<int>, m: int, n: int)
    requires
        0 <= n <= dates.len(),
        fresh(last, m),
    ensures
        fresh_count(dates, Some(m), n) <= fresh_count(dates, last, n),
        (exists|k: int| 0 <= k < n && (#[trigger] dates[k]).instant == m) ==> fresh_count(dates, Some(m), n)
            < fresh_count(dates, last, n),
    decreases n,
{
    if n > 0 {
        lemma_fresh_count(dates, last, m, n - 1);
        if dates[n - 1].instant != m && exists|k: int| 0 <= k < n && (#[trigger] dates[k]).instant == m {
            let k = choose|k: int| 0 <= k < n && (#[trigger] dates[k]).instant == m;
            assert(dates[k].instant == m);
        }
    }
}

/// Dealing with the next entry leaves the stream of a set less to deal
/// with.
pub proof fn lemma_round(set: RuleSetModel, s: SetStreamModel, m: int, s1: SetStreamModel)
    requires
        next_entry(set, s) == Some(m),
        refilled(s.inc, m, s.inc.len() as int).1 is None,
        s1.inc == refilled(s.inc, m, s.inc.len() as int).0,
        s1.last == Some(m),
    ensures
        set_measure(set, s1) < set_measure(set, s),
{
    let n = s.inc.len() as int;
    let nd = set.dates.len() as int;
    lemma_least_head(s.inc, s.last, n);
    lemma_least_date(set.dates, s.last, nd);
    lemma_refilled_weight(s.inc, m, n);
    lemma_fresh_count(set.dates, s.last, m, nd);
}

/// One pull on the stream `s` of the rule set `set`: the stream
/// afterwards, and what the pull gave. The stream fails only where the
/// stream of one of its rules does.
pub open spec fn set_advance(set: RuleSetModel, s: SetStreamModel) -> (SetStreamModel, Step)
    decreases set_measure(set, s),
{
    match s.status {
        Status::Finished => (s, Step::Done),
        Status::Failed(e) => (s, Step::Failure(e)),
        Status::Running => {
            match next_entry(set, s) {
                None => (set_with_status(s, Status::Finished), Step::Done),
                Some(m) => {
                    let entry = entry_at(set, s, m);
                    let (inc, e1) = refilled(s.inc, m, s.inc.len() as int);
                    if e1 is Some {
                        (
                            SetStreamModel { inc, last: Some(m), status: Status::Failed(e1->0), ..s },
                            Step::Failure(e1->0),
                        )
                    } else {
                        let (ex, e2) = all_caught_up(s.ex, m, s.ex.len() as int);
                        if e2 is Some {
                            (
                                SetStreamModel { inc, ex, last: Some(m), status: Status::Failed(e2->0), ..s },
                                Step::Failure(e2->0),
                            )
                        } else if excluded(set, ex, m) || entry is None {
                            proof {
                                lemma_round(set, s, m, SetStreamModel { inc, ex, last: Some(m), ..s });
                            }
                            set_advance(set, SetStreamModel { inc, ex, last: Some(m), ..s })
                        } else {
                            (SetStreamModel { inc, ex, last: Some(m), ..s }, Step::Occurrence(entry->0))
                        }
                    }
                },
            }
        },
    }
}

/// What up to `n` pulls on the stream `s` of a rule set give: the run ends
/// with the stream, with the first error, and after `n` occurrences.
pub open spec fn set_gather(set: RuleSetModel, s: SetStreamModel, n: nat) -> Run
    decreases n,
{
    if n == 0 {
        Run { occurrences: Seq::empty(), failure: None }
    } else {
        let (s1, step) = set_advance(set, s);
        match step {
            Step::Occurrence(o) => after_prefix(seq![o], set_gather(set, s1, (n - 1) as nat)),
            Step::Done => Run { occurrences: Seq::empty(), failure: None },
            Step::Failure(e) => Run { occurrences: Seq::empty(), failure: Some(e) },
        }
    }
}

/// Whether one of the first `n` rules has no bound.
pub open spec fn some_unbounded(rules: Seq<RuleModel>, n: int) -> bool {
    exists|i: int| 0 <= i < n && (#[trigger] rules[i]).bound is Unbounded
}

/// What `all` returns for a rule set and a limit: the occurrences of the
/// set from its start, `limit` of them at most. It is an error where a
/// stream fails on the way, and where an inclusion rule has no bound and
/// the set has `limit` occurrences or more.
pub open spec fn set_all_outcome(set: RuleSetModel, limit: nat) -> Result<Seq<InstantModel>, RuleError> {
    let g = set_gather(set, initial_set_stream(set), limit);
    match g.failure {
        Some(e) => Err(e),
        None => if g.occurrences.len() == limit && some_unbounded(set.rules, set.rules.len() as int) {
            Err(RuleError::BoundExceededError)
        } else {
            Ok(g.occurrences)
        },
    }
}

/// A pull on the stream of a set that gives an occurrence leaves the
/// stream less to deal with.
pub proof fn lemma_set_advance_decreases(set: RuleSetModel, s: SetStreamModel)
    ensures
        set_advance(set, s).1 is Occurrence ==> set_measure(set, set_advance(set, s).0) < set_measure(set, s),
    decreases set_measure(set, s),
{
    if s.status is Running {
        match next_entry(set, s) {
            None => {},
            Some(m) => {
                let entry = entry_at(set, s, m);
                let (inc, e1) = refilled(s.inc, m, s.inc.len() as int);
                if e1 is None {
                    let (ex, e2) = all_caught_up(s.ex, m, s.ex.len() as int);
                    if e2 is None {
                        let s1 = SetStreamModel { inc, ex, last: Some(m), ..s };
                        lemma_round(set, s, m, s1);
                        if excluded(set, ex, m) || entry is None {
                            lemma_set_advance_decreases(set, s1);
                        }
                    }
                }
            },
        }
    }
}

/// The occurrences that the stream `s` of a rule set gives within a
/// window, in order: the run ends with the stream, with the first error,
/// and with the first occurrence behind the far end. Without a near end
/// every occurrence up to the far end counts.
pub open spec fn set_sweep(set: RuleSetModel, s: SetStreamModel, lo: Option<int>, hi: int, inclusive: bool) -> Run
    decreases set_measure(set, s),
{
    let (s1, step) = set_advance(set, s);
    match step {
        Step::Done => Run { occurrences: Seq::empty(), failure: None },
        Step::Failure(e) => Run { occurrences: Seq::empty(), failure: Some(e) },
        Step::Occurrence(o) => {
            if past(o.instant, hi, inclusive) {
                Run { occurrences: Seq::empty(), failure: None }
            } else {
                proof {
                    lemma_set_advance_decreases(set, s);
                }
                let rest = set_sweep(set, s1, lo, hi, inclusive);
                if lo matches Some(l) && !reaches(o.instant, l, inclusive) {
                    rest
                } else {
                    after_prefix(seq![o], rest)
                }
            }
        },
    }
}

/// What `between` returns for a rule set: its occurrences within the
/// window, or the error that the stream met on the way to its far end.
pub open spec fn set_between_outcome(set: RuleSetModel, lo: int, hi: int, inclusive: bool) -> Result<
    Seq<InstantModel>,
    RuleError,
> {
    let g = set_sweep(set, initial_set_stream(set), Some(lo), hi, inclusive);
    match g.failure {
        Some(e) => Err(e),
        None => Ok(g.occurrences),
    }
}

/// What `before` returns for a rule set: its last occurrence before the
/// instant `hi` (or at it, where inclusive), if there is one.
pub open spec fn set_before_outcome(set: RuleSetModel, hi: int, inclusive: bool) -> Result<
    Option<InstantModel>,
    RuleError,
> {
    let g = set_sweep(set, initial_set_stream(set), None, hi, inclusive);
    match g.failure {
        Some(e) => Err(e),
        None => if g.occurrences.len() > 0 {
            Ok(Some(g.occurrences.last()))
        } else {
            Ok(None)
        },
    }
}

/// The first occurrence that the stream `s` of a rule set gives behind the
/// instant `lo` (or at it, where inclusive), if it gives one.
pub open spec fn set_first_reaching(set: RuleSetModel, s: SetStreamModel, lo: int, inclusive: bool) -> Result<
    Option<InstantModel>,
    RuleError,
>
    decreases set_measure(set, s),
{
    let (s1, step) = set_advance(set, s);
    match step {
        Step::Done => Ok(None),
        Step::Failure(e) => Err(e),
        Step::Occurrence(o) => {
            if reaches(o.instant, lo, inclusive) {
                Ok(Some(o))
            } else {
                proof {
                    lemma_set_advance_decreases(set, s);
                }
                set_first_reaching(set, s1, lo, inclusive)
            }
        },
    }
}

/// What `after` returns for a rule set: its first occurrence behind the
/// instant `lo` (or at it, where inclusive), if there is one.
pub open spec fn set_after_outcome(set: RuleSetModel, lo: int, inclusive: bool) -> Result<
    Option<InstantModel>,
    RuleError,
> {
    set_first_reaching(set, initial_set_stream(set), lo, inclusive)
}

} // verus!
