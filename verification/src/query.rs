//! What a caller asks of a rule: all of its occurrences up to a limit, those
//! within a window, the last before an instant and the first after one.

use vstd::prelude::*;
use crate::error::RuleError;
use crate::instant::{InstantModel, ZonedInstant};
use crate::laws::{instants_ascend, is_occurrence_of, lemma_after, lemma_all, lemma_before, lemma_between};
use crate::model::{BoundModel, RuleModel};
use crate::rule::RuleValue;
use crate::stream::{
    advance, advance_with, initial_stream, lemma_advance_status, EMIT_CAP, RuleIter, Step, StreamModel,
};

verus! {

/// What a list of zoned instants holds.
pub open spec fn views(v: Seq<ZonedInstant>) -> Seq<InstantModel> {
    v.map_values(|z: ZonedInstant| z@)
}

/// What a run of pulls on a stream gave: the occurrences in order, and the
/// error that ended the run, if one did.
pub struct Run {
    pub occurrences: Seq<InstantModel>,
    pub failure: Option<RuleError>,
}

/// The run `g` with the occurrences `acc` before its own.
pub open spec fn after_prefix(acc: Seq<InstantModel>, g: Run) -> Run {
    Run { occurrences: acc + g.occurrences, failure: g.failure }
}

/// What up to `n` pulls on the stream `s` of the rule `r` give under the
/// bound `b`: the run ends with the stream, with the first error, and after
/// `n` occurrences.
pub open spec fn gather_with(r: RuleModel, b: BoundModel, s: StreamModel, n: nat) -> Run
    decreases n,
{
    if n == 0 {
        Run { occurrences: Seq::empty(), failure: None }
    } else {
        let (s1, step) = advance_with(r, b, s);
        match step {
            Step::Occurrence(o) => after_prefix(seq![o], gather_with(r, b, s1, (n - 1) as nat)),
            Step::Done => Run { occurrences: Seq::empty(), failure: None },
            Step::Failure(e) => Run { occurrences: Seq::empty(), failure: Some(e) },
        }
    }
}

/// What up to `n` pulls on the stream `s` of the rule `r` give.
pub open spec fn gather(r: RuleModel, s: StreamModel, n: nat) -> Run {
    gather_with(r, r.bound, s, n)
}

/// What `all` returns for a rule and a limit: the occurrences of the rule
/// from its start, `limit` of them at most. It is an error where the stream
/// fails on the way, and where a rule without bound has `limit` occurrences
/// or more.
pub open spec fn all_outcome(r: RuleModel, limit: nat) -> Result<Seq<InstantModel>, RuleError> {
    let g = gather(r, initial_stream(r), limit);
    match g.failure {
        Some(e) => Err(e),
        None => if g.occurrences.len() == limit && r.bound is Unbounded {
            Err(RuleError::BoundExceededError)
        } else {
            Ok(g.occurrences)
        },
    }
}

/// Whether the instant `x` lies at or behind the near end `lo` of a
/// window; the end itself counts where the window is inclusive.
pub open spec fn reaches(x: int, lo: int, inclusive: bool) -> bool {
    if inclusive {
        x >= lo
    } else {
        x > lo
    }
}

/// Whether the instant `x` lies behind the far end `hi` of a window; the
/// end itself is within the window where the window is inclusive.
pub open spec fn past(x: int, hi: int, inclusive: bool) -> bool {
    if inclusive {
        x > hi
    } else {
        x >= hi
    }
}

/// The occurrences that the stream `s` gives within a window, in order: the
/// run ends with the stream, with the first error, and with the first
/// occurrence behind the far end. Without a near end every occurrence up to
/// the far end counts.
pub open spec fn sweep(r: RuleModel, s: StreamModel, lo: Option<int>, hi: int, inclusive: bool) -> Run
    decreases EMIT_CAP - s.emitted,
{
    let (s1, step) = advance(r, s);
    match step {
        Step::Done => Run { occurrences: Seq::empty(), failure: None },
        Step::Failure(e) => Run { occurrences: Seq::empty(), failure: Some(e) },
        Step::Occurrence(o) => {
            if past(o.instant, hi, inclusive) {
                Run { occurrences: Seq::empty(), failure: None }
            } else {
                proof {
                    lemma_advance_status(r, r.bound, s);
                }
                let rest = sweep(r, s1, lo, hi, inclusive);
                if lo matches Some(l) && !reaches(o.instant, l, inclusive) {
                    rest
                } else {
                    after_prefix(seq![o], rest)
                }
            }
        },
    }
}

/// What `between` returns: the occurrences of the rule within the window,
/// or the error that the stream met on the way to its far end.
pub open spec fn between_outcome(r: RuleModel, lo: int, hi: int, inclusive: bool) -> Result<
    Seq<InstantModel>,
    RuleError,
> {
    let g = sweep(r, initial_stream(r), Some(lo), hi, inclusive);
    match g.failure {
        Some(e) => Err(e),
        None => Ok(g.occurrences),
    }
}

/// What `before` returns: the last occurrence of the rule before the
/// instant `hi` (or at it, where inclusive), if there is one.
pub open spec fn before_outcome(r: RuleModel, hi: int, inclusive: bool) -> Result<Option<InstantModel>, RuleError> {
    let g = sweep(r, initial_stream(r), None, hi, inclusive);
    match g.failure {
        Some(e) => Err(e),
        None => if g.occurrences.len() > 0 {
            Ok(Some(g.occurrences.last()))
        } else {
            Ok(None)
        },
    }
}

/// The first occurrence that the stream `s` gives behind the instant `lo`
/// (or at it, where inclusive), if it gives one.
pub open spec fn first_reaching(r: RuleModel, s: StreamModel, lo: int, inclusive: bool) -> Result<
    Option<InstantModel>,
    RuleError,
>
    decreases EMIT_CAP - s.emitted,
{
    let (s1, step) = advance(r, s);
    match step {
        Step::Done => Ok(None),
        Step::Failure(e) => Err(e),
        Step::Occurrence(o) => {
            if reaches(o.instant, lo, inclusive) {
                Ok(Some(o))
            } else {
                proof {
                    lemma_advance_status(r, r.bound, s);
                }
                first_reaching(r, s1, lo, inclusive)
            }
        },
    }
}

/// What `after` returns: the first occurrence of the rule behind the
/// instant `lo` (or at it, where inclusive), if there is one.
pub open spec fn after_outcome(r: RuleModel, lo: int, inclusive: bool) -> Result<Option<InstantModel>, RuleError> {
    first_reaching(r, initial_stream(r), lo, inclusive)
}

impl RuleValue {
    /// A lazy handle on the occurrences of the rule.
    pub fn iter(&self) -> (it: RuleIter)
        ensures
            it.wf(),
            it.rule() == self@,
            it@ == initial_stream(self@),
    {
        RuleIter::new(self)
    }

    /// The occurrences of the rule from its start, `limit` of them at most.
    ///
    /// `BoundExceededError` where the rule has no bound and the limit is
    /// used up, and where the cap on the work of one enumeration was
    /// reached first.
    pub fn all(&self, limit: usize) -> (r: Result<Vec<ZonedInstant>, RuleError>)
        ensures
            match all_outcome(self@, limit as nat) {
                Ok(seq) => r matches Ok(v) && views(v@) == seq,
                Err(e) => r matches Err(f) && f == e,
            },
            r matches Ok(v) ==> instants_ascend(views(v@)) && v@.len() <= limit && forall|i: int|
                0 <= i < v@.len() ==> is_occurrence_of(self@, #[trigger] views(v@)[i]),
            r matches Ok(v) ==> (self@.bound matches BoundModel::Count(c) ==> v@.len() <= c),
            r matches Ok(v) ==> (self@.bound matches BoundModel::Until(u) ==> forall|i: int|
                0 <= i < v@.len() ==> (#[trigger] views(v@)[i]).instant <= u),
    {
        proof {
            use_type_invariant(self);
        }
        let mut it = self.iter();
        let mut out: Vec<ZonedInstant> = Vec::new();
        let ghost whole = gather(self@, initial_stream(self@), limit as nat);
        proof {
            assert(views(out@) =~= Seq::<InstantModel>::empty());
            assert(after_prefix(views(out@), gather(self@, it@, limit as nat)).occurrences =~= whole.occurrences);
        }
        while out.len() < limit
            invariant
                it.wf(),
                it.rule() == self@,
                out@.len() <= limit,
                self@.valid(),
                whole == gather(self@, initial_stream(self@), limit as nat),
                whole == after_prefix(views(out@), gather(self@, it@, (limit - out@.len()) as nat)),
            decreases limit - out@.len(),
        {
            let ghost acc = views(out@);
            let ghost before = it@;
            match it.next() {
                Ok(Some(z)) => {
                    out.push(z);
                    proof {
                        let rest = gather(self@, it@, (limit - out@.len()) as nat);
                        assert(views(out@) =~= acc.push(z@));
                        assert(acc + (seq![z@] + rest.occurrences) =~= views(out@) + rest.occurrences);
                    }
                },
                Ok(None) => {
                    proof {
                        assert(acc + Seq::<InstantModel>::empty() =~= acc);
                        lemma_all(self@, limit as nat);
                    }
                    return Ok(out);
                },
                Err(e) => {
                    return Err(e);
                },
            }
        }
        proof {
            assert(views(out@) + Seq::<InstantModel>::empty() =~= views(out@));
            lemma_all(self@, limit as nat);
        }
        match (self.count(), self.until()) {
            (None, None) => Err(RuleError::BoundExceededError),
            _ => Ok(out),
        }
    }

    /// The occurrences of the rule between two instants, in order. Where
    /// `inclusive`, an occurrence at either instant counts.
    ///
    /// `BoundExceededError` where the cap on the work of one enumeration
    /// was reached before the far end of the window.
    pub fn between(&self, after: &ZonedInstant, before: &ZonedInstant, inclusive: bool) -> (r: Result<
        Vec<ZonedInstant>,
        RuleError,
    >)
        ensures
            match between_outcome(self@, after@.instant, before@.instant, inclusive) {
                Ok(seq) => r matches Ok(v) && views(v@) == seq,
                Err(e) => r matches Err(f) && f == e,
            },
            r matches Ok(v) ==> instants_ascend(views(v@)) && forall|i: int|
                0 <= i < v@.len() ==> is_occurrence_of(self@, #[trigger] views(v@)[i]) && reaches(
                    views(v@)[i].instant,
                    after@.instant,
                    inclusive,
                ) && !past(views(v@)[i].instant, before@.instant, inclusive),
    {
        proof {
            use_type_invariant(self);
        }
        proof {
            lemma_between(self@, after@.instant, before@.instant, inclusive);
        }
        let lo = after.timestamp();
        let hi = before.timestamp();
        let mut it = self.iter();
        let mut out: Vec<ZonedInstant> = Vec::new();
        let ghost whole = sweep(self@, initial_stream(self@), Some(lo as int), hi as int, inclusive);
        proof {
            assert(views(out@) =~= Seq::<InstantModel>::empty());
            assert(after_prefix(views(out@), whole).occurrences =~= whole.occurrences);
        }
        loop
            invariant
                it.wf(),
                it.rule() == self@,
                lo == after@.instant,
                hi == before@.instant,
                between_outcome(self@, lo as int, hi as int, inclusive) matches Ok(seq) ==> instants_ascend(seq)
                    && forall|i: int|
                    0 <= i < seq.len() ==> is_occurrence_of(self@, #[trigger] seq[i]) && reaches(
                        seq[i].instant,
                        lo as int,
                        inclusive,
                    ) && !past(seq[i].instant, hi as int, inclusive),
                whole == sweep(self@, initial_stream(self@), Some(lo as int), hi as int, inclusive),
                whole == after_prefix(views(out@), sweep(self@, it@, Some(lo as int), hi as int, inclusive)),
            decreases EMIT_CAP - it@.emitted,
        {
            let ghost acc = views(out@);
            proof {
                lemma_advance_status(self@, self@.bound, it@);
            }
            match it.next() {
                Ok(Some(z)) => {
                    let x = z.timestamp();
                    if (inclusive && x > hi) || (!inclusive && x >= hi) {
                        proof {
                            assert(acc + Seq::<InstantModel>::empty() =~= acc);
                        }
                        return Ok(out);
                    }
                    if (inclusive && x >= lo) || (!inclusive && x > lo) {
                        out.push(z);
                        proof {
                            let rest = sweep(self@, it@, Some(lo as int), hi as int, inclusive);
                            assert(views(out@) =~= acc.push(z@));
                            assert(acc + (seq![z@] + rest.occurrences) =~= views(out@) + rest.occurrences);
                        }
                    }
                },
                Ok(None) => {
                    proof {
                        assert(acc + Seq::<InstantModel>::empty() =~= acc);
                    }
                    return Ok(out);
                },
                Err(e) => {
                    return Err(e);
                },
            }
        }
    }

    /// The last occurrence of the rule before the instant `dt`, or at it
    /// where `inclusive`; `None` where the rule has none.
    pub fn before(&self, dt: &ZonedInstant, inclusive: bool) -> (r: Result<Option<ZonedInstant>, RuleError>)
        ensures
            match before_outcome(self@, dt@.instant, inclusive) {
                Ok(Some(o)) => r matches Ok(Some(z)) && z@ == o,
                Ok(None) => r matches Ok(None),
                Err(e) => r matches Err(f) && f == e,
            },
            r matches Ok(Some(z)) ==> is_occurrence_of(self@, z@) && !past(z@.instant, dt@.instant, inclusive),
    {
        proof {
            use_type_invariant(self);
        }
        proof {
            lemma_before(self@, dt@.instant, inclusive);
        }
        let hi = dt.timestamp();
        let mut it = self.iter();
        let mut best: Option<ZonedInstant> = None;
        let ghost whole = sweep(self@, initial_stream(self@), None, hi as int, inclusive);
        let ghost mut acc = Seq::<InstantModel>::empty();
        proof {
            assert(after_prefix(acc, whole).occurrences =~= whole.occurrences);
        }
        loop
            invariant
                it.wf(),
                it.rule() == self@,
                hi == dt@.instant,
                before_outcome(self@, hi as int, inclusive) matches Ok(Some(o)) ==> is_occurrence_of(self@, o) && !past(
                    o.instant,
                    hi as int,
                    inclusive,
                ),
                whole == sweep(self@, initial_stream(self@), None, hi as int, inclusive),
                whole == after_prefix(acc, sweep(self@, it@, None, hi as int, inclusive)),
                acc.len() == 0 ==> best is None,
                acc.len() > 0 ==> (best matches Some(z) && z@ == acc.last()),
            decreases EMIT_CAP - it@.emitted,
        {
            proof {
                lemma_advance_status(self@, self@.bound, it@);
            }
            match it.next() {
                Ok(Some(z)) => {
                    let x = z.timestamp();
                    if (inclusive && x > hi) || (!inclusive && x >= hi) {
                        proof {
                            assert(acc + Seq::<InstantModel>::empty() =~= acc);
                        }
                        return Ok(best);
                    }
                    proof {
                        let rest = sweep(self@, it@, None, hi as int, inclusive);
                        assert(acc + (seq![z@] + rest.occurrences) =~= acc.push(z@) + rest.occurrences);
                        acc = acc.push(z@);
                    }
                    best = Some(z);
                },
                Ok(None) => {
                    proof {
                        assert(acc + Seq::<InstantModel>::empty() =~= acc);
                    }
                    return Ok(best);
                },
                Err(e) => {
                    return Err(e);
                },
            }
        }
    }

    /// The first occurrence of the rule behind the instant `dt`, or at it
    /// where `inclusive`; `None` where the rule has none.
    pub fn after(&self, dt: &ZonedInstant, inclusive: bool) -> (r: Result<Option<ZonedInstant>, RuleError>)
        ensures
            match after_outcome(self@, dt@.instant, inclusive) {
                Ok(Some(o)) => r matches Ok(Some(z)) && z@ == o,
                Ok(None) => r matches Ok(None),
                Err(e) => r matches Err(f) && f == e,
            },
            r matches Ok(Some(z)) ==> is_occurrence_of(self@, z@) && reaches(z@.instant, dt@.instant, inclusive),
    {
        proof {
            use_type_invariant(self);
        }
        proof {
            lemma_after(self@, dt@.instant, inclusive);
        }
        let lo = dt.timestamp();
        let mut it = self.iter();
        loop
            invariant
                it.wf(),
                it.rule() == self@,
                lo == dt@.instant,
                after_outcome(self@, lo as int, inclusive) matches Ok(Some(o)) ==> is_occurrence_of(self@, o) && reaches(
                    o.instant,
                    lo as int,
                    inclusive,
                ),
                after_outcome(self@, lo as int, inclusive) == first_reaching(self@, it@, lo as int, inclusive),
            decreases EMIT_CAP - it@.emitted,
        {
            proof {
                lemma_advance_status(self@, self@.bound, it@);
            }
            match it.next() {
                Ok(Some(z)) => {
                    let x = z.timestamp();
                    if (inclusive && x >= lo) || (!inclusive && x > lo) {
                        return Ok(Some(z));
                    }
                },
                Ok(None) => {
                    return Ok(None);
                },
                Err(e) => {
                    return Err(e);
                },
            }
        }
    }
}

} // verus!
