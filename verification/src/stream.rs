//! The stream of occurrences of one rule.
//!
//! The stream walks the periods that the interval counts, from the one that
//! holds the start. Each period yields its candidates in order; a candidate
//! becomes an occurrence where its civil time exists in the zone and its
//! instant lies behind the occurrence before it (behind or at the start for
//! the first). A count or an until-instant ends the stream, and so does the
//! end of the years that can be represented. A cap on the work bounds every
//! enumeration.

use vstd::prelude::*;
use crate::calendar::{CIVIL_END, CIVIL_MIN};
use crate::error::RuleError;
use crate::expand::{lemma_month_range, lemma_year_range, start_unit, unit_is_in_range, yield_of_unit};
use crate::instant::{InstantModel, ZonedInstant};
use crate::model::{ints, unit_in_range, unit_of, unit_start, unit_yield, BoundModel, Frequency, RuleModel};
use crate::rule::RuleValue;
use crate::zone::instant_of;

verus! {

/// The most occurrences that one stream gives out.
pub const EMIT_CAP: i64 = 100_000;

/// The most periods without a candidate, and candidates without an
/// occurrence, that one stream passes over.
pub const IDLE_CAP: i64 = 1_000_000;

/// Where a stream stands.
#[derive(Clone, Copy, Debug, PartialEq, Eq, Structural)]
pub enum Status {
    Running,
    /// The stream has ended.
    Finished,
    /// The stream has failed, and fails in the same way from now on.
    Failed(RuleError),
}

/// The state of a stream.
pub struct StreamModel {
    /// The next unit of the frequency to expand.
    pub unit: int,
    /// The candidates of the last unit expanded that are still to come.
    pub pending: Seq<int>,
    /// The instant of the last occurrence given out.
    pub last: Option<int>,
    /// The occurrences given out so far.
    pub emitted: int,
    /// The empty periods and the candidates passed over so far.
    pub idle: int,
    pub status: Status,
}

/// What one pull on a stream gives.
pub enum Step {
    Occurrence(InstantModel),
    Done,
    Failure(RuleError),
}

/// The stream of a rule before the first pull.
pub open spec fn initial_stream(r: RuleModel) -> StreamModel {
    StreamModel {
        unit: unit_of(r.freq, r.week_start, r.start.civil),
        pending: Seq::empty(),
        last: None,
        emitted: 0,
        idle: 0,
        status: Status::Running,
    }
}

/// Whether an occurrence at the instant `i` may follow what the stream has
/// given out: it lies behind the last occurrence, or not before the start
/// where there is none yet.
pub open spec fn admissible(r: RuleModel, s: StreamModel, i: int) -> bool {
    match s.last {
        Some(l) => i > l,
        None => i >= r.start.instant,
    }
}

/// The stream with another status.
pub open spec fn with_status(s: StreamModel, status: Status) -> StreamModel {
    StreamModel { status, ..s }
}

/// The stream once the candidate at its head has been passed over.
pub open spec fn passed_over(s: StreamModel) -> StreamModel {
    StreamModel { pending: s.pending.skip(1), idle: s.idle + 1, ..s }
}

/// The stream once the next unit has been expanded.
pub open spec fn expanded(r: RuleModel, s: StreamModel) -> StreamModel {
    let y = unit_yield(r, s.unit);
    StreamModel {
        unit: s.unit + r.interval,
        pending: y,
        idle: if y.len() == 0 {
            s.idle + 1
        } else {
            s.idle
        },
        ..s
    }
}

/// One pull on the stream `s` of the rule `r`, under the bound `b` in place
/// of the rule's own: the stream afterwards, and what the pull gave.
pub open spec fn advance_with(r: RuleModel, b: BoundModel, s: StreamModel) -> (StreamModel, Step)
    decreases IDLE_CAP - s.idle, (if s.pending.len() == 0 { 1int } else { 0int }),
{
    match s.status {
        Status::Finished => (s, Step::Done),
        Status::Failed(e) => (s, Step::Failure(e)),
        Status::Running => {
            if b matches BoundModel::Count(n) && s.emitted >= n {
                (with_status(s, Status::Finished), Step::Done)
            } else if s.emitted >= EMIT_CAP || s.idle >= IDLE_CAP {
                (
                    with_status(s, Status::Failed(RuleError::BoundExceededError)),
                    Step::Failure(RuleError::BoundExceededError),
                )
            } else if s.pending.len() == 0 {
                if !unit_in_range(r.freq, r.week_start, s.unit) {
                    (with_status(s, Status::Finished), Step::Done)
                } else {
                    advance_with(r, b, expanded(r, s))
                }
            } else {
                let t = s.pending[0];
                if t >= CIVIL_END {
                    (with_status(s, Status::Finished), Step::Done)
                } else {
                    match instant_of(r.start.zone, t) {
                        None => advance_with(r, b, passed_over(s)),
                        Some(i) => {
                            if !admissible(r, s, i) {
                                advance_with(r, b, passed_over(s))
                            } else if b matches BoundModel::Until(u) && i > u {
                                (with_status(s, Status::Finished), Step::Done)
                            } else {
                                (
                                    StreamModel {
                                        pending: s.pending.skip(1),
                                        last: Some(i),
                                        emitted: s.emitted + 1,
                                        ..s
                                    },
                                    Step::Occurrence(InstantModel { civil: t, instant: i, zone: r.start.zone }),
                                )
                            }
                        },
                    }
                }
            }
        },
    }
}

/// One pull on the stream `s` of the rule `r`: the stream afterwards, and
/// what the pull gave.
pub open spec fn advance(r: RuleModel, s: StreamModel) -> (StreamModel, Step) {
    advance_with(r, r.bound, s)
}

/// A pull that gives an occurrence leaves the stream running, one
/// occurrence on; any other pull leaves the number given out as it was.
pub proof fn lemma_advance_status(r: RuleModel, b: BoundModel, s: StreamModel)
    ensures
        advance_with(r, b, s).1 is Occurrence ==> s.status is Running && advance_with(r, b, s).0.status is Running
            && advance_with(r, b, s).0.emitted == s.emitted + 1 && s.emitted < EMIT_CAP,
        !(advance_with(r, b, s).1 is Occurrence) ==> advance_with(r, b, s).0.emitted == s.emitted,
    decreases IDLE_CAP - s.idle, (if s.pending.len() == 0 { 1int } else { 0int }),
{
    if s.status is Running && !(b matches BoundModel::Count(n) && s.emitted >= n) && !(s.emitted >= EMIT_CAP || s.idle
        >= IDLE_CAP) {
        if s.pending.len() == 0 {
            if unit_in_range(r.freq, r.week_start, s.unit) {
                lemma_advance_status(r, b, expanded(r, s));
            }
        } else {
            let t = s.pending[0];
            if t < CIVIL_END {
                match instant_of(r.start.zone, t) {
                    None => {
                        lemma_advance_status(r, b, passed_over(s));
                    },
                    Some(i) => {
                        if !admissible(r, s, i) {
                            lemma_advance_status(r, b, passed_over(s));
                        }
                    },
                }
            }
        }
    }
}

/// Whether what a pull returned is the step `step`.
pub open spec fn is_step(r: Result<Option<ZonedInstant>, RuleError>, step: Step) -> bool {
    match step {
        Step::Occurrence(o) => r matches Ok(Some(z)) && z@ == o,
        Step::Done => r matches Ok(None),
        Step::Failure(e) => r == Err::<Option<ZonedInstant>, RuleError>(e),
    }
}

/// The units with a part in the years 1 to 9999 are few.
pub proof fn lemma_units_bounded(f: Frequency, wkst: int, u: int)
    requires
        0 <= wkst <= 6,
        unit_in_range(f, wkst, u),
    ensures
        CIVIL_MIN <= u < CIVIL_END,
{
    match f {
        Frequency::Yearly => {
            lemma_year_range(u);
            assert(unit_start(Frequency::Yearly, wkst, u) == unit_start(Frequency::Yearly, 0, u));
            assert(unit_start(Frequency::Yearly, wkst, u + 1) == unit_start(Frequency::Yearly, 0, u + 1));
        },
        Frequency::Monthly => {
            lemma_month_range(u);
            assert(unit_start(Frequency::Monthly, wkst, u) == unit_start(Frequency::Monthly, 0, u));
            assert(unit_start(Frequency::Monthly, wkst, u + 1) == unit_start(Frequency::Monthly, 0, u + 1));
        },
        _ => {},
    }
}

/// A lazy handle on the occurrences of a rule: each pull gives the next
/// occurrence, the end, or an error.
pub struct RuleIter {
    rule: RuleValue,
    unit: i128,
    pending: Vec<i64>,
    pos: usize,
    last: Option<i64>,
    emitted: i64,
    idle: i64,
    status: Status,
}

impl View for RuleIter {
    type V = StreamModel;

    closed spec fn view(&self) -> StreamModel {
        StreamModel {
            unit: self.unit as int,
            pending: ints(self.pending@).skip(self.pos as int),
            last: match self.last {
                Some(l) => Some(l as int),
                None => None,
            },
            emitted: self.emitted as int,
            idle: self.idle as int,
            status: self.status,
        }
    }
}

impl RuleIter {
    /// The rule whose occurrences the handle gives.
    pub closed spec fn rule(&self) -> RuleModel {
        self.rule@
    }

    /// What holds of every handle that `RuleValue::iter` made, however
    /// often it was pulled.
    pub closed spec fn wf(&self) -> bool {
        &&& self.rule@.valid()
        &&& self.pos <= self.pending@.len()
        &&& forall|i: int| self.pos <= i < self.pending@.len() ==> #[trigger] self.pending@[i] >= self.rule@.start.civil
        &&& 0 <= self.emitted <= EMIT_CAP
        &&& 0 <= self.idle <= IDLE_CAP
        &&& -0x4000_0000_0000_0000 <= self.unit <= 0x1_0000_0000_0000_0000
    }

    /// A handle on the occurrences of `rule`, before the first pull.
    pub fn new(rule: &RuleValue) -> (it: RuleIter)
        ensures
            it.wf(),
            it.rule() == rule@,
            it@ == initial_stream(rule@),
    {
        let unit = start_unit(rule);
        proof {
            use_type_invariant(rule);
        }
        let it = RuleIter {
            rule: rule.duplicate(),
            unit: unit as i128,
            pending: Vec::new(),
            pos: 0,
            last: None,
            emitted: 0,
            idle: 0,
            status: Status::Running,
        };
        proof {
            assert(it@.pending =~= Seq::<int>::empty());
        }
        it
    }

    /// Ends the stream with the given status.
    fn stop(&mut self, status: Status)
        requires
            old(self).wf(),
        ensures
            final(self).wf(),
            final(self).rule() == old(self).rule(),
            final(self)@ == with_status(old(self)@, status),
    {
        self.status = status;
    }

    /// Expands the next unit.
    fn expand(&mut self)
        requires
            old(self).wf(),
            old(self)@.pending.len() == 0,
            unit_in_range(old(self).rule().freq, old(self).rule().week_start, old(self)@.unit),
            old(self)@.idle < IDLE_CAP,
        ensures
            final(self).wf(),
            final(self).rule() == old(self).rule(),
            final(self)@ == expanded(old(self).rule(), old(self)@),
    {
        proof {
            lemma_units_bounded(self.rule@.freq, self.rule@.week_start, self.unit as int);
        }
        let y = yield_of_unit(&self.rule, self.unit as i64);
        self.unit = self.unit + self.rule.interval() as i128;
        if y.len() == 0 {
            self.idle = self.idle + 1;
        }
        self.pending = y;
        self.pos = 0;
        proof {
            assert(self@.pending =~= unit_yield(self.rule@, old(self)@.unit));
        }
    }

    /// Passes over the candidate at the head.
    fn pass_over(&mut self)
        requires
            old(self).wf(),
            old(self)@.pending.len() > 0,
            old(self)@.idle < IDLE_CAP,
        ensures
            final(self).wf(),
            final(self).rule() == old(self).rule(),
            final(self)@ == passed_over(old(self)@),
    {
        let len = self.pending.len();
        proof {
            assert(self@.pending.len() == len - self.pos);
        }
        self.pos = self.pos + 1;
        self.idle = self.idle + 1;
        proof {
            assert(self@.pending =~= old(self)@.pending.skip(1));
        }
    }

    /// Gives the candidate at the head out as an occurrence.
    fn emit(&mut self, t: i64, i: i64) -> (z: ZonedInstant)
        requires
            old(self).wf(),
            old(self)@.pending.len() > 0,
            old(self)@.pending[0] == t,
            t < CIVIL_END,
            old(self)@.emitted < EMIT_CAP,
            instant_of(old(self).rule().start.zone, t as int) == Some(i as int),
        ensures
            final(self).wf(),
            final(self).rule() == old(self).rule(),
            final(self)@ == (StreamModel {
                pending: old(self)@.pending.skip(1),
                last: Some(i as int),
                emitted: old(self)@.emitted + 1,
                ..old(self)@
            }),
            z@ == (InstantModel { civil: t as int, instant: i as int, zone: old(self).rule().start.zone }),
    {
        let len = self.pending.len();
        proof {
            assert(self@.pending.len() == len - self.pos);
            assert(old(self)@.pending[0] == self.pending@[self.pos as int]);
        }
        self.pos = self.pos + 1;
        self.last = Some(i);
        self.emitted = self.emitted + 1;
        proof {
            assert(self@.pending =~= old(self)@.pending.skip(1));
        }
        let start = self.rule.start();
        ZonedInstant::from_parts(t, i, start.zone())
    }

    /// The candidate at the head.
    fn head(&self) -> (t: i64)
        requires
            self.wf(),
            self@.pending.len() > 0,
        ensures
            t == self@.pending[0],
    {
        self.pending[self.pos]
    }

    /// Whether candidates of the last unit expanded are still to come.
    fn has_pending(&self) -> (b: bool)
        requires
            self.wf(),
        ensures
            b == (self@.pending.len() > 0),
    {
        self.pos < self.pending.len()
    }

    /// Whether the next unit has a part in the years 1 to 9999.
    fn unit_fits(&self) -> (b: bool)
        requires
            self.wf(),
        ensures
            b == unit_in_range(self.rule().freq, self.rule().week_start, self@.unit),
    {
        proof {
            if unit_in_range(self.rule().freq, self.rule().week_start, self@.unit) {
                lemma_units_bounded(self.rule@.freq, self.rule@.week_start, self.unit as int);
            }
        }
        if self.unit < CIVIL_MIN as i128 || self.unit >= CIVIL_END as i128 {
            false
        } else {
            unit_is_in_range(&self.rule, self.unit as i64)
        }
    }

    /// Whether an occurrence at the instant `i` may follow what was given
    /// out.
    fn admits(&self, i: i64) -> (b: bool)
        requires
            self.wf(),
        ensures
            b == admissible(self.rule(), self@, i as int),
    {
        match self.last {
            Some(l) => i > l,
            None => i >= self.rule.start().timestamp(),
        }
    }

    /// Whether the count of the rule has been reached.
    fn count_reached(&self) -> (b: bool)
        requires
            self.wf(),
        ensures
            b == (self.rule().bound matches BoundModel::Count(n) && self@.emitted >= n),
    {
        match self.rule.count() {
            Some(n) => self.emitted >= n,
            None => false,
        }
    }

    /// Whether the instant `i` lies behind the until-instant of the rule.
    fn beyond_until(&self, i: i64) -> (b: bool)
        requires
            self.wf(),
        ensures
            b == (self.rule().bound matches BoundModel::Until(u) && i > u),
    {
        match self.rule.until() {
            Some(u) => i > u.timestamp(),
            None => false,
        }
    }

    /// Whether a cap on the work has been reached.
    fn capped(&self) -> (b: bool)
        requires
            self.wf(),
        ensures
            b == (self@.emitted >= EMIT_CAP || self@.idle >= IDLE_CAP),
    {
        self.emitted >= EMIT_CAP || self.idle >= IDLE_CAP
    }

    /// Where the stream stands.
    pub fn status(&self) -> (s: Status)
        ensures
            s == self@.status,
    {
        self.status
    }

    /// The instant of the candidate `t` in the zone of the rule.
    fn instant_at(&self, t: i64) -> (r: Option<i64>)
        requires
            self.wf(),
        ensures
            r is Some == instant_of(self.rule().start.zone, t as int) is Some,
            r matches Some(i) ==> instant_of(self.rule().start.zone, t as int) == Some(i as int),
    {
        self.rule.start().zone().instant_at(t)
    }

    /// The next occurrence of the rule, `Ok(None)` where the stream has
    /// ended, or the error that the stream has failed with.
    pub fn next(&mut self) -> (r: Result<Option<ZonedInstant>, RuleError>)
        requires
            old(self).wf(),
        ensures
            final(self).wf(),
            final(self).rule() == old(self).rule(),
            final(self)@ == advance(old(self).rule(), old(self)@).0,
            is_step(r, advance(old(self).rule(), old(self)@).1),
    {
        loop
            invariant
                self.wf(),
                self.rule() == old(self).rule(),
                advance(self.rule(), self@) == advance(old(self).rule(), old(self)@),
            decreases IDLE_CAP - self@.idle, (if self@.pending.len() == 0 { 1int } else { 0int }),
        {
            match self.status {
                Status::Finished => {
                    return Ok(None);
                },
                Status::Failed(e) => {
                    return Err(e);
                },
                Status::Running => {},
            }
            if self.count_reached() {
                self.stop(Status::Finished);
                return Ok(None);
            }
            if self.capped() {
                self.stop(Status::Failed(RuleError::BoundExceededError));
                return Err(RuleError::BoundExceededError);
            }
            if !self.has_pending() {
                if !self.unit_fits() {
                    self.stop(Status::Finished);
                    return Ok(None);
                }
                self.expand();
            } else {
                let t = self.head();
                if t >= CIVIL_END {
                    self.stop(Status::Finished);
                    return Ok(None);
                }
                match self.instant_at(t) {
                    None => {
                        self.pass_over();
                    },
                    Some(i) => {
                        if !self.admits(i) {
                            self.pass_over();
                        } else if self.beyond_until(i) {
                            self.stop(Status::Finished);
                            return Ok(None);
                        } else {
                            let z = self.emit(t, i);
                            return Ok(Some(z));
                        }
                    },
                }
            }
        }
    }
}

} // verus!
