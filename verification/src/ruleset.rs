//! Rule sets: the occurrences of several rules and dates, without those of
//! other rules and dates.
//!
//! A set keeps one source for each of its rules: the stream of the rule
//! with the next occurrence at its head. The least head, or the least
//! inclusion date behind the last instant dealt with, is the next entry.
//! There is one head for each source, so the least is found by a scan over
//! them. The stream of a set ends with its sources and fails only where
//! one of them does.

use vstd::prelude::*;
use crate::error::RuleError;
use crate::instant::{InstantModel, ZonedInstant};
use crate::laws::instants_ascend;
use crate::model::RuleModel;
use crate::query::{after_prefix, views};
use crate::rule::RuleValue;
use crate::set_laws::{belongs, lemma_set_sound, set_valid};
use crate::set_model::{
    all_caught_up, all_opened, caught_up, date_at, fresh, head_at, initial_set_stream, least_date, least_head,
    lemma_round, lemma_set_advance_decreases, lesser, opened, pulled, refilled, set_advance, set_after_outcome,
    set_all_outcome, set_before_outcome, set_between_outcome, set_first_reaching, set_gather, set_measure, set_sweep,
    some_unbounded, RuleSetModel, SetStreamModel, SourceModel,
};
use crate::stream::{is_step, lemma_advance_status, EMIT_CAP, RuleIter, Status};

verus! {

/// The stream of one rule of a set, with the occurrence at its head.
pub struct Source {
    iter: RuleIter,
    head: Option<ZonedInstant>,
}

impl View for Source {
    type V = SourceModel;

    closed spec fn view(&self) -> SourceModel {
        SourceModel {
            rule: self.iter.rule(),
            stream: self.iter@,
            head: match self.head {
                Some(z) => Some(z@),
                None => None,
            },
        }
    }
}

impl Source {
    /// What holds of every source that `Source::open` made, however often it
    /// was pulled.
    pub closed spec fn wf(&self) -> bool {
        self.iter.wf()
    }

    /// The source of a rule, with its first occurrence at the head.
    pub fn open(rule: &RuleValue) -> (r: (Source, Option<RuleError>))
        ensures
            r.0.wf(),
            (r.0@, r.1) == opened(rule@),
    {
        let mut src = Source { iter: RuleIter::new(rule), head: None };
        let e = src.pull();
        (src, e)
    }

    /// Pulls the next occurrence to the head.
    pub fn pull(&mut self) -> (e: Option<RuleError>)
        requires
            old(self).wf(),
        ensures
            final(self).wf(),
            (final(self)@, e) == pulled(old(self)@),
    {
        match self.iter.next() {
            Ok(Some(z)) => {
                self.head = Some(z);
                None
            },
            Ok(None) => {
                self.head = None;
                None
            },
            Err(e) => {
                self.head = None;
                Some(e)
            },
        }
    }

    /// The instant at the head.
    pub fn head_instant(&self) -> (h: Option<i64>)
        ensures
            match h {
                Some(x) => self@.head matches Some(o) && o.instant == x,
                None => self@.head is None,
            },
    {
        match &self.head {
            Some(z) => Some(z.timestamp()),
            None => None,
        }
    }

    /// The occurrence at the head, once more.
    pub fn head_copy(&self) -> (h: Option<ZonedInstant>)
        ensures
            match h {
                Some(z) => self@.head == Some(z@),
                None => self@.head is None,
            },
    {
        match &self.head {
            Some(z) => Some(z.duplicate()),
            None => None,
        }
    }

    /// Pulls while the head lies before the instant `m`.
    pub fn catch_up(&mut self, m: i64) -> (e: Option<RuleError>)
        requires
            old(self).wf(),
        ensures
            final(self).wf(),
            (final(self)@, e) == caught_up(old(self)@, m as int),
    {
        loop
            invariant
                self.wf(),
                caught_up(self@, m as int) == caught_up(old(self)@, m as int),
            decreases EMIT_CAP - self@.stream.emitted, (if self@.head is Some { 1int } else { 0int }),
        {
            match self.head_instant() {
                Some(x) => {
                    if x >= m {
                        return None;
                    }
                },
                None => {
                    return None;
                },
            }
            proof {
                lemma_advance_status(self@.rule, self@.rule.bound, self@.stream);
            }
            let e = self.pull();
            if e.is_some() {
                return e;
            }
        }
    }
}

/// What a list of sources holds.
pub open spec fn sources(v: Seq<Source>) -> Seq<SourceModel> {
    v.map_values(|s: Source| s@)
}

/// What a list of rules holds.
pub open spec fn rule_models(v: Seq<RuleValue>) -> Seq<RuleModel> {
    v.map_values(|r: RuleValue| r@)
}

/// Whether every source of the list is well formed.
pub open spec fn sources_wf(v: Seq<Source>) -> bool {
    forall|i: int| 0 <= i < v.len() ==> (#[trigger] v[i]).wf()
}

/// The lesser of two instants, of which either may be missing.
fn lesser_of(a: Option<i64>, b: Option<i64>) -> (r: Option<i64>)
    ensures
        int_of(r) == lesser(int_of(a), int_of(b)),
{
    match (a, b) {
        (Some(x), Some(y)) => Some(if x <= y {
            x
        } else {
            y
        }),
        (Some(x), None) => Some(x),
        (None, y) => y,
    }
}

/// The integer of a machine integer that may be missing.
pub open spec fn int_of(a: Option<i64>) -> Option<int> {
    match a {
        Some(x) => Some(x as int),
        None => None,
    }
}

/// The least fresh instant at the head of a source.
fn least_head_of(srcs: &Vec<Source>, last: Option<i64>) -> (r: Option<i64>)
    ensures
        int_of(r) == least_head(sources(srcs@), int_of(last), srcs@.len() as int),
{
    let mut best: Option<i64> = None;
    let mut i: usize = 0;
    while i < srcs.len()
        invariant
            i <= srcs.len(),
            int_of(best) == least_head(sources(srcs@), int_of(last), i as int),
        decreases srcs.len() - i,
    {
        let head = match (srcs[i].head_instant(), last) {
            (Some(x), Some(l)) => if x > l {
                Some(x)
            } else {
                None
            },
            (h, _) => h,
        };
        best = lesser_of(best, head);
        i += 1;
    }
    best
}

/// The least fresh instant of a date.
fn least_date_of(dates: &Vec<ZonedInstant>, last: Option<i64>) -> (r: Option<i64>)
    ensures
        int_of(r) == least_date(views(dates@), int_of(last), dates@.len() as int),
{
    let mut best: Option<i64> = None;
    let mut i: usize = 0;
    while i < dates.len()
        invariant
            i <= dates.len(),
            int_of(best) == least_date(views(dates@), int_of(last), i as int),
        decreases dates.len() - i,
    {
        let x = dates[i].timestamp();
        let is_fresh = match last {
            Some(l) => x > l,
            None => true,
        };
        if is_fresh {
            best = lesser_of(best, Some(x));
        } else {
            best = lesser_of(best, None);
        }
        i += 1;
    }
    best
}

/// The head at the instant `m` of the first source that has one there.
fn first_head_at(srcs: &Vec<Source>, m: i64) -> (r: Option<ZonedInstant>)
    ensures
        match r {
            Some(z) => head_at(sources(srcs@), m as int, srcs@.len() as int) == Some(z@),
            None => head_at(sources(srcs@), m as int, srcs@.len() as int) is None,
        },
{
    let mut i: usize = 0;
    while i < srcs.len()
        invariant
            i <= srcs.len(),
            head_at(sources(srcs@), m as int, i as int) is None,
        decreases srcs.len() - i,
    {
        match srcs[i].head_instant() {
            Some(x) => {
                if x == m {
                    let h = srcs[i].head_copy();
                    proof {
                        lemma_head_at_stays(sources(srcs@), m as int, i as int + 1, srcs@.len() as int);
                    }
                    return h;
                }
            },
            None => {},
        }
        i += 1;
    }
    None
}

/// The first head found at an instant stays the first among more sources.
proof fn lemma_head_at_stays(srcs: Seq<SourceModel>, m: int, k: int, n: int)
    requires
        0 <= k <= n,
        head_at(srcs, m, k) is Some,
    ensures
        head_at(srcs, m, n) == head_at(srcs, m, k),
    decreases n - k,
{
    if k < n {
        lemma_head_at_stays(srcs, m, k, n - 1);
    }
}

/// The first date found at an instant stays the first among more dates.
proof fn lemma_date_at_stays(dates: Seq<InstantModel>, m: int, k: int, n: int)
    requires
        0 <= k <= n,
        date_at(dates, m, k) is Some,
    ensures
        date_at(dates, m, n) == date_at(dates, m, k),
    decreases n - k,
{
    if k < n {
        lemma_date_at_stays(dates, m, k, n - 1);
    }
}

/// The first date at the instant `m`.
fn first_date_at(dates: &Vec<ZonedInstant>, m: i64) -> (r: Option<ZonedInstant>)
    ensures
        match r {
            Some(z) => date_at(views(dates@), m as int, dates@.len() as int) == Some(z@),
            None => date_at(views(dates@), m as int, dates@.len() as int) is None,
        },
{
    let mut i: usize = 0;
    while i < dates.len()
        invariant
            i <= dates.len(),
            date_at(views(dates@), m as int, i as int) is None,
        decreases dates.len() - i,
    {
        if dates[i].timestamp() == m {
            let d = dates[i].duplicate();
            proof {
                lemma_date_at_stays(views(dates@), m as int, i as int + 1, dates@.len() as int);
            }
            return Some(d);
        }
        i += 1;
    }
    None
}

/// Pulls the sources that have the instant `m` at their head.
fn refill(srcs: &mut Vec<Source>, m: i64) -> (e: Option<RuleError>)
    requires
        sources_wf(old(srcs)@),
    ensures
        sources_wf(final(srcs)@),
        (sources(final(srcs)@), e) == refilled(sources(old(srcs)@), m as int, old(srcs)@.len() as int),
{
    let ghost start = sources(srcs@);
    let len = srcs.len();
    let mut err: Option<RuleError> = None;
    let mut i: usize = 0;
    while i < len
        invariant
            i <= len,
            len == srcs@.len(),
            len == start.len(),
            sources_wf(srcs@),
            (sources(srcs@), err) == refilled(start, m as int, i as int),
        decreases len - i,
    {
        if err.is_none() {
            let at = match srcs[i].head_instant() {
                Some(x) => x == m,
                None => false,
            };
            if at {
                let ghost before = srcs@;
                err = srcs[i].pull();
                proof {
                    assert(sources(srcs@) =~= sources(before).update(i as int, srcs@[i as int]@));
                }
            }
        }
        i += 1;
    }
    err
}

/// Has every source catch up with the instant `m`.
fn catch_up_all(srcs: &mut Vec<Source>, m: i64) -> (e: Option<RuleError>)
    requires
        sources_wf(old(srcs)@),
    ensures
        sources_wf(final(srcs)@),
        (sources(final(srcs)@), e) == all_caught_up(sources(old(srcs)@), m as int, old(srcs)@.len() as int),
{
    let ghost start = sources(srcs@);
    let len = srcs.len();
    let mut err: Option<RuleError> = None;
    let mut i: usize = 0;
    while i < len
        invariant
            i <= len,
            len == srcs@.len(),
            len == start.len(),
            sources_wf(srcs@),
            (sources(srcs@), err) == all_caught_up(start, m as int, i as int),
        decreases len - i,
    {
        if err.is_none() {
            let ghost before = srcs@;
            err = srcs[i].catch_up(m);
            proof {
                assert(sources(srcs@) =~= sources(before).update(i as int, srcs@[i as int]@));
            }
        }
        i += 1;
    }
    err
}

/// Opens a source for every rule.
fn open_all(rules: &Vec<RuleValue>) -> (r: (Vec<Source>, Option<RuleError>))
    ensures
        sources_wf(r.0@),
        (sources(r.0@), r.1) == all_opened(rule_models(rules@), rules@.len() as int),
{
    let mut out: Vec<Source> = Vec::new();
    let mut err: Option<RuleError> = None;
    let mut i: usize = 0;
    proof {
        assert(sources(out@) =~= Seq::<SourceModel>::empty());
    }
    while i < rules.len()
        invariant
            i <= rules.len(),
            sources_wf(out@),
            (sources(out@), err) == all_opened(rule_models(rules@), i as int),
        decreases rules.len() - i,
    {
        if err.is_none() {
            let ghost before = out@;
            let (src, e) = Source::open(&rules[i]);
            out.push(src);
            err = e;
            proof {
                assert(sources(out@) =~= sources(before).push(src@));
            }
        }
        i += 1;
    }
    (out, err)
}

/// The same dates once more.
fn copy_dates(dates: &Vec<ZonedInstant>) -> (r: Vec<ZonedInstant>)
    ensures
        views(r@) == views(dates@),
{
    let mut out: Vec<ZonedInstant> = Vec::new();
    let mut i: usize = 0;
    while i < dates.len()
        invariant
            i <= dates.len(),
            views(out@) == views(dates@).subrange(0, i as int),
        decreases dates.len() - i,
    {
        let ghost before = out@;
        let d = dates[i].duplicate();
        out.push(d);
        proof {
            assert(views(out@) =~= views(before).push(d@));
            assert(views(dates@)[i as int] == d@);
            assert(views(before).push(d@) =~= views(dates@).subrange(0, i as int + 1));
        }
        i += 1;
    }
    proof {
        assert(views(dates@).subrange(0, i as int) =~= views(dates@));
    }
    out
}

/// A rule set: what its inclusion rules and dates give, without what its
/// exclusion rules and dates give.
pub struct RuleSet {
    rules: Vec<RuleValue>,
    dates: Vec<ZonedInstant>,
    ex_rules: Vec<RuleValue>,
    ex_dates: Vec<ZonedInstant>,
}

impl View for RuleSet {
    type V = RuleSetModel;

    closed spec fn view(&self) -> RuleSetModel {
        RuleSetModel {
            rules: rule_models(self.rules@),
            dates: views(self.dates@),
            ex_rules: rule_models(self.ex_rules@),
            ex_dates: views(self.ex_dates@),
        }
    }
}

/// A lazy handle on the occurrences of a rule set.
pub struct SetIter {
    set: Ghost<RuleSetModel>,
    dates: Vec<ZonedInstant>,
    ex_dates: Vec<ZonedInstant>,
    inc: Vec<Source>,
    ex: Vec<Source>,
    last: Option<i64>,
    status: Status,
}

impl View for SetIter {
    type V = SetStreamModel;

    closed spec fn view(&self) -> SetStreamModel {
        SetStreamModel {
            inc: sources(self.inc@),
            ex: sources(self.ex@),
            last: int_of(self.last),
            status: self.status,
        }
    }
}

impl SetIter {
    /// The rule set whose occurrences the handle gives.
    pub closed spec fn set(&self) -> RuleSetModel {
        self.set@
    }

    /// What holds of every handle that `RuleSet::iter` made, however often
    /// it was pulled.
    pub closed spec fn wf(&self) -> bool {
        &&& self.set@.dates == views(self.dates@)
        &&& self.set@.ex_dates == views(self.ex_dates@)
        &&& sources_wf(self.inc@)
        &&& sources_wf(self.ex@)
    }

    /// Where the stream stands.
    pub fn status(&self) -> (s: Status)
        ensures
            s == self@.status,
    {
        self.status
    }

    /// The next occurrence of the rule set, `Ok(None)` where the stream
    /// has ended, or the error that the stream has failed with.
    pub fn next(&mut self) -> (r: Result<Option<ZonedInstant>, RuleError>)
        requires
            old(self).wf(),
        ensures
            final(self).wf(),
            final(self).set() == old(self).set(),
            final(self)@ == set_advance(old(self).set(), old(self)@).0,
            is_step(r, set_advance(old(self).set(), old(self)@).1),
    {
        loop
            invariant
                self.wf(),
                self.set() == old(self).set(),
                set_advance(self.set(), self@) == set_advance(old(self).set(), old(self)@),
            decreases set_measure(self.set(), self@),
        {
            let ghost before = self@;
            match self.status {
                Status::Finished => {
                    return Ok(None);
                },
                Status::Failed(e) => {
                    return Err(e);
                },
                Status::Running => {},
            }
            let next = lesser_of(least_head_of(&self.inc, self.last), least_date_of(&self.dates, self.last));
            let m = match next {
                None => {
                    self.status = Status::Finished;
                    return Ok(None);
                },
                Some(m) => m,
            };
            let entry = match first_head_at(&self.inc, m) {
                Some(z) => Some(z),
                None => first_date_at(&self.dates, m),
            };
            let e1 = refill(&mut self.inc, m);
            self.last = Some(m);
            match e1 {
                Some(e) => {
                    self.status = Status::Failed(e);
                    return Err(e);
                },
                None => {},
            }
            let e2 = catch_up_all(&mut self.ex, m);
            match e2 {
                Some(e) => {
                    self.status = Status::Failed(e);
                    return Err(e);
                },
                None => {},
            }
            let at_rule = first_head_at(&self.ex, m).is_some();
            let at_date = first_date_at(&self.ex_dates, m).is_some();
            match entry {
                Some(z) => {
                    if !(at_rule || at_date) {
                        return Ok(Some(z));
                    }
                },
                None => {},
            }
            proof {
                lemma_round(self.set(), before, m as int, self@);
            }
        }
    }
}

impl RuleSet {
    /// Every rule of a set is valid, as every rule value is.
    fn rules_valid(&self)
        ensures
            set_valid(self@),
    {
        let mut i: usize = 0;
        while i < self.rules.len()
            invariant
                i <= self.rules.len(),
                forall|k: int| 0 <= k < i ==> (#[trigger] rule_models(self.rules@)[k]).valid(),
            decreases self.rules.len() - i,
        {
            let rule = &self.rules[i];
            proof {
                use_type_invariant(rule);
            }
            i += 1;
        }
        let mut j: usize = 0;
        while j < self.ex_rules.len()
            invariant
                j <= self.ex_rules.len(),
                forall|k: int| 0 <= k < self.rules@.len() ==> (#[trigger] rule_models(self.rules@)[k]).valid(),
                forall|k: int| 0 <= k < j ==> (#[trigger] rule_models(self.ex_rules@)[k]).valid(),
            decreases self.ex_rules.len() - j,
        {
            let rule = &self.ex_rules[j];
            proof {
                use_type_invariant(rule);
            }
            j += 1;
        }
    }

    /// The empty rule set.
    pub fn new() -> (s: RuleSet)
        ensures
            s@.rules.len() == 0,
            s@.dates.len() == 0,
            s@.ex_rules.len() == 0,
            s@.ex_dates.len() == 0,
    {
        RuleSet { rules: Vec::new(), dates: Vec::new(), ex_rules: Vec::new(), ex_dates: Vec::new() }
    }

    /// Adds an inclusion rule.
    pub fn rrule(&mut self, rule: RuleValue)
        ensures
            final(self)@ == (RuleSetModel { rules: old(self)@.rules.push(rule@), ..old(self)@ }),
    {
        proof {
            assert(rule_models(self.rules@.push(rule)) =~= rule_models(self.rules@).push(rule@));
        }
        self.rules.push(rule);
    }

    /// Adds an inclusion date.
    pub fn rdate(&mut self, date: ZonedInstant)
        ensures
            final(self)@ == (RuleSetModel { dates: old(self)@.dates.push(date@), ..old(self)@ }),
    {
        proof {
            assert(views(self.dates@.push(date)) =~= views(self.dates@).push(date@));
        }
        self.dates.push(date);
    }

    /// Adds an exclusion rule.
    pub fn exrule(&mut self, rule: RuleValue)
        ensures
            final(self)@ == (RuleSetModel { ex_rules: old(self)@.ex_rules.push(rule@), ..old(self)@ }),
    {
        proof {
            assert(rule_models(self.ex_rules@.push(rule)) =~= rule_models(self.ex_rules@).push(rule@));
        }
        self.ex_rules.push(rule);
    }

    /// Adds an exclusion date.
    pub fn exdate(&mut self, date: ZonedInstant)
        ensures
            final(self)@ == (RuleSetModel { ex_dates: old(self)@.ex_dates.push(date@), ..old(self)@ }),
    {
        proof {
            assert(views(self.ex_dates@.push(date)) =~= views(self.ex_dates@).push(date@));
        }
        self.ex_dates.push(date);
    }

    /// A lazy handle on the occurrences of the rule set.
    pub fn iter(&self) -> (it: SetIter)
        ensures
            it.wf(),
            it.set() == self@,
            it@ == initial_set_stream(self@),
    {
        let (inc, e1) = open_all(&self.rules);
        let (ex, e2) = if e1.is_some() {
            let none: Vec<Source> = Vec::new();
            proof {
                assert(sources(none@) =~= Seq::<SourceModel>::empty());
            }
            (none, None)
        } else {
            open_all(&self.ex_rules)
        };
        let status = match (e1, e2) {
            (Some(e), _) => Status::Failed(e),
            (None, Some(e)) => Status::Failed(e),
            (None, None) => Status::Running,
        };
        SetIter {
            set: Ghost(self@),
            dates: copy_dates(&self.dates),
            ex_dates: copy_dates(&self.ex_dates),
            inc,
            ex,
            last: None,
            status,
        }
    }

    /// Whether an inclusion rule of the set has no bound.
    fn has_unbounded_rule(&self) -> (b: bool)
        ensures
            b == some_unbounded(self@.rules, self@.rules.len() as int),
    {
        let mut i: usize = 0;
        while i < self.rules.len()
            invariant
                i <= self.rules.len(),
                !some_unbounded(rule_models(self.rules@), i as int),
            decreases self.rules.len() - i,
        {
            let unbounded = match (self.rules[i].count(), self.rules[i].until()) {
                (None, None) => true,
                _ => false,
            };
            if unbounded {
                assert(rule_models(self.rules@)[i as int].bound is Unbounded);
                return true;
            }
            i += 1;
        }
        false
    }

    /// The occurrences of the rule set from its start, `limit` of them at
    /// most.
    ///
    /// `BoundExceededError` where an inclusion rule has no bound and the
    /// limit is used up, and where the stream of one of the rules met its
    /// cap first. The set has no cap of its own.
    pub fn all(&self, limit: usize) -> (r: Result<Vec<ZonedInstant>, RuleError>)
        ensures
            match set_all_outcome(self@, limit as nat) {
                Ok(seq) => r matches Ok(v) && views(v@) == seq,
                Err(e) => r matches Err(f) && f == e,
            },
            r matches Ok(v) ==> instants_ascend(views(v@)) && v@.len() <= limit && forall|k: int|
                0 <= k < v@.len() ==> belongs(self@, (#[trigger] views(v@)[k]).instant),
    {
        self.rules_valid();
        proof {
            lemma_set_sound(self@, limit as nat);
        }
        let mut it = self.iter();
        let mut out: Vec<ZonedInstant> = Vec::new();
        let ghost whole = set_gather(self@, initial_set_stream(self@), limit as nat);
        proof {
            assert(views(out@) =~= Seq::<InstantModel>::empty());
            assert(after_prefix(views(out@), set_gather(self@, it@, limit as nat)).occurrences =~= whole.occurrences);
        }
        while out.len() < limit
            invariant
                it.wf(),
                it.set() == self@,
                out@.len() <= limit,
                set_all_outcome(self@, limit as nat) matches Ok(seq) ==> instants_ascend(seq) && forall|k: int|
                    0 <= k < seq.len() ==> belongs(self@, (#[trigger] seq[k]).instant),
                whole == set_gather(self@, initial_set_stream(self@), limit as nat),
                whole == after_prefix(views(out@), set_gather(self@, it@, (limit - out@.len()) as nat)),
            decreases limit - out@.len(),
        {
            let ghost acc = views(out@);
            match it.next() {
                Ok(Some(z)) => {
                    out.push(z);
                    proof {
                        let rest = set_gather(self@, it@, (limit - out@.len()) as nat);
                        assert(views(out@) =~= acc.push(z@));
                        assert(acc + (seq![z@] + rest.occurrences) =~= views(out@) + rest.occurrences);
                    }
                },
                Ok(None) => {
                    proof {
                        assert(acc + Seq::<InstantModel>::empty() =~= acc);
                    }
                    return Ok(out);
                },
                Err(e) => {
                    return Err(e);
                },
            }
        }
        proof {
            assert(views(out@) + Seq::<InstantModel>::empty() =~= views(out@));
        }
        if self.has_unbounded_rule() {
            Err(RuleError::BoundExceededError)
        } else {
            Ok(out)
        }
    }

    /// The occurrences of the rule set between two instants, in order.
    /// Where `inclusive`, an occurrence at either instant counts.
    pub fn between(&self, after: &ZonedInstant, before: &ZonedInstant, inclusive: bool) -> (r: Result<
        Vec<ZonedInstant>,
        RuleError,
    >)
        ensures
            match set_between_outcome(self@, after@.instant, before@.instant, inclusive) {
                Ok(seq) => r matches Ok(v) && views(v@) == seq,
                Err(e) => r matches Err(f) && f == e,
            },
    {
        let lo = after.timestamp();
        let hi = before.timestamp();
        let mut it = self.iter();
        let mut out: Vec<ZonedInstant> = Vec::new();
        let ghost whole = set_sweep(self@, initial_set_stream(self@), Some(lo as int), hi as int, inclusive);
        proof {
            assert(views(out@) =~= Seq::<InstantModel>::empty());
            assert(after_prefix(views(out@), whole).occurrences =~= whole.occurrences);
        }
        loop
            invariant
                it.wf(),
                it.set() == self@,
                lo == after@.instant,
                hi == before@.instant,
                whole == set_sweep(self@, initial_set_stream(self@), Some(lo as int), hi as int, inclusive),
                whole == after_prefix(views(out@), set_sweep(self@, it@, Some(lo as int), hi as int, inclusive)),
            decreases set_measure(self@, it@),
        {
            let ghost acc = views(out@);
            proof {
                lemma_set_advance_decreases(self@, it@);
            }
            match it.next() {
                Ok(Some(z)) => {
                    let x = z.timestamp();
                    if (inclusive && x > hi) || (!inclusive && x >= hi) {
                        proof {
                            assert(acc + Seq::<InstantModel>::empty() =~= acc);
                        }
                        return Ok(out);
                    }
                    if (inclusive && x >= lo) || (!inclusive && x > lo) {
                        out.push(z);
                        proof {
                            let rest = set_sweep(self@, it@, Some(lo as int), hi as int, inclusive);
                            assert(views(out@) =~= acc.push(z@));
                            assert(acc + (seq![z@] + rest.occurrences) =~= views(out@) + rest.occurrences);
                        }
                    }
                },
                Ok(None) => {
                    proof {
                        assert(acc + Seq::<InstantModel>::empty() =~= acc);
                    }
                    return Ok(out);
                },
                Err(e) => {
                    return Err(e);
                },
            }
        }
    }

    /// The last occurrence of the rule set before the instant `dt`, or at
    /// it where `inclusive`; `None` where the set has none.
    pub fn before(&self, dt: &ZonedInstant, inclusive: bool) -> (r: Result<Option<ZonedInstant>, RuleError>)
        ensures
            match set_before_outcome(self@, dt@.instant, inclusive) {
                Ok(Some(o)) => r matches Ok(Some(z)) && z@ == o,
                Ok(None) => r matches Ok(None),
                Err(e) => r matches Err(f) && f == e,
            },
    {
        let hi = dt.timestamp();
        let mut it = self.iter();
        let mut best: Option<ZonedInstant> = None;
        let ghost whole = set_sweep(self@, initial_set_stream(self@), None, hi as int, inclusive);
        let ghost mut acc = Seq::<InstantModel>::empty();
        proof {
            assert(after_prefix(acc, whole).occurrences =~= whole.occurrences);
        }
        loop
            invariant
                it.wf(),
                it.set() == self@,
                hi == dt@.instant,
                whole == set_sweep(self@, initial_set_stream(self@), None, hi as int, inclusive),
                whole == after_prefix(acc, set_sweep(self@, it@, None, hi as int, inclusive)),
                acc.len() == 0 ==> best is None,
                acc.len() > 0 ==> (best matches Some(z) && z@ == acc.last()),
            decreases set_measure(self@, it@),
        {
            proof {
                lemma_set_advance_decreases(self@, it@);
            }
            match it.next() {
                Ok(Some(z)) => {
                    let x = z.timestamp();
                    if (inclusive && x > hi) || (!inclusive && x >= hi) {
                        proof {
                            assert(acc + Seq::<InstantModel>::empty() =~= acc);
                        }
                        return Ok(best);
                    }
                    proof {
                        let rest = set_sweep(self@, it@, None, hi as int, inclusive);
                        assert(acc + (seq![z@] + rest.occurrences) =~= acc.push(z@) + rest.occurrences);
                        acc = acc.push(z@);
                    }
                    best = Some(z);
                },
                Ok(None) => {
                    proof {
                        assert(acc + Seq::<InstantModel>::empty() =~= acc);
                    }
                    return Ok(best);
                },
                Err(e) => {
                    return Err(e);
                },
            }
        }
    }

    /// The first occurrence of the rule set behind the instant `dt`, or at
    /// it where `inclusive`; `None` where the set has none.
    pub fn after(&self, dt: &ZonedInstant, inclusive: bool) -> (r: Result<Option<ZonedInstant>, RuleError>)
        ensures
            match set_after_outcome(self@, dt@.instant, inclusive) {
                Ok(Some(o)) => r matches Ok(Some(z)) && z@ == o,
                Ok(None) => r matches Ok(None),
                Err(e) => r matches Err(f) && f == e,
            },
    {
        let lo = dt.timestamp();
        let mut it = self.iter();
        loop
            invariant
                it.wf(),
                it.set() == self@,
                lo == dt@.instant,
                set_after_outcome(self@, lo as int, inclusive) == set_first_reaching(self@, it@, lo as int, inclusive),
            decreases set_measure(self@, it@),
        {
            proof {
                lemma_set_advance_decreases(self@, it@);
            }
            match it.next() {
                Ok(Some(z)) => {
                    let x = z.timestamp();
                    if (inclusive && x >= lo) || (!inclusive && x > lo) {
                        return Ok(Some(z));
                    }
                },
                Ok(None) => {
                    return Ok(None);
                },
                Err(e) => {
                    return Err(e);
                },
            }
        }
    }
}

} // verus!
