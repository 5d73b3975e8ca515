//! Time zones: from a civil time in a zone to absolute instants.
//!
//! The zone database is that of `chrono_tz`. What it returns is known to the
//! proofs by name only; the policy on gaps and folds is proved here.

use vstd::prelude::*;
use crate::error::RuleError;

verus! {

/// What a civil time maps to in a zone. Instants are seconds since
/// 1970-01-01T00:00:00 UTC.
#[derive(Clone, Copy, Debug, PartialEq, Eq, Structural)]
pub enum LocalTime {
    /// The civil time does not exist: the clocks skipped it.
    Gap,
    /// The civil time occurs once.
    Unique(i64),
    /// The civil time occurs twice: the clocks were set back over it.
    Fold(i64, i64),
}

/// Whether the zone database of `chrono_tz` knows a zone of this name.
pub uninterp spec fn zone_exists(name: Seq<char>) -> bool;

/// What the zone database of `chrono_tz` maps the civil second `civil` to,
/// in the zone called `name`; `None` where it has no zone of that name, and
/// where `chrono` cannot hold the civil second.
pub uninterp spec fn local_mapping(name: Seq<char>, civil: int) -> Option<LocalTime>;

/// Looks a zone name up with `chrono_tz::Tz::from_str` and says whether it
/// was found. The contract gives that answer its name, `zone_exists`.
#[verifier::external_body]
fn zone_is_known(name: &str) -> (b: bool)
    ensures
        b == zone_exists(name@),
{
    name.parse::<chrono_tz::Tz>().is_ok()
}

/// Maps a civil time to instants with `chrono::TimeZone::from_local_datetime`
/// on the `chrono_tz::Tz` of that name. The contract gives the result its
/// name, `local_mapping`. `None` where the name is not found, and where
/// `chrono` cannot hold the civil second.
#[verifier::external_body]
fn map_local(name: &str, civil: i64) -> (r: Option<LocalTime>)
    ensures
        r == local_mapping(name@, civil as int),
{
    match (name.parse::<chrono_tz::Tz>(), chrono::DateTime::from_timestamp(civil, 0)) {
        (Ok(tz), Some(dt)) => Some(
            match chrono::TimeZone::from_local_datetime(&tz, &dt.naive_utc()) {
                chrono::LocalResult::Single(a) => LocalTime::Unique(a.timestamp()),
                chrono::LocalResult::Ambiguous(a, b) => LocalTime::Fold(a.timestamp(), b.timestamp()),
                chrono::LocalResult::None => LocalTime::Gap,
            },
        ),
        _ => None,
    }
}

/// The instant that a civil time stands for: none in a gap, the earlier of
/// the two in a fold.
pub open spec fn settle(m: LocalTime) -> Option<int> {
    match m {
        LocalTime::Gap => None,
        LocalTime::Unique(a) => Some(a as int),
        LocalTime::Fold(a, b) => Some(if a <= b {
            a as int
        } else {
            b as int
        }),
    }
}

/// The instant of the civil second `civil` in the zone `name`, if it has
/// one. It has none where the zone database has no answer.
pub open spec fn instant_of(name: Seq<char>, civil: int) -> Option<int> {
    match local_mapping(name, civil) {
        Some(m) => settle(m),
        None => None,
    }
}

/// Applies the policy on gaps and folds to one mapping: a civil time in a
/// gap has no instant, one in a fold has the earlier of its two.
pub fn settle_local_time(m: LocalTime) -> (r: Option<i64>)
    ensures
        r is Some == settle(m) is Some,
        r matches Some(a) ==> settle(m) == Some(a as int),
        m is Gap <==> r is None,
        m matches LocalTime::Fold(a, b) ==> (r matches Some(c) && c <= a && c <= b && (c == a || c == b)),
        m matches LocalTime::Unique(a) ==> r == Some(a),
{
    match m {
        LocalTime::Gap => None,
        LocalTime::Unique(a) => Some(a),
        LocalTime::Fold(a, b) => if a <= b {
            Some(a)
        } else {
            Some(b)
        },
    }
}

/// A zone of the database, known by its identifier.
#[derive(Debug)]
pub struct Zone {
    name: String,
}

impl View for Zone {
    type V = Seq<char>;

    closed spec fn view(&self) -> Seq<char> {
        self.name@
    }
}

impl Zone {
    #[verifier::type_invariant]
    spec fn known(&self) -> bool {
        zone_exists(self.name@)
    }

    /// The zone of the given identifier; `UnknownZoneError` where the database
    /// has none of that name.
    pub fn named(name: &str) -> (r: Result<Zone, RuleError>)
        ensures
            zone_exists(name@) ==> (r matches Ok(z) && z@ == name@),
            !zone_exists(name@) ==> r == Err::<Zone, RuleError>(RuleError::UnknownZoneError),
    {
        if zone_is_known(name) {
            Ok(Zone { name: name.to_owned() })
        } else {
            Err(RuleError::UnknownZoneError)
        }
    }

    /// The identifier of the zone.
    pub fn name(&self) -> (s: &str)
        ensures
            s@ == self@,
            zone_exists(s@),
    {
        proof {
            use_type_invariant(self);
        }
        self.name.as_str()
    }

    /// The same zone once more.
    pub fn duplicate(&self) -> (z: Zone)
        ensures
            z@ == self@,
    {
        proof {
            use_type_invariant(self);
        }
        Zone { name: self.name.clone() }
    }

    /// What a civil second maps to in this zone: one instant, the two of a
    /// fold, or a gap; `None` where the zone database has no answer.
    pub fn local_time(&self, civil: i64) -> (r: Option<LocalTime>)
        ensures
            r == local_mapping(self@, civil as int),
    {
        map_local(self.name.as_str(), civil)
    }

    /// The instant that a civil second stands for in this zone, by the
    /// policy on gaps and folds.
    pub fn instant_at(&self, civil: i64) -> (r: Option<i64>)
        ensures
            r is Some == instant_of(self@, civil as int) is Some,
            r matches Some(a) ==> instant_of(self@, civil as int) == Some(a as int),
    {
        match map_local(self.name.as_str(), civil) {
            Some(m) => settle_local_time(m),
            None => None,
        }
    }
}

} // verus!
