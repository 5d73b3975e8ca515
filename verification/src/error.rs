//! The errors that the rule engine reports.

use vstd::prelude::*;

verus! {

/// What can go wrong in building a rule or in expanding it.
#[derive(Clone, Copy, Debug, PartialEq, Eq, Structural)]
pub enum RuleError {
    /// The parts of a rule break one of the conditions that the engine
    /// relies on.
    StructuralError,
    /// A zone identifier names no zone.
    UnknownZoneError,
    /// The defensive cap on the work of one enumeration was reached.
    BoundExceededError,
    /// Civil fields lie outside the dates that can be represented, or name a
    /// civil time that does not exist in its zone.
    DateArithmeticError,
}

} // verus!
