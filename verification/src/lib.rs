//! Recurrence rules of the iCalendar kind: a rule value, the lazy expansion of
//! a rule into its occurrences, and the composition of rules and dates into a
//! rule set. Every function carries a contract that Verus proves.
//!
//! - `calendar`: the proleptic Gregorian calendar on day numbers.
//! - `zone`, `instant`: time zones and zoned instants.
//! - `model`: what a rule means; `rule`: the rule value and its admission.
//! - `expand`, `candidates`: the candidates of one period, and what they are.
//! - `stream`, `query`: the stream of occurrences of a rule, and what a caller
//!   asks of it; `laws`, `complete`: what holds of them.
//! - `set_model`, `ruleset`, `set_laws`: rule sets.
//! - `content_line`: the parts of one content line.

pub mod calendar;
pub mod candidates;
pub mod complete;
pub mod content_line;
pub mod error;
pub mod expand;
pub mod instant;
pub mod laws;
pub mod model;
pub mod query;
pub mod rule;
pub mod ruleset;
pub mod set_laws;
pub mod set_model;
pub mod stream;
pub mod zone;
