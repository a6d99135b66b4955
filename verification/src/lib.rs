//! Temporal patterns over proposition traces.
//!
//! A trace is a sequence of steps; each step lists the propositions that hold
//! at that discrete time. Patterns (response, precedence, existence, absence)
//! are evaluated over a region of the trace chosen by a scope, and can be
//! combined with AND/OR.
use vstd::prelude::*;

pub mod absence;
pub mod combination;
pub mod existence;
pub mod laws;
pub mod precedence;
pub mod response;
pub mod scope;
pub mod trace;

verus! {

/// The propositions that hold at a single time step.
pub type Step = Vec<String>;

/// A full execution trace: one step per discrete time.
pub type Trace = Vec<Step>;

} // verus!

pub use absence::AbsencePattern;
pub use combination::{Combination, CombinationOp, Pattern};
pub use existence::ExistencePattern;
pub use precedence::PrecedencePattern;
pub use response::ResponsePattern;
pub use scope::Scope;
