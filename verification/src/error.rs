//! Why planning can fail.

use vstd::prelude::*;
use vstd::string::*;

verus! {

/// The ways in which a planning call ends without a plan.
#[derive(Clone, Copy, Debug, PartialEq, Eq, Structural)]
pub enum PlanError {
    /// A route was asked for to a station that cannot be reached.
    Unreachable,
    /// A train or a package is named that the tables do not hold.
    LookupMiss,
    /// Nothing is left to do, and yet not every package is delivered.
    NoSolution,
    /// A time or a distance no longer fits in an `i32`.
    Overflow,
    /// The search went deeper than its budget of steps allows.
    BudgetExhausted,
}

impl PlanError {
    /// What went wrong, in words.
    pub fn message(&self) -> (r: String)
        ensures
            r@ == match *self {
                PlanError::Unreachable => "Destination not found"@,
                PlanError::LookupMiss => "Train or package not found"@,
                PlanError::NoSolution => "No solution found"@,
                PlanError::Overflow => "A time or a distance is out of range"@,
                PlanError::BudgetExhausted => "The search went deeper than its budget allows"@,
            },
    {
        match self {
            PlanError::Unreachable => String::from_str("Destination not found"),
            PlanError::LookupMiss => String::from_str("Train or package not found"),
            PlanError::NoSolution => String::from_str("No solution found"),
            PlanError::Overflow => String::from_str("A time or a distance is out of range"),
            PlanError::BudgetExhausted => String::from_str(
                "The search went deeper than its budget allows",
            ),
        }
    }
}

} // verus!
