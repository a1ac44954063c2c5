//! Pluggable constraints.
//!
//! A constraint is a stateless predicate over a problem's current
//! (possibly partial) assignment.  The solver evaluates an ordered list of
//! constraints by logical AND after every tentative step and backtracks
//! while one is violated; constraints never mutate the problem.

use vstd::prelude::*;

use crate::problem::CSP;

pub mod grid;

verus! {

/// A pure predicate over the current assignment of a problem.
///
/// `spec_satisfied` is the mathematical meaning of the constraint, stated
/// over the assignment view alone, and `is_satisfied` computes exactly it.
pub trait Constraint<P: CSP> {
    /// What the constraint demands of an assignment.
    spec fn spec_satisfied(&self, values: Seq<Seq<Option<i8>>>) -> bool;

    /// Evaluate the constraint against the problem's current assignment.
    fn is_satisfied(&self, problem: &P) -> (r: bool)
        requires
            problem.wf(),
        ensures
            r == self.spec_satisfied(problem.values()),
    ;
}

} // verus!
