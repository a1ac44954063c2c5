//! The search loop of chronological backtracking.
//!
//! The solver owns one problem and an ordered list of constraints.  On
//! every iteration it re-evaluates all constraints against the whole
//! current assignment (their logical AND): while one is violated it steps
//! the problem backward, otherwise forward, until the traversal completes
//! (a solution) or backtracking is exhausted (unsatisfiable).  The
//! problem's shrinking radix-257 measure shows the loop terminates.

use vstd::prelude::*;

use crate::constraints::Constraint;
use crate::problem::CSP;
use crate::problem::SolveError;

verus! {

/// A solver for one problem instance under an ordered constraint list.
/// Solving is destructive on the owned problem: its state always reflects
/// the current partial assignment.
pub struct CSPSolver<P: CSP, C: Constraint<P>> {
    pub problem: P,
    pub constraints: Vec<C>,
}

impl<P: CSP, C: Constraint<P>> CSPSolver<P, C> {
    /// Every constraint of the list accepts the problem's current
    /// assignment.
    pub open spec fn all_spec_satisfied(&self) -> bool {
        forall|i: int|
            0 <= i < self.constraints@.len()
                ==> (#[trigger] self.constraints@[i]).spec_satisfied(self.problem.values())
    }

    /// A solver over `problem` that will enforce `constraints`, in order.
    pub fn new(problem: P, constraints: Vec<C>) -> (s: Self)
        ensures
            s.problem == problem,
            s.constraints == constraints,
    {
        CSPSolver { problem, constraints }
    }

    /// Whether every constraint holds of the current assignment.
    fn all_satisfied(&self) -> (r: bool)
        requires
            self.problem.wf(),
        ensures
            r == self.all_spec_satisfied(),
    {
        let mut i: usize = 0;
        while i < self.constraints.len()
            invariant
                self.problem.wf(),
                i <= self.constraints@.len(),
                forall|t: int|
                    0 <= t < i
                        ==> (#[trigger] self.constraints@[t]).spec_satisfied(
                            self.problem.values()),
            decreases self.constraints@.len() - i,
        {
            if !self.constraints[i].is_satisfied(&self.problem) {
                return false;
            }
            i = i + 1;
        }
        true
    }

    /// Search for one solution: alternate backward steps (while some
    /// constraint is violated) and forward steps (while all hold) until
    /// the problem completes or backtracking is exhausted.
    ///
    /// On `Ok` the problem is left complete with every constraint of the
    /// list satisfied; the given clues are preserved in any case.
    pub fn solve(&mut self) -> (r: Result<(), SolveError>)
        requires
            old(self).problem.wf(),
        ensures
            final(self).constraints == old(self).constraints,
            final(self).problem.wf(),
            final(self).problem.clues() == old(self).problem.clues(),
            r is Ok ==> final(self).problem.measure() <= old(self).problem.measure(),
            r is Ok ==> final(self).problem.complete() && final(self).all_spec_satisfied(),
            r is Err ==> r == Err::<(), SolveError>(SolveError::Unsatisfiable),
    {
        let mut solved = false;
        while !solved
            invariant
                self.constraints == old(self).constraints,
                self.problem.wf(),
                self.problem.clues() == old(self).problem.clues(),
                self.problem.measure() <= old(self).problem.measure(),
                solved ==> self.problem.complete() && self.all_spec_satisfied(),
            decreases
                (if solved { 0int } else { 1int }),
                self.problem.measure(),
                self.problem.steps_left(),
        {
            if !self.all_satisfied() {
                match self.problem.backward() {
                    Ok(()) => {}
                    Err(e) => {
                        return Err(e);
                    }
                }
            } else {
                match self.problem.forward() {
                    Ok(done) => {
                        solved = done;
                    }
                    Err(e) => {
                        return Err(e);
                    }
                }
            }
        }
        Ok(())
    }

    /// Count the solutions by enumeration: after each success, force one
    /// more backward step (rejecting the found solution) and search on
    /// until backtracking is exhausted.  Saturates at `i32::MAX`.
    ///
    /// A positive count is backed by a witness: some well-formed, complete
    /// state that preserves this solver's clues and satisfies every
    /// constraint of its list.
    pub fn how_many_solutions(&mut self) -> (n: i32)
        requires
            old(self).problem.wf(),
        ensures
            final(self).constraints == old(self).constraints,
            final(self).problem.wf(),
            final(self).problem.clues() == old(self).problem.clues(),
            n >= 0,
            n > 0 ==> exists|witness: P| {
                &&& witness.wf()
                &&& witness.complete()
                &&& witness.clues() == old(self).problem.clues()
                &&& forall|i: int|
                    0 <= i < final(self).constraints@.len() ==> (#[trigger] final(
                        self).constraints@[i]).spec_satisfied(witness.values())
            },
    {
        let mut ret: i32 = 0;
        let mut exhausted = false;
        while !exhausted
            invariant
                self.constraints == old(self).constraints,
                self.problem.wf(),
                self.problem.clues() == old(self).problem.clues(),
                ret >= 0,
                ret > 0 ==> exists|witness: P| {
                    &&& witness.wf()
                    &&& witness.complete()
                    &&& witness.clues() == old(self).problem.clues()
                    &&& forall|i: int|
                        0 <= i < self.constraints@.len() ==> (
                        #[trigger] self.constraints@[i]).spec_satisfied(witness.values())
                },
            decreases (if exhausted { 0int } else { 1int }), self.problem.measure(),
        {
            match self.solve() {
                Ok(()) => {
                    let ghost found = self.problem;
                    proof {
                        assert(found.wf() && found.complete() && found.clues() == old(
                            self).problem.clues());
                        assert(exists|witness: P| {
                            &&& witness.wf()
                            &&& witness.complete()
                            &&& witness.clues() == old(self).problem.clues()
                            &&& forall|i: int|
                                0 <= i < self.constraints@.len() ==> (
                                #[trigger] self.constraints@[i]).spec_satisfied(
                                    witness.values())
                        });
                    }
                    if ret < i32::MAX {
                        ret = ret + 1;
                    }
                    match self.problem.backward() {
                        Ok(()) => {}
                        Err(_) => {
                            exhausted = true;
                        }
                    }
                }
                Err(_) => {
                    exhausted = true;
                }
            }
        }
        ret
    }

    /// Enumerate all solutions: each is handed out as an independent
    /// snapshot taken before the search moves on.  Every returned state is
    /// complete, satisfies every constraint of the list, and preserves the
    /// clues of the problem this solver was built with.
    pub fn solve_all(&mut self) -> (solutions: Vec<P>)
        requires
            old(self).problem.wf(),
        ensures
            final(self).constraints == old(self).constraints,
            final(self).problem.wf(),
            final(self).problem.clues() == old(self).problem.clues(),
            forall|k: int|
                0 <= k < solutions@.len() ==> {
                    &&& (#[trigger] solutions@[k]).wf()
                    &&& solutions@[k].complete()
                    &&& solutions@[k].clues() == old(self).problem.clues()
                    &&& forall|i: int|
                        0 <= i < final(self).constraints@.len()
                            ==> (#[trigger] final(self).constraints@[i]).spec_satisfied(
                                solutions@[k].values())
                },
    {
        let mut ret: Vec<P> = Vec::new();
        let mut exhausted = false;
        while !exhausted
            invariant
                self.constraints == old(self).constraints,
                self.problem.wf(),
                self.problem.clues() == old(self).problem.clues(),
                forall|k: int|
                    0 <= k < ret@.len() ==> {
                        &&& (#[trigger] ret@[k]).wf()
                        &&& ret@[k].complete()
                        &&& ret@[k].clues() == old(self).problem.clues()
                        &&& forall|i: int|
                            0 <= i < self.constraints@.len()
                                ==> (#[trigger] self.constraints@[i]).spec_satisfied(
                                    ret@[k].values())
                    },
            decreases (if exhausted { 0int } else { 1int }), self.problem.measure(),
        {
            match self.solve() {
                Ok(()) => {
                    let snap = self.problem.snapshot();
                    ret.push(snap);
                    match self.problem.backward() {
                        Ok(()) => {}
                        Err(_) => {
                            exhausted = true;
                        }
                    }
                }
                Err(_) => {
                    exhausted = true;
                }
            }
        }
        ret
    }
}

} // verus!
