//! The problem-state abstraction driven by the solver.
//!
//! A constraint-satisfaction problem exposes two state transitions:
//! [`CSP::forward`] (assign the next candidate or move the cursor on) and
//! [`CSP::backward`] (retry the most recent choice, undoing it when it is
//! exhausted).  The solver needs nothing else; every concrete problem shape
//! (the generic [`grid::Grid`], the standalone [`sudoku::Sudoku`]) lives in
//! a submodule.
//!
//! To show that a search over such a problem terminates, each problem also
//! exposes a *measure*: its domains' remaining candidate counts ("slack"),
//! read as the digit string of a radix-257 number, most significant digit
//! first.  Advancing any domain lowers its digit while the digits before it
//! stay put, so the number shrinks on every backtracking step; the helpers
//! below prove exactly that digit-string order.

use vstd::prelude::*;

pub mod grid;
pub mod sudoku;

verus! {

/// Reported when the search cannot retreat past the origin cell: the
/// puzzle has no (further) solution.
#[derive(Copy, Clone, Debug, PartialEq, Eq, Structural)]
pub enum SolveError {
    Unsatisfiable,
}

/// The number whose radix-257 digit string is `s`, most significant digit
/// first.
pub open spec fn digits_val(s: Seq<nat>) -> nat
    decreases s.len(),
{
    if s.len() == 0 {
        0
    } else {
        digits_val(s.drop_last()) * 257 + s.last()
    }
}

/// Lowering one digit lowers the number, whatever happens to the digits
/// after it: digit strings are ordered lexicographically.
pub proof fn lemma_digits_val_lt(s1: Seq<nat>, s2: Seq<nat>, p: int)
    requires
        s1.len() == s2.len(),
        0 <= p < s1.len(),
        forall|i: int| 0 <= i < p ==> s1[i] == s2[i],
        s1[p] < s2[p],
        forall|i: int| p < i < s1.len() ==> s1[i] < 257,
    ensures
        digits_val(s1) < digits_val(s2),
    decreases s1.len(),
{
    let n = s1.len() as int;
    if p == n - 1 {
        assert(s1.drop_last() =~= s2.drop_last());
        assert(s1.last() == s1[p]);
        assert(s2.last() == s2[p]);
    } else {
        assert(forall|i: int| 0 <= i < p ==> s1.drop_last()[i] == s2.drop_last()[i]);
        assert(forall|i: int| p < i < s1.drop_last().len() ==> s1.drop_last()[i] < 257);
        assert(s1.drop_last()[p] == s1[p]);
        assert(s2.drop_last()[p] == s2[p]);
        lemma_digits_val_lt(s1.drop_last(), s2.drop_last(), p);
        let v1 = digits_val(s1.drop_last());
        let v2 = digits_val(s2.drop_last());
        assert(v1 + 1 <= v2);
        assert(s1.last() < 257);
        assert(digits_val(s1) == v1 * 257 + s1.last());
        assert(digits_val(s2) == v2 * 257 + s2.last());
        assert(v1 * 257 + 257 <= v2 * 257) by (nonlinear_arith)
            requires v1 + 1 <= v2,
        ;
    }
}

/// A constraint-satisfaction problem as the solver sees it: a state with a
/// well-formedness invariant, a completion test, an unchangeable record of
/// its given/clue cells, and the forward/backward transitions of
/// chronological backtracking.
///
/// `measure()`/`steps_left()` justify termination: `backward` shrinks the
/// measure, and `forward` either shrinks it (a new candidate was assigned)
/// or keeps it while `steps_left` shrinks (the cursor only moved on).
pub trait CSP: Sized {
    /// The state invariant; established by construction, preserved by both
    /// transitions.
    spec fn wf(&self) -> bool;

    /// Whether the traversal has visited and filled every cell.
    spec fn complete(&self) -> bool;

    /// The current (possibly partial) assignment: one row of cell values
    /// per grid row, `None` for an unassigned cell.  Constraints are
    /// predicates over exactly this view.
    spec fn values(&self) -> Seq<Seq<Option<i8>>>;

    /// The given/clue cells: each pinned position mapped to its pinned
    /// value.  Never changed by the transitions.
    spec fn clues(&self) -> Map<(int, int), i8>;

    /// The termination measure: the problem's slack digits read as a
    /// radix-257 number.
    spec fn measure(&self) -> nat;

    /// How many plain cursor moves remain before the traversal completes.
    spec fn steps_left(&self) -> nat;

    /// One forward step: if the traversal is complete, report success and
    /// change nothing; if the current cell is unassigned, try its next
    /// candidate (so the caller can re-check the constraints before moving
    /// past it); otherwise move the cursor to the next cell in row-major
    /// order, reporting completion on the very call that steps past the
    /// last cell.  A completing call never changes the assignment.
    fn forward(&mut self) -> (r: Result<bool, SolveError>)
        requires
            old(self).wf(),
        ensures
            final(self).wf(),
            final(self).clues() == old(self).clues(),
            r matches Ok(done) && done ==> {
                &&& final(self).complete()
                &&& final(self).values() == old(self).values()
                &&& final(self).measure() <= old(self).measure()
            },
            r matches Ok(done) && !done ==> final(self).measure() < old(self).measure() || (
                final(self).measure() == old(self).measure()
                && final(self).steps_left() < old(self).steps_left()),
    ;

    /// One backward step: advance the most recent choice to its next
    /// candidate, undoing exhausted cells and retreating over them; report
    /// [`SolveError::Unsatisfiable`] when no choice is left to retry.
    fn backward(&mut self) -> (r: Result<(), SolveError>)
        requires
            old(self).wf(),
        ensures
            final(self).wf(),
            final(self).clues() == old(self).clues(),
            r is Ok ==> final(self).measure() < old(self).measure(),
    ;

    /// An independent copy of the current state, for handing out solutions
    /// while the search goes on mutating this one.  The copy carries the
    /// same assignment, clues and completion state.
    fn snapshot(&self) -> (r: Self)
        requires
            self.wf(),
        ensures
            r.wf(),
            r.complete() == self.complete(),
            r.values() == self.values(),
            r.clues() == self.clues(),
    ;
}

} // verus!
