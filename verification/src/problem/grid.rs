//! The grid-shaped problem container: a square 2D arrangement of domains
//! plus a row-major traversal cursor, exposing the forward/backward state
//! transitions of chronological backtracking.

use vstd::arithmetic::div_mod::lemma_fundamental_div_mod;
use vstd::arithmetic::div_mod::lemma_fundamental_div_mod_converse;
use vstd::prelude::*;
use vstd::string::StringExecFns;

use crate::domains::ConstructionError;
use crate::domains::Domain;
use crate::domains::domain_has_next;
use crate::domains::domain_slack;
use crate::domains::lemma_slack_bounded;
use crate::presentation::grid_cell_string;
use crate::presentation::grid_text;
use crate::presentation::plain_row_suffix;
use crate::presentation::plain_rows_suffix;
use crate::problem::CSP;
use crate::problem::SolveError;
use crate::problem::digits_val;
use crate::problem::lemma_digits_val_lt;

verus! {

/// A square grid of domains with a row-major traversal cursor.
///
/// The cursor `(row_i, col_i)` walks the cells in row-major order;
/// `row_i == size` is the unique terminal state of the traversal.  Cells
/// strictly before the cursor always hold an assigned value.
#[verifier::ext_equal]
pub struct Grid<D> {
    pub domains: Vec<Vec<D>>,
    pub row_i: usize,
    pub col_i: usize,
    pub size: usize,
}

/// In a square of side `size`, the row-major rank of `(r, c)` determines
/// the pair.
pub(crate) proof fn lemma_flat_range(size: int, r: int, c: int)
    requires
        0 <= r < size,
        0 <= c < size,
    ensures
        0 <= r * size + c < size * size,
        (r * size + c) / size == r,
        (r * size + c) % size == c,
{
    assert(0 <= r * size + c < size * size) by (nonlinear_arith)
        requires 0 <= r < size, 0 <= c < size,
    ;
    lemma_fundamental_div_mod_converse(r * size + c, size, r, c);
}

/// A row-major rank below `size * size` decomposes into a valid cell.
pub(crate) proof fn lemma_flat_inverse(size: int, p: int)
    requires
        size > 0,
        0 <= p < size * size,
    ensures
        0 <= p / size < size,
        0 <= p % size < size,
        p == size * (p / size) + p % size,
{
    lemma_fundamental_div_mod(p, size);
    assert(0 <= p % size < size);
    assert(0 <= p / size < size) by (nonlinear_arith)
        requires
            size > 0,
            0 <= p < size * size,
            p == size * (p / size) + p % size,
            0 <= p % size < size,
    ;
}

impl<D: Domain> Grid<D> {
    /// The domain of the cell in row `r`, column `c`.
    pub open spec fn cell(&self, r: int, c: int) -> D {
        self.domains@[r]@[c]
    }

    /// The value currently assigned to cell `(r, c)`, if any.
    pub open spec fn val(&self, r: int, c: int) -> Option<i8> {
        self.cell(r, c).spec_value()
    }

    /// The row-major rank of the traversal cursor.
    pub open spec fn pos(&self) -> int {
        self.row_i * self.size + self.col_i
    }

    /// The domain of the cell with row-major rank `p`.
    pub open spec fn cell_at(&self, p: int) -> D {
        self.cell(p / (self.size as int), p % (self.size as int))
    }

    /// What one successful backward call does: the cell at rank `p` — the
    /// nearest cell at or before the old cursor that still had a candidate
    /// — steps once to its next candidate, every exhausted cell passed
    /// over on the way is reset (a clue is left as it stands), every other
    /// cell is untouched, and the cursor stops at `p`.
    pub open spec fn backward_resumed_at(pre: &Grid<D>, post: &Grid<D>, p: int) -> bool {
        &&& 0 <= p < pre.size * pre.size
        &&& p <= pre.pos()
        &&& post.pos() == p
        &&& domain_has_next(&pre.cell_at(p))
        &&& post.cell_at(p).spec_value() == (match pre.cell_at(p).spec_value() {
            None => Some(pre.cell_at(p).spec_min()),
            Some(v) => Some((v + 1) as i8),
        })
        &&& forall|q: int|
            p < q < pre.size * pre.size && q <= pre.pos() ==> !domain_has_next(
                &(#[trigger] pre.cell_at(q)))
        &&& forall|q: int|
            p < q < pre.size * pre.size && q <= pre.pos() ==> {
                &&& (!pre.cell_at(q).spec_is_fixed() ==> (#[trigger] post.cell_at(
                    q)).spec_value() is None)
                &&& (post.cell_at(q).spec_value() is None || post.cell_at(q) == pre.cell_at(
                    q))
            }
        &&& forall|q: int|
            0 <= q < pre.size * pre.size && (q < p || q > pre.pos()) ==> (
            #[trigger] post.cell_at(q)) == pre.cell_at(q)
    }

    /// What a failing backward call leaves behind: every cell at or before
    /// the old cursor was exhausted and is reset (a clue is left as it
    /// stands), every later cell is untouched, and the cursor sits at the
    /// origin — the puzzle is unsatisfiable from here.
    pub open spec fn backward_exhausted(pre: &Grid<D>, post: &Grid<D>) -> bool {
        &&& post.pos() == 0
        &&& forall|q: int|
            0 <= q < pre.size * pre.size && q <= pre.pos() ==> !domain_has_next(
                &(#[trigger] pre.cell_at(q)))
        &&& forall|q: int|
            0 <= q < pre.size * pre.size && q <= pre.pos() ==> {
                &&& (!pre.cell_at(q).spec_is_fixed() ==> (#[trigger] post.cell_at(
                    q)).spec_value() is None)
                &&& (post.cell_at(q).spec_value() is None || post.cell_at(q) == pre.cell_at(
                    q))
            }
        &&& forall|q: int|
            0 <= q < pre.size * pre.size && q > pre.pos() ==> (#[trigger] post.cell_at(q))
                == pre.cell_at(q)
    }

    /// The rows are square and every cell's domain is well-formed.
    pub open spec fn cells_ok(&self) -> bool {
        &&& self.domains@.len() == self.size
        &&& forall|r: int| 0 <= r < self.size ==> (#[trigger] self.domains@[r])@.len() == self.size
        &&& forall|r: int, c: int|
            0 <= r < self.size && 0 <= c < self.size ==> (#[trigger] self.cell(r, c)).inv()
    }

    /// The cursor is a valid traversal state: `row_i == size` (with
    /// `col_i == 0`) is the unique terminal state.
    pub open spec fn cursor_ok(&self) -> bool {
        &&& self.row_i <= self.size
        &&& (self.row_i < self.size ==> self.col_i < self.size)
        &&& (self.row_i == self.size ==> self.col_i == 0)
    }

    /// Every cell the cursor has moved past holds a value.
    pub open spec fn prefix_assigned(&self) -> bool {
        forall|r: int, c: int|
            0 <= r < self.size && 0 <= c < self.size && r * self.size + c < self.pos()
                ==> (#[trigger] self.val(r, c)) is Some
    }

    /// The slack of every cell, ordered by row-major rank: the digit
    /// string of the grid's termination measure.
    pub open spec fn digit_seq(&self) -> Seq<nat> {
        Seq::new(
            (self.size * self.size) as nat,
            |p: int| domain_slack(&self.cell(p / (self.size as int), p % (self.size as int))),
        )
    }

    /// Both grids give every cell the same legal interval and clue mark
    /// (their cells may differ in the currently assigned values).
    pub open spec fn layout_matches(&self, other: &Grid<D>) -> bool {
        &&& self.size == other.size
        &&& forall|r: int, c: int|
            0 <= r < self.size && 0 <= c < self.size ==> {
                &&& (#[trigger] self.cell(r, c)).spec_min() == other.cell(r, c).spec_min()
                &&& self.cell(r, c).spec_max() == other.cell(r, c).spec_max()
                &&& self.cell(r, c).spec_is_fixed() == other.cell(r, c).spec_is_fixed()
            }
    }

    /// Both grids hold equal cells row by row (the container values may
    /// still differ, e.g. after a deep copy).
    pub open spec fn same_cells(&self, other: &Grid<D>) -> bool {
        &&& self.size == other.size
        &&& self.domains@.len() == other.domains@.len()
        &&& forall|r: int|
            0 <= r < self.domains@.len() ==> (#[trigger] self.domains@[r])@ == other.domains@[r]@
    }

    /// The digit of cell `(r, c)` sits at rank `r * size + c`.
    proof fn lemma_digit_seq_index(&self, r: int, c: int)
        requires
            0 <= r < self.size,
            0 <= c < self.size,
        ensures
            0 <= r * self.size + c < self.size * self.size,
            self.digit_seq()[r * self.size + c] == domain_slack(&self.cell(r, c)),
    {
        lemma_flat_range(self.size as int, r, c);
    }

    /// Every digit of a well-formed grid is a valid radix-257 digit.
    proof fn lemma_digit_seq_bounded(&self)
        requires
            self.cells_ok(),
        ensures
            forall|p: int| 0 <= p < self.digit_seq().len() ==> self.digit_seq()[p] < 257,
    {
        let size = self.size as int;
        assert forall|p: int| 0 <= p < self.digit_seq().len() implies self.digit_seq()[p] < 257 by {
            lemma_flat_inverse(size, p);
            assert(self.cell(p / size, p % size).inv());
            lemma_slack_bounded(&self.cell(p / size, p % size));
        }
    }

    /// Whatever holds of a grid's cells holds of any grid with equal
    /// cells: well-formed rows, layout, assignment view and digit string
    /// all carry over.
    proof fn lemma_same_cells_facts(&self, other: &Grid<D>)
        requires
            self.same_cells(other),
            other.cells_ok(),
        ensures
            self.cells_ok(),
            self.layout_matches(other),
            self.values() == other.values(),
            self.digit_seq() == other.digit_seq(),
            self.clues() == other.clues(),
    {
        let size = self.size as int;
        assert forall|r: int| 0 <= r < size implies (#[trigger] self.domains@[r])@.len()
            == self.size by {
            assert(self.domains@[r]@ == other.domains@[r]@);
        }
        assert forall|r: int, c: int| 0 <= r < size && 0 <= c < size
            implies (#[trigger] self.cell(r, c)).inv() by {
            assert(self.domains@[r]@ == other.domains@[r]@);
            assert(self.cell(r, c) == other.cell(r, c));
            assert(other.cell(r, c).inv());
        }
        assert forall|r: int, c: int| 0 <= r < size && 0 <= c < size implies {
            &&& (#[trigger] self.cell(r, c)).spec_min() == other.cell(r, c).spec_min()
            &&& self.cell(r, c).spec_max() == other.cell(r, c).spec_max()
            &&& self.cell(r, c).spec_is_fixed() == other.cell(r, c).spec_is_fixed()
        } by {
            assert(self.domains@[r]@ == other.domains@[r]@);
            assert(self.cell(r, c) == other.cell(r, c));
        }
        assert forall|r: int| 0 <= r < size implies self.values()[r] == other.values()[r] by {
            assert forall|c: int| 0 <= c < size
                implies self.values()[r][c] == other.values()[r][c] by {
                assert(self.domains@[r]@ == other.domains@[r]@);
                assert(self.cell(r, c) == other.cell(r, c));
            }
            assert(self.values()[r] =~= other.values()[r]);
        }
        assert(self.values() =~= other.values());
        assert forall|p: int| 0 <= p < self.digit_seq().len()
            implies self.digit_seq()[p] == other.digit_seq()[p] by {
            lemma_flat_inverse(size, p);
            assert(self.domains@[p / size]@ == other.domains@[p / size]@);
            assert(self.cell(p / size, p % size) == other.cell(p / size, p % size));
        }
        assert(self.digit_seq() =~= other.digit_seq());
        self.lemma_layout_clues(other);
    }

    /// A grid with equal cells and a cursor no further along keeps the
    /// everything-before-the-cursor-is-assigned invariant.
    proof fn lemma_same_cells_prefix(&self, other: &Grid<D>)
        requires
            self.same_cells(other),
            other.cells_ok(),
            other.prefix_assigned(),
            self.pos() <= other.pos(),
        ensures
            self.prefix_assigned(),
    {
        assert forall|r: int, c: int|
            0 <= r < self.size && 0 <= c < self.size && r * self.size + c < self.pos()
            implies (#[trigger] self.val(r, c)) is Some by {
            assert(self.domains@[r]@ == other.domains@[r]@);
            assert(self.cell(r, c) == other.cell(r, c));
            assert(other.val(r, c) is Some);
        }
    }

    /// Grids with matching layouts record the same clues.
    proof fn lemma_layout_clues(&self, other: &Grid<D>)
        requires
            self.layout_matches(other),
        ensures
            self.clues() == other.clues(),
    {
        assert forall|rc: (int, int)| #[trigger] self.clues().dom().contains(rc)
            <==> other.clues().dom().contains(rc) by {
            if 0 <= rc.0 < self.size && 0 <= rc.1 < self.size {
                assert(self.cell(rc.0, rc.1).spec_is_fixed()
                    == other.cell(rc.0, rc.1).spec_is_fixed());
            }
        }
        assert(self.clues().dom() =~= other.clues().dom());
        assert forall|rc: (int, int)| #[trigger] self.clues().dom().contains(rc)
            implies self.clues()[rc] == other.clues()[rc] by {
            assert(self.cell(rc.0, rc.1).spec_min() == other.cell(rc.0, rc.1).spec_min());
        }
        assert(self.clues() =~= other.clues());
    }

    /// Build a grid from an already-constructed square of domains, with the
    /// cursor at the origin.  Rejects a non-square arrangement.
    pub fn from_domains(domains: Vec<Vec<D>>) -> (r: Result<Grid<D>, ConstructionError>)
        requires
            forall|i: int, j: int|
                0 <= i < domains@.len() && 0 <= j < domains@[i]@.len()
                    ==> (#[trigger] domains@[i]@[j]).inv(),
        ensures
            r is Ok <==> (forall|i: int|
                0 <= i < domains@.len() ==> (#[trigger] domains@[i])@.len() == domains@.len()),
            r matches Ok(g) ==> {
                &&& g.domains == domains
                &&& g.size == domains@.len()
                &&& g.row_i == 0
                &&& g.col_i == 0
                &&& g.wf()
            },
            r matches Err(e) ==> e == ConstructionError::NotSquare,
    {
        let size = domains.len();
        let mut i: usize = 0;
        while i < size
            invariant
                i <= size,
                size == domains@.len(),
                forall|t: int| 0 <= t < i ==> (#[trigger] domains@[t])@.len() == size,
            decreases size - i,
        {
            if domains[i].len() != size {
                return Err(ConstructionError::NotSquare);
            }
            i = i + 1;
        }
        let g = Grid { domains, row_i: 0usize, col_i: 0usize, size };
        proof {
            assert(g.pos() == 0);
            assert forall|r: int, c: int|
                0 <= r < g.size && 0 <= c < g.size && r * g.size + c < g.pos()
                implies (#[trigger] g.val(r, c)) is Some by {
                lemma_flat_range(g.size as int, r, c);
            }
        }
        Ok(g)
    }

    /// Whether the traversal has reached its terminal state.
    fn is_finished(&self) -> (r: bool)
        ensures
            r == (self.row_i == self.size),
    {
        self.row_i == self.size
    }

    /// Overwrite the domain of cell `(r, c)`.
    fn set_cell(&mut self, r: usize, c: usize, d: D)
        requires
            r < old(self).domains@.len(),
            c < old(self).domains@[r as int]@.len(),
        ensures
            final(self).row_i == old(self).row_i,
            final(self).col_i == old(self).col_i,
            final(self).size == old(self).size,
            final(self).domains@.len() == old(self).domains@.len(),
            final(self).domains@[r as int]@ == old(self).domains@[r as int]@.update(c as int, d),
            forall|i: int|
                0 <= i < old(self).domains@.len() && i != r
                    ==> final(self).domains@[i] == old(self).domains@[i],
    {
        self.domains[r][c] = d;
    }

    /// Advance the cursor to the next cell in row-major order, reporting
    /// completion as soon as the cursor reaches the terminal state.
    fn next_cell(&mut self) -> (r: Result<bool, SolveError>)
        requires
            old(self).wf(),
            old(self).row_i < old(self).size
                ==> old(self).val(old(self).row_i as int, old(self).col_i as int) is Some,
        ensures
            final(self).wf(),
            final(self).domains == old(self).domains,
            final(self).size == old(self).size,
            r is Ok,
            old(self).row_i == old(self).size
                ==> *final(self) == *old(self) && r == Ok::<bool, SolveError>(true),
            old(self).row_i < old(self).size ==> {
                &&& r == Ok::<bool, SolveError>(final(self).row_i == final(self).size)
                &&& final(self).pos() == old(self).pos() + 1
            },
    {
        if self.row_i == self.size {
            return Ok(true);
        }
        let ghost g0 = *self;
        self.col_i = self.col_i + 1;
        if self.col_i == self.size {
            self.col_i = 0;
            self.row_i = self.row_i + 1;
        }
        proof {
            assert((g0.row_i + 1) * g0.size == g0.row_i * g0.size + g0.size) by (nonlinear_arith);
            assert(self.pos() == g0.pos() + 1);
            assert(self.same_cells(&g0));
            self.lemma_same_cells_facts(&g0);
            lemma_flat_range(g0.size as int, g0.row_i as int, g0.col_i as int);
            assert forall|r: int, c: int|
                0 <= r < self.size && 0 <= c < self.size && r * self.size + c < self.pos()
                implies (#[trigger] self.val(r, c)) is Some by {
                lemma_flat_range(self.size as int, r, c);
                assert(self.cell(r, c) == g0.cell(r, c));
                if r * self.size + c == g0.pos() {
                    lemma_fundamental_div_mod_converse(
                        g0.pos(), self.size as int, g0.row_i as int, g0.col_i as int);
                    assert(r == g0.row_i && c == g0.col_i);
                    assert(g0.val(r, c) is Some);
                } else {
                    assert(r * self.size + c < g0.pos());
                    assert(g0.val(r, c) is Some);
                }
            }
        }
        Ok(self.row_i == self.size)
    }

    /// Move the cursor to the previous cell in row-major order; fails with
    /// [`SolveError::Unsatisfiable`] at the origin.
    fn prev_cell(&mut self) -> (r: Result<(), SolveError>)
        requires
            old(self).cursor_ok(),
        ensures
            final(self).domains == old(self).domains,
            final(self).size == old(self).size,
            final(self).cursor_ok(),
            r is Ok <==> old(self).pos() > 0,
            r is Ok ==> final(self).pos() == old(self).pos() - 1
                && final(self).row_i < final(self).size,
            r is Err ==> *final(self) == *old(self)
                && r == Err::<(), SolveError>(SolveError::Unsatisfiable),
    {
        if self.row_i == 0 && self.col_i == 0 {
            return Err(SolveError::Unsatisfiable);
        }
        let ghost g0 = *self;
        proof {
            if g0.row_i > 0 {
                assert(g0.row_i * g0.size >= g0.size) by (nonlinear_arith)
                    requires g0.row_i >= 1, g0.size >= 0,
                ;
            }
        }
        if self.col_i == 0 {
            self.col_i = self.size;
            self.row_i = self.row_i - 1;
        }
        self.col_i = self.col_i - 1;
        proof {
            assert((g0.row_i - 1) * g0.size + g0.size == g0.row_i * g0.size) by (nonlinear_arith);
            assert(self.pos() == g0.pos() - 1);
        }
        Ok(())
    }
}

impl<D: Domain> CSP for Grid<D> {
    open spec fn wf(&self) -> bool {
        &&& self.cells_ok()
        &&& self.cursor_ok()
        &&& self.prefix_assigned()
    }

    open spec fn complete(&self) -> bool {
        self.row_i == self.size
    }

    open spec fn values(&self) -> Seq<Seq<Option<i8>>> {
        Seq::new(
            self.size as nat,
            |r: int| Seq::new(self.size as nat, |c: int| self.val(r, c)),
        )
    }

    open spec fn clues(&self) -> Map<(int, int), i8> {
        Map::new(
            |rc: (int, int)|
                0 <= rc.0 < self.size && 0 <= rc.1 < self.size
                    && self.cell(rc.0, rc.1).spec_is_fixed(),
            |rc: (int, int)| self.cell(rc.0, rc.1).spec_min(),
        )
    }

    open spec fn measure(&self) -> nat {
        digits_val(self.digit_seq())
    }

    open spec fn steps_left(&self) -> nat {
        (self.size * self.size - self.pos()) as nat
    }

    fn forward(&mut self) -> (r: Result<bool, SolveError>)
        ensures
            r is Ok,
            old(self).complete() ==> r == Ok::<bool, SolveError>(true)
                && *final(self) == *old(self),
            !old(self).complete() && old(self).val(
                old(self).row_i as int, old(self).col_i as int) is None ==> {
                &&& r == Ok::<bool, SolveError>(false)
                &&& final(self).row_i == old(self).row_i
                &&& final(self).col_i == old(self).col_i
                &&& final(self).size == old(self).size
                &&& final(self).val(old(self).row_i as int, old(self).col_i as int) == Some(
                    old(self).cell(old(self).row_i as int, old(self).col_i as int).spec_min())
                &&& forall|r2: int, c2: int|
                    0 <= r2 < old(self).size && 0 <= c2 < old(self).size && !(r2 == old(
                        self).row_i && c2 == old(self).col_i) ==> (#[trigger] final(
                        self).cell(r2, c2)) == old(self).cell(r2, c2)
            },
            !old(self).complete() && old(self).val(
                old(self).row_i as int, old(self).col_i as int) is Some ==> {
                &&& final(self).domains == old(self).domains
                &&& final(self).size == old(self).size
                &&& final(self).pos() == old(self).pos() + 1
                &&& r == Ok::<bool, SolveError>(final(self).complete())
            },
    {
        if self.is_finished() {
            return Ok(true);
        }
        let row = self.row_i;
        let col = self.col_i;
        let ghost g0 = *self;
        let d = self.domains[row][col];
        proof {
            assert(g0.cell(row as int, col as int).inv());
        }
        match d.value() {
            None => {
                let mut stepped = d;
                stepped.next();
                self.set_cell(row, col, stepped);
                proof {
                    d.lemma_inv();
                    assert(domain_slack(&stepped) < domain_slack(&d));
                    grid_step_at_cursor_facts(&g0, self, stepped);
                }
                Ok(false)
            }
            Some(_) => {
                let r = self.next_cell();
                proof {
                    assert(self.same_cells(&g0));
                    self.lemma_same_cells_facts(&g0);
                    lemma_flat_range(g0.size as int, g0.row_i as int, g0.col_i as int);
                }
                r
            }
        }
    }

    fn backward(&mut self) -> (r: Result<(), SolveError>)
        ensures
            r is Ok ==> exists|p: int| Grid::backward_resumed_at(old(self), final(self), p),
            r is Err ==> Grid::backward_exhausted(old(self), final(self)),
    {
        let ghost init = *self;
        if self.is_finished() {
            match self.prev_cell() {
                Ok(()) => {}
                Err(e) => {
                    // only a grid of no cells is terminal at the origin
                    return Err(e);
                }
            }
        }
        let ghost g0 = *self;
        proof {
            assert(self.same_cells(&init));
            self.lemma_same_cells_facts(&init);
            self.lemma_same_cells_prefix(&init);
            lemma_flat_range(self.size as int, self.row_i as int, self.col_i as int);
            assert forall|q: int| 0 <= q < g0.size * g0.size
                implies (#[trigger] g0.cell_at(q)) == old(self).cell_at(q) by {
                lemma_flat_inverse(g0.size as int, q);
                assert(g0.domains@[q / (g0.size as int)]@
                    == init.domains@[q / (g0.size as int)]@);
            }
        }
        let ghost mut resume: int = 0;
        let mut updated = false;
        while !updated
            invariant
                self.cells_ok(),
                self.cursor_ok(),
                self.prefix_assigned(),
                self.size == g0.size,
                self.row_i < self.size,
                self.layout_matches(&g0),
                g0.cells_ok(),
                g0.clues() == old(self).clues(),
                g0.measure() == old(self).measure(),
                g0.digit_seq() == old(self).digit_seq(),
                g0.size == old(self).size,
                forall|q: int|
                    0 <= q < g0.size * g0.size ==> (#[trigger] g0.cell_at(q)) == old(
                        self).cell_at(q),
                g0.pos() < g0.digit_seq().len(),
                old(self).pos() >= g0.pos(),
                old(self).pos() == g0.pos() || g0.pos() == g0.digit_seq().len() - 1,
                self.digit_seq().len() == g0.digit_seq().len(),
                !updated ==> self.pos() < self.digit_seq().len(),
                !updated ==> self.pos() <= g0.pos(),
                !updated ==> forall|p: int|
                    0 <= p <= self.pos() ==> self.digit_seq()[p] == g0.digit_seq()[p],
                !updated ==> forall|q: int|
                    0 <= q <= self.pos() ==> (#[trigger] self.cell_at(q)) == g0.cell_at(q),
                forall|q: int|
                    g0.pos() < q < g0.size * g0.size ==> (#[trigger] self.cell_at(q))
                        == g0.cell_at(q),
                !updated ==> forall|q: int|
                    self.pos() < q <= g0.pos() ==> !domain_has_next(
                        &(#[trigger] g0.cell_at(q))),
                !updated ==> forall|q: int|
                    self.pos() < q <= g0.pos() ==> {
                        &&& (!g0.cell_at(q).spec_is_fixed() ==> (#[trigger] self.cell_at(
                            q)).spec_value() is None)
                        &&& (self.cell_at(q).spec_value() is None || self.cell_at(q)
                            == g0.cell_at(q))
                    },
                updated ==> digits_val(self.digit_seq()) < digits_val(g0.digit_seq()),
                updated ==> {
                    &&& 0 <= resume < g0.size * g0.size
                    &&& resume <= g0.pos()
                    &&& self.pos() == resume
                    &&& domain_has_next(&g0.cell_at(resume))
                    &&& self.cell_at(resume).spec_value() == (match g0.cell_at(
                        resume).spec_value() {
                        None => Some(g0.cell_at(resume).spec_min()),
                        Some(v) => Some((v + 1) as i8),
                    })
                    &&& forall|q: int|
                        resume < q < g0.size * g0.size && q <= g0.pos()
                            ==> !domain_has_next(&(#[trigger] g0.cell_at(q)))
                    &&& forall|q: int|
                        resume < q < g0.size * g0.size && q <= g0.pos() ==> {
                            &&& (!g0.cell_at(q).spec_is_fixed() ==> (
                            #[trigger] self.cell_at(q)).spec_value() is None)
                            &&& (self.cell_at(q).spec_value() is None || self.cell_at(q)
                                == g0.cell_at(q))
                        }
                    &&& forall|q: int|
                        0 <= q < resume ==> (#[trigger] self.cell_at(q)) == g0.cell_at(q)
                },
            decreases (if updated { 0int } else { self.pos() + 1 }),
        {
            let row = self.row_i;
            let col = self.col_i;
            let ghost before = *self;
            let d = self.domains[row][col];
            proof {
                assert(before.cell(row as int, col as int).inv());
                lemma_flat_range(before.size as int, row as int, col as int);
                assert(before.cell_at(before.pos()) == d);
                assert(g0.cell_at(before.pos()) == d);
            }
            if d.has_next() {
                let mut stepped = d;
                stepped.next();
                self.set_cell(row, col, stepped);
                proof {
                    d.lemma_inv();
                    assert(domain_slack(&stepped) < domain_slack(&d));
                    grid_step_at_cursor_facts(&before, self, stepped);
                    assert(before.digit_seq()[before.pos()] == g0.digit_seq()[before.pos()]);
                    assert forall|p: int| 0 <= p < before.pos()
                        implies self.digit_seq()[p] == g0.digit_seq()[p] by {
                        assert(self.digit_seq()[p] == before.digit_seq()[p]);
                    }
                    self.lemma_digit_seq_bounded();
                    lemma_digits_val_lt(self.digit_seq(), g0.digit_seq(), before.pos());
                    resume = before.pos();
                    assert(self.cell_at(resume) == stepped);
                    assert forall|q: int| 0 <= q < resume
                        implies (#[trigger] self.cell_at(q)) == g0.cell_at(q) by {
                        assert(self.cell_at(q) == before.cell_at(q));
                    }
                    assert forall|q: int| resume < q < g0.size * g0.size && q <= g0.pos()
                        implies {
                            &&& (!g0.cell_at(q).spec_is_fixed() ==> (
                            #[trigger] self.cell_at(q)).spec_value() is None)
                            &&& (self.cell_at(q).spec_value() is None || self.cell_at(q)
                                == g0.cell_at(q))
                        } by {
                        assert(self.cell_at(q) == before.cell_at(q));
                    }
                    assert forall|q: int| g0.pos() < q < g0.size * g0.size
                        implies (#[trigger] self.cell_at(q)) == g0.cell_at(q) by {
                        assert(self.cell_at(q) == before.cell_at(q));
                    }
                }
                updated = true;
            } else {
                let mut cleared = d;
                cleared.reset();
                self.set_cell(row, col, cleared);
                let ghost mid = *self;
                proof {
                    grid_reset_at_cursor_facts(&before, self, cleared);
                    // the passed-over cell was exhausted: its digit was zero
                    before.lemma_digit_seq_index(row as int, col as int);
                    d.lemma_inv();
                    assert(domain_slack(&d) == 0);
                    assert(g0.digit_seq()[before.pos()] == 0);
                    assert(mid.cell_at(before.pos()) == cleared);
                }
                match self.prev_cell() {
                    Ok(()) => {
                        proof {
                            assert(self.same_cells(&mid));
                            self.lemma_same_cells_facts(&mid);
                            self.lemma_same_cells_prefix(&mid);
                            assert forall|p: int| 0 <= p <= self.pos()
                                implies self.digit_seq()[p] == g0.digit_seq()[p] by {
                                assert(self.digit_seq()[p] == mid.digit_seq()[p]);
                                assert(mid.digit_seq()[p] == before.digit_seq()[p]);
                            }
                            assert forall|q: int| 0 <= q < g0.size * g0.size
                                implies (#[trigger] self.cell_at(q)) == mid.cell_at(q) by {
                                lemma_flat_inverse(g0.size as int, q);
                                assert(self.domains@[q / (g0.size as int)]@
                                    == mid.domains@[q / (g0.size as int)]@);
                            }
                            assert forall|q: int| self.pos() < q <= g0.pos() implies {
                                &&& (!g0.cell_at(q).spec_is_fixed() ==> (
                                #[trigger] self.cell_at(q)).spec_value() is None)
                                &&& (self.cell_at(q).spec_value() is None || self.cell_at(
                                    q) == g0.cell_at(q))
                            } by {
                                if q == before.pos() {
                                    assert(self.cell_at(q) == cleared);
                                } else {
                                    assert(self.cell_at(q) == mid.cell_at(q));
                                    assert(mid.cell_at(q) == before.cell_at(q));
                                }
                            }
                        }
                    }
                    Err(e) => {
                        proof {
                            assert(self.same_cells(&mid));
                            self.lemma_same_cells_facts(&mid);
                            self.lemma_same_cells_prefix(&mid);
                            assert(self.layout_matches(&g0));
                            self.lemma_layout_clues(&g0);
                            assert(before.pos() == 0);
                            assert(self.pos() == 0);
                            assert forall|q: int|
                                0 <= q < old(self).size * old(self).size && q <= old(
                                    self).pos()
                                implies !domain_has_next(&(#[trigger] old(self).cell_at(
                                    q))) by {
                                assert(q <= g0.pos());
                                assert(g0.cell_at(q) == old(self).cell_at(q));
                                if q == 0 {
                                    assert(!domain_has_next(&g0.cell_at(0)));
                                }
                            }
                            assert forall|q: int|
                                0 <= q < old(self).size * old(self).size && q <= old(
                                    self).pos()
                                implies {
                                    &&& (!old(self).cell_at(q).spec_is_fixed() ==> (
                                    #[trigger] self.cell_at(q)).spec_value() is None)
                                    &&& (self.cell_at(q).spec_value() is None
                                        || self.cell_at(q) == old(self).cell_at(q))
                                } by {
                                assert(q <= g0.pos());
                                assert(g0.cell_at(q) == old(self).cell_at(q));
                                if q == 0 {
                                    assert(self.cell_at(q) == cleared);
                                } else {
                                    assert(self.cell_at(q) == mid.cell_at(q));
                                    assert(mid.cell_at(q) == before.cell_at(q));
                                }
                            }
                            assert forall|q: int|
                                0 <= q < old(self).size * old(self).size && q > old(
                                    self).pos()
                                implies (#[trigger] self.cell_at(q)) == old(
                                    self).cell_at(q) by {
                                assert(self.cell_at(q) == g0.cell_at(q));
                            }
                        }
                        return Err(e);
                    }
                }
            }
        }
        proof {
            self.lemma_layout_clues(&g0);
            assert forall|q: int|
                0 <= q < old(self).size * old(self).size && (q < resume || q > old(
                    self).pos()) implies (#[trigger] final(self).cell_at(q)) == old(
                    self).cell_at(q) by {
                assert(g0.cell_at(q) == old(self).cell_at(q));
                if q < resume {
                    assert(self.cell_at(q) == g0.cell_at(q));
                } else {
                    assert(q > g0.pos());
                    assert(self.cell_at(q) == g0.cell_at(q));
                }
            }
            assert forall|q: int|
                resume < q < old(self).size * old(self).size && q <= old(self).pos()
                implies !domain_has_next(&(#[trigger] old(self).cell_at(q))) by {
                assert(q <= g0.pos());
                assert(g0.cell_at(q) == old(self).cell_at(q));
                assert(!domain_has_next(&g0.cell_at(q)));
            }
            assert forall|q: int|
                resume < q < old(self).size * old(self).size && q <= old(self).pos()
                implies {
                    &&& (!old(self).cell_at(q).spec_is_fixed() ==> (
                    #[trigger] self.cell_at(q)).spec_value() is None)
                    &&& (self.cell_at(q).spec_value() is None || self.cell_at(
                        q) == old(self).cell_at(q))
                } by {
                assert(q <= g0.pos());
                assert(g0.cell_at(q) == old(self).cell_at(q));
            }
            assert(g0.cell_at(resume) == old(self).cell_at(resume));
            assert(0 <= resume < old(self).size * old(self).size);
            assert(resume <= old(self).pos());
            assert(self.pos() == resume);
            assert(domain_has_next(&old(self).cell_at(resume)));
            assert(self.cell_at(resume).spec_value() == (match old(self).cell_at(
                resume).spec_value() {
                None => Some(old(self).cell_at(resume).spec_min()),
                Some(v) => Some((v + 1) as i8),
            }));
            assert(Grid::backward_resumed_at(old(self), self, resume));
        }
        Ok(())
    }

    fn snapshot(&self) -> (r: Self) {
        let mut doms: Vec<Vec<D>> = Vec::new();
        let mut i: usize = 0;
        while i < self.domains.len()
            invariant
                i <= self.domains@.len(),
                doms@.len() == i,
                forall|t: int| 0 <= t < i ==> (#[trigger] doms@[t])@ == self.domains@[t]@,
            decreases self.domains@.len() - i,
        {
            let row = &self.domains[i];
            let mut row_copy: Vec<D> = Vec::new();
            let mut j: usize = 0;
            while j < row.len()
                invariant
                    j <= row@.len(),
                    row_copy@.len() == j,
                    forall|t: int| 0 <= t < j ==> row_copy@[t] == row@[t],
                decreases row@.len() - j,
            {
                row_copy.push(row[j]);
                j = j + 1;
            }
            proof {
                assert(row_copy@ =~= row@);
            }
            doms.push(row_copy);
            i = i + 1;
        }
        let g = Grid { domains: doms, row_i: self.row_i, col_i: self.col_i, size: self.size };
        proof {
            assert(g.same_cells(self));
            g.lemma_same_cells_facts(self);
            g.lemma_same_cells_prefix(self);
        }
        g
    }
}

/// What one stepping move at the cursor does to a well-formed grid: the
/// changed cell keeps its interval and loses slack, every other cell stays
/// as it was, and the grid's digit string drops at exactly the cursor's
/// rank — so the termination measure shrinks.
proof fn grid_step_at_cursor_facts<D: Domain>(before: &Grid<D>, after: &Grid<D>, newd: D)
    requires
        before.cells_ok(),
        before.cursor_ok(),
        before.prefix_assigned(),
        before.row_i < before.size,
        newd.inv(),
        newd.spec_min() == before.cell(before.row_i as int, before.col_i as int).spec_min(),
        newd.spec_max() == before.cell(before.row_i as int, before.col_i as int).spec_max(),
        newd.spec_is_fixed() == before.cell(
            before.row_i as int, before.col_i as int).spec_is_fixed(),
        domain_slack(&newd) < domain_slack(&before.cell(before.row_i as int, before.col_i as int)),
        after.row_i == before.row_i,
        after.col_i == before.col_i,
        after.size == before.size,
        after.domains@.len() == before.domains@.len(),
        after.domains@[before.row_i as int]@
            == before.domains@[before.row_i as int]@.update(before.col_i as int, newd),
        forall|i: int|
            0 <= i < before.domains@.len() && i != before.row_i
                ==> after.domains@[i] == before.domains@[i],
    ensures
        after.cells_ok(),
        after.cursor_ok(),
        after.prefix_assigned(),
        after.layout_matches(before),
        after.clues() == before.clues(),
        after.cell(before.row_i as int, before.col_i as int) == newd,
        forall|r: int, c: int|
            0 <= r < before.size && 0 <= c < before.size && !(r == before.row_i && c
                == before.col_i) ==> (#[trigger] after.cell(r, c)) == before.cell(r, c),
        after.cell_at(before.pos()) == newd,
        forall|q: int|
            0 <= q < before.size * before.size && q != before.pos()
                ==> (#[trigger] after.cell_at(q)) == before.cell_at(q),
        after.digit_seq().len() == before.digit_seq().len(),
        forall|p: int|
            0 <= p < before.digit_seq().len() && p != before.pos()
                ==> after.digit_seq()[p] == before.digit_seq()[p],
        after.digit_seq()[before.pos()] == domain_slack(&newd),
        digits_val(after.digit_seq()) < digits_val(before.digit_seq()),
{
    grid_update_at_cursor_facts(before, after, newd);
    let cr = before.row_i as int;
    let cc = before.col_i as int;
    after.lemma_digit_seq_index(cr, cc);
    before.lemma_digit_seq_index(cr, cc);
    after.lemma_digit_seq_bounded();
    lemma_digits_val_lt(after.digit_seq(), before.digit_seq(), before.pos());
}

/// Resetting the cell at the cursor keeps the grid well-formed and touches
/// no digit before the cursor's rank.
proof fn grid_reset_at_cursor_facts<D: Domain>(before: &Grid<D>, after: &Grid<D>, newd: D)
    requires
        before.cells_ok(),
        before.cursor_ok(),
        before.prefix_assigned(),
        before.row_i < before.size,
        newd.inv(),
        newd.spec_min() == before.cell(before.row_i as int, before.col_i as int).spec_min(),
        newd.spec_max() == before.cell(before.row_i as int, before.col_i as int).spec_max(),
        newd.spec_is_fixed() == before.cell(
            before.row_i as int, before.col_i as int).spec_is_fixed(),
        after.row_i == before.row_i,
        after.col_i == before.col_i,
        after.size == before.size,
        after.domains@.len() == before.domains@.len(),
        after.domains@[before.row_i as int]@
            == before.domains@[before.row_i as int]@.update(before.col_i as int, newd),
        forall|i: int|
            0 <= i < before.domains@.len() && i != before.row_i
                ==> after.domains@[i] == before.domains@[i],
    ensures
        after.cells_ok(),
        after.cursor_ok(),
        after.prefix_assigned(),
        after.layout_matches(before),
        after.cell_at(before.pos()) == newd,
        forall|q: int|
            0 <= q < before.size * before.size && q != before.pos()
                ==> (#[trigger] after.cell_at(q)) == before.cell_at(q),
        after.digit_seq().len() == before.digit_seq().len(),
        forall|p: int|
            0 <= p < before.digit_seq().len() && p != before.pos()
                ==> after.digit_seq()[p] == before.digit_seq()[p],
{
    grid_update_at_cursor_facts(before, after, newd);
}

/// The shared bookkeeping of both cursor-cell updates: only the cursor's
/// cell changed, its interval and clue mark are intact, and the digit
/// string changed at most at the cursor's rank.
proof fn grid_update_at_cursor_facts<D: Domain>(before: &Grid<D>, after: &Grid<D>, newd: D)
    requires
        before.cells_ok(),
        before.cursor_ok(),
        before.prefix_assigned(),
        before.row_i < before.size,
        newd.inv(),
        newd.spec_min() == before.cell(before.row_i as int, before.col_i as int).spec_min(),
        newd.spec_max() == before.cell(before.row_i as int, before.col_i as int).spec_max(),
        newd.spec_is_fixed() == before.cell(
            before.row_i as int, before.col_i as int).spec_is_fixed(),
        after.row_i == before.row_i,
        after.col_i == before.col_i,
        after.size == before.size,
        after.domains@.len() == before.domains@.len(),
        after.domains@[before.row_i as int]@
            == before.domains@[before.row_i as int]@.update(before.col_i as int, newd),
        forall|i: int|
            0 <= i < before.domains@.len() && i != before.row_i
                ==> after.domains@[i] == before.domains@[i],
    ensures
        after.cells_ok(),
        after.cursor_ok(),
        after.prefix_assigned(),
        after.layout_matches(before),
        after.cell(before.row_i as int, before.col_i as int) == newd,
        forall|r: int, c: int|
            0 <= r < before.size && 0 <= c < before.size && !(r == before.row_i && c
                == before.col_i) ==> (#[trigger] after.cell(r, c)) == before.cell(r, c),
        after.cell_at(before.pos()) == newd,
        forall|q: int|
            0 <= q < before.size * before.size && q != before.pos()
                ==> (#[trigger] after.cell_at(q)) == before.cell_at(q),
        after.digit_seq().len() == before.digit_seq().len(),
        forall|p: int|
            0 <= p < before.digit_seq().len() && p != before.pos()
                ==> after.digit_seq()[p] == before.digit_seq()[p],
{
    let size = before.size as int;
    let cr = before.row_i as int;
    let cc = before.col_i as int;
    lemma_flat_range(size, cr, cc);
    assert(after.cell(cr, cc) == newd);
    assert forall|r: int| 0 <= r < size implies (#[trigger] after.domains@[r])@.len()
        == after.size by {
        if r != cr {
            assert(after.domains@[r] == before.domains@[r]);
            assert(before.domains@[r]@.len() == size);
        } else {
            assert(before.domains@[r]@.len() == size);
        }
    }
    assert forall|r: int, c: int| 0 <= r < size && 0 <= c < size && !(r == cr && c == cc)
        implies (#[trigger] after.cell(r, c)) == before.cell(r, c) by {
        if r != cr {
            assert(after.domains@[r] == before.domains@[r]);
        }
    }
    assert forall|r: int, c: int| 0 <= r < size && 0 <= c < size
        implies (#[trigger] after.cell(r, c)).inv() by {
        if r == cr && c == cc {
        } else {
            assert(after.cell(r, c) == before.cell(r, c));
            assert(before.cell(r, c).inv());
        }
    }
    assert forall|r: int, c: int| 0 <= r < size && 0 <= c < size implies {
        &&& (#[trigger] after.cell(r, c)).spec_min() == before.cell(r, c).spec_min()
        &&& after.cell(r, c).spec_max() == before.cell(r, c).spec_max()
        &&& after.cell(r, c).spec_is_fixed() == before.cell(r, c).spec_is_fixed()
    } by {
        if r == cr && c == cc {
        } else {
            assert(after.cell(r, c) == before.cell(r, c));
        }
    }
    assert forall|r: int, c: int|
        0 <= r < size && 0 <= c < size && r * size + c < after.pos()
        implies (#[trigger] after.val(r, c)) is Some by {
        lemma_flat_range(size, r, c);
        if r == cr && c == cc {
            assert(r * size + c == before.pos());
        } else {
            assert(after.cell(r, c) == before.cell(r, c));
            assert(before.val(r, c) is Some);
        }
    }
    assert forall|p: int| 0 <= p < before.digit_seq().len() && p != before.pos()
        implies after.digit_seq()[p] == before.digit_seq()[p] by {
        lemma_flat_inverse(size, p);
        let r = p / size;
        let c = p % size;
        if r == cr && c == cc {
            assert(p == size * cr + cc);
            assert(size * cr == cr * size) by (nonlinear_arith);
            assert(p == before.pos());
        } else {
            assert(after.cell(r, c) == before.cell(r, c));
        }
    }
    assert(after.cell_at(before.pos()) == newd);
    assert forall|q: int| 0 <= q < size * size && q != before.pos()
        implies (#[trigger] after.cell_at(q)) == before.cell_at(q) by {
        lemma_flat_inverse(size, q);
        let r = q / size;
        let c = q % size;
        if r == cr && c == cc {
            assert(q == size * cr + cc);
            assert(size * cr == cr * size) by (nonlinear_arith);
            assert(q == before.pos());
        } else {
            assert(after.cell(r, c) == before.cell(r, c));
        }
    }
}

impl<D: Domain> Grid<D> {
    /// The plain text of the grid: each cell's value (or an underscore
    /// while unassigned), one line per row.
    pub fn str_repr(&self) -> (s: String)
        requires
            self.cells_ok(),
        ensures
            s@ == grid_text(self),
    {
        let size = self.size;
        let mut s = String::new();
        proof {
            assert(s@ + plain_rows_suffix(self, 0) =~= grid_text(self));
        }
        let mut r: usize = 0;
        while r < size
            invariant
                self.cells_ok(),
                size == self.size,
                r <= size,
                s@ + plain_rows_suffix(self, r as int) == grid_text(self),
            decreases size - r,
        {
            proof {
                assert(s@ + plain_row_suffix(self, r as int, 0) + plain_rows_suffix(
                    self, r as int + 1) =~= s@ + plain_rows_suffix(self, r as int));
            }
            let mut c: usize = 0;
            while c < size
                invariant
                    self.cells_ok(),
                    size == self.size,
                    r < size,
                    c <= size,
                    s@ + plain_row_suffix(self, r as int, c as int) + plain_rows_suffix(
                        self, r as int + 1) == grid_text(self),
                decreases size - c,
            {
                let piece = grid_cell_string(self.domains[r][c].value());
                proof {
                    assert((s@ + piece@) + plain_row_suffix(self, r as int, c as int + 1)
                        + plain_rows_suffix(self, r as int + 1) =~= s@ + plain_row_suffix(
                        self, r as int, c as int) + plain_rows_suffix(self, r as int + 1));
                }
                s.append(piece.as_str());
                c = c + 1;
            }
            s.append("\n");
            proof {
                reveal_strlit("\n");
                assert(("\n")@ =~= seq!['\n']);
                assert(plain_row_suffix(self, r as int, size as int) =~= seq!['\n']);
                assert(s@ + plain_rows_suffix(self, r as int + 1) =~= grid_text(self));
            }
            r = r + 1;
        }
        s
    }
}

/// In a complete well-formed grid every cell holds a value from its own
/// legal alphabet: the grid-shape half of solution validity.
pub proof fn lemma_complete_values_in_alphabet<D: Domain>(g: Grid<D>)
    requires
        g.wf(),
        g.complete(),
    ensures
        forall|r: int, c: int|
            0 <= r < g.size && 0 <= c < g.size ==> {
                &&& (#[trigger] g.val(r, c)) is Some
                &&& g.cell(r, c).spec_min() <= g.val(r, c)->Some_0 <= g.cell(r, c).spec_max()
            },
{
    assert forall|r: int, c: int| 0 <= r < g.size && 0 <= c < g.size
        implies {
            &&& (#[trigger] g.val(r, c)) is Some
            &&& g.cell(r, c).spec_min() <= g.val(r, c)->Some_0 <= g.cell(r, c).spec_max()
        } by {
        lemma_flat_range(g.size as int, r, c);
        assert(g.val(r, c) is Some);
        g.cell(r, c).lemma_inv();
    }
}

/// Clue preservation: in any complete well-formed grid that records the
/// same clues as the original, a cell that was given as a clue holds
/// exactly its original pinned value.
pub proof fn lemma_clue_preserved<D: Domain>(original: Grid<D>, solved: Grid<D>, r: int, c: int)
    requires
        original.wf(),
        solved.wf(),
        solved.complete(),
        solved.clues() == original.clues(),
        0 <= r < original.size,
        0 <= c < original.size,
        original.cell(r, c).spec_is_fixed(),
    ensures
        0 <= r < solved.size,
        0 <= c < solved.size,
        solved.val(r, c) == Some(original.cell(r, c).spec_min()),
{
    assert(original.clues().dom().contains((r, c)));
    assert(solved.clues().dom().contains((r, c)));
    assert(0 <= r < solved.size && 0 <= c < solved.size);
    assert(solved.cell(r, c).spec_is_fixed());
    assert(solved.clues()[(r, c)] == solved.cell(r, c).spec_min());
    assert(original.clues()[(r, c)] == original.cell(r, c).spec_min());
    lemma_complete_values_in_alphabet(solved);
    solved.cell(r, c).lemma_inv();
}

} // verus!
