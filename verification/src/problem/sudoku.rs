//! A self-contained 9-by-9 Sudoku problem.
//!
//! Unlike the generic [`Grid`](crate::problem::grid::Grid), this variant
//! keeps a raw value square (`0` for an empty cell) beside its domains and
//! mirrors every domain move into it; its constraints read the raw values
//! directly.  Every cell's domain is a [`RangeDomain`]: an empty cell is
//! free over the legal alphabet `[1, 9]`, a given cell is pinned by a
//! one-value interval.

use vstd::prelude::*;
use vstd::string::StringExecFns;

use crate::constraints::Constraint;
use crate::constraints::grid::block_of;
use crate::constraints::grid::blocks_unique;
use crate::constraints::grid::cols_unique;
use crate::constraints::grid::column_of;
use crate::constraints::grid::lemma_isqrt_unique;
use crate::constraints::grid::line_unique;
use crate::constraints::grid::rows_unique;
use crate::constraints::grid::spec_isqrt;
use crate::domains::ConstructionError;
use crate::domains::Domain;
use crate::domains::RangeDomain;
use crate::domains::domain_has_next;
use crate::domains::domain_slack;
use crate::domains::lemma_slack_bounded;
use crate::presentation::grid_cell_string;
use crate::presentation::grid_cell_text;
use crate::problem::CSP;
use crate::problem::SolveError;
use crate::problem::digits_val;
use crate::problem::grid::lemma_flat_inverse;
use crate::problem::grid::lemma_flat_range;
use crate::problem::lemma_digits_val_lt;

verus! {

/// A 9-by-9 Sudoku: domains beside the raw values they are mirrored into,
/// and the row-major traversal cursor.
#[verifier::ext_equal]
pub struct Sudoku {
    pub domains: Vec<Vec<RangeDomain>>,
    pub values: Vec<Vec<i8>>,
    pub row_i: usize,
    pub col_i: usize,
}

/// The raw input square is 9-by-9.
pub open spec fn sudoku_shape_ok(v: Seq<Vec<i8>>) -> bool {
    &&& v.len() == 9
    &&& forall|i: int| 0 <= i < 9 ==> (#[trigger] v[i])@.len() == 9
}

/// The raw input square is 9-by-9 with every value in `0..=9`.
pub open spec fn sudoku_raw_ok(v: Seq<Vec<i8>>) -> bool {
    &&& sudoku_shape_ok(v)
    &&& forall|i: int, j: int| 0 <= i < 9 && 0 <= j < 9 ==> 0 <= #[trigger] v[i]@[j] <= 9
}

/// The decimal digit a character stands for, `-1` when it is none.
pub open spec fn char_digit(c: char) -> i8 {
    if c == '0' {
        0
    } else if c == '1' {
        1
    } else if c == '2' {
        2
    } else if c == '3' {
        3
    } else if c == '4' {
        4
    } else if c == '5' {
        5
    } else if c == '6' {
        6
    } else if c == '7' {
        7
    } else if c == '8' {
        8
    } else if c == '9' {
        9
    } else {
        -1i8
    }
}

/// The raw rows a character stream parses into: a newline starts a new
/// row, a decimal digit joins the current row, any other character is
/// skipped.
pub open spec fn parsed_rows(s: Seq<char>) -> Seq<Seq<i8>>
    decreases s.len(),
{
    if s.len() == 0 {
        seq![Seq::<i8>::empty()]
    } else {
        let rest = parsed_rows(s.drop_last());
        let c = s.last();
        if c == '\n' {
            rest.push(Seq::<i8>::empty())
        } else if char_digit(c) >= 0 {
            rest.update(rest.len() - 1, rest.last().push(char_digit(c)))
        } else {
            rest
        }
    }
}

/// A parse always yields at least the one row it starts with.
proof fn lemma_parsed_rows_nonempty(s: Seq<char>)
    ensures
        parsed_rows(s).len() >= 1,
    decreases s.len(),
{
    if s.len() > 0 {
        lemma_parsed_rows_nonempty(s.drop_last());
    }
}

/// Parsed text forms a valid puzzle: nine rows of nine digits each.
pub open spec fn sudoku_parsed_ok(m: Seq<Seq<i8>>) -> bool {
    &&& m.len() == 9
    &&& forall|i: int| 0 <= i < 9 ==> (#[trigger] m[i]).len() == 9
}

/// The domain a raw Sudoku cell stands for here: free over the legal
/// alphabet `[1, 9]` when empty, pinned when given.
pub open spec fn sudoku_cell_domain(raw: i8) -> RangeDomain {
    if raw == 0 {
        RangeDomain { current: None, min: 1, max: 9 }
    } else {
        RangeDomain { current: None, min: raw, max: raw }
    }
}

impl Sudoku {
    /// The domain of cell `(r, c)`.
    pub open spec fn cell(&self, r: int, c: int) -> RangeDomain {
        self.domains@[r]@[c]
    }

    /// The raw value of cell `(r, c)`; `0` while unassigned.
    pub open spec fn raw(&self, r: int, c: int) -> i8 {
        self.values@[r]@[c]
    }

    /// The assignment of cell `(r, c)` as an optional value.
    pub open spec fn view_val(&self, r: int, c: int) -> Option<i8> {
        if self.raw(r, c) == 0 {
            None
        } else {
            Some(self.raw(r, c))
        }
    }

    /// The row-major rank of the cursor.
    pub open spec fn pos(&self) -> int {
        self.row_i * 9 + self.col_i
    }

    /// The domain of the cell with row-major rank `p`.
    pub open spec fn cell_at(&self, p: int) -> RangeDomain {
        self.cell(p / 9, p % 9)
    }

    /// The raw value of the cell with row-major rank `p`.
    pub open spec fn raw_at(&self, p: int) -> i8 {
        self.raw(p / 9, p % 9)
    }

    /// What one successful backward call does: the cell at rank `p` — the
    /// nearest cell at or before the old cursor that still had a candidate
    /// — steps once to its next candidate (mirrored into the raw square),
    /// every exhausted cell passed over on the way is cleared, and every
    /// other cell is untouched; the cursor stops at `p`.
    pub open spec fn backward_resumed_at(pre: &Sudoku, post: &Sudoku, p: int) -> bool {
        &&& 0 <= p < 81
        &&& p <= pre.pos()
        &&& post.pos() == p
        &&& domain_has_next(&pre.cell_at(p))
        &&& post.cell_at(p).current == (match pre.cell_at(p).current {
            None => Some(pre.cell_at(p).min),
            Some(v) => Some((v + 1) as i8),
        })
        &&& post.raw_at(p) == (match pre.cell_at(p).current {
            None => pre.cell_at(p).min,
            Some(v) => (v + 1) as i8,
        })
        &&& forall|q: int|
            p < q < 81 && q <= pre.pos() ==> !domain_has_next(&(#[trigger] pre.cell_at(q)))
        &&& forall|q: int|
            p < q < 81 && q <= pre.pos() ==> (#[trigger] post.cell_at(q)).current is None
                && post.raw_at(q) == 0
        &&& forall|q: int|
            0 <= q < 81 && (q < p || q > pre.pos()) ==> (#[trigger] post.cell_at(q))
                == pre.cell_at(q) && post.raw_at(q) == pre.raw_at(q)
    }

    /// What a failing backward call leaves behind: every cell at or before
    /// the old cursor was exhausted and is cleared, every later cell is
    /// untouched, and the cursor sits at the origin — the puzzle is
    /// unsatisfiable from here.
    pub open spec fn backward_exhausted(pre: &Sudoku, post: &Sudoku) -> bool {
        &&& post.pos() == 0
        &&& forall|q: int|
            0 <= q < 81 && q <= pre.pos() ==> !domain_has_next(&(#[trigger] pre.cell_at(q)))
        &&& forall|q: int|
            0 <= q < 81 && q <= pre.pos() ==> (#[trigger] post.cell_at(q)).current is None
                && post.raw_at(q) == 0
        &&& forall|q: int|
            0 <= q < 81 && q > pre.pos() ==> (#[trigger] post.cell_at(q)) == pre.cell_at(q)
                && post.raw_at(q) == pre.raw_at(q)
    }

    /// A legal cell domain: free over `[1, 9]` or pinned to one given
    /// value of `1..=9`.
    pub open spec fn cell_ok(d: RangeDomain) -> bool {
        &&& d.inv()
        &&& ((d.min == 1 && d.max == 9) || (1 <= d.min <= 9 && d.min == d.max))
    }

    /// The raw value mirrors the domain: it equals the tried candidate, or
    /// is `0` (or the pinned value of a given cell not yet stepped on).
    pub open spec fn sync_ok(d: RangeDomain, v: i8) -> bool {
        match d.current {
            Some(x) => v == x,
            None => v == 0 || (d.min == d.max && v == d.min),
        }
    }

    /// Both squares are 9-by-9, every domain is legal and every raw value
    /// mirrors its domain.
    pub open spec fn cells_ok(&self) -> bool {
        &&& self.domains@.len() == 9
        &&& self.values@.len() == 9
        &&& forall|r: int| 0 <= r < 9 ==> (#[trigger] self.domains@[r])@.len() == 9
        &&& forall|r: int| 0 <= r < 9 ==> (#[trigger] self.values@[r])@.len() == 9
        &&& forall|r: int, c: int|
            0 <= r < 9 && 0 <= c < 9 ==> Sudoku::cell_ok(#[trigger] self.cell(r, c))
        &&& forall|r: int, c: int|
            0 <= r < 9 && 0 <= c < 9 ==> Sudoku::sync_ok(
                #[trigger] self.cell(r, c), self.raw(r, c))
    }

    /// The cursor is a valid traversal state.
    pub open spec fn cursor_ok(&self) -> bool {
        &&& self.row_i <= 9
        &&& (self.row_i < 9 ==> self.col_i < 9)
        &&& (self.row_i == 9 ==> self.col_i == 0)
    }

    /// Every cell the cursor has moved past holds a value.
    pub open spec fn prefix_assigned(&self) -> bool {
        forall|r: int, c: int|
            0 <= r < 9 && 0 <= c < 9 && r * 9 + c < self.pos() ==> (#[trigger] self.raw(r, c))
                != 0
    }

    /// The slack of every cell, by row-major rank: the digit string of the
    /// termination measure.
    pub open spec fn digit_seq(&self) -> Seq<nat> {
        Seq::new(81, |p: int| domain_slack(&self.cell(p / 9, p % 9)))
    }

    /// Both states hold equal cells (domains and raw values) row by row.
    pub open spec fn same_cells(&self, other: &Sudoku) -> bool {
        &&& self.domains@.len() == other.domains@.len()
        &&& self.values@.len() == other.values@.len()
        &&& forall|r: int|
            0 <= r < self.domains@.len() ==> (#[trigger] self.domains@[r])@
                == other.domains@[r]@
        &&& forall|r: int|
            0 <= r < self.values@.len() ==> (#[trigger] self.values@[r])@ == other.values@[r]@
    }

    /// Both states give every cell the same interval (and so the same
    /// clues).
    pub open spec fn layout_matches(&self, other: &Sudoku) -> bool {
        forall|r: int, c: int|
            0 <= r < 9 && 0 <= c < 9 ==> {
                &&& (#[trigger] self.cell(r, c)).min == other.cell(r, c).min
                &&& self.cell(r, c).max == other.cell(r, c).max
            }
    }

    /// Digit ranks decompose like cell coordinates.
    proof fn lemma_digit_seq_index(&self, r: int, c: int)
        requires
            0 <= r < 9,
            0 <= c < 9,
        ensures
            0 <= r * 9 + c < 81,
            self.digit_seq()[r * 9 + c] == domain_slack(&self.cell(r, c)),
    {
        lemma_flat_range(9, r, c);
    }

    /// Every digit of a well-formed state is a valid radix-257 digit.
    proof fn lemma_digit_seq_bounded(&self)
        requires
            self.cells_ok(),
        ensures
            forall|p: int| 0 <= p < 81 ==> self.digit_seq()[p] < 257,
    {
        assert forall|p: int| 0 <= p < 81 implies self.digit_seq()[p] < 257 by {
            lemma_flat_inverse(9, p);
            assert(Sudoku::cell_ok(self.cell(p / 9, p % 9)));
            lemma_slack_bounded(&self.cell(p / 9, p % 9));
        }
    }

    /// Matching layouts record the same clues.
    proof fn lemma_layout_clues(&self, other: &Sudoku)
        requires
            self.layout_matches(other),
        ensures
            self.clues() == other.clues(),
    {
        assert forall|rc: (int, int)| #[trigger] self.clues().dom().contains(rc)
            <==> other.clues().dom().contains(rc) by {
            if 0 <= rc.0 < 9 && 0 <= rc.1 < 9 {
                assert(self.cell(rc.0, rc.1).min == other.cell(rc.0, rc.1).min);
            }
        }
        assert(self.clues().dom() =~= other.clues().dom());
        assert forall|rc: (int, int)| #[trigger] self.clues().dom().contains(rc)
            implies self.clues()[rc] == other.clues()[rc] by {
            assert(self.cell(rc.0, rc.1).min == other.cell(rc.0, rc.1).min);
        }
        assert(self.clues() =~= other.clues());
    }

    /// Everything transfers to a state with equal cells.
    proof fn lemma_same_cells_facts(&self, other: &Sudoku)
        requires
            self.same_cells(other),
            other.cells_ok(),
        ensures
            self.cells_ok(),
            self.layout_matches(other),
            self.values() == other.values(),
            self.digit_seq() == other.digit_seq(),
            self.clues() == other.clues(),
    {
        assert forall|r: int| 0 <= r < 9 implies (#[trigger] self.domains@[r])@.len() == 9
            && self.values@[r]@.len() == 9 by {
            assert(self.domains@[r]@ == other.domains@[r]@);
            assert(self.values@[r]@ == other.values@[r]@);
        }
        assert forall|r: int, c: int| 0 <= r < 9 && 0 <= c < 9
            implies Sudoku::cell_ok(#[trigger] self.cell(r, c)) && Sudoku::sync_ok(
                self.cell(r, c), self.raw(r, c)) && self.cell(r, c) == other.cell(r, c)
            && self.raw(r, c) == other.raw(r, c) by {
            assert(self.domains@[r]@ == other.domains@[r]@);
            assert(self.values@[r]@ == other.values@[r]@);
            assert(Sudoku::cell_ok(other.cell(r, c)));
            assert(Sudoku::sync_ok(other.cell(r, c), other.raw(r, c)));
        }
        assert forall|r: int| 0 <= r < 9 implies self.values()[r] == other.values()[r] by {
            assert forall|c: int| 0 <= c < 9
                implies self.values()[r][c] == other.values()[r][c] by {
                assert(self.values@[r]@ == other.values@[r]@);
            }
            assert(self.values()[r] =~= other.values()[r]);
        }
        assert(self.values() =~= other.values());
        assert forall|p: int| 0 <= p < 81
            implies self.digit_seq()[p] == other.digit_seq()[p] by {
            lemma_flat_inverse(9, p);
            assert(self.domains@[p / 9]@ == other.domains@[p / 9]@);
        }
        assert(self.digit_seq() =~= other.digit_seq());
        self.lemma_layout_clues(other);
    }

    /// The assigned-prefix invariant transfers to a state with equal cells
    /// and a cursor no further along.
    proof fn lemma_same_cells_prefix(&self, other: &Sudoku)
        requires
            self.same_cells(other),
            other.cells_ok(),
            other.prefix_assigned(),
            self.pos() <= other.pos(),
        ensures
            self.prefix_assigned(),
    {
        assert forall|r: int, c: int| 0 <= r < 9 && 0 <= c < 9 && r * 9 + c < self.pos()
            implies (#[trigger] self.raw(r, c)) != 0 by {
            assert(self.values@[r]@ == other.values@[r]@);
            assert(other.raw(r, c) != 0);
        }
    }

    /// Check that the raw input is a 9-by-9 square of values in `0..=9`.
    pub fn are_vec_values_in_range(values: &Vec<Vec<i8>>) -> (b: bool)
        ensures
            b == sudoku_raw_ok(values@),
    {
        if values.len() != 9 {
            return false;
        }
        let mut i: usize = 0;
        while i < 9
            invariant
                values@.len() == 9,
                i <= 9,
                forall|t: int| 0 <= t < i ==> (#[trigger] values@[t])@.len() == 9,
                forall|t: int, u: int|
                    0 <= t < i && 0 <= u < 9 ==> 0 <= #[trigger] values@[t]@[u] <= 9,
            decreases 9 - i,
        {
            if values[i].len() != 9 {
                return false;
            }
            let mut j: usize = 0;
            while j < 9
                invariant
                    values@.len() == 9,
                    i < 9,
                    values@[i as int]@.len() == 9,
                    j <= 9,
                    forall|u: int| 0 <= u < j ==> 0 <= #[trigger] values@[i as int]@[u] <= 9,
                decreases 9 - j,
            {
                let x = values[i][j];
                if x < 0 || x > 9 {
                    return false;
                }
                j = j + 1;
            }
            i = i + 1;
        }
        true
    }

    /// Build the mirrored value and domain squares from validated raw
    /// input.
    pub fn get_filled_vecs(values: &Vec<Vec<i8>>) -> (r: (Vec<Vec<i8>>, Vec<Vec<RangeDomain>>))
        requires
            sudoku_raw_ok(values@),
        ensures
            r.0@.len() == 9,
            r.1@.len() == 9,
            forall|i: int| 0 <= i < 9 ==> (#[trigger] r.0@[i])@ == values@[i]@,
            forall|i: int| 0 <= i < 9 ==> (#[trigger] r.1@[i])@.len() == 9,
            forall|i: int, j: int|
                0 <= i < 9 && 0 <= j < 9 ==> (#[trigger] r.1@[i]@[j]) == sudoku_cell_domain(
                    values@[i]@[j]),
    {
        let mut ret_values: Vec<Vec<i8>> = Vec::new();
        let mut ret_domains: Vec<Vec<RangeDomain>> = Vec::new();
        let mut i: usize = 0;
        while i < 9
            invariant
                sudoku_raw_ok(values@),
                i <= 9,
                ret_values@.len() == i,
                ret_domains@.len() == i,
                forall|t: int| 0 <= t < i ==> (#[trigger] ret_values@[t])@ == values@[t]@,
                forall|t: int| 0 <= t < i ==> (#[trigger] ret_domains@[t])@.len() == 9,
                forall|t: int, u: int|
                    0 <= t < i && 0 <= u < 9 ==> (#[trigger] ret_domains@[t]@[u])
                        == sudoku_cell_domain(values@[t]@[u]),
            decreases 9 - i,
        {
            let row = &values[i];
            let mut values_row: Vec<i8> = Vec::new();
            let mut domains_row: Vec<RangeDomain> = Vec::new();
            let mut j: usize = 0;
            while j < 9
                invariant
                    sudoku_raw_ok(values@),
                    i < 9,
                    row == &values[i as int],
                    row@.len() == 9,
                    j <= 9,
                    values_row@.len() == j,
                    domains_row@.len() == j,
                    forall|u: int| 0 <= u < j ==> #[trigger] values_row@[u] == row@[u],
                    forall|u: int|
                        0 <= u < j ==> (#[trigger] domains_row@[u]) == sudoku_cell_domain(
                            values@[i as int]@[u]),
                decreases 9 - j,
            {
                let arg = row[j];
                if arg == 0 {
                    domains_row.push(RangeDomain::new(1, 9));
                } else {
                    domains_row.push(RangeDomain::new(arg, arg));
                }
                values_row.push(arg);
                j = j + 1;
            }
            proof {
                assert(values_row@ =~= values@[i as int]@);
            }
            ret_values.push(values_row);
            ret_domains.push(domains_row);
            i = i + 1;
        }
        (ret_values, ret_domains)
    }

    /// Build a Sudoku from its raw value square: `0` marks an empty cell,
    /// `1..=9` a given.  Rejects input that is not 9-by-9 or holds a value
    /// outside `0..=9`.
    pub fn from_values(values: Vec<Vec<i8>>) -> (r: Result<Sudoku, ConstructionError>)
        ensures
            r is Ok <==> sudoku_raw_ok(values@),
            r matches Ok(s) ==> {
                &&& s.wf()
                &&& s.row_i == 0
                &&& s.col_i == 0
                &&& forall|i: int| 0 <= i < 9 ==> (#[trigger] s.values@[i])@ == values@[i]@
                &&& forall|i: int, j: int|
                    0 <= i < 9 && 0 <= j < 9 ==> (#[trigger] s.cell(i, j))
                        == sudoku_cell_domain(values@[i]@[j])
            },
            r matches Err(e) ==> {
                &&& (e == ConstructionError::NotSquare <==> !sudoku_shape_ok(values@))
                &&& (e == ConstructionError::ValueOutOfRange <==> sudoku_shape_ok(values@)
                    && !sudoku_raw_ok(values@))
            },
    {
        if !Sudoku::are_vec_values_in_range(&values) {
            if values.len() != 9 {
                return Err(ConstructionError::NotSquare);
            }
            let mut i: usize = 0;
            while i < 9
                invariant
                    values@.len() == 9,
                    i <= 9,
                    forall|t: int| 0 <= t < i ==> (#[trigger] values@[t])@.len() == 9,
                decreases 9 - i,
            {
                if values[i].len() != 9 {
                    return Err(ConstructionError::NotSquare);
                }
                i = i + 1;
            }
            return Err(ConstructionError::ValueOutOfRange);
        }
        let (vals, doms) = Sudoku::get_filled_vecs(&values);
        let s = Sudoku { domains: doms, values: vals, row_i: 0usize, col_i: 0usize };
        proof {
            assert forall|r2: int, c2: int| 0 <= r2 < 9 && 0 <= c2 < 9
                implies Sudoku::cell_ok(#[trigger] s.cell(r2, c2)) && Sudoku::sync_ok(
                    s.cell(r2, c2), s.raw(r2, c2)) by {
                assert(s.cell(r2, c2) == sudoku_cell_domain(values@[r2]@[c2]));
                assert(s.raw(r2, c2) == values@[r2]@[c2]);
                assert(0 <= values@[r2]@[c2] <= 9);
            }
            assert(s.pos() == 0);
            assert forall|r2: int, c2: int|
                0 <= r2 < 9 && 0 <= c2 < 9 && r2 * 9 + c2 < s.pos()
                implies (#[trigger] s.raw(r2, c2)) != 0 by {
                lemma_flat_range(9, r2, c2);
            }
        }
        Ok(s)
    }

    /// Build a Sudoku from text: nine lines separated by newlines, each
    /// contributing nine digit characters (`0` marks an empty cell; any
    /// non-digit character is skipped).  Rejects text that does not parse
    /// into a 9-by-9 square.
    pub fn from_text(text: &str) -> (r: Result<Sudoku, ConstructionError>)
        ensures
            r is Ok <==> sudoku_parsed_ok(parsed_rows(text@)),
            r matches Ok(s) ==> {
                &&& s.wf()
                &&& s.row_i == 0
                &&& s.col_i == 0
                &&& forall|i: int|
                    0 <= i < 9 ==> (#[trigger] s.values@[i])@ == parsed_rows(text@)[i]
                &&& forall|i: int, j: int|
                    0 <= i < 9 && 0 <= j < 9 ==> (#[trigger] s.cell(i, j))
                        == sudoku_cell_domain(parsed_rows(text@)[i][j])
            },
            r matches Err(e) ==> e == ConstructionError::NotSquare,
    {
        let n = text.unicode_len();
        let mut rows: Vec<Vec<i8>> = Vec::new();
        rows.push(Vec::new());
        proof {
            assert(text@.take(0) =~= Seq::<char>::empty());
            assert(rows@[0]@ =~= parsed_rows(text@.take(0))[0]);
        }
        let mut i: usize = 0;
        while i < n
            invariant
                n as nat == text@.len(),
                i <= n,
                rows@.len() >= 1,
                rows@.len() == parsed_rows(text@.take(i as int)).len(),
                forall|t: int|
                    0 <= t < rows@.len() ==> (#[trigger] rows@[t])@ == parsed_rows(
                        text@.take(i as int))[t],
                forall|t: int, u: int|
                    0 <= t < rows@.len() && 0 <= u < rows@[t]@.len()
                        ==> 0 <= #[trigger] rows@[t]@[u] <= 9,
            decreases n - i,
        {
            let ghost prefix = text@.take(i as int);
            let ghost parsed = parsed_rows(prefix);
            proof {
                assert(text@.take(i as int + 1).drop_last() =~= prefix);
                assert(text@.take(i as int + 1).last() == text@[i as int]);
                lemma_parsed_rows_nonempty(prefix);
            }
            let c = text.get_char(i);
            if c == '\n' {
                rows.push(Vec::new());
                proof {
                    assert forall|t: int| 0 <= t < rows@.len()
                        implies (#[trigger] rows@[t])@ == parsed_rows(
                            text@.take(i as int + 1))[t] by {
                        assert(parsed_rows(text@.take(i as int + 1)) == parsed.push(
                            Seq::<i8>::empty()));
                        if t < rows@.len() - 1 {
                            assert(rows@[t]@ == parsed[t]);
                        } else {
                            assert(rows@[t]@ =~= Seq::<i8>::empty());
                        }
                    }
                }
            } else {
                let d: i8 = if c == '0' {
                    0
                } else if c == '1' {
                    1
                } else if c == '2' {
                    2
                } else if c == '3' {
                    3
                } else if c == '4' {
                    4
                } else if c == '5' {
                    5
                } else if c == '6' {
                    6
                } else if c == '7' {
                    7
                } else if c == '8' {
                    8
                } else if c == '9' {
                    9
                } else {
                    -1
                };
                proof {
                    assert(d == char_digit(text@[i as int]));
                }
                if d >= 0 {
                    let last = rows.len() - 1;
                    let row_ref = &mut rows[last];
                    row_ref.push(d);
                    proof {
                        assert forall|t: int| 0 <= t < rows@.len()
                            implies (#[trigger] rows@[t])@ == parsed_rows(
                                text@.take(i as int + 1))[t] by {
                            assert(parsed_rows(text@.take(i as int + 1)) == parsed.update(
                                parsed.len() - 1,
                                parsed.last().push(char_digit(text@[i as int])),
                            ));
                            if t < rows@.len() - 1 {
                                assert(rows@[t]@ == parsed[t]);
                            } else {
                                assert(rows@[t]@ =~= parsed.last().push(d));
                            }
                        }
                    }
                } else {
                    proof {
                        assert(parsed_rows(text@.take(i as int + 1)) == parsed);
                    }
                }
            }
            i = i + 1;
        }
        proof {
            assert(text@.take(n as int) =~= text@);
        }
        if rows.len() != 9 {
            return Err(ConstructionError::NotSquare);
        }
        let mut t: usize = 0;
        while t < 9
            invariant
                rows@.len() == 9,
                rows@.len() == parsed_rows(text@).len(),
                forall|u: int|
                    0 <= u < 9 ==> (#[trigger] rows@[u])@ == parsed_rows(text@)[u],
                forall|u: int, w: int|
                    0 <= u < 9 && 0 <= w < rows@[u]@.len() ==> 0 <= #[trigger] rows@[u]@[w]
                        <= 9,
                t <= 9,
                forall|u: int| 0 <= u < t ==> (#[trigger] rows@[u])@.len() == 9,
            decreases 9 - t,
        {
            if rows[t].len() != 9 {
                proof {
                    assert(parsed_rows(text@)[t as int].len() != 9);
                }
                return Err(ConstructionError::NotSquare);
            }
            t = t + 1;
        }
        proof {
            assert(sudoku_raw_ok(rows@));
            assert forall|u: int| 0 <= u < 9
                implies (#[trigger] parsed_rows(text@)[u]).len() == 9 by {
                assert(rows@[u]@ == parsed_rows(text@)[u]);
                assert(rows@[u]@.len() == 9);
            }
        }
        match Sudoku::from_values(rows) {
            Ok(s) => Ok(s),
            Err(e) => Err(e),
        }
    }

    /// The plain text of the grid: each given or solved value, an
    /// underscore for an empty cell, one line per row.
    pub fn str_repr(&self) -> (s: String)
        requires
            self.cells_ok(),
        ensures
            s@ == sudoku_plain_text(self),
    {
        let mut s = String::new();
        proof {
            assert(s@ + sudoku_plain_rows(self, 0) =~= sudoku_plain_text(self));
        }
        let mut r: usize = 0;
        while r < 9
            invariant
                self.cells_ok(),
                r <= 9,
                s@ + sudoku_plain_rows(self, r as int) == sudoku_plain_text(self),
            decreases 9 - r,
        {
            proof {
                assert(s@ + sudoku_plain_row(self, r as int, 0) + sudoku_plain_rows(
                    self, r as int + 1) =~= s@ + sudoku_plain_rows(self, r as int));
            }
            let mut c: usize = 0;
            while c < 9
                invariant
                    self.cells_ok(),
                    r < 9,
                    c <= 9,
                    s@ + sudoku_plain_row(self, r as int, c as int) + sudoku_plain_rows(
                        self, r as int + 1) == sudoku_plain_text(self),
                decreases 9 - c,
            {
                let x = self.values[r][c];
                let piece = if x == 0 {
                    grid_cell_string(None)
                } else {
                    grid_cell_string(Some(x))
                };
                proof {
                    assert(piece@ == grid_cell_text(self.view_val(r as int, c as int)));
                    assert((s@ + piece@) + sudoku_plain_row(self, r as int, c as int + 1)
                        + sudoku_plain_rows(self, r as int + 1) =~= s@ + sudoku_plain_row(
                        self, r as int, c as int) + sudoku_plain_rows(self, r as int + 1));
                }
                s.append(piece.as_str());
                c = c + 1;
            }
            s.append("\n");
            proof {
                reveal_strlit("\n");
                assert(("\n")@ =~= seq!['\n']);
                assert(sudoku_plain_row(self, r as int, 9) =~= seq!['\n']);
                assert(s@ + sudoku_plain_rows(self, r as int + 1) =~= sudoku_plain_text(self));
            }
            r = r + 1;
        }
        s
    }

    /// Whether the traversal has reached its terminal state.
    fn is_finished(&self) -> (r: bool)
        ensures
            r == (self.row_i == 9),
    {
        self.row_i == 9
    }

    /// Overwrite the domain and mirrored raw value of cell `(r, c)`.
    fn set_cell(&mut self, r: usize, c: usize, d: RangeDomain, v: i8)
        requires
            r < old(self).domains@.len(),
            c < old(self).domains@[r as int]@.len(),
            r < old(self).values@.len(),
            c < old(self).values@[r as int]@.len(),
        ensures
            final(self).row_i == old(self).row_i,
            final(self).col_i == old(self).col_i,
            final(self).domains@.len() == old(self).domains@.len(),
            final(self).values@.len() == old(self).values@.len(),
            final(self).domains@[r as int]@ == old(self).domains@[r as int]@.update(c as int, d),
            final(self).values@[r as int]@ == old(self).values@[r as int]@.update(c as int, v),
            forall|i: int|
                0 <= i < old(self).domains@.len() && i != r ==> final(self).domains@[i]
                    == old(self).domains@[i],
            forall|i: int|
                0 <= i < old(self).values@.len() && i != r ==> final(self).values@[i]
                    == old(self).values@[i],
    {
        self.domains[r][c] = d;
        self.values[r][c] = v;
    }

    /// Advance the cursor to the next cell in row-major order, reporting
    /// completion as soon as the cursor reaches the terminal state.
    fn next_cell(&mut self) -> (r: Result<bool, SolveError>)
        requires
            old(self).wf(),
            old(self).row_i < 9 ==> old(self).raw(
                old(self).row_i as int, old(self).col_i as int) != 0,
        ensures
            final(self).wf(),
            final(self).domains == old(self).domains,
            final(self).values == old(self).values,
            r is Ok,
            old(self).row_i == 9 ==> *final(self) == *old(self) && r == Ok::<
                bool, SolveError>(true),
            old(self).row_i < 9 ==> {
                &&& r == Ok::<bool, SolveError>(final(self).row_i == 9)
                &&& final(self).pos() == old(self).pos() + 1
            },
    {
        if self.row_i == 9 {
            return Ok(true);
        }
        let ghost g0 = *self;
        self.col_i = self.col_i + 1;
        if self.col_i == 9 {
            self.col_i = 0;
            self.row_i = self.row_i + 1;
        }
        proof {
            assert(self.pos() == g0.pos() + 1);
            assert(self.same_cells(&g0));
            self.lemma_same_cells_facts(&g0);
            lemma_flat_range(9, g0.row_i as int, g0.col_i as int);
            assert forall|r2: int, c2: int|
                0 <= r2 < 9 && 0 <= c2 < 9 && r2 * 9 + c2 < self.pos()
                implies (#[trigger] self.raw(r2, c2)) != 0 by {
                lemma_flat_range(9, r2, c2);
                if r2 * 9 + c2 == g0.pos() {
                    assert(r2 == g0.row_i && c2 == g0.col_i);
                    assert(g0.raw(r2, c2) != 0);
                } else {
                    assert(g0.raw(r2, c2) != 0);
                }
            }
        }
        Ok(self.row_i == 9)
    }

    /// Move the cursor to the previous cell; fails at the origin.
    fn prev_cell(&mut self) -> (r: Result<(), SolveError>)
        requires
            old(self).cursor_ok(),
        ensures
            final(self).domains == old(self).domains,
            final(self).values == old(self).values,
            final(self).cursor_ok(),
            r is Ok <==> old(self).pos() > 0,
            r is Ok ==> final(self).pos() == old(self).pos() - 1 && final(self).row_i < 9,
            r is Err ==> *final(self) == *old(self) && r == Err::<(), SolveError>(
                SolveError::Unsatisfiable),
    {
        if self.row_i == 0 && self.col_i == 0 {
            return Err(SolveError::Unsatisfiable);
        }
        if self.col_i == 0 {
            self.col_i = 9;
            self.row_i = self.row_i - 1;
        }
        self.col_i = self.col_i - 1;
        Ok(())
    }
}

/// What one domain move at the cursor does to a well-formed Sudoku: the
/// changed cell keeps its interval and its mirror stays in sync, every
/// other cell stays as it was, and the digit string changes at most at the
/// cursor's rank.
proof fn sudoku_update_at_cursor_facts(before: &Sudoku, after: &Sudoku, nd: RangeDomain, nv: i8)
    requires
        before.cells_ok(),
        before.cursor_ok(),
        before.prefix_assigned(),
        before.row_i < 9,
        nd.inv(),
        nd.min == before.cell(before.row_i as int, before.col_i as int).min,
        nd.max == before.cell(before.row_i as int, before.col_i as int).max,
        Sudoku::sync_ok(nd, nv),
        after.row_i == before.row_i,
        after.col_i == before.col_i,
        after.domains@.len() == before.domains@.len(),
        after.values@.len() == before.values@.len(),
        after.domains@[before.row_i as int]@ == before.domains@[
            before.row_i as int]@.update(before.col_i as int, nd),
        after.values@[before.row_i as int]@ == before.values@[
            before.row_i as int]@.update(before.col_i as int, nv),
        forall|i: int|
            0 <= i < before.domains@.len() && i != before.row_i ==> after.domains@[i]
                == before.domains@[i],
        forall|i: int|
            0 <= i < before.values@.len() && i != before.row_i ==> after.values@[i]
                == before.values@[i],
    ensures
        after.cells_ok(),
        after.cursor_ok(),
        after.prefix_assigned(),
        after.layout_matches(before),
        after.clues() == before.clues(),
        after.cell(before.row_i as int, before.col_i as int) == nd,
        after.raw(before.row_i as int, before.col_i as int) == nv,
        forall|r: int, c: int|
            0 <= r < 9 && 0 <= c < 9 && !(r == before.row_i && c == before.col_i) ==> (
            #[trigger] after.cell(r, c)) == before.cell(r, c) && after.raw(r, c)
                == before.raw(r, c),
        after.cell_at(before.pos()) == nd,
        after.raw_at(before.pos()) == nv,
        forall|q: int|
            0 <= q < 81 && q != before.pos() ==> (#[trigger] after.cell_at(q))
                == before.cell_at(q) && after.raw_at(q) == before.raw_at(q),
        forall|p: int|
            0 <= p < 81 && p != before.pos() ==> after.digit_seq()[p]
                == before.digit_seq()[p],
        after.digit_seq()[before.pos()] == domain_slack(&nd),
{
    let cr = before.row_i as int;
    let cc = before.col_i as int;
    lemma_flat_range(9, cr, cc);
    assert(after.cell(cr, cc) == nd);
    assert(after.raw(cr, cc) == nv);
    assert forall|r: int, c: int| 0 <= r < 9 && 0 <= c < 9 && !(r == cr && c == cc)
        implies (#[trigger] after.cell(r, c)) == before.cell(r, c) && after.raw(r, c)
            == before.raw(r, c) by {
        if r != cr {
            assert(after.domains@[r] == before.domains@[r]);
            assert(after.values@[r] == before.values@[r]);
        }
    }
    assert forall|r: int| 0 <= r < 9 implies (#[trigger] after.domains@[r])@.len() == 9
        && after.values@[r]@.len() == 9 by {
        if r != cr {
            assert(after.domains@[r] == before.domains@[r]);
            assert(after.values@[r] == before.values@[r]);
        }
        assert(before.domains@[r]@.len() == 9);
        assert(before.values@[r]@.len() == 9);
    }
    assert forall|r: int, c: int| 0 <= r < 9 && 0 <= c < 9
        implies Sudoku::cell_ok(#[trigger] after.cell(r, c)) && Sudoku::sync_ok(
            after.cell(r, c), after.raw(r, c)) by {
        if r == cr && c == cc {
            assert(Sudoku::cell_ok(before.cell(r, c)));
        } else {
            assert(after.cell(r, c) == before.cell(r, c));
            assert(after.raw(r, c) == before.raw(r, c));
            assert(Sudoku::cell_ok(before.cell(r, c)));
            assert(Sudoku::sync_ok(before.cell(r, c), before.raw(r, c)));
        }
    }
    assert forall|r: int, c: int| 0 <= r < 9 && 0 <= c < 9 implies {
        &&& (#[trigger] after.cell(r, c)).min == before.cell(r, c).min
        &&& after.cell(r, c).max == before.cell(r, c).max
    } by {
        if !(r == cr && c == cc) {
            assert(after.cell(r, c) == before.cell(r, c));
        }
    }
    assert forall|r: int, c: int| 0 <= r < 9 && 0 <= c < 9 && r * 9 + c < after.pos()
        implies (#[trigger] after.raw(r, c)) != 0 by {
        lemma_flat_range(9, r, c);
        if r == cr && c == cc {
            assert(r * 9 + c == before.pos());
        } else {
            assert(after.raw(r, c) == before.raw(r, c));
            assert(before.raw(r, c) != 0);
        }
    }
    assert forall|p: int| 0 <= p < 81 && p != before.pos()
        implies after.digit_seq()[p] == before.digit_seq()[p] by {
        lemma_flat_inverse(9, p);
        let r = p / 9;
        let c = p % 9;
        if r == cr && c == cc {
            assert(p == before.pos());
        } else {
            assert(after.cell(r, c) == before.cell(r, c));
        }
    }
    assert(after.cell_at(before.pos()) == nd);
    assert(after.raw_at(before.pos()) == nv);
    assert forall|q: int| 0 <= q < 81 && q != before.pos()
        implies (#[trigger] after.cell_at(q)) == before.cell_at(q) && after.raw_at(q)
            == before.raw_at(q) by {
        lemma_flat_inverse(9, q);
        let r = q / 9;
        let c = q % 9;
        if r == cr && c == cc {
            assert(q == before.pos());
        } else {
            assert(after.cell(r, c) == before.cell(r, c));
            assert(after.raw(r, c) == before.raw(r, c));
        }
    }
    after.lemma_digit_seq_index(cr, cc);
    before.lemma_digit_seq_index(cr, cc);
    after.lemma_layout_clues(before);
}

impl CSP for Sudoku {
    open spec fn wf(&self) -> bool {
        &&& self.cells_ok()
        &&& self.cursor_ok()
        &&& self.prefix_assigned()
    }

    open spec fn complete(&self) -> bool {
        self.row_i == 9
    }

    open spec fn values(&self) -> Seq<Seq<Option<i8>>> {
        Seq::new(9, |r: int| Seq::new(9, |c: int| self.view_val(r, c)))
    }

    open spec fn clues(&self) -> Map<(int, int), i8> {
        Map::new(
            |rc: (int, int)|
                0 <= rc.0 < 9 && 0 <= rc.1 < 9 && self.cell(rc.0, rc.1).min == self.cell(
                    rc.0, rc.1).max,
            |rc: (int, int)| self.cell(rc.0, rc.1).min,
        )
    }

    open spec fn measure(&self) -> nat {
        digits_val(self.digit_seq())
    }

    open spec fn steps_left(&self) -> nat {
        (81 - self.pos()) as nat
    }

    fn forward(&mut self) -> (r: Result<bool, SolveError>)
        ensures
            r is Ok,
            old(self).complete() ==> r == Ok::<bool, SolveError>(true)
                && *final(self) == *old(self),
            !old(self).complete() && old(self).raw(
                old(self).row_i as int, old(self).col_i as int) == 0 ==> {
                &&& r == Ok::<bool, SolveError>(false)
                &&& final(self).row_i == old(self).row_i
                &&& final(self).col_i == old(self).col_i
                &&& final(self).cell(old(self).row_i as int, old(self).col_i as int).current
                    == Some(old(self).cell(
                    old(self).row_i as int, old(self).col_i as int).min)
                &&& final(self).raw(old(self).row_i as int, old(self).col_i as int) == old(
                    self).cell(old(self).row_i as int, old(self).col_i as int).min
                &&& forall|r2: int, c2: int|
                    0 <= r2 < 9 && 0 <= c2 < 9 && !(r2 == old(self).row_i && c2 == old(
                        self).col_i) ==> (#[trigger] final(self).cell(r2, c2)) == old(
                        self).cell(r2, c2) && final(self).raw(r2, c2) == old(self).raw(r2, c2)
            },
            !old(self).complete() && old(self).raw(
                old(self).row_i as int, old(self).col_i as int) != 0 ==> {
                &&& final(self).domains == old(self).domains
                &&& final(self).values == old(self).values
                &&& final(self).pos() == old(self).pos() + 1
                &&& r == Ok::<bool, SolveError>(final(self).complete())
            },
    {
        if self.is_finished() {
            return Ok(true);
        }
        let row = self.row_i;
        let col = self.col_i;
        let ghost g0 = *self;
        if self.values[row][col] == 0 {
            let d = self.domains[row][col];
            proof {
                assert(Sudoku::cell_ok(g0.cell(row as int, col as int)));
                assert(Sudoku::sync_ok(g0.cell(row as int, col as int),
                    g0.raw(row as int, col as int)));
                // an assigned candidate is at least `min >= 1`, so an
                // empty mirror value means the domain is still unassigned
                assert(d.current is None);
            }
            let mut nd = d;
            nd.next();
            let nv = match nd.value() {
                Some(x) => x,
                None => 0,
            };
            self.set_cell(row, col, nd, nv);
            proof {
                d.lemma_inv();
                assert(domain_slack(&nd) < domain_slack(&d));
                sudoku_update_at_cursor_facts(&g0, self, nd, nv);
                self.lemma_digit_seq_bounded();
                lemma_digits_val_lt(self.digit_seq(), g0.digit_seq(), g0.pos());
            }
            Ok(false)
        } else {
            let r = self.next_cell();
            proof {
                assert(self.same_cells(&g0));
                self.lemma_same_cells_facts(&g0);
                lemma_flat_range(9, g0.row_i as int, g0.col_i as int);
            }
            r
        }
    }

    fn backward(&mut self) -> (r: Result<(), SolveError>)
        ensures
            r is Ok ==> exists|p: int| Sudoku::backward_resumed_at(old(self), final(self), p),
            r is Err ==> Sudoku::backward_exhausted(old(self), final(self)),
    {
        let ghost init = *self;
        if self.is_finished() {
            match self.prev_cell() {
                Ok(()) => {}
                Err(e) => {
                    return Err(e);
                }
            }
        }
        let ghost g0 = *self;
        proof {
            assert(self.same_cells(&init));
            self.lemma_same_cells_facts(&init);
            self.lemma_same_cells_prefix(&init);
            lemma_flat_range(9, self.row_i as int, self.col_i as int);
            assert forall|q: int| 0 <= q < 81
                implies (#[trigger] g0.cell_at(q)) == old(self).cell_at(q) && g0.raw_at(q)
                    == old(self).raw_at(q) by {
                lemma_flat_inverse(9, q);
                assert(g0.domains@[q / 9]@ == init.domains@[q / 9]@);
                assert(g0.values@[q / 9]@ == init.values@[q / 9]@);
            }
        }
        let ghost mut resume: int = 0;
        let mut updated = false;
        while !updated
            invariant
                self.cells_ok(),
                self.cursor_ok(),
                self.prefix_assigned(),
                self.row_i < 9,
                self.layout_matches(&g0),
                g0.cells_ok(),
                g0.clues() == old(self).clues(),
                g0.measure() == old(self).measure(),
                g0.digit_seq() == old(self).digit_seq(),
                forall|q: int|
                    0 <= q < 81 ==> (#[trigger] g0.cell_at(q)) == old(self).cell_at(q)
                        && g0.raw_at(q) == old(self).raw_at(q),
                g0.pos() < 81,
                old(self).pos() >= g0.pos(),
                old(self).pos() == g0.pos() || g0.pos() == 80,
                !updated ==> self.pos() < 81,
                !updated ==> self.pos() <= g0.pos(),
                !updated ==> forall|p: int|
                    0 <= p <= self.pos() ==> self.digit_seq()[p] == g0.digit_seq()[p],
                !updated ==> forall|q: int|
                    0 <= q <= self.pos() ==> (#[trigger] self.cell_at(q)) == g0.cell_at(q)
                        && self.raw_at(q) == g0.raw_at(q),
                forall|q: int|
                    g0.pos() < q < 81 ==> (#[trigger] self.cell_at(q)) == g0.cell_at(q)
                        && self.raw_at(q) == g0.raw_at(q),
                !updated ==> forall|q: int|
                    self.pos() < q <= g0.pos() ==> !domain_has_next(
                        &(#[trigger] g0.cell_at(q))),
                !updated ==> forall|q: int|
                    self.pos() < q <= g0.pos() ==> (#[trigger] self.cell_at(
                        q)).current is None && self.raw_at(q) == 0,
                updated ==> digits_val(self.digit_seq()) < digits_val(g0.digit_seq()),
                updated ==> {
                    &&& 0 <= resume < 81
                    &&& resume <= g0.pos()
                    &&& self.pos() == resume
                    &&& domain_has_next(&g0.cell_at(resume))
                    &&& self.cell_at(resume).current == (match g0.cell_at(resume).current {
                        None => Some(g0.cell_at(resume).min),
                        Some(v) => Some((v + 1) as i8),
                    })
                    &&& self.raw_at(resume) == (match g0.cell_at(resume).current {
                        None => g0.cell_at(resume).min,
                        Some(v) => (v + 1) as i8,
                    })
                    &&& forall|q: int|
                        resume < q < 81 && q <= g0.pos() ==> !domain_has_next(
                            &(#[trigger] g0.cell_at(q)))
                    &&& forall|q: int|
                        resume < q < 81 && q <= g0.pos() ==> (#[trigger] self.cell_at(
                            q)).current is None && self.raw_at(q) == 0
                    &&& forall|q: int|
                        0 <= q < resume ==> (#[trigger] self.cell_at(q)) == g0.cell_at(q)
                            && self.raw_at(q) == g0.raw_at(q)
                },
            decreases (if updated { 0int } else { self.pos() + 1 }),
        {
            let row = self.row_i;
            let col = self.col_i;
            let ghost before = *self;
            let d = self.domains[row][col];
            proof {
                assert(Sudoku::cell_ok(before.cell(row as int, col as int)));
                assert(Sudoku::sync_ok(before.cell(row as int, col as int),
                    before.raw(row as int, col as int)));
                lemma_flat_range(9, row as int, col as int);
                assert(before.cell_at(before.pos()) == d);
                assert(g0.cell_at(before.pos()) == d);
            }
            if d.has_next() {
                let mut nd = d;
                nd.next();
                let nv = match nd.value() {
                    Some(x) => x,
                    None => 0,
                };
                self.set_cell(row, col, nd, nv);
                proof {
                    d.lemma_inv();
                    assert(domain_slack(&nd) < domain_slack(&d));
                    sudoku_update_at_cursor_facts(&before, self, nd, nv);
                    assert(before.digit_seq()[before.pos()] == g0.digit_seq()[before.pos()]);
                    assert forall|p: int| 0 <= p < before.pos()
                        implies self.digit_seq()[p] == g0.digit_seq()[p] by {
                        assert(self.digit_seq()[p] == before.digit_seq()[p]);
                    }
                    self.lemma_digit_seq_bounded();
                    lemma_digits_val_lt(self.digit_seq(), g0.digit_seq(), before.pos());
                    resume = before.pos();
                    assert(self.cell_at(resume) == nd);
                    assert(self.raw_at(resume) == nv);
                    assert forall|q: int| 0 <= q < resume
                        implies (#[trigger] self.cell_at(q)) == g0.cell_at(q)
                            && self.raw_at(q) == g0.raw_at(q) by {
                        assert(self.cell_at(q) == before.cell_at(q));
                        assert(self.raw_at(q) == before.raw_at(q));
                    }
                    assert forall|q: int| resume < q < 81 && q <= g0.pos()
                        implies (#[trigger] self.cell_at(q)).current is None
                            && self.raw_at(q) == 0 by {
                        assert(self.cell_at(q) == before.cell_at(q));
                        assert(self.raw_at(q) == before.raw_at(q));
                    }
                    assert forall|q: int| g0.pos() < q < 81
                        implies (#[trigger] self.cell_at(q)) == g0.cell_at(q)
                            && self.raw_at(q) == g0.raw_at(q) by {
                        assert(self.cell_at(q) == before.cell_at(q));
                        assert(self.raw_at(q) == before.raw_at(q));
                    }
                }
                updated = true;
            } else {
                let mut nd = d;
                nd.reset();
                self.set_cell(row, col, nd, 0);
                let ghost mid = *self;
                proof {
                    sudoku_update_at_cursor_facts(&before, self, nd, 0);
                    // the passed-over cell was exhausted: its digit was zero
                    before.lemma_digit_seq_index(row as int, col as int);
                    d.lemma_inv();
                    assert(domain_slack(&d) == 0);
                    assert(g0.digit_seq()[before.pos()] == 0);
                    assert(mid.cell_at(before.pos()) == nd);
                    assert(mid.raw_at(before.pos()) == 0);
                }
                match self.prev_cell() {
                    Ok(()) => {
                        proof {
                            assert(self.same_cells(&mid));
                            self.lemma_same_cells_facts(&mid);
                            self.lemma_same_cells_prefix(&mid);
                            assert forall|p: int| 0 <= p <= self.pos()
                                implies self.digit_seq()[p] == g0.digit_seq()[p] by {
                                assert(self.digit_seq()[p] == mid.digit_seq()[p]);
                                assert(mid.digit_seq()[p] == before.digit_seq()[p]);
                            }
                            assert forall|q: int| 0 <= q < 81
                                implies (#[trigger] self.cell_at(q)) == mid.cell_at(q)
                                    && self.raw_at(q) == mid.raw_at(q) by {
                                lemma_flat_inverse(9, q);
                                assert(self.domains@[q / 9]@ == mid.domains@[q / 9]@);
                                assert(self.values@[q / 9]@ == mid.values@[q / 9]@);
                            }
                            assert forall|q: int| self.pos() < q <= g0.pos()
                                implies (#[trigger] self.cell_at(q)).current is None
                                    && self.raw_at(q) == 0 by {
                                if q == before.pos() {
                                    assert(self.cell_at(q) == nd);
                                } else {
                                    assert(self.cell_at(q) == mid.cell_at(q));
                                    assert(mid.cell_at(q) == before.cell_at(q));
                                    assert(mid.raw_at(q) == before.raw_at(q));
                                }
                            }
                        }
                    }
                    Err(e) => {
                        proof {
                            assert(self.same_cells(&mid));
                            self.lemma_same_cells_facts(&mid);
                            self.lemma_same_cells_prefix(&mid);
                            assert(self.layout_matches(&g0));
                            self.lemma_layout_clues(&g0);
                            assert(before.pos() == 0);
                            assert(self.pos() == 0);
                            assert forall|q: int| 0 <= q < 81 && q <= old(self).pos()
                                implies !domain_has_next(
                                    &(#[trigger] old(self).cell_at(q))) by {
                                assert(q <= g0.pos());
                                assert(g0.cell_at(q) == old(self).cell_at(q));
                                if q == 0 {
                                    assert(!domain_has_next(&g0.cell_at(0)));
                                }
                            }
                            assert forall|q: int| 0 <= q < 81 && q <= old(self).pos()
                                implies (#[trigger] self.cell_at(q)).current is None
                                    && self.raw_at(q) == 0 by {
                                assert(q <= g0.pos());
                                if q == 0 {
                                    assert(self.cell_at(q) == nd);
                                    assert(self.raw_at(q) == mid.raw_at(q));
                                } else {
                                    assert(self.cell_at(q) == mid.cell_at(q));
                                    assert(mid.cell_at(q) == before.cell_at(q));
                                    assert(self.raw_at(q) == mid.raw_at(q));
                                    assert(mid.raw_at(q) == before.raw_at(q));
                                }
                            }
                            assert forall|q: int| 0 <= q < 81 && q > old(self).pos()
                                implies (#[trigger] self.cell_at(q)) == old(self).cell_at(q)
                                    && self.raw_at(q) == old(self).raw_at(q) by {
                                assert(self.cell_at(q) == g0.cell_at(q));
                                assert(self.raw_at(q) == g0.raw_at(q));
                            }
                        }
                        return Err(e);
                    }
                }
            }
        }
        proof {
            self.lemma_layout_clues(&g0);
            assert forall|q: int| 0 <= q < 81 && (q < resume || q > old(self).pos())
                implies (#[trigger] self.cell_at(q)) == old(self).cell_at(q)
                    && self.raw_at(q) == old(self).raw_at(q) by {
                assert(g0.cell_at(q) == old(self).cell_at(q));
                assert(g0.raw_at(q) == old(self).raw_at(q));
                if q < resume {
                    assert(self.cell_at(q) == g0.cell_at(q));
                } else {
                    assert(q > g0.pos());
                    assert(self.cell_at(q) == g0.cell_at(q));
                }
            }
            assert forall|q: int| resume < q < 81 && q <= old(self).pos()
                implies !domain_has_next(&(#[trigger] old(self).cell_at(q))) by {
                assert(q <= g0.pos());
                assert(g0.cell_at(q) == old(self).cell_at(q));
                assert(!domain_has_next(&g0.cell_at(q)));
            }
            assert forall|q: int| resume < q < 81 && q <= old(self).pos()
                implies (#[trigger] self.cell_at(q)).current is None && self.raw_at(q)
                    == 0 by {
                assert(q <= g0.pos());
            }
            assert(g0.cell_at(resume) == old(self).cell_at(resume));
            assert(Sudoku::backward_resumed_at(old(self), self, resume));
        }
        Ok(())
    }

    fn snapshot(&self) -> (r: Self) {
        let mut doms: Vec<Vec<RangeDomain>> = Vec::new();
        let mut vals: Vec<Vec<i8>> = Vec::new();
        let mut i: usize = 0;
        while i < 9
            invariant
                self.wf(),
                i <= 9,
                doms@.len() == i,
                vals@.len() == i,
                forall|t: int| 0 <= t < i ==> (#[trigger] doms@[t])@ == self.domains@[t]@,
                forall|t: int| 0 <= t < i ==> (#[trigger] vals@[t])@ == self.values@[t]@,
            decreases 9 - i,
        {
            let drow = &self.domains[i];
            let vrow = &self.values[i];
            let mut dcopy: Vec<RangeDomain> = Vec::new();
            let mut vcopy: Vec<i8> = Vec::new();
            let mut j: usize = 0;
            while j < 9
                invariant
                    self.wf(),
                    i < 9,
                    drow == &self.domains[i as int],
                    vrow == &self.values[i as int],
                    drow@.len() == 9,
                    vrow@.len() == 9,
                    j <= 9,
                    dcopy@.len() == j,
                    vcopy@.len() == j,
                    forall|t: int| 0 <= t < j ==> dcopy@[t] == drow@[t],
                    forall|t: int| 0 <= t < j ==> vcopy@[t] == vrow@[t],
                decreases 9 - j,
            {
                dcopy.push(drow[j]);
                vcopy.push(vrow[j]);
                j = j + 1;
            }
            proof {
                assert(dcopy@ =~= drow@);
                assert(vcopy@ =~= vrow@);
            }
            doms.push(dcopy);
            vals.push(vcopy);
            i = i + 1;
        }
        let s = Sudoku { domains: doms, values: vals, row_i: self.row_i, col_i: self.col_i };
        proof {
            assert(s.same_cells(self));
            s.lemma_same_cells_facts(self);
            s.lemma_same_cells_prefix(self);
        }
        s
    }
}

/// In a complete well-formed Sudoku every cell holds a value of `1..=9`
/// drawn from its own domain interval: the shape half of solution
/// validity.
pub proof fn lemma_sudoku_complete_values_in_alphabet(s: Sudoku)
    requires
        s.wf(),
        s.complete(),
    ensures
        forall|r: int, c: int|
            0 <= r < 9 && 0 <= c < 9 ==> {
                &&& 1 <= #[trigger] s.raw(r, c) <= 9
                &&& s.cell(r, c).min <= s.raw(r, c) <= s.cell(r, c).max
            },
{
    assert forall|r: int, c: int| 0 <= r < 9 && 0 <= c < 9 implies {
        &&& 1 <= #[trigger] s.raw(r, c) <= 9
        &&& s.cell(r, c).min <= s.raw(r, c) <= s.cell(r, c).max
    } by {
        lemma_flat_range(9, r, c);
        assert(s.raw(r, c) != 0);
        assert(Sudoku::cell_ok(s.cell(r, c)));
        assert(Sudoku::sync_ok(s.cell(r, c), s.raw(r, c)));
    }
}

/// Clue preservation for the Sudoku variant: a given cell of the original
/// puzzle holds exactly its given value in any complete well-formed state
/// that records the same clues.
pub proof fn lemma_sudoku_clue_preserved(original: Sudoku, solved: Sudoku, r: int, c: int)
    requires
        original.wf(),
        solved.wf(),
        solved.complete(),
        solved.clues() == original.clues(),
        0 <= r < 9,
        0 <= c < 9,
        original.cell(r, c).min == original.cell(r, c).max,
    ensures
        solved.raw(r, c) == original.cell(r, c).min,
{
    assert(original.clues().dom().contains((r, c)));
    assert(solved.clues().dom().contains((r, c)));
    assert(solved.cell(r, c).min == solved.cell(r, c).max);
    assert(solved.clues()[(r, c)] == solved.cell(r, c).min);
    assert(original.clues()[(r, c)] == original.cell(r, c).min);
    lemma_sudoku_complete_values_in_alphabet(solved);
}

/// The plain text of row `r` from column `c` on, ending in a newline.
pub open spec fn sudoku_plain_row(s: &Sudoku, r: int, c: int) -> Seq<char>
    decreases 9 - c,
{
    if c < 0 || c >= 9 {
        seq!['\n']
    } else {
        grid_cell_text(s.view_val(r, c)) + sudoku_plain_row(s, r, c + 1)
    }
}

/// The plain text of the rows from `r` on.
pub open spec fn sudoku_plain_rows(s: &Sudoku, r: int) -> Seq<char>
    decreases 9 - r,
{
    if r < 0 || r >= 9 {
        Seq::empty()
    } else {
        sudoku_plain_row(s, r, 0) + sudoku_plain_rows(s, r + 1)
    }
}

/// The plain text of a whole Sudoku.
pub open spec fn sudoku_plain_text(s: &Sudoku) -> Seq<char> {
    sudoku_plain_rows(s, 0)
}

/// Whether the given values of one line of the raw square are pairwise
/// distinct, `line` naming a row or (when `read_col` is set) a column.
fn sudoku_line_unique(sudoku: &Sudoku, line: usize, read_col: bool) -> (b: bool)
    requires
        sudoku.cells_ok(),
        line < 9,
    ensures
        !read_col ==> b == line_unique(sudoku.values()[line as int]),
        read_col ==> b == line_unique(column_of(sudoku.values(), line as int)),
{
    let ghost s = if read_col {
        column_of(sudoku.values(), line as int)
    } else {
        sudoku.values()[line as int]
    };
    proof {
        assert(s.len() == 9);
    }
    let mut j: usize = 0;
    while j < 9
        invariant
            sudoku.cells_ok(),
            line < 9,
            s == (if read_col {
                column_of(sudoku.values(), line as int)
            } else {
                sudoku.values()[line as int]
            }),
            s.len() == 9,
            j <= 9,
            forall|a: int, b2: int|
                0 <= a < b2 < j && s[a] is Some && s[b2] is Some ==> s[a] != s[b2],
        decreases 9 - j,
    {
        let vj = if read_col {
            sudoku.values[j][line]
        } else {
            sudoku.values[line][j]
        };
        proof {
            assert(s[j as int] == (if vj == 0 {
                None::<i8>
            } else {
                Some(vj)
            }));
        }
        if vj != 0 {
            let mut i: usize = 0;
            while i < j
                invariant
                    sudoku.cells_ok(),
                    line < 9,
                    s == (if read_col {
                        column_of(sudoku.values(), line as int)
                    } else {
                        sudoku.values()[line as int]
                    }),
                    s.len() == 9,
                    i <= j,
                    j < 9,
                    vj != 0,
                    s[j as int] == Some(vj),
                    forall|a: int| 0 <= a < i ==> s[a] != Some(vj),
                decreases j - i,
            {
                let vi = if read_col {
                    sudoku.values[i][line]
                } else {
                    sudoku.values[line][i]
                };
                proof {
                    assert(s[i as int] == (if vi == 0 {
                        None::<i8>
                    } else {
                        Some(vi)
                    }));
                }
                if vi != 0 && vi == vj {
                    proof {
                        assert(s[i as int] == Some(vi));
                        assert(!line_unique(s));
                    }
                    return false;
                }
                i = i + 1;
            }
        }
        j = j + 1;
    }
    true
}

/// Whether the given values of block `(bi, bj)` are pairwise distinct.
fn sudoku_block_unique(sudoku: &Sudoku, bi: usize, bj: usize) -> (b: bool)
    requires
        sudoku.cells_ok(),
        bi < 3,
        bj < 3,
    ensures
        b == line_unique(block_of(sudoku.values(), 3, bi as int, bj as int)),
{
    let ghost s = block_of(sudoku.values(), 3, bi as int, bj as int);
    proof {
        assert(s.len() == 9);
    }
    let mut j: usize = 0;
    while j < 9
        invariant
            sudoku.cells_ok(),
            bi < 3,
            bj < 3,
            s == block_of(sudoku.values(), 3, bi as int, bj as int),
            s.len() == 9,
            j <= 9,
            forall|a: int, b2: int|
                0 <= a < b2 < j && s[a] is Some && s[b2] is Some ==> s[a] != s[b2],
        decreases 9 - j,
    {
        proof {
            lemma_flat_inverse(3, j as int);
        }
        let vj = sudoku.values[bi * 3 + j / 3][bj * 3 + j % 3];
        proof {
            assert(s[j as int] == (if vj == 0 {
                None::<i8>
            } else {
                Some(vj)
            }));
        }
        if vj != 0 {
            let mut i: usize = 0;
            while i < j
                invariant
                    sudoku.cells_ok(),
                    bi < 3,
                    bj < 3,
                    s == block_of(sudoku.values(), 3, bi as int, bj as int),
                    s.len() == 9,
                    i <= j,
                    j < 9,
                    vj != 0,
                    s[j as int] == Some(vj),
                    forall|a: int| 0 <= a < i ==> s[a] != Some(vj),
                decreases j - i,
            {
                proof {
                    lemma_flat_inverse(3, i as int);
                }
                let vi = sudoku.values[bi * 3 + i / 3][bj * 3 + i % 3];
                proof {
                    assert(s[i as int] == (if vi == 0 {
                        None::<i8>
                    } else {
                        Some(vi)
                    }));
                }
                if vi != 0 && vi == vj {
                    proof {
                        assert(s[i as int] == Some(vi));
                        assert(!line_unique(s));
                    }
                    return false;
                }
                i = i + 1;
            }
        }
        j = j + 1;
    }
    true
}

/// Demands pairwise-distinct given values in every row of a Sudoku.
#[derive(Copy, Clone, Debug)]
pub struct SudokuRowConstraint {}

impl SudokuRowConstraint {
    pub fn new() -> (r: Self)
        ensures
            r == (SudokuRowConstraint {}),
    {
        SudokuRowConstraint {}
    }

    /// Whether every row holds pairwise-distinct given values.
    pub fn are_rows_correct(&self, sudoku: &Sudoku) -> (b: bool)
        requires
            sudoku.cells_ok(),
        ensures
            b == rows_unique(sudoku.values()),
    {
        let mut r: usize = 0;
        while r < 9
            invariant
                sudoku.cells_ok(),
                r <= 9,
                forall|t: int| 0 <= t < r ==> line_unique(#[trigger] sudoku.values()[t]),
            decreases 9 - r,
        {
            if !sudoku_line_unique(sudoku, r, false) {
                return false;
            }
            r = r + 1;
        }
        true
    }
}

impl Constraint<Sudoku> for SudokuRowConstraint {
    open spec fn spec_satisfied(&self, values: Seq<Seq<Option<i8>>>) -> bool {
        rows_unique(values)
    }

    fn is_satisfied(&self, problem: &Sudoku) -> (r: bool) {
        self.are_rows_correct(problem)
    }
}

/// Demands pairwise-distinct given values in every column of a Sudoku.
#[derive(Copy, Clone, Debug)]
pub struct SudokuColConstraint {}

impl SudokuColConstraint {
    pub fn new() -> (r: Self)
        ensures
            r == (SudokuColConstraint {}),
    {
        SudokuColConstraint {}
    }

    /// Whether every column holds pairwise-distinct given values.
    pub fn are_cols_correct(&self, sudoku: &Sudoku) -> (b: bool)
        requires
            sudoku.cells_ok(),
        ensures
            b == cols_unique(sudoku.values()),
    {
        let mut c: usize = 0;
        while c < 9
            invariant
                sudoku.cells_ok(),
                c <= 9,
                forall|t: int|
                    0 <= t < c ==> line_unique(#[trigger] column_of(sudoku.values(), t)),
            decreases 9 - c,
        {
            if !sudoku_line_unique(sudoku, c, true) {
                return false;
            }
            c = c + 1;
        }
        true
    }
}

impl Constraint<Sudoku> for SudokuColConstraint {
    open spec fn spec_satisfied(&self, values: Seq<Seq<Option<i8>>>) -> bool {
        cols_unique(values)
    }

    fn is_satisfied(&self, problem: &Sudoku) -> (r: bool) {
        self.are_cols_correct(problem)
    }
}

/// Demands pairwise-distinct given values in every 3-by-3 block of a
/// Sudoku.
#[derive(Copy, Clone, Debug)]
pub struct SudokuSquareConstraint {}

impl SudokuSquareConstraint {
    pub fn new() -> (r: Self)
        ensures
            r == (SudokuSquareConstraint {}),
    {
        SudokuSquareConstraint {}
    }

    /// Whether every 3-by-3 block holds pairwise-distinct given values.
    pub fn are_squares_correct(&self, sudoku: &Sudoku) -> (b: bool)
        requires
            sudoku.cells_ok(),
        ensures
            b == blocks_unique(sudoku.values()),
    {
        proof {
            lemma_isqrt_unique(9, 3);
        }
        let mut bi: usize = 0;
        while bi < 3
            invariant
                sudoku.cells_ok(),
                bi <= 3,
                forall|i: int, j: int|
                    0 <= i < bi && 0 <= j < 3 ==> line_unique(
                        #[trigger] block_of(sudoku.values(), 3, i, j)),
            decreases 3 - bi,
        {
            let mut bj: usize = 0;
            while bj < 3
                invariant
                    sudoku.cells_ok(),
                    bi < 3,
                    bj <= 3,
                    forall|i: int, j: int|
                        0 <= i < bi && 0 <= j < 3 ==> line_unique(
                            #[trigger] block_of(sudoku.values(), 3, i, j)),
                    forall|j: int|
                        0 <= j < bj ==> line_unique(
                            #[trigger] block_of(sudoku.values(), 3, bi as int, j)),
                decreases 3 - bj,
            {
                if !sudoku_block_unique(sudoku, bi, bj) {
                    proof {
                        lemma_isqrt_unique(9, 3);
                        assert(sudoku.values().len() == 9);
                        assert(!line_unique(block_of(
                            sudoku.values(),
                            spec_isqrt(sudoku.values().len() as int),
                            bi as int,
                            bj as int,
                        )));
                    }
                    return false;
                }
                bj = bj + 1;
            }
            bi = bi + 1;
        }
        proof {
            lemma_isqrt_unique(9, 3);
        }
        true
    }
}

impl Constraint<Sudoku> for SudokuSquareConstraint {
    open spec fn spec_satisfied(&self, values: Seq<Seq<Option<i8>>>) -> bool {
        blocks_unique(values)
    }

    fn is_satisfied(&self, problem: &Sudoku) -> (r: bool) {
        self.are_squares_correct(problem)
    }
}

/// The closed sum of the Sudoku constraints, so that one solver can hold
/// a heterogeneous ordered list of them.
#[derive(Copy, Clone, Debug)]
pub enum SudokuConstraint {
    Row(SudokuRowConstraint),
    Col(SudokuColConstraint),
    Square(SudokuSquareConstraint),
}

impl Constraint<Sudoku> for SudokuConstraint {
    open spec fn spec_satisfied(&self, values: Seq<Seq<Option<i8>>>) -> bool {
        match *self {
            SudokuConstraint::Row(c) => rows_unique(values),
            SudokuConstraint::Col(c) => cols_unique(values),
            SudokuConstraint::Square(c) => blocks_unique(values),
        }
    }

    fn is_satisfied(&self, problem: &Sudoku) -> (r: bool) {
        match *self {
            SudokuConstraint::Row(c) => c.is_satisfied(problem),
            SudokuConstraint::Col(c) => c.is_satisfied(problem),
            SudokuConstraint::Square(c) => c.is_satisfied(problem),
        }
    }
}

} // verus!
