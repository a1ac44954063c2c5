//! The concrete constraints over [`Grid`] problems: row, column and block
//! uniqueness (Latin-square and Sudoku-style puzzles) and row/column
//! equilibrium (binary-style puzzles over the alphabet `{0, 1}`).
//!
//! Each constraint is specified as a pure predicate over the grid's
//! assignment view and executed by a straightforward check that is proved
//! to compute exactly that predicate.  Unassigned cells are ignored by the
//! uniqueness rules and counted as free by the equilibrium rule, so every
//! constraint is meaningful on partial assignments and prunes the search.

use vstd::arithmetic::div_mod::lemma_fundamental_div_mod;
use vstd::prelude::*;

use crate::constraints::Constraint;
use crate::domains::Domain;
use crate::problem::CSP;
use crate::problem::grid::Grid;
use crate::problem::grid::lemma_flat_inverse;

verus! {

/// No two assigned entries of the line are equal; unassigned entries are
/// ignored (they do not count as duplicates of each other).
pub open spec fn line_unique(s: Seq<Option<i8>>) -> bool {
    forall|i: int, j: int|
        0 <= i < j < s.len() && s[i] is Some && s[j] is Some ==> s[i] != s[j]
}

/// Column `c` of an assignment view, read top to bottom.
pub open spec fn column_of(vals: Seq<Seq<Option<i8>>>, c: int) -> Seq<Option<i8>> {
    Seq::new(vals.len(), |r: int| vals[r][c])
}

/// Every row of the assignment holds pairwise-distinct assigned values.
pub open spec fn rows_unique(vals: Seq<Seq<Option<i8>>>) -> bool {
    forall|r: int| 0 <= r < vals.len() ==> line_unique(#[trigger] vals[r])
}

/// Every column of the assignment holds pairwise-distinct assigned values.
pub open spec fn cols_unique(vals: Seq<Seq<Option<i8>>>) -> bool {
    forall|c: int| 0 <= c < vals.len() ==> line_unique(#[trigger] column_of(vals, c))
}

/// The integer square root: the largest `r >= 0` with `r * r <= n`
/// (and `0` for `n <= 0`).
pub open spec fn spec_isqrt(n: int) -> int
    decreases n,
{
    if n <= 0 {
        0
    } else if (spec_isqrt(n - 1) + 1) * (spec_isqrt(n - 1) + 1) <= n {
        spec_isqrt(n - 1) + 1
    } else {
        spec_isqrt(n - 1)
    }
}

/// `spec_isqrt` computes a genuine integer square root.
pub proof fn lemma_spec_isqrt(n: int)
    requires
        n >= 0,
    ensures
        spec_isqrt(n) >= 0,
        spec_isqrt(n) * spec_isqrt(n) <= n,
        n < (spec_isqrt(n) + 1) * (spec_isqrt(n) + 1),
    decreases n,
{
    if n == 0 {
    } else {
        lemma_spec_isqrt(n - 1);
        let r0 = spec_isqrt(n - 1);
        if (r0 + 1) * (r0 + 1) <= n {
            assert(n - 1 < (r0 + 1) * (r0 + 1));
            assert(n == (r0 + 1) * (r0 + 1));
            assert((r0 + 1) * (r0 + 1) < (r0 + 2) * (r0 + 2)) by (nonlinear_arith)
                requires r0 >= 0,
            ;
        }
    }
}

/// Any `r` with `r * r <= n < (r + 1) * (r + 1)` is the integer square
/// root of `n`.
pub proof fn lemma_isqrt_unique(n: int, r: int)
    requires
        n >= 0,
        r >= 0,
        r * r <= n,
        n < (r + 1) * (r + 1),
    ensures
        r == spec_isqrt(n),
{
    lemma_spec_isqrt(n);
    let s = spec_isqrt(n);
    if r < s {
        assert((r + 1) * (r + 1) <= s * s) by (nonlinear_arith)
            requires 0 <= r, r + 1 <= s,
        ;
    }
    if s < r {
        assert((s + 1) * (s + 1) <= r * r) by (nonlinear_arith)
            requires 0 <= s, s + 1 <= r,
        ;
    }
}

/// Block `(bi, bj)` of an assignment view partitioned into `n`-by-`n`
/// squares, read in row-major order.
pub open spec fn block_of(vals: Seq<Seq<Option<i8>>>, n: int, bi: int, bj: int) -> Seq<
    Option<i8>,
> {
    Seq::new((n * n) as nat, |t: int| vals[bi * n + t / n][bj * n + t % n])
}

/// Every `sqrt(size)`-by-`sqrt(size)` block of the assignment holds
/// pairwise-distinct assigned values.
pub open spec fn blocks_unique(vals: Seq<Seq<Option<i8>>>) -> bool {
    let n = spec_isqrt(vals.len() as int);
    forall|bi: int, bj: int|
        0 <= bi < n && 0 <= bj < n ==> line_unique(#[trigger] block_of(vals, n, bi, bj))
}

/// How many entries of the line are exactly `x`.
pub open spec fn count_matching(s: Seq<Option<i8>>, x: Option<i8>) -> nat
    decreases s.len(),
{
    if s.len() == 0 {
        0
    } else {
        count_matching(s.drop_last(), x) + (if s.last() == x {
            1nat
        } else {
            0nat
        })
    }
}

/// A line of a binary puzzle is still balanceable: the difference between
/// its `0`s and its `1`s can be absorbed by the unassigned cells, up to
/// the one surplus cell an odd length allows.
pub open spec fn line_in_equilibrium(s: Seq<Option<i8>>) -> bool {
    let c0 = count_matching(s, Some(0i8)) as int;
    let c1 = count_matching(s, Some(1i8)) as int;
    let cu = count_matching(s, None::<i8>) as int;
    (if c0 >= c1 {
        c0 - c1
    } else {
        c1 - c0
    }) <= cu + s.len() % 2
}

/// Every row of the assignment is in equilibrium.
pub open spec fn rows_balanced(vals: Seq<Seq<Option<i8>>>) -> bool {
    forall|r: int| 0 <= r < vals.len() ==> line_in_equilibrium(#[trigger] vals[r])
}

/// Every column of the assignment is in equilibrium.
pub open spec fn cols_balanced(vals: Seq<Seq<Option<i8>>>) -> bool {
    forall|c: int| 0 <= c < vals.len() ==> line_in_equilibrium(#[trigger] column_of(vals, c))
}

/// A count over a line never exceeds its length.
proof fn lemma_count_matching_le_len(s: Seq<Option<i8>>, x: Option<i8>)
    ensures
        count_matching(s, x) <= s.len(),
    decreases s.len(),
{
    if s.len() > 0 {
        lemma_count_matching_le_len(s.drop_last(), x);
    }
}

/// Extending a prefix by one entry extends its count by that entry.
proof fn lemma_count_take_step(s: Seq<Option<i8>>, x: Option<i8>, k: int)
    requires
        0 <= k < s.len(),
    ensures
        count_matching(s.take(k + 1), x) == count_matching(s.take(k), x) + (if s[k] == x {
            1nat
        } else {
            0nat
        }),
{
    assert(s.take(k + 1).drop_last() =~= s.take(k));
    assert(s.take(k + 1).last() == s[k]);
}

/// The integer square root of `n`, computed without overflow by probing
/// with a division.
pub(crate) fn int_sqrt(n: usize) -> (r: usize)
    ensures
        r as int == spec_isqrt(n as int),
        (r as int) * (r as int) <= n as int,
        (n as int) < (r as int + 1) * (r as int + 1),
{
    let mut r: usize = 0;
    while r + 1 <= n / (r + 1)
        invariant
            (r as int) * (r as int) <= n as int,
            r < usize::MAX,
            r <= n,
        decreases n - r,
    {
        proof {
            lemma_fundamental_div_mod(n as int, r as int + 1);
            assert((r as int + 1) * (r as int + 1) <= n as int) by (nonlinear_arith)
                requires
                    r as int + 1 <= (n as int) / (r as int + 1),
                    n as int == (r as int + 1) * ((n as int) / (r as int + 1)) + (n as int) % (
                        r as int + 1),
                    0 <= (n as int) % (r as int + 1),
            ;
            assert(usize::MAX >= 0xffff_ffff);
            assert(r as int + 1 < usize::MAX as int && r as int + 1 <= n as int)
                by (nonlinear_arith)
                requires
                    (r as int + 1) * (r as int + 1) <= n as int,
                    n as int <= usize::MAX as int,
                    usize::MAX as int >= 3,
            ;
        }
        r = r + 1;
    }
    proof {
        lemma_fundamental_div_mod(n as int, r as int + 1);
        assert((n as int) < (r as int + 1) * (r as int + 1)) by (nonlinear_arith)
            requires
                (n as int) / (r as int + 1) < r as int + 1,
                n as int == (r as int + 1) * ((n as int) / (r as int + 1)) + (n as int) % (
                    r as int + 1),
                (n as int) % (r as int + 1) < r as int + 1,
        ;
        lemma_isqrt_unique(n as int, r as int);
    }
    r
}

/// Whether the assigned entries of row `row` are pairwise distinct.
fn row_unique_check<D: Domain>(g: &Grid<D>, row: usize) -> (b: bool)
    requires
        g.wf(),
        row < g.size,
    ensures
        b == line_unique(g.values()[row as int]),
{
    let ghost s = g.values()[row as int];
    let size = g.size;
    let mut j: usize = 0;
    while j < size
        invariant
            g.wf(),
            row < g.size,
            size == g.size,
            s == g.values()[row as int],
            s.len() == g.size,
            j <= size,
            forall|a: int, b2: int|
                0 <= a < b2 < j && s[a] is Some && s[b2] is Some ==> s[a] != s[b2],
        decreases size - j,
    {
        let vj = g.domains[row][j].value();
        proof {
            assert(vj == s[j as int]);
        }
        match vj {
            Some(x) => {
                let mut i: usize = 0;
                while i < j
                    invariant
                        g.wf(),
                        row < g.size,
                        size == g.size,
                        s == g.values()[row as int],
                        s.len() == g.size,
                        i <= j,
                        j < size,
                        s[j as int] == Some(x),
                        forall|a: int| 0 <= a < i ==> s[a] != Some(x),
                    decreases j - i,
                {
                    let vi = g.domains[row][i].value();
                    proof {
                        assert(vi == s[i as int]);
                    }
                    match vi {
                        Some(y) => {
                            if x == y {
                                proof {
                                    assert(s[i as int] == Some(y));
                                    assert(!line_unique(s));
                                }
                                return false;
                            }
                        }
                        None => {}
                    }
                    i = i + 1;
                }
            }
            None => {}
        }
        j = j + 1;
    }
    true
}

/// Whether the assigned entries of column `col` are pairwise distinct.
fn col_unique_check<D: Domain>(g: &Grid<D>, col: usize) -> (b: bool)
    requires
        g.wf(),
        col < g.size,
    ensures
        b == line_unique(column_of(g.values(), col as int)),
{
    let ghost s = column_of(g.values(), col as int);
    let size = g.size;
    let mut j: usize = 0;
    while j < size
        invariant
            g.wf(),
            col < g.size,
            size == g.size,
            s == column_of(g.values(), col as int),
            s.len() == g.size,
            j <= size,
            forall|a: int, b2: int|
                0 <= a < b2 < j && s[a] is Some && s[b2] is Some ==> s[a] != s[b2],
        decreases size - j,
    {
        let vj = g.domains[j][col].value();
        proof {
            assert(vj == s[j as int]);
        }
        match vj {
            Some(x) => {
                let mut i: usize = 0;
                while i < j
                    invariant
                        g.wf(),
                        col < g.size,
                        size == g.size,
                        s == column_of(g.values(), col as int),
                        s.len() == g.size,
                        i <= j,
                        j < size,
                        s[j as int] == Some(x),
                        forall|a: int| 0 <= a < i ==> s[a] != Some(x),
                    decreases j - i,
                {
                    let vi = g.domains[i][col].value();
                    proof {
                        assert(vi == s[i as int]);
                    }
                    match vi {
                        Some(y) => {
                            if x == y {
                                proof {
                                    assert(s[i as int] == Some(y));
                                    assert(!line_unique(s));
                                }
                                return false;
                            }
                        }
                        None => {}
                    }
                    i = i + 1;
                }
            }
            None => {}
        }
        j = j + 1;
    }
    true
}

/// The value of entry `t` of block `(bi, bj)`.
fn block_cell_value<D: Domain>(g: &Grid<D>, n: usize, bi: usize, bj: usize, t: usize) -> (v:
    Option<i8>)
    requires
        g.wf(),
        (n as int) * (n as int) <= g.size,
        bi < n,
        bj < n,
        t < n * n,
    ensures
        v == block_of(g.values(), n as int, bi as int, bj as int)[t as int],
{
    proof {
        assert(n > 0) by (nonlinear_arith)
            requires (t as int) < (n as int) * (n as int), t as int >= 0,
        ;
        lemma_flat_inverse(n as int, t as int);
        assert((bi as int) * (n as int) + (t as int) / (n as int) < (n as int) * (n as int))
            by (nonlinear_arith)
            requires
                0 <= (bi as int) < (n as int),
                0 <= (t as int) / (n as int) < (n as int),
        ;
        assert((bj as int) * (n as int) + (t as int) % (n as int) < (n as int) * (n as int))
            by (nonlinear_arith)
            requires
                0 <= (bj as int) < (n as int),
                0 <= (t as int) % (n as int) < (n as int),
        ;
    }
    let r = bi * n + t / n;
    let c = bj * n + t % n;
    g.domains[r][c].value()
}

/// Whether the assigned entries of block `(bi, bj)` are pairwise distinct.
fn block_unique_check<D: Domain>(g: &Grid<D>, n: usize, bi: usize, bj: usize) -> (b: bool)
    requires
        g.wf(),
        (n as int) * (n as int) <= g.size,
        bi < n,
        bj < n,
    ensures
        b == line_unique(block_of(g.values(), n as int, bi as int, bj as int)),
{
    let ghost s = block_of(g.values(), n as int, bi as int, bj as int);
    proof {
        assert((n as int) * (n as int) >= 0) by (nonlinear_arith);
    }
    let nn = n * n;
    let mut j: usize = 0;
    while j < nn
        invariant
            g.wf(),
            (n as int) * (n as int) <= g.size,
            bi < n,
            bj < n,
            nn == n * n,
            s == block_of(g.values(), n as int, bi as int, bj as int),
            s.len() == nn,
            j <= nn,
            forall|a: int, b2: int|
                0 <= a < b2 < j && s[a] is Some && s[b2] is Some ==> s[a] != s[b2],
        decreases nn - j,
    {
        let vj = block_cell_value(g, n, bi, bj, j);
        match vj {
            Some(x) => {
                let mut i: usize = 0;
                while i < j
                    invariant
                        g.wf(),
                        (n as int) * (n as int) <= g.size,
                        bi < n,
                        bj < n,
                        nn == n * n,
                        s == block_of(g.values(), n as int, bi as int, bj as int),
                        s.len() == nn,
                        i <= j,
                        j < nn,
                        s[j as int] == Some(x),
                        forall|a: int| 0 <= a < i ==> s[a] != Some(x),
                    decreases j - i,
                {
                    let vi = block_cell_value(g, n, bi, bj, i);
                    match vi {
                        Some(y) => {
                            if x == y {
                                proof {
                                    assert(s[i as int] == Some(y));
                                    assert(!line_unique(s));
                                }
                                return false;
                            }
                        }
                        None => {}
                    }
                    i = i + 1;
                }
            }
            None => {}
        }
        j = j + 1;
    }
    true
}

/// Whether the given line of cell values is in equilibrium; `read_col`
/// selects whether `line` names a column (else a row).
fn line_balance_check<D: Domain>(g: &Grid<D>, line: usize, read_col: bool) -> (b: bool)
    requires
        g.wf(),
        line < g.size,
    ensures
        !read_col ==> b == line_in_equilibrium(g.values()[line as int]),
        read_col ==> b == line_in_equilibrium(column_of(g.values(), line as int)),
{
    let ghost s = if read_col {
        column_of(g.values(), line as int)
    } else {
        g.values()[line as int]
    };
    let size = g.size;
    let mut c0: usize = 0;
    let mut c1: usize = 0;
    let mut cu: usize = 0;
    let mut k: usize = 0;
    while k < size
        invariant
            g.wf(),
            line < g.size,
            size == g.size,
            s == (if read_col {
                column_of(g.values(), line as int)
            } else {
                g.values()[line as int]
            }),
            s.len() == g.size,
            k <= size,
            c0 == count_matching(s.take(k as int), Some(0i8)),
            c1 == count_matching(s.take(k as int), Some(1i8)),
            cu == count_matching(s.take(k as int), None::<i8>),
        decreases size - k,
    {
        proof {
            lemma_count_matching_le_len(s.take(k as int), Some(0i8));
            lemma_count_matching_le_len(s.take(k as int), Some(1i8));
            lemma_count_matching_le_len(s.take(k as int), None::<i8>);
            lemma_count_take_step(s, Some(0i8), k as int);
            lemma_count_take_step(s, Some(1i8), k as int);
            lemma_count_take_step(s, None::<i8>, k as int);
        }
        let v = if read_col {
            g.domains[k][line].value()
        } else {
            g.domains[line][k].value()
        };
        proof {
            assert(v == s[k as int]);
        }
        match v {
            None => {
                cu = cu + 1;
            }
            Some(x) => {
                if x == 0 {
                    c0 = c0 + 1;
                } else if x == 1 {
                    c1 = c1 + 1;
                }
            }
        }
        k = k + 1;
    }
    proof {
        assert(s.take(size as int) =~= s);
    }
    let diff = if c0 >= c1 {
        c0 - c1
    } else {
        c1 - c0
    };
    if diff <= cu {
        true
    } else {
        diff - cu <= size % 2
    }
}

/// Demands pairwise-distinct assigned values in every row.
#[derive(Copy, Clone, Debug)]
pub struct RowUnique {}

impl RowUnique {
    pub fn new() -> (r: Self)
        ensures
            r == (RowUnique {}),
    {
        RowUnique {}
    }
}

impl<D: Domain> Constraint<Grid<D>> for RowUnique {
    open spec fn spec_satisfied(&self, values: Seq<Seq<Option<i8>>>) -> bool {
        rows_unique(values)
    }

    fn is_satisfied(&self, problem: &Grid<D>) -> (r: bool) {
        let mut row: usize = 0;
        while row < problem.size
            invariant
                problem.wf(),
                row <= problem.size,
                forall|t: int| 0 <= t < row ==> line_unique(#[trigger] problem.values()[t]),
            decreases problem.size - row,
        {
            if !row_unique_check(problem, row) {
                return false;
            }
            row = row + 1;
        }
        true
    }
}

/// Demands pairwise-distinct assigned values in every column.
#[derive(Copy, Clone, Debug)]
pub struct ColUnique {}

impl ColUnique {
    pub fn new() -> (r: Self)
        ensures
            r == (ColUnique {}),
    {
        ColUnique {}
    }
}

impl<D: Domain> Constraint<Grid<D>> for ColUnique {
    open spec fn spec_satisfied(&self, values: Seq<Seq<Option<i8>>>) -> bool {
        cols_unique(values)
    }

    fn is_satisfied(&self, problem: &Grid<D>) -> (r: bool) {
        let mut col: usize = 0;
        while col < problem.size
            invariant
                problem.wf(),
                col <= problem.size,
                forall|t: int|
                    0 <= t < col ==> line_unique(#[trigger] column_of(problem.values(), t)),
            decreases problem.size - col,
        {
            if !col_unique_check(problem, col) {
                return false;
            }
            col = col + 1;
        }
        true
    }
}

/// Demands pairwise-distinct assigned values in every `sqrt(size)`-sized
/// square block, as in Sudoku.
#[derive(Copy, Clone, Debug)]
pub struct SudokuSquare {}

impl SudokuSquare {
    pub fn new() -> (r: Self)
        ensures
            r == (SudokuSquare {}),
    {
        SudokuSquare {}
    }
}

impl<D: Domain> Constraint<Grid<D>> for SudokuSquare {
    open spec fn spec_satisfied(&self, values: Seq<Seq<Option<i8>>>) -> bool {
        blocks_unique(values)
    }

    fn is_satisfied(&self, problem: &Grid<D>) -> (r: bool) {
        let n = int_sqrt(problem.size);
        proof {
            assert(problem.values().len() == problem.size);
        }
        let mut bi: usize = 0;
        while bi < n
            invariant
                problem.wf(),
                n as int == spec_isqrt(problem.values().len() as int),
                (n as int) * (n as int) <= problem.size,
                bi <= n,
                forall|i: int, j: int|
                    0 <= i < bi && 0 <= j < n
                        ==> line_unique(
                            #[trigger] block_of(problem.values(), n as int, i, j)),
            decreases n - bi,
        {
            let mut bj: usize = 0;
            while bj < n
                invariant
                    problem.wf(),
                    n as int == spec_isqrt(problem.values().len() as int),
                    (n as int) * (n as int) <= problem.size,
                    bi < n,
                    bj <= n,
                    forall|i: int, j: int|
                        0 <= i < bi && 0 <= j < n
                            ==> line_unique(
                                #[trigger] block_of(problem.values(), n as int, i, j)),
                    forall|j: int|
                        0 <= j < bj
                            ==> line_unique(
                                #[trigger] block_of(problem.values(), n as int, bi as int, j)),
                decreases n - bj,
            {
                if !block_unique_check(problem, n, bi, bj) {
                    return false;
                }
                bj = bj + 1;
            }
            bi = bi + 1;
        }
        true
    }
}

/// Demands that every row of a binary puzzle stays balanceable between its
/// `0`s and `1`s.
#[derive(Copy, Clone, Debug)]
pub struct RowBinaryEquilibrium {}

impl RowBinaryEquilibrium {
    pub fn new() -> (r: Self)
        ensures
            r == (RowBinaryEquilibrium {}),
    {
        RowBinaryEquilibrium {}
    }
}

impl<D: Domain> Constraint<Grid<D>> for RowBinaryEquilibrium {
    open spec fn spec_satisfied(&self, values: Seq<Seq<Option<i8>>>) -> bool {
        rows_balanced(values)
    }

    fn is_satisfied(&self, problem: &Grid<D>) -> (r: bool) {
        let mut row: usize = 0;
        while row < problem.size
            invariant
                problem.wf(),
                row <= problem.size,
                forall|t: int|
                    0 <= t < row ==> line_in_equilibrium(#[trigger] problem.values()[t]),
            decreases problem.size - row,
        {
            if !line_balance_check(problem, row, false) {
                return false;
            }
            row = row + 1;
        }
        true
    }
}

/// Demands that every column of a binary puzzle stays balanceable between
/// its `0`s and `1`s.
#[derive(Copy, Clone, Debug)]
pub struct ColBinaryEquilibrium {}

impl ColBinaryEquilibrium {
    pub fn new() -> (r: Self)
        ensures
            r == (ColBinaryEquilibrium {}),
    {
        ColBinaryEquilibrium {}
    }
}

impl<D: Domain> Constraint<Grid<D>> for ColBinaryEquilibrium {
    open spec fn spec_satisfied(&self, values: Seq<Seq<Option<i8>>>) -> bool {
        cols_balanced(values)
    }

    fn is_satisfied(&self, problem: &Grid<D>) -> (r: bool) {
        let mut col: usize = 0;
        while col < problem.size
            invariant
                problem.wf(),
                col <= problem.size,
                forall|t: int|
                    0 <= t < col
                        ==> line_in_equilibrium(#[trigger] column_of(problem.values(), t)),
            decreases problem.size - col,
        {
            if !line_balance_check(problem, col, true) {
                return false;
            }
            col = col + 1;
        }
        true
    }
}

/// The closed sum of the grid constraints, so that one solver can hold a
/// heterogeneous ordered list of them.
#[derive(Copy, Clone, Debug)]
pub enum GridConstraint {
    RowUnique(RowUnique),
    ColUnique(ColUnique),
    SudokuSquare(SudokuSquare),
    RowBinaryEquilibrium(RowBinaryEquilibrium),
    ColBinaryEquilibrium(ColBinaryEquilibrium),
}

impl<D: Domain> Constraint<Grid<D>> for GridConstraint {
    open spec fn spec_satisfied(&self, values: Seq<Seq<Option<i8>>>) -> bool {
        match *self {
            GridConstraint::RowUnique(c) => <RowUnique as Constraint<Grid<D>>>::spec_satisfied(
                &c, values),
            GridConstraint::ColUnique(c) => <ColUnique as Constraint<Grid<D>>>::spec_satisfied(
                &c, values),
            GridConstraint::SudokuSquare(c) => <SudokuSquare as Constraint<
                Grid<D>,
            >>::spec_satisfied(&c, values),
            GridConstraint::RowBinaryEquilibrium(c) => <RowBinaryEquilibrium as Constraint<
                Grid<D>,
            >>::spec_satisfied(&c, values),
            GridConstraint::ColBinaryEquilibrium(c) => <ColBinaryEquilibrium as Constraint<
                Grid<D>,
            >>::spec_satisfied(&c, values),
        }
    }

    fn is_satisfied(&self, problem: &Grid<D>) -> (r: bool) {
        match *self {
            GridConstraint::RowUnique(c) => c.is_satisfied(problem),
            GridConstraint::ColUnique(c) => c.is_satisfied(problem),
            GridConstraint::SudokuSquare(c) => c.is_satisfied(problem),
            GridConstraint::RowBinaryEquilibrium(c) => c.is_satisfied(problem),
            GridConstraint::ColBinaryEquilibrium(c) => c.is_satisfied(problem),
        }
    }
}

/// On a fully-assigned line of even length the equilibrium rule is exact:
/// it holds if and only if the line's `0`s and `1`s are equally many.
pub proof fn lemma_full_line_equilibrium(s: Seq<Option<i8>>)
    requires
        count_matching(s, None::<i8>) == 0,
        s.len() % 2 == 0,
    ensures
        line_in_equilibrium(s) <==> count_matching(s, Some(0i8)) == count_matching(
            s, Some(1i8)),
{
}

/// Unsatisfiability of duplicate clues: no complete well-formed grid that
/// preserves the clues of an original grid holding two equal given values
/// in one row can satisfy row uniqueness.  Together with the solver's
/// contract this means such a puzzle can only be reported unsolvable,
/// never "solved".
pub proof fn lemma_duplicate_clue_unsolvable<D: Domain>(
    original: Grid<D>,
    solved: Grid<D>,
    row: int,
    c1: int,
    c2: int,
)
    requires
        original.wf(),
        solved.wf(),
        solved.complete(),
        solved.clues() == original.clues(),
        0 <= row < original.size,
        0 <= c1 < original.size,
        0 <= c2 < original.size,
        c1 != c2,
        original.cell(row, c1).spec_is_fixed(),
        original.cell(row, c2).spec_is_fixed(),
        original.cell(row, c1).spec_min() == original.cell(row, c2).spec_min(),
    ensures
        !rows_unique(solved.values()),
{
    let v = original.cell(row, c1).spec_min();
    crate::problem::grid::lemma_clue_preserved(original, solved, row, c1);
    crate::problem::grid::lemma_clue_preserved(original, solved, row, c2);
    let s = solved.values()[row];
    assert(s[c1] == Some(v));
    assert(s[c2] == Some(v));
    let lo = if c1 < c2 { c1 } else { c2 };
    let hi = if c1 < c2 { c2 } else { c1 };
    assert(s[lo] is Some && s[hi] is Some && s[lo] == s[hi] && lo < hi);
    assert(!line_unique(s));
}

} // verus!
