//! Rendering helpers: ANSI colour escapes and textual views of a grid.
//!
//! Purely cosmetic output for a terminal.  Every function's result is
//! pinned down exactly by a constructive specification over character
//! sequences, so the renderings are as verified as the solver itself.

use vstd::prelude::*;
use vstd::string::StringExecFns;

use crate::constraints::grid::int_sqrt;
use crate::constraints::grid::spec_isqrt;
use crate::domains::Domain;
use crate::problem::grid::Grid;

verus! {

/// Ends a colourized span.
pub const END: &'static str = "\x1b[0m";

/// Black foreground.
pub const FG_BLACK: &'static str = "\x1b[30m";

/// Red foreground, used for given/clue cells.
pub const FG_RED: &'static str = "\x1b[31m";

/// White foreground.
pub const FG_WHITE: &'static str = "\x1b[37m";

/// Black background, for the dark checkerboard blocks.
pub const BG_BLACK: &'static str = "\x1b[40m";

/// White background, for the light checkerboard blocks.
pub const BG_WHITE: &'static str = "\x1b[47m";

/// A 24-bit colour.
#[derive(Copy, Clone, Debug)]
pub struct RGBColor {
    pub r: usize,
    pub g: usize,
    pub b: usize,
}

impl RGBColor {
    pub fn new(r: usize, g: usize, b: usize) -> (c: Self)
        ensures
            c == (RGBColor { r, g, b }),
    {
        RGBColor { r, g, b }
    }
}

/// The character of one decimal digit.
pub open spec fn digit_char(d: nat) -> char {
    if d == 0 {
        '0'
    } else if d == 1 {
        '1'
    } else if d == 2 {
        '2'
    } else if d == 3 {
        '3'
    } else if d == 4 {
        '4'
    } else if d == 5 {
        '5'
    } else if d == 6 {
        '6'
    } else if d == 7 {
        '7'
    } else if d == 8 {
        '8'
    } else {
        '9'
    }
}

/// The decimal digit string of `n`, most significant digit first.
pub open spec fn dec_digits(n: nat) -> Seq<char>
    decreases n,
{
    if n < 10 {
        seq![digit_char(n)]
    } else {
        dec_digits(n / 10).push(digit_char(n % 10))
    }
}

/// The decimal text of a cell value, with a leading minus sign when it is
/// negative.
pub open spec fn int_text(v: i8) -> Seq<char> {
    if v < 0 {
        seq!['-'] + dec_digits((0 - v) as nat)
    } else {
        dec_digits(v as nat)
    }
}

/// Render `n` in decimal.
pub fn fmt_usize(n: usize) -> (s: String)
    ensures
        s@ == dec_digits(n as nat),
    decreases n,
{
    let d = n % 10;
    let digit: &'static str = if d == 0 {
        "0"
    } else if d == 1 {
        "1"
    } else if d == 2 {
        "2"
    } else if d == 3 {
        "3"
    } else if d == 4 {
        "4"
    } else if d == 5 {
        "5"
    } else if d == 6 {
        "6"
    } else if d == 7 {
        "7"
    } else if d == 8 {
        "8"
    } else {
        "9"
    };
    proof {
        reveal_strlit("0");
        reveal_strlit("1");
        reveal_strlit("2");
        reveal_strlit("3");
        reveal_strlit("4");
        reveal_strlit("5");
        reveal_strlit("6");
        reveal_strlit("7");
        reveal_strlit("8");
        reveal_strlit("9");
        assert(digit@ =~= seq![digit_char((n % 10) as nat)]);
    }
    if n < 10 {
        String::from_str(digit)
    } else {
        let mut s = fmt_usize(n / 10);
        s.append(digit);
        proof {
            assert(s@ =~= dec_digits((n / 10) as nat).push(digit_char((n % 10) as nat)));
        }
        s
    }
}

/// Render a cell value in decimal, minus sign included.
pub fn fmt_i8(v: i8) -> (s: String)
    ensures
        s@ == int_text(v),
{
    if v < 0 {
        let mag = (0 - (v as i64)) as usize;
        let mut s = String::from_str("-");
        proof {
            reveal_strlit("-");
            assert(s@ =~= seq!['-']);
        }
        let digits = fmt_usize(mag);
        s.append(digits.as_str());
        proof {
            assert(s@ =~= int_text(v));
        }
        s
    } else {
        fmt_usize(v as usize)
    }
}

/// `text` wrapped in the given foreground and background escapes,
/// terminated by [`END`] when `has_end` is set.
pub fn colored_text(text: &str, fg: &str, bg: &str, has_end: bool) -> (s: String)
    ensures
        s@ == fg@ + bg@ + text@ + (if has_end {
            END@
        } else {
            Seq::<char>::empty()
        }),
{
    let mut s = String::from_str(fg);
    s.append(bg);
    s.append(text);
    if has_end {
        s.append(END);
        proof {
            assert(s@ =~= fg@ + bg@ + text@ + END@);
        }
    } else {
        proof {
            assert(s@ =~= fg@ + bg@ + text@ + Seq::<char>::empty());
        }
    }
    s
}

/// The 24-bit foreground escape for `(r, g, b)`.
pub fn color(r: usize, g: usize, b: usize) -> (s: String)
    ensures
        s@ == ("\x1b[38;2;")@ + dec_digits(r as nat) + (";")@ + dec_digits(g as nat) + (";")@
            + dec_digits(b as nat) + ("m")@,
{
    let mut s = String::from_str("\x1b[38;2;");
    s.append(fmt_usize(r).as_str());
    s.append(";");
    s.append(fmt_usize(g).as_str());
    s.append(";");
    s.append(fmt_usize(b).as_str());
    s.append("m");
    s
}

/// The 24-bit background escape for `(r, g, b)`.
pub fn bg_color(r: usize, g: usize, b: usize) -> (s: String)
    ensures
        s@ == ("\x1b[48;2;")@ + dec_digits(r as nat) + (";")@ + dec_digits(g as nat) + (";")@
            + dec_digits(b as nat) + ("m")@,
{
    let mut s = String::from_str("\x1b[48;2;");
    s.append(fmt_usize(r).as_str());
    s.append(";");
    s.append(fmt_usize(g).as_str());
    s.append(";");
    s.append(fmt_usize(b).as_str());
    s.append("m");
    s
}

/// The plain text of one cell: its value between spaces, or an underscore
/// while unassigned.
pub open spec fn grid_cell_text(v: Option<i8>) -> Seq<char> {
    match v {
        None => (" _ ")@,
        Some(x) => (" ")@ + int_text(x) + (" ")@,
    }
}

/// Render one cell as plain text.
pub fn grid_cell_string(v: Option<i8>) -> (s: String)
    ensures
        s@ == grid_cell_text(v),
{
    match v {
        None => String::from_str(" _ "),
        Some(x) => {
            let mut s = String::from_str(" ");
            s.append(fmt_i8(x).as_str());
            s.append(" ");
            proof {
                assert(s@ =~= grid_cell_text(v));
            }
            s
        }
    }
}

/// The plain text of row `r` from column `c` on, ending in a newline.
pub open spec fn plain_row_suffix<D: Domain>(g: &Grid<D>, r: int, c: int) -> Seq<char>
    decreases g.size - c,
{
    if c < 0 || c >= g.size {
        seq!['\n']
    } else {
        grid_cell_text(g.val(r, c)) + plain_row_suffix(g, r, c + 1)
    }
}

/// The plain text of the rows from `r` on.
pub open spec fn plain_rows_suffix<D: Domain>(g: &Grid<D>, r: int) -> Seq<char>
    decreases g.size - r,
{
    if r < 0 || r >= g.size {
        Seq::empty()
    } else {
        plain_row_suffix(g, r, 0) + plain_rows_suffix(g, r + 1)
    }
}

/// The plain text of the whole grid: each row's cells, one line per row.
pub open spec fn grid_text<D: Domain>(g: &Grid<D>) -> Seq<char> {
    plain_rows_suffix(g, 0)
}

/// The colourized text of one cell of a Sudoku rendering: three columns of
/// value (or blanks), a red foreground for a given cell, and a
/// checkerboard background.
pub open spec fn sudoku_cell_text(v: Option<i8>, fixed: bool, is_white: bool) -> Seq<char> {
    let text = match v {
        None => ("   ")@,
        Some(x) => (" ")@ + int_text(x) + (" ")@,
    };
    let fg = if fixed {
        FG_RED@
    } else if is_white {
        FG_BLACK@
    } else {
        FG_WHITE@
    };
    let bg = if is_white {
        BG_WHITE@
    } else {
        BG_BLACK@
    };
    fg + bg + text + END@
}

/// The colourized text of row `r` from column `c` on; the background
/// parity flips after every `n` columns.
pub open spec fn sudoku_row_suffix<D: Domain>(
    g: &Grid<D>,
    n: int,
    r: int,
    c: int,
    is_white: bool,
) -> Seq<char>
    decreases g.size - c,
{
    if c < 0 || c >= g.size {
        seq!['\n']
    } else {
        let piece = sudoku_cell_text(g.val(r, c), g.cell(r, c).spec_is_fixed(), is_white);
        let next_white = if n > 0 && (c + 1) % n == 0 {
            !is_white
        } else {
            is_white
        };
        piece + sudoku_row_suffix(g, n, r, c + 1, next_white)
    }
}

/// The colourized text of the rows from `r` on; the starting parity flips
/// after every `n` rows.
pub open spec fn sudoku_rows_suffix<D: Domain>(
    g: &Grid<D>,
    n: int,
    r: int,
    start_white: bool,
) -> Seq<char>
    decreases g.size - r,
{
    if r < 0 || r >= g.size {
        Seq::empty()
    } else {
        let next_start = if n > 0 && (r + 1) % n == 0 {
            !start_white
        } else {
            start_white
        };
        sudoku_row_suffix(g, n, r, 0, start_white) + sudoku_rows_suffix(g, n, r + 1, next_start)
    }
}

/// The colourized text of the whole grid, checkerboarded by its
/// `sqrt(size)`-sized blocks.
pub open spec fn sudoku_text<D: Domain>(g: &Grid<D>) -> Seq<char> {
    sudoku_rows_suffix(g, spec_isqrt(g.size as int), 0, true)
}

/// Render a Sudoku-style grid for a terminal: given cells in red, blocks
/// alternating white and black backgrounds.
pub fn sudoku_repr<D: Domain>(sudoku: &Grid<D>) -> (s: String)
    requires
        sudoku.cells_ok(),
    ensures
        s@ == sudoku_text(sudoku),
{
    let n = int_sqrt(sudoku.size);
    let size = sudoku.size;
    let mut s = String::new();
    proof {
        assert(s@ + sudoku_rows_suffix(sudoku, n as int, 0, true) =~= sudoku_text(sudoku));
    }
    let mut bool_start = true;
    let mut r: usize = 0;
    while r < size
        invariant
            sudoku.cells_ok(),
            size == sudoku.size,
            n as int == spec_isqrt(sudoku.size as int),
            r <= size,
            s@ + sudoku_rows_suffix(sudoku, n as int, r as int, bool_start) == sudoku_text(
                sudoku),
        decreases size - r,
    {
        proof {
            if size >= 1 {
                crate::constraints::grid::lemma_spec_isqrt(size as int);
                assert(n >= 1) by (nonlinear_arith)
                    requires
                        n as int == spec_isqrt(size as int),
                        size as int >= 1,
                        (size as int) < (spec_isqrt(size as int) + 1) * (spec_isqrt(
                            size as int) + 1),
                        spec_isqrt(size as int) >= 0,
                ;
            }
        }
        let ghost next_start = if n as int > 0 && ((r + 1) as int) % (n as int) == 0 {
            !bool_start
        } else {
            bool_start
        };
        let mut is_white = bool_start;
        proof {
            assert(s@ + sudoku_row_suffix(sudoku, n as int, r as int, 0, bool_start)
                + sudoku_rows_suffix(sudoku, n as int, r as int + 1, next_start)
                =~= s@ + sudoku_rows_suffix(sudoku, n as int, r as int, bool_start));
        }
        let mut c: usize = 0;
        while c < size
            invariant
                sudoku.cells_ok(),
                size == sudoku.size,
                n as int == spec_isqrt(sudoku.size as int),
                n >= 1,
                r < size,
                c <= size,
                next_start == (if n as int > 0 && ((r + 1) as int) % (n as int) == 0 {
                    !bool_start
                } else {
                    bool_start
                }),
                s@ + sudoku_row_suffix(sudoku, n as int, r as int, c as int, is_white)
                    + sudoku_rows_suffix(sudoku, n as int, r as int + 1, next_start)
                    == sudoku_text(sudoku),
            decreases size - c,
        {
            let d = sudoku.domains[r][c];
            let val_s = match d.value() {
                None => String::from_str("   "),
                Some(v) => {
                    let mut t = String::from_str(" ");
                    t.append(fmt_i8(v).as_str());
                    t.append(" ");
                    t
                }
            };
            let piece = if is_white {
                if d.is_fixed() {
                    colored_text(val_s.as_str(), FG_RED, BG_WHITE, true)
                } else {
                    colored_text(val_s.as_str(), FG_BLACK, BG_WHITE, true)
                }
            } else {
                if d.is_fixed() {
                    colored_text(val_s.as_str(), FG_RED, BG_BLACK, true)
                } else {
                    colored_text(val_s.as_str(), FG_WHITE, BG_BLACK, true)
                }
            };
            proof {
                assert(piece@ =~= sudoku_cell_text(
                    sudoku.val(r as int, c as int),
                    sudoku.cell(r as int, c as int).spec_is_fixed(),
                    is_white,
                ));
                assert((s@ + piece@) + sudoku_row_suffix(
                    sudoku, n as int, r as int, c as int + 1,
                    (if (c as int + 1) % (n as int) == 0 { !is_white } else { is_white }),
                ) + sudoku_rows_suffix(sudoku, n as int, r as int + 1, next_start)
                    =~= s@ + sudoku_row_suffix(sudoku, n as int, r as int, c as int, is_white)
                    + sudoku_rows_suffix(sudoku, n as int, r as int + 1, next_start));
            }
            s.append(piece.as_str());
            if (c + 1) % n == 0 {
                is_white = !is_white;
            }
            c = c + 1;
        }
        s.append("\n");
        proof {
            reveal_strlit("\n");
            assert(("\n")@ =~= seq!['\n']);
            assert(sudoku_row_suffix(sudoku, n as int, r as int, size as int, is_white)
                =~= seq!['\n']);
            assert(s@ + sudoku_rows_suffix(sudoku, n as int, r as int + 1, next_start)
                =~= sudoku_text(sudoku));
        }
        if (r + 1) % n == 0 {
            bool_start = !bool_start;
        }
        r = r + 1;
    }
    s
}

} // verus!
