use csp_solver::domains::sudoku_domains_from_vec;
use csp_solver::presentation::BG_BLACK;
use csp_solver::presentation::BG_WHITE;
use csp_solver::presentation::END;
use csp_solver::presentation::FG_BLACK;
use csp_solver::presentation::FG_RED;
use csp_solver::presentation::RGBColor;
use csp_solver::presentation::bg_color;
use csp_solver::presentation::color;
use csp_solver::presentation::colored_text;
use csp_solver::presentation::fmt_i8;
use csp_solver::presentation::fmt_usize;
use csp_solver::presentation::sudoku_repr;
use csp_solver::problem::grid::Grid;

fn small_grid(raw: Vec<Vec<i8>>) -> Grid<csp_solver::domains::CellDomain> {
    Grid::from_domains(sudoku_domains_from_vec(&raw).unwrap()).unwrap()
}

#[test]
fn decimal_rendering() {
    assert_eq!(fmt_usize(0), "0");
    assert_eq!(fmt_usize(7), "7");
    assert_eq!(fmt_usize(10), "10");
    assert_eq!(fmt_usize(907), "907");
    assert_eq!(fmt_i8(0), "0");
    assert_eq!(fmt_i8(42), "42");
    assert_eq!(fmt_i8(-5), "-5");
    assert_eq!(fmt_i8(-128), "-128");
}

#[test]
fn color_escape_codes() {
    assert_eq!(bg_color(1, 2, 3), "\x1b[48;2;1;2;3m");
    assert_eq!(bg_color(255, 153, 51), "\x1b[48;2;255;153;51m");
    assert_eq!(color(255, 128, 0), "\x1b[38;2;255;128;0m");
    let c = RGBColor::new(10, 20, 30);
    assert_eq!((c.r, c.g, c.b), (10, 20, 30));
}

#[test]
fn colored_text_wraps_in_escapes() {
    assert_eq!(
        colored_text("hi", FG_RED, BG_WHITE, true),
        "\x1b[31m\x1b[47mhi\x1b[0m"
    );
    assert_eq!(
        colored_text("hi", FG_BLACK, BG_BLACK, false),
        "\x1b[30m\x1b[40mhi"
    );
}

#[test]
fn grid_str_repr_plain_text() {
    let g = small_grid(vec![vec![1, 0], vec![0, 2]]);
    assert_eq!(g.str_repr(), " 1  _ \n _  2 \n");
}

#[test]
fn sudoku_repr_colors_givens_and_blocks() {
    let g = small_grid(vec![vec![1]]);
    let expected = format!("{}{} 1 {}\n", FG_RED, BG_WHITE, END);
    assert_eq!(sudoku_repr(&g), expected);
    // 2-by-2: blocks are single cells, so the parity flips every cell and
    // every row; empty cells print three blanks in the block's colours
    let mixed = small_grid(vec![vec![0, 1], vec![2, 0]]);
    let expected_mixed = format!(
        "{}{}   {}{}{} 1 {}\n{}{} 2 {}{}{}   {}\n",
        FG_BLACK, BG_WHITE, END, FG_RED, BG_BLACK, END, FG_RED, BG_BLACK, END, FG_BLACK,
        BG_WHITE, END,
    );
    assert_eq!(sudoku_repr(&mixed), expected_mixed);
}

#[test]
fn sudoku_repr_alternates_backgrounds() {
    // a 4-by-4 grid has 2-by-2 blocks: the background flips every two
    // cells and the starting parity flips every two rows
    let g = small_grid(vec![
        vec![1, 2, 3, 4],
        vec![3, 4, 1, 2],
        vec![2, 1, 4, 3],
        vec![4, 3, 2, 1],
    ]);
    let text = sudoku_repr(&g);
    let lines: Vec<&str> = text.split('\n').collect();
    assert_eq!(lines.len(), 5);
    assert!(lines[0].starts_with(&format!("{}{} 1 {}", FG_RED, BG_WHITE, END)));
    assert!(lines[0].contains(BG_BLACK));
    assert!(lines[2].starts_with(&format!("{}{} 2 {}", FG_RED, BG_BLACK, END)));
}
