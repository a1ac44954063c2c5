use csp_solver::constraints::Constraint;
use csp_solver::domains::ConstructionError;
use csp_solver::problem::SolveError;
use csp_solver::problem::sudoku::Sudoku;
use csp_solver::problem::sudoku::SudokuColConstraint;
use csp_solver::problem::sudoku::SudokuConstraint;
use csp_solver::problem::sudoku::SudokuRowConstraint;
use csp_solver::problem::sudoku::SudokuSquareConstraint;
use csp_solver::solver::CSPSolver;

fn all_sudoku_constraints() -> Vec<SudokuConstraint> {
    vec![
        SudokuConstraint::Row(SudokuRowConstraint::new()),
        SudokuConstraint::Col(SudokuColConstraint::new()),
        SudokuConstraint::Square(SudokuSquareConstraint::new()),
    ]
}

fn thirty_clue_sudoku() -> Vec<Vec<i8>> {
    vec![
        vec![0, 1, 0, 0, 9, 5, 0, 0, 8],
        vec![9, 0, 0, 0, 0, 0, 0, 0, 4],
        vec![3, 0, 7, 0, 1, 0, 9, 0, 0],
        vec![0, 0, 0, 8, 0, 3, 2, 0, 0],
        vec![0, 2, 0, 5, 6, 0, 0, 0, 0],
        vec![0, 0, 3, 0, 7, 2, 0, 5, 0],
        vec![2, 0, 0, 0, 5, 6, 8, 0, 0],
        vec![0, 7, 0, 0, 0, 4, 0, 1, 6],
        vec![8, 0, 0, 0, 0, 0, 0, 0, 2],
    ]
}

fn row_of_zeros() -> Vec<i8> {
    vec![0; 9]
}

fn mostly_empty(rows: Vec<(usize, Vec<i8>)>) -> Vec<Vec<i8>> {
    let mut grid: Vec<Vec<i8>> = (0..9).map(|_| row_of_zeros()).collect();
    for (i, row) in rows {
        grid[i] = row;
    }
    grid
}

#[test]
fn sudoku_from_values_validates_input() {
    assert!(Sudoku::from_values(thirty_clue_sudoku()).is_ok());
    let not_square: Vec<Vec<i8>> = vec![vec![0; 9]; 8];
    assert!(matches!(
        Sudoku::from_values(not_square),
        Err(ConstructionError::NotSquare)
    ));
    let short_row = mostly_empty(vec![(3, vec![0; 8])]);
    assert!(matches!(
        Sudoku::from_values(short_row),
        Err(ConstructionError::NotSquare)
    ));
    let bad_value = mostly_empty(vec![(0, vec![0, 0, 10, 0, 0, 0, 0, 0, 0])]);
    assert!(matches!(
        Sudoku::from_values(bad_value),
        Err(ConstructionError::ValueOutOfRange)
    ));
}

#[test]
fn sudoku_row_constraint_spots_duplicates() {
    let ok = Sudoku::from_values(mostly_empty(vec![(
        2,
        vec![5, 0, 3, 0, 0, 0, 0, 0, 0],
    )]))
    .unwrap();
    assert!(SudokuRowConstraint::new().are_rows_correct(&ok));
    let dup = Sudoku::from_values(mostly_empty(vec![(
        2,
        vec![5, 0, 5, 0, 0, 0, 0, 0, 0],
    )]))
    .unwrap();
    assert!(!SudokuRowConstraint::new().are_rows_correct(&dup));
    assert!(SudokuColConstraint::new().are_cols_correct(&dup));
}

#[test]
fn sudoku_col_constraint_spots_duplicates() {
    let dup = Sudoku::from_values(mostly_empty(vec![
        (1, vec![0, 0, 7, 0, 0, 0, 0, 0, 0]),
        (6, vec![0, 0, 7, 0, 0, 0, 0, 0, 0]),
    ]))
    .unwrap();
    assert!(!SudokuColConstraint::new().are_cols_correct(&dup));
    assert!(SudokuRowConstraint::new().are_rows_correct(&dup));
}

#[test]
fn sudoku_square_constraint_spots_duplicates() {
    let dup = Sudoku::from_values(mostly_empty(vec![
        (3, vec![0, 0, 0, 4, 0, 0, 0, 0, 0]),
        (5, vec![0, 0, 0, 0, 4, 0, 0, 0, 0]),
    ]))
    .unwrap();
    assert!(!SudokuSquareConstraint::new().are_squares_correct(&dup));
    assert!(SudokuRowConstraint::new().are_rows_correct(&dup));
    assert!(SudokuColConstraint::new().are_cols_correct(&dup));
}

#[test]
fn sudoku_solves_to_unique_solution() {
    let sudoku = Sudoku::from_values(thirty_clue_sudoku()).unwrap();
    let mut solver = CSPSolver::new(sudoku, all_sudoku_constraints());
    assert!(solver.solve().is_ok());
    let expected: Vec<Vec<i8>> = vec![
        vec![4, 1, 2, 3, 9, 5, 6, 7, 8],
        vec![9, 5, 8, 6, 2, 7, 1, 3, 4],
        vec![3, 6, 7, 4, 1, 8, 9, 2, 5],
        vec![7, 9, 5, 8, 4, 3, 2, 6, 1],
        vec![1, 2, 4, 5, 6, 9, 7, 8, 3],
        vec![6, 8, 3, 1, 7, 2, 4, 5, 9],
        vec![2, 3, 1, 9, 5, 6, 8, 4, 7],
        vec![5, 7, 9, 2, 8, 4, 3, 1, 6],
        vec![8, 4, 6, 7, 3, 1, 5, 9, 2],
    ];
    assert_eq!(solver.problem.values, expected);
    let raw = thirty_clue_sudoku();
    for r in 0..9 {
        for c in 0..9 {
            if raw[r][c] != 0 {
                assert_eq!(solver.problem.values[r][c], raw[r][c]);
            }
        }
    }
}

#[test]
fn sudoku_duplicate_clues_unsatisfiable() {
    let dup = Sudoku::from_values(mostly_empty(vec![(
        0,
        vec![5, 5, 0, 0, 0, 0, 0, 0, 0],
    )]))
    .unwrap();
    let mut solver = CSPSolver::new(dup, vec![SudokuConstraint::Row(SudokuRowConstraint::new())]);
    assert_eq!(solver.solve(), Err(SolveError::Unsatisfiable));
}

fn digit_lines(grid: &Vec<Vec<i8>>, sep: &str) -> String {
    grid.iter()
        .map(|row| {
            row.iter()
                .map(|v| v.to_string())
                .collect::<Vec<String>>()
                .join(sep)
        })
        .collect::<Vec<String>>()
        .join("\n")
}

#[test]
fn sudoku_from_text_parses_digit_lines() {
    let raw = thirty_clue_sudoku();
    let plain = Sudoku::from_text(&digit_lines(&raw, "")).unwrap();
    assert_eq!(plain.values, raw);
    // non-digit characters between the digits are skipped
    let dotted = Sudoku::from_text(&digit_lines(&raw, ".")).unwrap();
    assert_eq!(dotted.values, raw);
}

#[test]
fn sudoku_from_text_rejects_bad_shapes() {
    assert!(matches!(
        Sudoku::from_text(""),
        Err(ConstructionError::NotSquare)
    ));
    assert!(matches!(
        Sudoku::from_text("123456789"),
        Err(ConstructionError::NotSquare)
    ));
    let short_row = "123456789\n12345678\n123456789\n123456789\n123456789\n\
                     123456789\n123456789\n123456789\n123456789";
    assert!(matches!(
        Sudoku::from_text(short_row),
        Err(ConstructionError::NotSquare)
    ));
}

#[test]
fn sudoku_str_repr_shows_givens_and_blanks() {
    let s = Sudoku::from_values(mostly_empty(vec![(
        0,
        vec![5, 0, 3, 0, 0, 0, 0, 0, 1],
    )]))
    .unwrap();
    let text = s.str_repr();
    let mut expected = String::new();
    expected.push_str(" 5  _  3  _  _  _  _  _  1 \n");
    for _ in 0..8 {
        expected.push_str(" _  _  _  _  _  _  _  _  _ \n");
    }
    assert_eq!(text, expected);
}
