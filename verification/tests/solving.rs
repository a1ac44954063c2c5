use csp_solver::constraints::Constraint;
use csp_solver::constraints::grid::ColBinaryEquilibrium;
use csp_solver::constraints::grid::ColUnique;
use csp_solver::constraints::grid::GridConstraint;
use csp_solver::constraints::grid::RowBinaryEquilibrium;
use csp_solver::constraints::grid::RowUnique;
use csp_solver::constraints::grid::SudokuSquare;
use csp_solver::domains::CellDomain;
use csp_solver::domains::Domain;
use csp_solver::domains::binary_domains_from_vec;
use csp_solver::domains::sudoku_domains_from_vec;
use csp_solver::problem::SolveError;
use csp_solver::problem::grid::Grid;
use csp_solver::solver::CSPSolver;

fn sudoku_grid(raw: &Vec<Vec<i8>>) -> Grid<CellDomain> {
    Grid::from_domains(sudoku_domains_from_vec(raw).unwrap()).unwrap()
}

fn binary_grid(raw: &Vec<Vec<i8>>) -> Grid<CellDomain> {
    Grid::from_domains(binary_domains_from_vec(raw).unwrap()).unwrap()
}

fn grid_values(g: &Grid<CellDomain>) -> Vec<Vec<i8>> {
    g.domains
        .iter()
        .map(|row| row.iter().map(|d| d.value().unwrap()).collect())
        .collect()
}

fn latin_constraints() -> Vec<GridConstraint> {
    vec![
        GridConstraint::RowUnique(RowUnique::new()),
        GridConstraint::ColUnique(ColUnique::new()),
    ]
}

fn sudoku_constraints() -> Vec<GridConstraint> {
    vec![
        GridConstraint::RowUnique(RowUnique::new()),
        GridConstraint::ColUnique(ColUnique::new()),
        GridConstraint::SudokuSquare(SudokuSquare::new()),
    ]
}

fn binary_constraints() -> Vec<GridConstraint> {
    vec![
        GridConstraint::RowBinaryEquilibrium(RowBinaryEquilibrium::new()),
        GridConstraint::ColBinaryEquilibrium(ColBinaryEquilibrium::new()),
    ]
}

fn thirty_clue_sudoku() -> Vec<Vec<i8>> {
    vec![
        vec![0, 1, 0, 0, 9, 5, 0, 0, 8],
        vec![9, 0, 0, 0, 0, 0, 0, 0, 4],
        vec![3, 0, 7, 0, 1, 0, 9, 0, 0],
        vec![0, 0, 0, 8, 0, 3, 2, 0, 0],
        vec![0, 2, 0, 5, 6, 0, 0, 0, 0],
        vec![0, 0, 3, 0, 7, 2, 0, 5, 0],
        vec![2, 0, 0, 0, 5, 6, 8, 0, 0],
        vec![0, 7, 0, 0, 0, 4, 0, 1, 6],
        vec![8, 0, 0, 0, 0, 0, 0, 0, 2],
    ]
}

#[test]
fn latin_square_unique_completion() {
    let raw: Vec<Vec<i8>> = vec![vec![1, 2], vec![0, 0]];
    let mut solver = CSPSolver::new(sudoku_grid(&raw), latin_constraints());
    assert!(solver.solve().is_ok());
    assert_eq!(grid_values(&solver.problem), vec![vec![1, 2], vec![2, 1]]);
}

#[test]
fn determinism_same_solution_twice() {
    let raw: Vec<Vec<i8>> = vec![
        vec![0, 0, 3],
        vec![0, 0, 0],
        vec![0, 1, 0],
    ];
    let mut first = CSPSolver::new(sudoku_grid(&raw), latin_constraints());
    let mut second = CSPSolver::new(sudoku_grid(&raw), latin_constraints());
    assert!(first.solve().is_ok());
    assert!(second.solve().is_ok());
    assert_eq!(grid_values(&first.problem), grid_values(&second.problem));
}

#[test]
fn duplicate_clue_reports_unsatisfiable() {
    let raw: Vec<Vec<i8>> = vec![vec![1, 1], vec![0, 0]];
    let mut solver = CSPSolver::new(
        sudoku_grid(&raw),
        vec![GridConstraint::RowUnique(RowUnique::new())],
    );
    assert_eq!(solver.solve(), Err(SolveError::Unsatisfiable));
}

#[test]
fn clue_preservation_in_sudoku() {
    let raw = thirty_clue_sudoku();
    let mut solver = CSPSolver::new(sudoku_grid(&raw), sudoku_constraints());
    assert!(solver.solve().is_ok());
    let solution = grid_values(&solver.problem);
    for r in 0..9 {
        for c in 0..9 {
            if raw[r][c] != 0 {
                assert_eq!(solution[r][c], raw[r][c]);
                assert!(solver.problem.domains[r][c].is_fixed());
            }
        }
    }
}

#[test]
fn equilibrium_row_boundary() {
    let balanced: Vec<Vec<i8>> = vec![
        vec![0, 0, 0, 1, 1, 1],
        vec![-1, -1, -1, -1, -1, -1],
        vec![-1, -1, -1, -1, -1, -1],
        vec![-1, -1, -1, -1, -1, -1],
        vec![-1, -1, -1, -1, -1, -1],
        vec![-1, -1, -1, -1, -1, -1],
    ];
    let g = binary_grid(&balanced);
    assert!(RowBinaryEquilibrium::new().is_satisfied(&g));
    let lopsided: Vec<Vec<i8>> = vec![
        vec![0, 0, 0, 0, 1, 1],
        vec![-1, -1, -1, -1, -1, -1],
        vec![-1, -1, -1, -1, -1, -1],
        vec![-1, -1, -1, -1, -1, -1],
        vec![-1, -1, -1, -1, -1, -1],
        vec![-1, -1, -1, -1, -1, -1],
    ];
    let g2 = binary_grid(&lopsided);
    assert!(!RowBinaryEquilibrium::new().is_satisfied(&g2));
}

#[test]
fn binary_puzzle_solves_balanced() {
    let raw: Vec<Vec<i8>> = vec![
        vec![-1, -1, -1, 1, -1, -1],
        vec![0, -1, -1, 0, -1, -1],
        vec![-1, -1, -1, 0, -1, -1],
        vec![-1, -1, -1, -1, -1, -1],
        vec![0, -1, -1, -1, -1, -1],
        vec![0, 1, -1, -1, -1, -1],
    ];
    let mut solver = CSPSolver::new(binary_grid(&raw), binary_constraints());
    assert!(solver.solve().is_ok());
    let solution = grid_values(&solver.problem);
    assert_eq!(
        solution,
        vec![
            vec![1, 0, 0, 1, 0, 1],
            vec![0, 0, 1, 0, 1, 1],
            vec![1, 0, 0, 0, 1, 1],
            vec![1, 1, 0, 0, 1, 0],
            vec![0, 1, 1, 1, 0, 0],
            vec![0, 1, 1, 1, 0, 0],
        ]
    );
    for r in 0..6 {
        for c in 0..6 {
            if raw[r][c] != -1 {
                assert_eq!(solution[r][c], raw[r][c]);
            }
        }
    }
}

#[test]
fn sudoku_full_scenario() {
    let raw = thirty_clue_sudoku();
    let mut solver = CSPSolver::new(sudoku_grid(&raw), sudoku_constraints());
    assert!(solver.solve().is_ok());
    let expected: Vec<Vec<i8>> = vec![
        vec![4, 1, 2, 3, 9, 5, 6, 7, 8],
        vec![9, 5, 8, 6, 2, 7, 1, 3, 4],
        vec![3, 6, 7, 4, 1, 8, 9, 2, 5],
        vec![7, 9, 5, 8, 4, 3, 2, 6, 1],
        vec![1, 2, 4, 5, 6, 9, 7, 8, 3],
        vec![6, 8, 3, 1, 7, 2, 4, 5, 9],
        vec![2, 3, 1, 9, 5, 6, 8, 4, 7],
        vec![5, 7, 9, 2, 8, 4, 3, 1, 6],
        vec![8, 4, 6, 7, 3, 1, 5, 9, 2],
    ];
    assert_eq!(grid_values(&solver.problem), expected);
}

#[test]
fn solution_satisfies_all_constraints() {
    let raw = thirty_clue_sudoku();
    let mut solver = CSPSolver::new(sudoku_grid(&raw), sudoku_constraints());
    assert!(solver.solve().is_ok());
    assert!(RowUnique::new().is_satisfied(&solver.problem));
    assert!(ColUnique::new().is_satisfied(&solver.problem));
    assert!(SudokuSquare::new().is_satisfied(&solver.problem));
    for row in grid_values(&solver.problem) {
        for v in row {
            assert!((1..=9).contains(&v));
        }
    }
}

#[test]
fn empty_grid_trivially_solved() {
    let raw: Vec<Vec<i8>> = Vec::new();
    let mut solver = CSPSolver::new(sudoku_grid(&raw), latin_constraints());
    assert!(solver.solve().is_ok());
}

#[test]
fn unconstrained_grid_fills_with_smallest_candidates() {
    let raw: Vec<Vec<i8>> = vec![vec![0, 0], vec![0, 0]];
    let empty: Vec<GridConstraint> = Vec::new();
    let mut solver = CSPSolver::new(sudoku_grid(&raw), empty);
    assert!(solver.solve().is_ok());
    assert_eq!(grid_values(&solver.problem), vec![vec![1, 1], vec![1, 1]]);
}

#[test]
fn enumeration_counts_latin_squares() {
    let raw2: Vec<Vec<i8>> = vec![vec![0, 0], vec![0, 0]];
    let mut solver2 = CSPSolver::new(sudoku_grid(&raw2), latin_constraints());
    assert_eq!(solver2.how_many_solutions(), 2);
    let raw3: Vec<Vec<i8>> = vec![vec![0, 0, 0], vec![0, 0, 0], vec![0, 0, 0]];
    let mut solver3 = CSPSolver::new(sudoku_grid(&raw3), latin_constraints());
    assert_eq!(solver3.how_many_solutions(), 12);
}

#[test]
fn solve_all_collects_distinct_solutions() {
    let raw: Vec<Vec<i8>> = vec![vec![0, 0], vec![0, 0]];
    let mut solver = CSPSolver::new(sudoku_grid(&raw), latin_constraints());
    let solutions = solver.solve_all();
    assert_eq!(solutions.len(), 2);
    let first = grid_values(&solutions[0]);
    let second = grid_values(&solutions[1]);
    assert_eq!(first, vec![vec![1, 2], vec![2, 1]]);
    assert_eq!(second, vec![vec![2, 1], vec![1, 2]]);
    assert_ne!(first, second);
}

#[test]
fn no_solutions_counted_for_unsatisfiable_puzzle() {
    let raw: Vec<Vec<i8>> = vec![vec![1, 1], vec![0, 0]];
    let mut solver = CSPSolver::new(
        sudoku_grid(&raw),
        vec![GridConstraint::RowUnique(RowUnique::new())],
    );
    assert_eq!(solver.how_many_solutions(), 0);
}

#[test]
fn solve_is_stable_on_a_solved_problem() {
    let raw: Vec<Vec<i8>> = vec![vec![1, 2], vec![0, 0]];
    let mut solver = CSPSolver::new(sudoku_grid(&raw), latin_constraints());
    assert!(solver.solve().is_ok());
    let first = grid_values(&solver.problem);
    assert!(solver.solve().is_ok());
    assert_eq!(grid_values(&solver.problem), first);
}

#[test]
fn unsatisfiable_binary_grid_detected() {
    let raw: Vec<Vec<i8>> = vec![vec![1, 1], vec![-1, -1]];
    let mut solver = CSPSolver::new(binary_grid(&raw), binary_constraints());
    assert_eq!(solver.solve(), Err(SolveError::Unsatisfiable));
}
