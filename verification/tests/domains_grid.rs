use csp_solver::domains::CellDomain;
use csp_solver::domains::ConstructionError;
use csp_solver::domains::Domain;
use csp_solver::domains::FixedDomain;
use csp_solver::domains::RangeDomain;
use csp_solver::domains::binary_domains_from_vec;
use csp_solver::domains::sudoku_domains_from_vec;
use csp_solver::problem::grid::Grid;

#[test]
fn range_domain_round_trip() {
    let mut d = RangeDomain::new(1, 9);
    assert_eq!(d.value(), None);
    let mut produced: Vec<i8> = Vec::new();
    for _ in 0..9 {
        assert!(d.has_next());
        d.next();
        produced.push(d.value().unwrap());
    }
    assert_eq!(produced, vec![1, 2, 3, 4, 5, 6, 7, 8, 9]);
    assert!(!d.has_next());
    d.next();
    assert_eq!(d.value(), Some(9));
    d.reset();
    assert_eq!(d.value(), None);
    assert!(d.has_next());
}

#[test]
fn range_domain_belongs_and_fixedness() {
    let d = RangeDomain::new(2, 5);
    assert!(d.value_belongs(2));
    assert!(d.value_belongs(5));
    assert!(!d.value_belongs(1));
    assert!(!d.value_belongs(6));
    assert!(!d.is_fixed());
    let single = RangeDomain::new(3, 3);
    assert!(single.is_fixed());
}

#[test]
fn fixed_domain_never_changes() {
    let mut d = FixedDomain::new(5);
    assert_eq!(d.value(), Some(5));
    assert!(!d.has_next());
    assert!(d.is_fixed());
    d.next();
    assert_eq!(d.value(), Some(5));
    d.reset();
    assert_eq!(d.value(), Some(5));
    assert!(d.value_belongs(5));
    assert!(!d.value_belongs(4));
}

#[test]
fn cell_domain_dispatches_both_kinds() {
    let mut c = CellDomain::range(1, 3);
    assert_eq!(c.value(), None);
    assert!(!c.is_fixed());
    c.next();
    assert_eq!(c.value(), Some(1));
    c.next();
    assert_eq!(c.value(), Some(2));
    c.reset();
    assert_eq!(c.value(), None);
    let f = CellDomain::fixed(7);
    assert_eq!(f.value(), Some(7));
    assert!(f.is_fixed());
    assert!(!f.has_next());
}

#[test]
fn sudoku_builder_classifies_cells() {
    let raw: Vec<Vec<i8>> = vec![
        vec![0, 1, 0, 0],
        vec![2, 0, 0, 3],
        vec![0, 0, 4, 0],
        vec![0, 3, 0, 0],
    ];
    let doms = sudoku_domains_from_vec(&raw).unwrap();
    assert_eq!(doms.len(), 4);
    for (i, row) in doms.iter().enumerate() {
        assert_eq!(row.len(), 4);
        for (j, cell) in row.iter().enumerate() {
            if raw[i][j] == 0 {
                assert!(!cell.is_fixed());
                assert_eq!(cell.value(), None);
                assert!(cell.value_belongs(1));
                assert!(cell.value_belongs(4));
                assert!(!cell.value_belongs(5));
            } else {
                assert!(cell.is_fixed());
                assert_eq!(cell.value(), Some(raw[i][j]));
            }
        }
    }
}

#[test]
fn sudoku_builder_rejects_bad_input() {
    let ragged: Vec<Vec<i8>> = vec![vec![0, 1], vec![0]];
    assert!(matches!(
        sudoku_domains_from_vec(&ragged),
        Err(ConstructionError::NotSquare)
    ));
    let out_of_alphabet: Vec<Vec<i8>> = vec![vec![0, 5], vec![1, 0]];
    assert!(matches!(
        sudoku_domains_from_vec(&out_of_alphabet),
        Err(ConstructionError::ValueOutOfRange)
    ));
    let negative: Vec<Vec<i8>> = vec![vec![0, -1], vec![1, 0]];
    assert!(matches!(
        sudoku_domains_from_vec(&negative),
        Err(ConstructionError::ValueOutOfRange)
    ));
}

#[test]
fn binary_builder_classifies_cells() {
    let raw: Vec<Vec<i8>> = vec![vec![-1, 0], vec![1, -1]];
    let doms = binary_domains_from_vec(&raw).unwrap();
    assert!(!doms[0][0].is_fixed());
    assert_eq!(doms[0][0].value(), None);
    assert!(doms[0][0].value_belongs(0));
    assert!(doms[0][0].value_belongs(1));
    assert!(!doms[0][0].value_belongs(-1));
    assert!(doms[0][1].is_fixed());
    assert_eq!(doms[0][1].value(), Some(0));
    assert!(doms[1][0].is_fixed());
    assert_eq!(doms[1][0].value(), Some(1));
}

#[test]
fn binary_builder_rejects_bad_input() {
    let ragged: Vec<Vec<i8>> = vec![vec![-1], vec![0, 1]];
    assert!(matches!(
        binary_domains_from_vec(&ragged),
        Err(ConstructionError::NotSquare)
    ));
    let out_of_alphabet: Vec<Vec<i8>> = vec![vec![2, 0], vec![1, 0]];
    assert!(matches!(
        binary_domains_from_vec(&out_of_alphabet),
        Err(ConstructionError::ValueOutOfRange)
    ));
}

#[test]
fn grid_from_domains_rejects_ragged() {
    let doms: Vec<Vec<CellDomain>> = vec![
        vec![CellDomain::fixed(1), CellDomain::fixed(2)],
        vec![CellDomain::fixed(3)],
    ];
    assert!(matches!(
        Grid::from_domains(doms),
        Err(ConstructionError::NotSquare)
    ));
}

#[test]
fn grid_from_domains_accepts_square() {
    let doms: Vec<Vec<CellDomain>> = vec![
        vec![CellDomain::fixed(1), CellDomain::range(1, 2)],
        vec![CellDomain::range(1, 2), CellDomain::fixed(2)],
    ];
    let g = Grid::from_domains(doms).unwrap();
    assert_eq!(g.size, 2);
    assert_eq!(g.domains[0][0].value(), Some(1));
    assert_eq!(g.domains[0][1].value(), None);
    let empty: Vec<Vec<CellDomain>> = Vec::new();
    let g0 = Grid::from_domains(empty).unwrap();
    assert_eq!(g0.size, 0);
}
