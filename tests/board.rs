use queens::constraints::{encode_column, encode_diagonal, encode_queens, encode_row};
use queens::decode::{cell_value, extract_placement};
use queens::formula::{conjoin, Clause, Formula};
use queens::lines::{line_cells, LineKind};
use queens::symmetry::{
    all_symmetries, contains_cell, flip, flips, hflip, maflip, miflip, orbit, same_placement,
    transform, vflip, Flip, Symmetry,
};

fn grid(n: usize, cells: &[(usize, usize)]) -> Vec<Vec<bool>> {
    let mut m = vec![vec![false; n]; n];
    for (r, c) in cells {
        m[*r][*c] = true;
    }
    m
}

#[test]
fn lines_of_a_three_board() {
    assert_eq!(line_cells(3, LineKind::Row, 1), vec![(1, 0), (1, 1), (1, 2)]);
    assert_eq!(line_cells(3, LineKind::Column, 2), vec![(0, 2), (1, 2), (2, 2)]);
    assert_eq!(line_cells(3, LineKind::Major, 0), vec![(0, 2)]);
    assert_eq!(line_cells(3, LineKind::Major, 2), vec![(0, 0), (1, 1), (2, 2)]);
    assert_eq!(line_cells(3, LineKind::Minor, 3), vec![(1, 2), (2, 1)]);
}

#[test]
fn clause_counts_follow_the_encoding() {
    // n definedness clauses and n * n(n-1)/2 pair clauses for rows.
    assert_eq!(encode_row(4).clauses.len(), 4 + 4 * 6);
    assert_eq!(encode_column(4).clauses.len(), 4 + 4 * 6);
    // Diagonal lengths 1,2,3,4,3,2,1 in each family: 0+1+3+6+3+1+0 pairs.
    assert_eq!(encode_diagonal(4).clauses.len(), 2 * 14);
    assert_eq!(encode_queens(4).clauses.len(), 28 + 28 + 28);
    assert!(encode_row(4).clauses.iter().any(|c| matches!(c, Clause::AnyOf(v) if v.len() == 4)));
}

#[test]
fn row_formula_meaning() {
    let f = encode_row(3);
    assert!(f.evaluate(&grid(3, &[(0, 0), (1, 0), (2, 0)])));
    assert!(!f.evaluate(&grid(3, &[(0, 0), (0, 1), (1, 0), (2, 0)])));
    assert!(!f.evaluate(&grid(3, &[(0, 0), (2, 0)])));
}

#[test]
fn column_and_diagonal_meaning() {
    let c = encode_column(3);
    assert!(c.evaluate(&grid(3, &[(0, 0), (0, 1), (0, 2)])));
    assert!(!c.evaluate(&grid(3, &[(0, 0), (1, 0), (0, 1), (0, 2)])));
    let d = encode_diagonal(3);
    assert!(d.evaluate(&grid(3, &[])));
    assert!(!d.evaluate(&grid(3, &[(0, 0), (2, 2)])));
    assert!(!d.evaluate(&grid(3, &[(0, 2), (1, 1)])));
    assert!(d.evaluate(&grid(3, &[(0, 0), (0, 2)])));
}

#[test]
fn queens_formula_on_four() {
    let f = encode_queens(4);
    assert!(f.evaluate(&grid(4, &[(0, 1), (1, 3), (2, 0), (3, 2)])));
    assert!(!f.evaluate(&grid(4, &[(0, 0), (1, 1), (2, 2), (3, 3)])));
    assert!(!f.evaluate(&grid(4, &[(0, 1), (1, 3), (2, 0)])));
}

#[test]
fn conjunction_needs_both() {
    let f: Formula = conjoin(encode_row(2), encode_column(2));
    assert!(f.evaluate(&grid(2, &[(0, 0), (1, 1)])));
    assert!(!f.evaluate(&grid(2, &[(0, 0), (1, 0)])));
}

#[test]
fn extract_reads_true_cells_in_order() {
    let m = grid(4, &[(3, 2), (0, 1), (2, 0), (1, 3)]);
    assert_eq!(extract_placement(&m), vec![(0, 1), (1, 3), (2, 0), (3, 2)]);
    assert_eq!(extract_placement(&grid(2, &[])), Vec::<(usize, usize)>::new());
    assert!(cell_value(&m, (0, 1)));
    assert!(!cell_value(&m, (0, 0)));
    assert!(!cell_value(&m, (9, 9)));
}

#[test]
fn single_flips() {
    let q = vec![(0, 1), (1, 3), (2, 0), (3, 2)];
    assert_eq!(hflip(&q), vec![(3, 1), (2, 3), (1, 0), (0, 2)]);
    assert_eq!(vflip(&q), vec![(0, 2), (1, 0), (2, 3), (3, 1)]);
    assert_eq!(maflip(&q), vec![(1, 0), (3, 1), (0, 2), (2, 3)]);
    assert_eq!(miflip(&q), vec![(2, 3), (0, 2), (3, 1), (1, 0)]);
}

#[test]
fn flips_compose_in_order() {
    let q = vec![(0, 0), (1, 2), (2, 1)];
    assert_eq!(flip(&q, &vec![]), q);
    assert_eq!(flip(&q, &vec![Flip::Horizontal, Flip::MainDiagonal]), vec![(0, 2), (2, 1), (1, 0)]);
    assert_eq!(flip(&q, &vec![Flip::MainDiagonal, Flip::Horizontal]), vec![(2, 0), (0, 1), (1, 2)]);
    assert_eq!(flip(&q, &vec![Flip::MainDiagonal, Flip::MinorDiagonal]), hflip(&vflip(&q)));
}

#[test]
fn symmetries_as_flips() {
    assert_eq!(flips(Symmetry::Identity), vec![]);
    assert_eq!(flips(Symmetry::QuarterTurn), vec![Flip::MainDiagonal, Flip::Horizontal]);
    assert_eq!(flips(Symmetry::MinorTranspose), vec![Flip::MainDiagonal, Flip::Horizontal, Flip::Vertical]);
    let q = vec![(0, 0), (0, 1)];
    assert_eq!(transform(Symmetry::QuarterTurn, &q), vec![(1, 0), (0, 0)]);
    assert_eq!(transform(Symmetry::HalfTurn, &q), vec![(1, 1), (1, 0)]);
    assert_eq!(transform(Symmetry::MinorTranspose, &q), miflip(&q));
    assert_eq!(all_symmetries().len(), 8);
}

#[test]
fn orbit_sizes() {
    // The single four-by-four class is symmetric under the quarter turn.
    assert_eq!(orbit(&vec![(0, 1), (1, 3), (2, 0), (3, 2)]).len(), 2);
    assert_eq!(orbit(&vec![(0, 0)]).len(), 1);
    let eight = vec![(0, 0), (1, 4), (2, 7), (3, 5), (4, 2), (5, 6), (6, 1), (7, 3)];
    assert_eq!(orbit(&eight).len(), 8);
}

#[test]
fn orbit_is_closed() {
    let eight = vec![(0, 0), (1, 4), (2, 7), (3, 5), (4, 2), (5, 6), (6, 1), (7, 3)];
    let base = orbit(&eight);
    for m in &base {
        let again = orbit(m);
        assert_eq!(again.len(), base.len());
        for x in &again {
            assert!(base.iter().any(|y| same_placement(x, y)));
        }
    }
}

#[test]
fn placement_comparison_ignores_order() {
    assert!(same_placement(&vec![(0, 1), (1, 0)], &vec![(1, 0), (0, 1)]));
    assert!(!same_placement(&vec![(0, 1), (1, 0)], &vec![(0, 1)]));
    assert!(contains_cell(&vec![(2, 3)], (2, 3)));
    assert!(!contains_cell(&vec![(2, 3)], (3, 2)));
}

#[test]
fn flips_take_cells_off_the_board_where_unused() {
    let q = vec![(0, 7), (1, 9)];
    assert_eq!(maflip(&q), vec![(7, 0), (9, 1)]);
    assert_eq!(maflip(&maflip(&q)), q);
    assert_eq!(hflip(&q), vec![(1, 7), (0, 9)]);
    assert_eq!(hflip(&hflip(&q)), q);
    let r = vec![(5, 1), (8, 0)];
    assert_eq!(vflip(&r), vec![(5, 0), (8, 1)]);
    assert_eq!(flip(&q, &vec![]), q);
    assert_eq!(flip(&q, &vec![Flip::MainDiagonal]), maflip(&q));
    assert_eq!(flip(&q, &vec![Flip::Horizontal, Flip::MainDiagonal]), maflip(&hflip(&q)));
}
