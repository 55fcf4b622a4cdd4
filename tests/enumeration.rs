use queens::decode::blocking_formula;
use queens::enumerate::{EnumError, Enumerator, Step, Verdict};
use queens::formula::{Cell, Formula};
use queens::symmetry::{orbit, same_placement};

/// An exhaustive stand-in for the satisfiability oracle. Its candidates are
/// every assignment for small boards, and every one-queen-per-row-and-column
/// assignment for larger ones: an assignment outside those never satisfies
/// the placement problem.
struct Oracle {
    candidates: Vec<Vec<Vec<bool>>>,
    asserted: Vec<Formula>,
}

fn all_assignments(n: usize) -> Vec<Vec<Vec<bool>>> {
    let cells = n * n;
    let mut out = Vec::new();
    for bits in 0u64..(1u64 << cells) {
        let mut m = vec![vec![false; n]; n];
        for i in 0..cells {
            m[i / n][i % n] = (bits >> i) & 1 == 1;
        }
        out.push(m);
    }
    out
}

fn permutations(n: usize, prefix: &mut Vec<usize>, out: &mut Vec<Vec<Vec<bool>>>) {
    if prefix.len() == n {
        let mut m = vec![vec![false; n]; n];
        for (r, c) in prefix.iter().enumerate() {
            m[r][*c] = true;
        }
        out.push(m);
        return;
    }
    for c in 0..n {
        if !prefix.contains(&c) {
            prefix.push(c);
            permutations(n, prefix, out);
            prefix.pop();
        }
    }
}

impl Oracle {
    fn new(n: usize, problem: &Formula) -> Oracle {
        let mut all = Vec::new();
        if n <= 4 {
            all = all_assignments(n);
        } else {
            permutations(n, &mut Vec::new(), &mut all);
        }
        let candidates = all.into_iter().filter(|m| problem.evaluate(m)).collect();
        Oracle { candidates, asserted: Vec::new() }
    }

    fn check(&self) -> Verdict {
        for m in &self.candidates {
            if self.asserted.iter().all(|f| f.evaluate(m)) {
                return Verdict::Sat(m.clone());
            }
        }
        Verdict::Unsat
    }
}

/// Runs a whole session; returns the count and the placements found.
fn run(n: usize, unique: bool) -> (usize, Vec<Vec<Cell>>) {
    let mut e = Enumerator::new(n, unique).unwrap();
    let mut oracle = Oracle::new(n, e.problem());
    let mut found = Vec::new();
    loop {
        match e.on_verdict(oracle.check()) {
            Step::Block { placement, formula } => {
                found.push(placement);
                oracle.asserted.push(formula);
            }
            Step::Done(count) => return (count, found),
            Step::Failed(err) => panic!("enumeration failed: {:?}", err),
        }
    }
}

#[test]
fn one_queen_counts_once() {
    assert_eq!(run(1, false).0, 1);
    assert_eq!(run(1, true).0, 1);
}

#[test]
fn two_and_three_have_no_placement() {
    assert_eq!(run(2, false).0, 0);
    assert_eq!(run(2, true).0, 0);
    assert_eq!(run(3, false).0, 0);
    assert_eq!(run(3, true).0, 0);
}

#[test]
fn four_queens_raw_and_folded() {
    assert_eq!(run(4, false).0, 2);
    assert_eq!(run(4, true).0, 1);
}

#[test]
fn eight_queens_raw_and_folded() {
    assert_eq!(run(8, false).0, 92);
    assert_eq!(run(8, true).0, 12);
}

#[test]
fn placements_hold_one_queen_per_row_and_column() {
    let n = 6;
    let (count, found) = run(n, false);
    assert_eq!(count, 4);
    for p in &found {
        assert_eq!(p.len(), n);
        for i in 0..n {
            assert_eq!(p.iter().filter(|c| c.0 == i).count(), 1);
            assert_eq!(p.iter().filter(|c| c.1 == i).count(), 1);
        }
    }
}

#[test]
fn placements_share_no_diagonal() {
    let (_, found) = run(8, false);
    for p in &found {
        for a in p {
            for b in p {
                if a != b {
                    assert_ne!(a.0 as i64 - a.1 as i64, b.0 as i64 - b.1 as i64);
                    assert_ne!(a.0 + a.1, b.0 + b.1);
                }
            }
        }
    }
}

#[test]
fn blocked_placements_never_come_back() {
    let (_, raw) = run(5, false);
    assert_eq!(raw.len(), 10);
    for i in 0..raw.len() {
        for j in 0..i {
            assert!(!same_placement(&raw[i], &raw[j]));
        }
    }
    let (_, folded) = run(5, true);
    for i in 0..folded.len() {
        for j in 0..i {
            for m in orbit(&folded[j]) {
                assert!(!same_placement(&folded[i], &m));
            }
        }
    }
}

#[test]
fn raw_count_is_sum_of_orbit_sizes() {
    for n in [4usize, 5, 6, 8] {
        let (raw, _) = run(n, false);
        let (folded, classes) = run(n, true);
        assert!(folded <= raw);
        let total: usize = classes.iter().map(|p| orbit(p).len()).sum();
        assert_eq!(total, raw);
        for p in &classes {
            assert!([1usize, 2, 4, 8].contains(&orbit(p).len()));
        }
    }
}

#[test]
fn blocking_formula_rejects_the_placement_and_its_orbit() {
    let q: Vec<Cell> = vec![(0, 1), (1, 3), (2, 0), (3, 2)];
    let mut m = vec![vec![false; 4]; 4];
    for (r, c) in &q {
        m[*r][*c] = true;
    }
    let mirror: Vec<Vec<bool>> = m.iter().map(|row| row.iter().rev().cloned().collect()).collect();
    let raw = blocking_formula(false, &q);
    assert!(!raw.evaluate(&m));
    assert!(raw.evaluate(&mirror));
    let folded = blocking_formula(true, &q);
    assert!(!folded.evaluate(&m));
    assert!(!folded.evaluate(&mirror));
    assert!(folded.evaluate(&vec![vec![false; 4]; 4]));
}

#[test]
fn invalid_sizes_are_rejected() {
    assert!(matches!(Enumerator::new(0, true), Err(EnumError::InvalidSize)));
    assert!(matches!(Enumerator::new(1048577, false), Err(EnumError::InvalidSize)));
    let e = Enumerator::new(65, false);
    assert!(e.is_ok());
}

#[test]
fn unknown_verdict_fails() {
    let mut e = Enumerator::new(4, true).unwrap();
    assert!(matches!(e.on_verdict(Verdict::Unknown), Step::Failed(EnumError::UnknownVerdict)));
    assert_eq!(e.count(), 0);
}

#[test]
fn unsat_reports_the_count() {
    let mut e = Enumerator::new(4, false).unwrap();
    let mut m = vec![vec![false; 4]; 4];
    for (r, c) in [(0usize, 1usize), (1, 3), (2, 0), (3, 2)] {
        m[r][c] = true;
    }
    assert!(matches!(e.on_verdict(Verdict::Sat(m)), Step::Block { .. }));
    assert!(matches!(e.on_verdict(Verdict::Unsat), Step::Done(1)));
    assert_eq!(e.count(), 1);
    assert_eq!(e.size(), 4);
    assert!(!e.unique());
}

#[test]
fn inconsistent_models_fail() {
    let mut e = Enumerator::new(4, true).unwrap();
    assert!(matches!(e.on_verdict(Verdict::Sat(vec![vec![false; 3]; 3])), Step::Failed(EnumError::InconsistentModel)));
    assert!(matches!(e.on_verdict(Verdict::Sat(vec![vec![false; 4]; 4])), Step::Failed(EnumError::InconsistentModel)));
    let mut ragged = vec![vec![false; 4]; 4];
    ragged[2] = vec![false; 5];
    assert!(matches!(e.on_verdict(Verdict::Sat(ragged)), Step::Failed(EnumError::InconsistentModel)));
    let mut diagonal = vec![vec![false; 4]; 4];
    for i in 0..4 {
        diagonal[i][i] = true;
    }
    assert!(matches!(e.on_verdict(Verdict::Sat(diagonal)), Step::Failed(EnumError::InconsistentModel)));
    assert_eq!(e.count(), 0);
}

#[test]
fn model_violating_an_earlier_block_fails() {
    let mut e = Enumerator::new(4, true).unwrap();
    let mut m = vec![vec![false; 4]; 4];
    for (r, c) in [(0usize, 1usize), (1, 3), (2, 0), (3, 2)] {
        m[r][c] = true;
    }
    let mirror: Vec<Vec<bool>> = m.iter().map(|row| row.iter().rev().cloned().collect()).collect();
    assert!(matches!(e.on_verdict(Verdict::Sat(m.clone())), Step::Block { .. }));
    assert!(matches!(e.on_verdict(Verdict::Sat(m)), Step::Failed(EnumError::InconsistentModel)));
    assert!(matches!(e.on_verdict(Verdict::Sat(mirror)), Step::Failed(EnumError::InconsistentModel)));
    assert_eq!(e.count(), 1);
}
