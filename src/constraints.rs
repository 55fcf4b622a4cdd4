//! The row, column and diagonal constraint formulas, and what their
//! conjunction says of the cells that hold queens.
use vstd::prelude::*;
use crate::formula::{conjoin, Cell, Clause, Formula};
use crate::lines::{
    line_at_most_one, line_occupied, lines_ok, on_board, on_line, push_lines, LineKind, MAX_SIZE,
};

verus! {

/// Under `a`, every one of the `n` rows, and every one of the `n` columns,
/// holds exactly one queen, and every diagonal of either family holds at most one.
pub open spec fn queens_ok(n: int, a: Set<Cell>) -> bool {
    lines_ok(n, LineKind::Row, n, true, a) && lines_ok(n, LineKind::Column, n, true, a)
        && lines_ok(n, LineKind::Major, 2 * n - 1, false, a)
        && lines_ok(n, LineKind::Minor, 2 * n - 1, false, a)
}

/// The row formula: each row holds a queen, and no two cells of a row both do.
pub fn encode_row(n: usize) -> (f: Formula)
    requires
        1 <= n <= MAX_SIZE,
    ensures
        forall|a: Set<Cell>| #[trigger] f.holds(a) == lines_ok(n as int, LineKind::Row, n as int, true, a),
        f.within(n as int),
{
    let mut clauses: Vec<Clause> = Vec::new();
    push_lines(n, LineKind::Row, true, &mut clauses);
    Formula { clauses }
}

/// The column formula: each column holds a queen, and no two cells of a
/// column both do.
pub fn encode_column(n: usize) -> (f: Formula)
    requires
        1 <= n <= MAX_SIZE,
    ensures
        forall|a: Set<Cell>| #[trigger] f.holds(a) == lines_ok(n as int, LineKind::Column, n as int, true, a),
        f.within(n as int),
{
    let mut clauses: Vec<Clause> = Vec::new();
    push_lines(n, LineKind::Column, true, &mut clauses);
    Formula { clauses }
}

/// The diagonal formula: no two cells of one diagonal, of either family, both
/// hold a queen. A diagonal may be empty.
pub fn encode_diagonal(n: usize) -> (f: Formula)
    requires
        1 <= n <= MAX_SIZE,
    ensures
        forall|a: Set<Cell>| #[trigger] f.holds(a) == (lines_ok(n as int, LineKind::Major, 2 * n - 1, false, a)
            && lines_ok(n as int, LineKind::Minor, 2 * n - 1, false, a)),
        f.within(n as int),
{
    let mut clauses: Vec<Clause> = Vec::new();
    push_lines(n, LineKind::Major, false, &mut clauses);
    push_lines(n, LineKind::Minor, false, &mut clauses);
    Formula { clauses }
}

/// The whole placement problem: the row, column and diagonal formulas together.
pub fn encode_queens(n: usize) -> (f: Formula)
    requires
        1 <= n <= MAX_SIZE,
    ensures
        forall|a: Set<Cell>| #[trigger] f.holds(a) == queens_ok(n as int, a),
        f.within(n as int),
{
    let row = encode_row(n);
    let column = encode_column(n);
    let diagonal = encode_diagonal(n);
    let f = conjoin(conjoin(row, column), diagonal);
    f
}

/// Exactly one cell of row `r` of the `n`-by-`n` board holds a queen under `a`.
pub open spec fn one_in_row(n: int, a: Set<Cell>, r: usize) -> bool {
    exists|c: usize| #![trigger a.contains((r, c))] c < n && a.contains((r, c))
        && (forall|d: usize| d < n && #[trigger] a.contains((r, d)) ==> d == c)
}

/// Exactly one cell of column `c` of the `n`-by-`n` board holds a queen under `a`.
pub open spec fn one_in_column(n: int, a: Set<Cell>, c: usize) -> bool {
    exists|r: usize| #![trigger a.contains((r, c))] r < n && a.contains((r, c))
        && (forall|s: usize| s < n && #[trigger] a.contains((s, c)) ==> s == r)
}

/// Row and column law: where the problem formula holds, each row index and
/// each column index occurs in exactly one cell of the board that holds a queen.
pub proof fn law_rows_and_columns(n: int, a: Set<Cell>)
    requires
        n >= 1,
        queens_ok(n, a),
    ensures
        forall|r: usize| 0 <= r < n ==> #[trigger] one_in_row(n, a, r),
        forall|c: usize| 0 <= c < n ==> #[trigger] one_in_column(n, a, c),
{
    assert forall|r: usize| 0 <= r < n implies #[trigger] one_in_row(n, a, r) by {
        assert(line_at_most_one(n, LineKind::Row, r as int, a));
        assert(line_occupied(n, LineKind::Row, r as int, a));
        let x = choose|x: Cell| on_line(n, LineKind::Row, r as int, x) && #[trigger] a.contains(x);
        assert forall|d: usize| d < n && #[trigger] a.contains((r, d)) implies d == x.1 by {
            assert(on_line(n, LineKind::Row, r as int, (r, d)));
        }
        assert(a.contains((r, x.1)));
    }
    assert forall|c: usize| 0 <= c < n implies #[trigger] one_in_column(n, a, c) by {
        assert(line_at_most_one(n, LineKind::Column, c as int, a));
        assert(line_occupied(n, LineKind::Column, c as int, a));
        let x = choose|x: Cell| on_line(n, LineKind::Column, c as int, x) && #[trigger] a.contains(x);
        assert forall|s: usize| s < n && #[trigger] a.contains((s, c)) implies s == x.0 by {
            assert(on_line(n, LineKind::Column, c as int, (s, c)));
        }
        assert(a.contains((x.0, c)));
    }
}

/// Diagonal law: where the problem formula holds, no two distinct cells of
/// the board that hold queens share `row - column` or `row + column`.
pub proof fn law_diagonals(n: int, a: Set<Cell>)
    requires
        n >= 1,
        queens_ok(n, a),
    ensures
        forall|p: Cell, q: Cell|
            on_board(n, p) && on_board(n, q) && #[trigger] a.contains(p) && #[trigger] a.contains(q) && p != q
                ==> p.0 - p.1 != q.0 - q.1 && p.0 + p.1 != q.0 + q.1,
{
    assert forall|p: Cell, q: Cell|
        on_board(n, p) && on_board(n, q) && #[trigger] a.contains(p) && #[trigger] a.contains(q) && p != q
            implies p.0 - p.1 != q.0 - q.1 && p.0 + p.1 != q.0 + q.1 by {
        let major = p.0 - p.1 + n - 1;
        let minor = p.0 + p.1;
        assert(line_at_most_one(n, LineKind::Major, major, a));
        assert(line_at_most_one(n, LineKind::Minor, minor, a));
        assert(on_line(n, LineKind::Major, major, p));
        assert(on_line(n, LineKind::Minor, minor, p));
    }
}

proof fn lemma_one_per_column(n: int, a: Set<Cell>, r1: usize, r2: usize, c: usize)
    requires
        one_in_column(n, a, c),
        r1 < n,
        r2 < n,
        a.contains((r1, c)),
        a.contains((r2, c)),
    ensures
        r1 == r2,
{
    let r = choose|r: usize| #![trigger a.contains((r, c))] r < n && a.contains((r, c))
        && (forall|s: usize| s < n && #[trigger] a.contains((s, c)) ==> s == r);
    assert(r1 == r && r2 == r);
}

/// Small boards: no set of queen cells satisfies the placement problem on a
/// board of side 2 or 3.
pub proof fn law_no_placement_on_two_or_three(n: int, a: Set<Cell>)
    requires
        n == 2 || n == 3,
    ensures
        !queens_ok(n, a),
{
    if queens_ok(n, a) {
        law_rows_and_columns(n, a);
        law_diagonals(n, a);
        assert(one_in_row(n, a, 0));
        assert(one_in_row(n, a, 1));
        let c0 = choose|c: usize| #![trigger a.contains((0usize, c))] c < n && a.contains((0usize, c))
            && (forall|d: usize| d < n && #[trigger] a.contains((0usize, d)) ==> d == c);
        let c1 = choose|c: usize| #![trigger a.contains((1usize, c))] c < n && a.contains((1usize, c))
            && (forall|d: usize| d < n && #[trigger] a.contains((1usize, d)) ==> d == c);
        assert(on_board(n, (0usize, c0)) && on_board(n, (1usize, c1)));
        assert(a.contains((0usize, c0)) && a.contains((1usize, c1)));
        if c0 == c1 {
            lemma_one_per_column(n, a, 0, 1, c0);
        }
        assert((0usize, c0) != (1usize, c1));
        if n == 3 {
            assert(one_in_row(n, a, 2));
            let c2 = choose|c: usize| #![trigger a.contains((2usize, c))] c < n && a.contains((2usize, c))
                && (forall|d: usize| d < n && #[trigger] a.contains((2usize, d)) ==> d == c);
            assert(on_board(n, (2usize, c2)));
            assert(a.contains((2usize, c2)));
            if c1 == c2 {
                lemma_one_per_column(n, a, 1, 2, c1);
            }
            if c0 == c2 {
                lemma_one_per_column(n, a, 0, 2, c0);
            }
            assert((1usize, c1) != (2usize, c2));
            assert((0usize, c0) != (2usize, c2));
        }
    }
}

} // verus!
