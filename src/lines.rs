//! The lines of the board (rows, columns and both diagonal families) and the
//! row, column and diagonal constraint formulas built over them.
use vstd::prelude::*;
use crate::formula::{all_hold, any_of, cells_within, clause_cells, clauses_within, lemma_all_hold_push, no_two_in, push_at_most_one, some_in, Cell, Clause};

verus! {

/// The largest board side accepted: the problem formula has about `n * n * n`
/// clauses, and at this side their number still fits in a 64-bit `usize`.
pub const MAX_SIZE: usize = 1048576;

/// A family of lines on the board.
#[derive(Clone, Copy, PartialEq, Eq, Structural, Debug)]
pub enum LineKind {
    /// Line `k` is row `k`.
    Row,
    /// Line `k` is column `k`.
    Column,
    /// Line `k` holds the cells with `row - column == k - (n - 1)`.
    Major,
    /// Line `k` holds the cells with `row + column == k`.
    Minor,
}

/// Whether `c` is a cell of an `n`-by-`n` board.
pub open spec fn on_board(n: int, c: Cell) -> bool {
    c.0 < n && c.1 < n
}

/// Whether cell `c` of the `n`-by-`n` board lies on line `k` of family `kind`.
pub open spec fn on_line(n: int, kind: LineKind, k: int, c: Cell) -> bool {
    on_board(n, c) && match kind {
        LineKind::Row => c.0 == k,
        LineKind::Column => c.1 == k,
        LineKind::Major => c.0 + n - 1 == c.1 + k,
        LineKind::Minor => c.0 + c.1 == k,
    }
}

/// Some cell of the line holds a queen under `a`.
pub open spec fn line_occupied(n: int, kind: LineKind, k: int, a: Set<Cell>) -> bool {
    exists|c: Cell| on_line(n, kind, k, c) && #[trigger] a.contains(c)
}

/// No two distinct cells of the line hold queens under `a`.
pub open spec fn line_at_most_one(n: int, kind: LineKind, k: int, a: Set<Cell>) -> bool {
    forall|p: Cell, q: Cell|
        on_line(n, kind, k, p) && on_line(n, kind, k, q) && #[trigger] a.contains(p) && #[trigger] a.contains(q)
            ==> p == q
}

/// Lines `0 .. count` of the family each hold at most one queen under `a`,
/// and, where `defined`, at least one.
pub open spec fn lines_ok(n: int, kind: LineKind, count: int, defined: bool, a: Set<Cell>) -> bool {
    forall|k: int|
        0 <= k < count ==> (#[trigger] line_at_most_one(n, kind, k, a) && (defined ==> line_occupied(n, kind, k, a)))
}

/// The number of lines of a family on an `n`-by-`n` board.
pub open spec fn line_count(n: int, kind: LineKind) -> int {
    match kind {
        LineKind::Row | LineKind::Column => n,
        LineKind::Major | LineKind::Minor => 2 * n - 1,
    }
}

/// Row-major order of cells.
pub open spec fn before(p: Cell, q: Cell) -> bool {
    p.0 < q.0 || (p.0 == q.0 && p.1 < q.1)
}

fn is_on_line(n: usize, kind: LineKind, k: usize, r: usize, c: usize) -> (b: bool)
    requires
        n <= MAX_SIZE,
        k < 2 * MAX_SIZE,
    ensures
        b == on_line(n as int, kind, k as int, (r, c)),
{
    if r >= n || c >= n {
        return false;
    }
    match kind {
        LineKind::Row => r == k,
        LineKind::Column => c == k,
        LineKind::Major => r + n - 1 == c + k,
        LineKind::Minor => r + c == k,
    }
}

/// The cells of line `k` of the family, in row-major order.
pub fn line_cells(n: usize, kind: LineKind, k: usize) -> (v: Vec<Cell>)
    requires
        n <= MAX_SIZE,
        k < 2 * MAX_SIZE,
    ensures
        forall|i: int| 0 <= i < v@.len() ==> on_line(n as int, kind, k as int, #[trigger] v@[i]),
        forall|c: Cell| on_line(n as int, kind, k as int, c) ==> #[trigger] v@.contains(c),
        forall|i: int, j: int| 0 <= i < j < v@.len() ==> before(#[trigger] v@[i], #[trigger] v@[j]),
{
    let mut v: Vec<Cell> = Vec::new();
    let mut r: usize = 0;
    while r < n
        invariant
            n <= MAX_SIZE,
            k < 2 * MAX_SIZE,
            r <= n,
            forall|i: int| 0 <= i < v@.len() ==> on_line(n as int, kind, k as int, #[trigger] v@[i]),
            forall|i: int| 0 <= i < v@.len() ==> (#[trigger] v@[i]).0 < r,
            forall|c: Cell| on_line(n as int, kind, k as int, c) && c.0 < r ==> #[trigger] v@.contains(c),
            forall|i: int, j: int| 0 <= i < j < v@.len() ==> before(#[trigger] v@[i], #[trigger] v@[j]),
        decreases n - r,
    {
        let mut c: usize = 0;
        while c < n
            invariant
                n <= MAX_SIZE,
                k < 2 * MAX_SIZE,
                r < n,
                c <= n,
                forall|i: int| 0 <= i < v@.len() ==> on_line(n as int, kind, k as int, #[trigger] v@[i]),
                forall|i: int| 0 <= i < v@.len() ==> before(#[trigger] v@[i], (r, c)),
                forall|x: Cell| on_line(n as int, kind, k as int, x) && before(x, (r, c)) ==> #[trigger] v@.contains(x),
                forall|i: int, j: int| 0 <= i < j < v@.len() ==> before(#[trigger] v@[i], #[trigger] v@[j]),
            decreases n - c,
        {
            if is_on_line(n, kind, k, r, c) {
                let ghost old_v = v@;
                v.push((r, c));
                assert forall|x: Cell| on_line(n as int, kind, k as int, x) && before(x, (r, (c + 1) as usize)) implies #[trigger] v@.contains(x) by {
                    if x == (r, c) {
                        assert(v@[old_v.len() as int] == x);
                    } else {
                        assert(old_v.contains(x));
                        let i = choose|i: int| 0 <= i < old_v.len() && old_v[i] == x;
                        assert(v@[i] == x);
                    }
                }
            } else {
                assert forall|x: Cell| on_line(n as int, kind, k as int, x) && before(x, (r, (c + 1) as usize)) implies #[trigger] v@.contains(x) by {
                    assert(x != (r, c));
                }
            }
            c = c + 1;
        }
        r = r + 1;
    }
    v
}

/// What the at-least-one and no-two conditions on the positions of a line's
/// cells say of the line itself.
pub proof fn lemma_line_meaning(n: int, kind: LineKind, k: int, v: Seq<Cell>, a: Set<Cell>)
    requires
        forall|i: int| 0 <= i < v.len() ==> on_line(n, kind, k, #[trigger] v[i]),
        forall|c: Cell| on_line(n, kind, k, c) ==> #[trigger] v.contains(c),
        forall|i: int, j: int| 0 <= i < j < v.len() ==> before(#[trigger] v[i], #[trigger] v[j]),
    ensures
        some_in(v, a) == line_occupied(n, kind, k, a),
        no_two_in(v, a) == line_at_most_one(n, kind, k, a),
{
    if some_in(v, a) {
        let i = choose|i: int| 0 <= i < v.len() && #[trigger] a.contains(v[i]);
        assert(on_line(n, kind, k, v[i]));
    }
    if line_occupied(n, kind, k, a) {
        let c = choose|c: Cell| on_line(n, kind, k, c) && #[trigger] a.contains(c);
        assert(v.contains(c));
        let i = choose|i: int| 0 <= i < v.len() && v[i] == c;
        assert(a.contains(v[i]));
    }
    if no_two_in(v, a) {
        assert forall|p: Cell, q: Cell|
            on_line(n, kind, k, p) && on_line(n, kind, k, q) && #[trigger] a.contains(p) && #[trigger] a.contains(q)
                implies p == q by {
            assert(v.contains(p));
            assert(v.contains(q));
            let i = choose|i: int| 0 <= i < v.len() && v[i] == p;
            let j = choose|j: int| 0 <= j < v.len() && v[j] == q;
            if i < j {
                assert(!(a.contains(v[i]) && a.contains(v[j])));
            } else if j < i {
                assert(!(a.contains(v[j]) && a.contains(v[i])));
            }
        }
    }
    if line_at_most_one(n, kind, k, a) {
        assert forall|i: int, j: int| 0 <= i < j < v.len() implies !(#[trigger] a.contains(v[i]) && #[trigger] a.contains(v[j])) by {
            assert(before(v[i], v[j]));
            assert(on_line(n, kind, k, v[i]));
            assert(on_line(n, kind, k, v[j]));
        }
    }
}

/// Appends the clauses of every line of the family: for each line, where
/// `defined`, one clause that some cell of it holds a queen, and for each pair
/// of its cells one clause that they do not both hold one.
pub fn push_lines(n: usize, kind: LineKind, defined: bool, out: &mut Vec<Clause>)
    requires
        1 <= n <= MAX_SIZE,
    ensures
        forall|a: Set<Cell>| #[trigger] all_hold(final(out)@, a) == (all_hold(old(out)@, a)
            && lines_ok(n as int, kind, line_count(n as int, kind), defined, a)),
        clauses_within(n as int, old(out)@) ==> clauses_within(n as int, final(out)@),
{
    let ghost start = out@;
    let count: usize = match kind {
        LineKind::Row | LineKind::Column => n,
        LineKind::Major | LineKind::Minor => 2 * n - 1,
    };
    let mut k: usize = 0;
    while k < count
        invariant
            1 <= n <= MAX_SIZE,
            count == line_count(n as int, kind),
            k <= count,
            forall|a: Set<Cell>| #[trigger] all_hold(out@, a) == (all_hold(start, a) && lines_ok(n as int, kind, k as int, defined, a)),
            clauses_within(n as int, start) ==> clauses_within(n as int, out@),
        decreases count - k,
    {
        let cells = line_cells(n, kind, k);
        let ghost cv = cells@;
        let ghost mid = out@;
        assert(cells_within(n as int, cv)) by {
            assert forall|i: int| 0 <= i < cv.len() implies (#[trigger] cv[i]).0 < n && cv[i].1 < n by {
                assert(on_line(n as int, kind, k as int, cv[i]));
            }
        }
        push_at_most_one(&cells, out);
        let ghost mid2 = out@;
        if defined {
            let cl = any_of(cells);
            out.push(cl);
            assert forall|a: Set<Cell>| #[trigger] all_hold(out@, a) == (all_hold(mid2, a) && some_in(cv, a)) by {
                lemma_all_hold_push(mid2, cl, a);
            }
            assert(clauses_within(n as int, mid2) ==> clauses_within(n as int, out@)) by {
                if clauses_within(n as int, mid2) {
                    assert forall|j: int| 0 <= j < out@.len() implies cells_within(n as int, clause_cells(#[trigger] out@[j])) by {
                        if j < mid2.len() {
                            assert(out@[j] == mid2[j]);
                        }
                    }
                }
            }
        }
        assert forall|a: Set<Cell>| #[trigger] all_hold(out@, a) == (all_hold(start, a) && lines_ok(n as int, kind, k + 1, defined, a)) by {
            lemma_line_meaning(n as int, kind, k as int, cv, a);
            assert(all_hold(mid2, a) == (all_hold(mid, a) && no_two_in(cv, a)));
            if lines_ok(n as int, kind, k + 1, defined, a) {
                assert(line_at_most_one(n as int, kind, k as int, a));
                assert forall|j: int| 0 <= j < k implies (#[trigger] line_at_most_one(n as int, kind, j, a) && (defined ==> line_occupied(n as int, kind, j, a))) by {
                    assert(line_at_most_one(n as int, kind, j, a));
                }
            }
            if lines_ok(n as int, kind, k as int, defined, a) && line_at_most_one(n as int, kind, k as int, a) && (defined ==> line_occupied(n as int, kind, k as int, a)) {
                assert forall|j: int| 0 <= j < k + 1 implies (#[trigger] line_at_most_one(n as int, kind, j, a) && (defined ==> line_occupied(n as int, kind, j, a))) by {
                    if j < k {
                        assert(line_at_most_one(n as int, kind, j, a));
                    }
                }
            }
        }
        k = k + 1;
    }
}

} // verus!
