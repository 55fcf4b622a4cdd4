//! From a satisfying assignment to the placement it holds, and from a
//! placement to the formula that blocks it, or its whole orbit.
use vstd::prelude::*;
use vstd::set_lib::{lemma_int_range, lemma_len_subset, lemma_map_size, set_int_range};
use crate::formula::{
    all_hold, cells_within, clause_cells, clause_holds, clauses_within, lemma_all_hold_push, not_all, not_all_in, some_in, Cell, Clause, Formula,
};
use crate::constraints::one_in_row;
use crate::constraints::queens_ok;
use crate::lines::{before, line_at_most_one, line_occupied, on_board, on_line, LineKind};
use crate::symmetry::{
    all_on_board, image, is_image, lemma_sym_on_board, listed, orbit, same_cells, Symmetry,
};

verus! {

/// The cells that hold a queen under the assignment `m`, given as one row of
/// values per board row.
pub open spec fn model_set(m: Seq<Vec<bool>>) -> Set<Cell> {
    Set::new(|c: Cell| on_board(m.len() as int, c) && m[c.0 as int]@[c.1 as int])
}

/// `m` gives a value to each cell of a square board.
pub open spec fn is_square(m: Seq<Vec<bool>>) -> bool {
    forall|r: int| 0 <= r < m.len() ==> (#[trigger] m[r])@.len() == m.len()
}

/// The placement that an assignment holds: the cells whose value is true, in
/// row-major order.
pub fn extract_placement(model: &Vec<Vec<bool>>) -> (q: Vec<Cell>)
    requires
        is_square(model@),
    ensures
        forall|c: Cell| #[trigger] q@.contains(c) == model_set(model@).contains(c),
        forall|i: int, j: int| 0 <= i < j < q@.len() ==> before(#[trigger] q@[i], #[trigger] q@[j]),
        all_on_board(model@.len() as int, q@),
        (forall|r: usize| 0 <= r < model@.len() ==> #[trigger] one_in_row(model@.len() as int, model_set(model@), r))
            ==> q@.len() == model@.len(),
{
    let n = model.len();
    let ghost rows_one = forall|r: usize| 0 <= r < n ==> #[trigger] one_in_row(n as int, model_set(model@), r);
    let mut q: Vec<Cell> = Vec::new();
    let mut r: usize = 0;
    while r < n
        invariant
            n == model@.len(),
            is_square(model@),
            r <= n,
            all_on_board(n as int, q@),
            forall|i: int| 0 <= i < q@.len() ==> (#[trigger] q@[i]).0 < r,
            forall|i: int| 0 <= i < q@.len() ==> model_set(model@).contains(#[trigger] q@[i]),
            forall|x: Cell| model_set(model@).contains(x) && x.0 < r ==> #[trigger] q@.contains(x),
            forall|i: int, j: int| 0 <= i < j < q@.len() ==> before(#[trigger] q@[i], #[trigger] q@[j]),
            rows_one == (forall|r: usize| 0 <= r < n ==> #[trigger] one_in_row(n as int, model_set(model@), r)),
            rows_one ==> q@.len() == r,
        decreases n - r,
    {
        assert(model@[r as int]@.len() == n);
        let mut c: usize = 0;
        while c < n
            invariant
                n == model@.len(),
                is_square(model@),
                r < n,
                c <= n,
                model@[r as int]@.len() == n,
                all_on_board(n as int, q@),
                forall|i: int| 0 <= i < q@.len() ==> before(#[trigger] q@[i], (r, c)),
                forall|i: int| 0 <= i < q@.len() ==> model_set(model@).contains(#[trigger] q@[i]),
                forall|x: Cell| model_set(model@).contains(x) && before(x, (r, c)) ==> #[trigger] q@.contains(x),
                forall|i: int, j: int| 0 <= i < j < q@.len() ==> before(#[trigger] q@[i], #[trigger] q@[j]),
                rows_one == (forall|r: usize| 0 <= r < n ==> #[trigger] one_in_row(n as int, model_set(model@), r)),
                rows_one ==> q@.len() == r + (if (exists|d: usize| d < c && #[trigger] model_set(model@).contains((r, d))) { 1int } else { 0int }),
            decreases n - c,
        {
            if model[r][c] {
                let ghost old_q = q@;
                proof {
                    if rows_one {
                        assert(one_in_row(n as int, model_set(model@), r));
                        assert(model_set(model@).contains((r, c)));
                        assert(!exists|d: usize| d < c && #[trigger] model_set(model@).contains((r, d)));
                    }
                }
                q.push((r, c));
                assert(model_set(model@).contains((r, c)));
                assert forall|x: Cell| model_set(model@).contains(x) && before(x, (r, (c + 1) as usize)) implies #[trigger] q@.contains(x) by {
                    if x == (r, c) {
                        assert(q@[old_q.len() as int] == x);
                    } else {
                        assert(old_q.contains(x));
                        let i = choose|i: int| 0 <= i < old_q.len() && old_q[i] == x;
                        assert(q@[i] == x);
                    }
                }
            } else {
                assert forall|x: Cell| model_set(model@).contains(x) && before(x, (r, (c + 1) as usize)) implies #[trigger] q@.contains(x) by {
                    assert(x != (r, c));
                }
            }
            c = c + 1;
        }
        proof {
            if rows_one {
                assert(one_in_row(n as int, model_set(model@), r));
            }
        }
        r = r + 1;
    }
    assert forall|x: Cell| #[trigger] q@.contains(x) == model_set(model@).contains(x) by {
        if q@.contains(x) {
            let i = choose|i: int| 0 <= i < q@.len() && q@[i] == x;
            assert(model_set(model@).contains(q@[i]));
        }
    }
    q
}

/// The value that the assignment `model` gives to a cell; a cell off the board is false.
pub fn cell_value(model: &Vec<Vec<bool>>, c: Cell) -> (b: bool)
    requires
        is_square(model@),
    ensures
        b == model_set(model@).contains(c),
{
    let (r, k) = c;
    if r < model.len() && k < model.len() {
        assert(model@[r as int]@.len() == model@.len());
        model[r][k]
    } else {
        false
    }
}

fn some_value(cells: &Vec<Cell>, model: &Vec<Vec<bool>>) -> (b: bool)
    requires
        is_square(model@),
    ensures
        b == some_in(cells@, model_set(model@)),
{
    let mut i: usize = 0;
    while i < cells.len()
        invariant
            is_square(model@),
            i <= cells@.len(),
            forall|j: int| 0 <= j < i ==> !#[trigger] model_set(model@).contains(cells@[j]),
        decreases cells@.len() - i,
    {
        if cell_value(model, cells[i]) {
            return true;
        }
        i = i + 1;
    }
    false
}

fn not_all_value(cells: &Vec<Cell>, model: &Vec<Vec<bool>>) -> (b: bool)
    requires
        is_square(model@),
    ensures
        b == not_all_in(cells@, model_set(model@)),
{
    let mut i: usize = 0;
    while i < cells.len()
        invariant
            is_square(model@),
            i <= cells@.len(),
            forall|j: int| 0 <= j < i ==> #[trigger] model_set(model@).contains(cells@[j]),
        decreases cells@.len() - i,
    {
        if !cell_value(model, cells[i]) {
            return true;
        }
        i = i + 1;
    }
    false
}

fn clause_value(cl: &Clause, model: &Vec<Vec<bool>>) -> (b: bool)
    requires
        is_square(model@),
    ensures
        b == clause_holds(*cl, model_set(model@)),
{
    match cl {
        Clause::AnyOf(cells) => some_value(cells, model),
        Clause::NotAll(cells) => not_all_value(cells, model),
    }
}

impl Formula {
    /// Whether the formula holds under the assignment `model`.
    pub fn evaluate(&self, model: &Vec<Vec<bool>>) -> (b: bool)
        requires
            is_square(model@),
        ensures
            b == self.holds(model_set(model@)),
    {
        let mut k: usize = 0;
        while k < self.clauses.len()
            invariant
                is_square(model@),
                k <= self.clauses@.len(),
                forall|j: int| 0 <= j < k ==> #[trigger] clause_holds(self.clauses@[j], model_set(model@)),
            decreases self.clauses@.len() - k,
        {
            if !clause_value(&self.clauses[k], model) {
                return false;
            }
            k = k + 1;
        }
        true
    }
}

/// What the blocking formula of placement `q` on the `n`-by-`n` board says
/// of `a`: not every cell of `q` holds a queen, and, where `unique`, the same
/// of every placement that a symmetry makes of `q`.
pub open spec fn blocks(unique: bool, n: int, q: Seq<Cell>, a: Set<Cell>) -> bool {
    if unique {
        forall|s: Symmetry| #[trigger] not_all_in(image(s, n, q), a)
    } else {
        not_all_in(q, a)
    }
}

pub proof fn lemma_same_cells_not_all(x: Seq<Cell>, y: Seq<Cell>, a: Set<Cell>)
    requires
        same_cells(x, y),
    ensures
        not_all_in(x, a) == not_all_in(y, a),
{
    if not_all_in(x, a) {
        let i = choose|i: int| 0 <= i < x.len() && !#[trigger] a.contains(x[i]);
        assert(y.contains(x[i]));
        let j = choose|j: int| 0 <= j < y.len() && y[j] == x[i];
        assert(!a.contains(y[j]));
    }
    if not_all_in(y, a) {
        let j = choose|j: int| 0 <= j < y.len() && !#[trigger] a.contains(y[j]);
        assert(x.contains(y[j]));
        let i = choose|i: int| 0 <= i < x.len() && x[i] == y[j];
        assert(!a.contains(x[i]));
    }
}

/// The formula that blocks the placement `queens` of `queens.len()` queens:
/// where `unique`, one clause for each member of its orbit, else one clause
/// for the placement alone.
pub fn blocking_formula(unique: bool, queens: &Vec<Cell>) -> (f: Formula)
    requires
        all_on_board(queens@.len() as int, queens@),
    ensures
        forall|a: Set<Cell>| #[trigger] f.holds(a) == blocks(unique, queens@.len() as int, queens@, a),
        f.within(queens@.len() as int),
{
    let len = queens.len();
    let ghost n = len as int;
    let mut clauses: Vec<Clause> = Vec::new();
    if !unique {
        let mut cells: Vec<Cell> = Vec::new();
        let mut i: usize = 0;
        while i < len
            invariant
                len == queens@.len(),
                i <= len,
                cells@ =~= queens@.subrange(0, i as int),
            decreases len - i,
        {
            cells.push(queens[i]);
            i = i + 1;
        }
        assert(cells@ =~= queens@);
        let cl = not_all(cells);
        clauses.push(cl);
        assert forall|a: Set<Cell>| #[trigger] all_hold(clauses@, a) == blocks(unique, n, queens@, a) by {
            lemma_all_hold_push(Seq::empty(), cl, a);
            assert(clauses@ =~= Seq::<Clause>::empty().push(cl));
        }
        assert(clauses@[0] == cl);
        assert(cells_within(n, clause_cells(clauses@[0])));
        return Formula { clauses };
    }
    let members = orbit(queens);
    let mut i: usize = 0;
    while i < members.len()
        invariant
            n == queens@.len(),
            i <= members@.len(),
            forall|a: Set<Cell>| #[trigger] all_hold(clauses@, a) == (forall|j: int| 0 <= j < i ==> #[trigger] not_all_in(members@[j]@, a)),
            forall|j: int| 0 <= j < members@.len() ==> is_image(n, queens@, #[trigger] members@[j]@),
            all_on_board(n, queens@),
            n <= usize::MAX,
            clauses_within(n, clauses@),
        decreases members@.len() - i,
    {
        let mut cells: Vec<Cell> = Vec::new();
        let m = &members[i];
        let mut k: usize = 0;
        while k < m.len()
            invariant
                k <= m@.len(),
                cells@ =~= m@.subrange(0, k as int),
            decreases m@.len() - k,
        {
            cells.push(m[k]);
            k = k + 1;
        }
        assert(cells@ =~= members@[i as int]@);
        assert(cells_within(n, cells@)) by {
            assert(is_image(n, queens@, members@[i as int]@));
            let s = choose|s: Symmetry| members@[i as int]@ == #[trigger] image(s, n, queens@);
            assert forall|j: int| 0 <= j < cells@.len() implies (#[trigger] cells@[j]).0 < n && cells@[j].1 < n by {
                lemma_sym_on_board(s, n, queens@[j]);
            }
        }
        let ghost before_push = clauses@;
        let cl = not_all(cells);
        clauses.push(cl);
        assert forall|a: Set<Cell>| #[trigger] all_hold(clauses@, a) == (forall|j: int| 0 <= j < i + 1 ==> #[trigger] not_all_in(members@[j]@, a)) by {
            lemma_all_hold_push(before_push, cl, a);
        }
        assert forall|k: int| 0 <= k < clauses@.len() implies cells_within(n, clause_cells(#[trigger] clauses@[k])) by {
            if k < before_push.len() {
                assert(clauses@[k] == before_push[k]);
            }
        }
        i = i + 1;
    }
    assert forall|a: Set<Cell>| #[trigger] all_hold(clauses@, a) == blocks(unique, n, queens@, a) by {
        if all_hold(clauses@, a) {
            assert forall|s: Symmetry| #[trigger] not_all_in(image(s, n, queens@), a) by {
                assert(listed(members@, image(s, n, queens@)));
                let j = choose|j: int| 0 <= j < members@.len() && #[trigger] same_cells(members@[j]@, image(s, n, queens@));
                assert(not_all_in(members@[j]@, a));
                lemma_same_cells_not_all(members@[j]@, image(s, n, queens@), a);
            }
        }
        if blocks(unique, n, queens@, a) {
            assert forall|j: int| 0 <= j < members@.len() implies #[trigger] not_all_in(members@[j]@, a) by {
                assert(is_image(n, queens@, members@[j]@));
                let s = choose|s: Symmetry| members@[j]@ == #[trigger] image(s, n, queens@);
                assert(not_all_in(image(s, n, queens@), a));
            }
        }
    }
    Formula { clauses }
}

/// Every cell of `x` holds a queen under `a`.
pub open spec fn all_in(x: Seq<Cell>, a: Set<Cell>) -> bool {
    forall|i: int| 0 <= i < x.len() ==> #[trigger] a.contains(x[i])
}

/// Blocking law: an assignment under which the blocking formula of `q` holds
/// does not hold every queen of `q`, nor, where `unique`, every queen of any
/// placement that a symmetry makes of `q`.
pub proof fn law_blocked_never_again(unique: bool, q: Seq<Cell>, a: Set<Cell>)
    requires
        blocks(unique, q.len() as int, q, a),
    ensures
        !all_in(q, a),
        unique ==> forall|s: Symmetry| !#[trigger] all_in(image(s, q.len() as int, q), a),
{
    let n = q.len() as int;
    if unique {
        assert(not_all_in(image(Symmetry::Identity, n, q), a));
        let i = choose|i: int| 0 <= i < q.len() && !#[trigger] a.contains(image(Symmetry::Identity, n, q)[i]);
        assert(image(Symmetry::Identity, n, q)[i] == q[i]);
        assert forall|s: Symmetry| !#[trigger] all_in(image(s, n, q), a) by {
            assert(not_all_in(image(s, n, q), a));
        }
    }
}

/// On the one-cell board, the blocking formula of any placement on the board
/// excludes every solution of the placement problem.
pub proof fn law_single_cell_blocked(unique: bool, q: Seq<Cell>, a: Set<Cell>)
    requires
        all_on_board(1, q),
        queens_ok(1, a),
    ensures
        !blocks(unique, 1, q, a),
{
    assert(line_at_most_one(1, LineKind::Row, 0, a));
    assert(line_occupied(1, LineKind::Row, 0, a));
    let x = choose|x: Cell| on_line(1, LineKind::Row, 0, x) && #[trigger] a.contains(x);
    assert(x == (0usize, 0usize));
    assert forall|i: int| 0 <= i < q.len() implies #[trigger] a.contains(q[i]) by {
        assert(on_board(1, q[i]));
        assert(q[i] == (0usize, 0usize));
    }
    if unique {
        let id = image(Symmetry::Identity, 1, q);
        assert forall|i: int| 0 <= i < id.len() implies #[trigger] a.contains(id[i]) by {
            assert(id[i] == q[i]);
        }
        assert(!not_all_in(id, a));
    }
}

proof fn lemma_row_match(n: int, p: Seq<Cell>, q: Seq<Cell>, x: Cell)
    requires
        queens_ok(n, p.to_set()),
        queens_ok(n, q.to_set()),
        all_in(p, q.to_set()),
        on_board(n, x),
        q.to_set().contains(x),
    ensures
        p.to_set().contains(x),
{
    let k = x.0 as int;
    assert(line_at_most_one(n, LineKind::Row, k, p.to_set()));
    assert(line_occupied(n, LineKind::Row, k, p.to_set()));
    let y = choose|y: Cell| on_line(n, LineKind::Row, k, y) && #[trigger] p.to_set().contains(y);
    let i = choose|i: int| 0 <= i < p.len() && p[i] == y;
    assert(q.to_set().contains(p[i]));
    assert(line_at_most_one(n, LineKind::Row, k, q.to_set()));
    assert(on_line(n, LineKind::Row, k, x));
}

/// Symmetry bound: take the placements of a session that folds symmetry,
/// each a solution and none blocked by one found before it, and those of a
/// session that does not fold, which leave no solution unblocked. There are
/// no more of the first than of the second.
pub proof fn law_folded_count_at_most_raw(n: int, raw: Seq<Seq<Cell>>, folded: Seq<Seq<Cell>>)
    requires
        forall|i: int| 0 <= i < raw.len() ==> queens_ok(n, (#[trigger] raw[i]).to_set()),
        forall|j: int| 0 <= j < folded.len() ==> queens_ok(n, (#[trigger] folded[j]).to_set()),
        forall|j: int| 0 <= j < folded.len() ==> all_on_board(n, #[trigger] folded[j]),
        forall|j: int, k: int| 0 <= j < k < folded.len() ==>
            blocks(true, n, #[trigger] folded[j], (#[trigger] folded[k]).to_set()),
        forall|a: Set<Cell>| queens_ok(n, a) ==>
            exists|i: int| 0 <= i < raw.len() && !#[trigger] blocks(false, n, raw[i], a),
    ensures
        folded.len() <= raw.len(),
{
    let f = |j: int| choose|i: int| 0 <= i < raw.len() && !#[trigger] blocks(false, n, raw[i], folded[j].to_set());
    let x = set_int_range(0, folded.len() as int);
    let y = x.map(f);
    assert forall|j: int| #[trigger] x.contains(j) implies 0 <= f(j) < raw.len()
        && all_in(raw[f(j)], folded[j].to_set()) by {
        assert(queens_ok(n, folded[j].to_set()));
    }
    assert forall|j1: int, j2: int| #[trigger] x.contains(j1) && #[trigger] x.contains(j2) && f(j1) == f(j2)
        implies j1 == j2 by {
        if j1 != j2 {
            let (lo, hi) = if j1 < j2 { (j1, j2) } else { (j2, j1) };
            let p = raw[f(j1)];
            assert(all_in(p, folded[lo].to_set()));
            assert(all_in(p, folded[hi].to_set()));
            assert forall|t: int| 0 <= t < folded[lo].len() implies #[trigger] folded[hi].to_set().contains(folded[lo][t]) by {
                assert(on_board(n, folded[lo][t]));
                assert(folded[lo].to_set().contains(folded[lo][t]));
                lemma_row_match(n, p, folded[lo], folded[lo][t]);
                let u = choose|u: int| 0 <= u < p.len() && p[u] == folded[lo][t];
                assert(folded[hi].to_set().contains(p[u]));
            }
            let id = image(Symmetry::Identity, n, folded[lo]);
            assert(blocks(true, n, folded[lo], folded[hi].to_set()));
            assert(not_all_in(id, folded[hi].to_set()));
            let t = choose|t: int| 0 <= t < id.len() && !#[trigger] folded[hi].to_set().contains(id[t]);
            assert(id[t] == folded[lo][t]);
        }
    }
    lemma_int_range(0, folded.len() as int);
    lemma_map_size(x, y, f);
    assert(y.subset_of(set_int_range(0, raw.len() as int)));
    lemma_int_range(0, raw.len() as int);
    lemma_len_subset(y, set_int_range(0, raw.len() as int));
}

} // verus!
