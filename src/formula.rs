//! Constraint formulas over the board's cell atoms, and what they mean.
use vstd::prelude::*;

verus! {

/// A board coordinate, `(row, column)`; it also names the boolean atom
/// "a queen stands on this cell".
pub type Cell = (usize, usize);

/// One conjunct of a constraint formula.
pub enum Clause {
    /// At least one of the cells holds a queen: the OR of their atoms.
    AnyOf(Vec<Cell>),
    /// Not all of the cells hold a queen: the NOT of the AND of their atoms.
    NotAll(Vec<Cell>),
}

/// A conjunction of clauses.
pub struct Formula {
    pub clauses: Vec<Clause>,
}

/// Whether a clause holds when exactly the cells of `a` hold queens.
pub open spec fn clause_holds(cl: Clause, a: Set<Cell>) -> bool {
    match cl {
        Clause::AnyOf(cells) => some_in(cells@, a),
        Clause::NotAll(cells) => not_all_in(cells@, a),
    }
}

/// Whether every clause of `cls` holds under `a`.
pub open spec fn all_hold(cls: Seq<Clause>, a: Set<Cell>) -> bool {
    forall|k: int| 0 <= k < cls.len() ==> #[trigger] clause_holds(cls[k], a)
}

impl Formula {
    /// Whether the formula holds when exactly the cells of `a` hold queens.
    pub open spec fn holds(&self, a: Set<Cell>) -> bool {
        all_hold(self.clauses@, a)
    }
}

/// The cells that a clause speaks of.
pub open spec fn clause_cells(cl: Clause) -> Seq<Cell> {
    match cl {
        Clause::AnyOf(cells) => cells@,
        Clause::NotAll(cells) => cells@,
    }
}

/// Every cell of `s` lies on the `n`-by-`n` board.
pub open spec fn cells_within(n: int, s: Seq<Cell>) -> bool {
    forall|i: int| 0 <= i < s.len() ==> (#[trigger] s[i]).0 < n && s[i].1 < n
}

/// Every clause of `cls` speaks only of cells of the `n`-by-`n` board.
pub open spec fn clauses_within(n: int, cls: Seq<Clause>) -> bool {
    forall|k: int| 0 <= k < cls.len() ==> cells_within(n, clause_cells(#[trigger] cls[k]))
}

impl Formula {
    /// The formula speaks only of cells of the `n`-by-`n` board.
    pub open spec fn within(&self, n: int) -> bool {
        clauses_within(n, self.clauses@)
    }
}

/// No two distinct positions of `s` both hold queens under `a`.
pub open spec fn no_two_in(s: Seq<Cell>, a: Set<Cell>) -> bool {
    forall|i: int, j: int| 0 <= i < j < s.len() ==> !(#[trigger] a.contains(s[i]) && #[trigger] a.contains(s[j]))
}

/// Some position of `s` holds a queen under `a`.
pub open spec fn some_in(s: Seq<Cell>, a: Set<Cell>) -> bool {
    exists|i: int| 0 <= i < s.len() && #[trigger] a.contains(s[i])
}

/// Not every position of `s` holds a queen under `a`.
pub open spec fn not_all_in(s: Seq<Cell>, a: Set<Cell>) -> bool {
    exists|i: int| 0 <= i < s.len() && !#[trigger] a.contains(s[i])
}

pub proof fn lemma_all_hold_push(cls: Seq<Clause>, c: Clause, a: Set<Cell>)
    ensures
        all_hold(cls.push(c), a) == (all_hold(cls, a) && clause_holds(c, a)),
{
    if all_hold(cls.push(c), a) {
        assert(cls.push(c)[cls.len() as int] == c);
        assert forall|k: int| 0 <= k < cls.len() implies #[trigger] clause_holds(cls[k], a) by {
            assert(cls.push(c)[k] == cls[k]);
        }
    }
    if all_hold(cls, a) && clause_holds(c, a) {
        assert forall|k: int| 0 <= k < cls.push(c).len() implies #[trigger] clause_holds(
            cls.push(c)[k],
            a,
        ) by {
            if k < cls.len() {
                assert(cls.push(c)[k] == cls[k]);
            }
        }
    }
}

pub proof fn lemma_all_hold_concat(x: Seq<Clause>, y: Seq<Clause>, a: Set<Cell>)
    ensures
        all_hold(x + y, a) == (all_hold(x, a) && all_hold(y, a)),
{
    if all_hold(x + y, a) {
        assert forall|k: int| 0 <= k < x.len() implies #[trigger] clause_holds(x[k], a) by {
            assert((x + y)[k] == x[k]);
        }
        assert forall|k: int| 0 <= k < y.len() implies #[trigger] clause_holds(y[k], a) by {
            assert((x + y)[k + x.len()] == y[k]);
        }
    }
    if all_hold(x, a) && all_hold(y, a) {
        assert forall|k: int| 0 <= k < (x + y).len() implies #[trigger] clause_holds(
            (x + y)[k],
            a,
        ) by {
            if k < x.len() {
                assert((x + y)[k] == x[k]);
            } else {
                assert((x + y)[k] == y[k - x.len()]);
            }
        }
    }
}

/// The conjunction of two formulas: their clauses one after the other.
pub fn conjoin(f: Formula, g: Formula) -> (r: Formula)
    ensures
        forall|a: Set<Cell>| #[trigger] r.holds(a) == (f.holds(a) && g.holds(a)),
        forall|n: int| f.within(n) && g.within(n) ==> #[trigger] r.within(n),
{
    let mut clauses = f.clauses;
    let mut rest = g.clauses;
    let ghost x = clauses@;
    let ghost y = rest@;
    clauses.append(&mut rest);
    assert forall|a: Set<Cell>| #[trigger] all_hold(clauses@, a) == (all_hold(x, a) && all_hold(y, a)) by {
        lemma_all_hold_concat(x, y, a);
    }
    assert forall|n: int| clauses_within(n, x) && clauses_within(n, y) implies #[trigger] clauses_within(n, clauses@) by {
        assert forall|k: int| 0 <= k < clauses@.len() implies cells_within(n, clause_cells(#[trigger] clauses@[k])) by {
            if k < x.len() {
                assert(clauses@[k] == x[k]);
            } else {
                assert(clauses@[k] == y[k - x.len()]);
            }
        }
    }
    Formula { clauses }
}

/// The clause that at least one of `cells` holds a queen.
pub fn any_of(cells: Vec<Cell>) -> (r: Clause)
    ensures
        forall|a: Set<Cell>| #[trigger] clause_holds(r, a) == some_in(cells@, a),
        clause_cells(r) == cells@,
{
    Clause::AnyOf(cells)
}

/// The clause that not all of `cells` hold a queen.
pub fn not_all(cells: Vec<Cell>) -> (r: Clause)
    ensures
        forall|a: Set<Cell>| #[trigger] clause_holds(r, a) == not_all_in(cells@, a),
        clause_cells(r) == cells@,
{
    Clause::NotAll(cells)
}

/// The clause that `p` and `q` do not both hold a queen.
pub fn not_both(p: Cell, q: Cell) -> (r: Clause)
    ensures
        forall|a: Set<Cell>| #[trigger] clause_holds(r, a) == !(a.contains(p) && a.contains(q)),
        clause_cells(r) == seq![p, q],
{
    let mut v: Vec<Cell> = Vec::new();
    v.push(p);
    v.push(q);
    assert(v@ =~= seq![p, q]);
    let r = not_all(v);
    assert forall|a: Set<Cell>| #[trigger] clause_holds(r, a) == !(a.contains(p) && a.contains(q)) by {
        if !a.contains(p) {
            assert(!a.contains(v@[0]));
        } else if !a.contains(q) {
            assert(!a.contains(v@[1]));
        }
    }
    r
}

/// Appends to `out` one clause for each pair of positions of `cells`, saying
/// that the two do not both hold a queen.
pub fn push_at_most_one(cells: &Vec<Cell>, out: &mut Vec<Clause>)
    ensures
        forall|a: Set<Cell>| #[trigger] all_hold(final(out)@, a) == (all_hold(old(out)@, a) && no_two_in(cells@, a)),
        forall|n: int| clauses_within(n, old(out)@) && cells_within(n, cells@) ==> #[trigger] clauses_within(n, final(out)@),
{
    let ghost start = out@;
    let len = cells.len();
    let mut i: usize = 0;
    while i < len
        invariant
            len == cells@.len(),
            i <= len,
            forall|n: int| clauses_within(n, start) && cells_within(n, cells@) ==> #[trigger] clauses_within(n, out@),
            forall|a: Set<Cell>| #[trigger] all_hold(out@, a) == (all_hold(start, a) && (forall|p: int, q: int|
                0 <= p < q < len && p < i ==> !(#[trigger] a.contains(cells@[p]) && #[trigger] a.contains(cells@[q])))),
        decreases len - i,
    {
        let mut j: usize = i + 1;
        while j < len
            invariant
                len == cells@.len(),
                i < len,
                i + 1 <= j <= len,
                forall|n: int| clauses_within(n, start) && cells_within(n, cells@) ==> #[trigger] clauses_within(n, out@),
                forall|a: Set<Cell>| #[trigger] all_hold(out@, a) == (all_hold(start, a) && (forall|p: int, q: int|
                    0 <= p < q < len && (p < i || (p == i && q < j)) ==> !(#[trigger] a.contains(cells@[p]) && #[trigger] a.contains(cells@[q])))),
            decreases len - j,
        {
            let c = not_both(cells[i], cells[j]);
            let ghost before = out@;
            out.push(c);
            assert forall|a: Set<Cell>| #[trigger] all_hold(out@, a) == (all_hold(start, a) && (forall|p: int, q: int|
                0 <= p < q < len && (p < i || (p == i && q < j + 1)) ==> !(#[trigger] a.contains(cells@[p]) && #[trigger] a.contains(cells@[q])))) by {
                lemma_all_hold_push(before, c, a);
            }
            assert forall|n: int| clauses_within(n, start) && cells_within(n, cells@) implies #[trigger] clauses_within(n, out@) by {
                assert(clauses_within(n, before));
                assert forall|k: int| 0 <= k < out@.len() implies cells_within(n, clause_cells(#[trigger] out@[k])) by {
                    if k < before.len() {
                        assert(out@[k] == before[k]);
                    } else {
                        assert(cells@[i as int] == clause_cells(out@[k])[0]);
                        assert(cells@[j as int] == clause_cells(out@[k])[1]);
                    }
                }
            }
            j = j + 1;
        }
        i = i + 1;
    }
}

} // verus!
