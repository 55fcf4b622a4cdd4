//! A session with the z3 solver: the board's atoms, formulas turned into
//! solver terms, and the check, decode and block loop.
use vstd::prelude::*;
use z3::ast::Bool;
use z3::{Config, Context, Model, SatResult, Solver};
use crate::constraints::{law_no_placement_on_two_or_three, queens_ok};
use crate::decode::{blocks, law_single_cell_blocked};
use crate::enumerate::{EnumError, Enumerator, Step, Verdict};
use crate::formula::{
    cells_within, clause_cells, clause_holds, not_all_in, some_in, Cell, Clause, Formula,
};
use crate::lines::MAX_SIZE;
use crate::symmetry::all_on_board;

verus! {

#[verifier::external_type_specification]
#[verifier::external_body]
pub struct ExConfig(z3::Config);

#[verifier::external_type_specification]
#[verifier::external_body]
pub struct ExContext(z3::Context);

#[verifier::external_type_specification]
#[verifier::external_body]
pub struct ExSolver<'ctx>(z3::Solver<'ctx>);

#[verifier::external_type_specification]
#[verifier::external_body]
pub struct ExBool<'ctx>(z3::ast::Bool<'ctx>);

#[verifier::external_type_specification]
#[verifier::external_body]
pub struct ExModel<'ctx>(z3::Model<'ctx>);

/// The solver's answer to a satisfiability check.
enum Answer {
    Sat,
    Unsat,
    Unknown,
}

/// Relies on z3::Config::new: a configuration with default settings.
#[verifier::external_body]
fn new_config() -> Config {
    Config::new()
}

/// Relies on z3::Context::new: a fresh context for the configuration.
#[verifier::external_body]
fn new_context(cfg: &Config) -> Context {
    Context::new(cfg)
}

/// A solver term, with what it means: the sets of queen cells under which
/// it is true, reading the atom named `(r,c)` as "a queen stands on `(r, c)`".
/// Only the builders below set the meaning.
pub struct Term<'ctx> {
    term: Bool<'ctx>,
    meaning: Ghost<spec_fn(Set<Cell>) -> bool>,
}

impl<'ctx> Term<'ctx> {
    /// The sets of queen cells under which the term is true.
    pub closed spec fn meaning(&self) -> spec_fn(Set<Cell>) -> bool {
        self.meaning@
    }
}

/// Relies on z3::ast::Bool::new_const: the boolean constant named `(r,c)`.
/// Constants of distinct names are distinct, so the atom stands for its cell alone.
#[verifier::external_body]
fn cell_atom<'ctx>(ctx: &'ctx Context, r: usize, c: usize) -> (t: Term<'ctx>)
    ensures
        t.meaning() == (|a: Set<Cell>| a.contains((r, c))),
{
    Term { term: Bool::new_const(ctx, format!("({},{})", r, c)), meaning: Ghost(|a: Set<Cell>| a.contains((r, c))) }
}

/// Relies on z3::ast::Bool::from_bool: the constant term true or false.
#[verifier::external_body]
fn constant<'ctx>(ctx: &'ctx Context, b: bool) -> (t: Term<'ctx>)
    ensures
        t.meaning() == (|a: Set<Cell>| b),
{
    Term { term: Bool::from_bool(ctx, b), meaning: Ghost(|a: Set<Cell>| b) }
}

/// Relies on z3::ast::Bool::clone: the same term.
#[verifier::external_body]
fn copy_term<'ctx>(t: &Term<'ctx>) -> (r: Term<'ctx>)
    ensures
        r.meaning() == t.meaning(),
{
    Term { term: t.term.clone(), meaning: Ghost(t.meaning@) }
}

/// Some term of `ts` is true under `a`.
pub open spec fn some_true<'ctx>(ts: Seq<Term<'ctx>>, k: int, a: Set<Cell>) -> bool {
    exists|i: int| 0 <= i < k && (#[trigger] ts[i]).meaning()(a)
}

/// The first `k` terms of `ts` are all true under `a`.
pub open spec fn all_true<'ctx>(ts: Seq<Term<'ctx>>, k: int, a: Set<Cell>) -> bool {
    forall|i: int| 0 <= i < k ==> (#[trigger] ts[i]).meaning()(a)
}

/// Relies on z3::ast::Bool::or: the disjunction of the terms. It asserts that
/// there are at most `u32::MAX` of them.
#[verifier::external_body]
fn or_all<'ctx>(ctx: &'ctx Context, ts: &Vec<Term<'ctx>>) -> (t: Term<'ctx>)
    requires
        ts@.len() <= 0xffff_ffff,
    ensures
        forall|a: Set<Cell>| #[trigger] t.meaning()(a) == some_true(ts@, ts@.len() as int, a),
{
    let refs: Vec<&Bool<'ctx>> = ts.iter().map(|x| &x.term).collect();
    Term { term: Bool::or(ctx, &refs), meaning: Ghost(|a: Set<Cell>| some_true(ts@, ts@.len() as int, a)) }
}

/// Relies on z3::ast::Bool::and: the conjunction of the terms. It asserts
/// that there are at most `u32::MAX` of them.
#[verifier::external_body]
fn and_all<'ctx>(ctx: &'ctx Context, ts: &Vec<Term<'ctx>>) -> (t: Term<'ctx>)
    requires
        ts@.len() <= 0xffff_ffff,
    ensures
        forall|a: Set<Cell>| #[trigger] t.meaning()(a) == all_true(ts@, ts@.len() as int, a),
{
    let refs: Vec<&Bool<'ctx>> = ts.iter().map(|x| &x.term).collect();
    Term { term: Bool::and(ctx, &refs), meaning: Ghost(|a: Set<Cell>| all_true(ts@, ts@.len() as int, a)) }
}

/// Relies on z3::ast::Bool::not: the negation of the term.
#[verifier::external_body]
fn negate<'ctx>(t: &Term<'ctx>) -> (r: Term<'ctx>)
    ensures
        forall|a: Set<Cell>| #[trigger] r.meaning()(a) == !t.meaning()(a),
{
    Term { term: t.term.not(), meaning: Ghost(|a: Set<Cell>| !t.meaning@(a)) }
}

/// A solver, with the meanings of the terms asserted into it so far.
/// Only the wrappers below change that record.
pub struct Session<'ctx> {
    solver: Solver<'ctx>,
    asserted: Ghost<Seq<spec_fn(Set<Cell>) -> bool>>,
}

impl<'ctx> Session<'ctx> {
    /// The meanings of the terms asserted so far, in order.
    pub closed spec fn asserted(&self) -> Seq<spec_fn(Set<Cell>) -> bool> {
        self.asserted@
    }
}

/// Every meaning of `ms` is true of `a`.
pub open spec fn all_hold_of(ms: Seq<spec_fn(Set<Cell>) -> bool>, a: Set<Cell>) -> bool {
    forall|i: int| 0 <= i < ms.len() ==> #[trigger] ms[i](a)
}

/// Relies on z3::Solver::new: an empty solver in the context.
#[verifier::external_body]
fn new_session<'ctx>(ctx: &'ctx Context) -> (s: Session<'ctx>)
    ensures
        s.asserted() == Seq::<spec_fn(Set<Cell>) -> bool>::empty(),
{
    Session { solver: Solver::new(ctx), asserted: Ghost(Seq::empty()) }
}

/// Relies on z3::Solver::push: opens a scope on the solver's assertion stack;
/// what is asserted stays.
#[verifier::external_body]
fn push_scope<'ctx>(s: &Session<'ctx>) {
    s.solver.push()
}

/// Relies on z3::Solver::assert: adds the term to the solver's assertions.
#[verifier::external_body]
fn assert_term<'ctx>(s: &mut Session<'ctx>, t: &Term<'ctx>)
    ensures
        final(s).asserted() == old(s).asserted().push(t.meaning()),
{
    s.solver.assert(&t.term);
    s.asserted = Ghost(s.asserted@.push(t.meaning@));
}

/// Relies on z3::Solver::check: whether the assertions are satisfiable. An
/// `Unsat` answer means that no assignment of the atoms satisfies them all,
/// so no set of queen cells makes every asserted meaning true.
#[verifier::external_body]
fn check<'ctx>(s: &Session<'ctx>) -> (r: Answer)
    ensures
        r is Unsat ==> forall|a: Set<Cell>| !#[trigger] all_hold_of(s.asserted(), a),
{
    match s.solver.check() {
        SatResult::Sat => Answer::Sat,
        SatResult::Unsat => Answer::Unsat,
        SatResult::Unknown => Answer::Unknown,
    }
}

/// Relies on z3::Solver::get_model: the model of the last satisfiable check, if any.
#[verifier::external_body]
fn model_of<'ctx>(s: &Session<'ctx>) -> Option<Model<'ctx>> {
    s.solver.get_model()
}

/// Relies on z3::Model::eval: the term's value in the model, if it has one.
#[verifier::external_body]
fn eval_in<'ctx>(model: &Model<'ctx>, t: &Term<'ctx>) -> Option<Bool<'ctx>> {
    model.eval(&t.term)
}

/// Relies on z3::ast::Bool::as_bool: the truth value of a constant term.
#[verifier::external_body]
fn truth<'ctx>(t: &Bool<'ctx>) -> Option<bool> {
    t.as_bool()
}

/// The board's atoms, one per cell, row by row: the atom at `(r, c)` is true
/// exactly where a queen stands on `(r, c)`.
pub open spec fn is_board<'ctx>(n: int, board: Seq<Vec<Term<'ctx>>>) -> bool {
    &&& board.len() == n
    &&& forall|r: int| 0 <= r < n ==> (#[trigger] board[r])@.len() == n
    &&& forall|r: int, c: int| 0 <= r < n && 0 <= c < n ==>
        (#[trigger] board[r]@[c]).meaning() == (|a: Set<Cell>| a.contains((r as usize, c as usize)))
}

/// Allocates the `n * n` atoms of the board, each named by its coordinates.
fn encode_board<'ctx>(n: usize, ctx: &'ctx Context) -> (board: Vec<Vec<Term<'ctx>>>)
    ensures
        is_board(n as int, board@),
{
    let mut board: Vec<Vec<Term<'ctx>>> = Vec::new();
    let mut r: usize = 0;
    while r < n
        invariant
            r <= n,
            board@.len() == r,
            forall|i: int| 0 <= i < r ==> (#[trigger] board@[i])@.len() == n,
            forall|i: int, c: int| 0 <= i < r && 0 <= c < n ==>
                (#[trigger] board@[i]@[c]).meaning() == (|a: Set<Cell>| a.contains((i as usize, c as usize))),
        decreases n - r,
    {
        let mut row: Vec<Term<'ctx>> = Vec::new();
        let mut c: usize = 0;
        while c < n
            invariant
                c <= n,
                row@.len() == c,
                forall|j: int| 0 <= j < c ==>
                    (#[trigger] row@[j]).meaning() == (|a: Set<Cell>| a.contains((r, j as usize))),
            decreases n - c,
        {
            row.push(cell_atom(ctx, r, c));
            c = c + 1;
        }
        let ghost before = board@;
        board.push(row);
        assert forall|i: int, c: int| 0 <= i < r + 1 && 0 <= c < n implies
            (#[trigger] board@[i]@[c]).meaning() == (|a: Set<Cell>| a.contains((i as usize, c as usize))) by {
            if i < r {
                assert(board@[i] == before[i]);
            } else {
                assert(board@[i]@[c] == row@[c]);
            }
        }
        r = r + 1;
    }
    board
}

/// The largest number of terms handed to one call of `and_all` or `or_all`.
const CHUNK: usize = 65536;

/// The conjunction (where `conj`) or the disjunction of the terms, made of
/// calls on at most `CHUNK` terms each.
fn combine<'ctx>(ctx: &'ctx Context, ts: &Vec<Term<'ctx>>, conj: bool) -> (t: Term<'ctx>)
    ensures
        forall|a: Set<Cell>| #[trigger] t.meaning()(a) == if conj {
            all_true(ts@, ts@.len() as int, a)
        } else {
            some_true(ts@, ts@.len() as int, a)
        },
{
    let len = ts.len();
    let mut acc = constant(ctx, conj);
    let mut k: usize = 0;
    while k < len
        invariant
            len == ts@.len(),
            k <= len,
            forall|a: Set<Cell>| #[trigger] acc.meaning()(a) == if conj {
                all_true(ts@, k as int, a)
            } else {
                some_true(ts@, k as int, a)
            },
        decreases len - k,
    {
        let end = if len - k > CHUNK { k + CHUNK } else { len };
        let mut chunk: Vec<Term<'ctx>> = Vec::new();
        let mut j: usize = k;
        while j < end
            invariant
                k <= j <= end <= len,
                len == ts@.len(),
                end - k <= CHUNK,
                chunk@.len() == j - k,
                forall|i: int| 0 <= i < chunk@.len() ==> (#[trigger] chunk@[i]).meaning() == ts@[k + i].meaning(),
            decreases end - j,
        {
            chunk.push(copy_term(&ts[j]));
            j = j + 1;
        }
        let part = if conj { and_all(ctx, &chunk) } else { or_all(ctx, &chunk) };
        let mut pair: Vec<Term<'ctx>> = Vec::new();
        pair.push(acc);
        pair.push(part);
        let ghost p = pair@;
        acc = if conj { and_all(ctx, &pair) } else { or_all(ctx, &pair) };
        assert forall|a: Set<Cell>| #[trigger] acc.meaning()(a) == if conj {
            all_true(ts@, end as int, a)
        } else {
            some_true(ts@, end as int, a)
        } by {
            if conj {
                assert(all_true(p, 2, a) == (p[0].meaning()(a) && p[1].meaning()(a)));
                if all_true(ts@, end as int, a) {
                    assert forall|i: int| 0 <= i < chunk@.len() implies (#[trigger] chunk@[i]).meaning()(a) by {
                        assert(ts@[k + i].meaning()(a));
                    }
                }
                if all_true(ts@, k as int, a) && all_true(chunk@, chunk@.len() as int, a) {
                    assert forall|i: int| 0 <= i < end implies (#[trigger] ts@[i]).meaning()(a) by {
                        if i >= k {
                            assert(chunk@[i - k].meaning()(a));
                        }
                    }
                }
            } else {
                if some_true(p, 2, a) {
                    let i = choose|i: int| 0 <= i < 2 && (#[trigger] p[i]).meaning()(a);
                    assert(i == 0 || i == 1);
                    if i == 1 {
                        let x = choose|x: int| 0 <= x < chunk@.len() && (#[trigger] chunk@[x]).meaning()(a);
                        assert(ts@[k + x].meaning()(a));
                    }
                }
                if some_true(ts@, end as int, a) {
                    let i = choose|i: int| 0 <= i < end && (#[trigger] ts@[i]).meaning()(a);
                    if i < k {
                        assert(p[0].meaning()(a));
                    } else {
                        assert(chunk@[i - k].meaning()(a));
                        assert(p[1].meaning()(a));
                    }
                }
            }
        }
        k = end;
    }
    acc
}

/// The solver term of a clause over the board's atoms.
fn clause_term<'ctx>(ctx: &'ctx Context, board: &Vec<Vec<Term<'ctx>>>, cl: &Clause) -> (t: Term<'ctx>)
    requires
        is_board(board@.len() as int, board@),
        cells_within(board@.len() as int, clause_cells(*cl)),
    ensures
        forall|a: Set<Cell>| #[trigger] t.meaning()(a) == clause_holds(*cl, a),
{
    let (cells, any) = match cl {
        Clause::AnyOf(cells) => (cells, true),
        Clause::NotAll(cells) => (cells, false),
    };
    let mut atoms: Vec<Term<'ctx>> = Vec::new();
    let mut i: usize = 0;
    while i < cells.len()
        invariant
            is_board(board@.len() as int, board@),
            cells_within(board@.len() as int, cells@),
            i <= cells@.len(),
            atoms@.len() == i,
            forall|j: int| 0 <= j < i ==> (#[trigger] atoms@[j]).meaning() == (|a: Set<Cell>| a.contains(cells@[j])),
        decreases cells@.len() - i,
    {
        let (r, c) = cells[i];
        assert(cells@[i as int].0 < board@.len() && cells@[i as int].1 < board@.len());
        assert(board@[r as int]@[c as int].meaning() == (|a: Set<Cell>| a.contains((r, c))));
        atoms.push(copy_term(&board[r][c]));
        i = i + 1;
    }
    if any {
        let t = combine(ctx, &atoms, false);
        assert forall|a: Set<Cell>| #[trigger] t.meaning()(a) == clause_holds(*cl, a) by {
            if some_true(atoms@, atoms@.len() as int, a) {
                let j = choose|j: int| 0 <= j < atoms@.len() && (#[trigger] atoms@[j]).meaning()(a);
                assert(a.contains(cells@[j]));
            }
            if some_in(cells@, a) {
                let j = choose|j: int| 0 <= j < cells@.len() && #[trigger] a.contains(cells@[j]);
                assert(atoms@[j].meaning()(a));
            }
        }
        t
    } else {
        let all = combine(ctx, &atoms, true);
        let t = negate(&all);
        assert forall|a: Set<Cell>| #[trigger] t.meaning()(a) == clause_holds(*cl, a) by {
            if !all_true(atoms@, atoms@.len() as int, a) {
                let j = choose|j: int| !(0 <= j < atoms@.len() ==> (#[trigger] atoms@[j]).meaning()(a));
                assert(!a.contains(cells@[j]));
            }
            if not_all_in(cells@, a) {
                let j = choose|j: int| 0 <= j < cells@.len() && !#[trigger] a.contains(cells@[j]);
                assert(!atoms@[j].meaning()(a));
            }
        }
        t
    }
}

/// The solver term of a formula over the board's atoms.
fn formula_term<'ctx>(ctx: &'ctx Context, board: &Vec<Vec<Term<'ctx>>>, f: &Formula) -> (t: Term<'ctx>)
    requires
        is_board(board@.len() as int, board@),
        f.within(board@.len() as int),
    ensures
        forall|a: Set<Cell>| #[trigger] t.meaning()(a) == f.holds(a),
{
    let mut terms: Vec<Term<'ctx>> = Vec::new();
    let mut k: usize = 0;
    while k < f.clauses.len()
        invariant
            is_board(board@.len() as int, board@),
            f.within(board@.len() as int),
            k <= f.clauses@.len(),
            terms@.len() == k,
            forall|j: int, a: Set<Cell>| 0 <= j < k ==> #[trigger] terms@[j].meaning()(a) == #[trigger] clause_holds(f.clauses@[j], a),
        decreases f.clauses@.len() - k,
    {
        assert(cells_within(board@.len() as int, clause_cells(f.clauses@[k as int])));
        let t = clause_term(ctx, board, &f.clauses[k]);
        terms.push(t);
        k = k + 1;
    }
    let t = combine(ctx, &terms, true);
    assert forall|a: Set<Cell>| #[trigger] t.meaning()(a) == f.holds(a) by {
        if all_true(terms@, terms@.len() as int, a) {
            assert forall|j: int| 0 <= j < f.clauses@.len() implies #[trigger] clause_holds(f.clauses@[j], a) by {
                assert(terms@[j].meaning()(a));
            }
        }
        if f.holds(a) {
            assert forall|j: int| 0 <= j < terms@.len() implies (#[trigger] terms@[j]).meaning()(a) by {
                assert(clause_holds(f.clauses@[j], a));
            }
        }
    }
    t
}

/// The value that the model gives each atom of the board, or `None` where
/// it gives one no truth value.
fn read_model<'ctx>(board: &Vec<Vec<Term<'ctx>>>, model: &Model<'ctx>) -> (m: Option<Vec<Vec<bool>>>)
    requires
        is_board(board@.len() as int, board@),
    ensures
        m is Some ==> m->0@.len() == board@.len()
            && forall|r: int| 0 <= r < board@.len() ==> (#[trigger] m->0@[r])@.len() == board@.len(),
{
    let n = board.len();
    let mut m: Vec<Vec<bool>> = Vec::new();
    let mut r: usize = 0;
    while r < n
        invariant
            n == board@.len(),
            is_board(n as int, board@),
            r <= n,
            m@.len() == r,
            forall|i: int| 0 <= i < r ==> (#[trigger] m@[i])@.len() == n,
        decreases n - r,
    {
        let mut row: Vec<bool> = Vec::new();
        let mut c: usize = 0;
        while c < n
            invariant
                n == board@.len(),
                is_board(n as int, board@),
                r < n,
                c <= n,
                row@.len() == c,
            decreases n - c,
        {
            let value = match eval_in(model, &board[r][c]) {
                Some(t) => truth(&t),
                None => None,
            };
            match value {
                Some(b) => row.push(b),
                None => return None,
            }
            c = c + 1;
        }
        m.push(row);
        r = r + 1;
    }
    Some(m)
}

/// Counts the placements of `n` queens on an `n`-by-`n` board with the z3
/// solver; where `unique`, placements that a symmetry of the square relates
/// are counted once. Each satisfying assignment is checked against the
/// placement problem and the blocking formulas asserted so far before it is
/// counted and blocked. A count comes with that many placements, each a
/// solution, none blocked by one found before it.
pub fn count_solutions(n: usize, unique: bool) -> (r: Result<usize, EnumError>)
    ensures
        (n == 0 || n > MAX_SIZE) <==> r == Err::<usize, EnumError>(EnumError::InvalidSize),
        r is Ok ==> exists|ps: Seq<Seq<Cell>>| #[trigger] ps.len() == r->Ok_0
            && (forall|i: int| 0 <= i < ps.len() ==> queens_ok(n as int, (#[trigger] ps[i]).to_set()))
            && (forall|i: int| 0 <= i < ps.len() ==> all_on_board(n as int, #[trigger] ps[i]))
            && (forall|i: int, j: int| 0 <= i < j < ps.len() ==>
                blocks(unique, n as int, #[trigger] ps[i], (#[trigger] ps[j]).to_set()))
            && (forall|a: Set<Cell>| queens_ok(n as int, a) ==>
                exists|i: int| 0 <= i < ps.len() && !#[trigger] blocks(unique, n as int, ps[i], a)),
        (n == 2 || n == 3) && r is Ok ==> r->Ok_0 == 0,
        n == 1 && r is Ok ==> r->Ok_0 <= 1,
{
    let mut e = match Enumerator::new(n, unique) {
        Ok(e) => e,
        Err(err) => return Err(err),
    };
    let cfg = new_config();
    let ctx = new_context(&cfg);
    let mut session = new_session(&ctx);
    push_scope(&session);
    let board = encode_board(n, &ctx);
    let problem = formula_term(&ctx, &board, e.problem());
    assert_term(&mut session, &problem);
    loop
        invariant
            session.asserted().len() == e.accepted().len() + 1,
            forall|a: Set<Cell>| #[trigger] session.asserted()[0](a) == queens_ok(n as int, a),
            forall|i: int, a: Set<Cell>| 0 <= i < e.accepted().len() ==>
                #[trigger] session.asserted()[i + 1](a) == blocks(unique, n as int, e.accepted()[i], a),
            e.wf(),
            e.side() == n,
            e.folds() == unique,
            1 <= n <= MAX_SIZE,
            is_board(n as int, board@),
        decreases usize::MAX - e.found(),
    {
        let answer = check(&session);
        let ghost unsat = answer is Unsat;
        let verdict = match answer {
            Answer::Sat => {
                let model = match model_of(&session) {
                    Some(model) => model,
                    None => return Err(EnumError::ModelEvaluation),
                };
                match read_model(&board, &model) {
                    Some(m) => Verdict::Sat(m),
                    None => return Err(EnumError::ModelEvaluation),
                }
            },
            Answer::Unsat => Verdict::Unsat,
            Answer::Unknown => Verdict::Unknown,
        };
        match e.on_verdict(verdict) {
            Step::Block { placement, formula } => {
                let t = formula_term(&ctx, &board, &formula);
                let ghost before = session.asserted();
                assert_term(&mut session, &t);
                assert forall|i: int, a: Set<Cell>| 0 <= i < e.accepted().len() implies
                    #[trigger] session.asserted()[i + 1](a) == blocks(unique, n as int, e.accepted()[i], a) by {
                    if i + 1 < before.len() {
                        assert(session.asserted()[i + 1] == before[i + 1]);
                    }
                }
                assert(session.asserted()[0] == before[0]);
            },
            Step::Done(count) => {
                proof {
                    e.lemma_accepted();
                    let ps = e.accepted();
                    assert(ps.len() == count);
                    assert(unsat);
                    assert forall|a: Set<Cell>| queens_ok(n as int, a) implies
                        exists|i: int| 0 <= i < ps.len() && !#[trigger] blocks(unique, n as int, ps[i], a) by {
                        assert(!all_hold_of(session.asserted(), a));
                        let j = choose|j: int| 0 <= j < session.asserted().len() && !#[trigger] session.asserted()[j](a);
                        assert(j != 0);
                        let i = j - 1;
                        assert(session.asserted()[i + 1](a) == blocks(unique, n as int, e.accepted()[i], a));
                        assert(!blocks(unique, n as int, ps[i], a));
                    }
                    if (n == 2 || n == 3) && count > 0 {
                        law_no_placement_on_two_or_three(n as int, ps[0].to_set());
                    }
                    if n == 1 && count > 1 {
                        assert(blocks(unique, 1, ps[0], ps[1].to_set()));
                        law_single_cell_blocked(unique, ps[0], ps[1].to_set());
                    }
                }
                return Ok(count);
            },
            Step::Failed(err) => return Err(err),
        }
    }
}

} // verus!
