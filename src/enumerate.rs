//! The decisions of the check, decode and block loop: given what the oracle
//! answered, what to assert next, or when to stop.
use vstd::prelude::*;
use crate::constraints::{encode_queens, law_rows_and_columns, queens_ok};
use crate::decode::{blocking_formula, blocks, extract_placement, is_square, model_set};
use crate::formula::{Cell, Formula};
use crate::lines::MAX_SIZE;
use crate::symmetry::all_on_board;

verus! {

/// Why an enumeration stops without a count.
#[derive(Clone, Copy, PartialEq, Eq, Structural, Debug)]
pub enum EnumError {
    /// The board side is zero or larger than `MAX_SIZE`.
    InvalidSize,
    /// The oracle could not decide satisfiability.
    UnknownVerdict,
    /// The oracle's assignment does not cover the board, or does not satisfy
    /// the placement problem.
    InconsistentModel,
    /// The oracle gave no model after a satisfiable check, or no truth value
    /// to an atom in it.
    ModelEvaluation,
    /// The count no longer fits in a `usize`.
    CountOverflow,
}

/// What the oracle answered to a satisfiability check.
pub enum Verdict {
    /// Satisfiable, with the value of each cell's atom, one row of values per board row.
    Sat(Vec<Vec<bool>>),
    Unsat,
    Unknown,
}

/// What the loop does next.
pub enum Step {
    /// Assert `formula`, which blocks `placement` (or its whole orbit), and
    /// check again.
    Block { placement: Vec<Cell>, formula: Formula },
    /// The search space is exhausted; the count is final.
    Done(usize),
    /// Stop: the enumeration failed.
    Failed(EnumError),
}

/// The state of one enumeration session.
pub struct Enumerator {
    n: usize,
    unique: bool,
    count: usize,
    problem: Formula,
    /// The blocking formulas handed out so far, one per accepted placement.
    blocked: Vec<Formula>,
    /// The placements accepted so far, in order.
    accepted: Ghost<Seq<Seq<Cell>>>,
}

impl Enumerator {
    /// The board side.
    pub closed spec fn side(&self) -> nat {
        self.n as nat
    }

    /// Whether symmetric placements are counted once per orbit.
    pub closed spec fn folds(&self) -> bool {
        self.unique
    }

    /// The placements (or orbits) found so far.
    pub closed spec fn found(&self) -> usize {
        self.count
    }

    /// The placements accepted so far, in order.
    pub closed spec fn accepted(&self) -> Seq<Seq<Cell>> {
        self.accepted@
    }

    /// The session's invariant: the side is in range, the problem formula is
    /// the placement problem of that side, every accepted placement solves
    /// it, each blocking formula kept blocks its placement, and no accepted
    /// placement is blocked by one accepted before it.
    pub closed spec fn wf(&self) -> bool {
        let n = self.n as int;
        let acc = self.accepted@;
        &&& 1 <= self.n <= MAX_SIZE
        &&& self.problem.within(n)
        &&& forall|a: Set<Cell>| #[trigger] self.problem.holds(a) == queens_ok(n, a)
        &&& self.count == acc.len()
        &&& self.blocked@.len() == acc.len()
        &&& forall|i: int| 0 <= i < acc.len() ==> queens_ok(n, (#[trigger] acc[i]).to_set())
        &&& forall|i: int| 0 <= i < acc.len() ==> all_on_board(n, #[trigger] acc[i])
        &&& forall|i: int, a: Set<Cell>| 0 <= i < acc.len() ==>
            #[trigger] self.blocked@[i].holds(a) == blocks(self.unique, n, acc[i], a)
        &&& forall|i: int, j: int| 0 <= i < j < acc.len() ==>
            blocks(self.unique, n, #[trigger] acc[i], (#[trigger] acc[j]).to_set())
    }

    /// What the invariant says of the accepted placements: there are as many
    /// as the count, each solves the placement problem, and none is blocked
    /// by one accepted before it.
    pub proof fn lemma_accepted(&self)
        requires
            self.wf(),
        ensures
            self.found() == self.accepted().len(),
            forall|i: int| 0 <= i < self.accepted().len() ==> queens_ok(self.side() as int, (#[trigger] self.accepted()[i]).to_set()),
            forall|i: int| 0 <= i < self.accepted().len() ==> all_on_board(self.side() as int, #[trigger] self.accepted()[i]),
            forall|i: int, j: int| 0 <= i < j < self.accepted().len() ==>
                blocks(self.folds(), self.side() as int, #[trigger] self.accepted()[i], (#[trigger] self.accepted()[j]).to_set()),
    {
    }

    /// Whether the assignment `model` satisfies every blocking formula
    /// handed out so far.
    fn respects_blocks(&self, model: &Vec<Vec<bool>>) -> (b: bool)
        requires
            self.wf(),
            is_square(model@),
        ensures
            b == forall|i: int| 0 <= i < self.accepted().len() ==>
                #[trigger] blocks(self.folds(), self.side() as int, self.accepted()[i], model_set(model@)),
    {
        let mut i: usize = 0;
        while i < self.blocked.len()
            invariant
                self.wf(),
                is_square(model@),
                i <= self.blocked@.len(),
                forall|j: int| 0 <= j < i ==> #[trigger] blocks(self.folds(), self.side() as int, self.accepted()[j], model_set(model@)),
            decreases self.blocked@.len() - i,
        {
            assert(self.blocked@[i as int].holds(model_set(model@)) == blocks(self.unique, self.n as int, self.accepted@[i as int], model_set(model@)));
            if !self.blocked[i].evaluate(model) {
                assert(!blocks(self.folds(), self.side() as int, self.accepted()[i as int], model_set(model@)));
                return false;
            }
            i = i + 1;
        }
        true
    }

    /// Starts a session on an `n`-by-`n` board; the count starts at zero.
    pub fn new(n: usize, unique: bool) -> (r: Result<Enumerator, EnumError>)
        ensures
            (n == 0 || n > MAX_SIZE) <==> r is Err,
            r is Err ==> r->Err_0 == EnumError::InvalidSize,
            r is Ok ==> r->Ok_0.wf() && r->Ok_0.side() == n && r->Ok_0.folds() == unique && r->Ok_0.found() == 0
                && r->Ok_0.accepted() == Seq::<Seq<Cell>>::empty(),
    {
        if n == 0 || n > MAX_SIZE {
            return Err(EnumError::InvalidSize);
        }
        let problem = encode_queens(n);
        Ok(Enumerator { n, unique, count: 0, problem, blocked: Vec::new(), accepted: Ghost(Seq::empty()) })
    }

    /// The placement problem, to be asserted once before the first check.
    pub fn problem(&self) -> (f: &Formula)
        requires
            self.wf(),
        ensures
            forall|a: Set<Cell>| #[trigger] f.holds(a) == queens_ok(self.side() as int, a),
            f.within(self.side() as int),
    {
        &self.problem
    }

    /// The board side.
    pub fn size(&self) -> (n: usize)
        ensures
            n == self.side(),
    {
        self.n
    }

    /// The placements (or orbits) found so far.
    pub fn count(&self) -> (c: usize)
        ensures
            c == self.found(),
    {
        self.count
    }

    /// Whether symmetric placements are counted once per orbit.
    pub fn unique(&self) -> (u: bool)
        ensures
            u == self.folds(),
    {
        self.unique
    }

    /// Whether `model` gives a value to each cell of an `n`-by-`n` board.
    fn covers_board(n: usize, model: &Vec<Vec<bool>>) -> (b: bool)
        ensures
            b == (model@.len() == n && is_square(model@)),
    {
        if model.len() != n {
            return false;
        }
        let mut r: usize = 0;
        while r < n
            invariant
                model@.len() == n,
                r <= n,
                forall|j: int| 0 <= j < r ==> (#[trigger] model@[j])@.len() == n,
            decreases n - r,
        {
            if model[r].len() != n {
                return false;
            }
            r = r + 1;
        }
        true
    }

    /// Decides what follows the oracle's verdict. On `Unsat` the count is
    /// final; on `Unknown` the session fails. On `Sat` the assignment must
    /// cover the board, satisfy the placement problem and every blocking
    /// formula handed out so far; its placement is then counted and its
    /// blocking formula handed back.
    pub fn on_verdict(&mut self, verdict: Verdict) -> (step: Step)
        requires
            old(self).wf(),
        ensures
            final(self).wf(),
            final(self).side() == old(self).side(),
            final(self).folds() == old(self).folds(),
            step is Block ==> final(self).found() == old(self).found() + 1,
            step is Done ==> step->Done_0 == old(self).found() && verdict is Unsat,
            step is Block ==> final(self).accepted() == old(self).accepted().push(step->placement@)
                && step->formula.within(old(self).side() as int)
                && forall|a: Set<Cell>| #[trigger] step->formula.holds(a)
                    == blocks(old(self).folds(), old(self).side() as int, step->placement@, a),
            !(step is Block) ==> final(self).accepted() == old(self).accepted(),
            match verdict {
                Verdict::Unsat => step == Step::Done(old(self).found()) && final(self).found() == old(self).found(),
                Verdict::Unknown => step == Step::Failed(EnumError::UnknownVerdict) && final(self).found() == old(self).found(),
                Verdict::Sat(m) => {
                    let n = old(self).side() as int;
                    if !(m@.len() == n && is_square(m@) && queens_ok(n, model_set(m@))
                        && forall|i: int| 0 <= i < old(self).accepted().len() ==>
                            #[trigger] blocks(old(self).folds(), n, old(self).accepted()[i], model_set(m@))) {
                        step == Step::Failed(EnumError::InconsistentModel) && final(self).found() == old(self).found()
                    } else if old(self).found() == usize::MAX {
                        step == Step::Failed(EnumError::CountOverflow) && final(self).found() == old(self).found()
                    } else {
                        final(self).found() == old(self).found() + 1
                        && step is Block
                        && final(self).accepted() == old(self).accepted().push(step->placement@)
                        && step->placement@.to_set() == model_set(m@)
                        && (forall|c: Cell| #[trigger] step->placement@.contains(c) == model_set(m@).contains(c))
                        && step->placement@.len() == n
                        && step->formula.within(n)
                        && forall|a: Set<Cell>| #[trigger] step->formula.holds(a) == blocks(old(self).folds(), n, step->placement@, a)
                    }
                },
            },
    {
        match verdict {
            Verdict::Unsat => Step::Done(self.count),
            Verdict::Unknown => Step::Failed(EnumError::UnknownVerdict),
            Verdict::Sat(model) => {
                if !Self::covers_board(self.n, &model) || !self.problem.evaluate(&model)
                    || !self.respects_blocks(&model) {
                    return Step::Failed(EnumError::InconsistentModel);
                }
                if self.count == usize::MAX {
                    return Step::Failed(EnumError::CountOverflow);
                }
                proof {
                    law_rows_and_columns(self.n as int, model_set(model@));
                }
                let placement = extract_placement(&model);
                assert(placement@.to_set() =~= model_set(model@));
                let formula = blocking_formula(self.unique, &placement);
                let kept = blocking_formula(self.unique, &placement);
                let ghost old_acc = self.accepted@;
                let ghost unique = self.unique;
                let ghost n = self.n as int;
                assert forall|i: int| 0 <= i < old_acc.len() implies #[trigger] blocks(unique, n, old_acc[i], model_set(model@)) by {
                    assert(blocks(self.folds(), self.side() as int, self.accepted()[i], model_set(model@)));
                }
                self.blocked.push(kept);
                self.accepted = Ghost(self.accepted@.push(placement@));
                self.count = self.count + 1;
                assert forall|i: int, j: int| 0 <= i < j < self.accepted@.len() implies
                    blocks(self.unique, self.n as int, #[trigger] self.accepted@[i], (#[trigger] self.accepted@[j]).to_set()) by {
                    assert(self.accepted@[i] == old_acc[i]);
                    if j < old_acc.len() {
                        assert(self.accepted@[j] == old_acc[j]);
                    } else {
                        assert(blocks(unique, n, old_acc[i], model_set(model@)));
                    }
                }
                assert forall|i: int| 0 <= i < self.accepted@.len() implies queens_ok(self.n as int, (#[trigger] self.accepted@[i]).to_set()) by {
                    if i < old_acc.len() {
                        assert(self.accepted@[i] == old_acc[i]);
                    }
                }
                assert forall|i: int| 0 <= i < self.accepted@.len() implies all_on_board(self.n as int, #[trigger] self.accepted@[i]) by {
                    if i < old_acc.len() {
                        assert(self.accepted@[i] == old_acc[i]);
                    }
                }
                Step::Block { placement, formula }
            },
        }
    }
}

} // verus!
