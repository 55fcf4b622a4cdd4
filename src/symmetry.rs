//! The symmetries of the square board, as coordinate maps, and the orbit of a
//! placement under them.
use vstd::prelude::*;
use crate::formula::Cell;
use crate::lines::on_board;

verus! {

/// One of the four reflections of the board.
#[derive(Clone, Copy, PartialEq, Eq, Structural, Debug)]
pub enum Flip {
    /// Reverses the row index.
    Horizontal,
    /// Reverses the column index.
    Vertical,
    /// Swaps row and column.
    MainDiagonal,
    /// Swaps row and column and reverses both.
    MinorDiagonal,
}

/// One of the eight symmetries of the square.
#[derive(Clone, Copy, PartialEq, Eq, Structural, Debug)]
pub enum Symmetry {
    Identity,
    /// Reverses the row index.
    HorizontalFlip,
    /// Reverses the column index.
    VerticalFlip,
    /// Reverses both indices: the half turn.
    HalfTurn,
    /// Swaps row and column.
    MainTranspose,
    /// Swaps row and column, then reverses the row index: the quarter turn
    /// one way.
    QuarterTurn,
    /// Swaps row and column, then reverses the column index: the quarter turn
    /// the other way.
    ThreeQuarterTurn,
    /// Swaps row and column and reverses both.
    MinorTranspose,
}

/// Index `x` counted from the other end of a side of `n` cells.
pub open spec fn rev(n: int, x: usize) -> usize {
    (n - 1 - x) as usize
}

/// Where a reflection takes a cell of the `n`-by-`n` board.
pub open spec fn flip_cell(f: Flip, n: int, c: Cell) -> Cell {
    match f {
        Flip::Horizontal => (rev(n, c.0), c.1),
        Flip::Vertical => (c.0, rev(n, c.1)),
        Flip::MainDiagonal => (c.1, c.0),
        Flip::MinorDiagonal => (rev(n, c.1), rev(n, c.0)),
    }
}

/// Where the reflections of `fs`, the first one first, take a cell.
pub open spec fn apply_flips(fs: Seq<Flip>, n: int, c: Cell) -> Cell
    decreases fs.len(),
{
    if fs.len() == 0 {
        c
    } else {
        flip_cell(fs.last(), n, apply_flips(fs.drop_last(), n, c))
    }
}

/// A symmetry as three choices made in turn: whether to swap row and column,
/// then whether to reverse the row index, and whether to reverse the column index.
pub open spec fn parts(s: Symmetry) -> (bool, bool, bool) {
    match s {
        Symmetry::Identity => (false, false, false),
        Symmetry::HorizontalFlip => (false, true, false),
        Symmetry::VerticalFlip => (false, false, true),
        Symmetry::HalfTurn => (false, true, true),
        Symmetry::MainTranspose => (true, false, false),
        Symmetry::QuarterTurn => (true, true, false),
        Symmetry::ThreeQuarterTurn => (true, false, true),
        Symmetry::MinorTranspose => (true, true, true),
    }
}

/// The symmetry made of three choices, as `parts` reads them.
pub open spec fn from_parts(t: (bool, bool, bool)) -> Symmetry {
    if !t.0 {
        if !t.1 {
            if !t.2 { Symmetry::Identity } else { Symmetry::VerticalFlip }
        } else {
            if !t.2 { Symmetry::HorizontalFlip } else { Symmetry::HalfTurn }
        }
    } else {
        if !t.1 {
            if !t.2 { Symmetry::MainTranspose } else { Symmetry::ThreeQuarterTurn }
        } else {
            if !t.2 { Symmetry::QuarterTurn } else { Symmetry::MinorTranspose }
        }
    }
}

/// Where a symmetry takes a cell of the `n`-by-`n` board.
pub open spec fn sym_cell(s: Symmetry, n: int, c: Cell) -> Cell {
    let (swap, rows, cols) = parts(s);
    let d: Cell = if swap { (c.1, c.0) } else { c };
    (if rows { rev(n, d.0) } else { d.0 }, if cols { rev(n, d.1) } else { d.1 })
}

/// The reflections that make up a symmetry, in the order they apply.
pub open spec fn flips_of(s: Symmetry) -> Seq<Flip> {
    let (swap, rows, cols) = parts(s);
    (if swap { seq![Flip::MainDiagonal] } else { Seq::empty() })
        + (if rows { seq![Flip::Horizontal] } else { Seq::empty() })
        + (if cols { seq![Flip::Vertical] } else { Seq::empty() })
}

/// The symmetry that applies `s1`, then `s2`.
pub open spec fn compose(s2: Symmetry, s1: Symmetry) -> Symmetry {
    let (w1, r1, c1) = parts(s1);
    let (w2, r2, c2) = parts(s2);
    if w2 {
        from_parts((w1 != w2, c1 != r2, r1 != c2))
    } else {
        from_parts((w1, r1 != r2, c1 != c2))
    }
}

/// The symmetry that undoes `s`.
pub open spec fn inverse(s: Symmetry) -> Symmetry {
    let (w, r, c) = parts(s);
    if w { from_parts((w, c, r)) } else { s }
}

/// Every cell of `q` lies on the `n`-by-`n` board.
pub open spec fn all_on_board(n: int, q: Seq<Cell>) -> bool {
    forall|i: int| 0 <= i < q.len() ==> on_board(n, #[trigger] q[i])
}

/// The cells of `q`, each taken where `s` takes it.
pub open spec fn image(s: Symmetry, n: int, q: Seq<Cell>) -> Seq<Cell> {
    Seq::new(q.len(), |i: int| sym_cell(s, n, q[i]))
}

/// `x` and `y` hold the same cells, whatever their order or repetitions.
pub open spec fn same_cells(x: Seq<Cell>, y: Seq<Cell>) -> bool {
    (forall|i: int| 0 <= i < x.len() ==> y.contains(#[trigger] x[i]))
        && (forall|j: int| 0 <= j < y.len() ==> x.contains(#[trigger] y[j]))
}

pub proof fn lemma_sym_on_board(s: Symmetry, n: int, c: Cell)
    requires
        on_board(n, c),
        n <= usize::MAX,
    ensures
        on_board(n, sym_cell(s, n, c)),
{
}

pub proof fn lemma_parts(t: (bool, bool, bool))
    ensures
        parts(from_parts(t)) == t,
{
}

pub proof fn lemma_compose(s2: Symmetry, s1: Symmetry, n: int, c: Cell)
    requires
        on_board(n, c),
        n <= usize::MAX,
    ensures
        sym_cell(s2, n, sym_cell(s1, n, c)) == sym_cell(compose(s2, s1), n, c),
{
    let (w1, r1, c1) = parts(s1);
    let (w2, r2, c2) = parts(s2);
    if w2 {
        lemma_parts((w1 != w2, c1 != r2, r1 != c2));
    } else {
        lemma_parts((w1, r1 != r2, c1 != c2));
    }
}

pub proof fn lemma_inverse(s: Symmetry, n: int, c: Cell)
    requires
        on_board(n, c),
        n <= usize::MAX,
    ensures
        sym_cell(inverse(s), n, sym_cell(s, n, c)) == c,
{
    let (w, r, cc) = parts(s);
    lemma_parts((w, cc, r));
}

pub proof fn lemma_flips_of(s: Symmetry, n: int, c: Cell)
    requires
        on_board(n, c),
        n <= usize::MAX,
    ensures
        apply_flips(flips_of(s), n, c) == sym_cell(s, n, c),
{
    let fs = flips_of(s);
    reveal_with_fuel(apply_flips, 4);
    let (swap, rows, cols) = parts(s);
    assert(fs.len() <= 3);
    if fs.len() == 3 {
        assert(fs.drop_last().drop_last().drop_last() =~= Seq::<Flip>::empty());
    }
    if fs.len() == 2 {
        assert(fs.drop_last().drop_last() =~= Seq::<Flip>::empty());
    }
    if fs.len() == 1 {
        assert(fs.drop_last() =~= Seq::<Flip>::empty());
    }
}

/// What a reflection needs of a cell of a side of `n` cells: an index that
/// it reverses lies below `n`.
pub open spec fn flip_fits(f: Flip, n: int, c: Cell) -> bool {
    match f {
        Flip::Horizontal => c.0 < n,
        Flip::Vertical => c.1 < n,
        Flip::MainDiagonal => true,
        Flip::MinorDiagonal => c.0 < n && c.1 < n,
    }
}

/// Each reflection of `fs`, applied in turn from `c`, gets a cell it fits.
pub open spec fn flips_fit(fs: Seq<Flip>, n: int, c: Cell) -> bool {
    forall|k: int| 0 <= k < fs.len() ==> #[trigger] flip_fits(fs[k], n, apply_flips(fs.subrange(0, k), n, c))
}

fn apply_flip(f: Flip, queens: &Vec<Cell>) -> (r: Vec<Cell>)
    requires
        forall|i: int| 0 <= i < queens@.len() ==> flip_fits(f, queens@.len() as int, #[trigger] queens@[i]),
    ensures
        r@.len() == queens@.len(),
        forall|i: int| 0 <= i < r@.len() ==> #[trigger] r@[i] == flip_cell(f, queens@.len() as int, queens@[i]),
{
    let n = queens.len();
    let mut r: Vec<Cell> = Vec::new();
    let mut i: usize = 0;
    while i < n
        invariant
            n == queens@.len(),
            i <= n,
            forall|j: int| 0 <= j < n ==> flip_fits(f, n as int, #[trigger] queens@[j]),
            r@.len() == i,
            forall|j: int| 0 <= j < i ==> #[trigger] r@[j] == flip_cell(f, n as int, queens@[j]),
        decreases n - i,
    {
        let (row, col) = queens[i];
        assert(flip_fits(f, n as int, queens@[i as int]));
        let cell: Cell = match f {
            Flip::Horizontal => (n - 1 - row, col),
            Flip::Vertical => (row, n - 1 - col),
            Flip::MainDiagonal => (col, row),
            Flip::MinorDiagonal => (n - 1 - col, n - 1 - row),
        };
        r.push(cell);
        i = i + 1;
    }
    r
}

/// Reverses the row index of every queen of a placement of `queens.len()` queens.
pub fn hflip(queens: &Vec<Cell>) -> (r: Vec<Cell>)
    requires
        forall|i: int| 0 <= i < queens@.len() ==> (#[trigger] queens@[i]).0 < queens@.len(),
    ensures
        r@.len() == queens@.len(),
        forall|i: int| 0 <= i < r@.len() ==> #[trigger] r@[i] == flip_cell(Flip::Horizontal, queens@.len() as int, queens@[i]),
{
    apply_flip(Flip::Horizontal, queens)
}

/// Reverses the column index of every queen of a placement of `queens.len()` queens.
pub fn vflip(queens: &Vec<Cell>) -> (r: Vec<Cell>)
    requires
        forall|i: int| 0 <= i < queens@.len() ==> (#[trigger] queens@[i]).1 < queens@.len(),
    ensures
        r@.len() == queens@.len(),
        forall|i: int| 0 <= i < r@.len() ==> #[trigger] r@[i] == flip_cell(Flip::Vertical, queens@.len() as int, queens@[i]),
{
    apply_flip(Flip::Vertical, queens)
}

/// Swaps row and column of every queen of a placement.
pub fn maflip(queens: &Vec<Cell>) -> (r: Vec<Cell>)
    ensures
        r@.len() == queens@.len(),
        forall|i: int| 0 <= i < r@.len() ==> #[trigger] r@[i] == flip_cell(Flip::MainDiagonal, queens@.len() as int, queens@[i]),
{
    apply_flip(Flip::MainDiagonal, queens)
}

/// Reflects every queen of a placement of `queens.len()` queens in the minor
/// diagonal: row and column swap, and both are reversed.
pub fn miflip(queens: &Vec<Cell>) -> (r: Vec<Cell>)
    requires
        all_on_board(queens@.len() as int, queens@),
    ensures
        r@.len() == queens@.len(),
        forall|i: int| 0 <= i < r@.len() ==> #[trigger] r@[i] == flip_cell(Flip::MinorDiagonal, queens@.len() as int, queens@[i]),
{
    apply_flip(Flip::MinorDiagonal, queens)
}

/// Applying `fs + gs` is applying `fs`, then `gs`.
pub proof fn lemma_apply_flips_concat(fs: Seq<Flip>, gs: Seq<Flip>, n: int, c: Cell)
    ensures
        apply_flips(fs + gs, n, c) == apply_flips(gs, n, apply_flips(fs, n, c)),
    decreases gs.len(),
{
    if gs.len() == 0 {
        assert(fs + gs =~= fs);
    } else {
        assert((fs + gs).drop_last() =~= fs + gs.drop_last());
        assert((fs + gs).last() == gs.last());
        lemma_apply_flips_concat(fs, gs.drop_last(), n, c);
    }
}

proof fn lemma_flips_keep_board(fs: Seq<Flip>, n: int, c: Cell)
    requires
        on_board(n, c),
        n <= usize::MAX,
    ensures
        on_board(n, apply_flips(fs, n, c)),
    decreases fs.len(),
{
    if fs.len() > 0 {
        lemma_flips_keep_board(fs.drop_last(), n, c);
    }
}

/// A cell on the board fits every list of reflections.
pub proof fn lemma_flips_fit_on_board(fs: Seq<Flip>, n: int, c: Cell)
    requires
        on_board(n, c),
        n <= usize::MAX,
    ensures
        flips_fit(fs, n, c),
{
    assert forall|k: int| 0 <= k < fs.len() implies #[trigger] flip_fits(fs[k], n, apply_flips(fs.subrange(0, k), n, c)) by {
        lemma_flips_keep_board(fs.subrange(0, k), n, c);
    }
}

/// Applies the reflections of `fs` to a placement of `queens.len()` queens,
/// the first one first.
pub fn flip(queens: &Vec<Cell>, fs: &Vec<Flip>) -> (r: Vec<Cell>)
    requires
        forall|i: int| 0 <= i < queens@.len() ==> flips_fit(fs@, queens@.len() as int, #[trigger] queens@[i]),
    ensures
        r@.len() == queens@.len(),
        forall|i: int| 0 <= i < r@.len() ==> #[trigger] r@[i] == apply_flips(fs@, queens@.len() as int, queens@[i]),
{
    let ghost n = queens@.len() as int;
    let mut flipped: Vec<Cell> = Vec::new();
    let mut j: usize = 0;
    while j < queens.len()
        invariant
            j <= queens@.len(),
            flipped@ =~= queens@.subrange(0, j as int),
        decreases queens@.len() - j,
    {
        flipped.push(queens[j]);
        j = j + 1;
    }
    assert forall|i: int| 0 <= i < n implies #[trigger] flipped@[i] == apply_flips(fs@.subrange(0, 0), n, queens@[i]) by {
        assert(fs@.subrange(0, 0).len() == 0);
    }
    let mut k: usize = 0;
    while k < fs.len()
        invariant
            n == queens@.len(),
            k <= fs@.len(),
            flipped@.len() == n,
            forall|i: int| 0 <= i < n ==> flips_fit(fs@, n, #[trigger] queens@[i]),
            forall|i: int| 0 <= i < n ==> #[trigger] flipped@[i] == apply_flips(fs@.subrange(0, k as int), n, queens@[i]),
        decreases fs@.len() - k,
    {
        assert forall|i: int| 0 <= i < n implies flip_fits(fs@[k as int], n, #[trigger] flipped@[i]) by {
            assert(flips_fit(fs@, n, queens@[i]));
            assert(flip_fits(fs@[k as int], n, apply_flips(fs@.subrange(0, k as int), n, queens@[i])));
        }
        let next = apply_flip(fs[k], &flipped);
        assert forall|i: int| 0 <= i < n implies #[trigger] next@[i] == apply_flips(fs@.subrange(0, k + 1), n, queens@[i]) by {
            assert(fs@.subrange(0, k + 1).drop_last() =~= fs@.subrange(0, k as int));
        }
        flipped = next;
        k = k + 1;
    }
    assert(fs@.subrange(0, fs@.len() as int) =~= fs@);
    flipped
}

/// The reflections that make up a symmetry, in the order they apply.
pub fn flips(s: Symmetry) -> (r: Vec<Flip>)
    ensures
        r@ == flips_of(s),
{
    let (swap, rows, cols) = match s {
        Symmetry::Identity => (false, false, false),
        Symmetry::HorizontalFlip => (false, true, false),
        Symmetry::VerticalFlip => (false, false, true),
        Symmetry::HalfTurn => (false, true, true),
        Symmetry::MainTranspose => (true, false, false),
        Symmetry::QuarterTurn => (true, true, false),
        Symmetry::ThreeQuarterTurn => (true, false, true),
        Symmetry::MinorTranspose => (true, true, true),
    };
    let mut r: Vec<Flip> = Vec::new();
    if swap {
        r.push(Flip::MainDiagonal);
    }
    if rows {
        r.push(Flip::Horizontal);
    }
    if cols {
        r.push(Flip::Vertical);
    }
    assert(r@ =~= flips_of(s));
    r
}

/// The placement that symmetry `s` makes of a placement of `queens.len()` queens.
pub fn transform(s: Symmetry, queens: &Vec<Cell>) -> (r: Vec<Cell>)
    requires
        all_on_board(queens@.len() as int, queens@),
    ensures
        r@ == image(s, queens@.len() as int, queens@),
{
    let len = queens.len();
    let fs = flips(s);
    proof {
        assert forall|i: int| 0 <= i < len implies flips_fit(fs@, len as int, #[trigger] queens@[i]) by {
            lemma_flips_fit_on_board(fs@, len as int, queens@[i]);
        }
    }
    let r = flip(queens, &fs);
    proof {
        let n = queens@.len() as int;
        assert forall|i: int| 0 <= i < n implies #[trigger] r@[i] == image(s, n, queens@)[i] by {
            lemma_flips_of(s, n, queens@[i]);
        }
        assert(r@ =~= image(s, n, queens@));
    }
    r
}

/// The eight symmetries of the square, each once.
pub fn all_symmetries() -> (r: Vec<Symmetry>)
    ensures
        r@.len() == 8,
        forall|s: Symmetry| #[trigger] r@.contains(s),
{
    let mut r: Vec<Symmetry> = Vec::new();
    r.push(Symmetry::Identity);
    r.push(Symmetry::HorizontalFlip);
    r.push(Symmetry::VerticalFlip);
    r.push(Symmetry::HalfTurn);
    r.push(Symmetry::MainTranspose);
    r.push(Symmetry::QuarterTurn);
    r.push(Symmetry::ThreeQuarterTurn);
    r.push(Symmetry::MinorTranspose);
    assert forall|s: Symmetry| #[trigger] r@.contains(s) by {
        match s {
            Symmetry::Identity => assert(r@[0] == s),
            Symmetry::HorizontalFlip => assert(r@[1] == s),
            Symmetry::VerticalFlip => assert(r@[2] == s),
            Symmetry::HalfTurn => assert(r@[3] == s),
            Symmetry::MainTranspose => assert(r@[4] == s),
            Symmetry::QuarterTurn => assert(r@[5] == s),
            Symmetry::ThreeQuarterTurn => assert(r@[6] == s),
            Symmetry::MinorTranspose => assert(r@[7] == s),
        }
    }
    r
}

/// Whether `c` is one of the cells of `v`.
pub fn contains_cell(v: &Vec<Cell>, c: Cell) -> (b: bool)
    ensures
        b == v@.contains(c),
{
    let mut i: usize = 0;
    while i < v.len()
        invariant
            i <= v@.len(),
            forall|j: int| 0 <= j < i ==> v@[j] != c,
        decreases v@.len() - i,
    {
        let (r, k) = v[i];
        if r == c.0 && k == c.1 {
            assert(v@[i as int] == c);
            return true;
        }
        i = i + 1;
    }
    false
}

/// Whether two placements hold the same cells.
pub fn same_placement(x: &Vec<Cell>, y: &Vec<Cell>) -> (b: bool)
    ensures
        b == same_cells(x@, y@),
{
    let mut i: usize = 0;
    while i < x.len()
        invariant
            i <= x@.len(),
            forall|j: int| 0 <= j < i ==> y@.contains(#[trigger] x@[j]),
        decreases x@.len() - i,
    {
        if !contains_cell(y, x[i]) {
            return false;
        }
        i = i + 1;
    }
    let mut j: usize = 0;
    while j < y.len()
        invariant
            j <= y@.len(),
            forall|i: int| 0 <= i < x@.len() ==> y@.contains(#[trigger] x@[i]),
            forall|k: int| 0 <= k < j ==> x@.contains(#[trigger] y@[k]),
        decreases y@.len() - j,
    {
        if !contains_cell(x, y[j]) {
            return false;
        }
        j = j + 1;
    }
    true
}

/// Some member of `list` holds the same cells as `x`.
pub open spec fn listed(list: Seq<Vec<Cell>>, x: Seq<Cell>) -> bool {
    exists|i: int| 0 <= i < list.len() && #[trigger] same_cells(list[i]@, x)
}

/// `m` is the placement that some symmetry makes of `q`.
pub open spec fn is_image(n: int, q: Seq<Cell>, m: Seq<Cell>) -> bool {
    exists|s: Symmetry| m == #[trigger] image(s, n, q)
}

/// The orbit of a placement of `queens.len()` queens: the distinct placements
/// that the eight symmetries make of it, each once.
pub fn orbit(queens: &Vec<Cell>) -> (r: Vec<Vec<Cell>>)
    requires
        all_on_board(queens@.len() as int, queens@),
    ensures
        1 <= r@.len() <= 8,
        forall|i: int| 0 <= i < r@.len() ==> is_image(queens@.len() as int, queens@, #[trigger] r@[i]@),
        forall|s: Symmetry| #[trigger] listed(r@, image(s, queens@.len() as int, queens@)),
        forall|i: int, j: int| 0 <= i < j < r@.len() ==> !same_cells(#[trigger] r@[i]@, #[trigger] r@[j]@),
{
    let ghost n = queens@.len() as int;
    let syms = all_symmetries();
    let mut members: Vec<Vec<Cell>> = Vec::new();
    let mut k: usize = 0;
    while k < syms.len()
        invariant
            n == queens@.len(),
            all_on_board(n, queens@),
            syms@.len() == 8,
            k <= 8,
            k == 0 ==> members@.len() == 0,
            1 <= k ==> 1 <= members@.len(),
            members@.len() <= k,
            forall|i: int| 0 <= i < members@.len() ==> is_image(n, queens@, #[trigger] members@[i]@),
            forall|j: int| 0 <= j < k ==> #[trigger] listed(members@, image(syms@[j], n, queens@)),
            forall|i: int, j: int| 0 <= i < j < members@.len() ==> !same_cells(#[trigger] members@[i]@, #[trigger] members@[j]@),
        decreases 8 - k,
    {
        let t = transform(syms[k], queens);
        let mut found = false;
        let mut i: usize = 0;
        while i < members.len()
            invariant
                i <= members@.len(),
                found ==> listed(members@, t@),
                !found ==> forall|j: int| 0 <= j < i ==> !same_cells(#[trigger] members@[j]@, t@),
            decreases members@.len() - i,
        {
            if same_placement(&members[i], &t) {
                found = true;
            }
            i = i + 1;
        }
        let ghost before = members@;
        if !found {
            members.push(t);
            assert(members@[before.len() as int]@ == image(syms@[k as int], n, queens@));
            assert forall|j: int| 0 <= j < k + 1 implies #[trigger] listed(members@, image(syms@[j], n, queens@)) by {
                if j < k {
                    assert(listed(before, image(syms@[j], n, queens@)));
                    let i = choose|i: int| 0 <= i < before.len() && #[trigger] same_cells(before[i]@, image(syms@[j], n, queens@));
                    assert(members@[i] == before[i]);
                } else {
                    assert(same_cells(members@[before.len() as int]@, image(syms@[j], n, queens@)));
                }
            }
            assert forall|i: int| 0 <= i < members@.len() implies is_image(n, queens@, #[trigger] members@[i]@) by {
                if i < before.len() {
                    assert(members@[i] == before[i]);
                } else {
                    assert(members@[i]@ == image(syms@[k as int], n, queens@));
                }
            }
            assert forall|i: int, j: int| 0 <= i < j < members@.len() implies !same_cells(#[trigger] members@[i]@, #[trigger] members@[j]@) by {
                assert(members@[i] == before[i]);
                if j < before.len() {
                    assert(members@[j] == before[j]);
                } else {
                    assert(!same_cells(before[i]@, t@));
                }
            }
        } else {
            assert(listed(members@, image(syms@[k as int], n, queens@)));
        }
        k = k + 1;
    }
    assert forall|s: Symmetry| #[trigger] listed(members@, image(s, n, queens@)) by {
        assert(syms@.contains(s));
        let j = choose|j: int| 0 <= j < syms@.len() && syms@[j] == s;
        assert(listed(members@, image(syms@[j], n, queens@)));
    }
    members
}

/// Orbit closure: the symmetries make of any member of a placement's orbit
/// the same placements as they make of the placement itself.
pub proof fn law_orbit_closed(q: Seq<Cell>, s1: Symmetry)
    requires
        q.len() <= usize::MAX,
        all_on_board(q.len() as int, q),
    ensures
        forall|s2: Symmetry| #[trigger] is_image(q.len() as int, q, image(s2, q.len() as int, image(s1, q.len() as int, q))),
        forall|s3: Symmetry| #[trigger] is_image(q.len() as int, image(s1, q.len() as int, q), image(s3, q.len() as int, q)),
{
    let n = q.len() as int;
    let m = image(s1, n, q);
    assert forall|s2: Symmetry| #[trigger] is_image(n, q, image(s2, n, m)) by {
        let s3 = compose(s2, s1);
        assert forall|i: int| 0 <= i < q.len() implies #[trigger] image(s2, n, m)[i] == image(s3, n, q)[i] by {
            lemma_compose(s2, s1, n, q[i]);
        }
        assert(image(s2, n, m) =~= image(s3, n, q));
    }
    assert forall|s3: Symmetry| #[trigger] is_image(n, m, image(s3, n, q)) by {
        let s2 = compose(s3, inverse(s1));
        assert forall|i: int| 0 <= i < q.len() implies #[trigger] image(s2, n, m)[i] == image(s3, n, q)[i] by {
            lemma_sym_on_board(s1, n, q[i]);
            lemma_compose(s3, inverse(s1), n, sym_cell(s1, n, q[i]));
            lemma_inverse(s1, n, q[i]);
        }
        assert(image(s2, n, m) =~= image(s3, n, q));
    }
}

} // verus!
