//! Backtracking search over the propagation engine, as a resumable sequence
//! of solutions.
use vstd::prelude::*;
use crate::cell::{Cell, lemma_size_facts, lemma_size_facts_only, lemma_size_of_only, lemma_size_subset, lemma_spec_cells, supported};
use crate::defer::Defer;
use crate::grid::{consistent, extends, fewest_open, lemma_same_log, shrinks, Sudoku};
use crate::propagate::{fits, is_solution, lemma_fits_shrinks};
use crate::pos::{at_rc, cell_count, correlated, lemma_at_rc, lemma_block, lemma_block_of, lemma_count_bounds};
use vstd::set_lib::{lemma_int_range, lemma_map_size, lemma_subset_equality, set_int_range};
use crate::random::ChooseAtRandom;

verus! {

/// How the search picks the next value to try in a cell.
pub trait Choose<const N: usize> {
    /// One of the candidates of `cell`, or `None` when it has none.
    fn choose_value_in_cell(&mut self, cell: Cell<N>) -> (r: Option<u32>)
        requires
            supported(N as int),
            cell.valid(),
        ensures
            r is None <==> cell.size() == 0,
            r matches Some(v) ==> v < 64 && cell.has(v as int);
}

/// Picks the smallest value left: a deterministic enumeration.
pub struct ChooseFirst<const N: usize>;

impl<const N: usize> Choose<N> for ChooseFirst<N> {
    /// The smallest candidate.
    fn choose_value_in_cell(&mut self, cell: Cell<N>) -> (r: Option<u32>)
        ensures
            r matches Some(v) ==> forall|w: int| 0 <= w < v ==> !#[trigger] cell.has(w),
    {
        proof {
            lemma_size_facts(cell);
        }
        let r = cell.first();
        proof {
            if r is None {
                assert forall|w: int| !cell.has(w) by {
                    if cell.has(w) {
                        assert(0 <= w < Cell::<N>::range());
                    }
                }
            }
        }
        r
    }
}

/// Takes a value chosen by `chooser` out of `cell`.
fn choose_pop<const N: usize, C: Choose<N>>(chooser: &mut C, cell: &mut Cell<N>) -> (r: Option<u32>)
    requires
        supported(N as int),
        old(cell).valid(),
    ensures
        r is None <==> old(cell).size() == 0,
        r is None ==> *final(cell) == *old(cell),
        r matches Some(v) ==> v < Cell::<N>::range() && old(cell).has(v as int) && forall|w: int| #[trigger] final(cell).has(w) <==> (old(cell).has(w) && w != v),
        r is Some ==> final(cell).size() + 1 == old(cell).size(),
        final(cell).valid(),
{
    match chooser.choose_value_in_cell(*cell) {
        Some(v) => {
            cell.remove(v);
            Some(v)
        },
        None => None,
    }
}

/// Every cell holds one value and no two cells of a row, column or box hold the same.
pub open spec fn solved<const N: usize>(cells: Seq<Cell<N>>) -> bool {
    &&& forall|i: int| 0 <= i < cells.len() ==> (#[trigger] cells[i]).size() == 1
    &&& consistent(cells)
}

/// Every value left in `cells` was a candidate in `origin`.
pub open spec fn within<const N: usize>(origin: Seq<Cell<N>>, cells: Seq<Cell<N>>) -> bool {
    &&& cells.len() == origin.len()
    &&& forall|i: int, w: int| 0 <= i < cells.len() && #[trigger] cells[i].has(w) ==> origin[i].has(w)
}

/// A search in progress: the grid, the stack of choices made, and the cell
/// whose candidates are being tried.
pub struct Search<const N: usize, C: Choose<N>> {
    grid: Sudoku<N>,
    chooser: C,
    /// For each open choice: the moves it logged, the candidates of its cell
    /// not tried yet, and its cell.
    stack: Vec<(usize, Cell<N>, usize)>,
    /// The grid before each open choice.
    history: Ghost<Seq<Sudoku<N>>>,
    /// The grid the search started from.
    origin: Ghost<Seq<Cell<N>>>,
    /// The solutions yielded so far, as the value of each cell.
    found: Ghost<Set<Seq<int>>>,
    /// The search ended because the budget ran out.
    out_of_budget: Ghost<bool>,
    pos: usize,
    cell: Cell<N>,
    defer: Defer<N>,
    /// Branch attempts left, or `None` for no limit.
    budget: Option<usize>,
    started: bool,
    done: bool,
}

/// The value of each cell of a grid whose cells hold one value each.
pub open spec fn values_of<const N: usize>(cells: Seq<Cell<N>>) -> Seq<int> {
    Seq::new(cells.len(), |i: int| value_of(cells[i]))
}

/// `sol` fits the grid before some open choice, with a value its cell has
/// not tried yet.
pub open spec fn in_frames<const N: usize>(sol: Seq<int>, h: Seq<Sudoku<N>>, s: Seq<(usize, Cell<N>, usize)>) -> bool {
    exists|k: int| 0 <= k < h.len() && k < s.len() && #[trigger] fits(sol, h[k].cells()) && s[k].1.has(sol[s[k].2 as int])
}

/// The grid at depth `j` of the search: before open choice `j`, or `now`.
pub open spec fn level<const N: usize>(h: Seq<Sudoku<N>>, now: Seq<Cell<N>>, j: int) -> Seq<Cell<N>> {
    if j < h.len() {
        h[j].cells()
    } else {
        now
    }
}

/// Every solution that fits the grid below an open choice gives its cell the
/// value chosen there, not one still left to try.
pub open spec fn excludes<const N: usize>(h: Seq<Sudoku<N>>, s: Seq<(usize, Cell<N>, usize)>, now: Seq<Cell<N>>) -> bool {
    forall|j: int, sol: Seq<int>|
        0 <= j <= h.len() && is_solution::<N>(sol) && #[trigger] fits(sol, level(h, now, j)) ==> forall|k: int|
            0 <= k < j && k < s.len() ==> !(#[trigger] s[k]).1.has(sol[s[k].2 as int])
}

/// `sol` was yielded already or lies ahead of the search: under an open
/// choice, or in the grid now (at a value of `cell` not tried yet, unless
/// the search has not started).
pub open spec fn covered<const N: usize>(
    sol: Seq<int>,
    found: Set<Seq<int>>,
    h: Seq<Sudoku<N>>,
    s: Seq<(usize, Cell<N>, usize)>,
    cells: Seq<Cell<N>>,
    fresh: bool,
    cell: Cell<N>,
    pos: int,
) -> bool {
    found.contains(sol) || in_frames(sol, h, s) || (fits(sol, cells) && (fresh || cell.has(sol[pos])))
}

/// Opening a choice keeps what it covers.
proof fn lemma_frames_push<const N: usize>(sol: Seq<int>, h: Seq<Sudoku<N>>, s: Seq<(usize, Cell<N>, usize)>, x: Sudoku<N>, y: (usize, Cell<N>, usize))
    requires
        h.len() == s.len(),
        in_frames(sol, h, s) || (fits(sol, x.cells()) && y.1.has(sol[y.2 as int])),
    ensures
        in_frames(sol, h.push(x), s.push(y)),
{
    let h2 = h.push(x);
    let s2 = s.push(y);
    if in_frames(sol, h, s) {
        let k = choose|k: int| 0 <= k < h.len() && k < s.len() && #[trigger] fits(sol, h[k].cells()) && s[k].1.has(sol[s[k].2 as int]);
        assert(h2[k] == h[k]);
        assert(s2[k] == s[k]);
        assert(fits(sol, h2[k].cells()));
    } else {
        let k = h.len() as int;
        assert(h2[k] == x);
        assert(s2[k] == y);
        assert(fits(sol, h2[k].cells()));
    }
}

/// Closing the last choice hands what it covered to the grid it restores.
proof fn lemma_frames_pop<const N: usize>(sol: Seq<int>, h: Seq<Sudoku<N>>, s: Seq<(usize, Cell<N>, usize)>)
    requires
        h.len() == s.len(),
        h.len() > 0,
        in_frames(sol, h, s),
    ensures
        in_frames(sol, h.drop_last(), s.drop_last()) || (fits(sol, h.last().cells()) && s.last().1.has(sol[s.last().2 as int])),
{
    let k = choose|k: int| 0 <= k < h.len() && k < s.len() && #[trigger] fits(sol, h[k].cells()) && s[k].1.has(sol[s[k].2 as int]);
    if k < h.len() - 1 {
        assert(h.drop_last()[k] == h[k]);
        assert(s.drop_last()[k] == s[k]);
        assert(fits(sol, h.drop_last()[k].cells()));
    }
}

/// In a grid of single values, the one fitting assignment is its values.
proof fn lemma_single_fit<const N: usize>(g: &Sudoku<N>, sol: Seq<int>)
    requires
        g.wf(),
        forall|i: int| 0 <= i < g.cells().len() ==> (#[trigger] g.cells()[i]).size() == 1,
        sol.len() == g.cells().len(),
        fits(sol, g.cells()),
    ensures
        sol == values_of(g.cells()),
{
    assert forall|i: int| 0 <= i < sol.len() implies sol[i] == #[trigger] values_of(g.cells())[i] by {
        let c = g.cells()[i];
        lemma_size_facts(c);
        lemma_size_facts_only(c);
        assert(c.has(sol[i]));
        let v = value_of(c);
        assert(c.is_only(sol[i]));
        assert(c.is_only(v));
        assert(c.has(v));
    }
    assert(sol =~= values_of(g.cells()));
}


impl<const N: usize, C: Choose<N>> Search<N, C> {
    /// The cells of the grid the search started from.
    pub closed spec fn start(&self) -> Seq<Cell<N>> {
        self.origin@
    }

    /// The search state is sound: each open choice can be undone back to a
    /// consistent grid, and every grid seen stays within the start.
    pub closed spec fn wf(&self) -> bool {
        &&& self.grid.wf()
        &&& consistent(self.grid.cells())
        &&& within(self.origin@, self.grid.cells())
        &&& self.defer.wf()
        &&& self.pos < cell_count(N as int)
        &&& self.cell.valid()
        &&& chain(self.origin@, self.history@, self.stack@, &self.grid)
    }

    /// The search has ended: no further solution will come.
    pub closed spec fn finished(&self) -> bool {
        self.done
    }

    /// The solutions yielded so far, as the value of each cell.
    pub closed spec fn found(&self) -> Set<Seq<int>> {
        self.found@
    }

    /// Branch attempts left, or `None` for no limit.
    pub closed spec fn budget_left(&self) -> Option<usize> {
        self.budget
    }

    /// A bound on the branch attempts the search may still take.
    pub closed spec fn work_left(&self) -> nat {
        if self.done {
            0
        } else if !self.started {
            start_work(self.origin@)
        } else {
            frames_work(self.history@, self.stack@) + depth_work(self.cell, self.grid.cells())
        }
    }

    /// The search ended because its work budget ran out.
    pub closed spec fn out_of_budget(&self) -> bool {
        self.out_of_budget@
    }

    /// Every solution that fits the start and was not yielded yet lies ahead
    /// of the search; once it ends within budget, every one was yielded; and
    /// no solution yielded lies ahead again.
    pub closed spec fn tracks(&self) -> bool {
        self.tracks_at(self.cell)
    }

    /// [`Search::tracks`], with `cell` as the values of the current cell left to try.
    pub closed spec fn tracks_at(&self, cell: Cell<N>) -> bool {
        &&& !self.started ==> self.grid.cells() == self.origin@ && self.stack@.len() == 0 && !self.done
        &&& !self.done ==> forall|sol: Seq<int>|
            is_solution::<N>(sol) && #[trigger] fits(sol, self.origin@) ==> covered(
                sol,
                self.found@,
                self.history@,
                self.stack@,
                self.grid.cells(),
                !self.started,
                cell,
                self.pos as int,
            )
        &&& self.done && !self.out_of_budget@ ==> forall|sol: Seq<int>|
            is_solution::<N>(sol) && #[trigger] fits(sol, self.origin@) ==> self.found@.contains(sol)
        &&& forall|sol: Seq<int>| #[trigger] self.found@.contains(sol) ==> is_solution::<N>(sol) && fits(sol, self.origin@)
        &&& !self.started ==> self.found@ == Set::<Seq<int>>::empty()
        &&& excludes(self.history@, self.stack@, self.grid.cells())
        &&& !self.done ==> !self.out_of_budget@
        &&& self.started && !self.done ==> self.grid.cells()[self.pos as int].size() >= 2
        &&& forall|k: int| 0 <= k < self.stack@.len() ==> (#[trigger] self.history@[k]).cells()[self.stack@[k].2 as int].size() >= 2
        &&& self.started && (forall|i: int| 0 <= i < self.origin@.len() ==> (#[trigger] self.origin@[i]).size() == 1) ==> self.done
        &&& self.started && !self.done ==> forall|sol: Seq<int>| #[trigger] self.found@.contains(sol) ==> !in_frames(
            sol,
            self.history@,
            self.stack@,
        ) && !(fits(sol, self.grid.cells()) && cell.has(sol[self.pos as int]))
    }

    /// Whether the search has ended: no further solution will come.
    pub fn is_done(&self) -> (r: bool)
        ensures
            r == self.finished(),
    {
        self.done
    }

    /// Runs the search until the next solution, and returns it; `None` when
    /// the search is exhausted or the work budget is spent. The budget is
    /// never spent while it covers [`Search::work_left`], and a start whose
    /// cells are all determined is returned at once, whatever the budget.
    #[verifier::rlimit(90)]
    #[verifier::spinoff_prover]
    pub fn next_solution(&mut self) -> (r: Option<Sudoku<N>>)
        requires
            old(self).wf(),
            old(self).tracks(),
        ensures
            final(self).wf(),
            final(self).tracks(),
            final(self).start() == old(self).start(),
            r matches Some(g) ==> g.wf() && solved(g.cells()) && within(old(self).start(), g.cells())
                && final(self).found() == old(self).found().insert(values_of(g.cells()))
                && !old(self).found().contains(values_of(g.cells())),
            r is None ==> final(self).finished() && final(self).found() == old(self).found(),
            old(self).finished() ==> r is None,
            final(self).finished() && !final(self).out_of_budget() ==> forall|sol: Seq<int>|
                is_solution::<N>(sol) && #[trigger] fits(sol, old(self).start()) ==> final(self).found().contains(sol),
            !old(self).finished() && budget_covers(old(self).budget_left(), old(self).work_left()) ==> !final(self).out_of_budget(),
            budget_covers(old(self).budget_left(), old(self).work_left()) ==> budget_covers(final(self).budget_left(), final(self).work_left()),
            !old(self).finished() && (forall|i: int| 0 <= i < old(self).start().len() ==> (#[trigger] old(self).start()[i]).size() == 1) ==> r is Some,
    {
        if self.done {
            return None;
        }
        if !self.started {
            self.started = true;
            let min = self.grid.best();
            if min == 1 {
                self.done = true;
                let g = self.grid.snapshot();
                proof {
                    lemma_all_single(&self.grid);
                    lemma_solved_solution(&self.grid, self.origin@);
                    let f = self.found@.insert(values_of(g.cells()));
                    self.out_of_budget = Ghost(false);
                    assert forall|sol: Seq<int>| is_solution::<N>(sol) && #[trigger] fits(sol, self.origin@) implies f.contains(sol) by {
                        lemma_single_fit(&self.grid, sol);
                    }
                    self.found = Ghost(f);
                }
                return Some(g);
            }
            self.pos = self.grid.min_bifurc(min);
            self.cell = self.grid.cell(self.pos);
            proof {
                let nn = (N * N) as nat;
                lemma_open_pos(self.grid.cells(), self.pos as int);
                lemma_size_facts(self.cell);
                assert(self.cell.valid());
                lemma_count_bounds(N as int);
                let t = tree_work((open_cells(self.origin@) - 1) as nat, nn);
                let c = self.cell.size();
                assert(c * t <= nn * t) by (nonlinear_arith)
                    requires
                        c <= nn,
                ;
                assert(frames_work(self.history@, self.stack@) == 0);
                if forall|i: int| 0 <= i < self.origin@.len() ==> (#[trigger] self.origin@[i]).size() == 1 {
                    assert(self.origin@[self.pos as int].size() == 1);
                }
                assert forall|sol: Seq<int>| is_solution::<N>(sol) && #[trigger] fits(sol, self.origin@) implies covered(
                    sol, self.found@, self.history@, self.stack@, self.grid.cells(), !self.started, self.cell, self.pos as int) by {
                    assert(self.grid.cells()[self.pos as int].has(sol[self.pos as int]));
                }
            }
        }
        while !self.budget_spent()
            invariant
                self.wf(),
                self.tracks(),
                self.started,
                !self.done,
                self.start() == old(self).start(),
                self.found() == old(self).found(),
                !old(self).finished(),
                budget_covers(old(self).budget_left(), old(self).work_left()) ==> budget_covers(self.budget, self.work_left()),
            decreases self.work_left(),
        {
            if let Some(b) = self.budget {
                self.budget = Some((b - 1) as usize);
            }
            let ghost w0 = self.work_left();
            match self.step() {
                Some(g) => {
                    return Some(g);
                },
                None => {
                    if self.done {
                        return None;
                    }
                },
            }
        }
        proof {
            assert(self.work_left() >= 1);
        }
        self.unwind();
        self.done = true;
        proof {
            self.out_of_budget = Ghost(true);
        }
        None
    }

    /// The budget is exhausted.
    fn budget_spent(&self) -> (r: bool)
        ensures
            r == (self.budget == Some(0usize)),
    {
        match self.budget {
            Some(b) => b == 0,
            None => false,
        }
    }

    /// Tries the next value of the current cell, or closes the current choice
    /// when none is left.
    fn step(&mut self) -> (r: Option<Sudoku<N>>)
        requires
            old(self).wf(),
            old(self).tracks(),
            old(self).started,
            !old(self).done,
        ensures
            final(self).budget == old(self).budget,
            final(self).wf(),
            final(self).tracks(),
            final(self).started,
            final(self).start() == old(self).start(),
            r matches Some(g) ==> g.wf() && solved(g.cells()) && within(old(self).start(), g.cells())
                && final(self).found() == old(self).found().insert(values_of(g.cells()))
                && !old(self).found().contains(values_of(g.cells())) && !final(self).done,
            r is None ==> final(self).found() == old(self).found(),
            final(self).done ==> r is None && !final(self).out_of_budget(),
            final(self).work_left() < old(self).work_left(),
    {
        proof {
            lemma_count_bounds(N as int);
        }
        let ghost cell0 = self.cell;
        match choose_pop(&mut self.chooser, &mut self.cell) {
            Some(value) => self.descend(value, Ghost(cell0)),
            None => {
                self.backtrack(Ghost(cell0));
                None
            },
        }
    }

    /// The current cell takes `value`, just taken out of `cell0`: propagates
    /// it, and yields the grid if it is complete, else opens a choice on the
    /// next cell with the fewest candidates.
    fn descend(&mut self, value: u32, cell0: Ghost<Cell<N>>) -> (r: Option<Sudoku<N>>)
        requires
            old(self).wf(),
            old(self).tracks_at(cell0@),
            old(self).started,
            !old(self).done,
            value < N as int * N as int,
            cell0@.has(value as int),
            forall|w: int| #[trigger] old(self).cell.has(w) <==> (cell0@.has(w) && w != value),
            old(self).cell.size() + 1 == cell0@.size(),
        ensures
            final(self).work_left() < frames_work(old(self).history@, old(self).stack@) + depth_work(cell0@, old(self).grid.cells()),
            final(self).budget == old(self).budget,
            final(self).wf(),
            final(self).tracks(),
            final(self).started,
            !final(self).done,
            final(self).start() == old(self).start(),
            r matches Some(g) ==> g.wf() && solved(g.cells()) && within(old(self).start(), g.cells())
                && final(self).found() == old(self).found().insert(values_of(g.cells()))
                && !old(self).found().contains(values_of(g.cells())),
            r is None ==> final(self).found() == old(self).found(),
    {
        proof {
            lemma_count_bounds(N as int);
        }
        let ghost g0 = self.grid;
        let ghost f0 = self.found@;
        let ghost h0 = self.history@;
        let ghost s0 = self.stack@;
        let ghost p0 = self.pos as int;
        let ghost before = self.grid;
        let values = Cell::<N>::from_value(value).complement();
        match self.grid.remove_all_at(values, self.pos, &mut self.defer) {
            Some(moved) => {
                proof {
                    lemma_within_shrinks(self.origin@, &before, &self.grid);
                }
                let min = self.grid.best();
                if min == 1 {
                    let g = self.grid.snapshot();
                    proof {
                        lemma_all_single(&self.grid);
                        lemma_solved_solution(&self.grid, self.origin@);
                        let e = values_of(g.cells());
                        assert(g.cells() == self.grid.cells());
                        assert(fits(e, self.grid.cells()));
                        assert(fits(e, before.cells())) by {
                            lemma_fits_shrinks(&before, &self.grid, e);
                        }
                        assert(e[p0] == value) by {
                            assert(!values.has(e[p0]));
                        }
                        assert(!in_frames(e, h0, s0)) by {
                            lemma_excludes_now(h0, s0, g0.cells(), e);
                        }
                        assert(!f0.contains(e)) by {
                            if f0.contains(e) {
                                assert(!(fits(e, g0.cells()) && cell0@.has(e[p0])));
                            }
                        }
                        let f = f0.insert(e);
                        assert forall|sol: Seq<int>| is_solution::<N>(sol) && #[trigger] fits(sol, self.origin@) implies covered(
                            sol, f, h0, s0, g0.cells(), false, self.cell, p0) by {
                            assert(covered(sol, f0, h0, s0, g0.cells(), false, cell0@, p0));
                            if !f0.contains(sol) && !in_frames(sol, h0, s0) {
                                assert(fits(sol, g0.cells()) && cell0@.has(sol[p0]));
                                if sol[p0] == value {
                                    assert(0 <= sol[p0] < N as int * N as int);
                                    assert(!values.has(sol[p0]));
                                    assert(fits(sol, self.grid.cells()));
                                    lemma_single_fit(&self.grid, sol);
                                } else {
                                    assert(self.cell.has(sol[p0]));
                                }
                            }
                        }
                        assert forall|sol: Seq<int>| #[trigger] f.contains(sol) implies !in_frames(sol, h0, s0)
                            && !(fits(sol, g0.cells()) && self.cell.has(sol[p0])) by {
                            if sol != e {
                                assert(f0.contains(sol));
                            }
                        }
                        self.found = Ghost(f);
                    }
                    self.grid.pop_n_moves(moved);
                    proof {
                        lemma_same_log(&self.grid, &before);
                        lemma_chain_same_log(self.origin@, self.history@, self.stack@, &before, &self.grid);
                        lemma_depth_less(self.cell, cell0@, g0.cells());
                    }
                    return Some(g);
                }
                let ghost cell1 = self.cell;
                let ghost frame = (moved, self.cell, self.pos);
                proof {
                    let gc = g0.cells();
                    let nc = self.grid.cells();
                    assert forall|i: int| 0 <= i < gc.len() implies (#[trigger] nc[i]).size() <= gc[i].size() by {
                        assert forall|w: int| #[trigger] nc[i].has(w) implies gc[i].has(w) by {
                        }
                        lemma_size_subset(gc[i], nc[i]);
                    }
                    let pc = nc[p0];
                    assert(pc.valid());
                    lemma_size_facts(pc);
                    let v0 = choose|v: int| pc.has(v);
                    assert forall|w: int| #[trigger] pc.has(w) <==> w == value by {
                        if pc.has(w) {
                            assert(!values.has(w));
                        }
                        if w == value && !pc.has(w) {
                            assert(!values.has(v0));
                        }
                    }
                    lemma_size_of_only(pc, value as int);
                    lemma_open_shrink(gc, nc, p0);
                }
                self.stack.push((moved, self.cell, self.pos));
                self.history = Ghost(h0.push(before));
                self.pos = self.grid.min_bifurc(min);
                self.cell = self.grid.cell(self.pos);
                proof {
                    lemma_chain_push(self.origin@, h0, self.stack@, &before, &self.grid);
                    assert(self.stack@ == s0.push(frame));
                    lemma_frames_work_push(h0, s0, before, frame);
                    lemma_open_pos(self.grid.cells(), self.pos as int);
                    lemma_size_facts(self.cell);
                    assert(self.cell.valid());
                    lemma_depth_push(cell0@, cell1, g0.cells(), self.cell, self.grid.cells());
                    assert forall|k: int| 0 <= k < self.stack@.len() implies (#[trigger] self.history@[k]).cells()[self.stack@[k].2 as int].size() >= 2 by {
                        if k < s0.len() {
                            assert(self.history@[k] == h0[k]);
                            assert(self.stack@[k] == s0[k]);
                        }
                    }
                    assert forall|sol: Seq<int>| is_solution::<N>(sol) && #[trigger] fits(sol, self.origin@) implies covered(
                        sol, self.found@, self.history@, self.stack@, self.grid.cells(), false, self.cell, self.pos as int) by {
                        assert(covered(sol, f0, h0, s0, g0.cells(), false, cell0@, p0));
                        if !f0.contains(sol) {
                            if in_frames(sol, h0, s0) {
                                lemma_frames_push(sol, h0, s0, before, frame);
                            } else if sol[p0] == value {
                                assert(0 <= sol[p0] < N as int * N as int);
                                assert(!values.has(sol[p0]));
                                assert(fits(sol, self.grid.cells()));
                                assert(self.grid.cells()[self.pos as int].has(sol[self.pos as int]));
                            } else {
                                assert(cell1.has(sol[p0]));
                                lemma_frames_push(sol, h0, s0, before, frame);
                            }
                        }
                    }
                    lemma_excludes_push(h0, s0, &before, &self.grid, frame, value as int, values);
                    assert forall|sol: Seq<int>| #[trigger] self.found@.contains(sol) implies !in_frames(sol, self.history@, self.stack@)
                        && !(fits(sol, self.grid.cells()) && self.cell.has(sol[self.pos as int])) by {
                        assert(!in_frames(sol, h0, s0) && !(fits(sol, g0.cells()) && cell0@.has(sol[p0])));
                        if in_frames(sol, self.history@, self.stack@) {
                            lemma_frames_pop(sol, self.history@, self.stack@);
                            assert(self.history@.drop_last() == h0);
                            assert(self.stack@.drop_last() == s0);
                        }
                        if fits(sol, self.grid.cells()) {
                            lemma_fits_shrinks(&before, &self.grid, sol);
                            assert(!values.has(sol[p0]));
                        }
                    }
                }
                None
            },
            None => {
                proof {
                    lemma_depth_less(self.cell, cell0@, g0.cells());
                    lemma_chain_same_log(self.origin@, self.history@, self.stack@, &before, &self.grid);
                    assert forall|sol: Seq<int>| is_solution::<N>(sol) && #[trigger] fits(sol, self.origin@) implies covered(
                        sol, self.found@, self.history@, self.stack@, self.grid.cells(), false, self.cell, self.pos as int) by {
                        assert(covered(sol, f0, h0, s0, g0.cells(), false, cell0@, p0));
                        if !f0.contains(sol) && !in_frames(sol, h0, s0) {
                            assert(fits(sol, before.cells()));
                            assert(values.has(sol[p0]));
                            assert(self.cell.has(sol[p0]));
                        }
                    }
                }
                None
            },
        }
    }

    /// The current cell has no value left: closes the last open choice and
    /// resumes it, or ends the search when none is open.
    fn backtrack(&mut self, cell0: Ghost<Cell<N>>)
        requires
            old(self).wf(),
            old(self).tracks_at(cell0@),
            old(self).started,
            !old(self).done,
            cell0@.size() == 0,
            old(self).cell == cell0@,
        ensures
            final(self).work_left() < frames_work(old(self).history@, old(self).stack@) + depth_work(cell0@, old(self).grid.cells()),
            final(self).budget == old(self).budget,
            final(self).wf(),
            final(self).tracks(),
            final(self).started,
            final(self).start() == old(self).start(),
            final(self).found() == old(self).found(),
            final(self).done ==> !final(self).out_of_budget(),
    {
        let ghost f0 = self.found@;
        let ghost h0 = self.history@;
        let ghost s0 = self.stack@;
        let ghost g0 = self.grid;
        let ghost p0 = self.pos as int;
        proof {
            lemma_size_facts(cell0@);
            assert forall|sol: Seq<int>| is_solution::<N>(sol) && #[trigger] fits(sol, self.origin@) implies
                f0.contains(sol) || in_frames(sol, h0, s0) by {
                assert(covered(sol, f0, h0, s0, g0.cells(), false, cell0@, p0));
                assert(!cell0@.has(sol[p0]));
            }
        }
        match self.stack.pop() {
            None => {
                self.done = true;
                proof {
                    self.out_of_budget = Ghost(false);
                    assert forall|sol: Seq<int>| is_solution::<N>(sol) && #[trigger] fits(sol, self.origin@) implies self.found@.contains(sol) by {
                        assert(f0.contains(sol) || in_frames(sol, h0, s0));
                    }
                }
            },
            Some(frame) => {
                let (unpush, prev_cell, prev_pos) = frame;
                let ghost top = self.grid;
                proof {
                    assert(extends(&h0[h0.len() - 1], &top, unpush as int));
                }
                self.grid.pop_n_moves(unpush);
                self.history = Ghost(h0.drop_last());
                self.cell = prev_cell;
                self.pos = prev_pos;
                proof {
                    lemma_same_log(&self.grid, &h0[h0.len() - 1]);
                    lemma_chain_pop(self.origin@, h0, s0, &top, &self.grid);
                    assert(frames_work(h0, s0) == frames_work(self.history@, self.stack@) + depth_work(self.cell, self.grid.cells()));
                    assert forall|k: int| 0 <= k < self.stack@.len() implies (#[trigger] self.history@[k]).cells()[self.stack@[k].2 as int].size() >= 2 by {
                        assert(self.history@[k] == h0[k]);
                        assert(self.stack@[k] == s0[k]);
                    }
                    assert(h0[h0.len() - 1] == h0.last());
                    assert(self.grid.cells()[self.pos as int].size() >= 2);
                    assert forall|sol: Seq<int>| is_solution::<N>(sol) && #[trigger] fits(sol, self.origin@) implies covered(
                        sol, self.found@, self.history@, self.stack@, self.grid.cells(), false, self.cell, self.pos as int) by {
                        assert(f0.contains(sol) || in_frames(sol, h0, s0));
                        if !f0.contains(sol) {
                            lemma_frames_pop(sol, h0, s0);
                        }
                    }
                    lemma_excludes_pop(h0, s0, g0.cells(), self.grid.cells());
                    assert forall|sol: Seq<int>| #[trigger] self.found@.contains(sol) implies !in_frames(sol, self.history@, self.stack@)
                        && !(fits(sol, self.grid.cells()) && self.cell.has(sol[self.pos as int])) by {
                        assert(!in_frames(sol, h0, s0));
                        if in_frames(sol, self.history@, self.stack@) {
                            lemma_frames_push(sol, self.history@, self.stack@, h0.last(), s0.last());
                            assert(self.history@.push(h0.last()) == h0);
                            assert(self.stack@.push(s0.last()) == s0);
                        }
                        if fits(sol, self.grid.cells()) && self.cell.has(sol[self.pos as int]) {
                            lemma_frames_push(sol, self.history@, self.stack@, h0.last(), s0.last());
                            assert(self.history@.push(h0.last()) == h0);
                            assert(self.stack@.push(s0.last()) == s0);
                        }
                    }
                }
            },
        }
    }
}


impl<const N: usize, C: Choose<N>> Search<N, C> {
    /// Undoes every open choice.
    fn unwind(&mut self)
        requires
            old(self).wf(),
        ensures
            final(self).wf(),
            final(self).start() == old(self).start(),
            final(self).found@ == old(self).found@,
            final(self).started == old(self).started,
            final(self).stack@.len() == 0,
    {
        while self.stack.len() > 0
            invariant
                self.wf(),
                self.start() == old(self).start(),
                self.found@ == old(self).found@,
                self.started == old(self).started,
            decreases self.stack@.len(),
        {
            let ghost s0 = self.stack@;
            let frame = self.stack.pop().unwrap();
            let ghost h = self.history@;
            let ghost top = self.grid;
            proof {
                assert(extends(&h[h.len() - 1], &top, frame.0 as int));
            }
            self.grid.pop_n_moves(frame.0);
            self.history = Ghost(h.drop_last());
            proof {
                lemma_same_log(&self.grid, &h[h.len() - 1]);
                lemma_chain_pop(self.origin@, h, s0, &top, &self.grid);
            }
        }
    }
}

/// The grids of a search: `history[k]` before choice `k`, `last` now.
pub open spec fn chain<const N: usize>(
    origin: Seq<Cell<N>>,
    h: Seq<Sudoku<N>>,
    s: Seq<(usize, Cell<N>, usize)>,
    last: &Sudoku<N>,
) -> bool {
    &&& h.len() == s.len()
    &&& forall|k: int| 0 <= k < h.len() ==> {
        &&& (#[trigger] h[k]).wf()
        &&& consistent(h[k].cells())
        &&& within(origin, h[k].cells())
        &&& s[k].1.valid()
        &&& s[k].2 < cell_count(N as int)
        &&& extends(&h[k], if k + 1 < h.len() { &h[k + 1] } else { last }, s[k].0 as int)
    }
}

/// The chain only looks at the log of the last grid.
proof fn lemma_chain_same_log<const N: usize>(
    origin: Seq<Cell<N>>,
    h: Seq<Sudoku<N>>,
    s: Seq<(usize, Cell<N>, usize)>,
    a: &Sudoku<N>,
    b: &Sudoku<N>,
)
    requires
        chain(origin, h, s, a),
        a.log() == b.log(),
    ensures
        chain(origin, h, s, b),
{
    assert forall|k: int| 0 <= k < h.len() implies extends(&(#[trigger] h[k]), if k + 1 < h.len() { &h[k + 1] } else { b }, s[k].0 as int) by {
        if k + 1 < h.len() {
        } else {
            assert(extends(&h[k], a, s[k].0 as int));
        }
    }
}

/// Opening a choice on top of `before` that led to `after`.
proof fn lemma_chain_push<const N: usize>(
    origin: Seq<Cell<N>>,
    h: Seq<Sudoku<N>>,
    s: Seq<(usize, Cell<N>, usize)>,
    before: &Sudoku<N>,
    after: &Sudoku<N>,
)
    requires
        chain(origin, h, s.drop_last(), before),
        s.len() > 0,
        before.wf(),
        consistent(before.cells()),
        within(origin, before.cells()),
        s.last().1.valid(),
        s.last().2 < cell_count(N as int),
        extends(before, after, s.last().0 as int),
    ensures
        chain(origin, h.push(*before), s, after),
{
    let h2 = h.push(*before);
    assert forall|k: int| 0 <= k < h2.len() implies {
        &&& (#[trigger] h2[k]).wf()
        &&& consistent(h2[k].cells())
        &&& within(origin, h2[k].cells())
        &&& s[k].1.valid()
        &&& s[k].2 < cell_count(N as int)
        &&& extends(&h2[k], if k + 1 < h2.len() { &h2[k + 1] } else { after }, s[k].0 as int)
    } by {
        if k < h.len() {
            assert(h2[k] == h[k]);
            assert(s[k] == s.drop_last()[k]);
            if k + 1 < h.len() {
                assert(h2[k + 1] == h[k + 1]);
            } else {
                assert(h2[k + 1] == *before);
            }
        }
    }
}

/// Closing the last choice, after undoing its moves.
#[verifier::rlimit(60)]
proof fn lemma_chain_pop<const N: usize>(
    origin: Seq<Cell<N>>,
    h: Seq<Sudoku<N>>,
    s: Seq<(usize, Cell<N>, usize)>,
    top: &Sudoku<N>,
    now: &Sudoku<N>,
)
    requires
        chain(origin, h, s, top),
        h.len() > 0,
        now.log() == h.last().log(),
    ensures
        chain(origin, h.drop_last(), s.drop_last(), now),
{
    let h2 = h.drop_last();
    let s2 = s.drop_last();
    assert forall|k: int| 0 <= k < h2.len() implies {
        &&& (#[trigger] h2[k]).wf()
        &&& consistent(h2[k].cells())
        &&& within(origin, h2[k].cells())
        &&& s2[k].1.valid()
        &&& s2[k].2 < cell_count(N as int)
        &&& extends(&h2[k], if k + 1 < h2.len() { &h2[k + 1] } else { now }, s2[k].0 as int)
    } by {
        assert(h2[k] == h[k]);
        assert(s2[k] == s[k]);
        assert(k + 1 < h.len());
        assert(extends(&h[k], &h[k + 1], s[k].0 as int));
        if k + 1 < h2.len() {
            assert(h2[k + 1] == h[k + 1]);
        } else {
            assert(h[k + 1] == h.last());
        }
    }
}

/// A grid that shrinks from one within the start is within the start.
proof fn lemma_within_shrinks<const N: usize>(origin: Seq<Cell<N>>, a: &Sudoku<N>, b: &Sudoku<N>)
    requires
        a.wf(),
        b.wf(),
        within(origin, a.cells()),
        shrinks(a, b),
    ensures
        within(origin, b.cells()),
{
    assert forall|i: int, w: int| 0 <= i < b.cells().len() && #[trigger] b.cells()[i].has(w) implies origin[i].has(w) by {
        assert(a.cells()[i].has(w));
    }
}

/// With every cell down to one value, the grid has none open.
proof fn lemma_all_single<const N: usize>(g: &Sudoku<N>)
    requires
        g.wf(),
        fewest_open(g.cells(), 1),
    ensures
        forall|i: int| 0 <= i < g.cells().len() ==> (#[trigger] g.cells()[i]).size() == 1,
{
}

impl<const N: usize> Sudoku<N> {
    /// The work budget of one generation attempt: `2^(N+5)` branch attempts.
    pub fn ttl() -> (r: usize)
        requires
            supported(N as int),
        ensures
            r == 1usize << (N + 5),
    {
        1usize << (N + 5)
    }

    /// Starts a search from this grid: `chooser` orders the values tried in
    /// each cell, and at most `budget` branch attempts are made overall
    /// (`None`: no limit).
    pub fn brute_force<C: Choose<N>>(self, chooser: C, budget: Option<usize>) -> (r: Search<N, C>)
        requires
            self.wf(),
            consistent(self.cells()),
        ensures
            r.budget_left() == budget,
            r.work_left() == start_work(self.cells()),
            r.wf(),
            r.tracks(),
            r.start() == self.cells(),
            r.found() == Set::<Seq<int>>::empty(),
            !r.finished(),
    {
        let ghost origin = self.cells();
        proof {
            lemma_count_bounds(N as int);
        }
        let cell = self.cell(0);
        Search {
            grid: self,
            chooser,
            stack: Vec::new(),
            history: Ghost(Seq::empty()),
            origin: Ghost(origin),
            found: Ghost(Set::empty()),
            out_of_budget: Ghost(false),
            pos: 0,
            cell,
            defer: Defer::new(),
            budget,
            started: false,
            done: false,
        }
    }
}

/// A complete grid of block size `N` drawn at random from `seed`: each attempt
/// runs a random search from the empty grid within the budget of
/// [`Sudoku::ttl`], and a failed attempt retries with the next seed, at most
/// `retry` attempts in all (the attempts stop early should the seed pass
/// `u32::MAX`). Attempt `k` uses the seed `seed + k`.
pub fn generate<const N: usize>(seed: u32, retry: usize) -> (r: Option<Sudoku<N>>)
    requires
        supported(N as int),
    ensures
        r matches Some(g) ==> g.wf() && solved(g.cells()),
        retry == 0 ==> r is None,
        N == 1 && retry >= 1 ==> r is Some,
{
    let mut k: usize = 0;
    while k < retry
        invariant
            supported(N as int),
            N == 1 ==> k == 0,
        decreases retry - k,
    {
        if k > (u32::MAX - seed) as usize {
            return None;
        }
        let attempt = seed + k as u32;
        let empty = Sudoku::<N>::new();
        proof {
            if N == 1 {
                lemma_unit_square(N as int);
                lemma_spec_cells::<N>(0);
                assert forall|i: int| 0 <= i < empty.cells().len() implies (#[trigger] empty.cells()[i]).size() == 1 by {
                    let c = empty.cells()[i];
                    assert(c == Cell::<N>::full_spec());
                    assert forall|w: int| #[trigger] c.has(w) <==> w == 0 by {
                        assert(c.has(w) <==> 0 <= w < Cell::<N>::range());
                    }
                    lemma_size_of_only(c, 0);
                }
            }
        }
        let mut search = empty.brute_force(ChooseAtRandom::<N>::new(attempt), Some(Sudoku::<N>::ttl()));
        if let Some(solution) = search.next_solution() {
            return Some(solution);
        }
        k = k + 1;
    }
    None
}

/// The value of a cell that holds exactly one.
pub open spec fn value_of<const N: usize>(c: Cell<N>) -> int {
    choose|v: int| c.is_only(v)
}

/// A map from `0..r` into `0..r` that never repeats takes every value.
pub proof fn lemma_pigeonhole(f: spec_fn(int) -> int, r: int)
    requires
        0 <= r,
        forall|i: int| 0 <= i < r ==> 0 <= #[trigger] f(i) < r,
        forall|i: int, j: int| 0 <= i < r && 0 <= j < r && i != j ==> #[trigger] f(i) != #[trigger] f(j),
    ensures
        forall|v: int| 0 <= v < r ==> #[trigger] set_int_range(0, r).map(f).contains(v),
{
    let x = set_int_range(0, r);
    lemma_int_range(0, r);
    let y = x.map(f);
    lemma_map_size(x, y, f);
    assert(y.subset_of(x));
    lemma_subset_equality(y, x);
    assert forall|v: int| 0 <= v < r implies #[trigger] y.contains(v) by {
        assert(x.contains(v));
    }
}

/// Group `g` of `kind` has a cell holding exactly `v`.
pub open spec fn group_holds<const N: usize>(cells: Seq<Cell<N>>, kind: int, g: int, v: int) -> bool {
    exists|t: int| 0 <= t < N as int * N as int && cells[#[trigger] member(kind, g, t, N as int)].is_only(v)
}

/// The cell of member `t` of group `g` of `kind`: row `g`, column `g`, or
/// box `g` (boxes numbered row by row), members in reading order.
pub open spec fn member(kind: int, g: int, t: int, n: int) -> int {
    if kind == 0 {
        at_rc(g, t, n)
    } else if kind == 1 {
        at_rc(t, g, n)
    } else {
        at_rc((g / n) * n + t / n, (g % n) * n + t % n, n)
    }
}

/// Members of one group are distinct correlated cells.
pub proof fn lemma_members<const N: usize>(kind: int, g: int, t: int, u: int)
    requires
        supported(N as int),
        0 <= kind < 3,
        0 <= g < N as int * N as int,
        0 <= t < N as int * N as int,
        0 <= u < N as int * N as int,
    ensures
        0 <= member(kind, g, t, N as int) < cell_count(N as int),
        t != u ==> correlated(member(kind, g, t, N as int), member(kind, g, u, N as int), N as int),
{
    let n = N as int;
    lemma_count_bounds(n);
    if kind == 2 {
        lemma_block_of(g, n);
        lemma_block_of(t, n);
        lemma_block_of(u, n);
        lemma_block(g / n, t / n, n);
        lemma_block(g % n, t % n, n);
        lemma_block(g / n, u / n, n);
        lemma_block(g % n, u % n, n);
        lemma_at_rc((g / n) * n + t / n, (g % n) * n + t % n, n);
        lemma_at_rc((g / n) * n + u / n, (g % n) * n + u % n, n);
        if t != u {
            assert(t / n != u / n || t % n != u % n);
        }
    } else {
        lemma_at_rc(g, t, n);
        lemma_at_rc(t, g, n);
        lemma_at_rc(g, u, n);
        lemma_at_rc(u, g, n);
    }
}

/// In a solved grid every row, every column and every box holds each value
/// of `0..N*N` exactly once: its values are a permutation of `0..N*N`.
pub proof fn lemma_solved_groups_are_permutations<const N: usize>(s: &Sudoku<N>)
    requires
        s.wf(),
        solved(s.cells()),
    ensures
        forall|kind: int, g: int, v: int|
            0 <= kind < 3 && 0 <= g < N as int * N as int && 0 <= v < N as int * N as int ==> #[trigger] group_holds(s.cells(), kind, g, v),
        forall|kind: int, g: int, t: int, u: int|
            0 <= kind < 3 && 0 <= g < N as int * N as int && 0 <= t < N as int * N as int && 0 <= u < N as int * N as int
                && t != u ==> value_of(s.cells()[#[trigger] member(kind, g, t, N as int)]) != value_of(
                s.cells()[#[trigger] member(kind, g, u, N as int)],
            ),
{
    let n = N as int;
    let r = n * n;
    let cells = s.cells();
    assert forall|i: int| 0 <= i < cells.len() implies cells[i].is_only(#[trigger] value_of(cells[i])) && 0 <= value_of(cells[i]) < r by {
        lemma_size_facts(cells[i]);
        let v = choose|v: int| cells[i].is_only(v);
        assert(cells[i].has(v));
        assert(cells[i].valid());
    }
    assert forall|kind: int, g: int, t: int, u: int|
        0 <= kind < 3 && 0 <= g < r && 0 <= t < r && 0 <= u < r && t != u implies value_of(cells[#[trigger] member(kind, g, t, n)]) != value_of(
        cells[#[trigger] member(kind, g, u, n)],
    ) by {
        lemma_members::<N>(kind, g, t, u);
        lemma_members::<N>(kind, g, u, t);
        let i = member(kind, g, t, n);
        let j = member(kind, g, u, n);
        assert(cells[i].is_only(value_of(cells[i])));
        assert(cells[i].has(value_of(cells[i])));
        assert(cells[j].has(value_of(cells[j])));
    }
    assert forall|kind: int, g: int, v: int| 0 <= kind < 3 && 0 <= g < r && 0 <= v < r implies #[trigger] group_holds(cells, kind, g, v) by {
        let f = |t: int| value_of(cells[member(kind, g, t, n)]);
        assert forall|t: int| 0 <= t < r implies 0 <= #[trigger] f(t) < r by {
            lemma_members::<N>(kind, g, t, t);
            assert(f(t) == value_of(cells[member(kind, g, t, n)]));
        }
        assert forall|t: int, u: int| 0 <= t < r && 0 <= u < r && t != u implies #[trigger] f(t) != #[trigger] f(u) by {
            lemma_members::<N>(kind, g, t, u);
            assert(f(t) == value_of(cells[member(kind, g, t, n)]));
            assert(f(u) == value_of(cells[member(kind, g, u, n)]));
        }
        lemma_pigeonhole(f, r);
        assert(set_int_range(0, r).map(f).contains(v));
        let t = choose|t: int| set_int_range(0, r).contains(t) && f(t) == v;
        lemma_members::<N>(kind, g, t, t);
        assert(f(t) == value_of(cells[member(kind, g, t, n)]));
        assert(cells[member(kind, g, t, n)].is_only(v));
    }
}

/// The values of a solved grid within the start form a solution that fits
/// the start.
proof fn lemma_solved_solution<const N: usize>(g: &Sudoku<N>, origin: Seq<Cell<N>>)
    requires
        g.wf(),
        solved(g.cells()),
        within(origin, g.cells()),
    ensures
        is_solution::<N>(values_of(g.cells())),
        fits(values_of(g.cells()), origin),
        fits(values_of(g.cells()), g.cells()),
{
    let cells = g.cells();
    let sol = values_of(cells);
    assert forall|i: int| 0 <= i < cells.len() implies cells[i].is_only(#[trigger] sol[i]) && 0 <= sol[i] < N as int * N as int by {
        lemma_size_facts(cells[i]);
        let v = choose|v: int| cells[i].is_only(v);
        assert(cells[i].has(v));
        assert(cells[i].valid());
        assert(sol[i] == value_of(cells[i]));
    }
    assert forall|i: int, j: int| 0 <= i < sol.len() && 0 <= j < sol.len() && correlated(i, j, N as int) implies #[trigger] sol[i] != #[trigger] sol[j] by {
        assert(cells[i].has(sol[i]));
        assert(cells[j].has(sol[j]));
    }
    assert forall|i: int| 0 <= i < origin.len() implies #[trigger] origin[i].has(sol[i]) by {
        assert(cells[i].has(sol[i]));
    }
    assert forall|i: int| 0 <= i < cells.len() implies #[trigger] cells[i].has(sol[i]) by {
        assert(cells[i].is_only(sol[i]));
    }
}

/// Whatever order the values are tried in, two searches from the same grid
/// that both run to their end within budget find the same solutions: all
/// those that fit the grid.
pub proof fn lemma_strategies_agree<const N: usize, C1: Choose<N>, C2: Choose<N>>(a: &Search<N, C1>, b: &Search<N, C2>)
    requires
        a.tracks(),
        b.tracks(),
        a.finished() && !a.out_of_budget(),
        b.finished() && !b.out_of_budget(),
        a.start() == b.start(),
    ensures
        a.found() == b.found(),
        forall|sol: Seq<int>| #[trigger] a.found().contains(sol) <==> (is_solution::<N>(sol) && fits(sol, a.start())),
{
    a.lemma_found_exact();
    b.lemma_found_exact();
    assert(a.found() =~= b.found());
}

impl<const N: usize, C: Choose<N>> Search<N, C> {
    /// A search ended within budget found exactly the solutions that fit its start.
    pub proof fn lemma_found_exact(&self)
        requires
            self.tracks(),
            self.finished() && !self.out_of_budget(),
        ensures
            forall|sol: Seq<int>| #[trigger] self.found().contains(sol) <==> (is_solution::<N>(sol) && fits(sol, self.start())),
    {
        assert forall|sol: Seq<int>| #[trigger] self.found().contains(sol) <==> (is_solution::<N>(sol) && fits(sol, self.start())) by {
            if is_solution::<N>(sol) && fits(sol, self.start()) {
                assert(fits(sol, self.origin@));
            }
        }
    }
}

/// A solution fitting the grid now lies under no open choice.
proof fn lemma_excludes_now<const N: usize>(h: Seq<Sudoku<N>>, s: Seq<(usize, Cell<N>, usize)>, now: Seq<Cell<N>>, sol: Seq<int>)
    requires
        excludes(h, s, now),
        h.len() == s.len(),
        is_solution::<N>(sol),
        fits(sol, now),
    ensures
        !in_frames(sol, h, s),
{
    assert(level(h, now, h.len() as int) == now);
    assert(fits(sol, level(h, now, h.len() as int)));
    if in_frames(sol, h, s) {
        let k = choose|k: int| 0 <= k < h.len() && k < s.len() && #[trigger] fits(sol, h[k].cells()) && s[k].1.has(sol[s[k].2 as int]);
        assert(!s[k].1.has(sol[s[k].2 as int]));
    }
}

/// Opening a choice on the grid `before`, whose cell took `value` (what the
/// frame leaves to try excludes it), keeps open choices exclusive.
proof fn lemma_excludes_push<const N: usize>(
    h: Seq<Sudoku<N>>,
    s: Seq<(usize, Cell<N>, usize)>,
    before: &Sudoku<N>,
    after: &Sudoku<N>,
    frame: (usize, Cell<N>, usize),
    value: int,
    values: Cell<N>,
)
    requires
        h.len() == s.len(),
        excludes(h, s, before.cells()),
        before.wf(),
        after.wf(),
        shrinks(before, after),
        !frame.1.has(value),
        frame.2 < cell_count(N as int),
        forall|w: int| 0 <= w < N as int * N as int ==> (#[trigger] values.has(w) <==> w != value),
        forall|sol: Seq<int>| is_solution::<N>(sol) ==> (#[trigger] fits(sol, after.cells())
            <==> (fits(sol, before.cells()) && !values.has(sol[frame.2 as int]))),
    ensures
        excludes(h.push(*before), s.push(frame), after.cells()),
{
    let h2 = h.push(*before);
    let s2 = s.push(frame);
    assert forall|j: int, sol: Seq<int>|
        0 <= j <= h2.len() && is_solution::<N>(sol) && #[trigger] fits(sol, level(h2, after.cells(), j)) implies forall|k: int|
            0 <= k < j && k < s2.len() ==> !(#[trigger] s2[k]).1.has(sol[s2[k].2 as int]) by {
        if j <= h.len() {
            assert(level(h2, after.cells(), j) == level(h, before.cells(), j));
            assert(fits(sol, level(h, before.cells(), j)));
            assert forall|k: int| 0 <= k < j && k < s2.len() implies !(#[trigger] s2[k]).1.has(sol[s2[k].2 as int]) by {
                assert(s2[k] == s[k]);
            }
        } else {
            assert(level(h2, after.cells(), j) == after.cells());
            lemma_fits_shrinks(before, after, sol);
            assert(level(h, before.cells(), h.len() as int) == before.cells());
            assert(fits(sol, level(h, before.cells(), h.len() as int)));
            assert(0 <= sol[frame.2 as int] < N as int * N as int);
            assert(sol[frame.2 as int] == value);
            assert forall|k: int| 0 <= k < j && k < s2.len() implies !(#[trigger] s2[k]).1.has(sol[s2[k].2 as int]) by {
                if k < s.len() {
                    assert(s2[k] == s[k]);
                } else {
                    assert(s2[k] == frame);
                }
            }
        }
    }
}

/// Closing the last choice, back on the grid it was opened on, keeps open
/// choices exclusive.
proof fn lemma_excludes_pop<const N: usize>(h: Seq<Sudoku<N>>, s: Seq<(usize, Cell<N>, usize)>, now: Seq<Cell<N>>, back: Seq<Cell<N>>)
    requires
        h.len() == s.len(),
        h.len() > 0,
        excludes(h, s, now),
        back == h.last().cells(),
    ensures
        excludes(h.drop_last(), s.drop_last(), back),
{
    let h2 = h.drop_last();
    let s2 = s.drop_last();
    assert forall|j: int, sol: Seq<int>|
        0 <= j <= h2.len() && is_solution::<N>(sol) && #[trigger] fits(sol, level(h2, back, j)) implies forall|k: int|
            0 <= k < j && k < s2.len() ==> !(#[trigger] s2[k]).1.has(sol[s2[k].2 as int]) by {
        assert(level(h2, back, j) == level(h, now, j));
        assert(fits(sol, level(h, now, j)));
        assert forall|k: int| 0 <= k < j && k < s2.len() implies !(#[trigger] s2[k]).1.has(sol[s2[k].2 as int]) by {
            assert(s2[k] == s[k]);
        }
    }
}

/// A grid whose cells are all determined but cell `w` has at most one
/// fitting solution: the row of `w` already holds every other value.
pub proof fn lemma_one_open_cell_unique<const N: usize>(start: Seq<Cell<N>>, w: int, sol0: Seq<int>, sol: Seq<int>)
    requires
        supported(N as int),
        start.len() == cell_count(N as int),
        0 <= w < cell_count(N as int),
        forall|i: int| 0 <= i < start.len() && i != w ==> (#[trigger] start[i]).size() == 1,
        is_solution::<N>(sol0),
        fits(sol0, start),
        is_solution::<N>(sol),
        fits(sol, start),
    ensures
        sol == sol0,
{
    let n = N as int;
    let r = n * n;
    lemma_count_bounds(n);
    assert forall|i: int| 0 <= i < start.len() && i != w implies sol[i] == sol0[i] by {
        lemma_size_facts_only(start[i]);
        assert(start[i].has(sol[i]));
        assert(start[i].has(sol0[i]));
        assert(start[i].is_only(sol[i]));
    }
    let g = crate::pos::row_of(w, n);
    crate::pos::lemma_rc_of(w, n);
    let f = |t: int| sol[member(0, g, t, n)];
    assert forall|t: int| 0 <= t < r implies 0 <= #[trigger] f(t) < r by {
        lemma_members::<N>(0, g, t, t);
        assert(f(t) == sol[member(0, g, t, n)]);
    }
    assert forall|t: int, u: int| 0 <= t < r && 0 <= u < r && t != u implies #[trigger] f(t) != #[trigger] f(u) by {
        lemma_members::<N>(0, g, t, u);
        lemma_members::<N>(0, g, u, u);
        assert(f(t) == sol[member(0, g, t, n)]);
        assert(f(u) == sol[member(0, g, u, n)]);
    }
    lemma_pigeonhole(f, r);
    assert(set_int_range(0, r).map(f).contains(sol0[w]));
    let t = choose|t: int| set_int_range(0, r).contains(t) && f(t) == sol0[w];
    let m = member(0, g, t, n);
    lemma_members::<N>(0, g, t, t);
    lemma_at_rc(g, t, n);
    if m != w {
        assert(sol[m] == sol0[m]);
        assert(correlated(m, w, n));
        assert(sol0[m] != sol0[w]);
    }
    assert(sol =~= sol0);
}

/// Solving a grid whose cells are all determined but one, and that some
/// solution fits, yields exactly that solution: a search from it that runs
/// to its end within budget has found that one and no other.
pub proof fn lemma_one_open_cell<const N: usize, C: Choose<N>>(search: &Search<N, C>, w: int, sol0: Seq<int>)
    requires
        supported(N as int),
        search.tracks(),
        search.finished() && !search.out_of_budget(),
        search.start().len() == cell_count(N as int),
        0 <= w < cell_count(N as int),
        forall|i: int| 0 <= i < search.start().len() && i != w ==> (#[trigger] search.start()[i]).size() == 1,
        is_solution::<N>(sol0),
        fits(sol0, search.start()),
    ensures
        search.found() == Set::<Seq<int>>::empty().insert(sol0),
{
    search.lemma_found_exact();
    assert forall|sol: Seq<int>| #[trigger] search.found().contains(sol) <==> sol == sol0 by {
        if search.found().contains(sol) {
            lemma_one_open_cell_unique(search.start(), w, sol0, sol);
        }
    }
    assert(search.found() =~= Set::<Seq<int>>::empty().insert(sol0));
}

/// The number of cells of `cells` with two candidates or more.
pub open spec fn open_cells<const N: usize>(cells: Seq<Cell<N>>) -> nat
    decreases cells.len(),
{
    if cells.len() == 0 {
        0
    } else {
        open_cells(cells.drop_last()) + if cells.last().size() >= 2 {
            1nat
        } else {
            0nat
        }
    }
}

/// A bound on the branch attempts of a search below a grid with `open`
/// undecided cells, each with at most `r` candidates.
pub open spec fn tree_work(open: nat, r: nat) -> nat
    decreases open,
{
    if open == 0 {
        1
    } else {
        r * tree_work((open - 1) as nat, r) + 2
    }
}

/// The attempts left at one depth of a search: each candidate left to try
/// may open a subtree below `cells`, and one more closes the depth.
pub open spec fn depth_work<const N: usize>(left: Cell<N>, cells: Seq<Cell<N>>) -> nat {
    left.size() * tree_work((open_cells(cells) - 1) as nat, (N * N) as nat) + 1
}

/// The attempts left at the depths of the open choices.
pub open spec fn frames_work<const N: usize>(h: Seq<Sudoku<N>>, s: Seq<(usize, Cell<N>, usize)>) -> nat
    decreases s.len(),
{
    if s.len() == 0 || h.len() == 0 {
        0
    } else {
        frames_work(h.drop_last(), s.drop_last()) + depth_work(s.last().1, h.last().cells())
    }
}

/// The attempts a search from `cells` may take at most.
pub open spec fn start_work<const N: usize>(cells: Seq<Cell<N>>) -> nat {
    if open_cells(cells) == 0 {
        0
    } else {
        (N * N) as nat * tree_work((open_cells(cells) - 1) as nat, (N * N) as nat) + 1
    }
}

/// A budget of `budget` attempts covers `work` of them (none means no limit).
pub open spec fn budget_covers(budget: Option<usize>, work: nat) -> bool {
    match budget {
        None => true,
        Some(b) => b >= work,
    }
}

proof fn lemma_tree_mono(a: nat, b: nat, r: nat)
    requires
        a <= b,
        r >= 1,
    ensures
        tree_work(a, r) <= tree_work(b, r),
        tree_work(a, r) >= 1,
    decreases b,
{
    lemma_tree_pos(b, r);
    if b > a {
        lemma_tree_mono(a, (b - 1) as nat, r);
        let t = tree_work((b - 1) as nat, r);
        assert(r * t >= t) by (nonlinear_arith)
            requires
                r >= 1,
                t >= 0,
        ;
    } else {
        lemma_tree_pos(a, r);
    }
}

proof fn lemma_tree_pos(a: nat, r: nat)
    ensures
        tree_work(a, r) >= 1,
    decreases a,
{
    if a > 0 {
        lemma_tree_pos((a - 1) as nat, r);
    }
}

/// Shrinking every cell never opens a cell; deciding an open one closes it.
proof fn lemma_open_shrink<const N: usize>(a: Seq<Cell<N>>, b: Seq<Cell<N>>, j: int)
    requires
        a.len() == b.len(),
        forall|i: int| 0 <= i < a.len() ==> (#[trigger] b[i]).size() <= a[i].size(),
    ensures
        open_cells(b) <= open_cells(a),
        0 <= j < a.len() && a[j].size() >= 2 && b[j].size() <= 1 ==> open_cells(b) < open_cells(a),
    decreases a.len(),
{
    if a.len() > 0 {
        assert(b.last().size() <= a.last().size());
        let (a2, b2) = (a.drop_last(), b.drop_last());
        assert forall|i: int| 0 <= i < a2.len() implies (#[trigger] b2[i]).size() <= a2[i].size() by {
            assert(b2[i] == b[i] && a2[i] == a[i]);
        }
        lemma_open_shrink(a2, b2, j);
        if 0 <= j < a2.len() {
            assert(a2[j] == a[j] && b2[j] == b[j]);
        }
    }
}

/// A grid with an open cell has open cells.
proof fn lemma_open_pos<const N: usize>(a: Seq<Cell<N>>, j: int)
    requires
        0 <= j < a.len(),
        a[j].size() >= 2,
    ensures
        open_cells(a) >= 1,
    decreases a.len(),
{
    if j < a.len() - 1 {
        assert(a.drop_last()[j] == a[j]);
        lemma_open_pos(a.drop_last(), j);
    }
}

/// The attempts of the open choices after one more is opened.
proof fn lemma_frames_work_push<const N: usize>(h: Seq<Sudoku<N>>, s: Seq<(usize, Cell<N>, usize)>, x: Sudoku<N>, f: (usize, Cell<N>, usize))
    requires
        h.len() == s.len(),
    ensures
        frames_work(h.push(x), s.push(f)) == frames_work(h, s) + depth_work(f.1, x.cells()),
{
    assert(h.push(x).drop_last() == h);
    assert(s.push(f).drop_last() == s);
}

/// Trying one more value of a depth leaves fewer attempts there.
proof fn lemma_depth_less<const N: usize>(c1: Cell<N>, c0: Cell<N>, cells: Seq<Cell<N>>)
    requires
        c1.size() + 1 == c0.size(),
    ensures
        depth_work(c1, cells) < depth_work(c0, cells),
{
    let t = tree_work((open_cells(cells) - 1) as nat, (N * N) as nat);
    lemma_tree_pos((open_cells(cells) - 1) as nat, (N * N) as nat);
    let a = c1.size();
    assert(a * t < (a + 1) * t) by (nonlinear_arith)
        requires
            t >= 1,
    ;
}

/// Opening a choice below a depth costs less than the value it took there.
proof fn lemma_depth_push<const N: usize>(c0: Cell<N>, c1: Cell<N>, cells: Seq<Cell<N>>, c2: Cell<N>, cells2: Seq<Cell<N>>)
    requires
        supported(N as int),
        c1.size() + 1 == c0.size(),
        c2.size() <= N as int * N as int,
        1 <= open_cells(cells2) < open_cells(cells),
    ensures
        depth_work(c1, cells) + depth_work(c2, cells2) < depth_work(c0, cells),
{
    let r = (N * N) as nat;
    let o = open_cells(cells);
    let o2 = open_cells(cells2);
    crate::cell::lemma_square_le(N as int);
    assert(r >= 1) by (nonlinear_arith)
        requires
            N >= 1,
            r == N * N,
    ;
    lemma_tree_mono(o2, (o - 1) as nat, r);
    let t = tree_work((o - 1) as nat, r);
    let t2 = tree_work((o2 - 1) as nat, r);
    assert(tree_work(o2, r) == r * t2 + 2);
    let a = c1.size();
    let b = c2.size();
    assert(b * t2 <= r * t2) by (nonlinear_arith)
        requires
            b <= r,
    ;
    assert((a + 1) * t == a * t + t) by (nonlinear_arith);
}

proof fn lemma_unit_square(n: int)
    requires
        n == 1,
    ensures
        n * n == 1,
{
}

} // verus!
