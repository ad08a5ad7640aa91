//! Candidate removal with its cascade: naked singles and hidden singles are
//! propagated to a fixed point, and a contradiction rolls every change back.
use vstd::prelude::*;
use crate::cell::{Cell, lemma_size_facts, lemma_size_facts_only, lemma_size_of_only, lemma_square_le, supported};
use crate::defer::Defer;
use crate::grid::{
    consistent, extends, lemma_extends_trans, lemma_log_bound, lemma_same_log, lemma_settled_remove, settled, shrinks,
    total_size, Sudoku,
};
use crate::pos::{
    at_rc, cell_count, col_of, correlated, is_correlated, lemma_at_rc, lemma_block, lemma_block_of,
    lemma_count_bounds, lemma_rc_of, row_of, same_box, Pos,
};
use crate::search::{lemma_members, lemma_pigeonhole, member};
use vstd::set_lib::set_int_range;

verus! {

/// Cell `j` lies in the row (`kind` 0), column (`kind` 1) or box (`kind` 2) of cell `i`.
pub open spec fn in_group(kind: int, i: int, j: int, n: int) -> bool {
    if kind == 0 {
        row_of(i, n) == row_of(j, n)
    } else if kind == 1 {
        col_of(i, n) == col_of(j, n)
    } else {
        same_box(i, j, n)
    }
}

/// `members` lists exactly the cells of one group of cell `i`.
pub open spec fn lists_group(members: Seq<usize>, kind: int, i: int, n: int) -> bool {
    &&& forall|k: int| 0 <= k < members.len() ==> #[trigger] members[k] < cell_count(n) && in_group(kind, i, members[k] as int, n)
    &&& forall|j: int| 0 <= j < cell_count(n) && #[trigger] in_group(kind, i, j, n) ==> members.contains(j as usize)
}

/// Value `w` is a candidate of no cell of `members` but `i`.
pub open spec fn absent_elsewhere<const N: usize>(cells: Seq<Cell<N>>, members: Seq<usize>, i: int, w: int) -> bool {
    forall|k: int| 0 <= k < members.len() && members[k] != i ==> !(#[trigger] cells[members[k] as int]).has(w)
}

/// Value `w` is a candidate of no cell of the group of `i` but `i` itself.
pub open spec fn lone_in<const N: usize>(cells: Seq<Cell<N>>, kind: int, i: int, w: int) -> bool {
    forall|j: int| 0 <= j < cells.len() && j != i && #[trigger] in_group(kind, i, j, N as int) ==> !cells[j].has(w)
}

/// `sol` gives every cell a value of `0..N*N`, and correlated cells differ.
pub open spec fn is_solution<const N: usize>(sol: Seq<int>) -> bool {
    &&& sol.len() == cell_count(N as int)
    &&& forall|i: int| 0 <= i < sol.len() ==> 0 <= #[trigger] sol[i] < N as int * N as int
    &&& forall|i: int, j: int|
        0 <= i < sol.len() && 0 <= j < sol.len() && correlated(i, j, N as int) ==> #[trigger] sol[i] != #[trigger] sol[j]
}

/// Every cell of `cells` still allows the value that `sol` gives it.
pub open spec fn fits<const N: usize>(sol: Seq<int>, cells: Seq<Cell<N>>) -> bool {
    forall|i: int| 0 <= i < cells.len() ==> #[trigger] cells[i].has(sol[i])
}

/// Every solution that fits `before` still fits `after`.
pub open spec fn keeps<const N: usize>(before: Seq<Cell<N>>, after: Seq<Cell<N>>) -> bool {
    forall|sol: Seq<int>| is_solution::<N>(sol) && #[trigger] fits(sol, before) ==> fits(sol, after)
}

/// No solution fits `cells`.
pub open spec fn no_solution<const N: usize>(cells: Seq<Cell<N>>) -> bool {
    forall|sol: Seq<int>| is_solution::<N>(sol) ==> !#[trigger] fits(sol, cells)
}

/// Which group of `kind` cell `j` lies in: its row, its column, or its box
/// numbered row by row.
pub open spec fn group_index(kind: int, j: int, n: int) -> int {
    if kind == 0 {
        row_of(j, n)
    } else if kind == 1 {
        col_of(j, n)
    } else {
        (row_of(j, n) / n) * n + col_of(j, n) / n
    }
}

/// The members of the group of cell `j` are exactly in that group.
proof fn lemma_group_members(kind: int, j: int, t: int, n: int)
    requires
        1 <= n <= 8,
        0 <= kind < 3,
        0 <= j < cell_count(n),
        0 <= t < n * n,
    ensures
        0 <= group_index(kind, j, n) < n * n,
        in_group(kind, j, member(kind, group_index(kind, j, n), t, n), n),
{
    lemma_count_bounds(n);
    lemma_rc_of(j, n);
    let (r, c) = (row_of(j, n), col_of(j, n));
    if kind == 0 {
        lemma_at_rc(r, t, n);
    } else if kind == 1 {
        lemma_at_rc(t, c, n);
    } else {
        lemma_block_of(r, n);
        lemma_block_of(c, n);
        lemma_block_of(t, n);
        let g = (r / n) * n + c / n;
        lemma_block(r / n, c / n, n);
        lemma_block(r / n, t / n, n);
        lemma_block(c / n, t % n, n);
        lemma_at_rc((g / n) * n + t / n, (g % n) * n + t % n, n);
    }
}

/// In a solution each group holds each value: a value that only cell `j`
/// of its group still allows is the value of `j` in every fitting solution.
proof fn lemma_lone_solution<const N: usize>(cells: Seq<Cell<N>>, kind: int, j: int, u: int, sol: Seq<int>)
    requires
        supported(N as int),
        cells.len() == cell_count(N as int),
        0 <= kind < 3,
        0 <= j < cell_count(N as int),
        0 <= u < N as int * N as int,
        is_solution::<N>(sol),
        fits(sol, cells),
        lone_in(cells, kind, j, u),
    ensures
        sol[j] == u,
{
    let n = N as int;
    let r = n * n;
    let g = group_index(kind, j, n);
    lemma_group_members(kind, j, 0, n);
    let f = |t: int| sol[member(kind, g, t, n)];
    assert forall|t: int| 0 <= t < r implies 0 <= #[trigger] f(t) < r by {
        lemma_members::<N>(kind, g, t, t);
        assert(f(t) == sol[member(kind, g, t, n)]);
    }
    assert forall|t: int, w: int| 0 <= t < r && 0 <= w < r && t != w implies #[trigger] f(t) != #[trigger] f(w) by {
        lemma_members::<N>(kind, g, t, w);
        lemma_members::<N>(kind, g, w, w);
        let mt = member(kind, g, t, n);
        let mw = member(kind, g, w, n);
        assert(f(t) == sol[mt]);
        assert(f(w) == sol[mw]);
        assert(correlated(mt, mw, n));
        assert(sol[mt] != sol[mw]);
    }
    lemma_pigeonhole(f, r);
    assert(set_int_range(0, r).map(f).contains(u));
    let t = choose|t: int| set_int_range(0, r).contains(t) && f(t) == u;
    let m = member(kind, g, t, n);
    lemma_members::<N>(kind, g, t, t);
    lemma_group_members(kind, j, t, n);
    assert(cells[m].has(sol[m]));
    if m != j {
        assert(!cells[m].has(u));
    }
}

/// Taking out of cell `j` a value that no fitting solution gives it keeps
/// every fitting solution.
proof fn lemma_keeps_step<const N: usize>(before: Seq<Cell<N>>, after: Seq<Cell<N>>, j: int, w: int)
    requires
        before.len() == after.len(),
        0 <= j < before.len(),
        forall|x: int| #[trigger] after[j].has(x) <==> (before[j].has(x) && x != w),
        forall|q: int| 0 <= q < before.len() && q != j ==> #[trigger] after[q] == before[q],
    ensures
        (forall|sol: Seq<int>| is_solution::<N>(sol) && #[trigger] fits(sol, before) ==> sol[j] != w) ==> keeps(before, after),
        forall|sol: Seq<int>| #[trigger] fits(sol, after) <==> (fits(sol, before) && sol[j] != w),
{
    assert forall|sol: Seq<int>| #[trigger] fits(sol, after) <==> (fits(sol, before) && sol[j] != w) by {
        if fits(sol, after) {
            assert forall|i: int| 0 <= i < before.len() implies #[trigger] before[i].has(sol[i]) by {
                assert(after[i].has(sol[i]));
                if i != j {
                    assert(after[i] == before[i]);
                }
            }
            assert(after[j].has(sol[j]));
        }
        if fits(sol, before) && sol[j] != w {
            assert forall|i: int| 0 <= i < after.len() implies #[trigger] after[i].has(sol[i]) by {
                assert(before[i].has(sol[i]));
                if i != j {
                    assert(after[i] == before[i]);
                }
            }
        }
    }
}

/// A fitting solution of a grid fits the grids it shrank from.
pub proof fn lemma_fits_shrinks<const N: usize>(a: &Sudoku<N>, b: &Sudoku<N>, sol: Seq<int>)
    requires
        a.wf(),
        b.wf(),
        shrinks(a, b),
        fits(sol, b.cells()),
    ensures
        fits(sol, a.cells()),
{
    assert forall|i: int| 0 <= i < a.cells().len() implies #[trigger] a.cells()[i].has(sol[i]) by {
        assert(b.cells()[i].has(sol[i]));
    }
}

/// Keeping twice is keeping; a grid kept from one with no solution has none.
proof fn lemma_keeps_trans<const N: usize>(a: Seq<Cell<N>>, b: Seq<Cell<N>>, c: Seq<Cell<N>>)
    requires
        keeps(a, b),
    ensures
        keeps(b, c) ==> keeps(a, c),
        no_solution(b) ==> no_solution(a),
{
    if keeps(b, c) {
        assert forall|sol: Seq<int>| is_solution::<N>(sol) && #[trigger] fits(sol, a) implies fits(sol, c) by {
            assert(fits(sol, b));
        }
    }
    if no_solution(b) {
        assert forall|sol: Seq<int>| is_solution::<N>(sol) implies !#[trigger] fits(sol, a) by {
            if fits(sol, a) {
                assert(fits(sol, b));
            }
        }
    }
}

/// Keeping is reflexive.
proof fn lemma_keeps_refl<const N: usize>(a: Seq<Cell<N>>)
    ensures
        keeps(a, a),
{
}

/// A cell down to `v` rules `v` out of the cells correlated with it in every
/// fitting solution; two correlated cells down to the same value leave none.
proof fn lemma_naked<const N: usize>(cells: Seq<Cell<N>>, p: int, j: int, v: int)
    requires
        0 <= p < cells.len(),
        0 <= j < cells.len(),
        cells.len() == cell_count(N as int),
        correlated(p, j, N as int),
        cells[p].size() == 1,
        cells[p].has(v),
    ensures
        forall|sol: Seq<int>| is_solution::<N>(sol) && #[trigger] fits(sol, cells) ==> sol[j] != v,
        cells[j].size() == 1 && cells[j].has(v) ==> no_solution(cells),
{
    lemma_size_facts_only(cells[p]);
    if cells[j].size() == 1 {
        lemma_size_facts_only(cells[j]);
    }
    assert forall|sol: Seq<int>| is_solution::<N>(sol) && #[trigger] fits(sol, cells) implies sol[j] != v by {
        assert(cells[p].has(sol[p]));
        assert(sol[p] != sol[j]);
    }
    if cells[j].size() == 1 && cells[j].has(v) {
        assert forall|sol: Seq<int>| is_solution::<N>(sol) implies !#[trigger] fits(sol, cells) by {
            if fits(sol, cells) {
                assert(cells[j].has(sol[j]));
            }
        }
    }
}

impl<const N: usize> Sudoku<N> {
    /// A value forced into cell `j` is its value in every fitting solution.
    proof fn lemma_forced_solution(&self, j: int, unic: Cell<N>, u: int, sol: Seq<int>)
        requires
            self.wf(),
            0 <= j < cell_count(N as int),
            unic.has(u),
            forall|w: int| #[trigger] unic.has(w) <==> (0 <= w < N as int * N as int && (lone_in(self.cells(), 0, j, w)
                || lone_in(self.cells(), 1, j, w) || lone_in(self.cells(), 2, j, w))),
            is_solution::<N>(sol),
            fits(sol, self.cells()),
        ensures
            sol[j] == u,
    {
        if lone_in(self.cells(), 0, j, u) {
            lemma_lone_solution(self.cells(), 0, j, u, sol);
        } else if lone_in(self.cells(), 1, j, u) {
            lemma_lone_solution(self.cells(), 1, j, u, sol);
        } else {
            lemma_lone_solution(self.cells(), 2, j, u, sol);
        }
    }
}

/// The cells of the row of cell `i`.
fn row_members<const N: usize>(i: usize) -> (r: Vec<usize>)
    requires
        1 <= N <= 8,
        i < cell_count(N as int),
    ensures
        lists_group(r@, 0, i as int, N as int),
{
    proof {
        lemma_count_bounds(N as int);
        lemma_rc_of(i as int, N as int);
    }
    let nn = N * N;
    let row = i / nn;
    let mut r: Vec<usize> = Vec::new();
    let mut c: usize = 0;
    while c < nn
        invariant
            1 <= N <= 8,
            nn == N as int * N as int,
            row == row_of(i as int, N as int),
            0 <= row < nn,
            c <= nn,
            r@.len() == c,
            forall|k: int| 0 <= k < c ==> #[trigger] r@[k] == at_rc(row as int, k, N as int),
        decreases nn - c,
    {
        proof {
            lemma_count_bounds(N as int);
            lemma_at_rc(row as int, c as int, N as int);
        }
        r.push(row * nn + c);
        c = c + 1;
    }
    proof {
        assert forall|k: int| 0 <= k < r@.len() implies #[trigger] r@[k] < cell_count(N as int) && in_group(0, i as int, r@[k] as int, N as int) by {
            lemma_at_rc(row as int, k, N as int);
        }
        assert forall|j: int| 0 <= j < cell_count(N as int) && #[trigger] in_group(0, i as int, j, N as int) implies r@.contains(j as usize) by {
            lemma_rc_of(j, N as int);
            assert(r@[col_of(j, N as int)] == j);
        }
    }
    r
}

/// The cells of the column of cell `i`.
fn column_members<const N: usize>(i: usize) -> (r: Vec<usize>)
    requires
        1 <= N <= 8,
        i < cell_count(N as int),
    ensures
        lists_group(r@, 1, i as int, N as int),
{
    proof {
        lemma_count_bounds(N as int);
        lemma_rc_of(i as int, N as int);
    }
    let nn = N * N;
    let col = i % nn;
    let mut r: Vec<usize> = Vec::new();
    let mut k: usize = 0;
    while k < nn
        invariant
            1 <= N <= 8,
            nn == N as int * N as int,
            col == col_of(i as int, N as int),
            0 <= col < nn,
            k <= nn,
            r@.len() == k,
            forall|q: int| 0 <= q < k ==> #[trigger] r@[q] == at_rc(q, col as int, N as int),
        decreases nn - k,
    {
        proof {
            lemma_count_bounds(N as int);
            lemma_at_rc(k as int, col as int, N as int);
        }
        r.push(k * nn + col);
        k = k + 1;
    }
    proof {
        assert forall|q: int| 0 <= q < r@.len() implies #[trigger] r@[q] < cell_count(N as int) && in_group(1, i as int, r@[q] as int, N as int) by {
            lemma_at_rc(q, col as int, N as int);
        }
        assert forall|j: int| 0 <= j < cell_count(N as int) && #[trigger] in_group(1, i as int, j, N as int) implies r@.contains(j as usize) by {
            lemma_rc_of(j, N as int);
            assert(r@[row_of(j, N as int)] == j);
        }
    }
    r
}

/// The cells of the box of cell `i`.
fn square_members<const N: usize>(i: usize) -> (r: Vec<usize>)
    requires
        1 <= N <= 8,
        i < cell_count(N as int),
    ensures
        lists_group(r@, 2, i as int, N as int),
{
    let ghost n = N as int;
    proof {
        lemma_count_bounds(n);
        lemma_rc_of(i as int, n);
        lemma_block_of(row_of(i as int, n), n);
        lemma_block_of(col_of(i as int, n), n);
    }
    let nn = N * N;
    let br = (i / nn) / N;
    let bc = (i % nn) / N;
    let mut r: Vec<usize> = Vec::new();
    let mut t: usize = 0;
    while t < nn
        invariant
            1 <= N <= 8,
            n == N as int,
            nn == n * n,
            br == row_of(i as int, n) / n,
            bc == col_of(i as int, n) / n,
            0 <= br < n,
            0 <= bc < n,
            t <= nn,
            r@.len() == t,
            forall|q: int| 0 <= q < t ==> #[trigger] r@[q] == at_rc(br * n + q / n, bc * n + q % n, n),
        decreases nn - t,
    {
        proof {
            lemma_count_bounds(n);
            lemma_block_of(t as int, n);
            lemma_block(br as int, t as int / n, n);
            lemma_block(bc as int, t as int % n, n);
            lemma_at_rc(br as int * n + t as int / n, bc as int * n + t as int % n, n);
        }
        r.push((br * N + t / N) * nn + bc * N + t % N);
        t = t + 1;
    }
    proof {
        assert forall|q: int| 0 <= q < r@.len() implies #[trigger] r@[q] < cell_count(n) && in_group(2, i as int, r@[q] as int, n) by {
            lemma_block_of(q, n);
            lemma_block(br as int, q / n, n);
            lemma_block(bc as int, q % n, n);
            lemma_at_rc(br * n + q / n, bc * n + q % n, n);
        }
        assert forall|j: int| 0 <= j < cell_count(n) && #[trigger] in_group(2, i as int, j, n) implies r@.contains(j as usize) by {
            lemma_rc_of(j, n);
            let (rj, cj) = (row_of(j, n), col_of(j, n));
            lemma_block_of(rj, n);
            lemma_block_of(cj, n);
            let q = (rj % n) * n + cj % n;
            lemma_block(rj % n, cj % n, n);
            lemma_block_of(q, n);
            assert(q / n == rj % n);
            assert(q % n == cj % n);
            assert(br * n + q / n == rj);
            assert(bc * n + q % n == cj);
            assert(r@[q] == j);
        }
    }
    r
}

impl<const N: usize> Sudoku<N> {
    /// The values of `0..N*N` that no cell of `members` but `i` still holds.
    fn unic_in(&self, i: usize, members: &Vec<usize>) -> (r: Cell<N>)
        requires
            self.wf(),
            forall|k: int| 0 <= k < members@.len() ==> #[trigger] members@[k] < cell_count(N as int),
        ensures
            r.valid(),
            forall|w: int| #[trigger] r.has(w) <==> (0 <= w < N as int * N as int && absent_elsewhere(self.cells(), members@, i as int, w)),
    {
        let mut acc = Cell::<N>::empty();
        let mut k: usize = 0;
        while k < members.len()
            invariant
                self.wf(),
                forall|q: int| 0 <= q < members@.len() ==> #[trigger] members@[q] < cell_count(N as int),
                k <= members@.len(),
                forall|q: int, w: int| 0 <= q < k && members@[q] != i && #[trigger] self.cells()[members@[q] as int].has(w) ==> acc.has(w),
                forall|w: int| #[trigger] acc.has(w) ==> exists|q: int| 0 <= q < k && members@[q] != i && #[trigger] self.cells()[members@[q] as int].has(w),
            decreases members@.len() - k,
        {
            let j = members[k];
            if j != i {
                let before = acc;
                acc = acc.union(self.cell(j));
                proof {
                    assert forall|w: int| #[trigger] acc.has(w) implies exists|q: int| 0 <= q < k + 1 && members@[q] != i && #[trigger] self.cells()[members@[q] as int].has(w) by {
                        if !before.has(w) {
                            assert(self.cells()[members@[k as int] as int].has(w));
                        }
                    }
                }
            }
            k = k + 1;
        }
        let r = acc.complement();
        proof {
            assert forall|w: int| #[trigger] r.has(w) <==> (0 <= w < N as int * N as int && absent_elsewhere(self.cells(), members@, i as int, w)) by {
                if 0 <= w < N as int * N as int && absent_elsewhere(self.cells(), members@, i as int, w) {
                    if acc.has(w) {
                        let q = choose|q: int| 0 <= q < k && members@[q] != i && #[trigger] self.cells()[members@[q] as int].has(w);
                    }
                }
            }
        }
        r
    }

    /// The values that cell `i` alone carries in its row, in its column or in its box.
    fn forced(&self, i: usize) -> (r: Cell<N>)
        requires
            self.wf(),
            i < cell_count(N as int),
        ensures
            r.valid(),
            forall|w: int| #[trigger] r.has(w) <==> (0 <= w < N as int * N as int && (lone_in(self.cells(), 0, i as int, w)
                || lone_in(self.cells(), 1, i as int, w) || lone_in(self.cells(), 2, i as int, w))),
    {
        let rows = row_members::<N>(i);
        let cols = column_members::<N>(i);
        let boxes = square_members::<N>(i);
        let a = self.unic_in(i, &rows);
        let b = self.unic_in(i, &cols);
        let c = self.unic_in(i, &boxes);
        let r = a.union(b).union(c);
        proof {
            assert forall|w: int| #[trigger] r.has(w) <==> (0 <= w < N as int * N as int && (lone_in(self.cells(), 0, i as int, w)
                || lone_in(self.cells(), 1, i as int, w) || lone_in(self.cells(), 2, i as int, w))) by {
                self.lemma_lone(rows@, 0, i as int, w);
                self.lemma_lone(cols@, 1, i as int, w);
                self.lemma_lone(boxes@, 2, i as int, w);
            }
        }
        r
    }

    /// Over a list of exactly the group, absent elsewhere means alone in the group.
    proof fn lemma_lone(&self, members: Seq<usize>, kind: int, i: int, w: int)
        requires
            self.wf(),
            lists_group(members, kind, i, N as int),
        ensures
            absent_elsewhere(self.cells(), members, i, w) <==> lone_in(self.cells(), kind, i, w),
    {
        lemma_count_bounds(N as int);
        if absent_elsewhere(self.cells(), members, i, w) {
            assert forall|j: int| 0 <= j < self.cells().len() && j != i && #[trigger] in_group(kind, i, j, N as int) implies !self.cells()[j].has(w) by {
                assert(members.contains(j as usize));
                let k = choose|k: int| 0 <= k < members.len() && members[k] == j as usize;
                assert(!self.cells()[members[k] as int].has(w));
            }
        }
        if lone_in(self.cells(), kind, i, w) {
            assert forall|k: int| 0 <= k < members.len() && members[k] != i implies !(#[trigger] self.cells()[members[k] as int]).has(w) by {
                assert(in_group(kind, i, members[k] as int, N as int));
            }
        }
    }
}


/// What the cascade may do to the grid: log removals, never add a candidate,
/// and never raise the count of candidates plus queued cells.
pub open spec fn progressed<const N: usize>(
    before: &Sudoku<N>,
    after: &Sudoku<N>,
    dq_before: &Defer<N>,
    dq_after: &Defer<N>,
    pushed_before: usize,
    pushed_after: usize,
) -> bool {
    &&& after.wf()
    &&& dq_after.wf()
    &&& pushed_before <= pushed_after <= after.log().len()
    &&& extends(before, after, pushed_after - pushed_before)
    &&& shrinks(before, after)
    &&& 2 * total_size(after.cells()) + dq_after.queued().len() <= 2 * total_size(before.cells()) + dq_before.queued().len()
}

/// Shrinking twice is shrinking.
proof fn lemma_shrinks_trans<const N: usize>(a: &Sudoku<N>, b: &Sudoku<N>, c: &Sudoku<N>)
    requires
        shrinks(a, b),
        shrinks(b, c),
    ensures
        shrinks(a, c),
{
    assert forall|i: int, w: int| 0 <= i < cell_count(N as int) && #[trigger] c.cells()[i].has(w) implies a.cells()[i].has(w) by {
        assert(b.cells()[i].has(w));
    }
}

/// One logged removal is progress.
proof fn lemma_one_step<const N: usize>(
    before: &Sudoku<N>,
    after: &Sudoku<N>,
    dq_before: &Defer<N>,
    dq_after: &Defer<N>,
    j: int,
    w: int,
    e: (u32, usize),
)
    requires
        before.wf(),
        after.wf(),
        dq_after.wf(),
        0 <= j < cell_count(N as int),
        after.log() == before.log().push(e),
        after.cells().len() == before.cells().len(),
        forall|x: int| #[trigger] after.cells()[j].has(x) <==> (before.cells()[j].has(x) && x != w),
        forall|q: int| 0 <= q < cell_count(N as int) && q != j ==> #[trigger] after.cells()[q] == before.cells()[q],
        dq_after.queued().len() <= dq_before.queued().len() + 1,
    ensures
        extends(before, after, 1),
        shrinks(before, after),
        2 * total_size(after.cells()) + dq_after.queued().len() < 2 * total_size(before.cells()) + dq_before.queued().len(),
{
    assert(after.log().take(before.log().len() as int) =~= before.log());
    assert forall|i: int, x: int| 0 <= i < cell_count(N as int) && #[trigger] after.cells()[i].has(x) implies before.cells()[i].has(x) by {
        if i != j {
            assert(after.cells()[i] == before.cells()[i]);
        }
    }
}

/// Doing nothing is progress.
proof fn lemma_progress_refl<const N: usize>(a: &Sudoku<N>, q: &Defer<N>, p: usize)
    requires
        a.wf(),
        q.wf(),
        p <= a.log().len(),
    ensures
        progressed(a, a, q, q, p, p),
{
    assert(a.log().take(a.log().len() as int) =~= a.log());
}

/// Progress composes.
proof fn lemma_progress_trans<const N: usize>(
    a: &Sudoku<N>,
    b: &Sudoku<N>,
    c: &Sudoku<N>,
    qa: &Defer<N>,
    qb: &Defer<N>,
    qc: &Defer<N>,
    pa: usize,
    pb: usize,
    pc: usize,
)
    requires
        progressed(a, b, qa, qb, pa, pb),
        progressed(b, c, qb, qc, pb, pc),
    ensures
        progressed(a, c, qa, qc, pa, pc),
{
    lemma_extends_trans(a, b, c, pb - pa, pc - pb);
    lemma_shrinks_trans(a, b, c);
}

/// No undetermined cell is the only cell of its row, column or box that can
/// still take some value: no hidden single is left.
pub open spec fn no_hidden_single<const N: usize>(cells: Seq<Cell<N>>) -> bool {
    forall|q: int, kind: int, w: int|
        0 <= q < cells.len() && 0 <= kind < 3 && 0 <= w < N as int * N as int && cells[q].size() >= 2
            ==> !#[trigger] lone_in(cells, kind, q, w)
}

/// Every hidden single has a group-mate queued in `flags` that lost the
/// value, or lies around the cell `p` being examined at or after `from`.
pub open spec fn hidden_ok<const N: usize>(cells: Seq<Cell<N>>, flags: Seq<bool>, p: int, from: int) -> bool {
    forall|q: int, kind: int, w: int|
        0 <= q < cells.len() && 0 <= kind < 3 && 0 <= w < N as int * N as int && cells[q].size() >= 2
            && #[trigger] lone_in(cells, kind, q, w) ==> (exists|m: int|
            0 <= m < cells.len() && m != q && #[trigger] in_group(kind, q, m, N as int) && flags[m]) || (0 <= p && q != p
            && q >= from && in_group(kind, q, p, N as int))
}

/// [`hidden_ok`] where it is being tracked.
pub open spec fn hidden_if<const N: usize>(track: bool, cells: Seq<Cell<N>>, flags: Seq<bool>, p: int, from: int) -> bool {
    track ==> hidden_ok(cells, flags, p, from)
}

/// Removing candidates from a cell that then gets queued keeps every hidden
/// single accounted for.
proof fn lemma_hidden_remove<const N: usize>(
    track: bool,
    old_cells: Seq<Cell<N>>,
    new_cells: Seq<Cell<N>>,
    old_flags: Seq<bool>,
    new_flags: Seq<bool>,
    c: int,
    p: int,
    from: int,
)
    requires
        hidden_if(track, old_cells, old_flags, p, from),
        old_cells.len() == new_cells.len(),
        0 <= c < old_cells.len(),
        old_flags.len() == old_cells.len(),
        new_flags == old_flags.update(c, true),
        forall|k: int| 0 <= k < old_cells.len() && k != c ==> #[trigger] new_cells[k] == old_cells[k],
        forall|w: int| #[trigger] new_cells[c].has(w) ==> old_cells[c].has(w),
    ensures
        hidden_if(track, new_cells, new_flags, p, from),
{
    if track {
        assert forall|q: int, kind: int, w: int|
            0 <= q < new_cells.len() && 0 <= kind < 3 && 0 <= w < N as int * N as int && new_cells[q].size() >= 2
                && #[trigger] lone_in(new_cells, kind, q, w) implies (exists|m: int|
                0 <= m < new_cells.len() && m != q && #[trigger] in_group(kind, q, m, N as int) && new_flags[m]) || (0 <= p
                && q != p && q >= from && in_group(kind, q, p, N as int)) by {
            if q == c {
                assert forall|x: int| #[trigger] new_cells[q].has(x) implies old_cells[q].has(x) by {
                }
                crate::cell::lemma_size_subset(old_cells[q], new_cells[q]);
            } else {
                assert(new_cells[q] == old_cells[q]);
            }
            if lone_in(old_cells, kind, q, w) {
                if exists|m: int| 0 <= m < old_cells.len() && m != q && #[trigger] in_group(kind, q, m, N as int) && old_flags[m] {
                    let m = choose|m: int| 0 <= m < old_cells.len() && m != q && #[trigger] in_group(kind, q, m, N as int) && old_flags[m];
                    assert(new_flags[m]);
                }
            } else {
                let j = choose|j: int| 0 <= j < old_cells.len() && j != q && #[trigger] in_group(kind, q, j, N as int) && old_cells[j].has(w);
                if j != c {
                    assert(new_cells[j] == old_cells[j]);
                    assert(!new_cells[j].has(w));
                }
                assert(new_flags[c]);
                assert(in_group(kind, q, c, N as int));
            }
        }
    }
}

/// Taking `p` off the worklist: its group-mates still owe it an examination.
proof fn lemma_hidden_pop<const N: usize>(track: bool, cells: Seq<Cell<N>>, flags: Seq<bool>, p: int)
    requires
        hidden_if(track, cells, flags, -1, 0),
        flags.len() == cells.len(),
        0 <= p < cells.len(),
    ensures
        hidden_if(track, cells, flags.update(p, false), p, 0),
{
    if track {
        let f2 = flags.update(p, false);
        assert forall|q: int, kind: int, w: int|
            0 <= q < cells.len() && 0 <= kind < 3 && 0 <= w < N as int * N as int && cells[q].size() >= 2
                && #[trigger] lone_in(cells, kind, q, w) implies (exists|m: int|
                0 <= m < cells.len() && m != q && #[trigger] in_group(kind, q, m, N as int) && f2[m]) || (0 <= p && q != p
                && q >= 0 && in_group(kind, q, p, N as int)) by {
            let m = choose|m: int| 0 <= m < cells.len() && m != q && #[trigger] in_group(kind, q, m, N as int) && flags[m];
            if m != p {
                assert(f2[m]);
            }
        }
    }
}

/// Cell `j` examined (or not owed an examination): move past it.
proof fn lemma_hidden_advance<const N: usize>(track: bool, cells: Seq<Cell<N>>, flags: Seq<bool>, p: int, j: int)
    requires
        hidden_if(track, cells, flags, p, j),
        0 <= p,
        j == p || !correlated(p, j, N as int) || cells[j].size() <= 1
            || forall|kind: int, w: int| 0 <= kind < 3 && 0 <= w < N as int * N as int ==> !#[trigger] lone_in(cells, kind, j, w),
    ensures
        hidden_if(track, cells, flags, p, j + 1),
{
    if track {
        assert forall|q: int, kind: int, w: int|
            0 <= q < cells.len() && 0 <= kind < 3 && 0 <= w < N as int * N as int && cells[q].size() >= 2
                && #[trigger] lone_in(cells, kind, q, w) implies (exists|m: int|
                0 <= m < cells.len() && m != q && #[trigger] in_group(kind, q, m, N as int) && flags[m]) || (0 <= p && q != p
                && q >= j + 1 && in_group(kind, q, p, N as int)) by {
            if q == j && !(exists|m: int| 0 <= m < cells.len() && m != q && #[trigger] in_group(kind, q, m, N as int) && flags[m]) {
                assert(in_group(kind, q, p, N as int) && q != p);
                assert(correlated(p, j, N as int));
            }
        }
    }
}

/// Past every cell, nothing is owed any more.
proof fn lemma_hidden_end<const N: usize>(track: bool, cells: Seq<Cell<N>>, flags: Seq<bool>, p: int)
    requires
        hidden_if(track, cells, flags, p, cells.len() as int),
    ensures
        hidden_if(track, cells, flags, -1, 0),
{
}

/// A grid with no hidden single owes nothing.
proof fn lemma_hidden_start<const N: usize>(track: bool, cells: Seq<Cell<N>>, flags: Seq<bool>)
    requires
        track ==> no_hidden_single(cells),
    ensures
        hidden_if(track, cells, flags, -1, 0),
{
}

/// With nothing queued, nothing owed means no hidden single.
proof fn lemma_hidden_done<const N: usize>(cells: Seq<Cell<N>>, flags: Seq<bool>)
    requires
        hidden_ok(cells, flags, -1, 0),
        flags.len() == cells.len(),
        forall|i: int| 0 <= i < flags.len() ==> !#[trigger] flags[i],
    ensures
        no_hidden_single(cells),
{
    assert forall|q: int, kind: int, w: int|
        0 <= q < cells.len() && 0 <= kind < 3 && 0 <= w < N as int * N as int && cells[q].size() >= 2
            implies !#[trigger] lone_in(cells, kind, q, w) by {
        if lone_in(cells, kind, q, w) {
            let m = choose|m: int| 0 <= m < cells.len() && m != q && #[trigger] in_group(kind, q, m, N as int) && flags[m];
            assert(!flags[m]);
        }
    }
}

/// `settled` where consistency is being tracked.
pub open spec fn settled_if<const N: usize>(track: bool, cells: Seq<Cell<N>>, flags: Seq<bool>, except: int) -> bool {
    track ==> settled(cells, flags, except)
}

/// [`lemma_settled_remove`] where consistency is being tracked.
proof fn lemma_settled_remove_if<const N: usize>(
    track: bool,
    old_cells: Seq<Cell<N>>,
    new_cells: Seq<Cell<N>>,
    old_flags: Seq<bool>,
    new_flags: Seq<bool>,
    j: int,
    except: int,
)
    requires
        settled_if(track, old_cells, old_flags, except),
        old_cells.len() == new_cells.len(),
        0 <= j < old_cells.len(),
        old_flags.len() == old_cells.len(),
        new_flags == old_flags.update(j, true),
        forall|k: int| 0 <= k < old_cells.len() && k != j ==> #[trigger] new_cells[k] == old_cells[k],
        forall|w: int| #[trigger] new_cells[j].has(w) ==> old_cells[j].has(w),
    ensures
        settled_if(track, new_cells, new_flags, except),
{
    if track {
        lemma_settled_remove(old_cells, new_cells, old_flags, new_flags, j, except);
    }
}

/// A consistent grid is settled whatever is queued.
proof fn lemma_consistent_settled<const N: usize>(cells: Seq<Cell<N>>, flags: Seq<bool>, except: int)
    requires
        consistent(cells),
    ensures
        settled(cells, flags, except),
{
}

/// With nothing queued and no exception, settled is consistent.
proof fn lemma_settled_consistent<const N: usize>(cells: Seq<Cell<N>>, flags: Seq<bool>)
    requires
        settled(cells, flags, -1),
        flags.len() == cells.len(),
        forall|i: int| 0 <= i < flags.len() ==> !#[trigger] flags[i],
    ensures
        consistent(cells),
{
    assert forall|i: int, j: int, v: int|
        0 <= i < cells.len() && 0 <= j < cells.len() && correlated(i, j, N as int)
            && cells[i].size() == 1 && #[trigger] cells[i].has(v) implies !#[trigger] cells[j].has(v) by {
        assert(!flags[i]);
    }
}

impl<const N: usize> Sudoku<N> {
    /// Cell `p` is down to the value `v`: takes `v` out of every correlated
    /// cell. Returns `false` when a correlated cell holds `v` alone.
    fn naked_single(&mut self, p: usize, v: u32, pushed: &mut usize, defer: &mut Defer<N>, track: Ghost<bool>, htrack: Ghost<bool>) -> (ok: bool)
        requires
            old(self).wf(),
            old(defer).wf(),
            p < cell_count(N as int),
            old(self).cells()[p as int].size() == 1,
            old(self).cells()[p as int].has(v as int),
            !old(defer).flags()[p as int],
            settled_if(track@, old(self).cells(), old(defer).flags(), p as int),
            hidden_if(htrack@, old(self).cells(), old(defer).flags(), p as int, 0),
            *old(pushed) <= old(self).log().len(),
        ensures
            progressed(old(self), final(self), old(defer), final(defer), *old(pushed), *final(pushed)),
            ok ==> settled_if(track@, final(self).cells(), final(defer).flags(), -1),
            keeps(old(self).cells(), final(self).cells()),
            hidden_if(htrack@, final(self).cells(), final(defer).flags(), p as int, 0),
            !ok ==> no_solution(old(self).cells()),
    {
        proof {
            lemma_count_bounds(N as int);
        }
        let ghost start = *self;
        let ghost q0 = *defer;
        let ghost p0 = *pushed;
        proof {
            lemma_progress_refl(&start, &q0, p0);
        }
        let c = self.cell(p);
        let count = N * N * N * N;
        let mut j: usize = 0;
        while j < count
            invariant
                count == cell_count(N as int),
                p < count,
                j <= count,
                progressed(&start, self, &q0, defer, p0, *pushed),
                start == *old(self),
                q0 == *old(defer),
                p0 == *old(pushed),
                settled_if(track@, self.cells(), defer.flags(), p as int),
                hidden_if(htrack@, self.cells(), defer.flags(), p as int, 0),
                !defer.flags()[p as int],
                self.cells()[p as int] == c,
                c.size() == 1,
                c.has(v as int),
                keeps(start.cells(), self.cells()),
                forall|q: int| 0 <= q < j && correlated(p as int, q, N as int) ==> !#[trigger] self.cells()[q].has(v as int),
            decreases count - j,
        {
            if is_correlated::<N>(p, j) {
                let cj = self.cell(j);
                proof {
                    lemma_square_le(N as int);
                    assert(v < 64) by {
                        assert(c.valid());
                    }
                }
                if cj.contains(v) {
                    if cj.len() == 1 {
                        proof {
                            lemma_naked::<N>(self.cells(), p as int, j as int, v as int);
                            lemma_keeps_trans(start.cells(), self.cells(), self.cells());
                        }
                        return false;
                    }
                    let ghost before = *self;
                    let ghost qb = *defer;
                    let ghost pb = *pushed;
                    proof {
                        lemma_naked::<N>(self.cells(), p as int, j as int, v as int);
                    }
                    proof {
                        lemma_log_bound(self);
                    }
                    self.remove_one(v, j, pushed, defer);
                    proof {
                        lemma_keeps_step(before.cells(), self.cells(), j as int, v as int);
                        lemma_keeps_trans(start.cells(), before.cells(), self.cells());
                        lemma_one_step(&before, self, &qb, defer, j as int, v as int, (v, j));
                        assert(progressed(&before, self, &qb, defer, pb, *pushed));
                        lemma_progress_trans(&start, &before, self, &q0, &qb, defer, p0, pb, *pushed);
                        lemma_settled_remove_if(track@, before.cells(), self.cells(), qb.flags(), defer.flags(), j as int, p as int);
                        lemma_hidden_remove(htrack@, before.cells(), self.cells(), qb.flags(), defer.flags(), j as int, p as int, 0);
                        assert forall|q: int| 0 <= q < j + 1 && correlated(p as int, q, N as int) implies !#[trigger] self.cells()[q].has(v as int) by {
                            if self.cells()[q].has(v as int) {
                                assert(before.cells()[q].has(v as int));
                            }
                        }
                    }
                }
            }
            j = j + 1;
        }
        proof {
            let cells = self.cells();
            let flags = defer.flags();
            lemma_size_facts_only(c);
            if track@ {
                assert forall|i: int, k: int, x: int|
                    0 <= i < cells.len() && 0 <= k < cells.len() && i != -1 && !flags[i] && correlated(i, k, N as int)
                        && cells[i].size() == 1 && #[trigger] cells[i].has(x) implies !#[trigger] cells[k].has(x) by {
                    if i == p {
                        assert(c.is_only(v as int));
                        assert(x == v);
                    }
                }
            }
        }
        true
    }

    /// Takes every candidate but `u` out of cell `j`.
    fn force_value(
        &mut self,
        j: usize,
        u: u32,
        pushed: &mut usize,
        defer: &mut Defer<N>,
        track: Ghost<bool>,
        htrack: Ghost<bool>,
        hp: Ghost<int>,
        hfrom: Ghost<int>,
    )
        requires
            old(self).wf(),
            old(defer).wf(),
            j < cell_count(N as int),
            u < 64,
            old(self).cells()[j as int].has(u as int),
            settled_if(track@, old(self).cells(), old(defer).flags(), -1),
            hidden_if(htrack@, old(self).cells(), old(defer).flags(), hp@, hfrom@),
            *old(pushed) <= old(self).log().len(),
            forall|sol: Seq<int>| is_solution::<N>(sol) && #[trigger] fits(sol, old(self).cells()) ==> sol[j as int] == u,
        ensures
            progressed(old(self), final(self), old(defer), final(defer), *old(pushed), *final(pushed)),
            settled_if(track@, final(self).cells(), final(defer).flags(), -1),
            final(self).cells()[j as int].is_only(u as int),
            keeps(old(self).cells(), final(self).cells()),
            hidden_if(htrack@, final(self).cells(), final(defer).flags(), hp@, hfrom@),
    {
        proof {
            lemma_count_bounds(N as int);
        }
        let ghost start = *self;
        let ghost q0 = *defer;
        let ghost p0 = *pushed;
        proof {
            lemma_progress_refl(&start, &q0, p0);
        }
        let mut w: u32 = 0;
        while w < 64
            invariant
                j < cell_count(N as int),
                u < 64,
                w <= 64,
                progressed(&start, self, &q0, defer, p0, *pushed),
                start == *old(self),
                q0 == *old(defer),
                p0 == *old(pushed),
                settled_if(track@, self.cells(), defer.flags(), -1),
                hidden_if(htrack@, self.cells(), defer.flags(), hp@, hfrom@),
                self.cells()[j as int].has(u as int),
                forall|x: int| 0 <= x < w && x != u ==> !#[trigger] self.cells()[j as int].has(x),
                start.wf(),
                keeps(start.cells(), self.cells()),
                forall|sol: Seq<int>| is_solution::<N>(sol) && #[trigger] fits(sol, start.cells()) ==> sol[j as int] == u,
            decreases 64 - w,
        {
            let cur = self.cell(j);
            if w != u && cur.contains(w) {
                proof {
                    lemma_size_facts(cur);
                }
                let ghost before = *self;
                let ghost qb = *defer;
                let ghost pb = *pushed;
                proof {
                    assert forall|sol: Seq<int>| is_solution::<N>(sol) && #[trigger] fits(sol, before.cells()) implies sol[j as int] != w by {
                        lemma_fits_shrinks(&start, &before, sol);
                    }
                }
                proof {
                    lemma_log_bound(self);
                }
                self.remove_one(w, j, pushed, defer);
                proof {
                    lemma_keeps_step(before.cells(), self.cells(), j as int, w as int);
                    lemma_keeps_trans(start.cells(), before.cells(), self.cells());
                    lemma_one_step(&before, self, &qb, defer, j as int, w as int, (w, j));
                    lemma_progress_trans(&start, &before, self, &q0, &qb, defer, p0, pb, *pushed);
                    lemma_settled_remove_if(track@, before.cells(), self.cells(), qb.flags(), defer.flags(), j as int, -1);
                    lemma_hidden_remove(htrack@, before.cells(), self.cells(), qb.flags(), defer.flags(), j as int, hp@, hfrom@);
                }
            }
            w = w + 1;
        }
        proof {
            assert forall|x: int| #[trigger] self.cells()[j as int].has(x) <==> x == u by {
                if self.cells()[j as int].has(x) {
                    assert(0 <= x < 64);
                }
            }
        }
    }

    /// Looks at every cell correlated with `p` that is not determined yet: a
    /// value it alone carries in a group is forced into it. Returns `false`
    /// when two values are forced into one cell, or a value it lacks.
    fn hidden_singles(&mut self, p: usize, pushed: &mut usize, defer: &mut Defer<N>, track: Ghost<bool>, htrack: Ghost<bool>) -> (ok: bool)
        requires
            old(self).wf(),
            old(defer).wf(),
            p < cell_count(N as int),
            settled_if(track@, old(self).cells(), old(defer).flags(), -1),
            hidden_if(htrack@, old(self).cells(), old(defer).flags(), p as int, 0),
            *old(pushed) <= old(self).log().len(),
        ensures
            progressed(old(self), final(self), old(defer), final(defer), *old(pushed), *final(pushed)),
            ok ==> settled_if(track@, final(self).cells(), final(defer).flags(), -1),
            keeps(old(self).cells(), final(self).cells()),
            ok ==> hidden_if(htrack@, final(self).cells(), final(defer).flags(), -1, 0),
            !ok ==> no_solution(old(self).cells()),
    {
        proof {
            lemma_count_bounds(N as int);
        }
        let ghost start = *self;
        let ghost q0 = *defer;
        let ghost p0 = *pushed;
        proof {
            lemma_progress_refl(&start, &q0, p0);
        }
        let count = N * N * N * N;
        let mut j: usize = 0;
        while j < count
            invariant
                count == cell_count(N as int),
                p < count,
                j <= count,
                progressed(&start, self, &q0, defer, p0, *pushed),
                start == *old(self),
                q0 == *old(defer),
                p0 == *old(pushed),
                settled_if(track@, self.cells(), defer.flags(), -1),
                hidden_if(htrack@, self.cells(), defer.flags(), p as int, j as int),
                keeps(start.cells(), self.cells()),
            decreases count - j,
        {
            if is_correlated::<N>(p, j) {
                let cj = self.cell(j);
                if cj.len() != 1 {
                    let unic = self.forced(j);
                    if unic.len() == 0 {
                        proof {
                            lemma_size_facts(unic);
                            assert forall|kind: int, w: int| 0 <= kind < 3 && 0 <= w < N as int * N as int implies !#[trigger] lone_in(self.cells(), kind, j as int, w) by {
                                assert(!unic.has(w));
                            }
                        }
                    }
                    if unic.len() != 0 {
                        match unic.get_value() {
                            None => {
                                proof {
                                    lemma_size_facts(unic);
                                    let a = choose|a: int| unic.has(a);
                                    if unic.is_only(a) {
                                        lemma_size_of_only(unic, a);
                                    }
                                    let b = choose|b: int| !(#[trigger] unic.has(b) <==> b == a);
                                    assert forall|sol: Seq<int>| is_solution::<N>(sol) implies !#[trigger] fits(sol, self.cells()) by {
                                        if fits(sol, self.cells()) {
                                            self.lemma_forced_solution(j as int, unic, a, sol);
                                            self.lemma_forced_solution(j as int, unic, b, sol);
                                        }
                                    }
                                    lemma_keeps_trans(start.cells(), self.cells(), self.cells());
                                }
                                return false;
                            },
                            Some(u) => {
                                proof {
                                    lemma_size_facts(unic);
                                    assert(unic.has(u as int));
                                }
                                if !cj.contains(u) {
                                    proof {
                                        assert forall|sol: Seq<int>| is_solution::<N>(sol) implies !#[trigger] fits(sol, self.cells()) by {
                                            if fits(sol, self.cells()) {
                                                self.lemma_forced_solution(j as int, unic, u as int, sol);
                                                assert(self.cells()[j as int].has(sol[j as int]));
                                            }
                                        }
                                        lemma_keeps_trans(start.cells(), self.cells(), self.cells());
                                    }
                                    return false;
                                }
                                let ghost before = *self;
                                let ghost qb = *defer;
                                let ghost pb = *pushed;
                                proof {
                                    assert forall|sol: Seq<int>| is_solution::<N>(sol) && #[trigger] fits(sol, self.cells()) implies sol[j as int] == u by {
                                        self.lemma_forced_solution(j as int, unic, u as int, sol);
                                    }
                                }
                                self.force_value(j, u, pushed, defer, track, htrack, Ghost(p as int), Ghost(j as int));
                                proof {
                                    assert(self.cells()[j as int].is_only(u as int));
                                    lemma_size_of_only(self.cells()[j as int], u as int);
                                    lemma_progress_trans(&start, &before, self, &q0, &qb, defer, p0, pb, *pushed);
                                    lemma_keeps_trans(start.cells(), before.cells(), self.cells());
                                }
                            },
                        }
                    }
                }
            }
            proof {
                lemma_hidden_advance(htrack@, self.cells(), defer.flags(), p as int, j as int);
            }
            j = j + 1;
        }
        proof {
            lemma_hidden_end(htrack@, self.cells(), defer.flags(), p as int);
        }
        true
    }
}


impl<const N: usize> Sudoku<N> {
    /// Examines a cell just taken off the worklist: naked single first, then
    /// hidden singles around it. Returns `false` on a contradiction.
    fn process(&mut self, p: usize, pushed: &mut usize, defer: &mut Defer<N>, track: Ghost<bool>, htrack: Ghost<bool>) -> (ok: bool)
        requires
            old(self).wf(),
            old(defer).wf(),
            p < cell_count(N as int),
            !old(defer).flags()[p as int],
            settled_if(track@, old(self).cells(), old(defer).flags(), p as int),
            hidden_if(htrack@, old(self).cells(), old(defer).flags(), p as int, 0),
            *old(pushed) <= old(self).log().len(),
        ensures
            progressed(old(self), final(self), old(defer), final(defer), *old(pushed), *final(pushed)),
            ok ==> settled_if(track@, final(self).cells(), final(defer).flags(), -1),
            keeps(old(self).cells(), final(self).cells()),
            ok ==> hidden_if(htrack@, final(self).cells(), final(defer).flags(), -1, 0),
            !ok ==> no_solution(old(self).cells()),
    {
        let ghost s1 = *self;
        let ghost q1 = *defer;
        let ghost pu1 = *pushed;
        proof {
            lemma_progress_refl(self, defer, *pushed);
        }
        let c = self.cell(p);
        match c.get_value() {
            Some(v) => {
                if !self.naked_single(p, v, pushed, defer, track, htrack) {
                    return false;
                }
            },
            None => {
                proof {
                    lemma_keeps_refl(self.cells());
                    if track@ {
                        assert forall|i: int, j: int, x: int|
                            0 <= i < self.cells().len() && 0 <= j < self.cells().len() && i != -1 && !defer.flags()[i]
                                && correlated(i, j, N as int) && self.cells()[i].size() == 1 && #[trigger] self.cells()[i].has(x)
                                implies !#[trigger] self.cells()[j].has(x) by {
                            if i == p {
                                assert(c.size() != 1);
                            }
                        }
                    }
                }
            },
        }
        let ghost s2 = *self;
        let ghost q2 = *defer;
        let ghost pu2 = *pushed;
        let ok = self.hidden_singles(p, pushed, defer, track, htrack);
        proof {
            lemma_progress_trans(&s1, &s2, self, &q1, &q2, defer, pu1, pu2, *pushed);
            lemma_keeps_trans(s1.cells(), s2.cells(), self.cells());
        }
        ok
    }

    /// Takes `value` out of cell `pos` and cascades: a cell left with one
    /// value clears it from its row, column and box, and a value that only
    /// one cell of a group can take is forced there. Returns the number of
    /// removals logged, or `None` on a contradiction (no fitting solution
    /// avoids `value` at `pos`), with the grid restored.
    fn remove(&mut self, value: u32, pos: usize, defer: &mut Defer<N>) -> (r: Option<usize>)
        requires
            old(self).wf(),
            old(defer).wf(),
            pos < cell_count(N as int),
            old(self).cells()[pos as int].has(value as int),
        ensures
            final(self).wf(),
            final(defer).wf(),
            r matches Some(k) ==> {
                &&& extends(old(self), final(self), k as int)
                &&& consistent(old(self).cells()) ==> consistent(final(self).cells())
                &&& no_hidden_single(old(self).cells()) ==> no_hidden_single(final(self).cells())
                &&& shrinks(old(self), final(self))
                &&& !final(self).cells()[pos as int].has(value as int)
            },
            r is None ==> final(self).same(old(self)),
            r is Some ==> forall|sol: Seq<int>| is_solution::<N>(sol) ==> (#[trigger] fits(sol, final(self).cells())
                <==> (fits(sol, old(self).cells()) && sol[pos as int] != value)),
            r is None ==> forall|sol: Seq<int>| is_solution::<N>(sol) && #[trigger] fits(sol, old(self).cells()) ==> sol[pos as int] == value,
    {
        let ghost start = *self;
        let ghost track = consistent(start.cells());
        let ghost htrack = no_hidden_single(start.cells());
        proof {
            lemma_count_bounds(N as int);
        }
        let cell = self.cell(pos);
        if cell.len() == 1 {
            proof {
                lemma_same_log(self, &start);
                lemma_size_facts_only(cell);
                assert forall|sol: Seq<int>| is_solution::<N>(sol) && #[trigger] fits(sol, start.cells()) implies sol[pos as int] == value by {
                    assert(start.cells()[pos as int].has(sol[pos as int]));
                }
            }
            return None;
        }
        proof {
            lemma_size_facts(cell);
        }
        defer.clear();
        let ghost q0 = *defer;
        let mut pushed: usize = 0;
        proof {
            lemma_progress_refl(&start, &q0, 0);
            if track {
                lemma_consistent_settled(start.cells(), q0.flags(), -1);
            }
        }
        self.remove_one(value, pos, &mut pushed, defer);
        let ghost first = *self;
        proof {
            lemma_one_step(&start, self, &q0, defer, pos as int, value as int, (value, pos));
            lemma_settled_remove_if(track, start.cells(), self.cells(), q0.flags(), defer.flags(), pos as int, -1);
            lemma_hidden_start(htrack, start.cells(), q0.flags());
            lemma_hidden_remove(htrack, start.cells(), self.cells(), q0.flags(), defer.flags(), pos as int, -1, 0);
            lemma_keeps_step(start.cells(), self.cells(), pos as int, value as int);
            lemma_keeps_refl(self.cells());
        }
        while !defer.is_empty()
            invariant
                start == *old(self),
                start.wf(),
                first.wf(),
                forall|sol: Seq<int>| #[trigger] fits(sol, first.cells()) <==> (fits(sol, start.cells()) && sol[pos as int] != value),
                keeps(first.cells(), self.cells()),
                pos < cell_count(N as int),
                progressed(&start, self, &q0, defer, 0, pushed),
                settled_if(track, self.cells(), defer.flags(), -1),
                hidden_if(htrack, self.cells(), defer.flags(), -1, 0),
                !self.cells()[pos as int].has(value as int),
            decreases 2 * total_size(self.cells()) + defer.queued().len(),
        {
            let ghost qa = *defer;
            let p = defer.pop().unwrap();
            let ghost q1 = *defer;
            let ghost s1 = *self;
            let ghost pu1 = pushed;
            proof {
                lemma_progress_refl(self, defer, pushed);
                lemma_hidden_pop(htrack, self.cells(), qa.flags(), p as int);
                if track {
                    assert forall|i: int, j: int, v: int|
                        0 <= i < self.cells().len() && 0 <= j < self.cells().len() && i != p && !defer.flags()[i]
                            && correlated(i, j, N as int) && self.cells()[i].size() == 1 && #[trigger] self.cells()[i].has(v)
                            implies !#[trigger] self.cells()[j].has(v) by {
                        assert(!qa.flags()[i]);
                    }
                }
            }
            if !self.process(p, &mut pushed, defer, Ghost(track), Ghost(htrack)) {
                proof {
                    lemma_progress_trans(&start, &s1, self, &q0, &q1, defer, 0, pu1, pushed);
                    lemma_keeps_trans(first.cells(), s1.cells(), s1.cells());
                    assert forall|sol: Seq<int>| is_solution::<N>(sol) && #[trigger] fits(sol, start.cells()) implies sol[pos as int] == value by {
                        if sol[pos as int] != value {
                            assert(fits(sol, first.cells()));
                        }
                    }
                }
                self.pop_n_moves(pushed);
                proof {
                    lemma_same_log(self, &start);
                }
                return None;
            }
            proof {
                lemma_keeps_trans(first.cells(), s1.cells(), self.cells());
                lemma_progress_trans(&start, &s1, self, &q0, &q1, defer, 0, pu1, pushed);
                lemma_shrinks_trans(&start, &s1, self);
            }
        }
        proof {
            assert forall|i: int| 0 <= i < defer.flags().len() implies !#[trigger] defer.flags()[i] by {
            }
            if track {
                lemma_settled_consistent(self.cells(), defer.flags());
            }
            if htrack {
                lemma_hidden_done(self.cells(), defer.flags());
            }
            assert forall|sol: Seq<int>| is_solution::<N>(sol) implies (#[trigger] fits(sol, self.cells())
                <==> (fits(sol, start.cells()) && sol[pos as int] != value)) by {
                if fits(sol, self.cells()) {
                    lemma_fits_shrinks(&start, self, sol);
                    assert(self.cells()[pos as int].has(sol[pos as int]));
                }
                if fits(sol, start.cells()) && sol[pos as int] != value {
                    assert(fits(sol, first.cells()));
                }
            }
        }
        Some(pushed)
    }

    /// Takes every value of `values` still held by the cell at `pos` out of
    /// it, cascading each removal. Returns the number of removals logged: the
    /// solutions that still fit are exactly those that fitted and avoid
    /// `values` at `pos`. Returns `None`, with the grid restored, when the
    /// cascade runs into a contradiction: then no solution that fits avoids
    /// `values` at `pos`.
    pub fn remove_all(&mut self, values: Cell<N>, pos: Pos, defer: &mut Defer<N>) -> (r: Option<usize>)
        requires
            old(self).wf(),
            old(defer).wf(),
            pos.valid(N as int),
        ensures
            final(self).wf(),
            final(defer).wf(),
            consistent(old(self).cells()) ==> consistent(final(self).cells()),
            r is Some && no_hidden_single(old(self).cells()) ==> no_hidden_single(final(self).cells()),
            r matches Some(k) ==> {
                &&& extends(old(self), final(self), k as int)
                &&& shrinks(old(self), final(self))
                &&& forall|w: int| #[trigger] values.has(w) ==> !final(self).cells()[pos.index(N as int)].has(w)
            },
            r is None ==> final(self).same(old(self)),
            (forall|w: int| values.has(w) ==> !#[trigger] old(self).cells()[pos.index(N as int)].has(w)) ==> r == Some(0usize),
            r is Some ==> forall|sol: Seq<int>| is_solution::<N>(sol) ==> (#[trigger] fits(sol, final(self).cells())
                <==> (fits(sol, old(self).cells()) && !values.has(sol[pos.index(N as int)]))),
            r is None ==> forall|sol: Seq<int>| is_solution::<N>(sol) && #[trigger] fits(sol, old(self).cells()) ==> values.has(sol[pos.index(N as int)]),
    {
        self.remove_all_at(values, pos.index_of::<N>(), defer)
    }

    /// [`Sudoku::remove_all`] on the cell with flat index `i`.
    pub fn remove_all_at(&mut self, values: Cell<N>, i: usize, defer: &mut Defer<N>) -> (r: Option<usize>)
        requires
            old(self).wf(),
            old(defer).wf(),
            i < cell_count(N as int),
        ensures
            final(self).wf(),
            final(defer).wf(),
            consistent(old(self).cells()) ==> consistent(final(self).cells()),
            r is Some && no_hidden_single(old(self).cells()) ==> no_hidden_single(final(self).cells()),
            r matches Some(k) ==> {
                &&& extends(old(self), final(self), k as int)
                &&& shrinks(old(self), final(self))
                &&& forall|w: int| #[trigger] values.has(w) ==> !final(self).cells()[i as int].has(w)
            },
            r is None ==> final(self).same(old(self)),
            (forall|w: int| values.has(w) ==> !#[trigger] old(self).cells()[i as int].has(w)) ==> r == Some(0usize),
            r is Some ==> forall|sol: Seq<int>| is_solution::<N>(sol) ==> (#[trigger] fits(sol, final(self).cells())
                <==> (fits(sol, old(self).cells()) && !values.has(sol[i as int]))),
            r is None ==> forall|sol: Seq<int>| is_solution::<N>(sol) && #[trigger] fits(sol, old(self).cells()) ==> values.has(sol[i as int]),
    {
        let ghost start = *self;
        let mut count: usize = 0;
        proof {
            lemma_progress_refl(&start, defer, 0);
        }
        let mut v: u32 = 0;
        while v < 64
            invariant
                start == *old(self),
                start.wf(),
                i < cell_count(N as int),
                v <= 64,
                self.wf(),
                defer.wf(),
                consistent(start.cells()) ==> consistent(self.cells()),
                no_hidden_single(start.cells()) ==> no_hidden_single(self.cells()),
                count <= self.log().len(),
                extends(&start, self, count as int),
                shrinks(&start, self),
                forall|w: int| 0 <= w < v && #[trigger] values.has(w) ==> !self.cells()[i as int].has(w),
                (forall|w: int| values.has(w) ==> !#[trigger] start.cells()[i as int].has(w)) ==> count == 0,
                forall|sol: Seq<int>| is_solution::<N>(sol) ==> (#[trigger] fits(sol, self.cells()) <==> (fits(sol, start.cells())
                    && !(values.has(sol[i as int]) && sol[i as int] < v))),
            decreases 64 - v,
        {
            if values.contains(v) && self.cell(i).contains(v) {
                let ghost before = *self;
                match self.remove(v, i, defer) {
                    Some(n) => {
                        proof {
                            lemma_all_step(&start, &before, self, count as int, n as int, i as int, v as int, values);
                            assert forall|sol: Seq<int>| is_solution::<N>(sol) implies (#[trigger] fits(sol, self.cells()) <==> (fits(sol, start.cells())
                                && !(values.has(sol[i as int]) && sol[i as int] < v + 1))) by {
                                assert(fits(sol, self.cells()) <==> (fits(sol, before.cells()) && sol[i as int] != v));
                                assert(fits(sol, before.cells()) <==> (fits(sol, start.cells()) && !(values.has(sol[i as int]) && sol[i as int] < v)));
                            }
                        }
                        count = count + n;
                    },
                    None => {
                        proof {
                            lemma_same_log(self, &before);
                            assert forall|sol: Seq<int>| is_solution::<N>(sol) && #[trigger] fits(sol, start.cells()) implies values.has(sol[i as int]) by {
                                if !values.has(sol[i as int]) {
                                    assert(fits(sol, before.cells()));
                                }
                            }
                        }
                        self.pop_n_moves(count);
                        proof {
                            lemma_same_log(self, &start);
                        }
                        return None;
                    },
                }
            } else {
                proof {
                    assert forall|sol: Seq<int>| is_solution::<N>(sol) implies (#[trigger] fits(sol, self.cells()) <==> (fits(sol, start.cells())
                        && !(values.has(sol[i as int]) && sol[i as int] < v + 1))) by {
                        if fits(sol, self.cells()) && sol[i as int] == v {
                            assert(self.cells()[i as int].has(sol[i as int]));
                        }
                        if fits(sol, start.cells()) && !(values.has(sol[i as int]) && sol[i as int] < v + 1) {
                            assert(fits(sol, self.cells()));
                        }
                    }
                }
            }
            v = v + 1;
        }
        proof {
            assert forall|w: int| #[trigger] values.has(w) implies !self.cells()[i as int].has(w) by {
                if self.cells()[i as int].has(w) {
                    assert(self.cells()[i as int].valid());
                }
            }
            lemma_square_le(N as int);
            assert forall|sol: Seq<int>| is_solution::<N>(sol) implies (#[trigger] fits(sol, self.cells()) <==> (fits(sol, start.cells())
                && !values.has(sol[i as int]))) by {
                assert(sol[i as int] < N as int * N as int);
            }
        }
        Some(count)
    }
}

/// One more value taken out of cell `i` keeps the loop of `remove_all` going.
proof fn lemma_all_step<const N: usize>(
    start: &Sudoku<N>,
    before: &Sudoku<N>,
    after: &Sudoku<N>,
    count: int,
    n: int,
    i: int,
    v: int,
    values: Cell<N>,
)
    requires
        after.wf(),
        0 <= count,
        0 <= n,
        0 <= i < cell_count(N as int),
        extends(start, before, count),
        extends(before, after, n),
        shrinks(start, before),
        shrinks(before, after),
        !after.cells()[i].has(v),
        forall|w: int| 0 <= w < v && #[trigger] values.has(w) ==> !before.cells()[i].has(w),
    ensures
        extends(start, after, count + n),
        shrinks(start, after),
        count + n <= after.log().len(),
        count + n <= 4096 * 64,
        forall|w: int| 0 <= w < v + 1 && #[trigger] values.has(w) ==> !after.cells()[i].has(w),
{
    lemma_extends_trans(start, before, after, count, n);
    lemma_shrinks_trans(start, before, after);
    lemma_log_bound(after);
    assert forall|w: int| 0 <= w < v + 1 && #[trigger] values.has(w) implies !after.cells()[i].has(w) by {
        if after.cells()[i].has(w) {
            assert(before.cells()[i].has(w));
        }
    }
}

} // verus!
