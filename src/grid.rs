//! The grid: one candidate set per cell, the log of removals that produced it,
//! and a histogram of how many cells hold each number of candidates.
use vstd::prelude::*;
use crate::bits::{bit_of, lemma_bit_clear, lemma_restore, low_mask};
use crate::cell::{Cell, supported, lemma_bits_eq, lemma_size_facts, lemma_square_le};
use crate::defer::Defer;
use crate::pos::{cell_count, correlated, lemma_count_bounds, Pos};

verus! {

/// The bits that the log `log` leaves in cell `i`, starting from a full grid.
pub open spec fn replay<const N: usize>(log: Seq<(u32, usize)>, i: int) -> u64
    decreases log.len(),
{
    if log.len() == 0 {
        low_mask(N as int * N as int)
    } else {
        let prev = replay::<N>(log.drop_last(), i);
        if log.last().1 == i {
            prev & !(1u64 << (log.last().0 as u64))
        } else {
            prev
        }
    }
}

/// Each logged removal names a cell and a value in range, and took out a
/// value that the cell still held at that point.
pub open spec fn valid_log<const N: usize>(log: Seq<(u32, usize)>) -> bool {
    forall|k: int|
        0 <= k < log.len() ==> {
            &&& (#[trigger] log[k]).1 < cell_count(N as int)
            &&& log[k].0 < N as int * N as int
            &&& bit_of(replay::<N>(log.take(k), log[k].1 as int), log[k].0 as int)
        }
}

/// How many of `cells` hold exactly `m` candidates.
pub open spec fn count_size<const N: usize>(cells: Seq<Cell<N>>, m: nat) -> nat
    decreases cells.len(),
{
    if cells.len() == 0 {
        0
    } else {
        count_size(cells.drop_last(), m) + if cells.last().size() == m {
            1nat
        } else {
            0nat
        }
    }
}

/// The number of candidates over all of `cells`.
pub open spec fn total_size<const N: usize>(cells: Seq<Cell<N>>) -> nat
    decreases cells.len(),
{
    if cells.len() == 0 {
        0
    } else {
        total_size(cells.drop_last()) + cells.last().size()
    }
}

/// No value that a cell has settled on is still a candidate of a cell that
/// shares its row, column or box.
pub open spec fn consistent<const N: usize>(cells: Seq<Cell<N>>) -> bool {
    forall|i: int, j: int, v: int|
        0 <= i < cells.len() && 0 <= j < cells.len() && correlated(i, j, N as int)
            && cells[i].size() == 1 && #[trigger] cells[i].has(v) ==> !#[trigger] cells[j].has(v)
}

/// `r` is the smallest number of candidates above one among `cells`, or one
/// when every cell is down to a single candidate.
pub open spec fn fewest_open<const N: usize>(cells: Seq<Cell<N>>, r: int) -> bool {
    if r == 1 {
        forall|i: int| 0 <= i < cells.len() ==> #[trigger] cells[i].size() <= 1
    } else {
        &&& r >= 2
        &&& exists|i: int| 0 <= i < cells.len() && #[trigger] cells[i].size() == r
        &&& forall|i: int| 0 <= i < cells.len() ==> #[trigger] cells[i].size() <= 1 || cells[i].size() >= r
    }
}

/// A grid of block size `N` with the removals that led to it.
pub struct Sudoku<const N: usize> {
    /// The candidates of each cell, by flat index.
    grid: Vec<Cell<N>>,
    /// The removals performed, oldest first: `(value, cell)`.
    moves: Vec<(u32, usize)>,
    /// `buckets[k]` is the number of cells with `k + 1` candidates.
    buckets: Vec<usize>,
}

impl<const N: usize> Sudoku<N> {
    /// The candidates of each cell, by flat index.
    pub closed spec fn cells(&self) -> Seq<Cell<N>> {
        self.grid@
    }

    /// The removals performed, oldest first.
    pub closed spec fn log(&self) -> Seq<(u32, usize)> {
        self.moves@
    }

    /// Entry `k` counts the cells with `k + 1` candidates.
    pub closed spec fn histogram(&self) -> Seq<usize> {
        self.buckets@
    }

    /// The cells are what the log leaves of a full grid, none is empty, and
    /// the histogram counts them.
    pub open spec fn wf(&self) -> bool {
        &&& supported(N as int)
        &&& self.cells().len() == cell_count(N as int)
        &&& self.histogram().len() == N as int * N as int
        &&& valid_log::<N>(self.log())
        &&& forall|i: int| 0 <= i < cell_count(N as int) ==> (#[trigger] self.cells()[i]).bits() == replay::<N>(self.log(), i)
        &&& forall|i: int| 0 <= i < cell_count(N as int) ==> (#[trigger] self.cells()[i]).valid() && self.cells()[i].size() >= 1
        &&& forall|k: int| 0 <= k < N as int * N as int ==> #[trigger] self.histogram()[k] == count_size(self.cells(), (k + 1) as nat)
        &&& self.log().len() + total_size(self.cells()) == cell_count(N as int) * (N as int * N as int)
    }

    /// Two grids that are the same in cells, log and histogram.
    pub open spec fn same(&self, other: &Self) -> bool {
        self.cells() == other.cells() && self.log() == other.log() && self.histogram() == other.histogram()
    }

    /// The grid with no removal: every value possible in every cell.
    pub fn new() -> (r: Self)
        requires
            supported(N as int),
        ensures
            r.wf(),
            r.log().len() == 0,
            consistent(r.cells()),
            forall|i: int| 0 <= i < cell_count(N as int) ==> #[trigger] r.cells()[i] == Cell::<N>::full_spec(),
    {
        proof {
            lemma_count_bounds(N as int);
        }
        let count = N * N * N * N;
        let range = N * N;
        let full = Cell::<N>::full();
        let mut grid: Vec<Cell<N>> = Vec::new();
        let mut i: usize = 0;
        while i < count
            invariant
                i <= count,
                count == cell_count(N as int),
                grid@.len() == i,
                forall|k: int| 0 <= k < i ==> #[trigger] grid@[k] == full,
            decreases count - i,
        {
            grid.push(full);
            i = i + 1;
        }
        let mut buckets: Vec<usize> = Vec::new();
        let mut k: usize = 0;
        while k < range
            invariant
                k <= range,
                range == N as int * N as int,
                count == cell_count(N as int),
                buckets@.len() == k,
                forall|j: int| 0 <= j < k ==> #[trigger] buckets@[j] == if j == range - 1 {
                    count
                } else {
                    0
                },
            decreases range - k,
        {
            if k == range - 1 {
                buckets.push(count);
            } else {
                buckets.push(0);
            }
            k = k + 1;
        }
        let r = Sudoku { grid, moves: Vec::new(), buckets };
        proof {
            let cells = r.grid@;
            lemma_constant_counts(cells, full);
            assert forall|i: int| 0 <= i < cell_count(N as int) implies (#[trigger] cells[i]).bits() == replay::<N>(r.moves@, i) by {
                assert(cells[i] == full);
            }
            assert forall|i: int, j: int, v: int|
                0 <= i < cells.len() && 0 <= j < cells.len() && correlated(i, j, N as int)
                    && cells[i].size() == 1 && #[trigger] cells[i].has(v) implies !#[trigger] cells[j].has(v) by {
                assert(cells[i] == full);
                assert(cells[j] == full);
            }
        }
        r
    }

    /// The candidates of the cell with flat index `i`.
    pub fn cell(&self, i: usize) -> (r: Cell<N>)
        requires
            self.wf(),
            i < cell_count(N as int),
        ensures
            r == self.cells()[i as int],
    {
        self.grid[i]
    }

    /// The candidates of the cell at `pos`.
    pub fn get(&self, pos: Pos) -> (r: Cell<N>)
        requires
            self.wf(),
            pos.valid(N as int),
        ensures
            r == self.cells()[pos.index(N as int)],
    {
        self.grid[pos.index_of::<N>()]
    }

    /// The number of removals in the log.
    pub fn moves_len(&self) -> (r: usize)
        ensures
            r == self.log().len(),
    {
        self.moves.len()
    }

    /// The smallest number of candidates above one that some cell holds, read
    /// from the histogram; one when every cell is determined.
    pub fn best(&self) -> (r: usize)
        requires
            self.wf(),
        ensures
            fewest_open(self.cells(), r as int),
    {
        proof {
            lemma_count_bounds(N as int);
        }
        let range = N * N;
        let mut k: usize = 1;
        while k < range
            invariant
                self.wf(),
                range == N as int * N as int,
                1 <= k <= range,
                forall|s: nat| 2 <= s <= k ==> #[trigger] count_size(self.cells(), s) == 0,
            decreases range - k,
        {
            assert(self.histogram()[k as int] == count_size(self.cells(), (k + 1) as nat));
            if self.buckets[k] != 0 {
                proof {
                    lemma_count_exists(self.cells(), (k + 1) as nat);
                    self.lemma_no_size_between(k as int + 1);
                }
                return k + 1;
            }
            k = k + 1;
        }
        proof {
            self.lemma_no_size_between(range as int + 1);
            assert forall|i: int| 0 <= i < self.cells().len() implies #[trigger] self.cells()[i].size() <= 1 by {
                lemma_size_facts(self.cells()[i]);
            }
        }
        1
    }

    /// The same as [`Sudoku::best`], found by scanning every cell.
    pub fn long_best(&self) -> (r: usize)
        requires
            self.wf(),
        ensures
            fewest_open(self.cells(), r as int),
    {
        proof {
            lemma_count_bounds(N as int);
        }
        let count = N * N * N * N;
        let none = N * N + 1;
        let mut min = none;
        let mut i: usize = 0;
        while i < count
            invariant
                self.wf(),
                count == cell_count(N as int),
                none == N as int * N as int + 1,
                i <= count,
                2 <= min <= none,
                forall|j: int| 0 <= j < i ==> #[trigger] self.cells()[j].size() <= 1 || self.cells()[j].size() >= min,
                min < none ==> exists|j: int| 0 <= j < i && #[trigger] self.cells()[j].size() == min,
            decreases count - i,
        {
            let len = self.grid[i].len();
            if len > 1 && len < min {
                min = len;
            }
            i = i + 1;
        }
        if min == none {
            proof {
                assert forall|j: int| 0 <= j < self.cells().len() implies #[trigger] self.cells()[j].size() <= 1 by {
                    lemma_size_facts(self.cells()[j]);
                }
            }
            return 1;
        }
        min
    }

    /// The first cell with exactly `min` candidates.
    pub fn min_bifurc(&self, min: usize) -> (r: usize)
        requires
            self.wf(),
            exists|j: int| 0 <= j < self.cells().len() && #[trigger] self.cells()[j].size() == min,
        ensures
            r < cell_count(N as int),
            self.cells()[r as int].size() == min,
            forall|j: int| 0 <= j < r ==> #[trigger] self.cells()[j].size() != min,
    {
        proof {
            lemma_count_bounds(N as int);
        }
        let count = N * N * N * N;
        let mut i: usize = 0;
        while i < count
            invariant
                self.wf(),
                count == cell_count(N as int),
                i <= count,
                forall|j: int| 0 <= j < i ==> #[trigger] self.cells()[j].size() != min,
            decreases count - i,
        {
            if self.grid[i].len() == min {
                return i;
            }
            i = i + 1;
        }
        proof {
            let j = choose|j: int| 0 <= j < self.cells().len() && #[trigger] self.cells()[j].size() == min;
            assert(self.cells()[j].size() != min);
        }
        0
    }

    /// No cell holds `2..m` candidates when the histogram says so.
    proof fn lemma_no_size_between(&self, m: int)
        requires
            self.wf(),
            2 <= m <= N as int * N as int + 1,
            forall|s: nat| 2 <= s < m ==> #[trigger] count_size(self.cells(), s) == 0,
        ensures
            forall|i: int| 0 <= i < self.cells().len() ==> #[trigger] self.cells()[i].size() <= 1 || self.cells()[i].size() >= m,
    {
        assert forall|i: int| 0 <= i < self.cells().len() implies #[trigger] self.cells()[i].size() <= 1 || self.cells()[i].size() >= m by {
            let s = self.cells()[i].size();
            lemma_size_facts(self.cells()[i]);
            if 2 <= s < m {
                lemma_count_exists(self.cells(), s);
            }
        }
    }

    /// Takes `value` out of cell `i`, logs it, counts it in `pushed` and
    /// queues the cell in `defer`.
    pub fn remove_one(&mut self, value: u32, i: usize, pushed: &mut usize, defer: &mut Defer<N>)
        requires
            old(self).wf(),
            old(defer).wf(),
            i < cell_count(N as int),
            old(self).cells()[i as int].has(value as int),
            old(self).cells()[i as int].size() >= 2,
            *old(pushed) < usize::MAX,
        ensures
            final(self).wf(),
            final(defer).wf(),
            final(self).log() == old(self).log().push((value, i)),
            final(self).cells().len() == old(self).cells().len(),
            forall|w: int| #[trigger] final(self).cells()[i as int].has(w) <==> (old(self).cells()[i as int].has(w) && w != value),
            final(self).cells()[i as int].size() + 1 == old(self).cells()[i as int].size(),
            forall|j: int| 0 <= j < cell_count(N as int) && j != i ==> #[trigger] final(self).cells()[j] == old(self).cells()[j],
            *final(pushed) == *old(pushed) + 1,
            old(defer).flags()[i as int] ==> final(defer).queued() == old(defer).queued(),
            !old(defer).flags()[i as int] ==> final(defer).queued() == old(defer).queued().push(i),
            final(defer).flags() == old(defer).flags().update(i as int, true),
    {
        let ghost before = *self;
        proof {
            lemma_count_bounds(N as int);
            lemma_square_le(N as int);
            lemma_size_facts(self.grid@[i as int]);
            lemma_log_bound(self);
        }
        let mut c = self.grid[i];
        c.remove(value);
        self.grid.set(i, c);
        let len = c.len();
        proof {
            lemma_size_facts(before.grid@[i as int]);
            lemma_count_update(before.grid@, i as int, c, (len + 1) as nat);
            lemma_count_exists(before.grid@, len as nat);
            assert(self.buckets@[len as int] == count_size(before.grid@, (len + 1) as nat));
            assert(self.buckets@[len - 1] == count_size(before.grid@, len as nat));
        }
        self.buckets.set(len, self.buckets[len] - 1);
        self.buckets.set(len - 1, self.buckets[len - 1] + 1);
        self.moves.push((value, i));
        defer.push(i);
        *pushed = *pushed + 1;
        proof {
            assert(before.moves@.push((value, i)) == self.moves@);
            lemma_log_push::<N>(before.moves@, value, i);
            let cells = self.grid@;
            assert(cells == before.grid@.update(i as int, c));
            assert forall|j: int| 0 <= j < cell_count(N as int) implies (#[trigger] cells[j]).bits() == replay::<N>(self.moves@, j) by {
                assert(self.moves@.drop_last() == before.moves@);
            }
            assert forall|j: int| 0 <= j < cell_count(N as int) implies (#[trigger] cells[j]).valid() && cells[j].size() >= 1 by {
                if j == i {
                    lemma_size_facts(c);
                }
            }
            lemma_total_update(before.grid@, i as int, c);
            assert forall|k: int| 0 <= k < N as int * N as int implies #[trigger] self.buckets@[k] == count_size(cells, (k + 1) as nat) by {
                lemma_count_update(before.grid@, i as int, c, (k + 1) as nat);
            }
            assert(cells[i as int] == c);
        }
    }

    /// A copy of this grid, log and histogram included.
    pub fn snapshot(&self) -> (r: Self)
        ensures
            r.same(self),
            self.wf() ==> r.wf(),
    {
        let mut grid: Vec<Cell<N>> = Vec::new();
        let mut i: usize = 0;
        while i < self.grid.len()
            invariant
                i <= self.grid@.len(),
                grid@ == self.grid@.take(i as int),
            decreases self.grid@.len() - i,
        {
            grid.push(self.grid[i]);
            i = i + 1;
            proof {
                assert(grid@ =~= self.grid@.take(i as int));
            }
        }
        let mut moves: Vec<(u32, usize)> = Vec::new();
        let mut k: usize = 0;
        while k < self.moves.len()
            invariant
                k <= self.moves@.len(),
                moves@ == self.moves@.take(k as int),
            decreases self.moves@.len() - k,
        {
            moves.push(self.moves[k]);
            k = k + 1;
            proof {
                assert(moves@ =~= self.moves@.take(k as int));
            }
        }
        let mut buckets: Vec<usize> = Vec::new();
        let mut b: usize = 0;
        while b < self.buckets.len()
            invariant
                b <= self.buckets@.len(),
                buckets@ == self.buckets@.take(b as int),
            decreases self.buckets@.len() - b,
        {
            buckets.push(self.buckets[b]);
            b = b + 1;
            proof {
                assert(buckets@ =~= self.buckets@.take(b as int));
            }
        }
        proof {
            assert(grid@ =~= self.grid@);
            assert(moves@ =~= self.moves@);
            assert(buckets@ =~= self.buckets@);
        }
        Sudoku { grid, moves, buckets }
    }

    /// Puts back the candidates of the last `n` removals, most recent first.
    pub fn pop_n_moves(&mut self, n: usize)
        requires
            old(self).wf(),
            n <= old(self).log().len(),
        ensures
            final(self).wf(),
            final(self).log() == old(self).log().take(old(self).log().len() - n),
    {
        let ghost start = self.moves@;
        let mut k: usize = 0;
        while k < n
            invariant
                self.wf(),
                k <= n,
                n <= start.len(),
                self.moves@ == start.take(start.len() - k),
            decreases n - k,
        {
            self.undo_last();
            k = k + 1;
            proof {
                assert(start.take(start.len() - (k - 1)).drop_last() =~= start.take(start.len() - k));
            }
        }
        proof {
            assert(self.moves@ == start.take(start.len() - n));
        }
    }

    /// Puts back the candidate of the last removal.
    fn undo_last(&mut self)
        requires
            old(self).wf(),
            old(self).log().len() > 0,
        ensures
            final(self).wf(),
            final(self).log() == old(self).log().drop_last(),
    {
        let ghost before = *self;
        proof {
            lemma_count_bounds(N as int);
            lemma_square_le(N as int);
        }
        let (value, i) = self.moves.pop().unwrap();
        proof {
            let log = before.moves@;
            let k = log.len() - 1;
            assert(log[k] == (value, i));
            assert(log.take(k) =~= log.drop_last());
            assert(self.moves@ == log.drop_last());
            assert(value < 64);
            lemma_restore(replay::<N>(log.drop_last(), i as int), value as u64);
            lemma_bit_clear(replay::<N>(log.drop_last(), i as int), value as u64, value as int);
            assert(before.grid@[i as int].bits() == replay::<N>(log, i as int));
            assert(!before.grid@[i as int].has(value as int));
            assert(before.grid@[i as int].size() >= 1);
        }
        let old_cell = self.grid[i];
        let c = old_cell.with(value);
        proof {
            lemma_size_facts(c);
        }
        let len = old_cell.len();
        proof {
            assert forall|w: int| #[trigger] c.has(w) implies 0 <= w < N as int * N as int by {
                assert(c.has(w) <==> (old_cell.has(w) || w == value));
            }
            lemma_size_facts(c);
            lemma_count_update(before.grid@, i as int, c, len as nat);
            lemma_count_exists(before.grid@, (len + 1) as nat);
            assert(self.buckets@[len - 1] == count_size(before.grid@, len as nat));
            assert(self.buckets@[len as int] == count_size(before.grid@, (len + 1) as nat));
        }
        self.grid.set(i, c);
        self.buckets.set(len - 1, self.buckets[len - 1] - 1);
        self.buckets.set(len, self.buckets[len] + 1);
        proof {
            let log = before.moves@;
            let cells = self.grid@;
            assert(cells == before.grid@.update(i as int, c));
            lemma_bits_eq(c, c);
            assert forall|j: int| 0 <= j < cell_count(N as int) implies (#[trigger] cells[j]).bits() == replay::<N>(self.moves@, j) by {
                assert(log.drop_last() == self.moves@);
            }
            assert forall|j: int| 0 <= j < cell_count(N as int) implies (#[trigger] cells[j]).valid() && cells[j].size() >= 1 by {
                if j == i {
                    lemma_size_facts(c);
                }
            }
            assert forall|k: int| 0 <= k < self.moves@.len() implies {
                &&& (#[trigger] self.moves@[k]).1 < cell_count(N as int)
                &&& self.moves@[k].0 < N as int * N as int
                &&& bit_of(replay::<N>(self.moves@.take(k), self.moves@[k].1 as int), self.moves@[k].0 as int)
            } by {
                assert(self.moves@.take(k) =~= log.take(k));
                assert(self.moves@[k] == log[k]);
            }
            lemma_total_update(before.grid@, i as int, c);
            assert forall|k: int| 0 <= k < N as int * N as int implies #[trigger] self.buckets@[k] == count_size(cells, (k + 1) as nat) by {
                lemma_count_update(before.grid@, i as int, c, (k + 1) as nat);
            }
        }
    }
}

/// `after` is `before` with `count` more removals logged.
pub open spec fn extends<const N: usize>(before: &Sudoku<N>, after: &Sudoku<N>, count: int) -> bool {
    &&& after.log().len() == before.log().len() + count
    &&& after.log().take(before.log().len() as int) == before.log()
}

/// Every candidate of `after` is a candidate of `before`.
pub open spec fn shrinks<const N: usize>(before: &Sudoku<N>, after: &Sudoku<N>) -> bool {
    forall|i: int, w: int|
        0 <= i < cell_count(N as int) && #[trigger] after.cells()[i].has(w) ==> before.cells()[i].has(w)
}

/// Every cell not queued in `flags` (nor `except`) that is down to one value
/// has had that value taken out of the cells correlated with it.
pub open spec fn settled<const N: usize>(cells: Seq<Cell<N>>, flags: Seq<bool>, except: int) -> bool {
    forall|i: int, j: int, v: int|
        0 <= i < cells.len() && 0 <= j < cells.len() && i != except && !flags[i] && correlated(i, j, N as int)
            && cells[i].size() == 1 && #[trigger] cells[i].has(v) ==> !#[trigger] cells[j].has(v)
}

/// The histogram of a well-formed grid always equals a fresh recount of its
/// cells: entry `k` is the number of cells with exactly `k + 1` candidates.
/// Every operation on the grid keeps it well-formed, so this holds after any
/// sequence of removals and undos.
pub proof fn lemma_histogram_recount<const N: usize>(s: &Sudoku<N>)
    requires
        s.wf(),
    ensures
        s.histogram().len() == N as int * N as int,
        forall|k: int| 0 <= k < N as int * N as int ==> #[trigger] s.histogram()[k] == count_size(s.cells(), (k + 1) as nat),
{
}

/// After a call that logged `count` removals on top of `before` (as
/// [`Sudoku::remove_all`] reports), undoing exactly `count` moves (as
/// [`Sudoku::pop_n_moves`] does) gives back `before` bit for bit: same cells,
/// same log, same histogram.
pub proof fn lemma_undo_restores<const N: usize>(before: &Sudoku<N>, after: &Sudoku<N>, restored: &Sudoku<N>, count: int)
    requires
        before.wf(),
        after.wf(),
        restored.wf(),
        0 <= count,
        extends(before, after, count),
        restored.log() == after.log().take(after.log().len() - count),
    ensures
        restored.same(before),
{
    lemma_same_log(restored, before);
}

/// Two well-formed grids with the same log are the same grid.
pub proof fn lemma_same_log<const N: usize>(a: &Sudoku<N>, b: &Sudoku<N>)
    requires
        a.wf(),
        b.wf(),
        a.log() == b.log(),
    ensures
        a.same(b),
{
    assert forall|i: int| 0 <= i < a.cells().len() implies a.cells()[i] == b.cells()[i] by {
        lemma_bits_eq(a.cells()[i], b.cells()[i]);
    }
    assert(a.cells() =~= b.cells());
    assert(a.histogram() =~= b.histogram());
}

/// Logging `n` more after `k` more is logging `k + n` more.
pub proof fn lemma_extends_trans<const N: usize>(a: &Sudoku<N>, b: &Sudoku<N>, c: &Sudoku<N>, k: int, n: int)
    requires
        extends(a, b, k),
        extends(b, c, n),
        0 <= k,
        0 <= n,
    ensures
        extends(a, c, k + n),
{
    assert(c.log().take(a.log().len() as int) =~= c.log().take(b.log().len() as int).take(a.log().len() as int));
}

/// Removing candidates from a cell that then gets queued keeps every other
/// settled cell settled.
pub proof fn lemma_settled_remove<const N: usize>(
    old_cells: Seq<Cell<N>>,
    new_cells: Seq<Cell<N>>,
    old_flags: Seq<bool>,
    new_flags: Seq<bool>,
    j: int,
    except: int,
)
    requires
        settled(old_cells, old_flags, except),
        old_cells.len() == new_cells.len(),
        0 <= j < old_cells.len(),
        old_flags.len() == old_cells.len(),
        new_flags == old_flags.update(j, true),
        forall|k: int| 0 <= k < old_cells.len() && k != j ==> #[trigger] new_cells[k] == old_cells[k],
        forall|w: int| #[trigger] new_cells[j].has(w) ==> old_cells[j].has(w),
    ensures
        settled(new_cells, new_flags, except),
{
    assert forall|i: int, k: int, v: int|
        0 <= i < new_cells.len() && 0 <= k < new_cells.len() && i != except && !new_flags[i] && correlated(i, k, N as int)
            && new_cells[i].size() == 1 && #[trigger] new_cells[i].has(v) implies !#[trigger] new_cells[k].has(v) by {
        assert(i != j);
        assert(new_cells[i] == old_cells[i]);
        assert(old_cells[i].has(v));
        if k != j {
            assert(new_cells[k] == old_cells[k]);
        }
        assert(!new_flags[i] ==> !old_flags[i]);
        assert(!old_cells[k].has(v));
        if new_cells[k].has(v) {
            assert(old_cells[k].has(v));
        }
    }
}

/// A log entry that takes out a present value keeps the log valid.
proof fn lemma_log_push<const N: usize>(log: Seq<(u32, usize)>, value: u32, i: usize)
    requires
        valid_log::<N>(log),
        i < cell_count(N as int),
        value < N as int * N as int,
        bit_of(replay::<N>(log, i as int), value as int),
    ensures
        valid_log::<N>(log.push((value, i))),
{
    let l2 = log.push((value, i));
    assert forall|k: int| 0 <= k < l2.len() implies {
        &&& (#[trigger] l2[k]).1 < cell_count(N as int)
        &&& l2[k].0 < N as int * N as int
        &&& bit_of(replay::<N>(l2.take(k), l2[k].1 as int), l2[k].0 as int)
    } by {
        if k < log.len() {
            assert(l2.take(k) =~= log.take(k));
        } else {
            assert(l2.take(k) =~= log);
        }
    }
}

/// The log is never longer than the number of candidates of a full grid.
pub proof fn lemma_log_bound<const N: usize>(s: &Sudoku<N>)
    requires
        s.wf(),
    ensures
        s.log().len() <= 4096 * 64,
{
    lemma_count_bounds(N as int);
    let n = N as int;
    assert(cell_count(n) * (n * n) <= 4096 * 64) by (nonlinear_arith)
        requires
            cell_count(n) <= 4096,
            n * n <= 64,
            0 <= n * n,
    ;
}

/// Replacing one cell changes the counts by that cell alone.
pub proof fn lemma_count_update<const N: usize>(s: Seq<Cell<N>>, i: int, c: Cell<N>, m: nat)
    requires
        0 <= i < s.len(),
    ensures
        count_size(s.update(i, c), m) + (if s[i].size() == m {
            1nat
        } else {
            0nat
        }) == count_size(s, m) + (if c.size() == m {
            1nat
        } else {
            0nat
        }),
    decreases s.len(),
{
    let t = s.update(i, c);
    if i == s.len() - 1 {
        assert(t.drop_last() =~= s.drop_last());
    } else {
        assert(t.drop_last() =~= s.drop_last().update(i, c));
        lemma_count_update(s.drop_last(), i, c, m);
    }
}

/// Replacing one cell changes the total by that cell alone.
pub proof fn lemma_total_update<const N: usize>(s: Seq<Cell<N>>, i: int, c: Cell<N>)
    requires
        0 <= i < s.len(),
    ensures
        total_size(s.update(i, c)) + s[i].size() == total_size(s) + c.size(),
    decreases s.len(),
{
    let t = s.update(i, c);
    if i == s.len() - 1 {
        assert(t.drop_last() =~= s.drop_last());
    } else {
        assert(t.drop_last() =~= s.drop_last().update(i, c));
        lemma_total_update(s.drop_last(), i, c);
    }
}

/// A count is positive exactly when some cell has that size, and never more
/// than the number of cells.
pub proof fn lemma_count_exists<const N: usize>(s: Seq<Cell<N>>, m: nat)
    ensures
        count_size(s, m) > 0 <==> exists|i: int| 0 <= i < s.len() && #[trigger] s[i].size() == m,
        count_size(s, m) <= s.len(),
    decreases s.len(),
{
    if s.len() > 0 {
        lemma_count_exists(s.drop_last(), m);
        if exists|i: int| 0 <= i < s.len() && #[trigger] s[i].size() == m {
            let i = choose|i: int| 0 <= i < s.len() && #[trigger] s[i].size() == m;
            if i < s.len() - 1 {
                assert(s.drop_last()[i] == s[i]);
            }
        }
        if exists|i: int| 0 <= i < s.len() - 1 && #[trigger] s.drop_last()[i].size() == m {
            let i = choose|i: int| 0 <= i < s.len() - 1 && #[trigger] s.drop_last()[i].size() == m;
            assert(s[i] == s.drop_last()[i]);
        }
    }
}

/// Counts and total of a grid whose cells are all the same.
proof fn lemma_constant_counts<const N: usize>(s: Seq<Cell<N>>, c: Cell<N>)
    requires
        forall|k: int| 0 <= k < s.len() ==> #[trigger] s[k] == c,
    ensures
        forall|m: nat| #[trigger] count_size(s, m) == if c.size() == m {
            s.len()
        } else {
            0
        },
        total_size(s) == s.len() * c.size(),
    decreases s.len(),
{
    if s.len() > 0 {
        lemma_constant_counts(s.drop_last(), c);
        assert(s.last() == c);
        assert forall|m: nat| #[trigger] count_size(s, m) == if c.size() == m {
            s.len()
        } else {
            0
        } by {
            assert(count_size(s.drop_last(), m) == if c.size() == m {
                s.drop_last().len()
            } else {
                0
            });
        }
        assert(total_size(s) == (s.len() - 1) * c.size() + c.size());
        assert((s.len() - 1) * c.size() + c.size() == s.len() * c.size()) by (nonlinear_arith);
    }
}

} // verus!
