//! Coordinates of the grid, and the row, column and box that a cell shares.
use vstd::prelude::*;
use vstd::arithmetic::div_mod::{lemma_fundamental_div_mod, lemma_fundamental_div_mod_converse};

verus! {

/// A grid position: block-row `y_1`, sub-row `y_2`, block-column `x_1`, sub-column `x_2`.
#[derive(Debug, Clone, Copy, PartialEq, Eq, Hash, Default, Structural)]
pub struct Pos {
    /// Selects the column block
    pub x_1: u8,
    /// Selects the column inside the block
    pub x_2: u8,
    /// Selects the row block
    pub y_1: u8,
    /// Selects the row inside the block
    pub y_2: u8,
}

/// The flat index of the cell at block-row `a`, sub-row `b`, block-column `c`
/// and sub-column `d`: cells are numbered row by row.
pub open spec fn flat(a: int, b: int, c: int, d: int, n: int) -> int {
    ((a * n + b) * n + c) * n + d
}

/// The number of cells of a grid of block size `n`.
pub open spec fn cell_count(n: int) -> int {
    n * n * n * n
}

/// The row of the cell with flat index `i`.
pub open spec fn row_of(i: int, n: int) -> int {
    i / (n * n)
}

/// The column of the cell with flat index `i`.
pub open spec fn col_of(i: int, n: int) -> int {
    i % (n * n)
}

/// Cells `i` and `j` lie in the same box.
pub open spec fn same_box(i: int, j: int, n: int) -> bool {
    row_of(i, n) / n == row_of(j, n) / n && col_of(i, n) / n == col_of(j, n) / n
}

/// Cells `i` and `j` are distinct and share a row, a column or a box.
pub open spec fn correlated(i: int, j: int, n: int) -> bool {
    i != j && (row_of(i, n) == row_of(j, n) || col_of(i, n) == col_of(j, n) || same_box(i, j, n))
}

/// The flat index of the cell at row `r` and column `c`.
pub open spec fn at_rc(r: int, c: int, n: int) -> int {
    r * (n * n) + c
}

/// The cell at a row and column in range lies in the grid, in that row and column.
pub proof fn lemma_at_rc(r: int, c: int, n: int)
    requires
        1 <= n <= 8,
        0 <= r < n * n,
        0 <= c < n * n,
    ensures
        0 <= at_rc(r, c, n) < cell_count(n),
        row_of(at_rc(r, c, n), n) == r,
        col_of(at_rc(r, c, n), n) == c,
{
    lemma_count_bounds(n);
    lemma_fundamental_div_mod_converse(at_rc(r, c, n), n * n, r, c);
    let nn = n * n;
    assert(0 <= r * nn + c < nn * nn) by (nonlinear_arith)
        requires
            0 <= r < nn,
            0 <= c < nn,
    ;
}

/// Every cell of the grid is the cell at its row and column.
pub proof fn lemma_rc_of(j: int, n: int)
    requires
        1 <= n <= 8,
        0 <= j < cell_count(n),
    ensures
        j == at_rc(row_of(j, n), col_of(j, n), n),
        0 <= row_of(j, n) < n * n,
        0 <= col_of(j, n) < n * n,
{
    lemma_count_bounds(n);
    let nn = n * n;
    lemma_fundamental_div_mod(j, nn);
    let q = j / nn;
    let r = j % nn;
    assert(0 <= q < nn) by (nonlinear_arith)
        requires
            j == nn * q + r,
            0 <= r < nn,
            0 <= j < nn * nn,
            1 <= nn,
    ;
}

/// A row or column of the grid splits into a block and a line inside the block.
pub proof fn lemma_block(a: int, t: int, n: int)
    requires
        1 <= n,
        0 <= a < n,
        0 <= t < n,
    ensures
        (a * n + t) / n == a,
        (a * n + t) % n == t,
        0 <= a * n + t < n * n,
{
    lemma_fundamental_div_mod_converse(a * n + t, n, a, t);
    assert(0 <= a * n + t < n * n) by (nonlinear_arith)
        requires
            0 <= a < n,
            0 <= t < n,
    ;
}

/// A row or column index is its block times `n` plus its line.
pub proof fn lemma_block_of(x: int, n: int)
    requires
        1 <= n,
        0 <= x < n * n,
    ensures
        x == (x / n) * n + x % n,
        0 <= x / n < n,
        0 <= x % n < n,
{
    lemma_fundamental_div_mod(x, n);
    let q = x / n;
    let r = x % n;
    assert(x == q * n + r) by (nonlinear_arith)
        requires
            x == n * q + r,
    ;
    assert(0 <= q < n) by (nonlinear_arith)
        requires
            x == n * q + r,
            0 <= r < n,
            0 <= x < n * n,
            1 <= n,
    ;
}

/// Whether the cells `i` and `j` of a grid of block size `N` are correlated.
pub fn is_correlated<const N: usize>(i: usize, j: usize) -> (r: bool)
    requires
        1 <= N <= 8,
    ensures
        r == correlated(i as int, j as int, N as int),
{
    proof {
        lemma_count_bounds(N as int);
    }
    let nn = N * N;
    if i == j {
        return false;
    }
    let (ri, ci) = (i / nn, i % nn);
    let (rj, cj) = (j / nn, j % nn);
    ri == rj || ci == cj || (ri / N == rj / N && ci / N == cj / N)
}

pub proof fn lemma_flat_steps(a: int, b: int, c: int, d: int, n: int)
    ensures
        flat(a, b, c, n, n) == flat(a, b, c + 1, 0, n),
        flat(a, b, n, 0, n) == flat(a, b + 1, 0, 0, n),
        flat(a, n, 0, 0, n) == flat(a + 1, 0, 0, 0, n),
        flat(n, 0, 0, 0, n) == cell_count(n),
        flat(a, b, c, d + 1, n) == flat(a, b, c, d, n) + 1,
{
    assert(flat(a, b, c, n, n) == flat(a, b, c + 1, 0, n)) by (nonlinear_arith);
    assert(flat(a, b, n, 0, n) == flat(a, b + 1, 0, 0, n)) by (nonlinear_arith);
    assert(flat(a, n, 0, 0, n) == flat(a + 1, 0, 0, 0, n)) by (nonlinear_arith);
    assert(flat(n, 0, 0, 0, n) == cell_count(n)) by (nonlinear_arith);
}

/// Bounds on the grid of a supported block size.
pub proof fn lemma_count_bounds(n: int)
    requires
        1 <= n <= 8,
    ensures
        1 <= n * n <= 64,
        n <= n * n,
        1 <= n * n * n <= 512,
        cell_count(n) == (n * n) * (n * n),
        1 <= cell_count(n) <= 4096,
{
    assert(1 <= n * n <= 64) by (nonlinear_arith)
        requires
            1 <= n <= 8,
    ;
    assert(n <= n * n) by (nonlinear_arith)
        requires
            1 <= n,
    ;
    assert(1 <= n * n * n <= 512) by (nonlinear_arith)
        requires
            1 <= n <= 8,
    ;
    assert(cell_count(n) == (n * n) * (n * n)) by (nonlinear_arith);
    assert(1 <= (n * n) * (n * n) <= 4096) by (nonlinear_arith)
        requires
            1 <= n * n <= 64,
    ;
}

/// A flat index in range from in-range parts.
pub proof fn lemma_flat_bound(a: int, b: int, c: int, d: int, n: int)
    requires
        0 <= a < n,
        0 <= b < n,
        0 <= c < n,
        0 <= d < n,
    ensures
        0 <= flat(a, b, c, d, n) < cell_count(n),
{
    assert(0 <= a * n + b < n * n) by (nonlinear_arith)
        requires
            0 <= a < n,
            0 <= b < n,
    ;
    let ab = a * n + b;
    assert(0 <= ab * n + c < n * n * n) by (nonlinear_arith)
        requires
            0 <= ab < n * n,
            0 <= c < n,
    ;
    let abc = ab * n + c;
    assert(0 <= abc * n + d < n * n * n * n) by (nonlinear_arith)
        requires
            0 <= abc < n * n * n,
            0 <= d < n,
    ;
}

impl Pos {
    /// All four parts lie in `0..n`.
    pub open spec fn valid(self, n: int) -> bool {
        self.x_1 < n && self.x_2 < n && self.y_1 < n && self.y_2 < n
    }

    /// The flat index of this position.
    pub open spec fn index(self, n: int) -> int {
        flat(self.y_1 as int, self.y_2 as int, self.x_1 as int, self.x_2 as int, n)
    }

    /// The flat index of this position in a grid of block size `N`.
    pub fn index_of<const N: usize>(self) -> (r: usize)
        requires
            1 <= N <= 8,
            self.valid(N as int),
        ensures
            r == self.index(N as int),
            r < cell_count(N as int),
    {
        proof {
            lemma_flat_bound(self.y_1 as int, self.y_2 as int, self.x_1 as int, self.x_2 as int, N as int);
            lemma_count_bounds(N as int);
            let n = N as int;
            let (a, b, c) = (self.y_1 as int, self.y_2 as int, self.x_1 as int);
            assert(0 <= a * n + b < n * n) by (nonlinear_arith)
                requires
                    0 <= a < n,
                    0 <= b < n,
            ;
            assert(0 <= (a * n + b) * n + c < n * n * n) by (nonlinear_arith)
                requires
                    0 <= a * n + b < n * n,
                    0 <= c < n,
            ;
            assert(n * n * n <= 512) by (nonlinear_arith)
                requires
                    1 <= n <= 8,
            ;
        }
        ((self.y_1 as usize * N + self.y_2 as usize) * N + self.x_1 as usize) * N + self.x_2 as usize
    }

    /// Every position of a grid of block size `N`, in the order of their flat
    /// index: block-row, sub-row, block-column, sub-column.
    pub fn iter<const N: usize>() -> (r: Vec<Pos>)
        requires
            1 <= N <= 8,
        ensures
            r@.len() == cell_count(N as int),
            forall|j: int| 0 <= j < r@.len() ==> (#[trigger] r@[j]).valid(N as int) && r@[j].index(N as int) == j,
    {
        let n = N as u8;
        let ghost g = N as int;
        let mut r: Vec<Pos> = Vec::new();
        let mut y_1: u8 = 0;
        while y_1 < n
            invariant
                n == g,
                1 <= g <= 8,
                y_1 <= n,
                r@.len() == flat(y_1 as int, 0, 0, 0, g),
                forall|j: int| 0 <= j < r@.len() ==> (#[trigger] r@[j]).valid(g) && r@[j].index(g) == j,
            decreases n - y_1,
        {
            let mut y_2: u8 = 0;
            while y_2 < n
                invariant
                    n == g,
                    1 <= g <= 8,
                    y_1 < n,
                    y_2 <= n,
                    r@.len() == flat(y_1 as int, y_2 as int, 0, 0, g),
                    forall|j: int| 0 <= j < r@.len() ==> (#[trigger] r@[j]).valid(g) && r@[j].index(g) == j,
                decreases n - y_2,
            {
                let mut x_1: u8 = 0;
                while x_1 < n
                    invariant
                        n == g,
                        1 <= g <= 8,
                        y_1 < n,
                        y_2 < n,
                        x_1 <= n,
                        r@.len() == flat(y_1 as int, y_2 as int, x_1 as int, 0, g),
                        forall|j: int| 0 <= j < r@.len() ==> (#[trigger] r@[j]).valid(g) && r@[j].index(g) == j,
                    decreases n - x_1,
                {
                    let mut x_2: u8 = 0;
                    while x_2 < n
                        invariant
                            n == g,
                            1 <= g <= 8,
                            y_1 < n,
                            y_2 < n,
                            x_1 < n,
                            x_2 <= n,
                            r@.len() == flat(y_1 as int, y_2 as int, x_1 as int, x_2 as int, g),
                            forall|j: int| 0 <= j < r@.len() ==> (#[trigger] r@[j]).valid(g) && r@[j].index(g) == j,
                        decreases n - x_2,
                    {
                        proof {
                            lemma_flat_steps(y_1 as int, y_2 as int, x_1 as int, x_2 as int, g);
                            lemma_flat_bound(y_1 as int, y_2 as int, x_1 as int, x_2 as int, g);
                        }
                        r.push(Pos { x_1, x_2, y_1, y_2 });
                        x_2 = x_2 + 1;
                    }
                    proof {
                        lemma_flat_steps(y_1 as int, y_2 as int, x_1 as int, x_2 as int, g);
                    }
                    x_1 = x_1 + 1;
                }
                proof {
                    lemma_flat_steps(y_1 as int, y_2 as int, x_1 as int, 0, g);
                }
                y_2 = y_2 + 1;
            }
            proof {
                lemma_flat_steps(y_1 as int, y_2 as int, 0, 0, g);
            }
            y_1 = y_1 + 1;
        }
        proof {
            lemma_flat_steps(y_1 as int, 0, 0, 0, g);
        }
        r
    }
}


/// The `i`-th element of `0, 1, 2, ...` once `x` is left out.
pub open spec fn skip(x: int, i: int) -> int {
    if i < x {
        i
    } else {
        i + 1
    }
}

/// Which part of a position goes to place `place` under the `k`-th
/// permutation of four parts, in lexicographic order.
pub open spec fn perm_part(k: int, place: int) -> int {
    let a = k / 6;
    let b = (k % 6) / 2;
    let c = k % 2;
    if place == 0 {
        a
    } else if place == 1 {
        skip(a, b)
    } else if place == 2 {
        skip(a, skip(b, c))
    } else {
        skip(a, skip(b, 1 - c))
    }
}

impl Pos {
    /// Part `i` of the position: `x_1`, `x_2`, `y_1`, `y_2` for `0..4`.
    pub open spec fn part(self, i: int) -> u8 {
        if i == 0 {
            self.x_1
        } else if i == 1 {
            self.x_2
        } else if i == 2 {
            self.y_1
        } else {
            self.y_2
        }
    }

    /// Rearranges the four parts by the `swap`-th of their 24 orders, taken
    /// lexicographically: part `j` of the result is part `perm_part(swap, j)`
    /// of `self`.
    pub fn swap(self, swap: u8) -> (r: Pos)
        requires
            swap < 24,
        ensures
            forall|j: int| 0 <= j < 4 ==> #[trigger] r.part(j) == self.part(perm_part(swap as int, j)),
    {
        let Pos { x_1, x_2, y_1, y_2 } = self;
        match swap {
            0 => Pos { x_1: x_1, x_2: x_2, y_1: y_1, y_2: y_2 },
            1 => Pos { x_1: x_1, x_2: x_2, y_1: y_2, y_2: y_1 },
            2 => Pos { x_1: x_1, x_2: y_1, y_1: x_2, y_2: y_2 },
            3 => Pos { x_1: x_1, x_2: y_1, y_1: y_2, y_2: x_2 },
            4 => Pos { x_1: x_1, x_2: y_2, y_1: x_2, y_2: y_1 },
            5 => Pos { x_1: x_1, x_2: y_2, y_1: y_1, y_2: x_2 },
            6 => Pos { x_1: x_2, x_2: x_1, y_1: y_1, y_2: y_2 },
            7 => Pos { x_1: x_2, x_2: x_1, y_1: y_2, y_2: y_1 },
            8 => Pos { x_1: x_2, x_2: y_1, y_1: x_1, y_2: y_2 },
            9 => Pos { x_1: x_2, x_2: y_1, y_1: y_2, y_2: x_1 },
            10 => Pos { x_1: x_2, x_2: y_2, y_1: x_1, y_2: y_1 },
            11 => Pos { x_1: x_2, x_2: y_2, y_1: y_1, y_2: x_1 },
            12 => Pos { x_1: y_1, x_2: x_1, y_1: x_2, y_2: y_2 },
            13 => Pos { x_1: y_1, x_2: x_1, y_1: y_2, y_2: x_2 },
            14 => Pos { x_1: y_1, x_2: x_2, y_1: x_1, y_2: y_2 },
            15 => Pos { x_1: y_1, x_2: x_2, y_1: y_2, y_2: x_1 },
            16 => Pos { x_1: y_1, x_2: y_2, y_1: x_1, y_2: x_2 },
            17 => Pos { x_1: y_1, x_2: y_2, y_1: x_2, y_2: x_1 },
            18 => Pos { x_1: y_2, x_2: x_1, y_1: x_2, y_2: y_1 },
            19 => Pos { x_1: y_2, x_2: x_1, y_1: y_1, y_2: x_2 },
            20 => Pos { x_1: y_2, x_2: x_2, y_1: x_1, y_2: y_1 },
            21 => Pos { x_1: y_2, x_2: x_2, y_1: y_1, y_2: x_1 },
            22 => Pos { x_1: y_2, x_2: y_1, y_1: x_1, y_2: x_2 },
            23 => Pos { x_1: y_2, x_2: y_1, y_1: x_2, y_2: x_1 },
            _ => Pos { x_1: y_2, x_2: y_1, y_1: x_2, y_2: x_1 },
        }
    }
}

} // verus!
