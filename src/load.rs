//! Building a grid from its symbols or bytes, and writing it back as bytes.
use vstd::prelude::*;
use crate::cell::{is_symbol_of, lemma_size_facts, lemma_size_facts_only, lemma_size_of_only, lemma_spec_cells, recognized, supported, Cell, SYMBOLS, WILDCARD};
use crate::defer::Defer;
use crate::grid::{consistent, extends, lemma_same_log, shrinks, Sudoku};
use crate::pos::{cell_count, col_of, correlated, lemma_block, lemma_block_of, lemma_count_bounds, lemma_rc_of, row_of};
use vstd::arithmetic::div_mod::{lemma_fundamental_div_mod, lemma_fundamental_div_mod_converse};
use crate::propagate::{fits, is_solution};

verus! {

/// Why a grid could not be loaded.
#[derive(Debug, Clone, Copy, PartialEq, Eq, Structural)]
pub enum LoadingError {
    /// A symbol that stands for no value of this block size.
    InvalidCharacter { char: char },
    /// The number of symbols is not the number of cells.
    InvalidSize { received: usize },
    /// The given `value` at column `pos_x` and row `pos_y` conflicts with the
    /// givens before it.
    Conflicting { pos_x: usize, pos_y: usize, value: u32 },
}

/// The byte that stands for an unknown cell.
pub const UNKNOWN: u8 = 255;

/// Cell `i` of `cells` holds the given of `symbols[i]`, if it is one.
pub open spec fn holds_givens<const N: usize>(cells: Seq<Cell<N>>, symbols: Seq<char>, upto: int) -> bool {
    forall|i: int, v: int| 0 <= i < upto && #[trigger] is_symbol_of(symbols[i], v, N as int * N as int) ==> cells[i].is_only(v)
}

/// The bytes say which cells hold which value: `b < N*N` is a given.
pub open spec fn holds_bytes<const N: usize>(cells: Seq<Cell<N>>, bytes: Seq<u8>, upto: int) -> bool {
    forall|i: int| 0 <= i < upto && #[trigger] bytes[i] < N as int * N as int ==> cells[i].is_only(bytes[i] as int)
}

/// `sol` gives each of the first `upto` cells the value its symbol names.
pub open spec fn agrees(sol: Seq<int>, symbols: Seq<char>, upto: int, r: int) -> bool {
    forall|k: int, v: int| 0 <= k < upto && #[trigger] is_symbol_of(symbols[k], v, r) ==> sol[k] == v
}

/// `sol` gives each of the first `upto` cells the value its byte names.
pub open spec fn agrees_bytes(sol: Seq<int>, bytes: Seq<u8>, upto: int, r: int) -> bool {
    forall|k: int| 0 <= k < upto && #[trigger] bytes[k] < r ==> sol[k] == bytes[k]
}

/// Every cell of `cells` is full.
pub open spec fn all_full<const N: usize>(cells: Seq<Cell<N>>) -> bool {
    forall|i: int| 0 <= i < cells.len() ==> #[trigger] cells[i] == Cell::<N>::full_spec()
}

/// One more given placed on top of givens placed before keeps them placed.
proof fn lemma_givens_kept<const N: usize>(before: Seq<Cell<N>>, after: Seq<Cell<N>>, symbols: Seq<char>, upto: int)
    requires
        holds_givens(before, symbols, upto),
        before.len() == after.len(),
        upto <= before.len(),
        forall|i: int, w: int| 0 <= i < after.len() && #[trigger] after[i].has(w) ==> before[i].has(w),
        forall|i: int| 0 <= i < after.len() ==> (#[trigger] after[i]).size() >= 1,
    ensures
        holds_givens(after, symbols, upto),
{
    assert forall|i: int, v: int| 0 <= i < upto && #[trigger] is_symbol_of(symbols[i], v, N as int * N as int) implies after[i].is_only(v) by {
        lemma_size_facts(after[i]);
        assert forall|w: int| #[trigger] after[i].has(w) <==> w == v by {
            if after[i].has(w) {
                assert(before[i].has(w));
            }
            if w == v && !after[i].has(w) {
                assert forall|x: int| !after[i].has(x) by {
                    if after[i].has(x) {
                        assert(before[i].has(x));
                    }
                }
            }
        }
    }
}

/// Every solution fits the grid with no removal.
proof fn lemma_full_fits<const N: usize>(g: &Sudoku<N>)
    requires
        g.wf(),
        all_full(g.cells()),
    ensures
        forall|sol: Seq<int>| is_solution::<N>(sol) ==> #[trigger] fits(sol, g.cells()),
        forall|sol: Seq<int>| is_solution::<N>(sol) ==> (#[trigger] fits(sol, g.cells()) <==> agrees(sol, Seq::<char>::empty(), 0, N as int * N as int)),
{
    lemma_count_bounds(N as int);
    lemma_spec_cells::<N>(0);
    assert forall|sol: Seq<int>| is_solution::<N>(sol) implies #[trigger] fits(sol, g.cells()) by {
        assert forall|i: int| 0 <= i < g.cells().len() implies #[trigger] g.cells()[i].has(sol[i]) by {
            assert(g.cells()[i] == Cell::<N>::full_spec());
        }
    }
}

impl<const N: usize> Sudoku<N> {
    /// Loads a grid from one symbol per cell, in flat order: `'_'` leaves a
    /// cell open, a value's symbol places that value and propagates it.
    #[verifier::rlimit(60)]
    #[verifier::spinoff_prover]
    pub fn load(symbols: &Vec<char>) -> (r: Result<Sudoku<N>, LoadingError>)
        requires
            supported(N as int),
        ensures
            symbols@.len() != cell_count(N as int) <==> r == Err::<Sudoku<N>, LoadingError>(LoadingError::InvalidSize { received: symbols@.len() as usize }),
            r matches Ok(g) ==> {
                &&& g.wf()
                &&& consistent(g.cells())
                &&& forall|i: int| 0 <= i < symbols@.len() ==> #[trigger] recognized(symbols@[i], N as int * N as int)
                &&& holds_givens(g.cells(), symbols@, symbols@.len() as int)
            },
            r matches Err(LoadingError::InvalidCharacter { char: c }) ==> !recognized(c, N as int * N as int) && symbols@.contains(c),
            r matches Err(LoadingError::Conflicting { pos_x, pos_y, value }) ==> pos_x < N * N && pos_y < N * N
                && is_symbol_of(symbols@[pos_y * (N * N) + pos_x], value as int, N as int * N as int)
                && forall|sol: Seq<int>| is_solution::<N>(sol) ==> !#[trigger] agrees(sol, symbols@, pos_y * (N * N) + pos_x + 1, N as int * N as int),
            r matches Ok(g) ==> forall|sol: Seq<int>| is_solution::<N>(sol) ==> (#[trigger] fits(sol, g.cells())
                <==> agrees(sol, symbols@, symbols@.len() as int, N as int * N as int)),
            symbols@.len() == cell_count(N as int) && (forall|i: int| 0 <= i < symbols@.len() ==> #[trigger] symbols@[i] == WILDCARD)
                ==> (r matches Ok(g) && all_full(g.cells())),
            forall|a: int, b: int, v: int| #[trigger] two_in_row(symbols@, a, b, v, N as int) ==> r
                == Err::<Sudoku<N>, LoadingError>(LoadingError::Conflicting {
                pos_x: (b % (N as int * N as int)) as usize,
                pos_y: (b / (N as int * N as int)) as usize,
                value: v as u32,
            }),
    {
        proof {
            lemma_count_bounds(N as int);
        }
        let count = N * N * N * N;
        let range = N * N;
        if symbols.len() != count {
            proof {
                lemma_dup(symbols@, N as int);
            }
            return Err(LoadingError::InvalidSize { received: symbols.len() });
        }
        let mut grid = Sudoku::<N>::new();
        let mut defer = Defer::<N>::new();
        proof {
            lemma_full_fits(&grid);
        }
        let ghost dup = has_dup(symbols@, N as int);
        let ghost (ta, tb, tv) = dup_of(symbols@, N as int);
        proof {
            lemma_dup(symbols@, N as int);
        }
        let mut i: usize = 0;
        while i < count
            invariant
                supported(N as int),
                count == cell_count(N as int),
                range == N as int * N as int,
                symbols@.len() == count,
                i <= count,
                grid.wf(),
                defer.wf(),
                consistent(grid.cells()),
                forall|k: int| 0 <= k < i ==> #[trigger] recognized(symbols@[k], N as int * N as int),
                holds_givens(grid.cells(), symbols@, i as int),
                (forall|k: int| 0 <= k < i ==> #[trigger] symbols@[k] == WILDCARD) ==> all_full(grid.cells()),
                forall|sol: Seq<int>| is_solution::<N>(sol) ==> (#[trigger] fits(sol, grid.cells())
                    <==> agrees(sol, symbols@, i as int, N as int * N as int)),
                dup == has_dup(symbols@, N as int),
                (ta, tb, tv) == dup_of(symbols@, N as int),
                dup ==> two_in_row(symbols@, ta, tb, tv, N as int) && i <= tb,
            decreases count - i,
        {
            let c = symbols[i];
            match Cell::<N>::from_char(c) {
                None => {
                    proof {
                        assert(symbols@[i as int] == c);
                        if recognized(c, N as int * N as int) {
                            let v = choose|v: int| #[trigger] is_symbol_of(c, v, N as int * N as int);
                            assert(SYMBOLS@[v] != c);
                        }
                        if dup {
                            if i as int != ta && i as int != tb {
                                assert(symbols@[i as int] == WILDCARD);
                            }
                            assert(recognized(c, N as int * N as int));
                        }
                    }
                    proof {
                        lemma_dup(symbols@, N as int);
                    }
                    return Err(LoadingError::InvalidCharacter { char: c });
                },
                Some(cell) => {
                    let ghost before = grid;
                    proof {
                        if c != WILDCARD {
                            let v = choose|v: int| is_symbol_of(c, v, N as int * N as int) && cell == #[trigger] Cell::<N>::only_spec(v);
                            lemma_spec_cells::<N>(v);
                        } else {
                            lemma_spec_cells::<N>(0);
                        }
                    }
                    let mask = cell.complement();
                    match grid.remove_all_at(mask, i, &mut defer) {
                        None => {
                            let value = cell.get_value();
                            proof {
                                if c == WILDCARD {
                                    assert(cell == Cell::<N>::full_spec());
                                }
                                let v = choose|v: int| is_symbol_of(c, v, N as int * N as int) && cell == #[trigger] Cell::<N>::only_spec(v);
                                lemma_size_facts_only(cell);
                                assert(cell.has(v));
                            }
                            let value = value.unwrap();
                            proof {
                                let v = choose|v: int| is_symbol_of(c, v, N as int * N as int) && cell == #[trigger] Cell::<N>::only_spec(v);
                                assert(cell.is_only(value as int));
                                assert(cell.has(v));
                                assert(value == v);
                                crate::pos::lemma_rc_of(i as int, N as int);
                                assert forall|sol: Seq<int>| is_solution::<N>(sol) implies !#[trigger] agrees(sol, symbols@, i + 1, N as int * N as int) by {
                                    if agrees(sol, symbols@, i + 1, N as int * N as int) {
                                        assert(sol[i as int] == v);
                                        assert(fits(sol, before.cells()));
                                        assert(mask.has(sol[i as int]));
                                    }
                                }
                                if dup {
                                    if (i as int) < tb {
                                        let sol = lemma_two_in_row_prefix::<N>(symbols@, ta, tb, tv, i as int);
                                        assert(!agrees(sol, symbols@, i + 1, N as int * N as int));
                                    }
                                    lemma_symbol_unique(symbols@[ta], tv, v, N as int * N as int);
                                }
                                lemma_dup(symbols@, N as int);
                            }
                            return Err(LoadingError::Conflicting { pos_x: i % range, pos_y: i / range, value });
                        },
                        Some(n) => {
                            proof {
                                if dup && i as int == tb {
                                    let vv = choose|v: int| is_symbol_of(c, v, N as int * N as int) && cell == #[trigger] Cell::<N>::only_spec(v);
                                    lemma_symbol_unique(symbols@[ta], tv, vv, N as int * N as int);
                                    assert(before.cells()[ta].is_only(tv));
                                    lemma_second_conflicts(&before, &grid, ta, tb, tv, mask);
                                    assert(false);
                                }
                                lemma_givens_kept(before.cells(), grid.cells(), symbols@, i as int);
                                if c != WILDCARD {
                                    let v = choose|v: int| is_symbol_of(c, v, N as int * N as int) && cell == #[trigger] Cell::<N>::only_spec(v);
                                    let g = grid.cells()[i as int];
                                    lemma_size_facts(g);
                                    assert forall|w: int| #[trigger] g.has(w) <==> w == v by {
                                        if g.has(w) && w != v {
                                            assert(g.valid());
                                            assert(mask.has(w));
                                        }
                                        if w == v && !g.has(w) {
                                            assert forall|x: int| !g.has(x) by {
                                                if g.has(x) {
                                                    assert(g.valid());
                                                    assert(mask.has(x));
                                                }
                                            }
                                        }
                                    }
                                    assert(recognized(c, N as int * N as int));
                                } else {
                                    assert(recognized(c, N as int * N as int));
                                    if forall|k: int| 0 <= k < i + 1 ==> #[trigger] symbols@[k] == WILDCARD {
                                        assert(symbols@[i as int] == WILDCARD);
                                        assert(cell == Cell::<N>::full_spec());
                                        assert forall|w: int| mask.has(w) implies !before.cells()[i as int].has(w) by {
                                        }
                                        assert(n == 0);
                                        assert(grid.log() =~= grid.log().take(before.log().len() as int));
                                        lemma_same_log(&grid, &before);
                                    }
                                }
                                assert forall|sol: Seq<int>| is_solution::<N>(sol) implies (#[trigger] fits(sol, grid.cells())
                                    <==> agrees(sol, symbols@, i + 1, N as int * N as int)) by {
                                    assert(0 <= sol[i as int] < N as int * N as int);
                                    if c != WILDCARD {
                                        let v = choose|v: int| is_symbol_of(c, v, N as int * N as int) && cell == #[trigger] Cell::<N>::only_spec(v);
                                        assert(mask.has(sol[i as int]) <==> sol[i as int] != v);
                                        if agrees(sol, symbols@, i + 1, N as int * N as int) {
                                            assert(is_symbol_of(symbols@[i as int], v, N as int * N as int));
                                        }
                                        if fits(sol, grid.cells()) {
                                            assert forall|k: int, w: int| 0 <= k < i + 1 && #[trigger] is_symbol_of(symbols@[k], w, N as int * N as int) implies sol[k] == w by {
                                                if k == i {
                                                    assert(symbols@[k] == c);
                                                }
                                            }
                                        }
                                    } else {
                                        assert(!mask.has(sol[i as int]));
                                        if agrees(sol, symbols@, i as int, N as int * N as int) {
                                            assert forall|k: int, w: int| 0 <= k < i + 1 && #[trigger] is_symbol_of(symbols@[k], w, N as int * N as int) implies sol[k] == w by {
                                                if k == i {
                                                    assert(symbols@[k] == WILDCARD);
                                                }
                                            }
                                        }
                                    }
                                }
                                assert forall|k: int, v: int| 0 <= k < i + 1 && #[trigger] is_symbol_of(symbols@[k], v, N as int * N as int) implies grid.cells()[k].is_only(v) by {
                                    if k == i {
                                        let v2 = choose|v2: int| is_symbol_of(c, v2, N as int * N as int) && cell == #[trigger] Cell::<N>::only_spec(v2);
                                        assert(c != WILDCARD);
                                        assert(v2 == v);
                                    }
                                }
                            }
                        },
                    }
                },
            }
            i = i + 1;
        }
        proof {
            assert(!dup);
            lemma_dup(symbols@, N as int);
        }
        Ok(grid)
    }
}

impl<const N: usize> Sudoku<N> {
    /// Writes one byte per cell into `dst`, in flat order: the value of a
    /// determined cell, [`UNKNOWN`] for any other.
    pub fn encode_grid(&self, dst: &mut Vec<u8>)
        requires
            self.wf(),
            old(dst)@.len() >= cell_count(N as int),
        ensures
            final(dst)@.len() == old(dst)@.len(),
            forall|i: int| 0 <= i < cell_count(N as int) && self.cells()[i].size() == 1 ==> self.cells()[i].is_only(#[trigger] final(dst)@[i] as int),
            forall|i: int| 0 <= i < cell_count(N as int) && self.cells()[i].size() != 1 ==> #[trigger] final(dst)@[i] == UNKNOWN,
            forall|i: int| cell_count(N as int) <= i < final(dst)@.len() ==> #[trigger] final(dst)@[i] == old(dst)@[i],
    {
        proof {
            lemma_count_bounds(N as int);
        }
        let count = N * N * N * N;
        let ghost d0 = dst@;
        let mut i: usize = 0;
        while i < count
            invariant
                self.wf(),
                count == cell_count(N as int),
                i <= count,
                d0 == old(dst)@,
                d0.len() >= count,
                dst@.len() == d0.len(),
                forall|k: int| 0 <= k < i && self.cells()[k].size() == 1 ==> self.cells()[k].is_only(#[trigger] dst@[k] as int),
                forall|k: int| 0 <= k < i && self.cells()[k].size() != 1 ==> #[trigger] dst@[k] == UNKNOWN,
                forall|k: int| i <= k < dst@.len() ==> #[trigger] dst@[k] == d0[k],
            decreases count - i,
        {
            let byte = match self.cell(i).get_value() {
                Some(v) => v as u8,
                None => UNKNOWN,
            };
            dst.set(i, byte);
            i = i + 1;
        }
    }

    /// The grid that `src` encodes, one byte per cell in flat order: a value
    /// below `N*N` is a given, [`UNKNOWN`] an open cell. `None` when `src` is
    /// too short, holds any other byte, or its givens contradict each other.
    pub fn decode_grid(src: &Vec<u8>) -> (r: Option<Sudoku<N>>)
        requires
            supported(N as int),
        ensures
            r matches Some(g) ==> {
                &&& g.wf()
                &&& consistent(g.cells())
                &&& src@.len() >= cell_count(N as int)
                &&& forall|i: int| 0 <= i < cell_count(N as int) ==> #[trigger] src@[i] < N as int * N as int || src@[i] == UNKNOWN
                &&& holds_bytes(g.cells(), src@, cell_count(N as int))
            },
            src@.len() < cell_count(N as int) ==> r is None,
            r matches Some(g) ==> forall|sol: Seq<int>| is_solution::<N>(sol) ==> (#[trigger] fits(sol, g.cells())
                <==> agrees_bytes(sol, src@, cell_count(N as int), N as int * N as int)),
            r is None && src@.len() >= cell_count(N as int) && (forall|i: int| 0 <= i < cell_count(N as int) ==> #[trigger] src@[i] < N as int * N as int || src@[i] == UNKNOWN)
                ==> forall|sol: Seq<int>| is_solution::<N>(sol) ==> !#[trigger] agrees_bytes(sol, src@, cell_count(N as int), N as int * N as int),
            src@.len() >= cell_count(N as int) && (forall|i: int| 0 <= i < cell_count(N as int) ==> #[trigger] src@[i] == UNKNOWN)
                ==> (r matches Some(g) && all_full(g.cells())),
    {
        proof {
            lemma_count_bounds(N as int);
        }
        let count = N * N * N * N;
        let range = N * N;
        if src.len() < count {
            return None;
        }
        let mut grid = Sudoku::<N>::new();
        let mut defer = Defer::<N>::new();
        proof {
            lemma_full_fits(&grid);
        }
        let mut i: usize = 0;
        while i < count
            invariant
                supported(N as int),
                count == cell_count(N as int),
                range == N as int * N as int,
                range <= 64,
                src@.len() >= count,
                i <= count,
                grid.wf(),
                defer.wf(),
                consistent(grid.cells()),
                forall|k: int| 0 <= k < i ==> #[trigger] src@[k] < range || src@[k] == UNKNOWN,
                holds_bytes(grid.cells(), src@, i as int),
                (forall|k: int| 0 <= k < i ==> #[trigger] src@[k] == UNKNOWN) ==> all_full(grid.cells()),
                forall|sol: Seq<int>| is_solution::<N>(sol) ==> (#[trigger] fits(sol, grid.cells())
                    <==> agrees_bytes(sol, src@, i as int, N as int * N as int)),
            decreases count - i,
        {
            let b = src[i];
            if b == UNKNOWN {
                proof {
                    assert forall|sol: Seq<int>| is_solution::<N>(sol) implies (#[trigger] fits(sol, grid.cells())
                        <==> agrees_bytes(sol, src@, i + 1, N as int * N as int)) by {
                        if agrees_bytes(sol, src@, i as int, N as int * N as int) {
                            assert forall|k: int| 0 <= k < i + 1 && #[trigger] src@[k] < N as int * N as int implies sol[k] == src@[k] by {
                            }
                        }
                    }
                }
            }
            if b != UNKNOWN {
                if (b as usize) >= range {
                    return None;
                }
                let ghost before = grid;
                let cell = Cell::<N>::from_value(b as u32);
                let mask = cell.complement();
                proof {
                    lemma_spec_cells::<N>(b as int);
                }
                match grid.remove_all_at(mask, i, &mut defer) {
                    None => {
                        proof {
                            assert forall|sol: Seq<int>| is_solution::<N>(sol) implies !#[trigger] agrees_bytes(sol, src@, cell_count(N as int), N as int * N as int) by {
                                if agrees_bytes(sol, src@, cell_count(N as int), N as int * N as int) {
                                    assert(src@[i as int] < N as int * N as int);
                                    assert(sol[i as int] == b);
                                    assert(agrees_bytes(sol, src@, i as int, N as int * N as int));
                                    assert(fits(sol, before.cells()));
                                    assert(mask.has(sol[i as int]));
                                }
                            }
                        }
                        return None;
                    },
                    Some(_) => {
                        proof {
                            assert forall|sol: Seq<int>| is_solution::<N>(sol) implies (#[trigger] fits(sol, grid.cells())
                                <==> agrees_bytes(sol, src@, i + 1, N as int * N as int)) by {
                                assert(0 <= sol[i as int] < N as int * N as int);
                                assert(mask.has(sol[i as int]) <==> sol[i as int] != b);
                                if agrees_bytes(sol, src@, i + 1, N as int * N as int) {
                                    assert(src@[i as int] < N as int * N as int);
                                }
                            }
                            assert forall|k: int| 0 <= k < i + 1 && #[trigger] src@[k] < N as int * N as int implies grid.cells()[k].is_only(src@[k] as int) by {
                                let g = grid.cells()[k];
                                lemma_size_facts(g);
                                let v = src@[k] as int;
                                if k < i {
                                    assert(before.cells()[k].is_only(v));
                                }
                                assert forall|w: int| #[trigger] g.has(w) <==> w == v by {
                                    if g.has(w) {
                                        assert(before.cells()[k].has(w));
                                        if k == i && w != v {
                                            assert(g.valid());
                                            assert(mask.has(w));
                                        }
                                    }
                                    if w == v && !g.has(w) {
                                        assert forall|x: int| !g.has(x) by {
                                            if g.has(x) {
                                                assert(before.cells()[k].has(x));
                                                if k == i {
                                                    assert(g.valid());
                                                    assert(mask.has(x));
                                                }
                                            }
                                        }
                                    }
                                }
                            }
                        }
                    },
                }
            }
            i = i + 1;
        }
        Some(grid)
    }
}

/// The row key of the pattern grid: rows of one block shifted by `n`, blocks by one.
pub open spec fn row_key(r: int, n: int) -> int {
    n * (r % n) + r / n
}

/// A complete grid: the cell at row `r` and column `c` holds
/// `(row_key(r) + c + shift) % (n * n)`.
pub open spec fn pattern(n: int, shift: int) -> Seq<int> {
    Seq::new((n * n * n * n) as nat, |i: int| (row_key(row_of(i, n), n) + col_of(i, n) + shift) % (n * n))
}

/// Two numbers closer than `d` that differ leave different remainders.
proof fn lemma_mod_apart(x: int, y: int, d: int)
    requires
        d > 0,
        0 <= x,
        0 <= y,
        x != y,
        -d < x - y < d,
    ensures
        x % d != y % d,
{
    lemma_fundamental_div_mod(x, d);
    lemma_fundamental_div_mod(y, d);
    let (qx, qy) = (x / d, y / d);
    if x % d == y % d {
        assert(x - y == d * (qx - qy)) by (nonlinear_arith)
            requires
                x == d * qx + x % d,
                y == d * qy + y % d,
                x % d == y % d,
        ;
        assert(false) by (nonlinear_arith)
            requires
                x - y == d * (qx - qy),
                -d < x - y < d,
                x != y,
                d > 0,
        ;
    }
}

/// Row keys of distinct rows differ, and lie in `0..n*n`.
proof fn lemma_row_key(r1: int, r2: int, n: int)
    requires
        1 <= n,
        0 <= r1 < n * n,
        0 <= r2 < n * n,
    ensures
        0 <= row_key(r1, n) < n * n,
        r1 != r2 ==> row_key(r1, n) != row_key(r2, n),
{
    lemma_block_of(r1, n);
    lemma_block_of(r2, n);
    lemma_block(r1 % n, r1 / n, n);
    lemma_block(r2 % n, r2 / n, n);
    if r1 != r2 && row_key(r1, n) == row_key(r2, n) {
        assert((r1 % n) * n + r1 / n == n * (r1 % n) + r1 / n) by (nonlinear_arith);
        assert((r2 % n) * n + r2 / n == n * (r2 % n) + r2 / n) by (nonlinear_arith);
        lemma_fundamental_div_mod_converse(row_key(r1, n), n, r1 % n, r1 / n);
        lemma_fundamental_div_mod_converse(row_key(r1, n), n, r2 % n, r2 / n);
    }
    assert((r1 % n) * n + r1 / n == n * (r1 % n) + r1 / n) by (nonlinear_arith);
}

/// Every shifted pattern grid is a solution.
pub proof fn lemma_pattern_solution<const N: usize>(shift: int)
    requires
        1 <= N <= 8,
        0 <= shift,
    ensures
        is_solution::<N>(pattern(N as int, shift)),
{
    let n = N as int;
    let sol = pattern(n, shift);
    lemma_count_bounds(n);
    assert(sol.len() == cell_count(n));
    assert forall|i: int| 0 <= i < sol.len() implies 0 <= #[trigger] sol[i] < n * n by {
        lemma_rc_of(i, n);
        lemma_row_key(row_of(i, n), row_of(i, n), n);
    }
    assert forall|i: int, j: int| 0 <= i < sol.len() && 0 <= j < sol.len() && correlated(i, j, n) implies #[trigger] sol[i] != #[trigger] sol[j] by {
        lemma_rc_of(i, n);
        lemma_rc_of(j, n);
        let (r1, c1, r2, c2) = (row_of(i, n), col_of(i, n), row_of(j, n), col_of(j, n));
        lemma_row_key(r1, r2, n);
        lemma_row_key(r2, r1, n);
        let x = row_key(r1, n) + c1 + shift;
        let y = row_key(r2, n) + c2 + shift;
        if r1 == r2 {
            assert(c1 != c2);
        } else if c1 == c2 {
        } else {
            lemma_block_of(r1, n);
            lemma_block_of(r2, n);
            lemma_block_of(c1, n);
            lemma_block_of(c2, n);
            assert(r1 / n == r2 / n && c1 / n == c2 / n);
            let d = r1 % n - r2 % n;
            let e = c1 % n - c2 % n;
            assert(d != 0) by {
                if d == 0 {
                    assert(r1 == (r1 / n) * n + r1 % n);
                    assert(r2 == (r2 / n) * n + r2 % n);
                }
            }
            assert(c1 - c2 == e) by {
                assert(c1 == (c1 / n) * n + c1 % n);
                assert(c2 == (c2 / n) * n + c2 % n);
            }
            assert(x - y == n * d + e) by (nonlinear_arith)
                requires
                    x == n * (r1 % n) + r1 / n + c1 + shift,
                    y == n * (r2 % n) + r2 / n + c2 + shift,
                    r1 / n == r2 / n,
                    d == r1 % n - r2 % n,
                    c1 - c2 == e,
            ;
            assert(n * d + e != 0 && -(n * n) < n * d + e < n * n) by (nonlinear_arith)
                requires
                    d != 0,
                    -n < d < n,
                    -n < e < n,
                    n >= 1,
            ;
        }
        lemma_mod_apart(x, y, n * n);
    }
}

/// A pattern grid that gives cell `i` the value `v`.
pub proof fn lemma_pattern_places<const N: usize>(i: int, v: int) -> (shift: int)
    requires
        1 <= N <= 8,
        0 <= i < cell_count(N as int),
        0 <= v < N as int * N as int,
    ensures
        0 <= shift,
        pattern(N as int, shift)[i] == v,
{
    let n = N as int;
    let nn = n * n;
    lemma_count_bounds(n);
    lemma_rc_of(i, n);
    lemma_row_key(row_of(i, n), row_of(i, n), n);
    let base = row_key(row_of(i, n), n) + col_of(i, n);
    lemma_fundamental_div_mod(base, nn);
    let shift = nn - base % nn + v;
    assert(base + shift == nn * (base / nn + 1) + v) by (nonlinear_arith)
        requires
            base == nn * (base / nn) + base % nn,
            shift == nn - base % nn + v,
    ;
    lemma_fundamental_div_mod_converse(base + shift, nn, base / nn + 1, v);
    assert((base / nn + 1) * nn + v == nn * (base / nn + 1) + v) by (nonlinear_arith);
    shift
}

/// `symbols` gives every cell but `a` and `b` the wildcard, and `a` and `b`,
/// in one row with `a` first, both the symbol of `v`.
pub open spec fn two_in_row(symbols: Seq<char>, a: int, b: int, v: int, n: int) -> bool {
    &&& symbols.len() == cell_count(n)
    &&& 0 <= a < b < symbols.len()
    &&& row_of(a, n) == row_of(b, n)
    &&& is_symbol_of(symbols[a], v, n * n)
    &&& symbols[b] == symbols[a]
    &&& forall|k: int| 0 <= k < symbols.len() && k != a && k != b ==> #[trigger] symbols[k] == WILDCARD
}

/// Some pair of cells fits [`two_in_row`].
#[verifier::opaque]
pub open spec fn has_dup(symbols: Seq<char>, n: int) -> bool {
    exists|a: int, b: int, v: int| #[trigger] two_in_row(symbols, a, b, v, n)
}

/// The pair of cells that fits [`two_in_row`], if any.
pub open spec fn dup_of(symbols: Seq<char>, n: int) -> (int, int, int) {
    choose|a: int, b: int, v: int| #[trigger] two_in_row(symbols, a, b, v, n)
}

proof fn lemma_dup(symbols: Seq<char>, n: int)
    ensures
        has_dup(symbols, n) ==> two_in_row(symbols, dup_of(symbols, n).0, dup_of(symbols, n).1, dup_of(symbols, n).2, n),
        forall|a: int, b: int, v: int| #[trigger] two_in_row(symbols, a, b, v, n) ==> has_dup(symbols, n) && a == dup_of(symbols, n).0
            && b == dup_of(symbols, n).1 && v == dup_of(symbols, n).2,
{
    reveal(has_dup);
    assert forall|a: int, b: int, v: int| #[trigger] two_in_row(symbols, a, b, v, n) implies has_dup(symbols, n) && a == dup_of(symbols, n).0
        && b == dup_of(symbols, n).1 && v == dup_of(symbols, n).2 by {
        let t = dup_of(symbols, n);
        lemma_two_in_row_unique(symbols, a, b, v, t.0, t.1, t.2, n);
    }
}

/// The wildcard is no value's symbol, and a symbol names one value.
proof fn lemma_symbol_unique(c: char, v: int, w: int, r: int)
    requires
        is_symbol_of(c, v, r),
    ensures
        c != WILDCARD,
        is_symbol_of(c, w, r) ==> v == w,
{
    assert(SYMBOLS@[v] != WILDCARD);
    if is_symbol_of(c, w, r) && v != w {
        if v < w {
            assert(SYMBOLS@[v] != c);
        } else {
            assert(SYMBOLS@[w] != c);
        }
    }
}

/// At most one pair of cells fits [`two_in_row`].
proof fn lemma_two_in_row_unique(symbols: Seq<char>, a: int, b: int, v: int, a2: int, b2: int, v2: int, n: int)
    requires
        two_in_row(symbols, a, b, v, n),
        two_in_row(symbols, a2, b2, v2, n),
    ensures
        a == a2 && b == b2 && v == v2,
{
    lemma_symbol_unique(symbols[a], v, v2, n * n);
    lemma_symbol_unique(symbols[a2], v2, v, n * n);
    if a2 != a && a2 != b {
        assert(symbols[a2] == WILDCARD);
    }
    if b2 != a && b2 != b {
        assert(symbols[b2] == WILDCARD);
    }
    if a != a2 && a != b2 {
        assert(symbols[a] == WILDCARD);
    }
}

/// Before the second of the two, a solution agrees with every given so far.
proof fn lemma_two_in_row_prefix<const N: usize>(symbols: Seq<char>, a: int, b: int, v: int, i: int) -> (sol: Seq<int>)
    requires
        1 <= N <= 8,
        two_in_row(symbols, a, b, v, N as int),
        0 <= i < b,
    ensures
        is_solution::<N>(sol),
        agrees(sol, symbols, i + 1, N as int * N as int),
{
    let shift = lemma_pattern_places::<N>(a, v);
    let sol = pattern(N as int, shift);
    lemma_pattern_solution::<N>(shift);
    assert forall|k: int, w: int| 0 <= k < i + 1 && #[trigger] is_symbol_of(symbols[k], w, N as int * N as int) implies sol[k] == w by {
        if k != a {
            assert(symbols[k] == WILDCARD);
            lemma_symbol_unique(symbols[k], w, w, N as int * N as int);
        } else {
            lemma_symbol_unique(symbols[a], v, w, N as int * N as int);
        }
    }
    sol
}

/// A given of `v` at `tb` after one at `ta` in its row can only be placed
/// in a grid that is not consistent.
proof fn lemma_second_conflicts<const N: usize>(before: &Sudoku<N>, after: &Sudoku<N>, ta: int, tb: int, tv: int, mask: Cell<N>)
    requires
        before.wf(),
        after.wf(),
        0 <= ta < cell_count(N as int),
        0 <= tb < cell_count(N as int),
        correlated(ta, tb, N as int),
        before.cells()[ta].is_only(tv),
        shrinks(before, after),
        forall|w: int| #[trigger] mask.has(w) ==> !after.cells()[tb].has(w),
        forall|w: int| 0 <= w < N as int * N as int && w != tv ==> #[trigger] mask.has(w),
    ensures
        !consistent(before.cells()),
{
    lemma_size_of_only(before.cells()[ta], tv);
    assert(before.cells()[ta].has(tv));
    if !before.cells()[tb].has(tv) {
    let g = after.cells()[tb];
    assert forall|w: int| !g.has(w) by {
        if g.has(w) {
            assert(g.valid());
            assert(before.cells()[tb].has(w));
            assert(mask.has(w));
        }
    }
    lemma_size_facts(g);
    }
}

} // verus!
