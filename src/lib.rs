//! Latin-square puzzle engine: candidate bitsets, cascading constraint
//! propagation with an undo log, and a resumable backtracking search.
use vstd::prelude::*;

pub mod bits;
pub mod cell;
pub mod defer;
pub mod grid;
pub mod load;
pub mod pos;
pub mod propagate;
pub mod random;
pub mod search;

pub use cell::{Cell, SYMBOLS, WILDCARD};
pub use defer::Defer;
pub use grid::Sudoku;
pub use load::{LoadingError, UNKNOWN};
pub use pos::Pos;
pub use random::ChooseAtRandom;
pub use search::{generate, Choose, ChooseFirst, Search};

verus! {

} // verus!
