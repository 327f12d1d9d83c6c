//! Generation of fully filled Latin-square grids with block constraints
//! (Sudoku-style boards) by constructive backtracking search.
//!
//! A board of order `N` has side length `L = N * N` and `A = L * L` cells,
//! partitioned into rows, columns and `N`-by-`N` blocks. The generator fills
//! the board cell by cell along a chosen traversal path, keeping per-group
//! occupancy bit-sets, and backtracks when a cell has no legal symbol left.

pub mod board;
pub mod grid;
pub mod path;
pub mod gen;
pub mod size;

pub use crate::gen::{GenericGenerator, Generator, State, Exhausted, MAX_ORDER};
pub use crate::grid::Grid;
pub use crate::path::Path;
pub use crate::size::{min_widths, Widths};
