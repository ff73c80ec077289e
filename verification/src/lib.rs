//! Generation, filtering and expansion of Sudoku puzzles.

pub mod band_lemmas;
pub mod band_masks;
pub mod bit_iter;
pub mod bitmask;
pub mod bits;
pub mod bits_std;
pub mod cell_list;
pub mod dfs_with_progress;
pub mod equivalence;
pub mod expansion;
pub mod fast_solver;
pub mod filter;
pub mod generate;
pub mod generator;
pub mod logic;
pub mod minlex;
pub mod pipeline;
pub mod progress;
pub mod sudoku;
pub mod symmetry;
pub mod template;
