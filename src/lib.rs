//! A 9x9 Sudoku solver: constraint propagation over per-cell candidate sets
//! (`grid`), depth-first search over copies of the board (`search`), the fixed
//! board geometry (`geometry`) and a text layout of a board (`render`).
use vstd::prelude::*;

pub mod geometry;
pub mod grid;
pub mod render;
pub mod search;

verus! {

} // verus!
