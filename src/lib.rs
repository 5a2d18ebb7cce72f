//! Exact tiling of small binary fields by an ordered list of polyomino tiles,
//! with grids packed into 64-bit masks.
//!
//! - `grid`: the packed grid and its construction from `'0'`/`'1'` rows.
//! - `solver`: tiles, tasks, the `install` bit operation and the search.
//! - `cells`: counting occupied cells.
//! - `dispatch`: putting outcomes back into task order.
//! - `parse`: the task file's line format.
pub mod grid;
pub mod solver;
pub mod cells;
pub mod dispatch;
pub mod parse;
