//! Wave function collapse on a rectangular grid: each cell narrows a set of
//! candidate tile values under pairwise adjacency rules until every cell holds
//! one value, with backtracking when a cell is left with none.

pub mod board;
pub mod cell;
pub mod colour;
pub mod layout;
pub mod random;
pub mod rules;
