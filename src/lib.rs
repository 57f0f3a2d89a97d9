//! A solver for the 6x6 Sun/Moon placement puzzle: clue boards, pairwise
//! adjacency rules packed into per-cell masks, a legality check for a single
//! placement, and a depth-first search that fills the board in raster order.
pub mod board;
pub mod constraints;
pub mod rules;
pub mod search;
