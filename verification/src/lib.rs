//! Randomly generated, fully connected rectangular mazes.
//!
//! A [`grid::Grid`] holds a rectangular array of cells, each with four
//! directional wall flags kept mirrored with its neighbors.  The grid offers a
//! whole-grid reachability check, and the generator in [`maze`] drives it
//! through randomized wall flips that are kept only when every cell stays
//! reachable from the origin, before sealing the border with two openings.

pub mod grid;
pub mod maze;
pub mod model;
