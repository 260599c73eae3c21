//! A 9×9 Sudoku solver: candidate masks, forced-single propagation and
//! depth-first search over an explicit stack of snapshots.
//!
//! - [`grid`] holds the grid and its rows, columns and boxes; [`text`] reads
//!   a grid from text and shows one; [`cells`] is the geometry they share.
//! - [`solver`] is the search as it runs, step by step and as
//!   `Sudoku::solve`; [`masks`] are its candidate sets, and [`fx`] the hash
//!   collections it keeps them in.
//! - [`model`] says what the search computes; [`measure`] why it ends;
//!   [`confluence`] why propagation does not depend on the order of its
//!   steps; [`sound`], [`complete`] and [`laws`] what its result is worth.

pub mod cells;
pub mod complete;
pub mod confluence;
pub mod fx;
pub mod grid;
pub mod items;
pub mod laws;
pub mod masks;
pub mod measure;
pub mod model;
pub mod solver;
pub mod sound;
pub mod text;
