//! Step-wise generation of perfect mazes on a rectangular grid.
//!
//! A [`grid::Grid`] starts with every wall standing. After
//! [`grid::Grid::setup`], each call of [`grid::Grid::update`] makes one step
//! of a randomized depth-first search: the generator moves to a cell it has
//! not visited, taking down the wall in between, or, where it is boxed in,
//! goes back one cell. When it is back at the start with nowhere to go, the
//! passages form a perfect maze: a spanning tree of the grid.
//! [`grid::Grid::draw`] says what to paint after each step; painting itself
//! is left to the caller.
//!
//! The contracts speak of [`maze::Maze`], the state of a grid as a
//! mathematical value. [`theorems`] states what generation guarantees;
//! [`forward`], [`backward`], [`steps`], [`passages`], [`geometry`] and
//! [`counting`] hold the proofs that lead there.

pub mod backward;
pub mod cell;
pub mod counting;
pub mod forward;
pub mod geometry;
pub mod grid;
pub mod maze;
pub mod neighbour;
pub mod passages;
mod random;
pub mod steps;
pub mod theorems;
pub mod utils;
