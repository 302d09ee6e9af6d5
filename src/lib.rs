//! A rotational pipe puzzle: the cell model, the board, and a generator
//! that lays out a fully connected network of pipes.

pub mod cell;
pub mod random;
pub mod grid;
pub mod generator;
pub mod power;

pub use cell::{Cell, CellOrientation, CellVersion, GameError};
pub use grid::Game;
