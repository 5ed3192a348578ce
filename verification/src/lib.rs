//! Conway's Game of Life on an unbounded two-dimensional integer lattice.
//!
//! The alive cells of a generation form a sparse set of coordinates; the
//! stepper derives generation N+1 from generation N by the classic B3/S23
//! rule, evaluating the rules only on alive cells and their immediate
//! neighbourhoods, never over a bounded region of the lattice.

pub mod game;
pub mod grid;
pub mod parse;
pub mod rules;

pub use game::Game;
pub use grid::Grid;
pub use grid::Vector;
pub use parse::parse_input;
pub use rules::Rule;
