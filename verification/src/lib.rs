//! A solver for a four-in-a-row connection game.
//!
//! The board is a rectangular grid (at least 4x4) whose columns fill from the
//! bottom up. Two sides alternate dropping pieces; a side wins by occupying
//! four consecutive cells in a row, a column, or a diagonal. The solver
//! recommends a move by a one-ply adversarial search whose leaf positions are
//! scored with Monte Carlo random rollouts.

pub mod board;
mod rng;
pub mod solver;

pub use board::Entity;
pub use board::Game;
pub use board::GameError;
pub use board::Move;
pub use solver::Solver;
