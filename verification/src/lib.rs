//! A verified tic-tac-toe engine: exhaustive backward-induction search over
//! the 3x3 board, memoized by a transposition cache that folds together the
//! four rotations of a position.

pub mod cache;
pub mod engine;
pub mod lines;
pub mod rng;
pub mod model;
pub mod rotate;
pub mod value;
