//! A solver for a fixed-rule dungeon reconstruction puzzle.
//!
//! A board is a small square grid whose cells are chests, monsters, walls,
//! ground, or still undetermined. Two clue vectors give the required number
//! of wall cells in each row and column. The library infers cell values by
//! constraint propagation, prunes infeasible partial boards with a
//! feasibility validator, proposes structured guesses, and drives a
//! memoized backtracking search to a fully determined board.

pub mod board;
pub mod candidates;
pub mod connect;
pub mod laws;
pub mod propagate;
pub mod render;
pub mod search;
pub mod validate;

pub use board::Board;
pub use board::Tile;
