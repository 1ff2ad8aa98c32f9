//! The classic 15-puzzle: a 4x4 board of fifteen numbered tiles and one
//! empty slot, four directional slide moves, a textual board codec, and a
//! breadth-first solver that returns a minimal move sequence.

pub mod codec;
pub mod solver;
pub mod state;

pub use state::GameState;
pub use state::Move;
pub use solver::find_shortest_path;
