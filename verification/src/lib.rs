//! Verified engine for the NxN sliding-tile puzzle: board model, move
//! generation, solvability parity check, heuristic scoring, and a
//! bidirectional best-first search that splices a forward and a backward
//! half-path at a meeting configuration.

pub mod board;
pub mod heuristics;
pub mod search;

pub use board::Board;
pub use board::Move;
pub use heuristics::Heuristic;
pub use search::BoardStore;
pub use search::Bucket;
pub use search::add_entry;
pub use search::check_for_solution;
pub use search::perform_move;
pub use search::bidirectional_solver;
pub use search::solve_with_budget;
