//! A Monte Carlo tree search engine for two-player, perfect-information,
//! zero-sum games, demonstrated on a 3x3 tic-tac-toe board.

pub mod board;
pub mod engine;
pub mod moves;
pub mod pushfight;
pub mod score;
pub mod tree;

pub use board::Board;
pub use board::GameResult;
pub use board::Square;
pub use engine::SearchError;
pub use engine::choose_move;
