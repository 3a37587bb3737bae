//! A backgammon rules engine and search core: legal single-die moves with an
//! exact error taxonomy, compound-turn generation under the "use as many dice
//! as possible, avoid wasteful bear-offs unless forced" rule, and a
//! brute-force expectimax evaluator over the 21 distinct dice pairs.

pub mod board;
pub mod evaluator;
pub mod generator;
pub mod movelist;
pub mod moves;
pub mod rules;
pub mod symmetry;

pub use board::Board;
pub use board::GameState;
pub use board::Tile;
pub use rules::MoveError;
pub use rules::SPECIAL_MOVE;
