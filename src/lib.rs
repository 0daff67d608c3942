//! A Voltorb Flip style deduction puzzle: boards, the game state machine and a
//! move advisor that counts the completions of a partial board.
pub mod board;
pub mod game;
pub mod rules;
pub mod solver;
