//! A checkers engine: the board and its moves, the rules that say which
//! moves are legal, and a player that searches for the best of them.
//!
//! The rules are stated in `rules`, what playing and taking back a move does
//! in `replay`, and the value of a position in `minimax`. The functions of
//! `checkers` and `bots` are proved against those statements, and `laws`
//! holds what follows for every move that the rules allow.

pub mod bits;
pub mod bots;
pub mod chains;
pub mod checkers;
pub mod clock;
pub mod forced;
pub mod laws;
pub mod lists;
pub mod minimax;
pub mod render;
pub mod replay;
pub mod rules;
pub mod squares;
pub mod termination;
pub mod tracking;
pub mod values;
pub mod window;
