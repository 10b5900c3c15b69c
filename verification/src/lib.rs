//! Legality and state core of a two-player, perfect-information board game
//! with chess-like rules.
//!
//! The crate answers: given a board configuration and whose turn it is, which
//! moves are legal, what happens when one is applied, and which terminal or
//! intermediate states (check, checkmate, stalemate) result.

pub mod board;
pub mod attack;
pub mod position;
