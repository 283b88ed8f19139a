//! A rules engine for the card game Hearts, played by exactly four
//! players: the card and deck model, the round state machine that
//! enforces legal play and resolves tricks, and a thin game layer that
//! accumulates scores.

pub mod cards;
pub mod game;
pub mod round;
