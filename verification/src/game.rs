//! The Reversi rule layer: players, turns and the rule engine itself.

pub mod engine;
pub mod player;
