//! A verified Reversi (Othello) rule engine.
//!
//! The crate is built bottom-up from three parts: a fixed-size grid of cells
//! addressed by integer coordinates, a directional ray scanner that walks the
//! grid one step at a time until it leaves the board, and the rule engine
//! proper, which owns a grid of cell owners and implements legal-move
//! computation, disc flipping, turn advancement, stalemate detection and
//! scoring.

pub mod board;
pub mod game;
