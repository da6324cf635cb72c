//! The game-agnostic board layer: sizes, positions, directions, the grid of
//! cells and the directional ray scanner.

pub mod builder;
pub mod direction;
pub mod grid;
pub mod position;
pub mod scan;
pub mod size;
