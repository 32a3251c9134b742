//! Building blocks that the game is made of.

pub mod clock;
pub mod sparse;
pub mod state_definition;
pub mod text;
