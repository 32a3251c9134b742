//! The contest itself: map, position, actions and the turn engine.

pub mod action;
pub mod definition;
pub mod environment;
pub mod loader;
pub mod render;
pub mod round_trip;
pub mod state;
pub mod turn_laws;
