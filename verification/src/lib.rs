//! A two-player, simultaneous-turn pathfinding contest on a rectangular grid,
//! with its turn engine, its baseline policies and a Monte Carlo tree search
//! planner, all verified.

pub mod ai;
pub mod deps;
pub mod loops;
pub mod mapf;
pub mod timing;
