//! A terminal snake game library built around a verified autopilot:
//! an A* pathfinder that computes a collision-free route from the
//! snake's head to the food over a grid of tiles, with a
//! longest-clear-corridor fallback when no route exists.

pub mod cli;
pub mod game;
pub mod input;
pub mod output;
pub mod path;
pub mod props;
pub mod reach;
pub mod snake;
pub mod types;
