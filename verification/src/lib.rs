//! Game logic of a grid-based raycasting escape game.

pub mod map;
pub mod pathfinding;
pub mod texture;
pub mod renderer;
pub mod sprite;
pub mod config;
pub mod chaser;
pub mod player;
pub mod game;
