//! Core game simulation: the world, its players and the commands they run.

pub mod world;
pub mod player;
pub mod commands;
