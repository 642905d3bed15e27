//! Verified core of a Zappy game server: the toroidal world of Trantor, its
//! players and resources, the AI and GUI protocols, and the decisions of the
//! server loop.

pub mod clock;
pub mod config;
pub mod text;
pub mod lines;
pub mod network;
pub mod protocol;
pub mod game;
pub mod gui;
pub mod tui;
