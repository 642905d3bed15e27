//! GUI response generation: turns parsed requests of graphical observers
//! into the protocol lines sent back to them.

pub mod commands;
