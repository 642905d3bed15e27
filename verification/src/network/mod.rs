//! The network side of the server: line buffers, and the decisions of the
//! server loop on the events of its clients.

pub mod buffer;
pub mod server;
