//! Network message formats, the read decisions of a connection and the
//! state of a server.

pub mod pack;
pub mod pack_comp;
pub mod packet;
pub mod server;
pub mod session;
pub mod tools;
pub mod wire;
