//! tg: the verified core of a small TCP networking framework.
//!
//! The library holds the wire formats of the framework's messages and the
//! decisions taken while they are read and routed: the fixed-header
//! `nw::pack::Package`, the compressed-header `nw::pack_comp::{Head,
//! Package}`, the checksummed `nw::packet::Packet` and its streaming
//! `nw::packet::Builder`, the per-connection read decisions of
//! `nw::session`, the server state of `nw::server`, socket addresses as
//! bytes in `nw::tools`, request routing in `piper`, the error type of the
//! framework in `g`, and clock and hexadecimal utilities in `utils`.

pub mod g;
pub mod nw;
pub mod piper;
pub mod utils;
