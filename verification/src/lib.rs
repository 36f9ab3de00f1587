//! Client-side engine for the RCON family of remote-console protocols, as
//! spoken by game servers such as Source-engine games, Minecraft, Factorio
//! and Battlefield 3.
//!
//! The crate covers the protocol content itself: the per-variant binary
//! packet codecs, the authentication handshake, and multi-packet response
//! reassembly.

pub mod error;
pub mod wire;
pub mod transport;
pub mod packet;
pub mod connection;
pub mod battlefield3;
pub mod factorio;

pub use connection::Builder;
pub use connection::Connection;

pub use error::Error;
pub use error::TransportError;
