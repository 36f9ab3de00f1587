//! The error taxonomy of the protocol engine.

use vstd::prelude::*;

verus! {

/// An error reported by the byte-stream capability that carries the
/// connection. The code is chosen by the transport implementation; the
/// engine never interprets it, it only hands it back to the caller.
#[derive(Debug, Clone, Copy, PartialEq, Eq, Structural)]
pub struct TransportError {
    pub code: u32,
}

/// The different kinds of errors that can happen while interacting with an
/// RCON server.
#[derive(Debug, Clone, Copy, PartialEq, Eq, Structural)]
pub enum Error {
    /// The handshake was rejected by the server.
    Auth,
    /// The command exceeds the variant's maximum length; nothing was sent.
    CommandTooLong,
    /// Wire data violates the variant's framing contract: bad length
    /// accounting, invalid text encoding, or an unrecognized type tag.
    MalformedPacket,
    /// The underlying byte stream failed; wraps the transport's own error.
    Io(TransportError),
}

} // verus!
