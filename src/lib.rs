//! Streaming packet authentication over a sparse hash graph (a = 3, p = 5).
//!
//! Each packet carries the hashes of a few predecessor packets and a sparse subset
//! of packets carries a signature: one verified signature authenticates every
//! packet reachable from it through the hash graph.
use vstd::prelude::*;

pub mod graph;
pub mod varint;
pub mod entry;
pub mod buffer;
pub mod codec;
pub mod node;

verus! {

/// Hash of a packet, payload and child hashes included.
pub type PktHash = [u8; 32];

/// Digital signature carried by a sparse subset of packets.
pub type Signature = [u8; 64];

/// Errors of the buffers and of the wire codec.
#[derive(Debug, Clone, Copy, PartialEq, Eq, Structural)]
pub enum Error {
    /// The identifier lies outside the buffer's window, or forwarding would leave it.
    OutOfBoundId,
    /// The entry still misses some predecessor hashes.
    MissingHash,
    /// The insertion breaks the sequence of identifiers, or would overfill an entry.
    IllegalInsert,
    /// The receive buffer cannot accept the entry.
    BufferFull,
    /// An authenticated successor rejects the entry's total hash.
    BadAuthentication,
    /// The entry asked to vouch for another is not itself authenticated.
    NotAuthenticated,
    /// Malformed wire bytes.
    Decoding,
}

/// Lifecycle state of a buffered entry.
#[derive(Debug, Clone, Copy, PartialEq, Eq, Structural)]
pub enum State {
    /// Buffered, not processed yet.
    NotReady,
    /// All hashes collected and forwarded: ready to go on the wire.
    ReadySent,
    /// Authenticated by a signature or by an authenticated successor.
    Authenticated,
    /// Rejected by an authenticated successor; this state latches.
    BadAuthentication,
}

} // verus!
