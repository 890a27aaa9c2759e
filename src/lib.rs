//! A BitTorrent client core: the bencoding codec, the metainfo model, the
//! tracker wire formats and the peer wire protocol, each with its contract.
use vstd::prelude::*;

pub mod bencode;
pub mod digest;
pub mod metainfo;
pub mod peer;
pub mod text;
pub mod tracker;
pub mod wire;

verus! {

/// The failures of the library, one per kind of fault.
#[derive(Debug, Clone, Copy, PartialEq, Eq, Structural)]
pub enum Error {
    /// The bytes are not well-formed bencoding.
    Malformed,
    /// A required dictionary key is absent.
    MissingField,
    /// A field holds the wrong kind of value.
    BadShape,
    /// A tracker or peer broke the wire protocol.
    ProtocolError,
    /// An HTTP tracker answered with a failure reason.
    TrackerReject,
    /// A completed chunk does not hash to its published digest.
    DigestMismatch,
    /// The peer's handshake names other content.
    IdentifierMismatch,
    /// The handshake itself is not the BitTorrent handshake.
    HandshakeFailure,
    /// The retries of a UDP exchange ran out.
    Timeout,
}

} // verus!
