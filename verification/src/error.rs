//! The error taxonomy of the pipeline.

use vstd::prelude::*;

verus! {

/// Every failure the pipeline can report.  Each error is unrecoverable at
/// its point of origin and propagates to the caller unchanged.
#[derive(Clone, Copy, Debug, PartialEq, Eq, Structural)]
pub enum Error {
    /// Malformed or structurally invalid bencoded metadata.
    Decode,
    /// The top-level `info` key was not found in the metadata.
    InfoNotFound,
    /// The torrent carries no announce URL.
    MissingTracker,
    /// Connection or transport failure talking to tracker or peer.
    Network,
    /// Malformed tracker response, or a `peers` blob whose length is not a
    /// multiple of six.
    TrackerProtocol,
    /// The peer echoed a different info hash in its handshake reply.
    HandshakeMismatch,
    /// Unexpected message identifier or malformed framing at the peer layer.
    Protocol,
    /// The downloaded piece does not hash to its entry in the piece table.
    PieceHashMismatch,
}

} // verus!
