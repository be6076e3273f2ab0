//! A minimal BitTorrent client library.
//!
//! The pipeline has four stages: decoding bencoded torrent metadata,
//! deriving the SHA-1 info hash of the raw `info` dictionary bytes,
//! building and decoding tracker announce exchanges, and the peer-wire
//! message layer that downloads a single piece.  All decisions are made
//! here; sockets and HTTP live outside the library.

pub mod bencode;
pub mod bytes;
pub mod error;
pub mod hashing;
pub mod peer;
pub mod torrent;
pub mod tracker;
