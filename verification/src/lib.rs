//! A small BitTorrent front-end library: a byte-exact bencode codec, the
//! torrent metadata model derived from it (info-hash, piece hashes), the
//! tracker announce request and compact peer-list decoding, and the fixed
//! 68-byte peer handshake message.
//!
//! The codec is specified by the grammar function `spec_decode` and the
//! canonical encoder `spec_encode`; the round-trip and stream-alignment
//! laws relating them are proved in `bencode_decoder`.

pub mod bencode_decoder;
pub mod bencode_value;
pub mod byteops;
pub mod errors;
pub mod interchange;
pub mod peer_comm;
pub mod torrent;
pub mod tracker;
