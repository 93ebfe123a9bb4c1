//! A BitTorrent client library: bencoding, the peer wire protocol and the
//! piece scheduling rules, each with a machine-checked contract.

pub mod active_pieces;
pub mod available_pieces;
pub mod bitset;
pub mod blocks;
pub mod bytes;
pub mod choke;
pub mod crypto;
pub mod decoder;
pub mod encoder;
pub mod flights;
pub mod event;
pub mod handshake;
pub mod joiner;
pub mod message;
pub mod parser;
pub mod piece_assembler;
pub mod scheduler;
pub mod sizes;
pub mod stats;
pub mod sweeper;
pub mod text;
pub mod torrent;
pub mod value;
pub mod wire;
