//! The logic of `enxamed`, a BitTorrent client: what it says to a tracker, how
//! it reads the answer, and what it does with the events of a download.
//!
//! Nothing here performs I/O. Each module turns plain values into plain values,
//! or moves a state machine one step; the sockets, the disk and the protocol
//! engine stay with the program that drives it.
pub mod announce;
pub mod bencode;
pub mod connection;
pub mod decimal;
pub mod download;
pub mod error;
pub mod http;
pub mod laws;
pub mod peer_id;
pub mod peers;
pub mod percent;
pub mod text;
