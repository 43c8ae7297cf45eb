//! What the operations of the library are for: for each of them, how its result
//! relates to its arguments, and how its calls relate to one another.
//!
//! A law speaks of a call by its arguments and its result, and of both by their
//! plain contents: places, bytes, characters and numbers.
pub mod announce;
pub mod bencode;
pub mod connection;
pub mod decimal;
pub mod download;
pub mod error;
pub mod http;
pub mod peer_id;
pub mod peers;
pub mod percent;
pub mod text;
