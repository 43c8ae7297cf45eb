//! Bencode, the notation of tracker answers ([BEP-3]): integers, byte strings,
//! lists and dictionaries.
//!
//! A text is read whole or not at all. Numbers have no leading zeros and there
//! is no minus zero; an integer is within the range of `i64`. The keys of a
//! dictionary may come in any order, and of equal keys the last one counts.
//!
//! [BEP-3]: https://www.bittorrent.org/beps/bep_0003.html
pub mod grammar;
pub mod reader;
pub mod value;
