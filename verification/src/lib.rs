//! A codec for a length-prefixed format of integers, byte strings, lists and mappings, with the
//! bit rows and the piece digests that a download keeps beside it.
//!
//! `wire` says what the format is; `bencode`, `encode` and `decode` hold the items and the
//! functions that write and read them; `laws` proves what holds between the two directions.

pub mod bencode;
pub mod bitfield;
pub mod bytes;
pub mod decimal;
pub mod decode;
pub mod dict;
pub mod encode;
pub mod equality;
pub mod error;
pub mod laws;
pub mod options;
pub mod pieces;
pub mod value;
pub mod wire;
