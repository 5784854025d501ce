//! Bencode values: decoding, canonical encoding, and a typed view of
//! torrent metainfo dictionaries.

pub mod chunks;
pub mod decode;
pub mod dict;
pub mod digits;
pub mod encode;
pub mod laws;
pub mod metainfo;
pub mod value;
