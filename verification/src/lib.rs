//! A verified decoder for bencode, the serialization format used by
//! BitTorrent metainfo files: integers, byte strings, lists, and
//! dictionaries, parsed by recursive descent with explicit tracking of the
//! unconsumed remainder and a configurable nesting-depth guard.

pub mod decoder;
pub mod grammar;
pub mod laws;
pub mod value;

pub use decoder::{decode, decode_sequence, decode_value, DEFAULT_MAX_DEPTH};
pub use value::{DecodeError, Value};
