//! HeadPack: a self-describing binary serialization format that groups type
//! and length information into dense bit-packed header sections, so the
//! payload carries only raw bytes. The encoder flattens a value tree into a
//! classes section, a lengths section and a payload section; the decoder
//! rebuilds the tree from those, and decoding an encoded tree is proved to
//! give the tree back.

pub mod decode;
pub mod encode;
pub mod object;
pub mod roundtrip;

pub use decode::headpack_decode;
pub use encode::{headpack_encode, sint_from_bytes, sint_to_bytes, uint_from_bytes, uint_to_bytes};
pub use object::{Error, Object, SpecVal, Value, ValueClass};
