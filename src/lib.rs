//! Stores values for strings in a hash map in a fast and compact way.
//!
//! Every distinct key is interned once in a single byte buffer, as a
//! varint length prefix followed by its bytes; table slots refer to keys by a
//! 32-bit offset into that buffer. The address space of the string data is
//! therefore limited to `u32::MAX` bytes.
//!
//! The crate also holds a compact bit set over small integers, built from
//! 64-bit words.

pub mod bitset;
pub mod bytesref;
pub mod hasher;
pub mod map;
mod probe;
mod varint;

pub use bitset::{BitSet, TinySet, TinySetIterator};
pub use bytesref::BytesRef;
pub use map::StringHashMap;
