//! Content-addressable object storage and pack-stream decoding for a small
//! version-control tool, with machine-checked contracts.

pub mod compress;
pub mod delta;
pub mod digest;
pub mod error;
pub mod hex;
pub mod object;
pub mod pack;
pub mod protocol;
pub mod reader;
pub mod store;
pub mod tree;
pub mod varint;
