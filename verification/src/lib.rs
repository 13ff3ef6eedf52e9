//! Splitting a byte sequence into fixed-size shards and reassembling it.
//!
//! A shard set is an ordered family of byte blocks, each persisted under a
//! name of the form `shard_0000`, `shard_0001`, ... (a fixed prefix followed
//! by the decimal index, zero-padded to four digits). Reassembly filters a
//! directory listing down to names carrying the prefix, sorts them
//! lexicographically by their bytes, and concatenates the blocks in that
//! order. All of that logic lives here, verified; reading and writing the
//! actual files is left to the caller.

pub mod bytes;
pub mod entry;
pub mod laws;
pub mod names;
pub mod reconstruct;
pub mod shard;
