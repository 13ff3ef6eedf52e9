//! One shard as the library handles it: a filename and the block of bytes
//! persisted under that name.

use vstd::prelude::*;

verus! {

/// A shard file: its name and its contents, both as plain bytes.
pub struct ShardEntry {
    /// The filename, as bytes.
    pub name: Vec<u8>,
    /// The block of bytes the file holds.
    pub data: Vec<u8>,
}

impl View for ShardEntry {
    type V = (Seq<u8>, Seq<u8>);

    open spec fn view(&self) -> (Seq<u8>, Seq<u8>) {
        (self.name@, self.data@)
    }
}

/// The mathematical image of a vector of entries: each as its pair of
/// name bytes and data bytes.
pub open spec fn entries_model(s: Seq<ShardEntry>) -> Seq<(Seq<u8>, Seq<u8>)> {
    s.map_values(|e: ShardEntry| e@)
}

} // verus!
