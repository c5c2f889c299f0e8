//! The stored structures of an archive: entries, blocks, chains of blocks,
//! the header, and the cache of all chains.

pub mod block_chain;
pub mod block_manager;
pub mod entry;
pub mod header;

use vstd::prelude::*;

verus! {

/// The identity of a chain: the offset of its first block in the archive.
#[derive(Clone, Copy, Debug, PartialEq, Eq, Structural, Hash)]
pub struct ChainIndex(pub u64);

} // verus!
