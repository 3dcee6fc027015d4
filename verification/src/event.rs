//! Events pushed to the connected explorers.
use vstd::prelude::*;

verus! {

/// A change of the block tree that the explorers are told about.
pub enum BlockEvent {
    /// The node has a new best block.
    NewBlock { hash: String },
    /// The active chain switched from one tip to another.
    Reorg { old_tip: String, new_tip: String, depth: u64 },
    /// The tree changed in some other way (a fork was mined).
    ChainUpdate,
}

} // verus!
