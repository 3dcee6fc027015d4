//! Blocks as the node reports them and as the block tree holds them.
use vstd::prelude::*;

verus! {

/// Mathematical value of an optional string.
pub open spec fn opt_view(s: Option<String>) -> Option<Seq<char>> {
    match s {
        Some(t) => Some(t@),
        None => None,
    }
}

/// Copies an optional string, keeping its value.
pub fn copy_opt_string(s: &Option<String>) -> (r: Option<String>)
    ensures
        r == *s,
{
    match s {
        Some(t) => Some(t.clone()),
        None => None,
    }
}

/// A block as `getblock` (verbosity 1) describes it: every field that the
/// tree reads, together with the header fields that the explorer shows.
pub struct BlockInfo {
    pub hash: String,
    pub height: u64,
    pub version: i64,
    pub time: u64,
    pub nonce: u64,
    pub bits: String,
    pub previousblockhash: Option<String>,
    pub nextblockhash: Option<String>,
    pub merkleroot: String,
    pub n_tx: u64,
    pub size: u64,
    pub weight: u64,
    /// Number of confirmations; Bitcoin Core reports -1 for a block that is
    /// not on the active chain.
    pub confirmations: i64,
}

/// A simplified block for the tree representation sent to the frontend.
pub struct BlockNode {
    pub hash: String,
    pub height: u64,
    pub prev_hash: Option<String>,
    pub time: u64,
    pub n_tx: u64,
    pub size: u64,
    pub weight: u64,
    pub is_active: bool,
    pub confirmations: i64,
}

/// Mathematical value of a [`BlockNode`].
pub struct BlockNodeView {
    pub hash: Seq<char>,
    pub height: u64,
    pub prev_hash: Option<Seq<char>>,
    pub time: u64,
    pub n_tx: u64,
    pub size: u64,
    pub weight: u64,
    pub is_active: bool,
    pub confirmations: i64,
}

impl BlockNodeView {
    /// The same block with its active flag set to `active`.
    pub open spec fn with_active(self, active: bool) -> BlockNodeView {
        BlockNodeView { is_active: active, ..self }
    }
}

impl View for BlockNode {
    type V = BlockNodeView;

    open spec fn view(&self) -> BlockNodeView {
        BlockNodeView {
            hash: self.hash@,
            height: self.height,
            prev_hash: opt_view(self.prev_hash),
            time: self.time,
            n_tx: self.n_tx,
            size: self.size,
            weight: self.weight,
            is_active: self.is_active,
            confirmations: self.confirmations,
        }
    }
}

/// The tree node that a block description gives: the block's own fields,
/// with the block counted as active exactly when the node reports it on the
/// active chain (a non-negative confirmation count).
pub open spec fn node_of_info(b: BlockInfo) -> BlockNodeView {
    BlockNodeView {
        hash: b.hash@,
        height: b.height,
        prev_hash: opt_view(b.previousblockhash),
        time: b.time,
        n_tx: b.n_tx,
        size: b.size,
        weight: b.weight,
        is_active: b.confirmations >= 0,
        confirmations: b.confirmations,
    }
}

impl BlockNode {
    /// Converts a block description into a tree node.
    pub fn from_info(b: &BlockInfo) -> (r: BlockNode)
        ensures
            r@ == node_of_info(*b),
            r.hash == b.hash,
            r.height == b.height,
            r.prev_hash == b.previousblockhash,
            r.time == b.time,
            r.n_tx == b.n_tx,
            r.size == b.size,
            r.weight == b.weight,
            r.confirmations == b.confirmations,
            r.is_active == (b.confirmations >= 0),
    {
        BlockNode {
            hash: b.hash.clone(),
            height: b.height,
            prev_hash: copy_opt_string(&b.previousblockhash),
            time: b.time,
            n_tx: b.n_tx,
            size: b.size,
            weight: b.weight,
            is_active: b.confirmations >= 0,
            confirmations: b.confirmations,
        }
    }

    /// A copy of this node.
    pub fn duplicate(&self) -> (r: BlockNode)
        ensures
            r@ == self@,
    {
        BlockNode {
            hash: self.hash.clone(),
            height: self.height,
            prev_hash: copy_opt_string(&self.prev_hash),
            time: self.time,
            n_tx: self.n_tx,
            size: self.size,
            weight: self.weight,
            is_active: self.is_active,
            confirmations: self.confirmations,
        }
    }
}

impl Clone for BlockNode {
    fn clone(&self) -> (r: Self)
        ensures
            r@ == self@,
    {
        self.duplicate()
    }
}

impl<'a> From<&'a BlockInfo> for BlockNode {
    fn from(b: &'a BlockInfo) -> (r: BlockNode)
        ensures
            r.hash == b.hash,
            r.height == b.height,
            r.prev_hash == b.previousblockhash,
            r.time == b.time,
            r.n_tx == b.n_tx,
            r.size == b.size,
            r.weight == b.weight,
            r.confirmations == b.confirmations,
            r.is_active == (b.confirmations >= 0),
    {
        BlockNode::from_info(b)
    }
}

impl<'a> vstd::std_specs::convert::FromSpecImpl<&'a BlockInfo> for BlockNode {
    open spec fn obeys_from_spec() -> bool {
        true
    }

    open spec fn from_spec(b: &'a BlockInfo) -> BlockNode {
        BlockNode {
            hash: b.hash,
            height: b.height,
            prev_hash: b.previousblockhash,
            time: b.time,
            n_tx: b.n_tx,
            size: b.size,
            weight: b.weight,
            is_active: b.confirmations >= 0,
            confirmations: b.confirmations,
        }
    }
}

/// One entry of `getchaintips`.
pub struct ChainTip {
    pub height: u64,
    pub hash: String,
    pub branchlen: u64,
    pub status: String,
}

/// The part of `getblockchaininfo` that the explorer shows.
pub struct BlockchainInfo {
    pub chain: String,
    pub blocks: u64,
    pub bestblockhash: String,
}

/// A tree node made from a block description keeps every field of the
/// description: hash, height, parent, time, transaction count, size, weight
/// and confirmations; and it is active exactly when the node counts the
/// block's confirmations as non-negative (on the active chain).
pub proof fn law_node_keeps_the_description(b: BlockInfo)
    ensures
        node_of_info(b).hash == b.hash@,
        node_of_info(b).height == b.height,
        node_of_info(b).prev_hash == opt_view(b.previousblockhash),
        node_of_info(b).time == b.time,
        node_of_info(b).n_tx == b.n_tx,
        node_of_info(b).size == b.size,
        node_of_info(b).weight == b.weight,
        node_of_info(b).confirmations == b.confirmations,
        node_of_info(b).is_active == (b.confirmations >= 0),
        <BlockNode as vstd::std_specs::convert::FromSpec<&BlockInfo>>::from_spec(&b).n_tx == b.n_tx,
        <BlockNode as vstd::std_specs::convert::FromSpec<&BlockInfo>>::from_spec(&b).hash == b.hash,
        <BlockNode as vstd::std_specs::convert::FromSpec<&BlockInfo>>::from_spec(&b).height == b.height,
        <BlockNode as vstd::std_specs::convert::FromSpec<&BlockInfo>>::from_spec(&b).prev_hash == b.previousblockhash,
        <BlockNode as vstd::std_specs::convert::FromSpec<&BlockInfo>>::from_spec(&b).time == b.time,
        <BlockNode as vstd::std_specs::convert::FromSpec<&BlockInfo>>::from_spec(&b).size == b.size,
        <BlockNode as vstd::std_specs::convert::FromSpec<&BlockInfo>>::from_spec(&b).weight == b.weight,
        <BlockNode as vstd::std_specs::convert::FromSpec<&BlockInfo>>::from_spec(&b).confirmations == b.confirmations,
        <BlockNode as vstd::std_specs::convert::FromSpec<&BlockInfo>>::from_spec(&b).is_active == (b.confirmations >= 0),
{
}

} // verus!
