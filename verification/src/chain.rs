//! The explorer's view of the node's block tree.
use vstd::prelude::*;

use crate::block::{opt_view, BlockNode, BlockNodeView};
use crate::store::{BlockStore, Entry, on_active_chain};
use crate::sync::{agrees, Answers, SyncWalk};
use crate::fork::hash_values;

verus! {

/// The tree that a rebuild installs: the rebuilt blocks, each marked active
/// exactly when it lies on the chain that ends at `best`.
pub open spec fn installed_tree(m: Map<Seq<char>, BlockNodeView>, best: Seq<char>) -> Map<Seq<char>, BlockNodeView> {
    Map::new(|k: Seq<char>| m.contains_key(k), |k: Seq<char>| m[k].with_active(on_active_chain(m, best, k)))
}

/// The block tree that the explorer shows, and the node's best block.
pub struct ChainState {
    /// All known blocks indexed by hash.
    pub blocks: BlockStore,
    /// Current best block hash.
    pub best_hash: Option<String>,
}

impl ChainState {
    /// An empty tree with no best block.
    pub fn new() -> (s: Self)
        ensures
            s.blocks@ == Seq::<Entry>::empty(),
            s.blocks.map() == Map::<Seq<char>, BlockNodeView>::empty(),
            s.best_hash is None,
    {
        ChainState { blocks: BlockStore::new(), best_hash: None }
    }

    /// Stores `block` under its own hash, replacing any block stored under
    /// that hash; the best block is left as it is.
    pub fn add_block(&mut self, block: BlockNode)
        ensures
            final(self).blocks.map() == old(self).blocks.map().insert(block.hash@, block@),
            final(self).best_hash == old(self).best_hash,
    {
        let key = block.hash.clone();
        self.blocks.insert(key, block);
    }

    /// Copies of all stored blocks, one per stored hash, in the order in
    /// which their hashes were first stored.
    pub fn get_all_blocks(&self) -> (r: Vec<BlockNode>)
        ensures
            r@.len() == self.blocks@.len(),
            r@.len() == self.blocks.map().len(),
            forall|i: int| 0 <= i < self.blocks@.len() ==> #[trigger] r@[i]@ == self.blocks@[i].1,
    {
        self.blocks.values()
    }

    /// Takes the best block hash that a refresh of the explorer found. When
    /// the chain tips could be listed and the best block hash `b` could be
    /// read, `b` becomes the best block and the stored tree is marked anew:
    /// a block is active exactly when it lies on the chain that ends at `b`.
    /// Otherwise nothing changes.
    pub fn refresh_best_hash(&mut self, tips_listed: bool, best: Option<String>)
        ensures
            match best {
                Some(b) if tips_listed => {
                    &&& final(self).best_hash == Some(b)
                    &&& final(self).blocks.map() == installed_tree(old(self).blocks.map(), b@)
                    &&& final(self).blocks@.len() == old(self).blocks@.len()
                    &&& forall|i: int| 0 <= i < old(self).blocks@.len() ==> #[trigger] final(self).blocks@[i] == (
                        old(self).blocks@[i].0,
                        old(self).blocks@[i].1.with_active(
                            on_active_chain(old(self).blocks.map(), b@, old(self).blocks@[i].0),
                        ),
                    )
                },
                _ => *final(self) == *old(self),
            },
    {
        if tips_listed {
            if let Some(h) = best {
                self.blocks.mark_active_chain(&h);
                self.best_hash = Some(h);
            }
        }
    }

    /// Ends a resync: the tree becomes the one that `walk` rebuilt, with its
    /// blocks marked active exactly when they lie on the chain that ends at
    /// `best_hash`, and `best_hash` becomes the best block.
    pub fn install_sync(&mut self, walk: SyncWalk, best_hash: String)
        ensures
            final(self).best_hash == Some(best_hash),
            final(self).blocks@.len() == walk.store@.len(),
            forall|i: int| 0 <= i < walk.store@.len() ==> #[trigger] final(self).blocks@[i] == (
                walk.store@[i].0,
                walk.store@[i].1.with_active(on_active_chain(walk.store.map(), best_hash@, walk.store@[i].0)),
            ),
            final(self).blocks.map() == installed_tree(walk.store.map(), best_hash@),
    {
        let mut blocks = walk.store;
        blocks.mark_active_chain(&best_hash);
        self.blocks = blocks;
        self.best_hash = Some(best_hash);
    }
}

/// Rebuilding twice on a node that does not change gives the same tree and
/// the same best block: two finished rebuilds from the same tips that agree
/// with the node, installed with the same best hash, leave the same state.
pub proof fn law_resync_is_idempotent(
    w1: SyncWalk,
    w2: SyncWalk,
    node: Answers,
    best: Seq<char>,
    c1: ChainState,
    c2: ChainState,
)
    requires
        w1.finished(),
        w2.finished(),
        hash_values(w1.tips@) == hash_values(w2.tips@),
        agrees(w1.answers@, node),
        agrees(w2.answers@, node),
        c1.blocks.map() == installed_tree(w1.store.map(), best),
        c2.blocks.map() == installed_tree(w2.store.map(), best),
        c1.best_hash matches Some(b1) && b1@ == best,
        c2.best_hash matches Some(b2) && b2@ == best,
    ensures
        c1.blocks.map() == c2.blocks.map(),
        opt_view(c1.best_hash) == opt_view(c2.best_hash),
{
    crate::sync::law_rebuild_depends_only_on_the_node(w1, w2, node);
}

} // verus!
