//! Mining a block, on the best chain or on top of a chosen block.
//!
//! To mine on a block that is not the node's tip, the node is made to treat
//! that block as its tip. The plan learns the parent's branch (the parent and
//! its ancestors down to the first block on the active chain), lists the
//! chain tips, and walks back from every tip that could win over the parent
//! (every tip except the parent and those that are invalid or lack their
//! data) until it meets an ancestor of the parent; the block it passed last
//! is set aside. Setting aside a block invalidates it and its descendants, so
//! once every such tip has a block set aside below it and no ancestor of the
//! parent is set aside, the parent is the only candidate left for the tip.
//! The blocks set aside are invalidated, a block is mined, and they are
//! reconsidered so that all branches coexist in the node's block tree.
//!
//! The plan is a machine driven from outside: every `step` takes the node's
//! answer to the last command and gives the next command.
use vstd::prelude::*;

use crate::block::ChainTip;

verus! {

/// The node's answer to the last command.
pub enum MineEvent {
    /// A block was fetched: its height, its parent's hash and its number of
    /// confirmations (negative when it is not on the active chain).
    Block { height: u64, prev: Option<String>, confirmations: i64 },
    /// The best block hash was read.
    BestHash(String),
    /// The chain tips were listed.
    Tips(Vec<ChainTip>),
    /// A new address was handed out.
    Address(String),
    /// Blocks were mined; their hashes.
    Mined(Vec<String>),
    /// A block was invalidated or reconsidered.
    Done,
    /// The command failed with this message.
    Failed(String),
}

/// What a successful fork reports besides the mined blocks.
pub struct ForkNote {
    /// The block that was mined on.
    pub parent: String,
    /// Whether blocks had to be set aside to mine there.
    pub fork_created: bool,
}

/// The answer to a successful mining request. When `fork` is present the
/// explorers are also told that the tree changed.
pub struct MineReply {
    pub mined: Vec<String>,
    pub address: String,
    pub fork: Option<ForkNote>,
}

/// The next command for the node, or the end of the plan.
pub enum MineAction {
    GetBlock(String),
    GetBestBlockHash,
    GetChainTips,
    InvalidateBlock(String),
    GetNewAddress,
    GenerateToAddress { count: u64, address: String },
    ReconsiderBlock(String),
    /// The plan succeeded.
    Reply(MineReply),
    /// The plan stopped on a failed command; the message is the node's.
    Fail(String),
}

/// Where the plan stands; each stage waits for one kind of answer.
pub enum MineStage {
    /// Waiting for the block to mine on.
    TargetBlock { parent: String },
    /// Waiting for the best block hash; the parent's description is kept.
    BestHash { parent: String, height: u64, prev: Option<String>, confirmations: i64 },
    /// Walking down the parent's branch; waiting for the block at `cursor`.
    Branch { parent: String, cursor: String },
    /// Waiting for the chain tips.
    Tips { parent: String },
    /// Walking back from the rival tip `rivals[next]`; waiting for the block
    /// at `cursor`. `last` is the block passed just before it.
    Rival { parent: String, next: usize, cursor: String, last: Option<String> },
    /// Waiting for the invalidation of `to_invalidate[next]`.
    Invalidating { parent: String, next: usize },
    /// Waiting for an address; `parent` is absent when mining on the best
    /// chain.
    Address { parent: Option<String> },
    /// Waiting for the mined blocks.
    Generate { parent: Option<String>, address: String },
    /// Waiting for the reconsideration of `to_invalidate[next]`.
    Reconsidering { parent: String, next: usize, address: String, mined: Vec<String> },
    /// The plan is over.
    Finished,
}

/// A mining plan in progress.
pub struct ForkMiner {
    pub stage: MineStage,
    /// The parent and its ancestors, as walked down from the parent to the
    /// first block on the active chain (included).
    pub branch: Vec<String>,
    /// The height of the last block of `branch` when it is on the active
    /// chain: every active block at or below it is an ancestor of the parent.
    pub join_height: Option<u64>,
    /// The tips that could win over the parent, in the order listed.
    pub rivals: Vec<String>,
    /// Blocks to set aside while mining.
    pub to_invalidate: Vec<String>,
    /// Hashes of the blocks that the plan has asked to invalidate, in order.
    pub invalidated: Ghost<Seq<Seq<char>>>,
    /// Hashes of the blocks that the plan has asked to reconsider, in order.
    pub reconsidered: Ghost<Seq<Seq<char>>>,
    /// Height and confirmations that the node gave for each block set
    /// aside, when it was described.
    pub aside_facts: Ghost<Seq<(u64, i64)>>,
    /// The blocks that each finished rival walk visited, as the node
    /// described them, from the tip down.
    pub walked: Ghost<Seq<Seq<Visit>>>,
    /// The blocks that the current rival walk has visited so far.
    pub walking: Ghost<Seq<Visit>>,
}

/// A block that a walk visited, as the node described it.
pub ghost struct Visit {
    pub hash: Seq<char>,
    pub prev: Option<Seq<char>>,
    pub height: u64,
    pub confirmations: i64,
}

/// The walk `p` from the tip `tip` is covered: it starts at the tip, follows
/// the parents that the node reported, and meets a block set aside (in
/// `aside`), unless the tip itself was described as an ancestor of the
/// parent.
pub open spec fn covers(
    aside: Seq<Seq<char>>,
    branch: Seq<Seq<char>>,
    join_height: Option<u64>,
    p: Seq<Visit>,
    tip: Seq<char>,
) -> bool {
    &&& p.len() >= 1
    &&& p[0].hash == tip
    &&& linked(p)
    &&& (exists|i: int| 0 <= i < p.len() && #[trigger] aside.contains(p[i].hash))
        || (p.len() == 1 && is_ancestor(branch, join_height, p[0].hash, p[0].height, p[0].confirmations))
}

/// Setting more blocks aside keeps covered walks covered.
pub proof fn lemma_still_covered(
    before: Seq<Seq<char>>,
    after: Seq<Seq<char>>,
    branch: Seq<Seq<char>>,
    join_height: Option<u64>,
    walked: Seq<Seq<Visit>>,
    tips: Seq<String>,
    k: int,
)
    requires
        forall|h: Seq<char>| before.contains(h) ==> #[trigger] after.contains(h),
        0 <= k <= walked.len(),
        k <= tips.len(),
        forall|i: int| 0 <= i < k ==> covers(before, branch, join_height, #[trigger] walked[i], tips[i]@),
    ensures
        forall|i: int| 0 <= i < k ==> covers(after, branch, join_height, #[trigger] walked[i], tips[i]@),
{
    assert forall|i: int| 0 <= i < k implies covers(after, branch, join_height, #[trigger] walked[i], tips[i]@) by {
        let p = walked[i];
        assert(covers(before, branch, join_height, p, tips[i]@));
        if exists|j: int| 0 <= j < p.len() && #[trigger] before.contains(p[j].hash) {
            let j = choose|j: int| 0 <= j < p.len() && #[trigger] before.contains(p[j].hash);
            assert(after.contains(p[j].hash));
        }
    }
}

/// Each visited block's reported parent is the next block visited.
pub open spec fn linked(p: Seq<Visit>) -> bool {
    forall|i: int| 0 <= i < p.len() - 1 ==> #[trigger] p[i].prev == Some(p[i + 1].hash)
}

/// The values of a list of hashes.
pub open spec fn hash_values(v: Seq<String>) -> Seq<Seq<char>> {
    v.map_values(|s: String| s@)
}

/// A tip that could become the node's tip instead of `parent`: any tip
/// other than the parent that is not invalid and whose blocks are at hand.
pub open spec fn is_rival(t: ChainTip, parent: Seq<char>) -> bool {
    t.hash@ != parent && t.status@ != "invalid"@ && t.status@ != "headers-only"@
}

/// The hashes of the rival tips among `tips`, in order.
pub open spec fn rivals_of(tips: Seq<ChainTip>, parent: Seq<char>) -> Seq<Seq<char>>
    decreases tips.len(),
{
    if tips.len() == 0 {
        Seq::empty()
    } else {
        rivals_of(tips.drop_last(), parent) + if is_rival(tips.last(), parent) {
            seq![tips.last().hash@]
        } else {
            Seq::<Seq<char>>::empty()
        }
    }
}

/// A block described with `height` and `confirmations` is an ancestor of the
/// parent: it lies on the parent's branch, or it is on the active chain at or
/// below the height where the branch joins it.
pub open spec fn is_ancestor(
    branch: Seq<Seq<char>>,
    join_height: Option<u64>,
    h: Seq<char>,
    height: u64,
    confirmations: i64,
) -> bool {
    branch.contains(h) || (confirmations >= 0 && match join_height {
        Some(j) => height <= j,
        None => false,
    })
}

/// Whether `h` is among `v`.
fn holds_hash(v: &Vec<String>, h: &String) -> (r: bool)
    ensures
        r == hash_values(v@).contains(h@),
{
    let mut i: usize = 0;
    while i < v.len()
        invariant
            0 <= i <= v@.len(),
            forall|j: int| 0 <= j < i ==> #[trigger] v@[j]@ != h@,
        decreases v@.len() - i,
    {
        if v[i] == *h {
            proof {
                assert(hash_values(v@)[i as int] == h@);
            }
            return true;
        }
        i = i + 1;
    }
    proof {
        if hash_values(v@).contains(h@) {
            let j = choose|j: int| 0 <= j < hash_values(v@).len() && hash_values(v@)[j] == h@;
            assert(v@[j]@ == h@);
        }
    }
    false
}

/// The hashes of the rival tips among `tips`.
fn select_rivals(tips: &Vec<ChainTip>, parent: &String) -> (r: Vec<String>)
    ensures
        hash_values(r@) == rivals_of(tips@, parent@),
{
    let invalid = "invalid".to_owned();
    let headers_only = "headers-only".to_owned();
    let mut out: Vec<String> = Vec::new();
    let mut i: usize = 0;
    while i < tips.len()
        invariant
            0 <= i <= tips@.len(),
            invalid@ == "invalid"@,
            headers_only@ == "headers-only"@,
            hash_values(out@) == rivals_of(tips@.take(i as int), parent@),
        decreases tips@.len() - i,
    {
        let t = &tips[i];
        let ghost before = out@;
        if t.hash != *parent && t.status != invalid && t.status != headers_only {
            out.push(t.hash.clone());
        }
        proof {
            let s = tips@.take(i + 1);
            assert(s.drop_last() =~= tips@.take(i as int));
            assert(s.last() == tips@[i as int]);
            if is_rival(tips@[i as int], parent@) {
                assert(hash_values(out@) =~= hash_values(before) + seq![tips@[i as int].hash@]);
            } else {
                assert(hash_values(out@) =~= hash_values(before) + Seq::<Seq<char>>::empty());
            }
        }
        i = i + 1;
    }
    proof {
        assert(tips@.take(tips@.len() as int) =~= tips@);
    }
    out
}

impl ForkMiner {
    /// The bookkeeping of the plan holds: every block set aside was described
    /// by the node as no ancestor of the parent; every block set aside is
    /// invalidated before mining, and the reconsiderations follow the
    /// invalidations in the same order.
    pub open spec fn wf(&self) -> bool {
        let all = hash_values(self.to_invalidate@);
        let br = hash_values(self.branch@);
        &&& self.aside_facts@.len() == all.len()
        &&& forall|i: int| 0 <= i < all.len() ==>
            !is_ancestor(br, self.join_height, #[trigger] all[i], self.aside_facts@[i].0, self.aside_facts@[i].1)
        &&& match self.stage {
            MineStage::Rival { next, cursor, last, .. } => next < self.rivals@.len()
                && self.rivals_covered(next as int)
                && if self.walking@.len() == 0 {
                    cursor@ == self.rivals@[next as int]@ && last is None
                } else {
                    let w = self.walking@;
                    &&& w[0].hash == self.rivals@[next as int]@
                    &&& linked(w)
                    &&& w.last().prev == Some(cursor@)
                    &&& last matches Some(x) && x@ == w.last().hash
                    &&& !is_ancestor(br, self.join_height, w.last().hash, w.last().height, w.last().confirmations)
                }
                && self.invalidated@ == Seq::<Seq<char>>::empty()
                && self.reconsidered@ == Seq::<Seq<char>>::empty(),
            MineStage::Invalidating { next, .. } => next < all.len()
                && self.rivals_covered(self.rivals@.len() as int)
                && self.invalidated@ == all.take(next + 1)
                && self.reconsidered@ == Seq::<Seq<char>>::empty(),
            MineStage::Address { parent: Some(_) } => self.rivals_covered(self.rivals@.len() as int)
                && self.invalidated@ == all
                && self.reconsidered@ == Seq::<Seq<char>>::empty(),
            MineStage::Generate { parent: Some(_), .. } => self.rivals_covered(self.rivals@.len() as int)
                && self.invalidated@ == all
                && self.reconsidered@ == Seq::<Seq<char>>::empty(),
            MineStage::Reconsidering { next, .. } => next < all.len()
                && self.rivals_covered(self.rivals@.len() as int)
                && self.invalidated@ == all
                && self.reconsidered@ == all.take(next + 1),
            MineStage::Finished => true,
            _ => all.len() == 0
                && self.walked@.len() == 0
                && self.invalidated@ == Seq::<Seq<char>>::empty()
                && self.reconsidered@ == Seq::<Seq<char>>::empty(),
        }
    }

    /// The walks of the first `k` rivals are finished and covered.
    pub open spec fn rivals_covered(&self, k: int) -> bool {
        &&& self.walked@.len() == k
        &&& forall|i: int| 0 <= i < k ==> covers(
            hash_values(self.to_invalidate@),
            hash_values(self.branch@),
            self.join_height,
            #[trigger] self.walked@[i],
            self.rivals@[i]@,
        )
    }

    /// Whether the plan waits for an answer of the kind of `e`. A failure
    /// answers any command.
    pub open spec fn accepts(&self, e: MineEvent) -> bool {
        match self.stage {
            MineStage::Finished => false,
            MineStage::TargetBlock { .. } => e is Block || e is Failed,
            MineStage::BestHash { .. } => e is BestHash || e is Failed,
            MineStage::Branch { .. } => e is Block || e is Failed,
            MineStage::Tips { .. } => e is Tips || e is Failed,
            MineStage::Rival { .. } => e is Block || e is Failed,
            MineStage::Invalidating { .. } => e is Done || e is Failed,
            MineStage::Address { .. } => e is Address || e is Failed,
            MineStage::Generate { .. } => e is Mined || e is Failed,
            MineStage::Reconsidering { .. } => e is Done || e is Failed,
        }
    }

    /// After the walk of rival `k - 1` (or the listing of the tips, for
    /// `k == 0`): the walk of rival `k` starts; when no rival is left, the
    /// blocks set aside are invalidated, or, when there are none, an address
    /// is asked for.
    pub open spec fn moves_on(&self, parent: String, k: int, a: MineAction) -> bool {
        if k < self.rivals@.len() {
            self.stage == (MineStage::Rival { parent, next: k as usize, cursor: self.rivals@[k], last: None })
                && a == MineAction::GetBlock(self.rivals@[k])
        } else if self.to_invalidate@.len() > 0 {
            self.stage == (MineStage::Invalidating { parent, next: 0 })
                && a == MineAction::InvalidateBlock(self.to_invalidate@[0])
        } else {
            self.stage == (MineStage::Address { parent: Some(parent) }) && a == MineAction::GetNewAddress
        }
    }

    /// A plan that mines one block on the best chain; its first command asks
    /// for an address.
    pub fn on_best_chain() -> (r: (ForkMiner, MineAction))
        ensures
            r.0.wf(),
            r.0.stage == (MineStage::Address { parent: None }),
            r.0.to_invalidate@.len() == 0,
            r.1 == MineAction::GetNewAddress,
    {
        (
            ForkMiner {
                stage: MineStage::Address { parent: None },
                branch: Vec::new(),
                join_height: None,
                rivals: Vec::new(),
                to_invalidate: Vec::new(),
                invalidated: Ghost(Seq::empty()),
                reconsidered: Ghost(Seq::empty()),
                aside_facts: Ghost(Seq::empty()),
                walked: Ghost(Seq::empty()),
                walking: Ghost(Seq::empty()),
            },
            MineAction::GetNewAddress,
        )
    }

    /// A plan that mines one block on top of the block `parent`; its first
    /// command fetches that block.
    pub fn on_block(parent: String) -> (r: (ForkMiner, MineAction))
        ensures
            r.0.wf(),
            r.0.stage == (MineStage::TargetBlock { parent }),
            r.0.branch@.len() == 0,
            r.0.rivals@.len() == 0,
            r.0.to_invalidate@.len() == 0,
            r.1 == MineAction::GetBlock(parent),
    {
        let p = parent.clone();
        (
            ForkMiner {
                stage: MineStage::TargetBlock { parent },
                branch: Vec::new(),
                join_height: None,
                rivals: Vec::new(),
                to_invalidate: Vec::new(),
                invalidated: Ghost(Seq::empty()),
                reconsidered: Ghost(Seq::empty()),
                aside_facts: Ghost(Seq::empty()),
                walked: Ghost(Seq::empty()),
                walking: Ghost(Seq::empty()),
            },
            MineAction::GetBlock(p),
        )
    }

    /// Adding blocks to those set aside keeps finished walks covered.
    proof fn lemma_covers_grow(&self, before: Seq<Seq<char>>)
        requires
            forall|i: int| 0 <= i < before.len() ==> #[trigger] before[i] == hash_values(self.to_invalidate@)[i],
            before.len() <= self.to_invalidate@.len(),
        ensures
            forall|h: Seq<char>| before.contains(h) ==> #[trigger] hash_values(self.to_invalidate@).contains(h),
    {
        assert forall|h: Seq<char>| before.contains(h) implies #[trigger] hash_values(self.to_invalidate@).contains(h) by {
            let i = choose|i: int| 0 <= i < before.len() && before[i] == h;
            assert(hash_values(self.to_invalidate@)[i] == h);
        }
    }

    /// Starts the walk of rival `k`, or ends the planning.
    fn move_on(&mut self, parent: String, k: usize) -> (a: MineAction)
        requires
            old(self).stage is Finished,
            k <= old(self).rivals@.len(),
            old(self).aside_facts@.len() == old(self).to_invalidate@.len(),
            forall|i: int| 0 <= i < old(self).to_invalidate@.len() ==> !is_ancestor(
                hash_values(old(self).branch@),
                old(self).join_height,
                #[trigger] hash_values(old(self).to_invalidate@)[i],
                old(self).aside_facts@[i].0,
                old(self).aside_facts@[i].1,
            ),
            old(self).invalidated@ == Seq::<Seq<char>>::empty(),
            old(self).reconsidered@ == Seq::<Seq<char>>::empty(),
            old(self).rivals_covered(k as int),
        ensures
            final(self).wf(),
            final(self).moves_on(parent, k as int, a),
            final(self).branch == old(self).branch,
            final(self).join_height == old(self).join_height,
            final(self).rivals == old(self).rivals,
            final(self).to_invalidate == old(self).to_invalidate,
            a matches MineAction::InvalidateBlock(h) ==> final(self).invalidated@ == old(self).invalidated@.push(h@),
            !(a is InvalidateBlock) ==> final(self).invalidated == old(self).invalidated,
            final(self).reconsidered == old(self).reconsidered,
    {
        let ghost all = hash_values(self.to_invalidate@);
        proof {
            if self.to_invalidate@.len() == 0 {
                assert(all =~= Seq::<Seq<char>>::empty());
            }
        }
        if k < self.rivals.len() {
            let r = self.rivals[k].clone();
            let c = r.clone();
            self.stage = MineStage::Rival { parent, next: k, cursor: c, last: None };
            proof {
                self.walking@ = Seq::empty();
            }
            MineAction::GetBlock(r)
        } else if self.to_invalidate.len() > 0 {
            let h = self.to_invalidate[0].clone();
            self.stage = MineStage::Invalidating { parent, next: 0 };
            proof {
                self.invalidated@ = self.invalidated@.push(h@);
                assert(all.take(1) =~= Seq::<Seq<char>>::empty().push(h@));
            }
            MineAction::InvalidateBlock(h)
        } else {
            self.stage = MineStage::Address { parent: Some(parent) };
            MineAction::GetNewAddress
        }
    }

    /// Takes the answer to the last command and gives the next one.
    ///
    /// A failed command ends the plan with its message. Otherwise: the parent
    /// is fetched, then the best block hash. When the parent is the best
    /// block, one block is mined on the best chain. Otherwise the parent's
    /// branch is walked down to the first block on the active chain, the
    /// chain tips are listed, and each rival tip is walked back: the walk ends
    /// at an ancestor of the parent (setting aside the block passed just
    /// before it, if any), at a block already set aside, or at a block
    /// without a parent (which is set aside). The blocks set aside are
    /// invalidated, an address is asked for, one block is mined to it, and
    /// the blocks set aside are reconsidered before the reply.
    pub fn step(&mut self, event: MineEvent) -> (a: MineAction)
        requires
            old(self).wf(),
            old(self).accepts(event),
        ensures
            final(self).wf(),
            event matches MineEvent::Failed(msg) ==> final(self).stage is Finished && a == MineAction::Fail(msg)
                && final(self).to_invalidate == old(self).to_invalidate,
            old(self).stage matches MineStage::TargetBlock { parent }
                ==> event matches MineEvent::Block { height, prev, confirmations }
                ==> final(self).stage == (MineStage::BestHash { parent, height, prev, confirmations })
                && a == MineAction::GetBestBlockHash
                && final(self).to_invalidate == old(self).to_invalidate
                && final(self).branch == old(self).branch,
            old(self).stage matches MineStage::BestHash { parent, height, prev, confirmations }
                ==> event matches MineEvent::BestHash(best)
                ==> final(self).to_invalidate == old(self).to_invalidate && if parent@ == best@ {
                    final(self).stage == (MineStage::Address { parent: None }) && a == MineAction::GetNewAddress
                } else {
                    hash_values(final(self).branch@) == hash_values(old(self).branch@).push(parent@)
                    && if confirmations >= 0 {
                        final(self).join_height == Some(height)
                            && final(self).stage == (MineStage::Tips { parent }) && a == MineAction::GetChainTips
                    } else {
                        match prev {
                            Some(p) => final(self).stage == (MineStage::Branch { parent, cursor: p })
                                && a == MineAction::GetBlock(p),
                            None => final(self).join_height is None
                                && final(self).stage == (MineStage::Tips { parent }) && a == MineAction::GetChainTips,
                        }
                    }
                },
            old(self).stage matches MineStage::Branch { parent, cursor }
                ==> event matches MineEvent::Block { height, prev, confirmations }
                ==> final(self).to_invalidate == old(self).to_invalidate
                && hash_values(final(self).branch@) == hash_values(old(self).branch@).push(cursor@)
                && if confirmations >= 0 {
                    final(self).join_height == Some(height)
                        && final(self).stage == (MineStage::Tips { parent }) && a == MineAction::GetChainTips
                } else {
                    match prev {
                        Some(p) => final(self).stage == (MineStage::Branch { parent, cursor: p })
                            && a == MineAction::GetBlock(p),
                        None => final(self).join_height is None
                            && final(self).stage == (MineStage::Tips { parent }) && a == MineAction::GetChainTips,
                    }
                },
            old(self).stage matches MineStage::Tips { parent }
                ==> event matches MineEvent::Tips(tips)
                ==> hash_values(final(self).rivals@) == rivals_of(tips@, parent@)
                && final(self).to_invalidate == old(self).to_invalidate
                && final(self).branch == old(self).branch
                && final(self).join_height == old(self).join_height
                && final(self).moves_on(parent, 0, a),
            old(self).stage matches MineStage::Rival { parent, next, cursor, last }
                ==> event matches MineEvent::Block { height, prev, confirmations }
                ==> final(self).branch == old(self).branch
                && final(self).join_height == old(self).join_height
                && final(self).rivals == old(self).rivals
                && if is_ancestor(hash_values(old(self).branch@), old(self).join_height, cursor@, height, confirmations) {
                    final(self).to_invalidate@ == match last {
                        Some(x) => old(self).to_invalidate@.push(x),
                        None => old(self).to_invalidate@,
                    } && final(self).moves_on(parent, next + 1, a)
                } else if hash_values(old(self).to_invalidate@).contains(cursor@) {
                    final(self).to_invalidate == old(self).to_invalidate && final(self).moves_on(parent, next + 1, a)
                } else {
                    match prev {
                        Some(p) => final(self).to_invalidate == old(self).to_invalidate
                            && final(self).stage == (MineStage::Rival { parent, next, cursor: p, last: Some(cursor) })
                            && a == MineAction::GetBlock(p),
                        None => final(self).to_invalidate@ == old(self).to_invalidate@.push(cursor)
                            && final(self).moves_on(parent, next + 1, a),
                    }
                },
            old(self).stage matches MineStage::Invalidating { parent, next }
                ==> event matches MineEvent::Done
                ==> final(self).to_invalidate == old(self).to_invalidate && if next + 1 < old(self).to_invalidate@.len() {
                    final(self).stage == (MineStage::Invalidating { parent, next: (next + 1) as usize })
                        && a == MineAction::InvalidateBlock(old(self).to_invalidate@[next + 1])
                } else {
                    final(self).stage == (MineStage::Address { parent: Some(parent) }) && a == MineAction::GetNewAddress
                },
            old(self).stage matches MineStage::Address { parent } ==> event matches MineEvent::Address(address)
                ==> final(self).stage == (MineStage::Generate { parent, address })
                && a == (MineAction::GenerateToAddress { count: 1, address })
                && final(self).to_invalidate == old(self).to_invalidate,
            old(self).stage matches MineStage::Generate { parent, address } ==> event matches MineEvent::Mined(mined)
                ==> final(self).to_invalidate == old(self).to_invalidate && match parent {
                    None => final(self).stage is Finished
                        && a == MineAction::Reply(MineReply { mined, address, fork: None }),
                    Some(p) => if old(self).to_invalidate@.len() > 0 {
                        final(self).stage == (MineStage::Reconsidering { parent: p, next: 0, address, mined })
                            && a == MineAction::ReconsiderBlock(old(self).to_invalidate@[0])
                    } else {
                        final(self).stage is Finished && a == MineAction::Reply(MineReply {
                            mined,
                            address,
                            fork: Some(ForkNote { parent: p, fork_created: false }),
                        })
                    },
                },
            old(self).stage matches MineStage::Reconsidering { parent, next, address, mined }
                ==> event matches MineEvent::Done
                ==> final(self).to_invalidate == old(self).to_invalidate && if next + 1 < old(self).to_invalidate@.len() {
                    final(self).stage == (MineStage::Reconsidering { parent, next: (next + 1) as usize, address, mined })
                        && a == MineAction::ReconsiderBlock(old(self).to_invalidate@[next + 1])
                } else {
                    final(self).stage is Finished && a == MineAction::Reply(MineReply {
                        mined,
                        address,
                        fork: Some(ForkNote { parent, fork_created: old(self).to_invalidate@.len() > 0 }),
                    })
                },
            a matches MineAction::InvalidateBlock(h) ==> final(self).invalidated@ == old(self).invalidated@.push(h@)
                && final(self).reconsidered == old(self).reconsidered,
            a matches MineAction::ReconsiderBlock(h) ==> final(self).reconsidered@ == old(self).reconsidered@.push(h@)
                && final(self).invalidated == old(self).invalidated,
            !(a is InvalidateBlock) && !(a is ReconsiderBlock) ==> final(self).invalidated == old(self).invalidated
                && final(self).reconsidered == old(self).reconsidered,
            a is GenerateToAddress ==> final(self).invalidated@ == hash_values(final(self).to_invalidate@)
                && final(self).reconsidered@ == Seq::<Seq<char>>::empty(),
            (a is GenerateToAddress && final(self).stage matches MineStage::Generate { parent: Some(_), .. }) ==> {
                &&& final(self).rivals_covered(final(self).rivals@.len() as int)
                &&& forall|i: int| 0 <= i < final(self).to_invalidate@.len() ==> !is_ancestor(
                    hash_values(final(self).branch@),
                    final(self).join_height,
                    #[trigger] hash_values(final(self).to_invalidate@)[i],
                    final(self).aside_facts@[i].0,
                    final(self).aside_facts@[i].1,
                )
                &&& forall|i: int| 0 <= i < final(self).to_invalidate@.len()
                    ==> !hash_values(final(self).branch@).contains(#[trigger] final(self).to_invalidate@[i]@)
                &&& forall|i: int| 0 <= i < final(self).to_invalidate@.len()
                    && (#[trigger] final(self).aside_facts@[i]).1 >= 0 && final(self).join_height is Some
                    ==> final(self).aside_facts@[i].0 > final(self).join_height->0
            },
            a matches MineAction::Reply(r) ==> final(self).invalidated@ == hash_values(final(self).to_invalidate@)
                && final(self).reconsidered@ == hash_values(final(self).to_invalidate@)
                && match r.fork {
                    Some(note) => note.fork_created == (final(self).to_invalidate@.len() > 0),
                    None => final(self).to_invalidate@.len() == 0,
                },
    {
        let mut stage = MineStage::Finished;
        std::mem::swap(&mut stage, &mut self.stage);
        assert(stage == old(self).stage);
        let ghost all = hash_values(self.to_invalidate@);
        proof {
            if self.to_invalidate@.len() == 0 {
                assert(all =~= Seq::<Seq<char>>::empty());
            }
        }
        if let MineEvent::Failed(msg) = event {
            return MineAction::Fail(msg);
        }
        match stage {
            MineStage::Finished => {
                MineAction::Fail(String::new())
            },
            MineStage::TargetBlock { parent } => {
                match event {
                    MineEvent::Block { height, prev, confirmations } => {
                        self.stage = MineStage::BestHash { parent, height, prev, confirmations };
                        MineAction::GetBestBlockHash
                    },
                    _ => MineAction::Fail(String::new()),
                }
            },
            MineStage::BestHash { parent, height, prev, confirmations } => {
                match event {
                    MineEvent::BestHash(best) => {
                        if parent == best {
                            self.stage = MineStage::Address { parent: None };
                            MineAction::GetNewAddress
                        } else {
                            let ghost pv = parent@;
                            let ghost old_branch = hash_values(self.branch@);
                            self.branch.push(parent.clone());
                            proof {
                                assert(hash_values(self.branch@) =~= old_branch.push(pv));
                            }
                            self.descend(parent, height, prev, confirmations)
                        }
                    },
                    _ => MineAction::Fail(String::new()),
                }
            },
            MineStage::Branch { parent, cursor } => {
                match event {
                    MineEvent::Block { height, prev, confirmations } => {
                        let ghost cv = cursor@;
                        let ghost old_branch = hash_values(self.branch@);
                        self.branch.push(cursor);
                        proof {
                            assert(hash_values(self.branch@) =~= old_branch.push(cv));
                        }
                        self.descend(parent, height, prev, confirmations)
                    },
                    _ => MineAction::Fail(String::new()),
                }
            },
            MineStage::Tips { parent } => {
                match event {
                    MineEvent::Tips(tips) => {
                        self.rivals = select_rivals(&tips, &parent);
                        self.move_on(parent, 0)
                    },
                    _ => MineAction::Fail(String::new()),
                }
            },
            MineStage::Rival { parent, next, cursor, last } => {
                match event {
                    MineEvent::Block { height, prev, confirmations } => {
                        let ghost br = hash_values(self.branch@);
                        let rivals_len = self.rivals.len();
                        assert(next < rivals_len);
                        let on_branch = holds_hash(&self.branch, &cursor);
                        let below_join = match self.join_height {
                            Some(j) => confirmations >= 0 && height <= j,
                            None => false,
                        };
                        let ghost here = Visit {
                            hash: cursor@,
                            prev: crate::block::opt_view(prev),
                            height,
                            confirmations,
                        };
                        let ghost path = self.walking@.push(here);
                        proof {
                            let w = self.walking@;
                            assert forall|i: int| 0 <= i < path.len() - 1 implies #[trigger] path[i].prev == Some(path[i + 1].hash) by {
                                if i < w.len() - 1 {
                                    assert(w[i].prev == Some(w[i + 1].hash));
                                }
                            }
                        }
                        if on_branch || below_join {
                            match last {
                                Some(x) => {
                                    let ghost xv = x@;
                                    self.to_invalidate.push(x);
                                    proof {
                                        let w = self.walking@;
                                        self.aside_facts@ = self.aside_facts@.push((w.last().height, w.last().confirmations));
                                        assert(hash_values(self.to_invalidate@) =~= all.push(xv));
                                        assert(hash_values(self.to_invalidate@)[all.len() as int] == xv);
                                        assert(hash_values(self.to_invalidate@).contains(path[path.len() - 2].hash));
                                    }
                                },
                                None => {},
                            }
                            proof {
                                self.lemma_covers_grow(all);
                                lemma_still_covered(all, hash_values(self.to_invalidate@), hash_values(self.branch@),
                                    self.join_height, self.walked@, self.rivals@, next as int);
                                self.walked@ = self.walked@.push(path);
                                assert(covers(hash_values(self.to_invalidate@), hash_values(self.branch@), self.join_height, path, self.rivals@[next as int]@));
                            }
                            self.move_on(parent, next + 1)
                        } else if holds_hash(&self.to_invalidate, &cursor) {
                            proof {
                                assert(hash_values(self.to_invalidate@).contains(path[path.len() - 1].hash));
                                self.walked@ = self.walked@.push(path);
                                assert(covers(hash_values(self.to_invalidate@), hash_values(self.branch@), self.join_height, path, self.rivals@[next as int]@));
                            }
                            self.move_on(parent, next + 1)
                        } else {
                            match prev {
                                Some(p) => {
                                    let q = p.clone();
                                    self.stage = MineStage::Rival { parent, next, cursor: p, last: Some(cursor) };
                                    proof {
                                        self.walking@ = path;
                                    }
                                    MineAction::GetBlock(q)
                                },
                                None => {
                                    let ghost cv = cursor@;
                                    self.to_invalidate.push(cursor);
                                    proof {
                                        self.aside_facts@ = self.aside_facts@.push((height, confirmations));
                                        assert(hash_values(self.to_invalidate@) =~= all.push(cv));
                                        assert(hash_values(self.to_invalidate@)[all.len() as int] == cv);
                                        assert(hash_values(self.to_invalidate@).contains(path[path.len() - 1].hash));
                                        self.lemma_covers_grow(all);
                                        lemma_still_covered(all, hash_values(self.to_invalidate@), hash_values(self.branch@),
                                            self.join_height, self.walked@, self.rivals@, next as int);
                                        self.walked@ = self.walked@.push(path);
                                        assert(covers(hash_values(self.to_invalidate@), hash_values(self.branch@), self.join_height, path, self.rivals@[next as int]@));
                                    }
                                    self.move_on(parent, next + 1)
                                },
                            }
                        }
                    },
                    _ => MineAction::Fail(String::new()),
                }
            },
            MineStage::Invalidating { parent, next } => {
                let n = self.to_invalidate.len();
                assert(next < n);
                if next + 1 < n {
                    let h = self.to_invalidate[next + 1].clone();
                    self.stage = MineStage::Invalidating { parent, next: next + 1 };
                    proof {
                        self.invalidated@ = self.invalidated@.push(h@);
                        assert(all.take(next + 2) =~= all.take(next + 1).push(h@));
                    }
                    MineAction::InvalidateBlock(h)
                } else {
                    self.stage = MineStage::Address { parent: Some(parent) };
                    proof {
                        assert(all.take(next + 1) =~= all);
                    }
                    MineAction::GetNewAddress
                }
            },
            MineStage::Address { parent } => {
                match event {
                    MineEvent::Address(address) => {
                        let a = address.clone();
                        self.stage = MineStage::Generate { parent, address };
                        proof {
                            law_no_ancestor_is_set_aside(*self);
                        }
                        MineAction::GenerateToAddress { count: 1, address: a }
                    },
                    _ => MineAction::Fail(String::new()),
                }
            },
            MineStage::Generate { parent, address } => {
                match event {
                    MineEvent::Mined(mined) => {
                        match parent {
                            None => MineAction::Reply(MineReply { mined, address, fork: None }),
                            Some(p) => {
                                if self.to_invalidate.len() > 0 {
                                    let h = self.to_invalidate[0].clone();
                                    self.stage = MineStage::Reconsidering { parent: p, next: 0, address, mined };
                                    proof {
                                        self.reconsidered@ = self.reconsidered@.push(h@);
                                        assert(all.take(1) =~= Seq::<Seq<char>>::empty().push(h@));
                                    }
                                    MineAction::ReconsiderBlock(h)
                                } else {
                                    MineAction::Reply(MineReply {
                                        mined,
                                        address,
                                        fork: Some(ForkNote { parent: p, fork_created: false }),
                                    })
                                }
                            },
                        }
                    },
                    _ => MineAction::Fail(String::new()),
                }
            },
            MineStage::Reconsidering { parent, next, address, mined } => {
                let n = self.to_invalidate.len();
                assert(next < n);
                if next + 1 < n {
                    let h = self.to_invalidate[next + 1].clone();
                    self.stage = MineStage::Reconsidering { parent, next: next + 1, address, mined };
                    proof {
                        self.reconsidered@ = self.reconsidered@.push(h@);
                        assert(all.take(next + 2) =~= all.take(next + 1).push(h@));
                    }
                    MineAction::ReconsiderBlock(h)
                } else {
                    proof {
                        assert(all.take(next + 1) =~= all);
                    }
                    let created = self.to_invalidate.len() > 0;
                    MineAction::Reply(MineReply { mined, address, fork: Some(ForkNote { parent, fork_created: created }) })
                }
            },
        }
    }

    /// After a block of the parent's branch was described: the branch joins
    /// the active chain at it, or the walk goes on to its parent, or it ends
    /// at a block without a parent. When the branch walk ends, the tips are
    /// listed.
    fn descend(&mut self, parent: String, height: u64, prev: Option<String>, confirmations: i64) -> (a: MineAction)
        requires
            old(self).stage is Finished,
            old(self).to_invalidate@.len() == 0,
            old(self).aside_facts@.len() == 0,
            old(self).walked@.len() == 0,
            old(self).invalidated@ == Seq::<Seq<char>>::empty(),
            old(self).reconsidered@ == Seq::<Seq<char>>::empty(),
        ensures
            final(self).wf(),
            final(self).to_invalidate == old(self).to_invalidate,
            final(self).branch == old(self).branch,
            final(self).invalidated == old(self).invalidated,
            final(self).reconsidered == old(self).reconsidered,
            if confirmations >= 0 {
                final(self).join_height == Some(height)
                    && final(self).stage == (MineStage::Tips { parent }) && a == MineAction::GetChainTips
            } else {
                match prev {
                    Some(p) => final(self).stage == (MineStage::Branch { parent, cursor: p })
                        && a == MineAction::GetBlock(p),
                    None => final(self).join_height is None
                        && final(self).stage == (MineStage::Tips { parent }) && a == MineAction::GetChainTips,
                }
            },
    {
        proof {
            assert(hash_values(self.to_invalidate@) =~= Seq::<Seq<char>>::empty());
        }
        if confirmations >= 0 {
            self.join_height = Some(height);
            self.stage = MineStage::Tips { parent };
            MineAction::GetChainTips
        } else {
            match prev {
                Some(p) => {
                    let q = p.clone();
                    self.stage = MineStage::Branch { parent, cursor: p };
                    MineAction::GetBlock(q)
                },
                None => {
                    self.join_height = None;
                    self.stage = MineStage::Tips { parent };
                    MineAction::GetChainTips
                },
            }
        }
    }
}

/// No block that a plan sets aside is an ancestor of the parent, as the node
/// described it: none lies on the parent's branch, and none is a block that
/// the node reported on the active chain (non-negative confirmations) at or
/// below the height where the parent's branch joins the active chain. So
/// invalidating the blocks set aside never invalidates the parent.
pub proof fn law_no_ancestor_is_set_aside(m: ForkMiner)
    requires
        m.wf(),
    ensures
        forall|i: int| 0 <= i < m.to_invalidate@.len()
            ==> !hash_values(m.branch@).contains(#[trigger] m.to_invalidate@[i]@),
        forall|i: int| 0 <= i < m.to_invalidate@.len() && (#[trigger] m.aside_facts@[i]).1 >= 0
            && m.join_height is Some ==> m.aside_facts@[i].0 > m.join_height->0,
{
    assert forall|i: int| 0 <= i < m.to_invalidate@.len()
        implies !hash_values(m.branch@).contains(#[trigger] m.to_invalidate@[i]@) by {
        assert(hash_values(m.to_invalidate@)[i] == m.to_invalidate@[i]@);
    }
    assert forall|i: int| 0 <= i < m.to_invalidate@.len() && (#[trigger] m.aside_facts@[i]).1 >= 0
        && m.join_height is Some implies m.aside_facts@[i].0 > m.join_height->0 by {
        assert(hash_values(m.to_invalidate@)[i] == m.to_invalidate@[i]@);
    }
}

/// A block that the node reported on the active chain at or below the
/// height where the parent's branch joins it is an ancestor of the parent,
/// whatever its hash; so is every block of the parent's branch.
pub proof fn law_active_below_join_is_ancestor(
    branch: Seq<Seq<char>>,
    j: u64,
    h: Seq<char>,
    height: u64,
    confirmations: i64,
)
    requires
        confirmations >= 0,
        height <= j,
    ensures
        is_ancestor(branch, Some(j), h, height, confirmations),
        forall|b: Seq<char>| branch.contains(b) ==> is_ancestor(branch, Some(j), b, 0u64, -1i64),
{
}

} // verus!
