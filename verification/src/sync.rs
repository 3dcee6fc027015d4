//! Rebuilding the block tree: from every chain tip, walk back along parent
//! links and fetch each block that the new tree does not hold yet.
//!
//! The walk is driven from outside: `next_action` says which block to fetch
//! next, and `on_fetched` takes what the node answered.
use vstd::prelude::*;

use crate::block::{opt_view, BlockNode, BlockNodeView};
use crate::fork::hash_values;
use crate::store::BlockStore;

verus! {

/// What the rebuild needs next.
pub enum SyncAction {
    /// Fetch the block with this hash and hand it to `on_fetched`.
    Fetch(String),
    /// Every tip has been walked back as far as it goes.
    Finished,
}

/// A rebuild of the block tree in progress.
pub struct SyncWalk {
    /// Hashes of the chain tips, in the order in which they are walked.
    pub tips: Vec<String>,
    /// Index of the next tip whose walk has not started.
    pub next_tip: usize,
    /// The hash the current walk has reached, if it goes on.
    pub cursor: Option<String>,
    /// The tree rebuilt so far.
    pub store: BlockStore,
    /// Hashes whose fetch failed.
    pub failed: Ghost<Set<Seq<char>>>,
    /// The node's latest answer for each hash fetched: the block, or `None`
    /// when the fetch failed.
    pub answers: Ghost<Answers>,
}

/// What a node answers for block hashes: the block, or `None` when it
/// cannot give it.
pub type Answers = Map<Seq<char>, Option<BlockNodeView>>;

/// The hash reached from `from` after following `k` parent links through the
/// blocks that `n` gives; a walk stops at a hash that `n` gives no block for.
pub open spec fn chase(n: Answers, from: Seq<char>, k: nat) -> Option<Seq<char>>
    decreases k,
{
    if k == 0 {
        Some(from)
    } else {
        match chase(n, from, (k - 1) as nat) {
            Some(h) => if n.contains_key(h) && n[h] is Some { n[h]->0.prev_hash } else { None },
            None => None,
        }
    }
}

/// `h` is reached from one of `tips` by following parent links through the
/// blocks that `n` gives.
pub open spec fn reached(n: Answers, tips: Seq<Seq<char>>, h: Seq<char>) -> bool {
    exists|t: int, k: nat| 0 <= t < tips.len() && #[trigger] chase(n, tips[t], k) == Some(h)
}

/// The tree that a rebuild from `tips` ought to give on a node that answers
/// `n`: every block reached from a tip, as the node gives it.
pub open spec fn rebuilt_tree(n: Answers, tips: Seq<Seq<char>>) -> Map<Seq<char>, BlockNodeView> {
    Map::new(
        |h: Seq<char>| reached(n, tips, h) && n.contains_key(h) && n[h] is Some,
        |h: Seq<char>| n[h]->0,
    )
}

/// `n2` gives every block that `n1` gives, unchanged.
pub open spec fn keeps_blocks(n1: Answers, n2: Answers) -> bool {
    forall|h: Seq<char>| #[trigger] n1.contains_key(h) && n1[h] is Some ==> n2.contains_key(h) && n2[h] == n1[h]
}

/// Every answer in `answers` is what `node` answers.
pub open spec fn agrees(answers: Answers, node: Answers) -> bool {
    forall|h: Seq<char>| #[trigger] answers.contains_key(h) ==> node.contains_key(h) && node[h] == answers[h]
}

proof fn lemma_chase_kept(n1: Answers, n2: Answers, from: Seq<char>, k: nat)
    requires
        keeps_blocks(n1, n2),
        chase(n1, from, k) is Some,
    ensures
        chase(n2, from, k) == chase(n1, from, k),
    decreases k,
{
    if k > 0 {
        let x = chase(n1, from, (k - 1) as nat);
        lemma_chase_kept(n1, n2, from, (k - 1) as nat);
        assert(n1.contains_key(x->0) && n1[x->0] is Some);
    }
}

proof fn lemma_reached_kept(n1: Answers, n2: Answers, tips1: Seq<Seq<char>>, tips2: Seq<Seq<char>>, h: Seq<char>)
    requires
        keeps_blocks(n1, n2),
        tips1.len() <= tips2.len(),
        forall|i: int| 0 <= i < tips1.len() ==> tips1[i] == tips2[i],
        reached(n1, tips1, h),
    ensures
        reached(n2, tips2, h),
{
    let (t, k) = choose|t: int, k: nat| 0 <= t < tips1.len() && #[trigger] chase(n1, tips1[t], k) == Some(h);
    lemma_chase_kept(n1, n2, tips1[t], k);
    assert(chase(n2, tips2[t], k) == Some(h));
}

impl SyncWalk {
    /// `h` is held by the new tree or could not be fetched.
    pub open spec fn settled(&self, h: Seq<char>) -> bool {
        self.store.map().contains_key(h) || self.failed@.contains(h)
    }

    /// A fetch is outstanding: the walk has reached a hash that the new tree
    /// does not hold.
    pub open spec fn pending(&self) -> bool {
        match self.cursor {
            Some(h) => !self.store.map().contains_key(h@),
            None => false,
        }
    }

    /// The bookkeeping of the walk holds: every tip whose walk started is
    /// settled unless the current walk is still at it, and the parent of every
    /// block of the new tree is settled unless the current walk is at it.
    pub open spec fn wf(&self) -> bool {
        &&& self.next_tip <= self.tips@.len()
        &&& forall|j: int| 0 <= j < self.next_tip ==>
            self.settled(#[trigger] self.tips@[j]@) || (j == self.next_tip - 1 && opt_view(self.cursor) == Some(self.tips@[j]@))
        &&& forall|k: Seq<char>| #[trigger] self.store.map().contains_key(k) && self.store.map()[k].prev_hash is Some ==>
            self.settled(self.store.map()[k].prev_hash->0) || opt_view(self.cursor) == self.store.map()[k].prev_hash
    }

    /// The tips whose walk has started.
    pub open spec fn started(&self) -> Seq<Seq<char>> {
        hash_values(self.tips@).take(self.next_tip as int)
    }

    /// What the new tree holds is what the node answered: every stored block
    /// is the node's latest answer for its hash, every block the node gave is
    /// stored, every failed hash that is not stored was last answered with
    /// nothing, and every stored block and the walk's position are reached
    /// from a started tip.
    pub open spec fn traced(&self) -> bool {
        let a = self.answers@;
        let m = self.store.map();
        &&& forall|k: Seq<char>| #[trigger] m.contains_key(k) ==> a.contains_key(k) && a[k] == Some(m[k])
        &&& forall|k: Seq<char>| #[trigger] a.contains_key(k) && a[k] is Some ==> m.contains_key(k)
        &&& forall|k: Seq<char>| #[trigger] self.failed@.contains(k) && !m.contains_key(k) ==> a.contains_key(k) && a[k] is None
        &&& forall|k: Seq<char>| #[trigger] m.contains_key(k) ==> reached(a, self.started(), k)
        &&& self.cursor matches Some(c) ==> reached(a, self.started(), c@)
    }

    /// The rebuild is over: every tip has been walked back.
    pub open spec fn finished(&self) -> bool {
        self.wf() && self.traced() && self.next_tip == self.tips@.len() && self.cursor is None
    }

    /// A rebuild that has fetched nothing and will walk back from `tips`.
    pub fn new(tips: Vec<String>) -> (w: Self)
        ensures
            w.wf(),
            w.tips == tips,
            w.next_tip == 0,
            w.cursor is None,
            w.store@.len() == 0,
            w.store.map() == Map::<Seq<char>, crate::block::BlockNodeView>::empty(),
            w.failed@ == Set::<Seq<char>>::empty(),
            w.traced(),
    {
        SyncWalk {
            tips,
            next_tip: 0,
            cursor: None,
            store: BlockStore::new(),
            failed: Ghost(Set::empty()),
            answers: Ghost(Map::empty()),
        }
    }

    /// Says what to do next. While a fetch is outstanding, it is that fetch.
    /// Otherwise the walk moves on to the next tip, skipping tips that the
    /// new tree already holds, and asks for the first tip it does not hold;
    /// when no tip is left the rebuild is finished. Only the walk position
    /// changes.
    #[verifier::rlimit(60)]
    pub fn next_action(&mut self) -> (a: SyncAction)
        requires
            old(self).wf(),
            old(self).traced(),
        ensures
            final(self).wf(),
            final(self).traced(),
            final(self).tips == old(self).tips,
            final(self).store == old(self).store,
            final(self).failed == old(self).failed,
            final(self).answers == old(self).answers,
            a is Finished ==> final(self).finished(),
            old(self).next_tip <= final(self).next_tip <= final(self).tips@.len(),
            old(self).pending() ==> final(self).next_tip == old(self).next_tip && final(self).cursor == old(self).cursor
                && a == SyncAction::Fetch(old(self).cursor->0),
            !old(self).pending() ==> forall|j: int| old(self).next_tip <= j < final(self).next_tip - 1
                ==> old(self).store.map().contains_key(#[trigger] old(self).tips@[j]@),
            !old(self).pending() ==> match a {
                SyncAction::Fetch(h) => final(self).next_tip > old(self).next_tip
                    && h == final(self).tips@[final(self).next_tip - 1]
                    && final(self).cursor == Some(h),
                SyncAction::Finished => final(self).next_tip == final(self).tips@.len()
                    && (old(self).next_tip < final(self).next_tip
                        ==> old(self).store.map().contains_key(final(self).tips@[final(self).next_tip - 1]@))
                    && final(self).cursor is None,
            },
            a matches SyncAction::Fetch(h) ==> final(self).pending() && !final(self).store.map().contains_key(h@),
            a is Finished ==> forall|j: int| 0 <= j < final(self).tips@.len() ==> final(self).settled(#[trigger] final(self).tips@[j]@),
            a is Finished ==> forall|k: Seq<char>| #[trigger] final(self).store.map().contains_key(k)
                && final(self).store.map()[k].prev_hash is Some ==> final(self).settled(final(self).store.map()[k].prev_hash->0),
    {
        let ghost start = self.next_tip;
        loop
            invariant
                self.wf(),
                self.traced(),
                self.tips == old(self).tips,
                self.store == old(self).store,
                self.failed == old(self).failed,
                self.answers == old(self).answers,
                old(self).next_tip <= self.next_tip <= self.tips@.len(),
                start == old(self).next_tip,
                old(self).pending() ==> self.next_tip == old(self).next_tip && self.cursor == old(self).cursor,
                !old(self).pending() ==> forall|j: int| old(self).next_tip <= j < self.next_tip - 1
                    ==> old(self).store.map().contains_key(#[trigger] old(self).tips@[j]@),
                !old(self).pending() && self.next_tip > old(self).next_tip ==>
                    self.cursor == Some(self.tips@[self.next_tip - 1]),
                !old(self).pending() && self.next_tip == old(self).next_tip ==> self.cursor == old(self).cursor,
            ensures
                self.wf(),
                self.traced(),
                self.tips == old(self).tips,
                self.store == old(self).store,
                self.failed == old(self).failed,
                self.answers == old(self).answers,
                old(self).next_tip <= self.next_tip <= self.tips@.len(),
            decreases self.tips@.len() - self.next_tip,
        {
            if let Some(h) = &self.cursor {
                if !self.store.contains_key(h) {
                    return SyncAction::Fetch(h.clone());
                }
            }
            if self.next_tip < self.tips.len() {
                let t = self.tips[self.next_tip].clone();
                let ghost before = self.started();
                let ghost a = self.answers@;
                let ghost tv = t@;
                self.cursor = Some(t);
                self.next_tip = self.next_tip + 1;
                proof {
                    let now = self.started();
                    assert(now.len() == before.len() + 1);
                    assert forall|i: int| 0 <= i < before.len() implies before[i] == now[i] by {}
                    assert forall|k: Seq<char>| #[trigger] self.store.map().contains_key(k) implies reached(a, now, k) by {
                        lemma_reached_kept(a, a, before, now, k);
                    }
                    assert(chase(a, now[before.len() as int], 0) == Some(tv));
                }
            } else {
                self.cursor = None;
                return SyncAction::Finished;
            }
        }
    }

    /// Takes the node's answer to the outstanding fetch: the block, or
    /// `None` when the fetch failed. A fetched block goes into the new tree
    /// under the hash that was asked for, and the walk goes on to its parent
    /// (or stops at a block without one); a failed fetch stops this walk.
    pub fn on_fetched(&mut self, fetched: Option<BlockNode>)
        requires
            old(self).wf(),
            old(self).traced(),
            old(self).pending(),
        ensures
            final(self).wf(),
            final(self).traced(),
            final(self).answers@ == old(self).answers@.insert(old(self).cursor->0@, match fetched {
                Some(node) => Some(node@),
                None => None,
            }),
            final(self).tips == old(self).tips,
            final(self).next_tip == old(self).next_tip,
            match fetched {
                Some(node) => final(self).store.map() == old(self).store.map().insert(old(self).cursor->0@, node@)
                    && final(self).cursor == node.prev_hash
                    && final(self).failed == old(self).failed,
                None => final(self).store == old(self).store
                    && final(self).cursor is None
                    && final(self).failed@ == old(self).failed@.insert(old(self).cursor->0@),
            },
    {
        let h = match &self.cursor {
            Some(h) => h.clone(),
            None => {
                return;
            },
        };
        match fetched {
            Some(node) => {
                let prev = crate::block::copy_opt_string(&node.prev_hash);
                let ghost a = self.answers@;
                let ghost hv = h@;
                let ghost nv = node@;
                let ghost st = self.started();
                self.store.insert(h, node);
                self.cursor = prev;
                proof {
                    self.answers@ = a.insert(hv, Some(nv));
                    let a2 = self.answers@;
                    assert(keeps_blocks(a, a2));
                    assert forall|k: Seq<char>| #[trigger] self.store.map().contains_key(k) implies reached(a2, st, k) by {
                        if k != hv {
                            lemma_reached_kept(a, a2, st, st, k);
                        } else {
                            lemma_reached_kept(a, a2, st, st, hv);
                        }
                    }
                    lemma_reached_kept(a, a2, st, st, hv);
                    if self.cursor is Some {
                        let (t, k) = choose|t: int, k: nat| 0 <= t < st.len() && #[trigger] chase(a2, st[t], k) == Some(hv);
                        assert(chase(a2, st[t], k + 1) == nv.prev_hash);
                    }
                }
            },
            None => {
                let ghost a = self.answers@;
                let ghost hv = h@;
                let ghost st = self.started();
                self.cursor = None;
                proof {
                    self.failed@ = self.failed@.insert(hv);
                    self.answers@ = a.insert(hv, None);
                    let a2 = self.answers@;
                    assert(keeps_blocks(a, a2));
                    assert forall|k: Seq<char>| #[trigger] self.store.map().contains_key(k) implies reached(a2, st, k) by {
                        lemma_reached_kept(a, a2, st, st, k);
                    }
                }
            },
        }
    }
}

/// Every hash reached from a tip through what a node answered is settled by
/// a finished rebuild that agrees with that node.
proof fn lemma_chase_settled(w: SyncWalk, node: Answers, t: int, j: nat)
    requires
        w.finished(),
        agrees(w.answers@, node),
        0 <= t < w.tips@.len(),
    ensures
        chase(node, w.tips@[t]@, j) matches Some(x) ==> w.settled(x),
    decreases j,
{
    if j > 0 {
        lemma_chase_settled(w, node, t, (j - 1) as nat);
        let prev = chase(node, w.tips@[t]@, (j - 1) as nat);
        if prev is Some {
            let x = prev->0;
            if node.contains_key(x) && node[x] is Some {
                if w.store.map().contains_key(x) {
                    assert(w.answers@[x] == Some(w.store.map()[x]));
                } else {
                    assert(w.failed@.contains(x));
                    assert(w.answers@.contains_key(x));
                }
            }
        }
    } else {
        assert(w.settled(w.tips@[t]@));
    }
}

/// A finished rebuild that agrees with a node holds exactly the tree that a
/// rebuild from its tips ought to give on that node.
pub proof fn law_rebuild_gives_the_node_tree(w: SyncWalk, node: Answers)
    requires
        w.finished(),
        agrees(w.answers@, node),
    ensures
        w.store.map() == rebuilt_tree(node, hash_values(w.tips@)),
{
    let tips = hash_values(w.tips@);
    let a = w.answers@;
    let m = w.store.map();
    assert(w.started() =~= tips);
    assert(keeps_blocks(a, node));
    let r = rebuilt_tree(node, tips);
    assert forall|k: Seq<char>| m.contains_key(k) <==> #[trigger] r.contains_key(k) by {
        if m.contains_key(k) {
            lemma_reached_kept(a, node, tips, tips, k);
        }
        if r.contains_key(k) {
            let (t, j) = choose|t: int, j: nat| 0 <= t < tips.len() && #[trigger] chase(node, tips[t], j) == Some(k);
            assert(tips[t] == w.tips@[t]@);
            lemma_chase_settled(w, node, t, j);
            if !m.contains_key(k) {
                assert(a.contains_key(k));
            }
        }
    }
    assert forall|k: Seq<char>| #[trigger] m.contains_key(k) implies m[k] == r[k] by {
        assert(r.contains_key(k));
        assert(a[k] == Some(m[k]));
        assert(node[k] == a[k]);
    }
    assert(m =~= r);
}

/// A rebuild depends only on the node: two finished rebuilds from the same
/// tips on a node that answers the same throughout give the same tree.
pub proof fn law_rebuild_depends_only_on_the_node(w1: SyncWalk, w2: SyncWalk, node: Answers)
    requires
        w1.finished(),
        w2.finished(),
        hash_values(w1.tips@) == hash_values(w2.tips@),
        agrees(w1.answers@, node),
        agrees(w2.answers@, node),
    ensures
        w1.store.map() == w2.store.map(),
{
    law_rebuild_gives_the_node_tree(w1, node);
    law_rebuild_gives_the_node_tree(w2, node);
}

} // verus!
