//! Deciding, on each poll of the node, whether the tree must be rebuilt.
use vstd::prelude::*;

use crate::block::BlockNodeView;
use crate::chain::installed_tree;
use crate::event::BlockEvent;
use crate::sync::{chase, reached, rebuilt_tree, Answers};

verus! {

/// The hashes that a list of chain tips holds.
pub open spec fn tip_set(tips: Seq<String>) -> Set<Seq<char>> {
    Set::new(|h: Seq<char>| exists|i: int| 0 <= i < tips.len() && #[trigger] tips[i]@ == h)
}

/// Whether `h` is among `tips`.
fn holds_tip(tips: &Vec<String>, h: &String) -> (r: bool)
    ensures
        r == tip_set(tips@).contains(h@),
        r == (exists|i: int| 0 <= i < tips@.len() && #[trigger] tips@[i]@ == h@),
{
    let mut i: usize = 0;
    while i < tips.len()
        invariant
            0 <= i <= tips@.len(),
            forall|j: int| 0 <= j < i ==> #[trigger] tips@[j]@ != h@,
        decreases tips@.len() - i,
    {
        if tips[i] == *h {
            proof {
                assert(tips@[i as int]@ == h@);
                assert(tip_set(tips@).contains(h@));
            }
            return true;
        }
        i = i + 1;
    }
    false
}

/// Whether every tip of `a` is among `b`.
fn tips_within(a: &Vec<String>, b: &Vec<String>) -> (r: bool)
    ensures
        r == tip_set(a@).subset_of(tip_set(b@)),
{
    let mut i: usize = 0;
    while i < a.len()
        invariant
            0 <= i <= a@.len(),
            forall|j: int| 0 <= j < i ==> tip_set(b@).contains(#[trigger] a@[j]@),
        decreases a@.len() - i,
    {
        if !holds_tip(b, &a[i]) {
            proof {
                assert(tip_set(a@).contains(a@[i as int]@));
            }
            return false;
        }
        i = i + 1;
    }
    proof {
        assert forall|h: Seq<char>| tip_set(a@).contains(h) implies tip_set(b@).contains(h) by {
            let j = choose|j: int| 0 <= j < a@.len() && #[trigger] a@[j]@ == h;
        }
    }
    true
}

/// What the last recorded poll saw: the best block hash and the hashes of
/// the chain tips; and whether the rebuild that it asked for failed.
pub struct PollTracker {
    pub last_best: String,
    pub last_tips: Vec<String>,
    /// The last rebuild failed, so the next poll rebuilds whatever it sees.
    pub retry: bool,
}

impl PollTracker {
    /// Whether a poll that sees `best` and the tips `tips` differs from the
    /// last recorded one: the best hash or the set of tip hashes changed.
    pub open spec fn differs(&self, best: Seq<char>, tips: Set<Seq<char>>) -> bool {
        !(best == self.last_best@ && tips == tip_set(self.last_tips@))
    }

    /// A tracker that has seen nothing yet: an empty hash and no tips.
    pub fn new() -> (t: Self)
        ensures
            t.last_best@ == Seq::<char>::empty(),
            t.last_tips@.len() == 0,
            !t.retry,
    {
        PollTracker { last_best: String::new(), last_tips: Vec::new(), retry: false }
    }

    /// Takes one poll of the node: the best block hash (`None` when it could
    /// not be read) and the chain tips' hashes (`None` when they could not be
    /// listed, which counts as no tips). A poll without a best hash is
    /// skipped and changes nothing. Any other poll is recorded, and asks for
    /// a rebuild exactly when the best hash or the set of tip hashes changed
    /// since the last recorded poll, or when the last rebuild failed.
    pub fn observe(&mut self, best: Option<String>, tips: Option<Vec<String>>) -> (rebuild: bool)
        ensures
            match best {
                None => !rebuild && *final(self) == *old(self),
                Some(b) => {
                    let seen = match tips {
                        Some(t) => tip_set(t@),
                        None => Set::<Seq<char>>::empty(),
                    };
                    &&& rebuild == (old(self).retry || old(self).differs(b@, seen))
                    &&& rebuild == asks_rebuild(old(self).seen(), b@, seen)
                    &&& final(self).last_best@ == b@
                    &&& tip_set(final(self).last_tips@) == seen
                    &&& !final(self).retry
                },
            },
    {
        let b = match best {
            Some(b) => b,
            None => {
                return false;
            },
        };
        let t = match tips {
            Some(t) => t,
            None => {
                let e: Vec<String> = Vec::new();
                proof {
                    assert(tip_set(e@) =~= Set::<Seq<char>>::empty());
                }
                e
            },
        };
        let same = b == self.last_best && tips_within(&t, &self.last_tips) && tips_within(&self.last_tips, &t);
        proof {
            if b@ == self.last_best@ && tip_set(t@) == tip_set(self.last_tips@) {
                assert(tip_set(t@).subset_of(tip_set(self.last_tips@)));
            }
            if same {
                assert(tip_set(t@) =~= tip_set(self.last_tips@));
            }
        }
        let rebuild = self.retry || !same;
        self.last_best = b;
        self.last_tips = t;
        self.retry = false;
        rebuild
    }

    /// Takes the outcome of the rebuild that a poll asked for. A successful
    /// rebuild is announced to the explorers as a new best block `best`; a
    /// failed one is not, and makes the next poll rebuild again.
    pub fn finish_rebuild(&mut self, ok: bool, best: String) -> (event: Option<BlockEvent>)
        ensures
            final(self).last_best == old(self).last_best,
            final(self).last_tips == old(self).last_tips,
            ok ==> event == Some(BlockEvent::NewBlock { hash: best }) && final(self).retry == old(self).retry,
            !ok ==> event is None && final(self).retry,
    {
        if ok {
            Some(BlockEvent::NewBlock { hash: best })
        } else {
            self.retry = true;
            None
        }
    }
}

/// A poll that sees what the previous poll saw asks for no rebuild, unless
/// the rebuild failed: once a poll of `best` and the tips `tips` is recorded
/// and its rebuild did not fail (which `observe` and `finish_rebuild` ensure
/// of the tracker they leave), the same observation does not differ.
pub proof fn law_repeated_poll_is_quiet(after: PollTracker, best: Seq<char>, tips: Set<Seq<char>>)
    requires
        after.last_best@ == best,
        tip_set(after.last_tips@) == tips,
        !after.retry,
    ensures
        !(after.retry || after.differs(best, tips)),
{
}

/// A change of the tips that keeps their number, such as a stale branch
/// growing by one block, is a change.
pub proof fn law_replaced_tip_is_a_change(after: PollTracker, best: Seq<char>, gone: Seq<char>, grown: Seq<char>)
    requires
        tip_set(after.last_tips@).contains(gone),
        !tip_set(after.last_tips@).contains(grown),
    ensures
        after.differs(best, tip_set(after.last_tips@).remove(gone).insert(grown)),
{
    assert(tip_set(after.last_tips@).remove(gone).insert(grown).contains(grown));
}

/// The tip set of a listing holds every listed tip, at any position, and
/// nothing else.
pub proof fn law_tip_set_is_every_listed_tip(tips: Seq<String>)
    ensures
        forall|i: int| 0 <= i < tips.len() ==> #[trigger] tip_set(tips).contains(tips[i]@),
        forall|h: Seq<char>| #[trigger] tip_set(tips).contains(h) ==> exists|i: int| 0 <= i < tips.len() && tips[i]@ == h,
{
    assert forall|i: int| 0 <= i < tips.len() implies #[trigger] tip_set(tips).contains(tips[i]@) by {
        assert(tips[i]@ == tips[i]@);
    }
}

/// A poll that lists a tip that the last recorded poll did not list, at any
/// position of either listing, asks for a rebuild, whatever the best hash.
pub proof fn law_new_tip_asks_rebuild(last: PollTracker, best: Seq<char>, tips: Seq<String>, i: int)
    requires
        0 <= i < tips.len(),
        forall|j: int| 0 <= j < last.last_tips@.len() ==> #[trigger] last.last_tips@[j]@ != tips[i]@,
    ensures
        asks_rebuild(last.seen(), best, tip_set(tips)),
        last.differs(best, tip_set(tips)),
{
    law_tip_set_is_every_listed_tip(tips);
    law_tip_set_is_every_listed_tip(last.last_tips@);
    assert(tip_set(tips).contains(tips[i]@));
    assert(!tip_set(last.last_tips@).contains(tips[i]@));
}

// ---------------------------------------------------------------------------
// Polling over time

/// What a tracker has recorded: the best hash and tip set of the last
/// recorded poll, and whether its rebuild failed.
pub ghost struct PollView {
    pub best: Seq<char>,
    pub tips: Set<Seq<char>>,
    pub retry: bool,
}

impl PollTracker {
    /// What this tracker has recorded.
    pub open spec fn seen(&self) -> PollView {
        PollView { best: self.last_best@, tips: tip_set(self.last_tips@), retry: self.retry }
    }
}

/// The set of a list of hashes.
pub open spec fn seq_set(s: Seq<Seq<char>>) -> Set<Seq<char>> {
    Set::new(|h: Seq<char>| s.contains(h))
}

/// Whether a poll that sees `best` and the tips `tips` asks for a rebuild
/// (what `observe` answers).
pub open spec fn asks_rebuild(t: PollView, best: Seq<char>, tips: Set<Seq<char>>) -> bool {
    t.retry || !(best == t.best && tips == t.tips)
}

/// The tree that a successful rebuild installs on a node that answers
/// `node`, whose best hash is `best` and whose tips are `tips`: the blocks
/// reached from the tips, marked active on the chain that ends at `best`
/// (`SyncWalk`, `law_rebuild_gives_the_node_tree` and
/// `ChainState::install_sync`).
pub open spec fn node_view(node: Answers, best: Seq<char>, tips: Seq<Seq<char>>) -> Map<Seq<char>, BlockNodeView> {
    installed_tree(rebuilt_tree(node, tips), best)
}

/// The explorer's polling state: what the tracker recorded, the tips of the
/// last recorded poll, and the tree the explorer shows.
pub ghost struct PollState {
    pub tracker: PollView,
    pub tips: Seq<Seq<char>>,
    pub tree: Map<Seq<char>, BlockNodeView>,
}

/// The state when polling starts: nothing seen, an empty tree.
pub open spec fn first_state() -> PollState {
    PollState {
        tracker: PollView { best: Seq::empty(), tips: Set::empty(), retry: false },
        tips: Seq::empty(),
        tree: Map::empty(),
    }
}

/// One tick of polling on a node that answers `node`: the poll sees `best`
/// and `tips`; when it asks for a rebuild, the rebuild succeeds (`ok`) and
/// installs the node's tree, or fails and leaves the tree as it was
/// (`observe`, then `finish_rebuild`).
pub open spec fn tick(s: PollState, node: Answers, best: Seq<char>, tips: Seq<Seq<char>>, ok: bool) -> PollState {
    let rebuild = asks_rebuild(s.tracker, best, seq_set(tips));
    PollState {
        tracker: PollView { best, tips: seq_set(tips), retry: rebuild && !ok },
        tips,
        tree: if rebuild && ok { node_view(node, best, tips) } else { s.tree },
    }
}

/// `n` ticks in which the node's best hash and tips stay `best` and `tips`
/// and every rebuild succeeds.
pub open spec fn steady_ticks(s: PollState, node: Answers, best: Seq<char>, tips: Seq<Seq<char>>, n: nat) -> PollState
    decreases n,
{
    if n == 0 {
        s
    } else {
        tick(steady_ticks(s, node, best, tips, (n - 1) as nat), node, best, tips, true)
    }
}

/// The tree shows what the node answers for the last recorded poll, unless
/// that poll's rebuild failed.
pub open spec fn in_step(s: PollState, node: Answers) -> bool {
    &&& s.tracker.tips == seq_set(s.tips)
    &&& !s.tracker.retry ==> s.tree == node_view(node, s.tracker.best, s.tips)
}

/// Tips with the same set reach the same tree.
pub proof fn lemma_tree_by_tip_set(node: Answers, t1: Seq<Seq<char>>, t2: Seq<Seq<char>>)
    requires
        seq_set(t1) == seq_set(t2),
    ensures
        rebuilt_tree(node, t1) == rebuilt_tree(node, t2),
{
    assert forall|h: Seq<char>| reached(node, t1, h) implies reached(node, t2, h) by {
        let (t, k) = choose|t: int, k: nat| 0 <= t < t1.len() && #[trigger] chase(node, t1[t], k) == Some(h);
        assert(seq_set(t1).contains(t1[t]));
        assert(seq_set(t2).contains(t1[t]));
        let j = choose|j: int| 0 <= j < t2.len() && t2[j] == t1[t];
        assert(chase(node, t2[j], k) == Some(h));
    }
    assert forall|h: Seq<char>| reached(node, t2, h) implies reached(node, t1, h) by {
        let (t, k) = choose|t: int, k: nat| 0 <= t < t2.len() && #[trigger] chase(node, t2[t], k) == Some(h);
        assert(seq_set(t2).contains(t2[t]));
        assert(seq_set(t1).contains(t2[t]));
        let j = choose|j: int| 0 <= j < t1.len() && t1[j] == t2[t];
        assert(chase(node, t1[j], k) == Some(h));
    }
    assert(rebuilt_tree(node, t1) =~= rebuilt_tree(node, t2));
}

/// Polling starts in step: the empty tree is what a node shows for no tips.
pub proof fn law_polling_starts_in_step(node: Answers)
    ensures
        in_step(first_state(), node),
{
    let s = first_state();
    assert(seq_set(s.tips) =~= Set::<Seq<char>>::empty());
    assert(rebuilt_tree(node, s.tips) =~= Map::<Seq<char>, BlockNodeView>::empty());
    assert(node_view(node, s.tracker.best, s.tips) =~= Map::<Seq<char>, BlockNodeView>::empty());
}

/// Every tick keeps polling in step, on a node that answers the same.
pub proof fn law_tick_keeps_step(s: PollState, node: Answers, best: Seq<char>, tips: Seq<Seq<char>>, ok: bool)
    requires
        in_step(s, node),
    ensures
        in_step(tick(s, node, best, tips, ok), node),
{
    if !asks_rebuild(s.tracker, best, seq_set(tips)) {
        lemma_tree_by_tip_set(node, s.tips, tips);
    }
}

/// Polling converges: once the node's best hash and tips stay fixed and the
/// rebuilds succeed, after one tick the explorer shows the node's tree, and
/// from the second tick on no poll asks for a rebuild.
pub proof fn law_polling_converges(s: PollState, node: Answers, best: Seq<char>, tips: Seq<Seq<char>>, n: nat)
    requires
        in_step(s, node),
        n >= 1,
    ensures
        steady_ticks(s, node, best, tips, n).tree == node_view(node, best, tips),
        !steady_ticks(s, node, best, tips, n).tracker.retry,
        n >= 2 ==> !asks_rebuild(steady_ticks(s, node, best, tips, (n - 1) as nat).tracker, best, seq_set(tips)),
    decreases n,
{
    let before = steady_ticks(s, node, best, tips, (n - 1) as nat);
    if n == 1 {
        if !asks_rebuild(s.tracker, best, seq_set(tips)) {
            lemma_tree_by_tip_set(node, s.tips, tips);
        }
    } else {
        law_polling_converges(s, node, best, tips, (n - 1) as nat);
        assert(before.tracker.best == best);
        assert(before.tracker.tips == seq_set(tips));
    }
}

} // verus!
