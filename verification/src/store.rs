//! The block tree: tree nodes keyed by block hash, in insertion order.
use vstd::prelude::*;
use vstd::set_lib::*;

use crate::block::{BlockNode, BlockNodeView};

verus! {

/// An entry of the tree: a key and the node stored under it.
pub type Entry = (Seq<char>, BlockNodeView);

/// No key occurs twice.
pub open spec fn unique_keys(s: Seq<Entry>) -> bool {
    forall|i: int, j: int|
        0 <= i < s.len() && 0 <= j < s.len() && i != j ==> #[trigger] s[i].0 != #[trigger] s[j].0
}

/// Some entry has key `k`.
pub open spec fn has_key(s: Seq<Entry>, k: Seq<char>) -> bool {
    exists|i: int| 0 <= i < s.len() && #[trigger] s[i].0 == k
}

/// The map from keys to nodes that a list of entries describes.
pub open spec fn map_of(s: Seq<Entry>) -> Map<Seq<char>, BlockNodeView> {
    Map::new(
        |k: Seq<char>| has_key(s, k),
        |k: Seq<char>| s[choose|i: int| 0 <= i < s.len() && #[trigger] s[i].0 == k].1,
    )
}

/// In a list with unique keys, the map holds each entry's node under its key.
pub proof fn lemma_map_of_at(s: Seq<Entry>, i: int)
    requires
        unique_keys(s),
        0 <= i < s.len(),
    ensures
        map_of(s).contains_key(s[i].0),
        map_of(s)[s[i].0] == s[i].1,
{
    let k = s[i].0;
    assert(has_key(s, k));
    let j = choose|j: int| 0 <= j < s.len() && #[trigger] s[j].0 == k;
    assert(j == i);
}

/// In a list with unique keys, every key of the map is the key of an entry.
pub proof fn lemma_map_of_all(s: Seq<Entry>)
    requires
        unique_keys(s),
    ensures
        forall|i: int| 0 <= i < s.len() ==> #[trigger] map_of(s).contains_key(s[i].0) && map_of(s)[s[i].0] == s[i].1,
        forall|k: Seq<char>| #[trigger] map_of(s).contains_key(k) <==> has_key(s, k),
{
    assert forall|i: int| 0 <= i < s.len() implies #[trigger] map_of(s).contains_key(s[i].0) && map_of(s)[s[i].0] == s[i].1 by {
        lemma_map_of_at(s, i);
    }
}

/// Where the parent link of the block at `h` leads: nowhere once the walk has
/// left the tree or reached a block without a parent.
pub open spec fn step_back(m: Map<Seq<char>, BlockNodeView>, h: Option<Seq<char>>) -> Option<Seq<char>> {
    match h {
        Some(k) => if m.contains_key(k) { m[k].prev_hash } else { None },
        None => None,
    }
}

/// The hash reached from `from` after following `n` parent links.
pub open spec fn walk(m: Map<Seq<char>, BlockNodeView>, from: Seq<char>, n: nat) -> Option<Seq<char>>
    decreases n,
{
    if n == 0 {
        Some(from)
    } else {
        step_back(m, walk(m, from, (n - 1) as nat))
    }
}

/// `k` is a block of the tree that following parent links from `best` reaches
/// (`best` itself included): the active chain.
pub open spec fn on_active_chain(m: Map<Seq<char>, BlockNodeView>, best: Seq<char>, k: Seq<char>) -> bool {
    m.contains_key(k) && exists|n: nat| #[trigger] walk(m, best, n) == Some(k)
}

proof fn lemma_walk_none(m: Map<Seq<char>, BlockNodeView>, b: Seq<char>, t: nat, j: nat)
    requires
        walk(m, b, t) is None,
    ensures
        walk(m, b, t + j) is None,
    decreases j,
{
    if j > 0 {
        lemma_walk_none(m, b, t, (j - 1) as nat);
        assert(walk(m, b, t + j) == step_back(m, walk(m, b, (t + j - 1) as nat)));
    }
}

proof fn lemma_walk_shift(m: Map<Seq<char>, BlockNodeView>, b: Seq<char>, t1: nat, t2: nat, j: nat)
    requires
        walk(m, b, t1) == walk(m, b, t2),
    ensures
        walk(m, b, t1 + j) == walk(m, b, t2 + j),
    decreases j,
{
    if j > 0 {
        lemma_walk_shift(m, b, t1, t2, (j - 1) as nat);
        assert(walk(m, b, t1 + j) == step_back(m, walk(m, b, (t1 + j - 1) as nat)));
        assert(walk(m, b, t2 + j) == step_back(m, walk(m, b, (t2 + j - 1) as nat)));
    }
}

/// Once the walk revisits the hash it had at step `t0` at step `s`, every
/// later step repeats an earlier one.
proof fn lemma_walk_repeats(m: Map<Seq<char>, BlockNodeView>, b: Seq<char>, t0: nat, s: nat, t: nat)
    requires
        t0 < s,
        walk(m, b, t0) == walk(m, b, s),
    ensures
        exists|u: nat| u < s && walk(m, b, t) == #[trigger] walk(m, b, u),
    decreases t,
{
    if t < s {
        assert(walk(m, b, t) == walk(m, b, t));
    } else {
        let p = (s - t0) as nat;
        let j = (t - s) as nat;
        lemma_walk_shift(m, b, t0, s, j);
        assert(t0 + j == t - p);
        assert(s + j == t);
        lemma_walk_repeats(m, b, t0, s, (t - p) as nat);
    }
}

/// The best block is on the active chain whenever the tree holds it.
pub proof fn law_best_block_is_active(m: Map<Seq<char>, BlockNodeView>, best: Seq<char>)
    requires
        m.contains_key(best),
    ensures
        on_active_chain(m, best, best),
{
    assert(walk(m, best, 0) == Some(best));
}

/// The active chain is closed under parent links: the parent of an active
/// block is active whenever the tree holds it.
pub proof fn law_parent_of_active_is_active(m: Map<Seq<char>, BlockNodeView>, best: Seq<char>, k: Seq<char>)
    requires
        on_active_chain(m, best, k),
        m[k].prev_hash is Some,
        m.contains_key(m[k].prev_hash->0),
    ensures
        on_active_chain(m, best, m[k].prev_hash->0),
{
    let n = choose|n: nat| #[trigger] walk(m, best, n) == Some(k);
    assert(walk(m, best, n + 1) == step_back(m, walk(m, best, n)));
}

/// Which blocks are active depends only on which blocks the tree holds and
/// on their parent links: two trees that agree on those agree on the active
/// chain. In particular, marking a tree a second time with the same best
/// block changes nothing.
pub proof fn law_activity_depends_only_on_links(
    m1: Map<Seq<char>, BlockNodeView>,
    m2: Map<Seq<char>, BlockNodeView>,
    best: Seq<char>,
    k: Seq<char>,
)
    requires
        m1.dom() == m2.dom(),
        forall|h: Seq<char>| #[trigger] m1.contains_key(h) ==> m1[h].prev_hash == m2[h].prev_hash,
    ensures
        on_active_chain(m1, best, k) == on_active_chain(m2, best, k),
{
    assert forall|n: nat| #[trigger] walk(m1, best, n) == walk(m2, best, n) by {
        lemma_walk_same_links(m1, m2, best, n);
    }
    if on_active_chain(m1, best, k) {
        let n = choose|n: nat| #[trigger] walk(m1, best, n) == Some(k);
        assert(walk(m2, best, n) == Some(k));
    }
    if on_active_chain(m2, best, k) {
        let n = choose|n: nat| #[trigger] walk(m2, best, n) == Some(k);
        assert(walk(m1, best, n) == Some(k));
    }
}

proof fn lemma_walk_same_links(
    m1: Map<Seq<char>, BlockNodeView>,
    m2: Map<Seq<char>, BlockNodeView>,
    best: Seq<char>,
    n: nat,
)
    requires
        m1.dom() == m2.dom(),
        forall|h: Seq<char>| #[trigger] m1.contains_key(h) ==> m1[h].prev_hash == m2[h].prev_hash,
    ensures
        walk(m1, best, n) == walk(m2, best, n),
    decreases n,
{
    if n > 0 {
        lemma_walk_same_links(m1, m2, best, (n - 1) as nat);
        let w = walk(m1, best, (n - 1) as nat);
        if w is Some {
            assert(m1.contains_key(w->0) == m2.contains_key(w->0));
        }
    }
}

/// A listing of a tree's entries, one node per entry in entry order, holds
/// every node of the tree's map and has as many nodes as the map has keys.
pub proof fn law_listing_is_complete(s: Seq<Entry>, listing: Seq<BlockNodeView>)
    requires
        unique_keys(s),
        listing.len() == s.len(),
        forall|i: int| 0 <= i < s.len() ==> #[trigger] listing[i] == s[i].1,
    ensures
        forall|k: Seq<char>| #[trigger] map_of(s).contains_key(k) ==> exists|i: int| 0 <= i < listing.len() && listing[i] == map_of(s)[k],
        forall|i: int| 0 <= i < listing.len() ==> #[trigger] map_of(s).contains_key(s[i].0) && map_of(s)[s[i].0] == listing[i],
{
    lemma_map_of_all(s);
    assert forall|k: Seq<char>| #[trigger] map_of(s).contains_key(k) implies exists|i: int| 0 <= i < listing.len() && listing[i] == map_of(s)[k] by {
        let i = choose|i: int| 0 <= i < s.len() && #[trigger] s[i].0 == k;
        assert(listing[i] == map_of(s)[k]);
    }
}

/// Tree nodes keyed by block hash. Keys are unique; the entries keep the
/// order in which their keys were first inserted.
pub struct BlockStore {
    keys: Vec<String>,
    nodes: Vec<BlockNode>,
}

impl View for BlockStore {
    type V = Seq<Entry>;

    closed spec fn view(&self) -> Seq<Entry> {
        Seq::new(self.keys@.len(), |i: int| (self.keys@[i]@, self.nodes@[i]@))
    }
}

impl BlockStore {
    #[verifier::type_invariant]
    spec fn well_formed(&self) -> bool {
        &&& self.keys@.len() == self.nodes@.len()
        &&& unique_keys(self@)
    }

    /// The map from keys to nodes that the store holds.
    pub open spec fn map(&self) -> Map<Seq<char>, BlockNodeView> {
        map_of(self@)
    }

    /// An empty store.
    pub fn new() -> (s: Self)
        ensures
            s@ == Seq::<Entry>::empty(),
            s.map() == Map::<Seq<char>, BlockNodeView>::empty(),
    {
        let s = BlockStore { keys: Vec::new(), nodes: Vec::new() };
        assert(s@ =~= Seq::<Entry>::empty());
        assert(s.map() =~= Map::<Seq<char>, BlockNodeView>::empty());
        s
    }

    /// Number of stored nodes.
    pub fn len(&self) -> (n: usize)
        ensures
            n == self@.len(),
            n == self.map().len(),
    {
        proof {
            use_type_invariant(self);
            self.lemma_map_len();
        }
        self.keys.len()
    }

    proof fn lemma_map_len(&self)
        requires
            self.well_formed(),
        ensures
            self.map().len() == self@.len(),
            self.map().dom().finite(),
    {
        let s = self@;
        let n = s.len();
        lemma_map_of_all(s);
        // the keys form an injective image of 0..n
        let f = |i: int| s[i].0;
        let r = set_int_range(0, n as int);
        lemma_int_range(0, n as int);
        assert(map_of(s).dom() =~= r.map(f)) by {
            assert forall|k: Seq<char>| #[trigger] map_of(s).dom().contains(k) implies r.map(f).contains(k) by {
                let i = choose|i: int| 0 <= i < s.len() && #[trigger] s[i].0 == k;
                assert(r.contains(i));
                assert(f(i) == k);
            }
            assert forall|k: Seq<char>| #[trigger] r.map(f).contains(k) implies map_of(s).dom().contains(k) by {
                let i = choose|i: int| r.contains(i) && f(i) == k;
                assert(s[i].0 == k);
            }
        }
        assert(vstd::relations::injective_on(f, r)) by {
            assert forall|x: int, y: int| r.contains(x) && r.contains(y) && #[trigger] f(x) == #[trigger] f(y) implies x == y by {
            }
        }
        lemma_map_size(r, r.map(f), f);
    }

    /// Index of the entry with key `key`.
    fn find(&self, key: &String) -> (r: Option<usize>)
        ensures
            match r {
                Some(i) => i < self@.len() && self@[i as int].0 == key@,
                None => !has_key(self@, key@),
            },
    {
        proof {
            use_type_invariant(self);
        }
        let n = self.keys.len();
        let mut i: usize = 0;
        while i < n
            invariant
                n == self.keys@.len(),
                self.keys@.len() == self.nodes@.len(),
                0 <= i <= n,
                forall|j: int| 0 <= j < i ==> #[trigger] self@[j].0 != key@,
            decreases n - i,
        {
            if self.keys[i] == *key {
                return Some(i);
            }
            assert(self@[i as int].0 == self.keys@[i as int]@);
            i = i + 1;
        }
        assert forall|j: int| 0 <= j < self@.len() implies #[trigger] self@[j].0 != key@ by {}
        None
    }

    /// Whether a node is stored under `key`.
    pub fn contains_key(&self, key: &String) -> (r: bool)
        ensures
            r == self.map().contains_key(key@),
    {
        proof {
            use_type_invariant(self);
            lemma_map_of_all(self@);
        }
        match self.find(key) {
            Some(_) => true,
            None => false,
        }
    }

    /// The node stored under `key`, if any.
    pub fn get(&self, key: &String) -> (r: Option<&BlockNode>)
        ensures
            match r {
                Some(node) => self.map().contains_key(key@) && node@ == self.map()[key@],
                None => !self.map().contains_key(key@),
            },
    {
        proof {
            use_type_invariant(self);
            lemma_map_of_all(self@);
        }
        match self.find(key) {
            Some(i) => {
                proof {
                    lemma_map_of_at(self@, i as int);
                }
                Some(&self.nodes[i])
            },
            None => None,
        }
    }

    /// Stores `node` under `key`, replacing the node stored there before. A
    /// replaced entry keeps its place; a new key goes last.
    pub fn insert(&mut self, key: String, node: BlockNode)
        ensures
            final(self).map() == old(self).map().insert(key@, node@),
            has_key(old(self)@, key@) ==> exists|i: int|
                0 <= i < old(self)@.len() && old(self)@[i].0 == key@
                && #[trigger] final(self)@ == old(self)@.update(i, (key@, node@)),
            !has_key(old(self)@, key@) ==> final(self)@ == old(self)@.push((key@, node@)),
    {
        proof {
            use_type_invariant(&*self);
        }
        let ghost old_s = self@;
        let found = self.find(&key);
        let ghost kv = key@;
        let ghost nv = node@;
        let mut taken = BlockStore::new();
        std::mem::swap(self, &mut taken);
        let BlockStore { mut keys, mut nodes } = taken;
        match found {
            Some(i) => {
                nodes.set(i, node);
            },
            None => {
                keys.push(key);
                nodes.push(node);
            },
        }
        proof {
            let t = Seq::new(keys@.len(), |i: int| (keys@[i]@, nodes@[i]@));
            match found {
                Some(i) => {
                    assert(t =~= old_s.update(i as int, (kv, nv)));
                },
                None => {
                    assert(t =~= old_s.push((kv, nv)));
                },
            }
            assert(unique_keys(t));
        }
        *self = BlockStore { keys, nodes };
        proof {
            let s = self@;
            lemma_map_of_all(old_s);
            lemma_map_of_all(s);
            assert(map_of(s) =~= map_of(old_s).insert(key@, node@)) by {
                assert forall|k: Seq<char>| #[trigger] map_of(s).contains_key(k) <==> map_of(old_s).insert(key@, node@).contains_key(k) by {
                    if has_key(s, k) {
                        let j = choose|j: int| 0 <= j < s.len() && #[trigger] s[j].0 == k;
                        if k != key@ {
                            assert(old_s[j].0 == k);
                        }
                    }
                    if has_key(old_s, k) {
                        let j = choose|j: int| 0 <= j < old_s.len() && #[trigger] old_s[j].0 == k;
                        assert(s[j].0 == k);
                    }
                    if k == key@ {
                        let j = if has_key(old_s, k) { choose|j: int| 0 <= j < old_s.len() && #[trigger] old_s[j].0 == k } else { old_s.len() as int };
                        assert(s[j].0 == k);
                    }
                }
                assert forall|k: Seq<char>| #[trigger] map_of(s).contains_key(k) implies map_of(s)[k] == map_of(old_s).insert(key@, node@)[k] by {
                    let j = choose|j: int| 0 <= j < s.len() && #[trigger] s[j].0 == k;
                    lemma_map_of_at(s, j);
                    if k != key@ {
                        assert(old_s[j] == s[j]);
                        lemma_map_of_at(old_s, j);
                    }
                }
            }
        }
    }

    /// Copies of the stored nodes, in entry order.
    pub fn values(&self) -> (r: Vec<BlockNode>)
        ensures
            r@.len() == self@.len(),
            r@.len() == self.map().len(),
            forall|i: int| 0 <= i < self@.len() ==> #[trigger] r@[i]@ == self@[i].1,
    {
        proof {
            use_type_invariant(self);
            self.lemma_map_len();
        }
        let n = self.nodes.len();
        let mut out: Vec<BlockNode> = Vec::new();
        let mut i: usize = 0;
        while i < n
            invariant
                n == self.nodes@.len(),
                self.keys@.len() == self.nodes@.len(),
                0 <= i <= n,
                out@.len() == i,
                forall|j: int| 0 <= j < i ==> #[trigger] out@[j]@ == self@[j].1,
            decreases n - i,
        {
            out.push(self.nodes[i].duplicate());
            i = i + 1;
        }
        out
    }

    /// Marks as active exactly the stored blocks that following parent links
    /// from `best` reaches (`best` itself included); every other block is
    /// marked stale. Nothing else changes.
    pub fn mark_active_chain(&mut self, best: &String)
        ensures
            final(self)@.len() == old(self)@.len(),
            forall|i: int| 0 <= i < old(self)@.len() ==> #[trigger] final(self)@[i] == (
                old(self)@[i].0,
                old(self)@[i].1.with_active(on_active_chain(old(self).map(), best@, old(self)@[i].0)),
            ),
            final(self).map() == Map::new(
                |k: Seq<char>| old(self).map().contains_key(k),
                |k: Seq<char>| old(self).map()[k].with_active(on_active_chain(old(self).map(), best@, k)),
            ),
    {
        proof {
            use_type_invariant(&*self);
            lemma_map_of_all(self@);
        }
        let ghost s = self@;
        let ghost m = self.map();
        let n = self.keys.len();
        let mut marks: Vec<bool> = Vec::new();
        let mut i: usize = 0;
        while i < n
            invariant
                0 <= i <= n,
                marks@.len() == i,
                forall|j: int| 0 <= j < i ==> !#[trigger] marks@[j],
            decreases n - i,
        {
            marks.push(false);
            i = i + 1;
        }
        let mut cur: String = best.clone();
        let ghost mut steps: nat = 0;
        let mut done = false;
        proof {
            lemma_int_range(0, n as int);
            assert(Set::new(|j: int| 0 <= j < n && marks@[j]) =~= Set::<int>::empty());
        }
        while !done
            invariant
                s == self@,
                m == self.map(),
                m == map_of(s),
                unique_keys(s),
                n == s.len(),
                self.keys@.len() == n,
                self.nodes@.len() == n,
                forall|j: int| 0 <= j < s.len() ==> #[trigger] m.contains_key(s[j].0) && m[s[j].0] == s[j].1,
                forall|k: Seq<char>| #[trigger] m.contains_key(k) <==> has_key(s, k),
                marks@.len() == n,
                steps <= n,
                Set::new(|j: int| 0 <= j < n && marks@[j]).finite(),
                Set::new(|j: int| 0 <= j < n && marks@[j]).len() == steps,
                set_int_range(0, n as int).finite(),
                set_int_range(0, n as int).len() == n,
                forall|j: int| 0 <= j < n ==> (#[trigger] marks@[j] <==> exists|t: nat| t < steps && #[trigger] walk(m, best@, t) == Some(s[j].0)),
                !done ==> walk(m, best@, steps) == Some(cur@),
                done ==> forall|t: nat| #![trigger walk(m, best@, t)]
                    walk(m, best@, t) is Some && m.contains_key(walk(m, best@, t)->0)
                    ==> exists|u: nat| u < steps && walk(m, best@, t) == #[trigger] walk(m, best@, u),
            decreases n - steps + (if done { 0int } else { 1int }),
        {
            match self.find(&cur) {
                None => {
                    proof {
                        assert(!m.contains_key(cur@));
                        assert(walk(m, best@, steps + 1) is None);
                        assert forall|t: nat| #![trigger walk(m, best@, t)]
                            walk(m, best@, t) is Some && m.contains_key(walk(m, best@, t)->0)
                            implies exists|u: nat| u < steps && walk(m, best@, t) == #[trigger] walk(m, best@, u) by {
                            if t > steps {
                                lemma_walk_none(m, best@, steps + 1, (t - steps - 1) as nat);
                                assert(steps + 1 + (t - steps - 1) == t);
                            } else if t == steps {
                            } else {
                                assert(walk(m, best@, t) == walk(m, best@, t));
                            }
                        }
                    }
                    done = true;
                },
                Some(idx) => {
                    if marks[idx] {
                        proof {
                            let t0 = choose|t: nat| t < steps && #[trigger] walk(m, best@, t) == Some(s[idx as int].0);
                            assert forall|t: nat| #![trigger walk(m, best@, t)]
                                walk(m, best@, t) is Some && m.contains_key(walk(m, best@, t)->0)
                                implies exists|u: nat| u < steps && walk(m, best@, t) == #[trigger] walk(m, best@, u) by {
                                lemma_walk_repeats(m, best@, t0, steps, t);
                            }
                        }
                        done = true;
                    } else {
                        let ghost old_marks = marks@;
                        marks.set(idx, true);
                        proof {
                            let old_set = Set::new(|j: int| 0 <= j < n && old_marks[j]);
                            let new_set = Set::new(|j: int| 0 <= j < n && marks@[j]);
                            assert(new_set =~= old_set.insert(idx as int));
                            assert(!old_set.contains(idx as int));
                            assert(new_set.subset_of(set_int_range(0, n as int)));
                            lemma_len_subset(new_set, set_int_range(0, n as int));
                            assert forall|j: int| 0 <= j < n implies (#[trigger] marks@[j] <==> exists|t: nat| t < steps + 1 && #[trigger] walk(m, best@, t) == Some(s[j].0)) by {
                                if j == idx {
                                    assert(walk(m, best@, steps) == Some(s[j].0));
                                } else {
                                    if exists|t: nat| t < steps + 1 && #[trigger] walk(m, best@, t) == Some(s[j].0) {
                                        let t = choose|t: nat| t < steps + 1 && #[trigger] walk(m, best@, t) == Some(s[j].0);
                                        if t == steps {
                                            assert(s[j].0 == s[idx as int].0);
                                        }
                                        assert(t < steps);
                                    }
                                }
                            }
                        }
                        let ghost prev_steps = steps;
                        proof {
                            steps = steps + 1;
                            assert(walk(m, best@, steps) == step_back(m, walk(m, best@, prev_steps)));
                        }
                        match &self.nodes[idx].prev_hash {
                            Some(p) => {
                                cur = p.clone();
                            },
                            None => {
                                proof {
                                    assert(walk(m, best@, steps) is None);
                                    assert forall|t: nat| #![trigger walk(m, best@, t)]
                                        walk(m, best@, t) is Some && m.contains_key(walk(m, best@, t)->0)
                                        implies exists|u: nat| u < steps && walk(m, best@, t) == #[trigger] walk(m, best@, u) by {
                                        if t >= steps {
                                            lemma_walk_none(m, best@, steps, (t - steps) as nat);
                                            assert(steps + (t - steps) == t);
                                        } else {
                                            assert(walk(m, best@, t) == walk(m, best@, t));
                                        }
                                    }
                                }
                                done = true;
                            },
                        }
                    }
                },
            }
        }
        // Rebuild the entries with the new flags.
        let mut keys: Vec<String> = Vec::new();
        let mut nodes: Vec<BlockNode> = Vec::new();
        let mut i: usize = 0;
        while i < n
            invariant
                s == self@,
                n == s.len(),
                self.keys@.len() == n,
                self.nodes@.len() == n,
                marks@.len() == n,
                0 <= i <= n,
                keys@.len() == i,
                nodes@.len() == i,
                forall|j: int| 0 <= j < i ==> #[trigger] keys@[j]@ == s[j].0 && nodes@[j]@ == s[j].1.with_active(marks@[j]),
            decreases n - i,
        {
            let mut node = self.nodes[i].duplicate();
            node.is_active = marks[i];
            keys.push(self.keys[i].clone());
            nodes.push(node);
            i = i + 1;
        }
        proof {
            let t = Seq::new(keys@.len(), |j: int| (keys@[j]@, nodes@[j]@));
            assert forall|j: int| 0 <= j < n implies #[trigger] t[j] == (s[j].0, s[j].1.with_active(on_active_chain(m, best@, s[j].0))) by {
                assert(m.contains_key(s[j].0));
                if marks@[j] {
                    let w = choose|w: nat| w < steps && #[trigger] walk(m, best@, w) == Some(s[j].0);
                    assert(on_active_chain(m, best@, s[j].0));
                } else {
                    if on_active_chain(m, best@, s[j].0) {
                        let w = choose|w: nat| #[trigger] walk(m, best@, w) == Some(s[j].0);
                        let u = choose|u: nat| u < steps && walk(m, best@, w) == #[trigger] walk(m, best@, u);
                        assert(false);
                    }
                }
            }
            assert(unique_keys(t)) by {
                assert forall|a: int, b: int| 0 <= a < t.len() && 0 <= b < t.len() && a != b implies #[trigger] t[a].0 != #[trigger] t[b].0 by {
                    assert(t[a].0 == s[a].0);
                    assert(t[b].0 == s[b].0);
                }
            }
            lemma_map_of_all(t);
            let target = Map::new(
                |k: Seq<char>| m.contains_key(k),
                |k: Seq<char>| m[k].with_active(on_active_chain(m, best@, k)),
            );
            assert(map_of(t) =~= target) by {
                assert forall|k: Seq<char>| #[trigger] map_of(t).contains_key(k) <==> target.contains_key(k) by {
                    if has_key(t, k) {
                        let j = choose|j: int| 0 <= j < t.len() && #[trigger] t[j].0 == k;
                        assert(s[j].0 == k);
                    }
                    if has_key(s, k) {
                        let j = choose|j: int| 0 <= j < s.len() && #[trigger] s[j].0 == k;
                        assert(t[j].0 == k);
                    }
                }
                assert forall|k: Seq<char>| #[trigger] map_of(t).contains_key(k) implies map_of(t)[k] == target[k] by {
                    let j = choose|j: int| 0 <= j < t.len() && #[trigger] t[j].0 == k;
                    assert(t[j] == (s[j].0, s[j].1.with_active(on_active_chain(m, best@, s[j].0))));
                }
            }
        }
        *self = BlockStore { keys, nodes };
    }
}

} // verus!
